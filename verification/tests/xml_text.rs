//! Elements, documents and what may stand in them.

use mixlyzer::export::xml::{escape_attribute, is_xml_char, sanitize_xml_text, Element};

#[test]
fn a_document_starts_with_the_declaration_and_indents_by_two_spaces() {
    let doc = Element::new("ROOT")
        .attr("Version", "1.0.0")
        .child(Element::new("CHILD").child(Element::new("LEAF").attr("A", "1")))
        .to_document();
    assert_eq!(
        doc,
        "<?xml version=\"1.0\" encoding=\"UTF-8\"?>\n\
         <ROOT Version=\"1.0.0\">\n\
         \x20 <CHILD>\n\
         \x20   <LEAF A=\"1\"/>\n\
         \x20 </CHILD>\n\
         </ROOT>\n"
    );
}

#[test]
fn the_five_predefined_entities_are_escaped() {
    assert_eq!(
        escape_attribute(r#"Rock & Roll <"mix"> 'x'"#),
        "Rock &amp; Roll &lt;&quot;mix&quot;&gt; &apos;x&apos;"
    );
}

#[test]
fn control_characters_are_stripped_rather_than_aborting_the_export() {
    assert_eq!(escape_attribute("bad\u{0}\u{1}\u{1f}title"), "badtitle");
    assert_eq!(sanitize_xml_text("a\u{b}\u{c}b"), "ab");
    // Non-characters and the surrogate-adjacent block go too.
    assert_eq!(sanitize_xml_text("a\u{fffe}\u{ffff}b"), "ab");
}

#[test]
fn whitespace_controls_survive_as_numeric_references() {
    assert_eq!(escape_attribute("a\tb\nc\rd"), "a&#9;b&#10;c&#13;d");
}

#[test]
fn emoji_and_cjk_text_pass_through_unchanged() {
    let value = "🎧 ダンス 音楽 — 中文 café";
    assert_eq!(escape_attribute(value), value);
    assert_eq!(sanitize_xml_text(value), value);
}

#[test]
fn hostile_metadata_still_produces_a_well_formed_attribute() {
    let doc = Element::new("TRACK")
        .attr("Name", "a\u{0}b\"c&d<e>f🎧")
        .to_document();
    assert!(doc.contains(r#"Name="ab&quot;c&amp;d&lt;e&gt;f🎧""#));
    assert!(!doc.contains('\u{0}'));
}

#[test]
fn attribute_order_is_insertion_order() {
    let doc = Element::new("E").attr("Z", "1").attr("A", "2").to_document();
    assert!(doc.ends_with("<E Z=\"1\" A=\"2\"/>\n"));
}

#[test]
fn attributes_can_be_read_back_raw() {
    let element = Element::new("E").attr("Name", "a&b");
    assert_eq!(element.attribute("Name"), Some("a&b"));
    assert_eq!(element.attribute("Missing"), None);
    assert_eq!(element.name(), "E");
}

#[test]
fn characters_outside_the_xml_range_are_told_apart() {
    for c in ['\t', '\n', '\r', ' ', '\u{d7ff}', '\u{e000}', '\u{fffd}', '\u{10000}'] {
        assert!(is_xml_char(c), "{c:?}");
    }
    for c in ['\u{0}', '\u{8}', '\u{b}', '\u{1f}', '\u{fffe}', '\u{ffff}'] {
        assert!(!is_xml_char(c), "{c:?}");
    }
}

#[test]
fn children_keep_their_order() {
    let mut root = Element::new("R").child(Element::new("A"));
    root.push(Element::new("B"));
    let names: Vec<&str> = root.children().iter().map(|c| c.name()).collect();
    assert_eq!(names, vec!["A", "B"]);
}

#[test]
fn sanitizing_text_twice_is_sanitizing_it_once() {
    for text in ["a\u{0}b\u{fffe}\tc\n", "", "\u{1}\u{2}", "plain & <text>", "\u{10ffff}\u{d7ff}\u{e000}"] {
        let once = sanitize_xml_text(text);
        assert_eq!(sanitize_xml_text(&once), once);
        assert!(once.chars().all(is_xml_char));
    }
}
