//! A small XML writer for attribute-only documents such as `DJ_PLAYLISTS`.
//!
//! Rekordbox collections carry all their data in attributes, so this writer
//! supports elements, attributes and nesting. Characters that XML 1.0 cannot
//! represent are dropped, so no input can produce a document that will not
//! parse.

use crate::text::{chars_of, copy_text, same_text};
use vstd::prelude::*;

verus! {

/// Whether XML 1.0 permits a character in a document.
pub open spec fn xml_char(c: char) -> bool {
    let u = c as u32;
    u == 0x9 || u == 0xA || u == 0xD || 0x20 <= u <= 0xD7FF || 0xE000 <= u <= 0xFFFD || 0x10000 <= u <= 0x10FFFF
}

/// Whether `c` is a character XML 1.0 permits in a document.
pub fn is_xml_char(c: char) -> (r: bool)
    ensures
        r == xml_char(c),
{
    let u: u32 = c as u32;
    u == 0x9 || u == 0xA || u == 0xD || (0x20 <= u && u <= 0xD7FF) || (0xE000 <= u && u <= 0xFFFD) || (0x10000 <= u && u
        <= 0x10FFFF)
}

/// A text without the characters that XML 1.0 forbids.
pub open spec fn sanitized(s: Seq<char>) -> Seq<char>
    decreases s.len(),
{
    if s.len() == 0 {
        seq![]
    } else if xml_char(s[0]) {
        seq![s[0]] + sanitized(s.drop_first())
    } else {
        sanitized(s.drop_first())
    }
}

/// Dropping what XML 1.0 forbids leaves only what it permits, and doing so twice
/// is doing it once.
pub proof fn law_sanitizing_text_twice_is_once(s: Seq<char>)
    ensures
        all_xml(sanitized(s)),
        sanitized(sanitized(s)) == sanitized(s),
    decreases s.len(),
{
    if s.len() > 0 {
        let rest = sanitized(s.drop_first());
        law_sanitizing_text_twice_is_once(s.drop_first());
        if xml_char(s[0]) {
            let all = sanitized(s);
            assert(all.drop_first() =~= rest);
            assert forall|i: int| 0 <= i < all.len() implies xml_char(#[trigger] all[i]) by {
                if i > 0 {
                    assert(all[i] == rest[i - 1]);
                }
            }
        }
    }
}

/// Drops every character XML 1.0 forbids, leaving the rest untouched.
pub fn sanitize_xml_text(value: &str) -> (r: String)
    ensures
        r@ == sanitized(value@),
{
    let chars: Vec<char> = chars_of(value);
    let mut out: String = String::new();
    let mut i: usize = 0;
    assert(chars@.skip(0) =~= chars@);
    assert(out@ + sanitized(chars@) =~= sanitized(chars@));
    while i < chars.len()
        invariant
            i <= chars@.len(),
            out@ + sanitized(chars@.skip(i as int)) == sanitized(chars@),
        decreases chars@.len() - i,
    {
        let ghost rest = chars@.skip(i as int);
        let ghost before = out@;
        assert(rest.drop_first() =~= chars@.skip(i + 1));
        if is_xml_char(chars[i]) {
            out.push(chars[i]);
            assert(before + (seq![rest[0]] + sanitized(rest.drop_first())) =~= out@ + sanitized(rest.drop_first()));
        }
        i = i + 1;
    }
    assert(chars@.skip(chars@.len() as int) =~= seq![]);
    assert(out@ + sanitized(seq![]) =~= out@);
    out
}

/// How a permitted character is written inside a double-quoted attribute.
pub open spec fn escaped_char(c: char) -> Seq<char> {
    if c == '&' {
        "&amp;"@
    } else if c == '<' {
        "&lt;"@
    } else if c == '>' {
        "&gt;"@
    } else if c == '"' {
        "&quot;"@
    } else if c == '\'' {
        "&apos;"@
    } else if c == '\t' {
        "&#9;"@
    } else if c == '\n' {
        "&#10;"@
    } else if c == '\r' {
        "&#13;"@
    } else {
        seq![c]
    }
}

/// A text as it is written inside a double-quoted attribute.
pub open spec fn escaped(s: Seq<char>) -> Seq<char>
    decreases s.len(),
{
    if s.len() == 0 {
        seq![]
    } else if xml_char(s[0]) {
        escaped_char(s[0]) + escaped(s.drop_first())
    } else {
        escaped(s.drop_first())
    }
}

/// Puts a character at the end of an attribute value.
fn push_escaped(out: &mut String, c: char)
    ensures
        final(out)@ == old(out)@ + escaped_char(c),
{
    if c == '&' {
        out.push_str("&amp;");
    } else if c == '<' {
        out.push_str("&lt;");
    } else if c == '>' {
        out.push_str("&gt;");
    } else if c == '"' {
        out.push_str("&quot;");
    } else if c == '\'' {
        out.push_str("&apos;");
    } else if c == '\t' {
        out.push_str("&#9;");
    } else if c == '\n' {
        out.push_str("&#10;");
    } else if c == '\r' {
        out.push_str("&#13;");
    } else {
        out.push(c);
        assert(out@ =~= old(out)@ + seq![c]);
    }
}

/// Sanitises and escapes a string for use inside a double-quoted attribute.
///
/// `&`, `<`, `>`, `"` and `'` become entities. Tab, newline and carriage
/// return become numeric references: a parser would turn a literal one into a
/// space.
pub fn escape_attribute(value: &str) -> (r: String)
    ensures
        r@ == escaped(value@),
{
    let chars: Vec<char> = chars_of(value);
    let mut out: String = String::new();
    let mut i: usize = 0;
    assert(chars@.skip(0) =~= chars@);
    assert(out@ + escaped(chars@) =~= escaped(chars@));
    while i < chars.len()
        invariant
            i <= chars@.len(),
            out@ + escaped(chars@.skip(i as int)) == escaped(chars@),
        decreases chars@.len() - i,
    {
        let ghost rest = chars@.skip(i as int);
        let ghost before = out@;
        assert(rest.drop_first() =~= chars@.skip(i + 1));
        if is_xml_char(chars[i]) {
            push_escaped(&mut out, chars[i]);
            assert(before + (escaped_char(rest[0]) + escaped(rest.drop_first())) =~= out@ + escaped(rest.drop_first()));
        }
        i = i + 1;
    }
    assert(chars@.skip(chars@.len() as int) =~= seq![]);
    assert(out@ + escaped(seq![]) =~= out@);
    out
}

proof fn lemma_entities()
    ensures
        "&amp;"@ == seq!['&', 'a', 'm', 'p', ';'],
        "&lt;"@ == seq!['&', 'l', 't', ';'],
        "&gt;"@ == seq!['&', 'g', 't', ';'],
        "&quot;"@ == seq!['&', 'q', 'u', 'o', 't', ';'],
        "&apos;"@ == seq!['&', 'a', 'p', 'o', 's', ';'],
        "&#9;"@ == seq!['&', '#', '9', ';'],
        "&#10;"@ == seq!['&', '#', '1', '0', ';'],
        "&#13;"@ == seq!['&', '#', '1', '3', ';'],
{
    reveal_strlit("&amp;");
    reveal_strlit("&lt;");
    reveal_strlit("&gt;");
    reveal_strlit("&quot;");
    reveal_strlit("&apos;");
    reveal_strlit("&#9;");
    reveal_strlit("&#10;");
    reveal_strlit("&#13;");
    assert("&amp;"@ =~= seq!['&', 'a', 'm', 'p', ';']);
    assert("&lt;"@ =~= seq!['&', 'l', 't', ';']);
    assert("&gt;"@ =~= seq!['&', 'g', 't', ';']);
    assert("&quot;"@ =~= seq!['&', 'q', 'u', 'o', 't', ';']);
    assert("&apos;"@ =~= seq!['&', 'a', 'p', 'o', 's', ';']);
    assert("&#9;"@ =~= seq!['&', '#', '9', ';']);
    assert("&#10;"@ =~= seq!['&', '#', '1', '0', ';']);
    assert("&#13;"@ =~= seq!['&', '#', '1', '3', ';']);
}

/// Whether a character can stand inside a double-quoted attribute as it is.
pub open spec fn attribute_char(c: char) -> bool {
    xml_char(c) && c != '<' && c != '>' && c != '"' && c != '\'' && c != '\t' && c != '\n' && c != '\r'
}

/// Whatever the text, the escaped one holds only characters that can stand
/// inside a double-quoted attribute.
pub proof fn law_escaped_text_is_safe(s: Seq<char>)
    ensures
        forall|i: int| 0 <= i < escaped(s).len() ==> attribute_char(#[trigger] escaped(s)[i]),
    decreases s.len(),
{
    if s.len() > 0 {
        let rest = s.drop_first();
        law_escaped_text_is_safe(rest);
        if xml_char(s[0]) {
            lemma_entities();
            let first = escaped_char(s[0]);
            assert forall|i: int| 0 <= i < first.len() implies attribute_char(#[trigger] first[i]) by {}
            assert forall|i: int| 0 <= i < escaped(s).len() implies attribute_char(#[trigger] escaped(s)[i]) by {
                if i < first.len() {
                    assert(escaped(s)[i] == first[i]);
                } else {
                    assert(escaped(s)[i] == escaped(rest)[i - first.len()]);
                }
            }
        } else {
            assert(escaped(s) == escaped(rest));
        }
    }
}

/// Two escapes that begin alike stand for one character.
proof fn lemma_escapes_differ(a: char, b: char, x: Seq<char>, y: Seq<char>)
    requires
        escaped_char(a) + x == escaped_char(b) + y,
    ensures
        a == b,
        x == y,
{
    lemma_entities();
    let p = escaped_char(a) + x;
    let q = escaped_char(b) + y;
    assert(p[0] == q[0]);
    assert(escaped_char(a)[0] == p[0] && escaped_char(b)[0] == q[0]);
    if a != b {
        assert(p[1] == q[1]);
        assert(p[2] == q[2]);
        assert(p[3] == q[3]);
        assert(escaped_char(a)[1] == p[1] && escaped_char(b)[1] == q[1]);
        assert(escaped_char(a)[2] == p[2] && escaped_char(b)[2] == q[2]);
        assert(escaped_char(a)[3] == p[3] && escaped_char(b)[3] == q[3]);
        assert(false);
    }
    let n = escaped_char(a).len() as int;
    assert(p.skip(n) =~= x);
    assert(q.skip(n) =~= y);
}

/// Escaping loses nothing but the forbidden characters: two texts that are
/// written alike are alike once those are dropped.
pub proof fn law_escaping_loses_nothing(s: Seq<char>, t: Seq<char>)
    requires
        escaped(s) == escaped(t),
    ensures
        sanitized(s) == sanitized(t),
    decreases s.len() + t.len(),
{
    if s.len() > 0 && !xml_char(s[0]) {
        law_escaping_loses_nothing(s.drop_first(), t);
    } else if t.len() > 0 && !xml_char(t[0]) {
        law_escaping_loses_nothing(s, t.drop_first());
    } else if s.len() > 0 && t.len() > 0 {
        lemma_escapes_differ(s[0], t[0], escaped(s.drop_first()), escaped(t.drop_first()));
        law_escaping_loses_nothing(s.drop_first(), t.drop_first());
    } else if s.len() > 0 {
        lemma_entities();
        assert(escaped(s).len() > 0);
    } else if t.len() > 0 {
        lemma_entities();
        assert(escaped(t).len() > 0);
    }
}

/// An element as a value: a name, ordered attributes, and child elements.
pub struct Node {
    pub name: Seq<char>,
    pub attributes: Seq<(Seq<char>, Seq<char>)>,
    pub children: Seq<Node>,
}

/// The attributes of an element as they are written, the first `n` of them.
pub open spec fn attributes_text(attributes: Seq<(Seq<char>, Seq<char>)>, n: nat) -> Seq<char>
    decreases n,
{
    if n == 0 {
        seq![]
    } else {
        attributes_text(attributes, (n - 1) as nat).push(' ') + attributes[n - 1].0 + "=\""@ + escaped(
            attributes[n - 1].1,
        ).push('"')
    }
}

/// The lines of an element: its tag on one line, or around its children, which
/// are indented by two more spaces.
pub open spec fn lines(node: Node, indent: Seq<char>) -> Seq<char>
    decreases node, 1nat, 0nat,
{
    let open = indent.push('<') + node.name + attributes_text(node.attributes, node.attributes.len());
    if node.children.len() == 0 {
        open + "/>\n"@
    } else {
        open + ">\n"@ + child_lines(node, indent + "  "@, node.children.len()) + indent + "</"@ + node.name + ">\n"@
    }
}

/// The lines of the first `n` children of an element.
pub open spec fn child_lines(node: Node, indent: Seq<char>, n: nat) -> Seq<char>
    decreases node, 0nat, n,
{
    if n == 0 || n > node.children.len() {
        seq![]
    } else {
        child_lines(node, indent, (n - 1) as nat) + lines(node.children[n - 1], indent)
    }
}

/// The whole document of an element.
pub open spec fn document_text(node: Node) -> Seq<char> {
    "<?xml version=\"1.0\" encoding=\"UTF-8\"?>\n"@ + lines(node, seq![])
}

/// An element: a name, ordered attributes, and child elements.
#[derive(Debug, PartialEq, Eq)]
pub struct Element {
    name: String,
    attributes: Vec<(String, String)>,
    children: Vec<Element>,
}

/// The contents of some attributes.
pub open spec fn pairs(attributes: Seq<(String, String)>) -> Seq<(Seq<char>, Seq<char>)> {
    Seq::new(attributes.len(), |i: int| (attributes[i].0@, attributes[i].1@))
}

/// The contents of an element.
pub closed spec fn node_of(element: Element) -> Node
    decreases element, 1nat, 0nat,
{
    Node {
        name: element.name@,
        attributes: pairs(element.attributes@),
        children: nodes_of(element, element.children@.len()),
    }
}

/// The contents of the first `n` children of an element.
spec fn nodes_of(element: Element, n: nat) -> Seq<Node>
    decreases element, 0nat, n,
{
    if n == 0 || n > element.children@.len() {
        seq![]
    } else {
        nodes_of(element, (n - 1) as nat).push(node_of(element.children@[n - 1]))
    }
}

impl View for Element {
    type V = Node;

    closed spec fn view(&self) -> Node {
        node_of(*self)
    }
}

proof fn lemma_nodes_prefix(a: Element, b: Element, n: nat)
    requires
        n <= a.children@.len(),
        n <= b.children@.len(),
        forall|i: int| 0 <= i < n ==> a.children@[i] == b.children@[i],
    ensures
        nodes_of(a, n) == nodes_of(b, n),
        nodes_of(a, n).len() == n,
    decreases n,
{
    if n > 0 {
        lemma_nodes_prefix(a, b, (n - 1) as nat);
    }
}

proof fn lemma_nodes_at(element: Element, n: nat)
    requires
        n <= element.children@.len(),
    ensures
        nodes_of(element, n).len() == n,
        forall|i: int| 0 <= i < n ==> (#[trigger] nodes_of(element, n)[i]) == element.children@[i]@,
    decreases n,
{
    if n > 0 {
        lemma_nodes_at(element, (n - 1) as nat);
    }
}

impl Element {
    /// A childless, attribute-less element.
    ///
    /// Element and attribute names are written verbatim.
    pub fn new(name: &str) -> (r: Self)
        ensures
            r@ == (Node { name: name@, attributes: seq![], children: seq![] }),
    {
        let r: Element = Element { name: copy_text(name), attributes: Vec::new(), children: Vec::new() };
        assert(r@.attributes =~= seq![]);
        r
    }

    /// Adds an attribute, keeping insertion order. The value is escaped when
    /// the document is rendered, so callers pass raw text.
    #[must_use]
    pub fn attr(self, name: &str, value: &str) -> (r: Self)
        ensures
            r@ == (Node { attributes: self@.attributes.push((name@, value@)), ..self@ }),
    {
        let ghost was = self;
        let mut attributes: Vec<(String, String)> = self.attributes;
        attributes.push((copy_text(name), copy_text(value)));
        let r: Element = Element { name: self.name, attributes, children: self.children };
        proof {
            lemma_nodes_prefix(was, r, was.children@.len());
            assert(r@.attributes =~= was@.attributes.push((name@, value@)));
        }
        r
    }

    /// Appends a child element.
    #[must_use]
    pub fn child(self, child: Element) -> (r: Self)
        ensures
            r@ == (Node { children: self@.children.push(child@), ..self@ }),
    {
        let ghost was = self;
        let mut children: Vec<Element> = self.children;
        children.push(child);
        let r: Element = Element { name: self.name, attributes: self.attributes, children };
        proof {
            lemma_nodes_prefix(was, r, was.children@.len());
        }
        r
    }

    /// Appends a child element in place, for building in a loop.
    pub fn push(&mut self, child: Element)
        ensures
            final(self)@ == (Node { children: old(self)@.children.push(child@), ..old(self)@ }),
    {
        let ghost was = *self;
        self.children.push(child);
        proof {
            lemma_nodes_prefix(was, *self, was.children@.len());
        }
    }

    /// The element's tag name.
    pub fn name(&self) -> (r: &str)
        ensures
            r@ == self@.name,
    {
        self.name.as_str()
    }

    /// The raw (unescaped) value of the first attribute of a name.
    pub fn attribute(&self, name: &str) -> (r: Option<&str>)
        ensures
            r is None <==> forall|i: int| 0 <= i < self@.attributes.len() ==> (#[trigger] self@.attributes[i]).0 != name@,
            r is Some ==> exists|k: int|
                0 <= k < self@.attributes.len() && (#[trigger] self@.attributes[k]).0 == name@ && self@.attributes[k].1
                    == r->0@ && forall|i: int| 0 <= i < k ==> (#[trigger] self@.attributes[i]).0 != name@,
    {
        let mut i: usize = 0;
        while i < self.attributes.len()
            invariant
                i <= self.attributes@.len(),
                forall|k: int| 0 <= k < i ==> (#[trigger] self@.attributes[k]).0 != name@,
            decreases self.attributes@.len() - i,
        {
            assert(self@.attributes[i as int] == (self.attributes@[i as int].0@, self.attributes@[i as int].1@));
            if same_text(self.attributes[i].0.as_str(), name) {
                return Some(self.attributes[i].1.as_str());
            }
            i = i + 1;
        }
        None
    }

    /// The element's children, in document order.
    pub fn children(&self) -> (r: &[Element])
        ensures
            r@.len() == self@.children.len(),
            forall|i: int| 0 <= i < r@.len() ==> (#[trigger] r@[i])@ == self@.children[i],
    {
        proof {
            lemma_nodes_at(*self, self.children@.len());
        }
        self.children.as_slice()
    }

    /// Renders this element as a complete document: XML declaration, then the
    /// tree pretty-printed with a two-space indent and a trailing newline.
    pub fn to_document(&self) -> (r: String)
        ensures
            r@ == document_text(self@),
    {
        let mut out: String = String::new();
        out.push_str("<?xml version=\"1.0\" encoding=\"UTF-8\"?>\n");
        let indent: String = String::new();
        self.write(&mut out, indent.as_str());
        assert(indent@ =~= seq![]);
        assert(out@ =~= document_text(self@));
        out
    }

    /// Puts the lines of this element at the end of a text.
    fn write(&self, out: &mut String, indent: &str)
        ensures
            final(out)@ == old(out)@ + lines(self@, indent@),
        decreases *self,
    {
        let ghost was = out@;
        let ghost node = self@;
        proof {
            lemma_nodes_at(*self, self.children@.len());
        }
        out.push_str(indent);
        out.push('<');
        out.push_str(self.name.as_str());
        let ghost before = out@;
        let mut i: usize = 0;
        assert(out@ =~= before + attributes_text(node.attributes, 0));
        while i < self.attributes.len()
            invariant
                i <= self.attributes@.len(),
                node.attributes == pairs(self.attributes@),
                out@ == before + attributes_text(node.attributes, i as nat),
            decreases self.attributes@.len() - i,
        {
            out.push(' ');
            out.push_str(self.attributes[i].0.as_str());
            out.push_str("=\"");
            out.push_str(escape_attribute(self.attributes[i].1.as_str()).as_str());
            out.push('"');
            i = i + 1;
            assert(node.attributes[i - 1] == (self.attributes@[i - 1].0@, self.attributes@[i - 1].1@));
            assert(out@ =~= before + attributes_text(node.attributes, i as nat));
        }
        let ghost open = indent@.push('<') + node.name + attributes_text(node.attributes, node.attributes.len());
        assert(out@ =~= was + open);
        if self.children.len() == 0 {
            out.push_str("/>\n");
            assert(out@ =~= was + lines(node, indent@));
            return;
        }
        out.push_str(">\n");
        let mut deeper: String = copy_text(indent);
        deeper.push_str("  ");
        let ghost start = out@;
        let mut k: usize = 0;
        assert(out@ =~= start + child_lines(node, deeper@, 0));
        while k < self.children.len()
            invariant
                k <= self.children@.len() == node.children.len(),
                node == self@,
                forall|j: int| 0 <= j < self.children@.len() ==> (#[trigger] node.children[j]) == self.children@[j]@,
                out@ == start + child_lines(node, deeper@, k as nat),
            decreases self.children@.len() - k,
        {
            let ghost earlier = child_lines(node, deeper@, k as nat);
            proof {
                assert(decreases_to!(*self => self.children@[k as int]));
            }
            self.children[k].write(out, deeper.as_str());
            k = k + 1;
            assert(node.children[k - 1] == self.children@[k - 1]@);
            assert(out@ =~= start + (earlier + lines(node.children[k - 1], deeper@)));
        }
        out.push_str(indent);
        out.push_str("</");
        out.push_str(self.name.as_str());
        out.push_str(">\n");
        assert(out@ =~= was + lines(node, indent@));
    }
}

/// Whether a text holds only characters that XML 1.0 permits.
pub open spec fn all_xml(s: Seq<char>) -> bool {
    forall|i: int| 0 <= i < s.len() ==> xml_char(#[trigger] s[i])
}

/// Whether the names of an element, of its attributes and of all elements
/// inside it hold only characters that XML 1.0 permits.
pub open spec fn clean_names(node: Node) -> bool
    decreases node,
{
    &&& all_xml(node.name)
    &&& forall|i: int| 0 <= i < node.attributes.len() ==> all_xml((#[trigger] node.attributes[i]).0)
    &&& forall|i: int| 0 <= i < node.children.len() ==> clean_names(#[trigger] node.children[i])
}

proof fn lemma_all_xml_joined(a: Seq<char>, b: Seq<char>)
    requires
        all_xml(a),
        all_xml(b),
    ensures
        all_xml(a + b),
{
    assert forall|i: int| 0 <= i < (a + b).len() implies xml_char(#[trigger] (a + b)[i]) by {
        if i < a.len() {
            assert((a + b)[i] == a[i]);
        } else {
            assert((a + b)[i] == b[i - a.len()]);
        }
    }
}

proof fn lemma_markup_is_xml()
    ensures
        all_xml("=\""@),
        all_xml("/>\n"@),
        all_xml(">\n"@),
        all_xml("</"@),
        all_xml("  "@),
        all_xml("<?xml version=\"1.0\" encoding=\"UTF-8\"?>\n"@),
{
    reveal_strlit("=\"");
    reveal_strlit("/>\n");
    reveal_strlit(">\n");
    reveal_strlit("</");
    reveal_strlit("  ");
    reveal_strlit("<?xml version=\"1.0\" encoding=\"UTF-8\"?>\n");
}

proof fn lemma_attributes_are_xml(attributes: Seq<(Seq<char>, Seq<char>)>, n: nat)
    requires
        n <= attributes.len(),
        forall|i: int| 0 <= i < attributes.len() ==> all_xml((#[trigger] attributes[i]).0),
    ensures
        all_xml(attributes_text(attributes, n)),
    decreases n,
{
    if n > 0 {
        lemma_attributes_are_xml(attributes, (n - 1) as nat);
        lemma_markup_is_xml();
        let before = attributes_text(attributes, (n - 1) as nat);
        let (name, value) = attributes[n - 1];
        law_escaped_text_is_safe(value);
        assert(all_xml(attributes[n - 1].0));
        assert(before.push(' ') =~= before + seq![' ']);
        assert(all_xml(seq![' ']));
        lemma_all_xml_joined(before, seq![' ']);
        lemma_all_xml_joined(before.push(' '), name);
        lemma_all_xml_joined(before.push(' ') + name, "=\""@);
        assert(escaped(value).push('"') =~= escaped(value) + seq!['"']);
        assert(all_xml(escaped(value))) by {
            assert forall|i: int| 0 <= i < escaped(value).len() implies xml_char(#[trigger] escaped(value)[i]) by {
                assert(attribute_char(escaped(value)[i]));
            }
        }
        assert(all_xml(seq!['"']));
        lemma_all_xml_joined(escaped(value), seq!['"']);
        lemma_all_xml_joined(before.push(' ') + name + "=\""@, escaped(value).push('"'));
    }
}

proof fn lemma_lines_are_xml(node: Node, indent: Seq<char>)
    requires
        clean_names(node),
        all_xml(indent),
    ensures
        all_xml(lines(node, indent)),
    decreases node, 1nat, 0nat,
{
    lemma_markup_is_xml();
    lemma_attributes_are_xml(node.attributes, node.attributes.len());
    let attributes = attributes_text(node.attributes, node.attributes.len());
    let open = indent.push('<') + node.name + attributes;
    assert(indent.push('<') =~= indent + seq!['<']);
    assert(all_xml(seq!['<']));
    lemma_all_xml_joined(indent, seq!['<']);
    lemma_all_xml_joined(indent.push('<'), node.name);
    lemma_all_xml_joined(indent.push('<') + node.name, attributes);
    if node.children.len() == 0 {
        lemma_all_xml_joined(open, "/>\n"@);
    } else {
        lemma_all_xml_joined(open, ">\n"@);
        lemma_all_xml_joined(indent, "  "@);
        let inner = child_lines(node, indent + "  "@, node.children.len());
        lemma_child_lines_are_xml(node, indent + "  "@, node.children.len());
        lemma_all_xml_joined(open + ">\n"@, inner);
        lemma_all_xml_joined(open + ">\n"@ + inner, indent);
        lemma_all_xml_joined(open + ">\n"@ + inner + indent, "</"@);
        lemma_all_xml_joined(open + ">\n"@ + inner + indent + "</"@, node.name);
        lemma_all_xml_joined(open + ">\n"@ + inner + indent + "</"@ + node.name, ">\n"@);
    }
}

proof fn lemma_child_lines_are_xml(node: Node, indent: Seq<char>, n: nat)
    requires
        clean_names(node),
        all_xml(indent),
        n <= node.children.len(),
    ensures
        all_xml(child_lines(node, indent, n)),
    decreases node, 0nat, n,
{
    if n > 0 {
        lemma_child_lines_are_xml(node, indent, (n - 1) as nat);
        assert(clean_names(node.children[n - 1]));
        lemma_lines_are_xml(node.children[n - 1], indent);
        lemma_all_xml_joined(child_lines(node, indent, (n - 1) as nat), lines(node.children[n - 1], indent));
    }
}

/// Whatever the attribute values, a document holds only characters that XML 1.0
/// permits, as long as the names do.
pub proof fn law_documents_hold_only_xml_characters(node: Node)
    requires
        clean_names(node),
    ensures
        all_xml(document_text(node)),
{
    lemma_markup_is_xml();
    lemma_lines_are_xml(node, seq![]);
    lemma_all_xml_joined("<?xml version=\"1.0\" encoding=\"UTF-8\"?>\n"@, lines(node, seq![]));
}

} // verus!
