//! File names, locations and titles of an exported track.

use crate::domain::track::Track;
use crate::text::{
    chars_of, copy_text, joined, law_splitting_undoes_joining, law_trimming_twice_is_once, lemma_trimmed_already, lemma_trimmed_is_part, pieces, replace_char,
    replaced, same_text, split_text, text_between, trim_text, trimmed, views,
};
use crate::unicode::{to_upper, unicode_upper};
use vstd::prelude::*;
use vstd::utf8::encode_utf8;

verus! {

/// Whether a character is a control code.
pub open spec fn control(c: char) -> bool {
    let u = c as u32;
    u <= 0x1F || 0x7F <= u <= 0x9F
}

/// Whether a filesystem refuses a character in a name.
pub open spec fn refused(c: char) -> bool {
    c == '\\' || c == '/' || c == ':' || c == '*' || c == '?' || c == '"' || c == '<' || c == '>' || c == '|'
}

/// A text without control codes.
pub open spec fn without_controls(s: Seq<char>) -> Seq<char>
    decreases s.len(),
{
    if s.len() == 0 {
        seq![]
    } else if control(s.last()) {
        without_controls(s.drop_last())
    } else {
        without_controls(s.drop_last()).push(s.last())
    }
}

/// A text with each run of refused characters made one `_`.
pub open spec fn collapsed(s: Seq<char>) -> Seq<char>
    decreases s.len(),
{
    if s.len() == 0 {
        seq![]
    } else if !refused(s.last()) {
        collapsed(s.drop_last()).push(s.last())
    } else if s.len() > 1 && refused(s[s.len() - 2]) {
        collapsed(s.drop_last())
    } else {
        collapsed(s.drop_last()).push('_')
    }
}

/// A name that is safe as a file name.
pub open spec fn safe_name(name: Seq<char>) -> Seq<char> {
    let text = trimmed(collapsed(without_controls(name)));
    if text.len() == 0 {
        "track"@
    } else {
        text
    }
}

/// Makes `name` safe to use as a file name.
///
/// Runs of the characters that filesystems refuse collapse into a single `_`.
/// Control characters are removed.
pub fn sanitize_filename(name: &str) -> (r: String)
    ensures
        r@ == safe_name(name@),
{
    let chars: Vec<char> = chars_of(name);
    let mut out: String = String::new();
    let mut in_run: bool = false;
    assert(chars@.take(0) =~= seq![]);
    let mut i: usize = 0;
    while i < chars.len()
        invariant
            i <= chars@.len(),
            out@ == collapsed(without_controls(chars@.take(i as int))),
            in_run == (without_controls(chars@.take(i as int)).len() > 0 && refused(
                without_controls(chars@.take(i as int)).last(),
            )),
        decreases chars@.len() - i,
    {
        let c: char = chars[i];
        let u: u32 = c as u32;
        let ghost before = without_controls(chars@.take(i as int));
        assert(chars@.take(i + 1).drop_last() =~= chars@.take(i as int));
        if !(u <= 0x1F || (0x7F <= u && u <= 0x9F)) {
            assert(before.push(c).drop_last() =~= before);
            if c == '\\' || c == '/' || c == ':' || c == '*' || c == '?' || c == '"' || c == '<' || c == '>' || c == '|' {
                if !in_run {
                    out.push('_');
                    in_run = true;
                }
            } else {
                out.push(c);
                in_run = false;
            }
        }
        i = i + 1;
    }
    assert(chars@.take(chars@.len() as int) =~= chars@);
    let text: String = trim_text(out.as_str());
    if text.as_str().is_empty() {
        copy_text("track")
    } else {
        text
    }
}

/// Whether a character can stand in a file name.
pub open spec fn name_char(c: char) -> bool {
    !control(c) && !refused(c)
}

proof fn lemma_collapsed_is_clean(s: Seq<char>)
    requires
        forall|i: int| 0 <= i < s.len() ==> !control(#[trigger] s[i]),
    ensures
        forall|i: int| 0 <= i < collapsed(s).len() ==> name_char(#[trigger] collapsed(s)[i]),
    decreases s.len(),
{
    if s.len() > 0 {
        let t = s.drop_last();
        assert forall|i: int| 0 <= i < t.len() implies !control(#[trigger] t[i]) by {
            assert(t[i] == s[i]);
        }
        lemma_collapsed_is_clean(t);
        assert(!control(s[s.len() - 1]));
        let before = collapsed(t);
        let now = collapsed(s);
        assert forall|i: int| 0 <= i < now.len() implies name_char(#[trigger] now[i]) by {
            if i < before.len() {
                assert(now[i] == before[i]);
            }
        }
    }
}

proof fn lemma_without_controls(s: Seq<char>)
    ensures
        forall|i: int| 0 <= i < without_controls(s).len() ==> !control(#[trigger] without_controls(s)[i]),
    decreases s.len(),
{
    if s.len() > 0 {
        lemma_without_controls(s.drop_last());
        let before = without_controls(s.drop_last());
        let now = without_controls(s);
        assert forall|i: int| 0 <= i < now.len() implies !control(#[trigger] now[i]) by {
            if i < before.len() {
                assert(now[i] == before[i]);
            }
        }
    }
}

/// A safe name is never empty and holds no control code and no character that
/// a filesystem refuses.
pub proof fn law_safe_names_are_safe(name: Seq<char>)
    ensures
        safe_name(name).len() > 0,
        forall|i: int| 0 <= i < safe_name(name).len() ==> name_char(#[trigger] safe_name(name)[i]),
{
    let kept = without_controls(name);
    lemma_without_controls(name);
    lemma_collapsed_is_clean(kept);
    let all = collapsed(kept);
    let text = trimmed(all);
    let at = lemma_trimmed_is_part(all);
    reveal_strlit("track");
    let out = safe_name(name);
    assert forall|i: int| 0 <= i < out.len() implies name_char(#[trigger] out[i]) by {
        if text.len() > 0 {
            assert(out[i] == all[at + i]);
        }
    }
}

proof fn lemma_clean_stays(s: Seq<char>)
    requires
        forall|i: int| 0 <= i < s.len() ==> name_char(#[trigger] s[i]),
    ensures
        without_controls(s) == s,
        collapsed(s) == s,
    decreases s.len(),
{
    if s.len() > 0 {
        let t = s.drop_last();
        assert forall|i: int| 0 <= i < t.len() implies name_char(#[trigger] t[i]) by {
            assert(t[i] == s[i]);
        }
        lemma_clean_stays(t);
        assert(name_char(s[s.len() - 1]));
        assert(t.push(s.last()) =~= s);
    } else {
        assert(without_controls(s) =~= s && collapsed(s) =~= s);
    }
}

/// A safe name stays as it is: making it safe twice is doing so once.
pub proof fn law_safe_names_stay(name: Seq<char>)
    ensures
        safe_name(safe_name(name)) == safe_name(name),
{
    let safe = safe_name(name);
    law_safe_names_are_safe(name);
    lemma_clean_stays(safe);
    let text = trimmed(collapsed(without_controls(name)));
    if text.len() > 0 {
        law_trimming_twice_is_once(collapsed(without_controls(name)));
    } else {
        reveal_strlit("track");
        lemma_trimmed_already(safe);
    }
}

/// The upper-case character of a hexadecimal digit.
pub open spec fn upper_hex(d: nat) -> char {
    if d < 10 {
        (48 + d) as char
    } else {
        (55 + d) as char
    }
}

/// A byte in percent encoding.
pub open spec fn percent_byte(byte: u8) -> Seq<char> {
    seq!['%', upper_hex((byte / 16) as nat), upper_hex((byte % 16) as nat)]
}

/// `percent_encoding::percent_encode_byte`. Claimed: a percent sign and the two
/// hexadecimal digits of the byte, in upper case.
pub assume_specification[ percent_encoding::percent_encode_byte ](byte: u8) -> (r: &'static str)
    ensures
        r@ == percent_byte(byte),
;

/// Whether a byte stands in a location as it is: the URL unreserved set plus
/// `/` and `:`.
pub open spec fn plain_byte(b: u8) -> bool {
    (48 <= b <= 57) || (65 <= b <= 90) || (97 <= b <= 122) || b == 45 || b == 46 || b == 95 || b == 126 || b == 47 || b
        == 58
}

/// Bytes in percent encoding, the plain ones as they are.
pub open spec fn percent_text(bytes: Seq<u8>) -> Seq<char>
    decreases bytes.len(),
{
    if bytes.len() == 0 {
        seq![]
    } else if plain_byte(bytes.last()) {
        percent_text(bytes.drop_last()).push(bytes.last() as char)
    } else {
        percent_text(bytes.drop_last()) + percent_byte(bytes.last())
    }
}

/// The location of a path; empty for an empty path.
pub open spec fn location(path: Seq<char>) -> Seq<char> {
    let encoded = percent_text(encode_utf8(path));
    if path.len() == 0 {
        seq![]
    } else if encoded.len() > 0 && encoded[0] == '/' {
        "file://localhost"@ + encoded
    } else {
        "file://localhost/"@ + encoded
    }
}

/// A `file://localhost/...` URL for `path`, percent-encoded the way Rekordbox
/// expects. An empty path yields an empty string.
pub fn file_url(path: &str) -> (r: String)
    ensures
        r@ == location(path@),
{
    let mut encoded: String = String::new();
    if path.is_empty() {
        assert(encoded@ =~= seq![]);
        return encoded;
    }
    let bytes: &[u8] = path.as_bytes();
    let mut i: usize = 0;
    assert(bytes@.take(0) =~= seq![]);
    while i < bytes.len()
        invariant
            i <= bytes@.len(),
            encoded@ == percent_text(bytes@.take(i as int)),
        decreases bytes@.len() - i,
    {
        let b: u8 = bytes[i];
        assert(bytes@.take(i + 1).drop_last() =~= bytes@.take(i as int));
        let plain: bool = (48 <= b && b <= 57) || (65 <= b && b <= 90) || (97 <= b && b <= 122) || b == 45 || b == 46 || b
            == 95 || b == 126 || b == 47 || b == 58;
        if plain {
            encoded.push(b as char);
        } else {
            encoded.push_str(percent_encoding::percent_encode_byte(b));
        }
        i = i + 1;
    }
    assert(bytes@.take(bytes@.len() as int) =~= bytes@);
    let rooted: bool = !encoded.as_str().is_empty() && encoded.as_str().get_char(0) == '/';
    let mut out: String = copy_text(
        if rooted {
            "file://localhost"
        } else {
            "file://localhost/"
        },
    );
    out.push_str(encoded.as_str());
    out
}

/// The last component of a path that is neither empty nor `.`, among the first
/// `n` pieces.
pub open spec fn last_component(parts: Seq<Seq<char>>, n: nat) -> Option<Seq<char>>
    decreases n,
{
    if n == 0 {
        None
    } else if parts[n - 1].len() == 0 || parts[n - 1] == "."@ {
        last_component(parts, (n - 1) as nat)
    } else {
        Some(parts[n - 1])
    }
}

/// The file name at the end of a path; none where it ends in `..`.
pub open spec fn file_name(path: Seq<char>) -> Option<Seq<char>> {
    let parts = pieces(path, '/');
    match last_component(parts, parts.len()) {
        Some(name) => if name == ".."@ {
            None
        } else {
            Some(name)
        },
        None => None,
    }
}

/// The place of the last dot before `n` that is not the first character; 0
/// where there is none.
pub open spec fn last_dot(name: Seq<char>, n: int) -> int
    decreases n,
{
    if n <= 1 {
        0
    } else if name[n - 1] == '.' {
        n - 1
    } else {
        last_dot(name, n - 1)
    }
}

/// The file name of a path without its extension.
pub open spec fn stem(path: Seq<char>) -> Option<Seq<char>> {
    match file_name(path) {
        Some(name) => {
            let dot = last_dot(name, name.len() as int);
            Some(
                if dot > 0 {
                    name.subrange(0, dot)
                } else {
                    name
                },
            )
        },
        None => None,
    }
}

/// The extension of a path; empty where there is none.
pub open spec fn extension(path: Seq<char>) -> Seq<char> {
    match file_name(path) {
        Some(name) => {
            let dot = last_dot(name, name.len() as int);
            if dot > 0 {
                name.subrange(dot + 1, name.len() as int)
            } else {
                seq![]
            }
        },
        None => seq![],
    }
}

/// The file name at the end of a path; none where it ends in `..`.
fn file_name_of(path: &str) -> (r: Option<String>)
    ensures
        r is Some <==> file_name(path@) is Some,
        r is Some ==> r->0@ == file_name(path@)->0 && r->0@.len() > 0,
{
    let parts: Vec<String> = split_text(path, '/');
    let ghost all = views(parts@);
    let mut n: usize = parts.len();
    while n > 0
        invariant
            n <= parts@.len(),
            all == views(parts@),
            all == pieces(path@, '/'),
            last_component(all, all.len()) == last_component(all, n as nat),
        decreases n,
    {
        let part: &str = parts[n - 1].as_str();
        assert(all[n - 1] == part@);
        if !part.is_empty() && !same_text(part, ".") {
            if same_text(part, "..") {
                return None;
            }
            return Some(copy_text(part));
        }
        n = n - 1;
    }
    None
}

/// The place of the last dot of a name that is not its first character.
fn dot_of(chars: &Vec<char>) -> (r: usize)
    ensures
        r == last_dot(chars@, chars@.len() as int),
        r < chars@.len() || r == 0,
{
    let mut n: usize = chars.len();
    while n > 1
        invariant
            n <= chars@.len(),
            last_dot(chars@, chars@.len() as int) == last_dot(chars@, n as int),
        decreases n,
    {
        if chars[n - 1] == '.' {
            return n - 1;
        }
        n = n - 1;
    }
    0
}

/// `Kind`, e.g. `"FLAC File"`; empty when the path has no extension.
pub open spec fn kind_of(path: Seq<char>) -> Seq<char> {
    if extension(path).len() > 0 {
        unicode_upper(extension(path)) + " File"@
    } else {
        seq![]
    }
}

/// `Kind`, e.g. `"FLAC File"`. Empty when the path has no extension.
pub fn kind_from_path(path: &str) -> (r: String)
    ensures
        r@ == kind_of(path@),
{
    let none: String = String::new();
    assert(none@ =~= seq![]);
    match file_name_of(path) {
        Some(name) => {
            let chars: Vec<char> = chars_of(name.as_str());
            let dot: usize = dot_of(&chars);
            if dot == 0 || chars.len() - dot == 1 {
                return none;
            }
            let ext: String = text_between(chars.as_slice(), dot + 1, chars.len());
            let mut out: String = to_upper(ext.as_str());
            out.push_str(" File");
            out
        },
        None => none,
    }
}

/// `Name`: the stored title, else the file stem, else `"Untitled"`.
pub open spec fn title_of(title: Seq<char>, path: Seq<char>) -> Seq<char> {
    if trimmed(title).len() > 0 {
        trimmed(title)
    } else {
        match stem(path) {
            Some(text) => text,
            None => "Untitled"@,
        }
    }
}

/// `Name`: the stored title, else the file stem, else `"Untitled"`.
pub fn song_title(track: &Track, location_path: &str) -> (r: String)
    ensures
        r@ == title_of(track.title@, location_path@),
{
    let title: String = trim_text(track.title.as_str());
    if !title.as_str().is_empty() {
        return title;
    }
    match file_name_of(location_path) {
        Some(name) => {
            let chars: Vec<char> = chars_of(name.as_str());
            let dot: usize = dot_of(&chars);
            if dot > 0 {
                text_between(chars.as_slice(), 0, dot)
            } else {
                name
            }
        },
        None => copy_text("Untitled"),
    }
}

/// The path used for `Location`, `Kind` and the title: the resolved audio path
/// with its separators unified, else the stored path.
pub open spec fn path_used(stored: Seq<char>, audio: Option<Seq<char>>) -> Seq<char> {
    match audio {
        Some(path) => replaced(path, '\\', '/'),
        None => stored,
    }
}

/// The path used for `Location`, `Kind` and the title fallback: the resolved
/// audio path when the caller supplied one, else the track's stored path.
pub fn location_path(track: &Track, audio_path: &Option<String>) -> (r: String)
    ensures
        audio_path is Some ==> r@ == path_used(track.path@, Some(audio_path->0@)),
        audio_path is None ==> r@ == path_used(track.path@, None),
{
    match audio_path {
        Some(path) => replace_char(path.as_str(), '\\', '/'),
        None => copy_text(track.path.as_str()),
    }
}

/// A byte in percent form, or as it is where it is plain.
pub open spec fn percent_one(byte: u8) -> Seq<char> {
    if plain_byte(byte) {
        seq![byte as char]
    } else {
        percent_byte(byte)
    }
}

proof fn lemma_percent_first(bytes: Seq<u8>)
    requires
        bytes.len() > 0,
    ensures
        percent_text(bytes) == percent_one(bytes[0]) + percent_text(bytes.drop_first()),
    decreases bytes.len(),
{
    let rest = bytes.drop_first();
    if bytes.len() == 1 {
        assert(bytes.drop_last() =~= Seq::<u8>::empty());
        assert(rest =~= Seq::<u8>::empty());
        assert(percent_text(bytes.drop_last()) =~= Seq::<char>::empty());
        assert(percent_text(rest) =~= Seq::<char>::empty());
        assert(percent_text(bytes) =~= percent_one(bytes[0]));
    } else {
        lemma_percent_first(bytes.drop_last());
        assert(bytes.drop_last().drop_first() =~= rest.drop_last());
        assert(rest.last() == bytes.last());
        assert(percent_text(bytes) =~= percent_one(bytes[0]) + percent_text(rest));
    }
}

/// Percent-encoding loses nothing: different bytes have different texts.
pub proof fn law_percent_encoding_loses_nothing(a: Seq<u8>, b: Seq<u8>)
    requires
        percent_text(a) == percent_text(b),
    ensures
        a == b,
    decreases a.len(),
{
    if a.len() > 0 {
        lemma_percent_first(a);
    }
    if b.len() > 0 {
        lemma_percent_first(b);
    }
    if a.len() == 0 || b.len() == 0 {
        if a.len() > 0 {
            assert(percent_text(a).len() > 0);
        }
        if b.len() > 0 {
            assert(percent_text(b).len() > 0);
        }
        assert(a =~= b);
    } else {
        let x = percent_one(a[0]);
        let y = percent_one(b[0]);
        let text = percent_text(a);
        assert(text[0] == x[0] && text[0] == y[0]);
        lemma_percent_one(a[0], b[0]);
        assert(x.len() == y.len());
        assert forall|i: int| 0 <= i < x.len() implies x[i] == y[i] by {
            assert(text[i] == x[i] && text[i] == y[i]);
        }
        assert(x =~= y);
        assert(percent_text(a.drop_first()) =~= text.skip(x.len() as int));
        assert(percent_text(b.drop_first()) =~= text.skip(y.len() as int));
        law_percent_encoding_loses_nothing(a.drop_first(), b.drop_first());
        assert(a =~= seq![a[0]] + a.drop_first());
        assert(b =~= seq![b[0]] + b.drop_first());
    }
}

proof fn lemma_percent_one(a: u8, b: u8)
    requires
        percent_one(a)[0] == percent_one(b)[0],
    ensures
        percent_one(a).len() == percent_one(b).len(),
        percent_one(a) == percent_one(b) ==> a == b,
{
    if percent_one(a) == percent_one(b) && !plain_byte(a) && !plain_byte(b) {
        let x = percent_one(a);
        let y = percent_one(b);
        assert(x[1] == y[1] && x[2] == y[2]);
        assert(a == a / 16 * 16 + a % 16 && b == b / 16 * 16 + b % 16);
        assert(a / 16 < 16 && b / 16 < 16 && a % 16 < 16 && b % 16 < 16);
    }
}

/// A file name is its stem and, behind its last dot, its extension.
pub proof fn law_a_name_is_stem_and_extension(path: Seq<char>)
    requires
        file_name(path) is Some,
    ensures
        stem(path) is Some,
        extension(path).len() > 0 ==> file_name(path)->0 == stem(path)->0 + seq!['.'] + extension(path),
        !extension(path).contains('.'),
        stem(path)->0 == file_name(path)->0 || file_name(path)->0 == stem(path)->0 + seq!['.'] + extension(path),
        stem(path)->0 == file_name(path)->0 ==> forall|i: int|
            0 < i < file_name(path)->0.len() ==> #[trigger] file_name(path)->0[i] != '.',
{
    let name = file_name(path)->0;
    let dot = last_dot(name, name.len() as int);
    lemma_last_dot(name, name.len() as int);
    if dot > 0 {
        assert(name =~= stem(path)->0 + seq!['.'] + extension(path));
        assert(stem(path)->0.len() < name.len());
        assert forall|i: int| 0 <= i < extension(path).len() implies #[trigger] extension(path)[i] != '.' by {
            assert(name[dot + 1 + i] != '.');
        }
    }
}

proof fn lemma_last_dot(name: Seq<char>, n: int)
    requires
        0 <= n <= name.len(),
    ensures
        0 <= last_dot(name, n),
        last_dot(name, n) > 0 ==> last_dot(name, n) < n && name[last_dot(name, n)] == '.',
        forall|i: int| last_dot(name, n) < i < n ==> #[trigger] name[i] != '.',
    decreases n,
{
    if n > 1 && name[n - 1] != '.' {
        lemma_last_dot(name, n - 1);
    }
}

/// The name of a file is what stands behind the last slash of its path.
pub proof fn law_the_name_is_behind_the_last_slash(folders: Seq<Seq<char>>, name: Seq<char>)
    requires
        forall|i: int| 0 <= i < folders.len() ==> !(#[trigger] folders[i]).contains('/'),
        !name.contains('/'),
        name.len() > 0,
        name != "."@,
        name != ".."@,
    ensures
        file_name(joined(folders.push(name), seq!['/'])) == Some(name),
{
    let parts = folders.push(name);
    assert forall|i: int| 0 <= i < parts.len() implies !(#[trigger] parts[i]).contains('/') by {
        if i < folders.len() {
            assert(parts[i] == folders[i]);
        }
    }
    law_splitting_undoes_joining(parts, '/');
    assert(parts[parts.len() - 1] == name);
}

} // verus!
