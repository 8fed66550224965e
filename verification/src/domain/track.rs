//! Track metadata: one row of the library.

use crate::domain::error::DomainError;
use crate::domain::key::{camelot_label, Key};
use crate::domain::uid::{canonical, new_uid};
use crate::number::binary64::{zero, Binary64};
use crate::text::{
    copy_text, is_white, join_texts, joined, law_splitting_undoes_joining, lemma_pieces_hold_no_separator,
    lemma_views_push, lower, lowercased, pieces, replace_char, replaced, same_text, split_text, trim_text, trimmed,
    trimmed_end, trimmed_start, views,
};
use crate::unicode::{ascii, to_lower, unicode_lower};
use vstd::prelude::*;

verus! {

/// Path components with one more: an empty one or `.` is left out, and `..`
/// takes the one before it away where there is one to take.
pub open spec fn with_component(kept: Seq<Seq<char>>, part: Seq<char>) -> Seq<Seq<char>> {
    if part.len() == 0 || part == "."@ {
        kept
    } else if part == ".."@ && kept.len() > 0 && kept.last() != ".."@ {
        kept.drop_last()
    } else {
        kept.push(part)
    }
}

/// The first `n` components of a path, resolved.
pub open spec fn resolved(parts: Seq<Seq<char>>, n: nat) -> Seq<Seq<char>>
    decreases n,
{
    if n == 0 {
        seq![]
    } else {
        with_component(resolved(parts, (n - 1) as nat), parts[n - 1])
    }
}

/// The components of a path whose separators are all `/`.
pub open spec fn path_components(unified: Seq<char>) -> Seq<Seq<char>> {
    resolved(pieces(unified, '/'), pieces(unified, '/').len())
}

/// A path in the form under which a track is kept.
pub open spec fn normalized_path(path: Seq<char>) -> Seq<char> {
    let text = trimmed(path);
    if text.len() == 0 {
        seq![]
    } else {
        let unified = replaced(text, '\\', '/');
        let rest = joined(path_components(unified), seq!['/']);
        if unified[0] == '/' {
            seq!['/'] + rest
        } else {
            rest
        }
    }
}

/// A path with its separators unified, repeated ones collapsed, and `.` and
/// `..` resolved without touching the filesystem.
fn resolve_path(path: &str) -> (r: String)
    ensures
        r@ == normalized_path(path@),
{
    let text: String = trim_text(path);
    if text.as_str().is_empty() {
        let out: String = String::new();
        assert(out@ =~= seq![]);
        return out;
    }
    let unified: String = replace_char(text.as_str(), '\\', '/');
    let parts: Vec<String> = split_text(unified.as_str(), '/');
    let ghost all = views(parts@);
    let mut kept: Vec<String> = Vec::new();
    assert(views(kept@) =~= resolved(all, 0));
    let mut i: usize = 0;
    while i < parts.len()
        invariant
            i <= parts@.len(),
            all == views(parts@),
            views(kept@) == resolved(all, i as nat),
        decreases parts@.len() - i,
    {
        let part: &str = parts[i].as_str();
        assert(all[i as int] == part@);
        let ghost before = views(kept@);
        if !part.is_empty() && !same_text(part, ".") {
            let count: usize = kept.len();
            assert(count > 0 ==> before.last() == kept@[count - 1]@);
            if same_text(part, "..") && count > 0 && !same_text(kept[count - 1].as_str(), "..") {
                kept.pop();
                assert(views(kept@) =~= before.drop_last());
            } else {
                let copy: String = copy_text(part);
                proof {
                    lemma_views_push(kept@, copy);
                }
                kept.push(copy);
            }
        }
        i = i + 1;
    }
    let rest: String = join_texts(&kept, "/");
    proof {
        reveal_strlit("/");
        assert("/"@ =~= seq!['/']);
    }
    if unified.as_str().get_char(0) == '/' {
        let mut out: String = String::new();
        out.push('/');
        out.push_str(rest.as_str());
        assert(out@ =~= seq!['/'] + rest@);
        out
    } else {
        rest
    }
}

/// Whether components are resolved: none is empty or `.`, none holds a
/// separator, and `..` stands only in front.
spec fn is_resolved(parts: Seq<Seq<char>>) -> bool {
    &&& forall|i: int|
        0 <= i < parts.len() ==> (#[trigger] parts[i]).len() > 0 && parts[i] != "."@ && !parts[i].contains('/')
            && !parts[i].contains('\\')
    &&& forall|i: int| 0 < i < parts.len() && (#[trigger] parts[i]) == ".."@ ==> parts[i - 1] == ".."@
}

proof fn lemma_resolved(parts: Seq<Seq<char>>, n: nat)
    requires
        n <= parts.len(),
        forall|i: int| 0 <= i < parts.len() ==> !(#[trigger] parts[i]).contains('/') && !parts[i].contains('\\'),
    ensures
        is_resolved(resolved(parts, n)),
    decreases n,
{
    if n > 0 {
        lemma_resolved(parts, (n - 1) as nat);
        let before = resolved(parts, (n - 1) as nat);
        let now = resolved(parts, n);
        let part = parts[n - 1];
        assert forall|i: int| 0 <= i < now.len() implies (#[trigger] now[i]).len() > 0 && now[i] != "."@
            && !now[i].contains('/') && !now[i].contains('\\') by {
            if i < before.len() {
                assert(now[i] == before[i]);
            }
        }
        assert forall|i: int| 0 < i < now.len() && (#[trigger] now[i]) == ".."@ implies now[i - 1] == ".."@ by {
            assert(now[i - 1] == before[i - 1]);
            if i < before.len() {
                assert(now[i] == before[i]);
            }
        }
    }
}

proof fn lemma_resolved_stays(parts: Seq<Seq<char>>, n: nat)
    requires
        is_resolved(parts),
        n <= parts.len(),
    ensures
        resolved(parts, n) == parts.take(n as int),
    decreases n,
{
    if n > 0 {
        lemma_resolved_stays(parts, (n - 1) as nat);
        let before = parts.take(n - 1);
        assert(parts[n - 1].len() > 0);
        if n > 1 && parts[n - 1] == ".."@ {
            assert(before.last() == parts[n - 2]);
        }
        assert(before.push(parts[n - 1]) =~= parts.take(n as int));
    } else {
        assert(parts.take(0) =~= seq![]);
    }
}

/// An empty component in front is left out.
proof fn lemma_resolved_behind_root(parts: Seq<Seq<char>>, n: nat)
    requires
        n <= parts.len(),
    ensures
        resolved(seq![Seq::<char>::empty()] + parts, n + 1) == resolved(parts, n),
    decreases n,
{
    let all = seq![Seq::<char>::empty()] + parts;
    if n == 0 {
        assert(all[0] == Seq::<char>::empty());
        assert(resolved(all, 0) =~= seq![]);
        reveal_with_fuel(resolved, 2);
    } else {
        lemma_resolved_behind_root(parts, (n - 1) as nat);
        assert(all[n as int] == parts[n - 1]);
    }
}

proof fn lemma_joined_in_front(first: Seq<char>, parts: Seq<Seq<char>>, separator: Seq<char>)
    requires
        parts.len() > 0,
    ensures
        joined(seq![first] + parts, separator) == first + separator + joined(parts, separator),
    decreases parts.len(),
{
    let all = seq![first] + parts;
    assert(all.last() == parts.last());
    if parts.len() == 1 {
        reveal_with_fuel(joined, 2);
        assert(all.drop_last() =~= seq![first]);
    } else {
        assert(all.drop_last() =~= seq![first] + parts.drop_last());
        lemma_joined_in_front(first, parts.drop_last(), separator);
        assert(first + separator + joined(parts.drop_last(), separator) + separator + parts.last() =~= first + separator
            + (joined(parts.drop_last(), separator) + separator + parts.last()));
    }
}

proof fn lemma_joined_holds(parts: Seq<Seq<char>>, separator: Seq<char>, c: char)
    requires
        forall|i: int| 0 <= i < parts.len() ==> !(#[trigger] parts[i]).contains(c),
        !separator.contains(c),
    ensures
        !joined(parts, separator).contains(c),
    decreases parts.len(),
{
    let all = joined(parts, separator);
    if parts.len() > 1 {
        let front = parts.drop_last();
        assert forall|i: int| 0 <= i < front.len() implies !(#[trigger] front[i]).contains(c) by {
            assert(front[i] == parts[i]);
        }
        lemma_joined_holds(front, separator, c);
        let j = joined(front, separator);
        assert(!parts[parts.len() - 1].contains(c));
        if all.contains(c) {
            let k = choose|k: int| 0 <= k < all.len() && all[k] == c;
            if k < j.len() {
                assert(j[k] == c);
            } else if k < j.len() + separator.len() {
                assert(separator[k - j.len()] == c);
            } else {
                assert(parts.last()[k - j.len() - separator.len()] == c);
            }
        }
    } else if parts.len() == 1 {
        assert(!parts[0].contains(c));
    }
}

proof fn lemma_joined_starts(parts: Seq<Seq<char>>, separator: Seq<char>)
    requires
        parts.len() > 0,
        parts[0].len() > 0,
    ensures
        joined(parts, separator).len() > 0,
        joined(parts, separator)[0] == parts[0][0],
    decreases parts.len(),
{
    if parts.len() > 1 {
        lemma_joined_starts(parts.drop_last(), separator);
    }
}

/// Normalising a path twice is normalising it once, where the first time left
/// no white space at its ends.
pub proof fn law_normalizing_a_path_twice_is_once(path: Seq<char>)
    requires
        trimmed(normalized_path(path)) == normalized_path(path),
    ensures
        normalized_path(normalized_path(path)) == normalized_path(path),
{
    let text = trimmed(path);
    if text.len() > 0 {
        let unified = replaced(text, '\\', '/');
        let split = pieces(unified, '/');
        lemma_pieces_hold_no_separator(unified, '/');
        assert(!unified.contains('\\')) by {
            if unified.contains('\\') {
                let k = choose|k: int| 0 <= k < unified.len() && unified[k] == '\\';
                assert(text[k] != '\\' ==> unified[k] == text[k]);
            }
        }
        assert forall|i: int| 0 <= i < split.len() implies !(#[trigger] split[i]).contains('/') && !split[i].contains(
            '\\',
        ) by {}
        lemma_resolved(split, split.len());
        let parts = path_components(unified);
        let sep = seq!['/'];
        let rest = joined(parts, sep);
        assert(!sep.contains('\\')) by {
            assert(sep[0] == '/');
        }
        lemma_joined_holds(parts, sep, '\\');
        let out = normalized_path(path);
        assert(!out.contains('\\')) by {
            if out.contains('\\') {
                let k = choose|k: int| 0 <= k < out.len() && out[k] == '\\';
                if unified[0] == '/' {
                    assert(k > 0);
                    assert(rest[k - 1] == '\\');
                } else {
                    assert(rest[k] == '\\');
                }
            }
        }
        if out.len() > 0 {
            assert(replaced(out, '\\', '/') =~= out) by {
                assert forall|k: int| 0 <= k < out.len() implies #[trigger] replaced(out, '\\', '/')[k] == out[k] by {
                    assert(out[k] != '\\');
                }
            }
            lemma_resolved_stays(parts, parts.len());
            assert(parts.take(parts.len() as int) =~= parts);
            if unified[0] == '/' {
                let rooted = seq![Seq::<char>::empty()] + parts;
                if parts.len() > 0 {
                    lemma_joined_in_front(Seq::<char>::empty(), parts, sep);
                    assert(joined(rooted, sep) =~= out);
                    assert forall|i: int| 0 <= i < rooted.len() implies !(#[trigger] rooted[i]).contains('/') by {
                        if i > 0 {
                            assert(rooted[i] == parts[i - 1]);
                        }
                    }
                    law_splitting_undoes_joining(rooted, '/');
                    lemma_resolved_behind_root(parts, parts.len());
                } else {
                    assert(out =~= seq!['/']);
                    let none: Seq<char> = seq![];
                    assert(out.drop_last() =~= none);
                    assert(pieces(none, '/') =~= seq![none]);
                    assert(pieces(out, '/') =~= seq![none, none]);
                    reveal_with_fuel(resolved, 3);
                }
            } else {
                assert(parts.len() > 0);
                assert(parts[0].len() > 0 && !parts[0].contains('/'));
                lemma_joined_starts(parts, sep);
                assert(parts[0][0] != '/') by {
                    if parts[0][0] == '/' {
                        assert(parts[0].contains('/'));
                    }
                }
                law_splitting_undoes_joining(parts, '/');
            }
        }
    }
}

/// Each of some texts in lower case.
spec fn lowered(parts: Seq<Seq<char>>) -> Seq<Seq<char>> {
    parts.map_values(|part: Seq<char>| lowercased(part))
}

proof fn lemma_trimmed_maps(s: Seq<char>, f: spec_fn(char) -> char)
    requires
        forall|c: char| is_white(#[trigger] f(c)) == is_white(c),
    ensures
        trimmed(s.map_values(f)) == trimmed(s).map_values(f),
{
    lemma_trimmed_start_maps(s, f);
    lemma_trimmed_end_maps(trimmed_start(s), f);
}

proof fn lemma_trimmed_start_maps(s: Seq<char>, f: spec_fn(char) -> char)
    requires
        forall|c: char| is_white(#[trigger] f(c)) == is_white(c),
    ensures
        trimmed_start(s.map_values(f)) == trimmed_start(s).map_values(f),
    decreases s.len(),
{
    if s.len() > 0 {
        assert(s.map_values(f)[0] == f(s[0]));
        assert(s.map_values(f).drop_first() =~= s.drop_first().map_values(f));
        lemma_trimmed_start_maps(s.drop_first(), f);
    }
}

proof fn lemma_trimmed_end_maps(s: Seq<char>, f: spec_fn(char) -> char)
    requires
        forall|c: char| is_white(#[trigger] f(c)) == is_white(c),
    ensures
        trimmed_end(s.map_values(f)) == trimmed_end(s).map_values(f),
    decreases s.len(),
{
    if s.len() > 0 {
        assert(s.map_values(f).last() == f(s.last()));
        assert(s.map_values(f).drop_last() =~= s.drop_last().map_values(f));
        lemma_trimmed_end_maps(s.drop_last(), f);
    }
}

proof fn lemma_pieces_lowered(s: Seq<char>)
    ensures
        pieces(lowercased(s), '/') == lowered(pieces(s, '/')),
        pieces(s, '/').len() > 0,
    decreases s.len(),
{
    let low = lowercased(s);
    if s.len() == 0 {
        assert(lowercased(Seq::<char>::empty()) =~= Seq::<char>::empty());
        assert(pieces(low, '/') =~= lowered(pieces(s, '/')));
    } else {
        lemma_pieces_lowered(s.drop_last());
        assert(low.drop_last() =~= lowercased(s.drop_last()));
        let before = pieces(s.drop_last(), '/');
        if s.last() == '/' {
            assert(lowercased(Seq::<char>::empty()) =~= Seq::<char>::empty());
        } else {
            assert(lowercased(before.last().push(s.last())) =~= lowercased(before.last()).push(lower(s.last())));
        }
        assert(pieces(low, '/') =~= lowered(pieces(s, '/')));
    }
}

/// Lowering tells no dots apart and brings none together.
proof fn lemma_dots_lowered(part: Seq<char>)
    ensures
        (lowercased(part) == "."@) == (part == "."@),
        (lowercased(part) == ".."@) == (part == ".."@),
{
    reveal_strlit(".");
    reveal_strlit("..");
    let low = lowercased(part);
    assert(forall|i: int| 0 <= i < part.len() ==> (#[trigger] low[i] == '.') == (part[i] == '.'));
    if low == "."@ {
        assert(low[0] == '.');
        assert(part =~= "."@);
    }
    if part == "."@ {
        assert(low[0] == '.');
        assert(low =~= "."@);
    }
    if low == ".."@ {
        assert(low[0] == '.' && low[1] == '.');
        assert(part =~= ".."@);
    }
    if part == ".."@ {
        assert(low[0] == '.' && low[1] == '.');
        assert(low =~= ".."@);
    }
}

proof fn lemma_resolved_lowered(parts: Seq<Seq<char>>, n: nat)
    requires
        n <= parts.len(),
    ensures
        resolved(lowered(parts), n) == lowered(resolved(parts, n)),
    decreases n,
{
    if n == 0 {
        assert(lowered(resolved(parts, 0)) =~= seq![]);
    } else {
        lemma_resolved_lowered(parts, (n - 1) as nat);
        let kept = resolved(parts, (n - 1) as nat);
        let part = parts[n - 1];
        lemma_dots_lowered(part);
        if kept.len() > 0 {
            lemma_dots_lowered(kept.last());
            assert(lowered(kept).last() == lowercased(kept.last()));
            assert(lowered(kept).drop_last() =~= lowered(kept.drop_last()));
        }
        assert(lowered(kept).push(lowercased(part)) =~= lowered(kept.push(part)));
    }
}

proof fn lemma_joined_lowered(parts: Seq<Seq<char>>)
    ensures
        joined(lowered(parts), seq!['/']) == lowercased(joined(parts, seq!['/'])),
    decreases parts.len(),
{
    let sep = seq!['/'];
    let all = joined(parts, sep);
    if parts.len() > 1 {
        lemma_joined_lowered(parts.drop_last());
        assert(lowered(parts).drop_last() =~= lowered(parts.drop_last()));
        assert(lowered(parts).last() == lowercased(parts.last()));
        assert(joined(lowered(parts), sep) =~= lowercased(all));
    } else if parts.len() == 1 {
        assert(lowered(parts)[0] == lowercased(parts[0]));
    } else {
        assert(lowercased(all) =~= seq![]);
    }
}

/// Normalising does not tell the two separators apart, and what it does to a
/// path it does to the path in lower case.
pub proof fn law_normalizing_follows_case_and_separators(path: Seq<char>)
    ensures
        normalized_path(replaced(path, '\\', '/')) == normalized_path(path),
        normalized_path(lowercased(path)) == lowercased(normalized_path(path)),
{
    let slash = |c: char|
        if c == '\\' {
            '/'
        } else {
            c
        };
    assert(replaced(path, '\\', '/') =~= path.map_values(slash));
    lemma_trimmed_maps(path, slash);
    let text = trimmed(path);
    assert(text.map_values(slash) =~= replaced(text, '\\', '/'));
    assert(replaced(replaced(text, '\\', '/'), '\\', '/') =~= replaced(text, '\\', '/'));

    let low = |c: char| lower(c);
    assert(lowercased(path) =~= path.map_values(low));
    lemma_trimmed_maps(path, low);
    assert(text.map_values(low) =~= lowercased(text));
    let unified = replaced(text, '\\', '/');
    assert(replaced(lowercased(text), '\\', '/') =~= lowercased(unified));
    lemma_pieces_lowered(unified);
    let split = pieces(unified, '/');
    lemma_resolved_lowered(split, split.len());
    lemma_joined_lowered(path_components(unified));
    assert(normalized_path(lowercased(path)) =~= lowercased(normalized_path(path)));
}

/// The key of a path in the library: its normalised form, in lower case where
/// the filesystem ignores case.
pub open spec fn key_of(path: Seq<char>, ignores_case: bool) -> Seq<char> {
    if ignores_case {
        unicode_lower(normalized_path(path))
    } else {
        normalized_path(path)
    }
}

/// Normalises a filesystem path for use as the library's primary key.
///
/// Where the filesystem ignores case, as on Windows, the same file can arrive
/// as `D:\Music\a.flac` or `d:/music/a.flac`: the key is then in lower case.
pub fn normalize_track_path(path: &str, ignores_case: bool) -> (r: String)
    ensures
        r@ == key_of(path@, ignores_case),
        ignores_case && ascii(normalized_path(path@)) ==> r@ == lowercased(normalized_path(path@)),
{
    let normalized: String = resolve_path(path);
    if ignores_case {
        to_lower(normalized.as_str())
    } else {
        normalized
    }
}

/// One row of the library.
#[derive(Debug, Clone, PartialEq)]
pub struct Track {
    /// Normalised path. The primary key.
    pub path: String,
    /// Links the row to its feature file. `None` for rows without one.
    pub uid: Option<String>,
    pub title: String,
    pub artist: String,
    pub album: String,
    pub bpm: Option<Binary64>,
    pub key: Option<Key>,
    pub duration: Option<Binary64>,
    pub total_samples: Option<i64>,
    pub rating: i32,
    /// Epoch seconds.
    pub added_ts: i64,
    pub comment: String,
    pub file_mtime: Binary64,
    pub file_size: i64,
}

impl Track {
    /// A new row for `path` on a filesystem that ignores case or not, with a
    /// fresh uid and everything else empty.
    pub fn new(path: &str, ignores_case: bool) -> (r: Self)
        ensures
            r.path@ == key_of(path@, ignores_case),
            ignores_case && ascii(normalized_path(path@)) ==> r.path@ == lowercased(normalized_path(path@)),
            r.uid is Some && canonical(r.uid->0@) == Some(r.uid->0@),
            r.title@.len() == 0 && r.artist@.len() == 0 && r.album@.len() == 0 && r.comment@.len() == 0,
            r.bpm is None && r.key is None && r.duration is None && r.total_samples is None,
            r.rating == 0 && r.added_ts == 0 && r.file_size == 0 && r.file_mtime == zero(),
    {
        Track {
            path: normalize_track_path(path, ignores_case),
            uid: Some(new_uid()),
            title: String::new(),
            artist: String::new(),
            album: String::new(),
            bpm: None,
            key: None,
            duration: None,
            total_samples: None,
            rating: 0,
            added_ts: 0,
            comment: String::new(),
            file_mtime: zero(),
            file_size: 0,
        }
    }

    /// The uid, or an error when the row has none.
    pub fn require_uid(&self) -> (r: Result<&str, DomainError>)
        ensures
            self.uid is Some ==> r is Ok && r->Ok_0@ == self.uid->0@,
            self.uid is None ==> r is Err && r->Err_0 == DomainError::MissingUid,
    {
        match &self.uid {
            Some(uid) => Ok(uid.as_str()),
            None => Err(DomainError::MissingUid),
        }
    }

    /// Camelot label for the track key, or an empty string.
    pub fn key_label(&self) -> (r: String)
        ensures
            self.key is Some ==> r@ == camelot_label(self.key->0@),
            self.key is None ==> r@.len() == 0,
    {
        match self.key {
            Some(key) => copy_text(key.camelot()),
            None => String::new(),
        }
    }
}

} // verus!
