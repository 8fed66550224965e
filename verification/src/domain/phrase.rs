//! Song-structure phrases: intro, verse, chorus and friends.
//!
//! A phrase carries a base label; display labels (numbering, abbreviation) are
//! derived on demand and never stored.

use crate::domain::error::DomainError;
use crate::number::binary64::{absolute, difference, larger, micro, nano, zero, Binary64};
use crate::order::{
    arranged, goes_by_key, grouped, in_order, law_order_is_stable, lemma_group_grows, lemma_group_opens,
    lemma_group_skips, stable_order, visits_each_once,
};
use crate::text::{
    chars_of, copy_text, decimal, law_trimming_twice_is_once, lemma_views_push, push_decimal, same_text, trim_text, trimmed, text_between,
    uppercase_text, uppercased, views,
};
use vstd::prelude::*;

verus! {

/// The labels the detector can emit, plus the two fill markers.
pub const PHRASE_LABELS: [&'static str; 10] = [
    "INTRO",
    "VERSE",
    "CHORUS",
    "BREAK_CHORUS",
    "BRIDGE",
    "OUTRO",
    "INTERLUDE",
    "SILENCE",
    "FILL_IN",
    "FILL_OUT",
];

/// One labelled stretch of the track.
#[derive(Debug, Clone, PartialEq)]
pub struct Phrase {
    pub start: Binary64,
    pub end: Binary64,
    /// The base label, exactly as detected or typed. Never carries a number.
    pub label: String,
}

/// The contents of a phrase.
pub struct Section {
    pub start: Binary64,
    pub end: Binary64,
    pub label: Seq<char>,
}

impl View for Phrase {
    type V = Section;

    open spec fn view(&self) -> Section {
        Section { start: self.start, end: self.end, label: self.label@ }
    }
}

/// The contents of some phrases.
pub open spec fn sections(phrases: Seq<Phrase>) -> Seq<Section> {
    Seq::new(phrases.len(), |i: int| phrases[i]@)
}

impl Section {
    /// The length in seconds, never negative.
    pub open spec fn duration(self) -> Binary64 {
        larger(difference(self.end, self.start), zero())
    }

    /// The label in upper case, without white space around it.
    pub open spec fn kind(self) -> Seq<char> {
        uppercased(trimmed(self.label))
    }

    /// Whether this is one of the fill markers.
    pub open spec fn fill(self) -> bool {
        let u = uppercased(self.label);
        u == "FILL_IN"@ || u == "FILL_OUT"@ || u == "FILL"@
    }

    /// Whether this has finite times and a length worth keeping.
    pub open spec fn solid(self) -> bool {
        self.start.finite() && self.end.finite() && micro().spec_lt(difference(self.end, self.start))
    }
}

/// A section; white space around the label is dropped.
pub open spec fn section(start: Binary64, end: Binary64, label: Seq<char>) -> Section {
    Section { start, end, label: trimmed(label) }
}

/// Sort keys that put sections in time order.
pub open spec fn start_keys(rows: Seq<Section>) -> Seq<i128> {
    Seq::new(rows.len(), |i: int| rows[i].start.rank() as i128)
}

/// The sections by start time, equal starts as they come.
pub open spec fn by_start(rows: Seq<Section>) -> Seq<Section> {
    arranged(rows, in_order(start_keys(rows)))
}

/// The sections that are solid, as they come.
pub open spec fn solid_ones(rows: Seq<Section>) -> Seq<Section>
    decreases rows.len(),
{
    if rows.len() == 0 {
        seq![]
    } else if rows.last().solid() {
        solid_ones(rows.drop_last()).push(rows.last())
    } else {
        solid_ones(rows.drop_last())
    }
}

/// The solid sections by start time.
pub open spec fn normalized(rows: Seq<Section>) -> Seq<Section> {
    by_start(solid_ones(rows))
}

impl Phrase {
    /// A phrase; white space around the label is dropped.
    pub fn new(start: Binary64, end: Binary64, label: &str) -> (r: Self)
        ensures
            r@ == section(start, end, label@),
    {
        Phrase { start, end, label: trim_text(label) }
    }

    /// The length in seconds, never negative.
    pub fn duration(&self) -> (r: Binary64)
        ensures
            r == self@.duration(),
    {
        self.end.minus(self.start).max(zero())
    }

    /// Whether this phrase is one of the fill markers, which are drawn as part
    /// of a neighbour rather than as a section of their own.
    pub fn is_fill(&self) -> (r: bool)
        ensures
            r == self@.fill(),
    {
        let u: String = uppercase_text(self.label.as_str());
        same_text(u.as_str(), "FILL_IN") || same_text(u.as_str(), "FILL_OUT") || same_text(u.as_str(), "FILL")
    }

    /// The colour to draw this phrase in.
    pub fn color(&self) -> (r: (u8, u8, u8))
        ensures
            r == label_color(self.label@),
    {
        phrase_color(self.label.as_str())
    }

    /// The label in upper case, without white space around it.
    fn kind_text(&self) -> (r: String)
        ensures
            r@ == self@.kind(),
    {
        uppercase_text(trim_text(self.label.as_str()).as_str())
    }

    /// A copy of this phrase.
    pub fn copy(&self) -> (r: Phrase)
        ensures
            r@ == self@,
    {
        Phrase { start: self.start, end: self.end, label: copy_text(self.label.as_str()) }
    }
}

/// Putting a phrase at the end puts its contents at the end.
proof fn lemma_sections_push(phrases: Seq<Phrase>, phrase: Phrase)
    ensures
        sections(phrases.push(phrase)) == sections(phrases).push(phrase@),
{
    assert(sections(phrases.push(phrase)) =~= sections(phrases).push(phrase@));
}

/// The phrases by start time, equal starts as they come.
fn sort_by_start(rows: &Vec<Phrase>) -> (r: Vec<Phrase>)
    ensures
        sections(r@) == by_start(sections(rows@)),
{
    let mut keys: Vec<i128> = Vec::new();
    let mut i: usize = 0;
    while i < rows.len()
        invariant
            i <= rows@.len(),
            keys@ == start_keys(sections(rows@)).take(i as int),
        decreases rows@.len() - i,
    {
        keys.push(rows[i].start.rank_key());
        i = i + 1;
        assert(keys@ =~= start_keys(sections(rows@)).take(i as int));
    }
    assert(keys@ =~= start_keys(sections(rows@)));
    let order: Vec<usize> = stable_order(&keys);
    let mut out: Vec<Phrase> = Vec::new();
    let ghost want = by_start(sections(rows@));
    let mut k: usize = 0;
    while k < order.len()
        invariant
            k <= order@.len(),
            visits_each_once(order@, rows@.len()),
            want == arranged(sections(rows@), order@),
            sections(out@) == want.take(k as int),
        decreases order@.len() - k,
    {
        let row: Phrase = rows[order[k]].copy();
        proof {
            lemma_sections_push(out@, row);
        }
        out.push(row);
        k = k + 1;
        assert(sections(out@) =~= want.take(k as int));
    }
    assert(sections(out@) =~= want);
    out
}

/// Sorts phrases by start time and drops degenerate ones.
pub fn normalize(phrases: &Vec<Phrase>) -> (r: Vec<Phrase>)
    ensures
        sections(r@) == normalized(sections(phrases@)),
{
    let mut kept: Vec<Phrase> = Vec::new();
    let mut i: usize = 0;
    while i < phrases.len()
        invariant
            i <= phrases@.len(),
            sections(kept@) == solid_ones(sections(phrases@).take(i as int)),
        decreases phrases@.len() - i,
    {
        let p: &Phrase = &phrases[i];
        let ghost now = sections(phrases@).take(i + 1);
        assert(now.drop_last() =~= sections(phrases@).take(i as int));
        assert(now.last() == p@);
        if p.start.is_finite() && p.end.is_finite() && micro().lt(p.end.minus(p.start)) {
            let row: Phrase = p.copy();
            proof {
                lemma_sections_push(kept@, row);
            }
            kept.push(row);
        }
        i = i + 1;
    }
    assert(sections(phrases@).take(phrases@.len() as int) =~= sections(phrases@));
    sort_by_start(&kept)
}

proof fn lemma_solid_ones(rows: Seq<Section>)
    ensures
        forall|i: int| 0 <= i < solid_ones(rows).len() ==> (#[trigger] solid_ones(rows)[i]).solid(),
        solid_ones(rows).len() <= rows.len(),
    decreases rows.len(),
{
    if rows.len() > 0 {
        lemma_solid_ones(rows.drop_last());
    }
}

proof fn lemma_all_solid(rows: Seq<Section>)
    requires
        forall|i: int| 0 <= i < rows.len() ==> (#[trigger] rows[i]).solid(),
    ensures
        solid_ones(rows) == rows,
    decreases rows.len(),
{
    if rows.len() > 0 {
        assert forall|i: int| 0 <= i < rows.drop_last().len() implies (#[trigger] rows.drop_last()[i]).solid() by {
            assert(rows.drop_last()[i] == rows[i]);
        }
        lemma_all_solid(rows.drop_last());
        assert(rows.drop_last().push(rows.last()) =~= rows);
    }
}

/// Arranging what is already in time order changes nothing.
proof fn lemma_sorted_stays(rows: Seq<Section>, n: nat)
    requires
        n <= rows.len() <= usize::MAX,
        forall|i: int, j: int| 0 <= i < j < rows.len() ==> rows[i].start.rank() <= rows[j].start.rank(),
    ensures
        crate::order::first_in_order(start_keys(rows), n) == Seq::new(n, |i: int| i as usize),
    decreases n,
{
    if n > 0 {
        lemma_sorted_stays(rows, (n - 1) as nat);
        let before = Seq::new((n - 1) as nat, |i: int| i as usize);
        assert(before.push((n - 1) as usize) =~= Seq::new(n, |i: int| i as usize));
        if n > 1 {
            assert(before.last() == (n - 2) as usize);
            assert(rows[n - 2].start.rank() <= rows[n - 1].start.rank());
        }
    } else {
        assert(Seq::new(0nat, |i: int| i as usize) =~= seq![]);
    }
}

/// Normalized phrases are solid and in time order, and normalizing them again
/// changes nothing.
pub proof fn law_normalizing_twice_is_once(rows: Seq<Section>)
    requires
        rows.len() <= usize::MAX,
    ensures
        normalized(normalized(rows)) == normalized(rows),
        forall|i: int| 0 <= i < normalized(rows).len() ==> (#[trigger] normalized(rows)[i]).solid(),
        forall|i: int, j: int|
            0 <= i < j < normalized(rows).len() ==> normalized(rows)[i].start.rank() <= normalized(rows)[j].start.rank(),
{
    let kept = solid_ones(rows);
    lemma_solid_ones(rows);
    let keys = start_keys(kept);
    let order = in_order(keys);
    law_order_is_stable(keys, keys.len());
    let out = normalized(rows);
    assert forall|i: int| 0 <= i < out.len() implies (#[trigger] out[i]).solid() by {
        assert(out[i] == kept[order[i] as int]);
    }
    assert forall|i: int, j: int| 0 <= i < j < out.len() implies out[i].start.rank() <= out[j].start.rank() by {
        assert(keys[order[i] as int] <= keys[order[j] as int]);
    }
    lemma_all_solid(out);
    lemma_sorted_stays(out, out.len());
    assert(normalized(out) =~= out);
}

/// One of the fixed colours, as RGB.
pub open spec fn known_color(kind: Seq<char>) -> Option<(u8, u8, u8)> {
    if kind == "INTRO"@ {
        Some((70u8, 130u8, 180u8))
    } else if kind == "VERSE"@ {
        Some((46u8, 139u8, 87u8))
    } else if kind == "CHORUS"@ {
        Some((220u8, 60u8, 90u8))
    } else if kind == "BREAK_CHORUS"@ {
        Some((235u8, 140u8, 120u8))
    } else if kind == "BRIDGE"@ {
        Some((148u8, 0u8, 211u8))
    } else if kind == "OUTRO"@ {
        Some((95u8, 95u8, 110u8))
    } else if kind == "INTERLUDE"@ {
        Some((218u8, 165u8, 32u8))
    } else if kind == "SILENCE"@ {
        Some((110u8, 110u8, 110u8))
    } else if kind == "FILL_IN"@ {
        Some((0u8, 180u8, 200u8))
    } else if kind == "FILL_OUT"@ {
        Some((0u8, 120u8, 150u8))
    } else if kind == "FILL"@ {
        Some((0u8, 153u8, 204u8))
    } else {
        None
    }
}

/// The colours that labels of one's own share.
pub open spec fn palette(i: int) -> (u8, u8, u8) {
    if i == 0 {
        (200, 80, 40)
    } else if i == 1 {
        (40, 160, 160)
    } else if i == 2 {
        (160, 100, 200)
    } else if i == 3 {
        (120, 160, 40)
    } else if i == 4 {
        (200, 120, 160)
    } else {
        (80, 120, 200)
    }
}

/// The 64-bit FNV-1a hash of some bytes.
pub open spec fn fnv1a_of(bytes: Seq<u8>) -> u64
    decreases bytes.len(),
{
    if bytes.len() == 0 {
        0xcbf2_9ce4_8422_2325
    } else {
        ((fnv1a_of(bytes.drop_last()) ^ (bytes.last() as u64)) as int * 0x100_0000_01b3 % 0x1_0000_0000_0000_0000) as u64
    }
}

/// The colour of a label: fixed for the known ones, by hash for others.
pub open spec fn label_color(label: Seq<char>) -> (u8, u8, u8) {
    let kind = uppercased(trimmed(label));
    if kind.len() == 0 {
        (110, 110, 110)
    } else {
        match known_color(kind) {
            Some(rgb) => rgb,
            None => palette(fnv1a_of(vstd::utf8::encode_utf8(kind)) as int % 6),
        }
    }
}

/// 64-bit FNV-1a over the UTF-8 bytes of a text.
pub fn fnv1a(text: &str) -> (r: u64)
    ensures
        r == fnv1a_of(vstd::utf8::encode_utf8(text@)),
{
    let bytes: &[u8] = text.as_bytes();
    let mut hash: u64 = 0xcbf2_9ce4_8422_2325;
    let mut i: usize = 0;
    while i < bytes.len()
        invariant
            i <= bytes@.len(),
            hash == fnv1a_of(bytes@.take(i as int)),
        decreases bytes@.len() - i,
    {
        assert(bytes@.take(i + 1).drop_last() =~= bytes@.take(i as int));
        hash = (((hash ^ bytes[i] as u64) as u128 * 0x100_0000_01b3) % 0x1_0000_0000_0000_0000) as u64;
        i = i + 1;
    }
    assert(bytes@.take(bytes@.len() as int) =~= bytes@);
    hash
}

/// Colour for a base label: fixed for the known ones, a palette entry chosen by
/// a fixed hash for others.
pub fn phrase_color(label: &str) -> (r: (u8, u8, u8))
    ensures
        r == label_color(label@),
{
    let key: String = uppercase_text(trim_text(label).as_str());
    let k: &str = key.as_str();
    if k.is_empty() {
        (110, 110, 110)
    } else if same_text(k, "INTRO") {
        (70, 130, 180)
    } else if same_text(k, "VERSE") {
        (46, 139, 87)
    } else if same_text(k, "CHORUS") {
        (220, 60, 90)
    } else if same_text(k, "BREAK_CHORUS") {
        (235, 140, 120)
    } else if same_text(k, "BRIDGE") {
        (148, 0, 211)
    } else if same_text(k, "OUTRO") {
        (95, 95, 110)
    } else if same_text(k, "INTERLUDE") {
        (218, 165, 32)
    } else if same_text(k, "SILENCE") {
        (110, 110, 110)
    } else if same_text(k, "FILL_IN") {
        (0, 180, 200)
    } else if same_text(k, "FILL_OUT") {
        (0, 120, 150)
    } else if same_text(k, "FILL") {
        (0, 153, 204)
    } else {
        match fnv1a(k) % 6 {
            0 => (200, 80, 40),
            1 => (40, 160, 160),
            2 => (160, 100, 200),
            3 => (120, 160, 40),
            4 => (200, 120, 160),
            _ => (80, 120, 200),
        }
    }
}

/// The label of each section in upper case, without white space around it.
pub open spec fn kinds(rows: Seq<Section>) -> Seq<Seq<char>> {
    Seq::new(rows.len(), |i: int| rows[i].kind())
}

/// The label of each phrase in upper case, without white space around it.
pub fn kinds_of(rows: &Vec<Phrase>) -> (r: Vec<String>)
    ensures
        views(r@) == kinds(sections(rows@)),
{
    let ghost want = kinds(sections(rows@));
    let mut out: Vec<String> = Vec::new();
    let mut i: usize = 0;
    while i < rows.len()
        invariant
            i <= rows@.len(),
            want == kinds(sections(rows@)),
            views(out@) == want.take(i as int),
        decreases rows@.len() - i,
    {
        let text: String = rows[i].kind_text();
        proof {
            lemma_views_push(out@, text);
        }
        out.push(text);
        i = i + 1;
        assert(views(out@) =~= want.take(i as int));
    }
    assert(views(out@) =~= want);
    out
}

/// How many of the first `n` sections have a label.
pub open spec fn label_count(rows: Seq<Section>, label: Seq<char>, n: nat) -> nat
    decreases n,
{
    if n == 0 {
        0
    } else {
        label_count(rows, label, (n - 1) as nat) + (if rows[n - 1].label == label {
            1nat
        } else {
            0nat
        })
    }
}

/// The display label of row `i`: numbered from 1 where the label occurs twice
/// or more.
pub open spec fn numbered(rows: Seq<Section>, i: int) -> Seq<char> {
    let label = rows[i].label;
    if label_count(rows, label, rows.len()) >= 2 {
        label + decimal(label_count(rows, label, (i + 1) as nat))
    } else {
        label
    }
}

/// The short form of a known label.
pub open spec fn abbreviation(kind: Seq<char>) -> Option<Seq<char>> {
    if kind == "INTRO"@ {
        Some("I"@)
    } else if kind == "VERSE"@ {
        Some("V"@)
    } else if kind == "CHORUS"@ {
        Some("C"@)
    } else if kind == "BREAK_CHORUS"@ {
        Some("BC"@)
    } else if kind == "BRIDGE"@ {
        Some("B"@)
    } else if kind == "OUTRO"@ {
        Some("O"@)
    } else if kind == "INTERLUDE"@ {
        Some("IL"@)
    } else if kind == "SILENCE"@ {
        Some("S"@)
    } else if kind == "FILL_IN"@ {
        Some("FI"@)
    } else if kind == "FILL_OUT"@ {
        Some("FO"@)
    } else if kind == "FILL"@ {
        Some("F"@)
    } else {
        None
    }
}

/// The short display label of row `i`: the short form with the number, or the
/// whole display label where there is no short form.
pub open spec fn abbreviated(rows: Seq<Section>, i: int) -> Seq<char> {
    let display = numbered(rows, i);
    match abbreviation(rows[i].kind()) {
        Some(short) => short + display.skip(rows[i].label.len() as int),
        None => display,
    }
}

/// How many of the first `n` phrases have a label.
fn count_label(rows: &Vec<Phrase>, label: &str, n: usize) -> (r: usize)
    requires
        n <= rows@.len(),
    ensures
        r == label_count(sections(rows@), label@, n as nat),
        r <= n,
{
    let mut found: usize = 0;
    let mut i: usize = 0;
    while i < n
        invariant
            i <= n <= rows@.len(),
            found == label_count(sections(rows@), label@, i as nat),
            found <= i,
        decreases n - i,
    {
        if same_text(rows[i].label.as_str(), label) {
            found = found + 1;
        }
        i = i + 1;
    }
    found
}

/// The display label of row `i`.
fn number_label(rows: &Vec<Phrase>, i: usize) -> (r: String)
    requires
        i < rows@.len(),
    ensures
        r@ == numbered(sections(rows@), i as int),
{
    let label: &str = rows[i].label.as_str();
    let mut out: String = copy_text(label);
    if count_label(rows, label, rows.len()) >= 2 {
        push_decimal(&mut out, count_label(rows, label, i + 1) as u64);
    }
    out
}

/// Display labels: a label used more than once is numbered from 1 in time order.
pub fn numbered_labels(phrases: &Vec<Phrase>) -> (r: Vec<String>)
    ensures
        views(r@) == Seq::new(
            normalized(sections(phrases@)).len(),
            |i: int| numbered(normalized(sections(phrases@)), i),
        ),
{
    let rows: Vec<Phrase> = normalize(phrases);
    let ghost want = Seq::new(sections(rows@).len(), |k: int| numbered(sections(rows@), k));
    let mut out: Vec<String> = Vec::new();
    let mut i: usize = 0;
    while i < rows.len()
        invariant
            i <= rows@.len(),
            want == Seq::new(sections(rows@).len(), |k: int| numbered(sections(rows@), k)),
            views(out@) == want.take(i as int),
        decreases rows@.len() - i,
    {
        let text: String = number_label(&rows, i);
        proof {
            lemma_views_push(out@, text);
        }
        out.push(text);
        i = i + 1;
        assert(views(out@) =~= want.take(i as int));
    }
    assert(views(out@) =~= want);
    out
}

/// The short form of a known label.
fn short_form(kind: &str) -> (r: Option<&'static str>)
    ensures
        r is Some <==> abbreviation(kind@) is Some,
        r is Some ==> r->0@ == abbreviation(kind@)->0,
{
    if same_text(kind, "INTRO") {
        Some("I")
    } else if same_text(kind, "VERSE") {
        Some("V")
    } else if same_text(kind, "CHORUS") {
        Some("C")
    } else if same_text(kind, "BREAK_CHORUS") {
        Some("BC")
    } else if same_text(kind, "BRIDGE") {
        Some("B")
    } else if same_text(kind, "OUTRO") {
        Some("O")
    } else if same_text(kind, "INTERLUDE") {
        Some("IL")
    } else if same_text(kind, "SILENCE") {
        Some("S")
    } else if same_text(kind, "FILL_IN") {
        Some("FI")
    } else if same_text(kind, "FILL_OUT") {
        Some("FO")
    } else if same_text(kind, "FILL") {
        Some("F")
    } else {
        None
    }
}

/// Short display labels for the overview strip, e.g. `CHORUS2` becomes `C2`.
/// Custom labels keep their full numbered form.
pub fn abbreviated_labels(phrases: &Vec<Phrase>) -> (r: Vec<String>)
    ensures
        views(r@) == Seq::new(
            normalized(sections(phrases@)).len(),
            |i: int| abbreviated(normalized(sections(phrases@)), i),
        ),
{
    let rows: Vec<Phrase> = normalize(phrases);
    let ghost want = Seq::new(sections(rows@).len(), |k: int| abbreviated(sections(rows@), k));
    let mut out: Vec<String> = Vec::new();
    let mut i: usize = 0;
    while i < rows.len()
        invariant
            i <= rows@.len(),
            want == Seq::new(sections(rows@).len(), |k: int| abbreviated(sections(rows@), k)),
            views(out@) == want.take(i as int),
        decreases rows@.len() - i,
    {
        let display: String = number_label(&rows, i);
        let kind: String = rows[i].kind_text();
        let text: String = match short_form(kind.as_str()) {
            Some(short) => {
                let mut text: String = copy_text(short);
                let chars: Vec<char> = chars_of(display.as_str());
                let label_len: usize = chars_of(rows[i].label.as_str()).len();
                let tail: String = text_between(chars.as_slice(), label_len, chars.len());
                text.push_str(tail.as_str());
                assert(tail@ =~= display@.skip(label_len as int));
                text
            },
            None => display,
        };
        proof {
            lemma_views_push(out@, text);
        }
        out.push(text);
        i = i + 1;
        assert(views(out@) =~= want.take(i as int));
    }
    assert(views(out@) =~= want);
    out
}

/// What sticks out of a section before `start`; nothing where it is too short.
pub open spec fn left_piece(row: Section, start: Binary64) -> Seq<Section> {
    let left = section(row.start, start, row.label);
    if row.start.spec_lt(start) && nano().spec_lt(left.duration()) {
        seq![left]
    } else {
        seq![]
    }
}

/// What sticks out of a section behind `end`; nothing where it is too short.
pub open spec fn right_piece(row: Section, end: Binary64) -> Seq<Section> {
    let right = section(end, row.end, row.label);
    if end.spec_lt(row.end) && nano().spec_lt(right.duration()) {
        seq![right]
    } else {
        seq![]
    }
}

/// Whether a section overlaps `[start, end)`.
pub open spec fn overlaps(row: Section, start: Binary64, end: Binary64) -> bool {
    !row.end.spec_le(start) && !end.spec_le(row.start)
}

/// The first `n` sections with `[start, end)` cleared out of them.
pub open spec fn cleared(rows: Seq<Section>, start: Binary64, end: Binary64, n: nat) -> Seq<Section>
    decreases n,
{
    if n == 0 {
        seq![]
    } else {
        let before = cleared(rows, start, end, (n - 1) as nat);
        let row = rows[n - 1];
        if overlaps(row, start, end) {
            before + left_piece(row, start) + right_piece(row, end)
        } else {
            before.push(row)
        }
    }
}

/// Whether one of the first `n` sections reaches into or past `[start, end)`.
pub open spec fn reached(rows: Seq<Section>, start: Binary64, n: nat) -> bool {
    exists|i: int| 0 <= i < n && !(#[trigger] rows[i]).end.spec_le(start)
}

/// The first `n` sections with `new` put over `[start, end)`: before the first
/// section that ends behind its start.
pub open spec fn overlaid(rows: Seq<Section>, start: Binary64, end: Binary64, new: Section, n: nat) -> Seq<Section>
    decreases n,
{
    if n == 0 {
        seq![]
    } else {
        let before = overlaid(rows, start, end, new, (n - 1) as nat);
        let row = rows[n - 1];
        let put = if reached(rows, start, (n - 1) as nat) {
            seq![]
        } else {
            seq![new]
        };
        if row.end.spec_le(start) {
            before.push(row)
        } else if end.spec_le(row.start) {
            before + put + seq![row]
        } else {
            before + left_piece(row, start) + put + right_piece(row, end)
        }
    }
}

/// Sections with a new one laid over them, before they are put in order.
pub open spec fn laid_over(rows: Seq<Section>, start: Binary64, end: Binary64, new: Section) -> Seq<Section> {
    let laid = overlaid(rows, start, end, new, rows.len());
    if reached(rows, start, rows.len()) {
        laid
    } else {
        laid.push(new)
    }
}

/// The sections after `[start, end)` was given a label.
pub open spec fn assigned(rows: Seq<Section>, start: Binary64, end: Binary64, label: Seq<char>) -> Seq<Section> {
    let sorted = normalized(rows);
    by_start(laid_over(sorted, start, end, section(start, end, label)))
}

/// Puts what sticks out of a phrase before `start` at the end of a list.
fn push_left(out: &mut Vec<Phrase>, row: &Phrase, start: Binary64)
    ensures
        sections(final(out)@) == sections(old(out)@) + left_piece(row@, start),
{
    let ghost before = sections(out@);
    if row.start.lt(start) {
        let left: Phrase = Phrase::new(row.start, start, row.label.as_str());
        if nano().lt(left.duration()) {
            proof {
                lemma_sections_push(out@, left);
            }
            out.push(left);
            assert(sections(out@) =~= before + left_piece(row@, start));
            return;
        }
    }
    assert(sections(out@) =~= before + left_piece(row@, start));
}

/// Puts what sticks out of a phrase behind `end` at the end of a list.
fn push_right(out: &mut Vec<Phrase>, row: &Phrase, end: Binary64)
    ensures
        sections(final(out)@) == sections(old(out)@) + right_piece(row@, end),
{
    let ghost before = sections(out@);
    if end.lt(row.end) {
        let right: Phrase = Phrase::new(end, row.end, row.label.as_str());
        if nano().lt(right.duration()) {
            proof {
                lemma_sections_push(out@, right);
            }
            out.push(right);
            assert(sections(out@) =~= before + right_piece(row@, end));
            return;
        }
    }
    assert(sections(out@) =~= before + right_piece(row@, end));
}

/// Overwrites `[start, end)` with `label`, splitting whatever was there.
/// Adjacent phrases with one label are left unmerged, so that repeated sections
/// keep their numbers.
pub fn assign_to_selection(phrases: &Vec<Phrase>, start: Binary64, end: Binary64, label: &str) -> (r: Result<
    Vec<Phrase>,
    DomainError,
>)
    ensures
        !start.spec_lt(end) ==> r is Err && r->Err_0 == (DomainError::EmptySelection { start, end }),
        start.spec_lt(end) && trimmed(label@).len() == 0 ==> r is Err && r->Err_0 == DomainError::EmptyPhraseLabel,
        start.spec_lt(end) && trimmed(label@).len() > 0 ==> r is Ok && sections(r->Ok_0@) == assigned(
            sections(phrases@),
            start,
            end,
            trimmed(label@),
        ),
{
    if !start.lt(end) {
        return Err(DomainError::EmptySelection { start, end });
    }
    let base: String = trim_text(label);
    if base.as_str().is_empty() {
        return Err(DomainError::EmptyPhraseLabel);
    }
    let rows: Vec<Phrase> = normalize(phrases);
    let new: Phrase = Phrase::new(start, end, base.as_str());
    let ghost sorted = sections(rows@);
    let mut out: Vec<Phrase> = Vec::new();
    let mut inserted: bool = false;
    let mut i: usize = 0;
    while i < rows.len()
        invariant
            i <= rows@.len(),
            sorted == sections(rows@),
            inserted == reached(sorted, start, i as nat),
            sections(out@) == overlaid(sorted, start, end, new@, i as nat),
        decreases rows@.len() - i,
    {
        let row: &Phrase = &rows[i];
        let ghost before = sections(out@);
        proof {
            assert(sorted[i as int] == row@);
            assert(reached(sorted, start, (i + 1) as nat) == (inserted || !row@.end.spec_le(start))) by {
                if reached(sorted, start, (i + 1) as nat) {
                    let k = choose|k: int| 0 <= k < i + 1 && !(#[trigger] sorted[k]).end.spec_le(start);
                    if k < i {
                        assert(reached(sorted, start, i as nat));
                    }
                }
                if inserted {
                    let k = choose|k: int| 0 <= k < i && !(#[trigger] sorted[k]).end.spec_le(start);
                    assert(!sorted[k].end.spec_le(start));
                }
                if !row@.end.spec_le(start) {
                    assert(!sorted[i as int].end.spec_le(start));
                }
            }
        }
        if row.end.le(start) {
            let copy: Phrase = row.copy();
            proof {
                lemma_sections_push(out@, copy);
            }
            out.push(copy);
        } else {
            let ahead: bool = end.le(row.start);
            if !ahead {
                push_left(&mut out, row, start);
            }
            let ghost middle = sections(out@);
            if !inserted {
                let copy: Phrase = new.copy();
                proof {
                    lemma_sections_push(out@, copy);
                }
                out.push(copy);
                inserted = true;
                assert(sections(out@) =~= middle + seq![new@]);
            } else {
                assert(sections(out@) =~= middle + Seq::<Section>::empty());
            }
            let ghost put = sections(out@);
            if ahead {
                let copy: Phrase = row.copy();
                proof {
                    lemma_sections_push(out@, copy);
                }
                out.push(copy);
                assert(sections(out@) =~= put + seq![row@]);
            } else {
                push_right(&mut out, row, end);
            }
        }
        i = i + 1;
    }
    if !inserted {
        let copy: Phrase = new.copy();
        proof {
            lemma_sections_push(out@, copy);
        }
        out.push(copy);
    }
    proof {
        law_trimming_twice_is_once(label@);
    }
    Ok(sort_by_start(&out))
}

/// Removes all phrase coverage inside `[start, end)`, splitting overlaps.
pub fn clear_selection(phrases: &Vec<Phrase>, start: Binary64, end: Binary64) -> (r: Vec<Phrase>)
    ensures
        !start.spec_lt(end) ==> sections(r@) == normalized(sections(phrases@)),
        start.spec_lt(end) ==> sections(r@) == cleared(
            normalized(sections(phrases@)),
            start,
            end,
            normalized(sections(phrases@)).len(),
        ),
{
    let rows: Vec<Phrase> = normalize(phrases);
    if !start.lt(end) {
        return rows;
    }
    let ghost sorted = sections(rows@);
    let mut out: Vec<Phrase> = Vec::new();
    let mut i: usize = 0;
    while i < rows.len()
        invariant
            i <= rows@.len(),
            sorted == sections(rows@),
            sections(out@) == cleared(sorted, start, end, i as nat),
        decreases rows@.len() - i,
    {
        let row: &Phrase = &rows[i];
        assert(sorted[i as int] == row@);
        if row.end.le(start) || end.le(row.start) {
            let copy: Phrase = row.copy();
            proof {
                lemma_sections_push(out@, copy);
            }
            out.push(copy);
        } else {
            push_left(&mut out, row, start);
            push_right(&mut out, row, end);
        }
        i = i + 1;
    }
    out
}

/// The first label at `i` or behind that is not a fill; empty where there is none.
pub open spec fn label_after(rows: Seq<Section>, i: int) -> Seq<char>
    decreases rows.len() - i,
{
    if i < 0 || i >= rows.len() {
        seq![]
    } else if !rows[i].fill() {
        rows[i].label
    } else {
        label_after(rows, i + 1)
    }
}

/// The last label before `i` that is not a fill; empty where there is none.
pub open spec fn label_before(rows: Seq<Section>, i: int) -> Seq<char>
    decreases i,
{
    if i <= 0 || i > rows.len() {
        seq![]
    } else if !rows[i - 1].fill() {
        rows[i - 1].label
    } else {
        label_before(rows, i - 1)
    }
}

/// Which way the fill of a kind points; `None` where it is no fill.
pub open spec fn fill_direction(kind: Seq<char>) -> Option<FillDirection> {
    if kind == "FILL_IN"@ {
        Some(FillDirection::In)
    } else if kind == "FILL_OUT"@ || kind == "FILL"@ {
        Some(FillDirection::Out)
    } else {
        None
    }
}

/// A section as it is displayed, and whether it is a lead so far: nothing but
/// fills that belong to the section behind them.
pub struct Shown {
    pub row: Section,
    pub leads: bool,
}

/// Row `i` as it is displayed: a fill takes the label of the section it belongs to.
pub open spec fn shown(rows: Seq<Section>, i: int) -> Section {
    section(rows[i].start, rows[i].end, shown_label(rows, i))
}

/// The label that row `i` is displayed with, before white space is dropped.
pub open spec fn shown_label(rows: Seq<Section>, i: int) -> Seq<char> {
    match fill_direction(rows[i].kind()) {
        Some(FillDirection::In) => label_after(rows, i + 1),
        Some(FillDirection::Out) => label_before(rows, i),
        None => rows[i].label,
    }
}

/// Whether `next` belongs to `last`: a fill out belongs to the section before
/// it, and what is no fill out to the fills that lead into it.
pub open spec fn belongs(last: Shown, way: Option<FillDirection>) -> bool {
    (way == Some(FillDirection::Out)) != last.leads
}

/// Whether `next` is glued to `last`: it belongs there, with one label, and
/// they touch.
pub open spec fn glued(last: Shown, next: Section, way: Option<FillDirection>) -> bool {
    &&& last.row.label == next.label
    &&& absolute(difference(last.row.end, next.start)).spec_le(micro())
    &&& belongs(last, way)
}

/// A displayed section put behind others. Only fills are glued: a section that
/// is no fill joins nothing but the fills that lead into it.
pub open spec fn absorbed(before: Seq<Shown>, next: Section, way: Option<FillDirection>) -> Seq<Shown> {
    let leads = way == Some(FillDirection::In);
    if before.len() > 0 && glued(before.last(), next, way) {
        let last = before.last().row;
        before.drop_last().push(Shown { row: Section { start: last.start, end: next.end, label: last.label }, leads })
    } else {
        before.push(Shown { row: next, leads })
    }
}

/// The first `n` rows as they are displayed.
pub open spec fn displayed(rows: Seq<Section>, n: nat) -> Seq<Shown>
    decreases n,
{
    if n == 0 {
        seq![]
    } else {
        let before = displayed(rows, (n - 1) as nat);
        if shown_label(rows, n - 1).len() == 0 {
            before
        } else {
            absorbed(before, shown(rows, n - 1), fill_direction(rows[n - 1].kind()))
        }
    }
}

/// Phrases together with whether each is a lead so far.
spec fn with_leads(phrases: Seq<Phrase>, leads: Seq<bool>) -> Seq<Shown> {
    Seq::new(phrases.len(), |i: int| Shown { row: phrases[i]@, leads: leads[i] })
}

/// Which way a fill marker points.
#[derive(Debug, Clone, Copy, PartialEq, Eq, Structural)]
pub enum FillDirection {
    In,
    Out,
}

/// A fill marker to draw over the phrase strip.
#[derive(Debug, Clone, Copy, PartialEq, Structural)]
pub struct FillMarker {
    pub start: Binary64,
    pub end: Binary64,
    pub direction: FillDirection,
}

/// Which way a phrase points; `None` where it is no fill.
fn direction_of(phrase: &Phrase) -> (r: Option<FillDirection>)
    ensures
        r == fill_direction(phrase@.kind()),
{
    let kind: String = phrase.kind_text();
    if same_text(kind.as_str(), "FILL_IN") {
        Some(FillDirection::In)
    } else if same_text(kind.as_str(), "FILL_OUT") || same_text(kind.as_str(), "FILL") {
        Some(FillDirection::Out)
    } else {
        None
    }
}

/// The first label behind `index` that is not a fill.
fn next_label(rows: &Vec<Phrase>, index: usize) -> (r: String)
    requires
        index < rows@.len(),
    ensures
        r@ == label_after(sections(rows@), index + 1),
{
    let ghost all = sections(rows@);
    let total: usize = rows.len();
    let mut pos: usize = index + 1;
    while pos < total
        invariant
            index < pos <= total == rows@.len(),
            all == sections(rows@),
            label_after(all, index + 1) == label_after(all, pos as int),
        decreases total - pos,
    {
        assert(all[pos as int] == rows@[pos as int]@);
        if !rows[pos].is_fill() {
            return copy_text(rows[pos].label.as_str());
        }
        pos = pos + 1;
    }
    String::new()
}

/// The last label before `index` that is not a fill.
fn previous_label(rows: &Vec<Phrase>, index: usize) -> (r: String)
    requires
        index < rows@.len(),
    ensures
        r@ == label_before(sections(rows@), index as int),
{
    let ghost all = sections(rows@);
    let mut pos: usize = index;
    while pos > 0
        invariant
            pos <= index < rows@.len(),
            all == sections(rows@),
            label_before(all, index as int) == label_before(all, pos as int),
        decreases pos,
    {
        pos = pos - 1;
        assert(all[pos as int] == rows@[pos as int]@);
        if !rows[pos].is_fill() {
            return copy_text(rows[pos].label.as_str());
        }
    }
    String::new()
}

/// The label that row `index` is displayed with.
fn label_shown(rows: &Vec<Phrase>, index: usize) -> (r: String)
    requires
        index < rows@.len(),
    ensures
        r@ == shown_label(sections(rows@), index as int),
{
    assert(sections(rows@)[index as int] == rows@[index as int]@);
    match direction_of(&rows[index]) {
        Some(FillDirection::In) => next_label(rows, index),
        Some(FillDirection::Out) => previous_label(rows, index),
        None => copy_text(rows[index].label.as_str()),
    }
}

/// Display-only view with fills absorbed into the section they belong to.
///
/// `FILL_IN` is shown as part of the phrase that follows it, `FILL_OUT` as
/// part of the one before. A fill with no non-fill neighbour is dropped.
pub fn merge_fills_for_display(phrases: &Vec<Phrase>) -> (r: Vec<Phrase>)
    ensures
        sections(r@) == displayed(
            normalized(sections(phrases@)),
            normalized(sections(phrases@)).len(),
        ).map_values(|s: Shown| s.row),
{
    let rows: Vec<Phrase> = normalize(phrases);
    let ghost all = sections(rows@);
    let mut out: Vec<Phrase> = Vec::new();
    let mut leads: Vec<bool> = Vec::new();
    let mut i: usize = 0;
    while i < rows.len()
        invariant
            i <= rows@.len(),
            all == sections(rows@),
            out@.len() == leads@.len(),
            with_leads(out@, leads@) == displayed(all, i as nat),
        decreases rows@.len() - i,
    {
        let ghost before = displayed(all, i as nat);
        let label: String = label_shown(&rows, i);
        assert(all[i as int] == rows@[i as int]@);
        if !label.as_str().is_empty() {
            let row: Phrase = Phrase::new(rows[i].start, rows[i].end, label.as_str());
            let ghost way = fill_direction(rows@[i as int]@.kind());
            let (fill_in, fill_out): (bool, bool) = match direction_of(&rows[i]) {
                Some(FillDirection::In) => (true, false),
                Some(FillDirection::Out) => (false, true),
                None => (false, false),
            };
            assert(row@ == shown(all, i as int));
            let count: usize = out.len();
            let glue: bool = count > 0 && same_text(out[count - 1].label.as_str(), row.label.as_str())
                && out[count - 1].end.minus(row.start).abs().le(micro()) && fill_out != leads[count - 1];
            assert(count > 0 ==> before.last() == Shown { row: out@[count - 1]@, leads: leads@[count - 1] });
            let ghost new = row@;
            if glue {
                let last: Phrase = Phrase {
                    start: out[count - 1].start,
                    end: row.end,
                    label: copy_text(out[count - 1].label.as_str()),
                };
                out.set(count - 1, last);
                leads.set(count - 1, fill_in);
            } else {
                out.push(row);
                leads.push(fill_in);
            }
            assert(with_leads(out@, leads@) =~= absorbed(before, new, way));
        }
        i = i + 1;
    }
    assert(sections(out@) =~= displayed(all, all.len()).map_values(|s: Shown| s.row));
    out
}

/// The markers of the fills among the first `n` rows.
pub open spec fn markers(rows: Seq<Section>, n: nat) -> Seq<FillMarker>
    decreases n,
{
    if n == 0 {
        seq![]
    } else {
        let before = markers(rows, (n - 1) as nat);
        match fill_direction(rows[n - 1].kind()) {
            Some(direction) => before.push(
                FillMarker { start: rows[n - 1].start, end: rows[n - 1].end, direction },
            ),
            None => before,
        }
    }
}

/// Extracts the fill markers, for drawing arrows on the phrase strip.
pub fn fill_markers(phrases: &Vec<Phrase>) -> (r: Vec<FillMarker>)
    ensures
        r@ == markers(normalized(sections(phrases@)), normalized(sections(phrases@)).len()),
{
    let rows: Vec<Phrase> = normalize(phrases);
    let ghost all = sections(rows@);
    let mut out: Vec<FillMarker> = Vec::new();
    let mut i: usize = 0;
    while i < rows.len()
        invariant
            i <= rows@.len(),
            all == sections(rows@),
            out@ == markers(all, i as nat),
        decreases rows@.len() - i,
    {
        assert(all[i as int] == rows@[i as int]@);
        match direction_of(&rows[i]) {
            Some(direction) => {
                out.push(FillMarker { start: rows[i].start, end: rows[i].end, direction });
            },
            None => {},
        }
        i = i + 1;
    }
    out
}

/// Whether some sections hold `new` once and stay clear of `[start, end)` otherwise.
spec fn holds_once(rows: Seq<Section>, start: Binary64, end: Binary64, new: Section) -> bool {
    exists|k: int|
        0 <= k < rows.len() && #[trigger] rows[k] == new && forall|i: int|
            0 <= i < rows.len() && i != k ==> !overlaps(#[trigger] rows[i], start, end)
}

/// Whether some sections stay clear of `[start, end)`.
pub open spec fn stays_clear(rows: Seq<Section>, start: Binary64, end: Binary64) -> bool {
    forall|i: int| 0 <= i < rows.len() ==> !overlaps(#[trigger] rows[i], start, end)
}

proof fn lemma_clear_joined(a: Seq<Section>, b: Seq<Section>, start: Binary64, end: Binary64)
    requires
        stays_clear(a, start, end),
        stays_clear(b, start, end),
    ensures
        stays_clear(a + b, start, end),
{
    assert forall|i: int| 0 <= i < (a + b).len() implies !overlaps(#[trigger] (a + b)[i], start, end) by {
        if i < a.len() {
            assert((a + b)[i] == a[i]);
        } else {
            assert((a + b)[i] == b[i - a.len()]);
        }
    }
}

proof fn lemma_holds_joined(a: Seq<Section>, b: Seq<Section>, start: Binary64, end: Binary64, new: Section)
    ensures
        holds_once(a, start, end, new) && stays_clear(b, start, end) ==> holds_once(a + b, start, end, new),
        stays_clear(a, start, end) && holds_once(b, start, end, new) ==> holds_once(a + b, start, end, new),
{
    let all = a + b;
    if holds_once(a, start, end, new) && stays_clear(b, start, end) {
        let k = choose|k: int|
            0 <= k < a.len() && #[trigger] a[k] == new && forall|i: int|
                0 <= i < a.len() && i != k ==> !overlaps(#[trigger] a[i], start, end);
        assert(all[k] == new);
        assert forall|i: int| 0 <= i < all.len() && i != k implies !overlaps(#[trigger] all[i], start, end) by {
            if i < a.len() {
                assert(all[i] == a[i]);
            } else {
                assert(all[i] == b[i - a.len()]);
            }
        }
    }
    if stays_clear(a, start, end) && holds_once(b, start, end, new) {
        let k = choose|k: int|
            0 <= k < b.len() && #[trigger] b[k] == new && forall|i: int|
                0 <= i < b.len() && i != k ==> !overlaps(#[trigger] b[i], start, end);
        assert(all[k + a.len()] == new);
        assert forall|i: int| 0 <= i < all.len() && i != k + a.len() implies !overlaps(
            #[trigger] all[i],
            start,
            end,
        ) by {
            if i < a.len() {
                assert(all[i] == a[i]);
            } else {
                assert(all[i] == b[i - a.len()]);
            }
        }
    }
}

proof fn lemma_pieces_clear(row: Section, start: Binary64, end: Binary64)
    requires
        start.spec_lt(end),
    ensures
        stays_clear(left_piece(row, start), start, end),
        stays_clear(right_piece(row, end), start, end),
        left_piece(row, start).len() <= 1,
        right_piece(row, end).len() <= 1,
{
}

proof fn lemma_cleared(rows: Seq<Section>, start: Binary64, end: Binary64, n: nat)
    requires
        start.spec_lt(end),
        n <= rows.len(),
    ensures
        stays_clear(cleared(rows, start, end, n), start, end),
        forall|i: int|
            0 <= i < n && !overlaps(rows[i], start, end) ==> cleared(rows, start, end, n).contains(#[trigger] rows[i]),
    decreases n,
{
    if n > 0 {
        lemma_cleared(rows, start, end, (n - 1) as nat);
        let before = cleared(rows, start, end, (n - 1) as nat);
        let row = rows[n - 1];
        let left = left_piece(row, start);
        let right = right_piece(row, end);
        let now = cleared(rows, start, end, n);
        if overlaps(row, start, end) {
            lemma_pieces_clear(row, start, end);
            lemma_clear_joined(before, left, start, end);
            lemma_clear_joined(before + left, right, start, end);
        } else {
            assert(now[before.len() as int] == row);
        }
        assert forall|i: int| 0 <= i < n && !overlaps(rows[i], start, end) implies now.contains(#[trigger] rows[i]) by {
            if i < n - 1 {
                let k = choose|k: int| 0 <= k < before.len() && before[k] == rows[i];
                assert(now[k] == rows[i]);
            }
        }
    }
}

/// Clearing leaves nothing inside the selection and keeps every phrase that
/// was outside of it.
pub proof fn law_clearing_leaves_nothing_inside(rows: Seq<Section>, start: Binary64, end: Binary64)
    requires
        start.spec_lt(end),
    ensures
        stays_clear(cleared(rows, start, end, rows.len()), start, end),
        forall|i: int|
            0 <= i < rows.len() && !overlaps(rows[i], start, end) ==> cleared(rows, start, end, rows.len()).contains(
                #[trigger] rows[i],
            ),
{
    lemma_cleared(rows, start, end, rows.len());
}

proof fn lemma_overlaid(rows: Seq<Section>, start: Binary64, end: Binary64, new: Section, n: nat)
    requires
        start.spec_lt(end),
        n <= rows.len(),
        new.start == start,
        new.end == end,
    ensures
        reached(rows, start, n) ==> holds_once(overlaid(rows, start, end, new, n), start, end, new),
        !reached(rows, start, n) ==> stays_clear(overlaid(rows, start, end, new, n), start, end),
        forall|i: int|
            0 <= i < n && !overlaps(rows[i], start, end) ==> overlaid(rows, start, end, new, n).contains(
                #[trigger] rows[i],
            ),
        overlaid(rows, start, end, new, n).len() <= 2 * n + (if reached(rows, start, n) {
            1int
        } else {
            0int
        }),
    decreases n,
{
    if n > 0 {
        lemma_overlaid(rows, start, end, new, (n - 1) as nat);
        let before = overlaid(rows, start, end, new, (n - 1) as nat);
        let row = rows[n - 1];
        let was = reached(rows, start, (n - 1) as nat);
        let put = if was {
            seq![]
        } else {
            seq![new]
        };
        let now = overlaid(rows, start, end, new, n);
        assert(was ==> reached(rows, start, n)) by {
            if was {
                let k = choose|k: int| 0 <= k < n - 1 && !(#[trigger] rows[k]).end.spec_le(start);
                assert(!rows[k].end.spec_le(start));
            }
        }
        if row.end.spec_le(start) {
            assert(reached(rows, start, n) == was) by {
                if reached(rows, start, n) {
                    let k = choose|k: int| 0 <= k < n && !(#[trigger] rows[k]).end.spec_le(start);
                    assert(k < n - 1);
                }
            }
            assert(stays_clear(seq![row], start, end));
            assert(now =~= before + seq![row]);
            if !was {
                lemma_clear_joined(before, seq![row], start, end);
            }
            lemma_holds_joined(before, seq![row], start, end, new);
            assert(now[before.len() as int] == row);
        } else {
            assert(reached(rows, start, n)) by {
                assert(!rows[n - 1].end.spec_le(start));
            }
            assert(!was ==> holds_once(put, start, end, new)) by {
                assert(put.len() > 0 ==> put[0] == new);
            }
            assert(was ==> stays_clear(put, start, end));
            if end.spec_le(row.start) {
                assert(stays_clear(seq![row], start, end));
                lemma_holds_joined(before, put, start, end, new);
                lemma_holds_joined(before + put, seq![row], start, end, new);
                assert(now.last() == row);
            } else {
                let left = left_piece(row, start);
                let right = right_piece(row, end);
                lemma_pieces_clear(row, start, end);
                if !was {
                    lemma_clear_joined(before, left, start, end);
                }
                lemma_holds_joined(before, left, start, end, new);
                lemma_holds_joined(before + left, put, start, end, new);
                lemma_holds_joined(before + left + put, right, start, end, new);
            }
        }
        assert forall|i: int| 0 <= i < n && !overlaps(rows[i], start, end) implies now.contains(#[trigger] rows[i]) by {
            if i < n - 1 {
                let k = choose|k: int| 0 <= k < before.len() && before[k] == rows[i];
                assert(now[k] == rows[i]);
            }
        }
    }
}

/// After an assignment exactly one section overlaps the selection, the new one,
/// and every phrase that was outside of the selection is still there.
pub proof fn law_assignment_covers_the_selection(
    rows: Seq<Section>,
    start: Binary64,
    end: Binary64,
    label: Seq<char>,
)
    requires
        start.spec_lt(end),
        2 * normalized(rows).len() + 1 <= usize::MAX,
    ensures
        exists|k: int|
            0 <= k < assigned(rows, start, end, label).len() && #[trigger] assigned(rows, start, end, label)[k]
                == section(start, end, label) && forall|i: int|
                0 <= i < assigned(rows, start, end, label).len() && i != k ==> !overlaps(
                    #[trigger] assigned(rows, start, end, label)[i],
                    start,
                    end,
                ),
        forall|i: int|
            0 <= i < normalized(rows).len() && !overlaps(normalized(rows)[i], start, end) ==> assigned(
                rows,
                start,
                end,
                label,
            ).contains(#[trigger] normalized(rows)[i]),
{
    let sorted = normalized(rows);
    let new = section(start, end, label);
    let laid = overlaid(sorted, start, end, new, sorted.len());
    lemma_overlaid(sorted, start, end, new, sorted.len());
    let full = if reached(sorted, start, sorted.len()) {
        laid
    } else {
        laid.push(new)
    };
    assert(holds_once(full, start, end, new)) by {
        if !reached(sorted, start, sorted.len()) {
            assert(holds_once(seq![new], start, end, new)) by {
                assert(seq![new][0] == new);
            }
            lemma_holds_joined(laid, seq![new], start, end, new);
            assert(full =~= laid + seq![new]);
        }
    }
    let keys = start_keys(full);
    let order = in_order(keys);
    law_order_is_stable(keys, keys.len());
    let out = assigned(rows, start, end, label);
    assert(out == arranged(full, order));
    let k = choose|k: int|
        0 <= k < full.len() && #[trigger] full[k] == new && forall|i: int|
            0 <= i < full.len() && i != k ==> !overlaps(#[trigger] full[i], start, end);
    assert(order.contains(k as usize));
    let at = choose|at: int| 0 <= at < order.len() && order[at] == k as usize;
    assert(out[at] == new);
    assert forall|i: int| 0 <= i < out.len() && i != at implies !overlaps(#[trigger] out[i], start, end) by {
        assert(order[i] != order[at]);
        assert(!overlaps(full[order[i] as int], start, end));
    }
    assert forall|i: int| 0 <= i < sorted.len() && !overlaps(sorted[i], start, end) implies out.contains(
        #[trigger] sorted[i],
    ) by {
        let j = choose|j: int| 0 <= j < laid.len() && laid[j] == sorted[i];
        assert(full[j] == sorted[i]);
        assert(order.contains(j as usize));
        let w = choose|w: int| 0 <= w < order.len() && order[w] == j as usize;
        assert(out[w] == sorted[i]);
    }
}

/// The place at which the new section stands among what is left of the others.
proof fn lemma_overlaid_is_inserted(rows: Seq<Section>, start: Binary64, end: Binary64, new: Section, n: nat) -> (at: int)
    requires
        n <= rows.len(),
    ensures
        0 <= at <= cleared(rows, start, end, n).len(),
        reached(rows, start, n) ==> overlaid(rows, start, end, new, n) == cleared(rows, start, end, n).insert(at, new),
        !reached(rows, start, n) ==> overlaid(rows, start, end, new, n) == cleared(rows, start, end, n),
    decreases n,
{
    if n == 0 {
        0
    } else {
        let m = (n - 1) as nat;
        let at = lemma_overlaid_is_inserted(rows, start, end, new, m);
        let laid = overlaid(rows, start, end, new, m);
        let rest = cleared(rows, start, end, m);
        let row = rows[n - 1];
        let now = overlaid(rows, start, end, new, n);
        let kept = cleared(rows, start, end, n);
        let was = reached(rows, start, m);
        if was {
            let k = choose|k: int| 0 <= k < m && !(#[trigger] rows[k]).end.spec_le(start);
            assert(!rows[k].end.spec_le(start));
            assert(reached(rows, start, n));
            assert(now =~= kept.insert(at, new));
            at
        } else if row.end.spec_le(start) {
            assert(!reached(rows, start, n)) by {
                if reached(rows, start, n) {
                    let k = choose|k: int| 0 <= k < n && !(#[trigger] rows[k]).end.spec_le(start);
                    assert(k < m);
                }
            }
            assert(now =~= kept);
            0
        } else {
            assert(!rows[n - 1].end.spec_le(start));
            assert(reached(rows, start, n));
            let place = if end.spec_le(row.start) {
                rest.len() as int
            } else {
                (rest.len() + left_piece(row, start).len()) as int
            };
            assert(now =~= kept.insert(place, new));
            place
        }
    }
}

/// An assignment is what clearing the selection leaves, with the new section
/// put in, rearranged by start: nothing else is lost or added, and sections
/// that start together keep their order.
pub proof fn law_assignment_clears_and_inserts(
    rows: Seq<Section>,
    start: Binary64,
    end: Binary64,
    label: Seq<char>,
) -> (r: (int, Seq<usize>))
    requires
        start.spec_lt(end),
        2 * normalized(rows).len() + 1 <= usize::MAX,
    ensures
        ({
            let sorted = normalized(rows);
            let kept = cleared(sorted, start, end, sorted.len());
            let parts = kept.insert(r.0, section(start, end, label));
            &&& 0 <= r.0 <= kept.len()
            &&& visits_each_once(r.1, parts.len())
            &&& goes_by_key(r.1, start_keys(parts))
            &&& assigned(rows, start, end, label) == arranged(parts, r.1)
        }),
{
    let sorted = normalized(rows);
    let new = section(start, end, label);
    let kept = cleared(sorted, start, end, sorted.len());
    let at = lemma_overlaid_is_inserted(sorted, start, end, new, sorted.len());
    lemma_overlaid(sorted, start, end, new, sorted.len());
    let full = laid_over(sorted, start, end, new);
    let place = if reached(sorted, start, sorted.len()) {
        at
    } else {
        kept.len() as int
    };
    assert(full =~= kept.insert(place, new));
    let keys = start_keys(full);
    law_order_is_stable(keys, keys.len());
    (place, in_order(keys))
}

proof fn lemma_neighbour_is_no_fill(rows: Seq<Section>, i: int)
    ensures
        label_after(rows, i).len() > 0 ==> exists|k: int| 0 <= k < rows.len() && label_after(rows, i) == (#[trigger]
        rows[k]).label && !rows[k].fill(),
    decreases rows.len() - i,
{
    if 0 <= i < rows.len() && rows[i].fill() {
        lemma_neighbour_is_no_fill(rows, i + 1);
    } else if 0 <= i < rows.len() {
        assert(!rows[i].fill());
    }
}

proof fn lemma_neighbour_before_is_no_fill(rows: Seq<Section>, i: int)
    ensures
        label_before(rows, i).len() > 0 ==> exists|k: int| 0 <= k < rows.len() && label_before(rows, i) == (#[trigger]
        rows[k]).label && !rows[k].fill(),
    decreases i,
{
    if 0 < i <= rows.len() && rows[i - 1].fill() {
        lemma_neighbour_before_is_no_fill(rows, i - 1);
    } else if 0 < i <= rows.len() {
        assert(!rows[i - 1].fill());
    }
}

/// Where no label has white space around it, no fill is left among the first
/// `n` displayed sections, and each section displayed has a label.
pub proof fn law_no_fill_is_displayed(rows: Seq<Section>, n: nat)
    requires
        n <= rows.len(),
        forall|i: int| 0 <= i < rows.len() ==> trimmed((#[trigger] rows[i]).label) == rows[i].label,
    ensures
        forall|i: int|
            0 <= i < displayed(rows, n).len() ==> !(#[trigger] displayed(rows, n)[i]).row.fill()
                && displayed(rows, n)[i].row.label.len() > 0,
    decreases n,
{
    if n > 0 {
        law_no_fill_is_displayed(rows, (n - 1) as nat);
        let label = shown_label(rows, n - 1);
        let before = displayed(rows, (n - 1) as nat);
        let now = displayed(rows, n);
        if label.len() == 0 {
            assert(now == before);
        } else {
            lemma_neighbour_is_no_fill(rows, n as int);
            lemma_neighbour_before_is_no_fill(rows, n - 1);
            let k = if fill_direction(rows[n - 1].kind()) is None {
                n - 1
            } else {
                choose|k: int| 0 <= k < rows.len() && label == (#[trigger] rows[k]).label && !rows[k].fill()
            };
            assert(label == rows[k].label && !rows[k].fill());
            assert(trimmed(rows[k].label) == rows[k].label);
            let next = shown(rows, n - 1);
            assert(next.label == label);
            assert(!next.fill());
            assert forall|i: int| 0 <= i < now.len() implies !(#[trigger] now[i]).row.fill()
                && now[i].row.label.len() > 0 by {
                if i < before.len() {
                    assert(!before[i].row.fill());
                    assert(now[i].row.label == before[i].row.label);
                } else {
                    assert(now[i].row == next);
                }
            }
        }
    }
}

/// How many of the first `n` rows are sections with a label that are no fills.
pub open spec fn plain_count(rows: Seq<Section>, n: nat) -> nat
    decreases n,
{
    if n == 0 {
        0
    } else if fill_direction(rows[n - 1].kind()) is None && rows[n - 1].label.len() > 0 {
        plain_count(rows, (n - 1) as nat) + 1
    } else {
        plain_count(rows, (n - 1) as nat)
    }
}

/// Only fills are glued: no two sections that are no fills are displayed as
/// one, so there are at least as many displayed as there are of them.
pub proof fn law_only_fills_are_glued(rows: Seq<Section>, n: nat)
    requires
        n <= rows.len(),
    ensures
        displayed(rows, n).len() >= plain_count(rows, n) + (if displayed(rows, n).len() > 0 && displayed(
            rows,
            n,
        ).last().leads {
            1nat
        } else {
            0nat
        }),
    decreases n,
{
    if n > 0 {
        law_only_fills_are_glued(rows, (n - 1) as nat);
    }
}

/// Keeping the rows that last keeps each of them and no other.
proof fn lemma_solid_kept(rows: Seq<Section>, row: Section)
    ensures
        solid_ones(rows).contains(row) <==> rows.contains(row) && row.solid(),
    decreases rows.len(),
{
    if rows.len() > 0 {
        let front = rows.drop_last();
        let before = solid_ones(front);
        lemma_solid_kept(front, row);
        if rows.contains(row) {
            let i = choose|i: int| 0 <= i < rows.len() && rows[i] == row;
            if i < front.len() {
                assert(front[i] == row);
            }
        }
        if front.contains(row) {
            let i = choose|i: int| 0 <= i < front.len() && front[i] == row;
            assert(rows[i] == row);
        }
        if rows.last().solid() {
            let now = before.push(rows.last());
            assert(now.last() == rows.last());
            if before.contains(row) {
                let i = choose|i: int| 0 <= i < before.len() && before[i] == row;
                assert(now[i] == row);
            }
            if now.contains(row) {
                let i = choose|i: int| 0 <= i < now.len() && now[i] == row;
                if i < before.len() {
                    assert(before[i] == row);
                }
            }
            if rows.last() == row {
                assert(now[before.len() as int] == row);
                assert(rows[rows.len() - 1] == row);
            }
        }
    }
}

/// Normalising keeps exactly the rows whose times are finite and that last more
/// than a microsecond.
pub proof fn law_normalizing_keeps_what_lasts(rows: Seq<Section>, row: Section)
    requires
        rows.len() <= usize::MAX,
    ensures
        normalized(rows).contains(row) <==> rows.contains(row) && row.start.finite() && row.end.finite()
            && micro().spec_lt(difference(row.end, row.start)),
{
    lemma_solid_kept(rows, row);
    lemma_solid_ones(rows);
    let kept = solid_ones(rows);
    let keys = start_keys(kept);
    let order = in_order(keys);
    law_order_is_stable(keys, keys.len());
    let sorted = normalized(rows);
    if kept.contains(row) {
        let k = choose|k: int| 0 <= k < kept.len() && kept[k] == row;
        assert(order.contains(k as usize));
        let p = choose|p: int| 0 <= p < order.len() && order[p] == k as usize;
        assert(sorted[p] == row);
    }
    if sorted.contains(row) {
        let p = choose|p: int| 0 <= p < sorted.len() && sorted[p] == row;
        assert(kept[order[p] as int] == row);
    }
}

proof fn lemma_none_counted(rows: Seq<Section>, label: Seq<char>, m: nat, n: nat)
    requires
        m <= n <= rows.len(),
        forall|k: int| m <= k < n ==> (#[trigger] rows[k]).label != label,
    ensures
        label_count(rows, label, n) == label_count(rows, label, m),
    decreases n - m,
{
    if m < n {
        lemma_none_counted(rows, label, m, (n - 1) as nat);
        assert(rows[n - 1].label != label);
    }
}

proof fn lemma_count_grows(rows: Seq<Section>, label: Seq<char>, m: nat, n: nat)
    requires
        m <= n <= rows.len(),
    ensures
        label_count(rows, label, m) <= label_count(rows, label, n),
    decreases n - m,
{
    if m < n {
        lemma_count_grows(rows, label, m, (n - 1) as nat);
    }
}

/// A label that no other row has stays as it is.
pub proof fn law_a_label_alone_has_no_number(rows: Seq<Section>, i: int)
    requires
        0 <= i < rows.len(),
        forall|k: int| 0 <= k < rows.len() && k != i ==> (#[trigger] rows[k]).label != rows[i].label,
    ensures
        numbered(rows, i) == rows[i].label,
{
    let label = rows[i].label;
    lemma_none_counted(rows, label, 0, i as nat);
    lemma_none_counted(rows, label, (i + 1) as nat, rows.len());
    assert(label_count(rows, label, (i + 1) as nat) == 1);
}

/// Rows of one label are counted: the first of them has the number one, and the
/// next behind a row has the next number.
pub proof fn law_rows_of_one_label_are_counted(rows: Seq<Section>, i: int, j: int) -> (count: nat)
    requires
        0 <= i < j < rows.len(),
        rows[i].label == rows[j].label,
        forall|k: int| i < k < j ==> (#[trigger] rows[k]).label != rows[i].label,
    ensures
        numbered(rows, i) == rows[i].label + decimal(count),
        numbered(rows, j) == rows[j].label + decimal(count + 1),
        (forall|k: int| 0 <= k < i ==> (#[trigger] rows[k]).label != rows[i].label) ==> count == 1,
{
    let label = rows[i].label;
    let count = label_count(rows, label, (i + 1) as nat);
    lemma_none_counted(rows, label, (i + 1) as nat, j as nat);
    assert(label_count(rows, label, (j + 1) as nat) == count + 1);
    lemma_count_grows(rows, label, (j + 1) as nat, rows.len());
    if forall|k: int| 0 <= k < i ==> (#[trigger] rows[k]).label != rows[i].label {
        lemma_none_counted(rows, label, 0, i as nat);
    }
    assert(count >= 1);
    count
}

/// A short label ends in the same number as the full one.
pub proof fn law_short_labels_keep_their_number(rows: Seq<Section>, i: int) -> (number: Seq<char>)
    requires
        0 <= i < rows.len(),
    ensures
        numbered(rows, i) == rows[i].label + number,
        abbreviation(rows[i].kind()) is None ==> abbreviated(rows, i) == numbered(rows, i),
        abbreviation(rows[i].kind()) is Some ==> abbreviated(rows, i) == abbreviation(rows[i].kind())->0 + number,
{
    let label = rows[i].label;
    let number = numbered(rows, i).skip(label.len() as int);
    assert(numbered(rows, i) == label + number);
    number
}

/// No two kinds have one short form.
pub proof fn law_short_forms_are_unique(a: Seq<char>, b: Seq<char>)
    requires
        abbreviation(a) is Some,
        abbreviation(a) == abbreviation(b),
    ensures
        a == b,
{
    reveal_strlit("I");
    reveal_strlit("V");
    reveal_strlit("C");
    reveal_strlit("BC");
    reveal_strlit("B");
    reveal_strlit("O");
    reveal_strlit("IL");
    reveal_strlit("S");
    reveal_strlit("FI");
    reveal_strlit("FO");
    reveal_strlit("F");
    assert("I"@[0] == 'I' && "V"@[0] == 'V' && "C"@[0] == 'C' && "BC"@[0] == 'B' && "B"@[0] == 'B' && "O"@[0] == 'O');
    assert("IL"@[0] == 'I' && "S"@[0] == 'S' && "FI"@[0] == 'F' && "FO"@[0] == 'F' && "F"@[0] == 'F');
    assert("FI"@[1] == 'I' && "FO"@[1] == 'O');
    assert("I"@.len() == 1 && "B"@.len() == 1 && "F"@.len() == 1);
    assert("IL"@.len() == 2 && "BC"@.len() == 2 && "FI"@.len() == 2 && "FO"@.len() == 2);
    let short = abbreviation(a)->0;
    assert(short == abbreviation(b)->0);
    assert(short.len() == 1 || short.len() == 2);
    assert(short[0] == abbreviation(b)->0[0]);
}

/// A fill that leads in is shown under the label of the next section behind it
/// that is no fill.
pub proof fn law_a_fill_in_belongs_to_what_follows(rows: Seq<Section>, i: int, j: int)
    requires
        0 <= i < j < rows.len(),
        rows[i].kind() == "FILL_IN"@,
        forall|k: int| i < k < j ==> (#[trigger] rows[k]).fill(),
        !rows[j].fill(),
    ensures
        shown_label(rows, i) == rows[j].label,
{
    lemma_label_ahead(rows, i + 1, j);
}

proof fn lemma_label_ahead(rows: Seq<Section>, i: int, j: int)
    requires
        0 <= i <= j < rows.len(),
        forall|k: int| i <= k < j ==> (#[trigger] rows[k]).fill(),
        !rows[j].fill(),
    ensures
        label_after(rows, i) == rows[j].label,
    decreases j - i,
{
    if i < j {
        assert(rows[i].fill());
        lemma_label_ahead(rows, i + 1, j);
    }
}

/// A fill that leads out, or that says no direction, is shown under the label of
/// the last section before it that is no fill.
pub proof fn law_a_fill_out_belongs_to_what_precedes(rows: Seq<Section>, i: int, j: int)
    requires
        0 <= j < i < rows.len(),
        rows[i].kind() == "FILL_OUT"@ || rows[i].kind() == "FILL"@,
        forall|k: int| j < k < i ==> (#[trigger] rows[k]).fill(),
        !rows[j].fill(),
    ensures
        shown_label(rows, i) == rows[j].label,
{
    reveal_strlit("FILL_IN");
    reveal_strlit("FILL_OUT");
    reveal_strlit("FILL");
    assert("FILL_IN"@.len() == 7 && "FILL_OUT"@.len() == 8 && "FILL"@.len() == 4);
    lemma_label_behind(rows, i, j);
}

proof fn lemma_label_behind(rows: Seq<Section>, i: int, j: int)
    requires
        0 <= j < i <= rows.len(),
        forall|k: int| j < k < i ==> (#[trigger] rows[k]).fill(),
        !rows[j].fill(),
    ensures
        label_before(rows, i) == rows[j].label,
    decreases i,
{
    if j < i - 1 {
        assert(rows[i - 1].fill());
        lemma_label_behind(rows, i - 1, j);
    }
}

/// The displayed sections go over the rows: each row with a label to show is in
/// one section of that label, the sections follow each other, and a section
/// begins where its first row begins and ends where its last one ends.
pub proof fn law_each_row_is_displayed(rows: Seq<Section>, n: nat) -> (r: (Seq<int>, Seq<int>, Seq<int>))
    requires
        n <= rows.len(),
    ensures
        r.0.len() == n,
        r.1.len() == displayed(rows, n).len(),
        grouped(r.0, r.1, r.2),
        forall|i: int| 0 <= i < n ==> (#[trigger] r.0[i] >= 0 <==> shown_label(rows, i).len() > 0),
        forall|i: int|
            0 <= i < n && #[trigger] r.0[i] >= 0 ==> displayed(rows, n)[r.0[i]].row.label == trimmed(
                shown_label(rows, i),
            ),
        forall|k: int|
            0 <= k < r.1.len() ==> {
                let row = (#[trigger] displayed(rows, n)[k]).row;
                &&& row.start == rows[r.1[k]].start
                &&& row.end == rows[r.2[k]].end
            },
    decreases n,
{
    if n == 0 {
        (seq![], seq![], seq![])
    } else {
        let (place, first, last) = law_each_row_is_displayed(rows, (n - 1) as nat);
        let before = displayed(rows, (n - 1) as nat);
        let way = fill_direction(rows[n - 1].kind());
        if shown_label(rows, n - 1).len() == 0 {
            lemma_group_skips(place, first, last);
            (place.push(-1), first, last)
        } else if before.len() > 0 && glued(before.last(), shown(rows, n - 1), way) {
            lemma_group_grows(place, first, last);
            (place.push(first.len() - 1), first, last.update(last.len() - 1, place.len() as int))
        } else {
            lemma_group_opens(place, first, last);
            (place.push(first.len() as int), first.push(place.len() as int), last.push(place.len() as int))
        }
    }
}

/// Each fill has one marker, at its times and with its direction, in the order
/// of the rows, and nothing else has one.
pub proof fn law_each_fill_has_one_marker(rows: Seq<Section>, n: nat) -> (of: Seq<int>)
    requires
        n <= rows.len(),
    ensures
        of.len() == markers(rows, n).len(),
        forall|a: int, b: int| 0 <= a < b < of.len() ==> #[trigger] of[a] < #[trigger] of[b],
        forall|m: int| 0 <= m < of.len() ==> 0 <= #[trigger] of[m] < n,
        forall|m: int|
            0 <= m < of.len() ==> (#[trigger] markers(rows, n)[m]).start == rows[of[m]].start && markers(rows, n)[m].end
                == rows[of[m]].end,
        forall|m: int|
            0 <= m < of.len() ==> (if (#[trigger] markers(rows, n)[m]).direction == FillDirection::In {
                rows[of[m]].kind() == "FILL_IN"@
            } else {
                rows[of[m]].kind() == "FILL_OUT"@ || rows[of[m]].kind() == "FILL"@
            }),
        forall|i: int|
            0 <= i < n && ((#[trigger] rows[i]).kind() == "FILL_IN"@ || rows[i].kind() == "FILL_OUT"@ || rows[i].kind()
                == "FILL"@) ==> of.contains(i),
    decreases n,
{
    if n == 0 {
        seq![]
    } else {
        let before = law_each_fill_has_one_marker(rows, (n - 1) as nat);
        match fill_direction(rows[n - 1].kind()) {
            Some(_) => {
                let of = before.push(n - 1);
                assert forall|i: int|
                    0 <= i < n && ((#[trigger] rows[i]).kind() == "FILL_IN"@ || rows[i].kind() == "FILL_OUT"@
                        || rows[i].kind() == "FILL"@) implies of.contains(i) by {
                    if i < n - 1 {
                        let m = choose|m: int| 0 <= m < before.len() && before[m] == i;
                        assert(of[m] == i);
                    } else {
                        assert(of[before.len() as int] == i);
                    }
                }
                of
            },
            None => before,
        }
    }
}

/// What a selection does not touch stays when it is cleared, and so does what
/// sticks out of it by more than a nanosecond on either side.
pub proof fn law_clearing_keeps_what_is_outside(rows: Seq<Section>, start: Binary64, end: Binary64, i: int)
    requires
        0 <= i < rows.len(),
    ensures
        rows[i].end.spec_le(start) || end.spec_le(rows[i].start) ==> cleared(rows, start, end, rows.len()).contains(
            rows[i],
        ),
        !rows[i].end.spec_le(start) && !end.spec_le(rows[i].start) && rows[i].start.spec_lt(start) && nano().spec_lt(
            larger(difference(start, rows[i].start), zero()),
        ) ==> cleared(rows, start, end, rows.len()).contains(
            (Section { start: rows[i].start, end: start, label: trimmed(rows[i].label) }),
        ),
        !rows[i].end.spec_le(start) && !end.spec_le(rows[i].start) && end.spec_lt(rows[i].end) && nano().spec_lt(
            larger(difference(rows[i].end, end), zero()),
        ) ==> cleared(rows, start, end, rows.len()).contains(
            (Section { start: end, end: rows[i].end, label: trimmed(rows[i].label) }),
        ),
{
    let row = rows[i];
    let upto = cleared(rows, start, end, (i + 1) as nat);
    let before = cleared(rows, start, end, i as nat);
    lemma_cleared_goes_on(rows, start, end, (i + 1) as nat, rows.len());
    let whole = cleared(rows, start, end, rows.len());
    if overlaps(row, start, end) {
        let left = left_piece(row, start);
        let right = right_piece(row, end);
        if left.len() > 0 {
            assert(upto[before.len() as int] == left[0]);
            assert(whole[before.len() as int] == left[0]);
        }
        if right.len() > 0 {
            assert(upto[(before.len() + left.len()) as int] == right[0]);
            assert(whole[(before.len() + left.len()) as int] == right[0]);
        }
    } else {
        assert(upto[before.len() as int] == row);
        assert(whole[before.len() as int] == row);
    }
}

proof fn lemma_cleared_goes_on(rows: Seq<Section>, start: Binary64, end: Binary64, m: nat, n: nat)
    requires
        m <= n <= rows.len(),
    ensures
        cleared(rows, start, end, m).len() <= cleared(rows, start, end, n).len(),
        forall|k: int|
            0 <= k < cleared(rows, start, end, m).len() ==> #[trigger] cleared(rows, start, end, n)[k] == cleared(
                rows,
                start,
                end,
                m,
            )[k],
    decreases n - m,
{
    if m < n {
        lemma_cleared_goes_on(rows, start, end, m, (n - 1) as nat);
    }
}

/// Clearing brings in nothing new: what it leaves is a row that it was given, or
/// what sticks out of one, under the same label.
pub proof fn law_clearing_adds_nothing(rows: Seq<Section>, start: Binary64, end: Binary64, n: nat, k: int) -> (i: int)
    requires
        n <= rows.len(),
        0 <= k < cleared(rows, start, end, n).len(),
    ensures
        0 <= i < n,
        ({
            let left = cleared(rows, start, end, n)[k];
            ||| left == rows[i]
            ||| left == (Section { start: rows[i].start, end: start, label: trimmed(rows[i].label) })
            ||| left == (Section { start: end, end: rows[i].end, label: trimmed(rows[i].label) })
        }),
    decreases n,
{
    if n == 0 {
        0
    } else {
        let before = cleared(rows, start, end, (n - 1) as nat);
        if k < before.len() {
            assert(cleared(rows, start, end, n)[k] == before[k]);
            law_clearing_adds_nothing(rows, start, end, (n - 1) as nat, k)
        } else {
            n - 1
        }
    }
}

} // verus!
