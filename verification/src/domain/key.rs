//! Musical key indices, Camelot and classical labels, harmonic compatibility.
//!
//! Keys are numbered `0..=11` for the major keys C to B (Camelot "B") and
//! `12..=23` for the minor keys Cm to Bm (Camelot "A"): the index is the pitch
//! class plus twelve times the mode flag.

use crate::text::{decimal, digit};
use vstd::prelude::*;

verus! {

/// Mode of a key value.
#[derive(Debug, Clone, Copy, PartialEq, Eq, Hash, Structural)]
pub enum Mode {
    Major,
    Minor,
}

/// The flag stored alongside a pitch class.
pub open spec fn mode_flag(mode: Mode) -> nat {
    match mode {
        Mode::Major => 0,
        Mode::Minor => 1,
    }
}

/// The Camelot letter of a mode.
pub open spec fn mode_letter(mode: Mode) -> char {
    match mode {
        Mode::Major => 'B',
        Mode::Minor => 'A',
    }
}

/// The other mode.
pub open spec fn other_mode(mode: Mode) -> Mode {
    match mode {
        Mode::Major => Mode::Minor,
        Mode::Minor => Mode::Major,
    }
}

impl Mode {
    /// The flag stored alongside a pitch class in a key segment.
    pub fn flag(self) -> (r: u8)
        ensures
            r == mode_flag(self),
    {
        match self {
            Mode::Major => 0,
            Mode::Minor => 1,
        }
    }

    /// The Camelot letter for this mode ("B" major, "A" minor).
    pub fn camelot_letter(self) -> (r: char)
        ensures
            r == mode_letter(self),
    {
        match self {
            Mode::Major => 'B',
            Mode::Minor => 'A',
        }
    }

    /// The mode of a stored flag: anything but zero is minor.
    pub fn from_flag(flag: u8) -> (r: Self)
        ensures
            r == (if flag == 0 {
                Mode::Major
            } else {
                Mode::Minor
            }),
    {
        if flag == 0 {
            Mode::Major
        } else {
            Mode::Minor
        }
    }
}

/// A musical key: a pitch class plus a mode, stored as an index in `0..24`.
#[derive(Debug, Clone, Copy, PartialEq, Eq, Hash, PartialOrd, Ord, Structural)]
pub struct Key {
    index: u8,
}

impl View for Key {
    type V = nat;

    closed spec fn view(&self) -> nat {
        self.index as nat
    }
}

/// The mode of a key index.
pub open spec fn mode_of(index: nat) -> Mode {
    if index < 12 {
        Mode::Major
    } else {
        Mode::Minor
    }
}

/// The pitch class of a key index.
pub open spec fn pitch_of(index: nat) -> nat {
    index % 12
}

/// The position of a key index on the Camelot wheel, `1..=12`: one step on the
/// wheel is a fifth, seven semitones.
#[verifier::opaque]
pub open spec fn wheel_number(index: nat) -> nat {
    (7 * (index % 12) + (if index < 12 {
        7nat
    } else {
        4nat
    })) % 12 + 1
}

/// The Camelot label of a key index, such as `8B`.
pub open spec fn camelot_label(index: nat) -> Seq<char> {
    decimal(wheel_number(index)).push(mode_letter(mode_of(index)))
}

/// The name of a pitch class.
pub open spec fn note_name(pitch: nat) -> Seq<char> {
    if pitch == 0 {
        seq!['C']
    } else if pitch == 1 {
        seq!['C', '#']
    } else if pitch == 2 {
        seq!['D']
    } else if pitch == 3 {
        seq!['D', '#']
    } else if pitch == 4 {
        seq!['E']
    } else if pitch == 5 {
        seq!['F']
    } else if pitch == 6 {
        seq!['F', '#']
    } else if pitch == 7 {
        seq!['G']
    } else if pitch == 8 {
        seq!['G', '#']
    } else if pitch == 9 {
        seq!['A']
    } else if pitch == 10 {
        seq!['A', '#']
    } else {
        seq!['B']
    }
}

/// The classical label of a key index, such as `Am`.
pub open spec fn classical_label(index: nat) -> Seq<char> {
    if index < 12 {
        note_name(pitch_of(index))
    } else {
        note_name(pitch_of(index)).push('m')
    }
}

/// Whether two key indices mix harmonically: the same key, neighbours on the
/// wheel in one mode, or relative keys.
pub open spec fn compatible(a: nat, b: nat) -> bool {
    ||| a == b
    ||| mode_of(a) == mode_of(b) && (wheel_number(b) == wheel_number(a) % 12 + 1 || wheel_number(a) == wheel_number(b)
        % 12 + 1)
    ||| mode_of(a) != mode_of(b) && wheel_number(a) == wheel_number(b)
}

/// A key has one place on the wheel, and the place has one key.
pub proof fn law_wheel_place_is_unique(a: nat, b: nat)
    requires
        a < 24,
        b < 24,
        wheel_number(a) == wheel_number(b),
        mode_of(a) == mode_of(b),
    ensures
        a == b,
{
    reveal(wheel_number);
}

/// Every key index has a place on the wheel.
proof fn lemma_wheel_range(index: nat)
    ensures
        1 <= wheel_number(index) <= 12,
{
    reveal(wheel_number);
}

/// Labels tell keys apart.
pub proof fn law_labels_are_unique(a: nat, b: nat)
    requires
        a < 24,
        b < 24,
        camelot_label(a) == camelot_label(b) || classical_label(a) == classical_label(b),
    ensures
        a == b,
{
    if camelot_label(a) == camelot_label(b) {
        let x = decimal(wheel_number(a));
        let y = decimal(wheel_number(b));
        assert(camelot_label(a).last() == camelot_label(b).last());
        assert(camelot_label(a).drop_last() == x);
        assert(camelot_label(b).drop_last() == y);
        assert(x == y);
        lemma_wheel_range(a);
        lemma_wheel_range(b);
        reveal_with_fuel(decimal, 3);
        if wheel_number(a) >= 10 {
            assert(x.len() == 2);
            assert(x[1] == digit(wheel_number(a) % 10));
        } else {
            assert(x[0] == digit(wheel_number(a)));
        }
        if wheel_number(b) >= 10 {
            assert(y.len() == 2);
            assert(y[1] == digit(wheel_number(b) % 10));
        } else {
            assert(y[0] == digit(wheel_number(b)));
        }
        law_wheel_place_is_unique(a, b);
    } else {
        let x = classical_label(a);
        let y = classical_label(b);
        assert(x.len() == y.len() && x[0] == y[0] && x.last() == y.last());
        if x.len() >= 2 {
            assert(x[1] == y[1]);
        }
    }
}

/// Going to the relative key twice comes back.
pub proof fn law_relative_is_an_involution(a: nat, b: nat, c: nat)
    requires
        a < 24,
        c < 24,
        wheel_number(b) == wheel_number(a),
        mode_of(b) == other_mode(mode_of(a)),
        wheel_number(c) == wheel_number(b),
        mode_of(c) == other_mode(mode_of(b)),
    ensures
        c == a,
{
    law_wheel_place_is_unique(a, c);
}

/// Compatibility holds both ways, and every key is compatible with itself.
pub proof fn law_compatibility_is_symmetric(a: nat, b: nat)
    ensures
        compatible(a, b) <==> compatible(b, a),
        compatible(a, a),
{
}

/// A key, its two neighbours on the wheel and its relative key are four keys,
/// and no other key is compatible.
proof fn lemma_neighbourhood(a: nat, prev: nat, next: nat, relative: nat)
    requires
        a < 24,
        prev < 24,
        next < 24,
        relative < 24,
        mode_of(prev) == mode_of(a),
        mode_of(next) == mode_of(a),
        mode_of(relative) == other_mode(mode_of(a)),
        wheel_number(prev) == (wheel_number(a) + 10) % 12 + 1,
        wheel_number(next) == wheel_number(a) % 12 + 1,
        wheel_number(relative) == wheel_number(a),
    ensures
        a != prev && a != next && a != relative && prev != next && prev != relative && next != relative,
        compatible(a, prev) && compatible(a, next) && compatible(a, relative),
        forall|k: nat| k < 24 && #[trigger] compatible(a, k) ==> k == a || k == prev || k == next || k == relative,
{
    let n = wheel_number(a);
    lemma_wheel_range(a);
    assert((n + 10) % 12 + 1 != n && n % 12 + 1 != n && (n + 10) % 12 != n % 12);
    assert(wheel_number(a) == wheel_number(prev) % 12 + 1);
    assert forall|k: nat| k < 24 && #[trigger] compatible(a, k) implies k == a || k == prev || k == next || k == relative by {
        if k != a {
            if mode_of(k) != mode_of(a) {
                law_wheel_place_is_unique(k, relative);
            } else if wheel_number(k) == wheel_number(a) % 12 + 1 {
                law_wheel_place_is_unique(k, next);
            } else {
                lemma_wheel_range(k);
                assert(wheel_number(k) == (n + 10) % 12 + 1);
                law_wheel_place_is_unique(k, prev);
            }
        }
    }
}

impl Key {
    #[verifier::type_invariant]
    spec fn in_range(self) -> bool {
        self.index < 24
    }

    /// The key of any integer, wrapped into `0..24`.
    pub fn from_index(index: i64) -> (r: Self)
        ensures
            r@ == index as int % 24,
    {
        let rest: i64 = index % 24;
        if rest < 0 {
            Key { index: (rest + 24) as u8 }
        } else {
            Key { index: rest as u8 }
        }
    }

    /// The key of a pitch class and a mode.
    pub fn new(pitch_class: u8, mode: Mode) -> (r: Self)
        ensures
            r@ == pitch_class % 12 + 12 * mode_flag(mode),
            pitch_of(r@) == pitch_class % 12,
            mode_of(r@) == mode,
            r@ < 24,
    {
        Key { index: pitch_class % 12 + 12 * mode.flag() }
    }

    /// The key index, in `0..24`.
    pub fn index(self) -> (r: u8)
        ensures
            r == self@,
            r < 24,
    {
        proof {
            use_type_invariant(self);
        }
        self.index
    }

    /// The pitch class, in `0..12`.
    pub fn pitch_class(self) -> (r: u8)
        ensures
            r == pitch_of(self@),
            r < 12,
    {
        self.index() % 12
    }

    /// The mode.
    pub fn mode(self) -> (r: Mode)
        ensures
            r == mode_of(self@),
    {
        if self.index() < 12 {
            Mode::Major
        } else {
            Mode::Minor
        }
    }

    /// The Camelot label, e.g. `"8A"`.
    pub fn camelot(self) -> (r: &'static str)
        ensures
            r@ == camelot_label(self@),
    {
        let number: u8 = self.camelot_number();
        proof {
            reveal_with_fuel(decimal, 3);
            reveal_strlit("1A");
            reveal_strlit("2A");
            reveal_strlit("3A");
            reveal_strlit("4A");
            reveal_strlit("5A");
            reveal_strlit("6A");
            reveal_strlit("7A");
            reveal_strlit("8A");
            reveal_strlit("9A");
            reveal_strlit("10A");
            reveal_strlit("11A");
            reveal_strlit("12A");
            reveal_strlit("1B");
            reveal_strlit("2B");
            reveal_strlit("3B");
            reveal_strlit("4B");
            reveal_strlit("5B");
            reveal_strlit("6B");
            reveal_strlit("7B");
            reveal_strlit("8B");
            reveal_strlit("9B");
            reveal_strlit("10B");
            reveal_strlit("11B");
            reveal_strlit("12B");
        }
        let label: &'static str = match (self.mode(), number) {
            (Mode::Minor, 1) => "1A",
            (Mode::Minor, 2) => "2A",
            (Mode::Minor, 3) => "3A",
            (Mode::Minor, 4) => "4A",
            (Mode::Minor, 5) => "5A",
            (Mode::Minor, 6) => "6A",
            (Mode::Minor, 7) => "7A",
            (Mode::Minor, 8) => "8A",
            (Mode::Minor, 9) => "9A",
            (Mode::Minor, 10) => "10A",
            (Mode::Minor, 11) => "11A",
            (Mode::Minor, _) => "12A",
            (Mode::Major, 1) => "1B",
            (Mode::Major, 2) => "2B",
            (Mode::Major, 3) => "3B",
            (Mode::Major, 4) => "4B",
            (Mode::Major, 5) => "5B",
            (Mode::Major, 6) => "6B",
            (Mode::Major, 7) => "7B",
            (Mode::Major, 8) => "8B",
            (Mode::Major, 9) => "9B",
            (Mode::Major, 10) => "10B",
            (Mode::Major, 11) => "11B",
            (Mode::Major, _) => "12B",
        };
        assert(label@ =~= camelot_label(self@));
        label
    }

    /// The classical label, e.g. `"Am"`.
    pub fn classical(self) -> (r: &'static str)
        ensures
            r@ == classical_label(self@),
    {
        proof {
            reveal_strlit("C");
            reveal_strlit("C#");
            reveal_strlit("D");
            reveal_strlit("D#");
            reveal_strlit("E");
            reveal_strlit("F");
            reveal_strlit("F#");
            reveal_strlit("G");
            reveal_strlit("G#");
            reveal_strlit("A");
            reveal_strlit("A#");
            reveal_strlit("B");
            reveal_strlit("Cm");
            reveal_strlit("C#m");
            reveal_strlit("Dm");
            reveal_strlit("D#m");
            reveal_strlit("Em");
            reveal_strlit("Fm");
            reveal_strlit("F#m");
            reveal_strlit("Gm");
            reveal_strlit("G#m");
            reveal_strlit("Am");
            reveal_strlit("A#m");
            reveal_strlit("Bm");
        }
        let label: &'static str = match self.index() {
            0 => "C",
            1 => "C#",
            2 => "D",
            3 => "D#",
            4 => "E",
            5 => "F",
            6 => "F#",
            7 => "G",
            8 => "G#",
            9 => "A",
            10 => "A#",
            11 => "B",
            12 => "Cm",
            13 => "C#m",
            14 => "Dm",
            15 => "D#m",
            16 => "Em",
            17 => "Fm",
            18 => "F#m",
            19 => "Gm",
            20 => "G#m",
            21 => "Am",
            22 => "A#m",
            _ => "Bm",
        };
        assert(label@ =~= classical_label(self@));
        label
    }

    /// The label shown to the user, e.g. `"Am (8A)"`.
    pub fn display(self) -> (r: String)
        ensures
            r@ == classical_label(self@) + seq![' ', '('] + camelot_label(self@) + seq![')'],
    {
        let mut out: String = String::new();
        out.push_str(self.classical());
        out.push(' ');
        out.push('(');
        out.push_str(self.camelot());
        out.push(')');
        assert(out@ =~= classical_label(self@) + seq![' ', '('] + camelot_label(self@) + seq![')']);
        out
    }

    /// Position on the Camelot wheel, `1..=12`.
    pub fn camelot_number(self) -> (r: u8)
        ensures
            r == wheel_number(self@),
            1 <= r <= 12,
    {
        proof {
            reveal(wheel_number);
        }
        let index: u8 = self.index();
        let shift: u8 = if index < 12 {
            7
        } else {
            4
        };
        (7 * (index % 12) + shift) % 12 + 1
    }

    /// The relative key: same place on the wheel, opposite mode.
    pub fn relative(self) -> (r: Key)
        ensures
            wheel_number(r@) == wheel_number(self@),
            mode_of(r@) == other_mode(mode_of(self@)),
            r@ < 24,
    {
        let target: Mode = match self.mode() {
            Mode::Major => Mode::Minor,
            Mode::Minor => Mode::Major,
        };
        Key::at_place(self.camelot_number(), target)
    }

    /// The key at a place on the wheel.
    fn at_place(number: u8, mode: Mode) -> (r: Key)
        requires
            1 <= number <= 12,
        ensures
            wheel_number(r@) == number,
            mode_of(r@) == mode,
            r@ < 24,
    {
        proof {
            reveal(wheel_number);
        }
        match mode {
            Mode::Major => Key { index: (7 * (number + 4)) % 12 },
            Mode::Minor => Key { index: (7 * (number + 7)) % 12 + 12 },
        }
    }

    /// The key with this Camelot number and mode; `None` outside `1..=12`.
    pub fn from_camelot(number: u8, mode: Mode) -> (r: Option<Key>)
        ensures
            r is Some <==> 1 <= number <= 12,
            r is Some ==> wheel_number(r->0@) == number && mode_of(r->0@) == mode && r->0@ < 24,
    {
        if 1 <= number && number <= 12 {
            Some(Key::at_place(number, mode))
        } else {
            None
        }
    }

    /// The keys that mix harmonically with this one, in index order: the key
    /// itself, its two neighbours on the wheel and its relative key.
    pub fn harmonic_neighbours(self) -> (r: Vec<Key>)
        ensures
            r@.len() == 4,
            forall|i: int| 0 <= i < r@.len() ==> (#[trigger] r@[i])@ < 24 && compatible(self@, r@[i]@),
            forall|i: int, j: int| 0 <= i < j < r@.len() ==> (#[trigger] r@[i])@ < (#[trigger] r@[j])@,
            forall|k: nat| k < 24 && compatible(self@, k) ==> exists|i: int| 0 <= i < r@.len() && (#[trigger] r@[i])@ == k,
    {
        let number: u8 = self.camelot_number();
        let mode: Mode = self.mode();
        let prev: Key = Key::at_place((number + 10) % 12 + 1, mode);
        let next: Key = Key::at_place(number % 12 + 1, mode);
        let relative: Key = self.relative();
        let index: u8 = self.index();
        let mut out: Vec<Key> = vec![self];
        let ghost start = indices(out@);
        proof {
            assert(out@[0]@ == self@);
            assert(start =~= Set::empty().insert(self@));
            lemma_neighbourhood(self@, prev@, next@, relative@);
        }
        insert_in_order(&mut out, prev);
        insert_in_order(&mut out, next);
        insert_in_order(&mut out, relative);
        proof {
            let held = indices(out@);
            assert(held =~= start.insert(prev@).insert(next@).insert(relative@));
            assert forall|i: int| 0 <= i < out@.len() implies (#[trigger] out@[i])@ < 24 && compatible(self@, out@[i]@) by {
                assert(held.contains(out@[i]@));
            }
            assert forall|k: nat| k < 24 && compatible(self@, k) implies exists|i: int|
                0 <= i < out@.len() && (#[trigger] out@[i])@ == k by {
                assert(held.contains(k));
            }
        }
        out
    }
}

/// The indices of some keys.
pub open spec fn indices(keys: Seq<Key>) -> Set<nat> {
    Set::new(|k: nat| exists|i: int| 0 <= i < keys.len() && (#[trigger] keys[i])@ == k)
}

/// Puts a key where it belongs among keys in index order.
fn insert_in_order(keys: &mut Vec<Key>, key: Key)
    requires
        forall|i: int, j: int| 0 <= i < j < old(keys)@.len() ==> (#[trigger] old(keys)@[i])@ < (#[trigger] old(keys)@[j])@,
        !indices(old(keys)@).contains(key@),
    ensures
        final(keys)@.len() == old(keys)@.len() + 1,
        forall|i: int, j: int| 0 <= i < j < final(keys)@.len() ==> (#[trigger] final(keys)@[i])@ < (#[trigger] final(keys)@[j])@,
        indices(final(keys)@) == indices(old(keys)@).insert(key@),
{
    let ghost before = keys@;
    let mut at: usize = 0;
    while at < keys.len() && keys[at].index() < key.index()
        invariant
            keys@ == before,
            at <= keys@.len(),
            forall|i: int| 0 <= i < at ==> (#[trigger] keys@[i])@ < key@,
        decreases keys@.len() - at,
    {
        at = at + 1;
    }
    proof {
        if at < before.len() {
            assert(indices(before).contains(before[at as int]@));
        }
    }
    keys.insert(at, key);
    proof {
        let after = keys@;
        assert forall|k: nat| indices(after).contains(k) <==> indices(before).insert(key@).contains(k) by {
            if indices(after).contains(k) {
                let i = choose|i: int| 0 <= i < after.len() && (#[trigger] after[i])@ == k;
                if i < at {
                    assert(before[i]@ == k);
                } else if i > at {
                    assert(before[i - 1]@ == k);
                }
            }
            if indices(before).contains(k) {
                let i = choose|i: int| 0 <= i < before.len() && (#[trigger] before[i])@ == k;
                if i < at {
                    assert(after[i]@ == k);
                } else {
                    assert(after[i + 1]@ == k);
                }
            }
            if k == key@ {
                assert(after[at as int]@ == k);
            }
        }
        assert(indices(after) =~= indices(before).insert(key@));
    }
}

} // verus!
