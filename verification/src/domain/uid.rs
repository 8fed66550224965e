//! Track uids: UUIDs of version 4 in their hyphenated form.

use crate::domain::error::DomainError;
use crate::text::{lemma_trimmed_already, lowercased, trim_text, trimmed};
use vstd::prelude::*;

verus! {

/// The value of a hexadecimal digit in either case.
pub open spec fn hex_digit(c: char) -> Option<nat> {
    if '0' <= c && c <= '9' {
        Some((c as nat - 48) as nat)
    } else if 'a' <= c && c <= 'f' {
        Some((c as nat - 87) as nat)
    } else if 'A' <= c && c <= 'F' {
        Some((c as nat - 55) as nat)
    } else {
        None
    }
}

/// The number that hexadecimal digits spell.
pub open spec fn hex_value(s: Seq<char>) -> Option<nat>
    decreases s.len(),
{
    if s.len() == 0 {
        Some(0)
    } else {
        match (hex_value(s.drop_last()), hex_digit(s.last())) {
            (Some(high), Some(low)) => Some(16 * high + low),
            _ => None,
        }
    }
}

/// The number in the hyphenated form: 8, 4, 4, 4 and 12 digits.
pub open spec fn hyphenated_value(s: Seq<char>) -> Option<nat> {
    if s.len() == 36 && s[8] == '-' && s[13] == '-' && s[18] == '-' && s[23] == '-' {
        hex_value(s.subrange(0, 8) + s.subrange(9, 13) + s.subrange(14, 18) + s.subrange(19, 23) + s.subrange(24, 36))
    } else {
        None
    }
}

/// The 128-bit number of a UUID: 32 digits, the hyphenated form, that form in
/// braces, or that form behind `urn:uuid:`.
pub open spec fn uuid_value(s: Seq<char>) -> Option<nat> {
    if s.len() == 32 {
        hex_value(s)
    } else if s.len() == 36 {
        hyphenated_value(s)
    } else if s.len() == 38 && s[0] == '{' && s[37] == '}' {
        hyphenated_value(s.subrange(1, 37))
    } else if s.len() == 45 && lowercased(s.subrange(0, 9)) == "urn:uuid:"@ {
        hyphenated_value(s.subrange(9, 45))
    } else {
        None
    }
}

/// The lower-case character of a hexadecimal digit.
pub open spec fn hex_char(d: nat) -> char {
    if d < 10 {
        (48 + d) as char
    } else {
        (87 + d) as char
    }
}

/// The last `digits` hexadecimal digits of a number.
pub open spec fn hex_text(value: nat, digits: nat) -> Seq<char>
    decreases digits,
{
    if digits == 0 {
        seq![]
    } else {
        hex_text(value / 16, (digits - 1) as nat).push(hex_char(value % 16))
    }
}

/// The hyphenated form of a UUID, in lower case.
pub open spec fn hyphenated_text(value: nat) -> Seq<char> {
    let h = hex_text(value, 32);
    h.subrange(0, 8).push('-') + h.subrange(8, 12).push('-') + h.subrange(12, 16).push('-') + h.subrange(16, 20).push(
        '-',
    ) + h.subrange(20, 32)
}

/// The version of a UUID: the thirteenth of its 32 digits.
pub open spec fn uuid_version(value: nat) -> nat {
    (value / 0x1000_0000_0000_0000_0000) % 16
}

/// Reads a UUID with `uuid::Uuid::parse_str` and hands out its 128-bit number
/// (`Uuid::as_u128`). Claimed: it accepts 32 hexadecimal digits in either case,
/// the hyphenated form, and that form in braces or behind `urn:uuid:` in any
/// case, and nothing else; the number is the one that the digits spell.
#[verifier::external_body]
pub(crate) fn parse_uuid(text: &str) -> (r: Option<u128>)
    ensures
        r is Some <==> uuid_value(text@) is Some,
        r is Some ==> r->0 == uuid_value(text@)->0,
{
    match uuid::Uuid::parse_str(text) {
        Ok(parsed) => Some(parsed.as_u128()),
        Err(_) => None,
    }
}

/// The version of a UUID by `uuid::Uuid::get_version_num`. Claimed: it is the
/// upper half of byte 6 of the big-endian number.
#[verifier::external_body]
fn version_num(value: u128) -> (r: usize)
    ensures
        r == uuid_version(value as nat),
{
    uuid::Uuid::from_u128(value).get_version_num()
}

/// The text that `uuid::fmt::Hyphenated` displays. Claimed: the 32 digits in
/// lower case, with hyphens behind the 8th, 12th, 16th and 20th.
#[verifier::external_body]
fn hyphenate(value: u128) -> (r: String)
    ensures
        r@ == hyphenated_text(value as nat),
{
    uuid::Uuid::from_u128(value).hyphenated().to_string()
}

/// A random UUID from `uuid::Uuid::new_v4`. Claimed of every outcome: its
/// version is 4. It panics only where the system has no randomness to give.
#[verifier::external_body]
fn fresh_uuid() -> (r: u128)
    ensures
        uuid_version(r as nat) == 4,
{
    uuid::Uuid::new_v4().as_u128()
}

/// The canonical form of a uid; `None` where it is not a UUID of version 4.
pub open spec fn canonical(value: Seq<char>) -> Option<Seq<char>> {
    match uuid_value(trimmed(value)) {
        Some(number) => if uuid_version(number) == 4 {
            Some(hyphenated_text(number))
        } else {
            None
        },
        None => None,
    }
}

/// Checks that a uid is a UUID of version 4, and gives its canonical form.
pub fn canonical_uid(value: &str) -> (r: Result<String, DomainError>)
    ensures
        canonical(value@) is Some ==> r is Ok && r->Ok_0@ == canonical(value@)->0,
        canonical(value@) is None ==> (r matches Err(DomainError::InvalidUid(text)) && text@ == trimmed(value@)),
{
    let text: String = trim_text(value);
    match parse_uuid(text.as_str()) {
        Some(number) => if version_num(number) == 4 {
            Ok(hyphenate(number))
        } else {
            Err(DomainError::InvalidUid(text))
        },
        None => Err(DomainError::InvalidUid(text)),
    }
}

/// Generates a fresh track uid.
pub fn new_uid() -> (r: String)
    ensures
        canonical(r@) == Some(r@),
{
    let number: u128 = fresh_uuid();
    proof {
        lemma_hyphenated_is_canonical(number as nat);
    }
    hyphenate(number)
}

/// 16 to a power.
spec fn power16(n: nat) -> nat
    decreases n,
{
    if n == 0 {
        1
    } else {
        16 * power16((n - 1) as nat)
    }
}

proof fn lemma_hex_bound(s: Seq<char>)
    ensures
        hex_value(s) is Some ==> hex_value(s)->0 < power16(s.len()),
    decreases s.len(),
{
    if s.len() > 0 {
        lemma_hex_bound(s.drop_last());
    }
}

proof fn lemma_hex_round_trip(value: nat, digits: nat)
    requires
        value < power16(digits),
    ensures
        hex_value(hex_text(value, digits)) == Some(value),
        hex_text(value, digits).len() == digits,
        forall|i: int| 0 <= i < digits ==> hex_digit(#[trigger] hex_text(value, digits)[i]) is Some,
    decreases digits,
{
    if digits > 0 {
        lemma_hex_round_trip(value / 16, (digits - 1) as nat);
        let high = hex_text(value / 16, (digits - 1) as nat);
        let all = hex_text(value, digits);
        assert(all.drop_last() =~= high);
        assert(hex_digit(hex_char(value % 16)) == Some(value % 16));
        assert forall|i: int| 0 <= i < digits implies hex_digit(#[trigger] all[i]) is Some by {
            if i < digits - 1 {
                assert(all[i] == high[i]);
            }
        }
    }
}

proof fn lemma_hyphenated_is_canonical(number: nat)
    requires
        number < 0x1_0000_0000_0000_0000_0000_0000_0000_0000,
        uuid_version(number) == 4,
    ensures
        canonical(hyphenated_text(number)) == Some(hyphenated_text(number)),
{
    reveal_with_fuel(power16, 33);
    assert(power16(32) == 0x1_0000_0000_0000_0000_0000_0000_0000_0000);
    lemma_hex_round_trip(number, 32);
    let h = hex_text(number, 32);
    let t = hyphenated_text(number);
    assert(t.len() == 36);
    assert(t.subrange(0, 8) + t.subrange(9, 13) + t.subrange(14, 18) + t.subrange(19, 23) + t.subrange(24, 36) =~= h);
    assert(t[0] == h[0] && t[35] == h[31]);
    assert(hex_digit(h[0]) is Some && hex_digit(h[31]) is Some);
    lemma_trimmed_already(t);
}

/// A canonical uid is its own canonical form.
pub proof fn law_canonical_uid_stays(value: Seq<char>)
    requires
        canonical(value) is Some,
    ensures
        canonical(canonical(value)->0) == canonical(value),
{
    let s = trimmed(value);
    let t = if s.len() == 38 {
        s.subrange(1, 37)
    } else if s.len() == 45 {
        s.subrange(9, 45)
    } else {
        s
    };
    let digits = if s.len() == 32 {
        s
    } else {
        t.subrange(0, 8) + t.subrange(9, 13) + t.subrange(14, 18) + t.subrange(19, 23) + t.subrange(24, 36)
    };
    assert(uuid_value(s) == hex_value(digits));
    lemma_hex_bound(digits);
    reveal_with_fuel(power16, 33);
    lemma_hyphenated_is_canonical(uuid_value(trimmed(value))->0);
}

} // verus!
