//! Text as a sequence of characters: trimming, case, decimal digits, joining.

use vstd::prelude::*;

verus! {

/// `String::push` puts one character at the end.
pub assume_specification[ String::push ](s: &mut String, c: char)
    ensures
        final(s)@ == old(s)@.push(c),
;

/// `String::push_str` puts another text at the end.
pub assume_specification[ String::push_str ](s: &mut String, t: &str)
    ensures
        final(s)@ == old(s)@ + t@,
;

/// Whether a character is Unicode white space.
pub open spec fn is_white(c: char) -> bool {
    ||| 0x9 <= c as u32 <= 0xD
    ||| c as u32 == 0x20
    ||| c as u32 == 0x85
    ||| c as u32 == 0xA0
    ||| c as u32 == 0x1680
    ||| 0x2000 <= c as u32 <= 0x200A
    ||| c as u32 == 0x2028
    ||| c as u32 == 0x2029
    ||| c as u32 == 0x202F
    ||| c as u32 == 0x205F
    ||| c as u32 == 0x3000
}

/// A text without its leading white space.
pub open spec fn trimmed_start(s: Seq<char>) -> Seq<char>
    decreases s.len(),
{
    if s.len() > 0 && is_white(s[0]) {
        trimmed_start(s.drop_first())
    } else {
        s
    }
}

/// A text without its trailing white space.
pub open spec fn trimmed_end(s: Seq<char>) -> Seq<char>
    decreases s.len(),
{
    if s.len() > 0 && is_white(s.last()) {
        trimmed_end(s.drop_last())
    } else {
        s
    }
}

/// A text without white space at either end.
pub open spec fn trimmed(s: Seq<char>) -> Seq<char> {
    trimmed_end(trimmed_start(s))
}

/// An ASCII letter in upper case; any other character as it is.
pub open spec fn upper(c: char) -> char {
    if 'a' <= c && c <= 'z' {
        ((c as u32) - 32) as char
    } else {
        c
    }
}

/// An ASCII letter in lower case; any other character as it is.
pub open spec fn lower(c: char) -> char {
    if 'A' <= c && c <= 'Z' {
        ((c as u32) + 32) as char
    } else {
        c
    }
}

/// A text with its ASCII letters in upper case.
pub open spec fn uppercased(s: Seq<char>) -> Seq<char> {
    Seq::new(s.len(), |i: int| upper(s[i]))
}

/// A text with its ASCII letters in lower case.
pub open spec fn lowercased(s: Seq<char>) -> Seq<char> {
    Seq::new(s.len(), |i: int| lower(s[i]))
}

/// The decimal digit of a value below ten.
pub open spec fn digit(d: nat) -> char {
    (48 + d) as char
}

/// A natural number in decimal, without leading zeros.
pub open spec fn decimal(n: nat) -> Seq<char>
    decreases n,
{
    if n < 10 {
        seq![digit(n)]
    } else {
        decimal(n / 10).push(digit(n % 10))
    }
}

/// An integer in decimal, with a minus sign where it is negative.
pub open spec fn signed_decimal(n: int) -> Seq<char> {
    if n < 0 {
        seq!['-'] + decimal((-n) as nat)
    } else {
        decimal(n as nat)
    }
}

/// The texts one after another with `separator` between them.
pub open spec fn joined(parts: Seq<Seq<char>>, separator: Seq<char>) -> Seq<char>
    decreases parts.len(),
{
    if parts.len() == 0 {
        seq![]
    } else if parts.len() == 1 {
        parts[0]
    } else {
        joined(parts.drop_last(), separator) + separator + parts.last()
    }
}

/// The characters of each text.
pub open spec fn views(parts: Seq<String>) -> Seq<Seq<char>> {
    Seq::new(parts.len(), |i: int| parts[i]@)
}

/// The characters of a text.
pub fn chars_of(s: &str) -> (r: Vec<char>)
    ensures
        r@ == s@,
{
    let mut out: Vec<char> = Vec::new();
    for c in it: s.chars()
        invariant
            out@ == it.seq().take(it.index()),
            it.seq() == s@,
    {
        out.push(c);
    }
    assert(out@ == s@);
    out
}

/// The text of a run of characters.
pub fn text_between(chars: &[char], from: usize, to: usize) -> (r: String)
    requires
        from <= to <= chars@.len(),
    ensures
        r@ == chars@.subrange(from as int, to as int),
{
    let mut out: String = String::new();
    let mut i: usize = from;
    while i < to
        invariant
            from <= i <= to <= chars@.len(),
            out@ == chars@.subrange(from as int, i as int),
        decreases to - i,
    {
        out.push(chars[i]);
        i = i + 1;
    }
    out
}

/// Whether a character is Unicode white space.
pub fn is_white_space(c: char) -> (r: bool)
    ensures
        r == is_white(c),
{
    let u: u32 = c as u32;
    (0x9 <= u && u <= 0xD) || u == 0x20 || u == 0x85 || u == 0xA0 || u == 0x1680 || (0x2000 <= u && u <= 0x200A) || u
        == 0x2028 || u == 0x2029 || u == 0x202F || u == 0x205F || u == 0x3000
}

/// Dropping a white prefix leaves the trimmed text the same.
proof fn lemma_trimmed_start_at(s: Seq<char>, k: int)
    requires
        0 <= k <= s.len(),
        forall|i: int| 0 <= i < k ==> is_white(s[i]),
        k < s.len() ==> !is_white(s[k]),
    ensures
        trimmed_start(s) == s.subrange(k, s.len() as int),
    decreases k,
{
    if k == 0 {
        assert(s.subrange(0, s.len() as int) == s);
    } else {
        let t = s.drop_first();
        lemma_trimmed_start_at(t, k - 1);
        assert(t.subrange(k - 1, t.len() as int) == s.subrange(k, s.len() as int));
    }
}

proof fn lemma_trimmed_end_at(s: Seq<char>, k: int)
    requires
        0 <= k <= s.len(),
        forall|i: int| k <= i < s.len() ==> is_white(s[i]),
        k > 0 ==> !is_white(s[k - 1]),
    ensures
        trimmed_end(s) == s.subrange(0, k),
    decreases s.len() - k,
{
    if k == s.len() {
        assert(s.subrange(0, k) == s);
    } else {
        let t = s.drop_last();
        lemma_trimmed_end_at(t, k);
        assert(t.subrange(0, k) == s.subrange(0, k));
    }
}

/// A text that is trimmed already stays as it is.
pub proof fn law_trimming_twice_is_once(s: Seq<char>)
    ensures
        trimmed(trimmed(s)) == trimmed(s),
{
    let t = trimmed_start(s);
    lemma_trimmed_start_clean(s);
    lemma_trimmed_end_clean(t);
    let e = trimmed_end(t);
    lemma_trimmed_start_at(e, 0);
    assert(e.subrange(0, e.len() as int) =~= e);
}

/// A text with no white space at either end stays as it is.
pub proof fn lemma_trimmed_already(s: Seq<char>)
    requires
        s.len() > 0 ==> !is_white(s[0]) && !is_white(s.last()),
    ensures
        trimmed(s) == s,
{
    lemma_trimmed_start_at(s, 0);
    assert(s.subrange(0, s.len() as int) =~= s);
    lemma_trimmed_end_at(s, s.len() as int);
}

/// A trimmed text has no white space at either end.
pub proof fn lemma_trimmed_is_clean(s: Seq<char>)
    ensures
        trimmed(s).len() > 0 ==> !is_white(trimmed(s)[0]) && !is_white(trimmed(s).last()),
{
    lemma_trimmed_start_clean(s);
    lemma_trimmed_end_clean(trimmed_start(s));
}

/// Texts without white space at their ends join to one without.
pub proof fn lemma_joined_is_clean(parts: Seq<Seq<char>>, separator: Seq<char>)
    requires
        forall|i: int|
            0 <= i < parts.len() ==> (#[trigger] parts[i]).len() > 0 && !is_white(parts[i][0]) && !is_white(
                parts[i].last(),
            ),
    ensures
        parts.len() > 0 ==> joined(parts, separator).len() > 0 && !is_white(joined(parts, separator)[0]) && !is_white(
            joined(parts, separator).last(),
        ),
        trimmed(joined(parts, separator)) == joined(parts, separator),
    decreases parts.len(),
{
    if parts.len() > 1 {
        let front = parts.drop_last();
        assert forall|i: int| 0 <= i < front.len() implies (#[trigger] front[i]).len() > 0 && !is_white(front[i][0])
            && !is_white(front[i].last()) by {
            assert(front[i] == parts[i]);
        }
        lemma_joined_is_clean(front, separator);
        let whole = joined(parts, separator);
        assert(whole[0] == joined(front, separator)[0]);
        assert(whole.last() == parts.last().last());
        assert(parts.last() == parts[parts.len() - 1]);
    } else if parts.len() == 1 {
        assert(parts[0].len() > 0);
    }
    lemma_trimmed_already(joined(parts, separator));
}

/// Each of some texts stands in what they join to.
pub proof fn lemma_joined_holds_each(parts: Seq<Seq<char>>, separator: Seq<char>, i: int) -> (at: int)
    requires
        0 <= i < parts.len(),
    ensures
        occurs_at(joined(parts, separator), parts[i], at),
    decreases parts.len(),
{
    let whole = joined(parts, separator);
    if parts.len() == 1 {
        assert(whole.subrange(0, parts[0].len() as int) =~= parts[0]);
        0
    } else if i == parts.len() - 1 {
        let at = (whole.len() - parts.last().len()) as int;
        assert(whole.subrange(at, whole.len() as int) =~= parts.last());
        at
    } else {
        let front = joined(parts.drop_last(), separator);
        let at = lemma_joined_holds_each(parts.drop_last(), separator, i);
        assert(whole.subrange(at, at + parts[i].len()) =~= front.subrange(at, at + parts[i].len()));
        at
    }
}

/// A trimmed text is a part of the text.
pub proof fn lemma_trimmed_is_part(s: Seq<char>) -> (at: int)
    ensures
        0 <= at,
        at + trimmed(s).len() <= s.len(),
        trimmed(s) == s.subrange(at, at + trimmed(s).len()),
{
    let t = trimmed_start(s);
    lemma_trimmed_start_is_part(s);
    lemma_trimmed_end_is_part(t);
    let at = (s.len() - t.len()) as int;
    assert(s.subrange(at, at + trimmed(s).len()) =~= trimmed(s)) by {
        assert(t == s.subrange(at, s.len() as int));
        assert(trimmed_end(t) == t.subrange(0, trimmed_end(t).len() as int));
    }
    at
}

proof fn lemma_trimmed_start_is_part(s: Seq<char>)
    ensures
        trimmed_start(s).len() <= s.len(),
        trimmed_start(s) == s.subrange(s.len() - trimmed_start(s).len(), s.len() as int),
    decreases s.len(),
{
    if s.len() > 0 && is_white(s[0]) {
        let u = s.drop_first();
        lemma_trimmed_start_is_part(u);
        let n = trimmed_start(s).len() as int;
        assert(u.subrange(u.len() - n, u.len() as int) =~= s.subrange(s.len() - n, s.len() as int));
    } else {
        assert(s.subrange(0, s.len() as int) =~= s);
    }
}

proof fn lemma_trimmed_end_is_part(s: Seq<char>)
    ensures
        trimmed_end(s).len() <= s.len(),
        trimmed_end(s) == s.subrange(0, trimmed_end(s).len() as int),
    decreases s.len(),
{
    if s.len() > 0 && is_white(s.last()) {
        let u = s.drop_last();
        lemma_trimmed_end_is_part(u);
        let n = trimmed_end(s).len() as int;
        assert(u.subrange(0, n) =~= s.subrange(0, n));
    } else {
        assert(s.subrange(0, s.len() as int) =~= s);
    }
}

/// What is left of a text starts with no white space.
proof fn lemma_trimmed_start_clean(s: Seq<char>)
    ensures
        trimmed_start(s).len() > 0 ==> !is_white(trimmed_start(s)[0]),
    decreases s.len(),
{
    if s.len() > 0 && is_white(s[0]) {
        lemma_trimmed_start_clean(s.drop_first());
    }
}

/// What is left of a text ends with no white space and starts as before.
proof fn lemma_trimmed_end_clean(s: Seq<char>)
    ensures
        trimmed_end(s).len() > 0 ==> !is_white(trimmed_end(s).last()) && s.len() > 0 && trimmed_end(s)[0] == s[0],
        trimmed_end(trimmed_end(s)) == trimmed_end(s),
    decreases s.len(),
{
    if s.len() > 0 && is_white(s.last()) {
        lemma_trimmed_end_clean(s.drop_last());
    }
}

/// A text without white space at either end.
pub fn trim_text(s: &str) -> (r: String)
    ensures
        r@ == trimmed(s@),
{
    let chars: Vec<char> = chars_of(s);
    let mut from: usize = 0;
    while from < chars.len() && is_white_space(chars[from])
        invariant
            from <= chars@.len(),
            forall|i: int| 0 <= i < from ==> is_white(chars@[i]),
        decreases chars@.len() - from,
    {
        from = from + 1;
    }
    proof {
        lemma_trimmed_start_at(chars@, from as int);
    }
    let mut to: usize = chars.len();
    while to > from && is_white_space(chars[to - 1])
        invariant
            from <= to <= chars@.len(),
            forall|i: int| to <= i < chars@.len() ==> is_white(chars@[i]),
        decreases to,
    {
        to = to - 1;
    }
    proof {
        let t = chars@.subrange(from as int, chars@.len() as int);
        assert forall|i: int| to - from <= i < t.len() implies is_white(t[i]) by {
            assert(t[i] == chars@[from + i]);
        }
        lemma_trimmed_end_at(t, to - from);
        assert(t.subrange(0, to - from) == chars@.subrange(from as int, to as int));
    }
    text_between(chars.as_slice(), from, to)
}

/// An ASCII letter in upper case; any other character as it is.
pub fn upper_char(c: char) -> (r: char)
    ensures
        r == upper(c),
{
    if 'a' <= c && c <= 'z' {
        ((c as u8) - 32) as char
    } else {
        c
    }
}

/// A text with its ASCII letters in upper case.
pub fn uppercase_text(s: &str) -> (r: String)
    ensures
        r@ == uppercased(s@),
{
    let mut out: String = String::new();
    for c in it: s.chars()
        invariant
            it.seq() == s@,
            out@ == uppercased(s@).take(it.index()),
    {
        out.push(upper_char(c));
        assert(uppercased(s@).take(it.index() + 1) == uppercased(s@).take(it.index()).push(upper(s@[it.index()])));
    }
    assert(uppercased(s@).take(s@.len() as int) == uppercased(s@));
    out
}

/// Whether two texts are the same.
pub fn same_text(a: &str, b: &str) -> (r: bool)
    ensures
        r == (a@ == b@),
{
    let x: Vec<char> = chars_of(a);
    let y: Vec<char> = chars_of(b);
    if x.len() != y.len() {
        return false;
    }
    let mut i: usize = 0;
    while i < x.len()
        invariant
            x@ == a@,
            y@ == b@,
            x@.len() == y@.len(),
            i <= x@.len(),
            forall|j: int| 0 <= j < i ==> x@[j] == y@[j],
        decreases x@.len() - i,
    {
        if x[i] != y[i] {
            return false;
        }
        i = i + 1;
    }
    assert(x@ == y@);
    true
}

/// A copy of a text.
pub fn copy_text(s: &str) -> (r: String)
    ensures
        r@ == s@,
{
    let mut out: String = String::new();
    out.push_str(s);
    assert(out@ == s@);
    out
}

/// Puts a natural number in decimal at the end of a text.
pub fn push_wide_decimal(out: &mut String, n: u128)
    ensures
        final(out)@ == old(out)@ + decimal(n as nat),
    decreases n,
{
    if n >= 10 {
        push_wide_decimal(out, n / 10);
    }
    let d: u8 = (n % 10) as u8;
    out.push((48 + d) as char);
    assert(out@ == old(out)@ + decimal(n as nat));
}

/// Puts a natural number in decimal at the end of a text.
pub fn push_decimal(out: &mut String, n: u64)
    ensures
        final(out)@ == old(out)@ + decimal(n as nat),
{
    push_wide_decimal(out, n as u128);
}

/// Puts an integer in decimal at the end of a text.
pub fn push_signed_decimal(out: &mut String, n: i64)
    ensures
        final(out)@ == old(out)@ + signed_decimal(n as int),
{
    if n < 0 {
        out.push('-');
        push_decimal(out, (-(n as i128)) as u64);
        assert(out@ == old(out)@ + signed_decimal(n as int));
    } else {
        push_decimal(out, n as u64);
    }
}

/// A natural number in decimal.
pub fn decimal_text(n: u64) -> (r: String)
    ensures
        r@ == decimal(n as nat),
{
    let mut out: String = String::new();
    push_decimal(&mut out, n);
    assert(out@ == decimal(n as nat));
    out
}

/// Whether `part` stands in `s` at `at`.
pub open spec fn occurs_at(s: Seq<char>, part: Seq<char>, at: int) -> bool {
    0 <= at && at + part.len() <= s.len() && s.subrange(at, at + part.len()) == part
}

/// The first place from `from` on at which `part` stands in `s`.
pub open spec fn find_from(s: Seq<char>, part: Seq<char>, from: int) -> Option<int>
    decreases s.len() + 1 - from,
{
    if from < 0 || from > s.len() {
        None
    } else if occurs_at(s, part, from) {
        Some(from)
    } else {
        find_from(s, part, from + 1)
    }
}

/// Whether `part` stands at `at`.
fn part_at(chars: &[char], part: &[char], at: usize) -> (r: bool)
    requires
        at <= chars@.len(),
    ensures
        r == occurs_at(chars@, part@, at as int),
{
    let total: usize = chars.len();
    if total - at < part.len() {
        return false;
    }
    let mut k: usize = 0;
    while k < part.len()
        invariant
            k <= part@.len(),
            at + part@.len() <= total == chars@.len(),
            forall|j: int| 0 <= j < k ==> chars@[at + j] == part@[j],
        decreases part@.len() - k,
    {
        if chars[at + k] != part[k] {
            assert(chars@.subrange(at as int, at + part@.len())[k as int] != part@[k as int]);
            return false;
        }
        k = k + 1;
    }
    assert(chars@.subrange(at as int, at + part@.len()) =~= part@);
    true
}

/// The first place from `from` on at which `part` stands.
pub fn find_part(chars: &[char], part: &[char], from: usize) -> (r: Option<usize>)
    ensures
        r is Some <==> find_from(chars@, part@, from as int) is Some,
        r is Some ==> r->0 == find_from(chars@, part@, from as int)->0 && from <= r->0 && r->0 + part@.len()
            <= chars@.len(),
{
    let mut at: usize = from;
    while at <= chars.len()
        invariant
            from <= at,
            find_from(chars@, part@, from as int) == find_from(chars@, part@, at as int),
        decreases chars@.len() + 1 - at,
    {
        if part_at(chars, part, at) {
            return Some(at);
        }
        if at == usize::MAX {
            assert(chars.len() == usize::MAX);
            proof {
                reveal_with_fuel(find_from, 2);
            }
            return None;
        }
        at = at + 1;
    }
    None
}

/// The value of a run of decimal digits; `None` where another character stands.
pub open spec fn digits_value(s: Seq<char>) -> Option<nat>
    decreases s.len(),
{
    if s.len() == 0 {
        Some(0)
    } else {
        match digits_value(s.drop_last()) {
            Some(v) if '0' <= s.last() && s.last() <= '9' => Some(10 * v + (s.last() as nat - 48) as nat),
            _ => None,
        }
    }
}

/// The natural number up to `limit` that a text spells: digits, with at most a
/// plus sign before them.
pub open spec fn parsed_natural(s: Seq<char>, limit: nat) -> Option<nat> {
    let body = if s.len() > 0 && s[0] == '+' {
        s.drop_first()
    } else {
        s
    };
    match digits_value(body) {
        Some(v) if body.len() > 0 && v <= limit => Some(v),
        _ => None,
    }
}

proof fn lemma_digits_value_prefix(s: Seq<char>, k: int)
    requires
        0 <= k <= s.len(),
        digits_value(s) is Some,
    ensures
        digits_value(s.take(k)) is Some,
        digits_value(s.take(k))->0 <= digits_value(s)->0,
    decreases s.len() - k,
{
    if k == s.len() {
        assert(s.take(k) == s);
    } else {
        lemma_digits_value_prefix(s, k + 1);
        assert(s.take(k + 1).drop_last() == s.take(k));
    }
}

/// The natural number up to `limit` that characters `from..` spell.
pub fn parse_natural(chars: &[char], from: usize, limit: u64) -> (r: Option<u64>)
    requires
        from <= chars@.len(),
    ensures
        r is Some <==> parsed_natural(chars@.skip(from as int), limit as nat) is Some,
        r is Some ==> r->0 == parsed_natural(chars@.skip(from as int), limit as nat)->0,
{
    let ghost s = chars@.skip(from as int);
    let mut at: usize = from;
    if from < chars.len() && chars[from] == '+' {
        at = from + 1;
    }
    let ghost body = chars@.skip(at as int);
    proof {
        assert(body == (if s.len() > 0 && s[0] == '+' {
            s.drop_first()
        } else {
            s
        }));
    }
    if at == chars.len() {
        return None;
    }
    let start: usize = at;
    let mut value: u64 = 0;
    while at < chars.len()
        invariant
            start <= at <= chars@.len(),
            start < chars@.len(),
            s == chars@.skip(from as int),
            body == chars@.skip(start as int),
            digits_value(body.take(at - start)) == Some(value as nat),
            value <= limit,
            digits_value(body) is Some && digits_value(body)->0 <= limit <==> parsed_natural(s, limit as nat) is Some,
            parsed_natural(s, limit as nat) is Some ==> parsed_natural(s, limit as nat) == digits_value(body),
        decreases chars@.len() - at,
    {
        let c: char = chars[at];
        proof {
            assert(body.take(at + 1 - start).drop_last() == body.take(at - start));
            assert(body.take(at + 1 - start).last() == c);
            if digits_value(body) is Some {
                lemma_digits_value_prefix(body, at + 1 - start);
            }
        }
        if !('0' <= c && c <= '9') {
            return None;
        }
        let next: u128 = 10 * value as u128 + (c as u32 - 48) as u128;
        if next > limit as u128 {
            return None;
        }
        value = next as u64;
        at = at + 1;
    }
    assert(body.take(at - start) == body);
    Some(value)
}

/// The integer in the range of `i64` that a text spells: digits, with at most
/// one sign before them.
pub open spec fn parsed_integer(s: Seq<char>) -> Option<int> {
    if s.len() > 0 && s[0] == '-' {
        match digits_value(s.drop_first()) {
            Some(v) if s.len() > 1 && v <= 0x8000_0000_0000_0000 => Some(-(v as int)),
            _ => None,
        }
    } else {
        match parsed_natural(s, 0x7FFF_FFFF_FFFF_FFFF) {
            Some(v) => Some(v as int),
            None => None,
        }
    }
}

/// The integer in the range of `i64` that a text spells.
pub fn parse_integer(text: &str) -> (r: Option<i64>)
    ensures
        r is Some <==> parsed_integer(text@) is Some,
        r is Some ==> r->0 == parsed_integer(text@)->0,
{
    let chars: Vec<char> = chars_of(text);
    if chars.len() > 0 && chars[0] == '-' {
        if chars.len() > 1 && chars[1] == '+' {
            proof {
                let body = text@.drop_first();
                assert(body[0] == '+');
                if digits_value(body) is Some {
                    lemma_digits_value_prefix(body, 1);
                    assert(body.take(1).last() == '+');
                }
            }
            return None;
        }
        let r: Option<u64> = parse_natural(chars.as_slice(), 1, 0x8000_0000_0000_0000);
        assert(text@.skip(1) =~= text@.drop_first());
        match r {
            Some(v) => Some((-(v as i128)) as i64),
            None => None,
        }
    } else {
        let r: Option<u64> = parse_natural(chars.as_slice(), 0, 0x7FFF_FFFF_FFFF_FFFF);
        assert(text@.skip(0) =~= text@);
        match r {
            Some(v) => Some(v as i64),
            None => None,
        }
    }
}

/// Putting a text at the end puts its characters at the end.
pub proof fn lemma_views_push(parts: Seq<String>, part: String)
    ensures
        views(parts.push(part)) == views(parts).push(part@),
{
    assert(views(parts.push(part)) =~= views(parts).push(part@));
}

/// A copy of a list of texts.
pub fn copy_texts(parts: &Vec<String>) -> (r: Vec<String>)
    ensures
        views(r@) == views(parts@),
{
    let mut out: Vec<String> = Vec::new();
    let mut i: usize = 0;
    while i < parts.len()
        invariant
            i <= parts@.len(),
            views(out@) == views(parts@).take(i as int),
        decreases parts@.len() - i,
    {
        let part: String = copy_text(parts[i].as_str());
        proof {
            lemma_views_push(out@, part);
        }
        out.push(part);
        i = i + 1;
        assert(views(out@) =~= views(parts@).take(i as int));
    }
    assert(views(out@) =~= views(parts@));
    out
}

/// The texts one after another with `separator` between them.
pub fn join_texts(parts: &Vec<String>, separator: &str) -> (r: String)
    ensures
        r@ == joined(views(parts@), separator@),
{
    let mut out: String = String::new();
    let mut i: usize = 0;
    while i < parts.len()
        invariant
            i <= parts@.len(),
            out@ == joined(views(parts@).take(i as int), separator@),
        decreases parts@.len() - i,
    {
        if i > 0 {
            out.push_str(separator);
        }
        out.push_str(parts[i].as_str());
        proof {
            let now = views(parts@).take(i + 1);
            assert(now.drop_last() == views(parts@).take(i as int));
            assert(now.last() == parts@[i as int]@);
        }
        i = i + 1;
    }
    assert(views(parts@).take(parts@.len() as int) == views(parts@));
    out
}

/// A text with one character put in place of another.
pub open spec fn replaced(s: Seq<char>, from: char, to: char) -> Seq<char> {
    s.map_values(
        |c: char|
            if c == from {
                to
            } else {
                c
            },
    )
}

/// The pieces between the separators of a text; one more than there are separators.
pub open spec fn pieces(s: Seq<char>, separator: char) -> Seq<Seq<char>>
    decreases s.len(),
{
    if s.len() == 0 {
        seq![seq![]]
    } else {
        let before = pieces(s.drop_last(), separator);
        if s.last() == separator {
            before.push(seq![])
        } else {
            before.drop_last().push(before.last().push(s.last()))
        }
    }
}

/// A text with one character put in place of another.
pub fn replace_char(s: &str, from: char, to: char) -> (r: String)
    ensures
        r@ == replaced(s@, from, to),
{
    let chars: Vec<char> = chars_of(s);
    let mut out: String = String::new();
    let mut i: usize = 0;
    while i < chars.len()
        invariant
            i <= chars@.len(),
            out@ == replaced(chars@, from, to).take(i as int),
        decreases chars@.len() - i,
    {
        let c: char = if chars[i] == from {
            to
        } else {
            chars[i]
        };
        out.push(c);
        i = i + 1;
        assert(out@ =~= replaced(chars@, from, to).take(i as int));
    }
    assert(out@ =~= replaced(s@, from, to));
    out
}

/// There is always a piece.
pub proof fn lemma_pieces_not_empty(s: Seq<char>, separator: char)
    ensures
        pieces(s, separator).len() > 0,
    decreases s.len(),
{
    if s.len() > 0 {
        lemma_pieces_not_empty(s.drop_last(), separator);
    }
}

/// The pieces between the separators of a text.
pub fn split_text(s: &str, separator: char) -> (r: Vec<String>)
    ensures
        views(r@) == pieces(s@, separator),
{
    let chars: Vec<char> = chars_of(s);
    let mut out: Vec<String> = Vec::new();
    let mut current: String = String::new();
    let mut i: usize = 0;
    assert(current@ =~= seq![]);
    assert(chars@.take(0) =~= seq![]);
    assert(views(out@).push(current@) =~= pieces(chars@.take(0), separator));
    while i < chars.len()
        invariant
            i <= chars@.len(),
            views(out@).push(current@) == pieces(chars@.take(i as int), separator),
        decreases chars@.len() - i,
    {
        let ghost now = chars@.take(i + 1);
        let ghost before = views(out@).push(current@);
        assert(now.drop_last() =~= chars@.take(i as int));
        assert(before.drop_last() =~= views(out@));
        if chars[i] == separator {
            proof {
                lemma_views_push(out@, current);
            }
            out.push(current);
            current = String::new();
            assert(current@ =~= seq![]);
        } else {
            current.push(chars[i]);
        }
        i = i + 1;
        assert(views(out@).push(current@) =~= pieces(now, separator));
    }
    assert(chars@.take(chars@.len() as int) =~= chars@);
    proof {
        lemma_views_push(out@, current);
    }
    out.push(current);
    out
}

/// No separator stands inside a piece.
pub proof fn lemma_pieces_hold_no_separator(s: Seq<char>, separator: char)
    ensures
        forall|i: int| 0 <= i < pieces(s, separator).len() ==> !(#[trigger] pieces(s, separator)[i]).contains(separator),
        forall|i: int, c: char|
            0 <= i < pieces(s, separator).len() && #[trigger] pieces(s, separator)[i].contains(c) ==> s.contains(c),
    decreases s.len(),
{
    let all = pieces(s, separator);
    if s.len() > 0 {
        let t = s.drop_last();
        lemma_pieces_hold_no_separator(t, separator);
        lemma_pieces_not_empty(t, separator);
        let before = pieces(t, separator);
        assert forall|i: int| 0 <= i < all.len() implies !(#[trigger] all[i]).contains(separator) by {
            if s.last() == separator {
                if i < before.len() {
                    assert(all[i] == before[i]);
                }
            } else if i < before.len() - 1 {
                assert(all[i] == before[i]);
            } else if all[i].contains(separator) {
                let k = choose|k: int| 0 <= k < all[i].len() && all[i][k] == separator;
                assert(!before.last().contains(separator));
                assert(k < before.last().len() ==> before.last()[k] == separator);
            }
        }
        assert forall|i: int, c: char| 0 <= i < all.len() && #[trigger] all[i].contains(c) implies s.contains(c) by {
            let k = choose|k: int| 0 <= k < all[i].len() && all[i][k] == c;
            if s.last() == separator {
                assert(i < before.len());
                assert(before[i].contains(c));
            } else if i < before.len() - 1 {
                assert(before[i].contains(c));
            } else if k < before.last().len() {
                assert(before[i][k] == c);
                assert(before[i].contains(c));
            } else {
                assert(s[s.len() - 1] == c);
            }
            if t.contains(c) {
                let m = choose|m: int| 0 <= m < t.len() && t[m] == c;
                assert(s[m] == c);
            }
        }
    } else {
        assert(all[0] =~= seq![]);
    }
}

/// A text with no separator is one piece; what comes behind a separator is
/// split on its own.
proof fn lemma_pieces_appended(s: Seq<char>, t: Seq<char>, separator: char)
    requires
        !t.contains(separator),
    ensures
        pieces(s + t, separator) == pieces(s, separator).drop_last().push(pieces(s, separator).last() + t),
    decreases t.len(),
{
    lemma_pieces_not_empty(s, separator);
    let p = pieces(s, separator);
    if t.len() == 0 {
        assert(s + t =~= s);
        assert(p.last() + t =~= p.last());
        assert(p.drop_last().push(p.last()) =~= p);
    } else {
        let u = t.drop_last();
        assert(!u.contains(separator)) by {
            if u.contains(separator) {
                let k = choose|k: int| 0 <= k < u.len() && u[k] == separator;
                assert(t[k] == separator);
            }
        }
        lemma_pieces_appended(s, u, separator);
        assert((s + t).drop_last() =~= s + u);
        assert(t[t.len() - 1] != separator);
        let b = p.drop_last().push(p.last() + u);
        assert(b.drop_last() =~= p.drop_last());
        assert((p.last() + u).push(t.last()) =~= p.last() + t);
    }
}

/// Joining pieces and splitting them again gives the pieces back.
pub proof fn law_splitting_undoes_joining(parts: Seq<Seq<char>>, separator: char)
    requires
        parts.len() > 0,
        forall|i: int| 0 <= i < parts.len() ==> !(#[trigger] parts[i]).contains(separator),
    ensures
        pieces(joined(parts, seq![separator]), separator) == parts,
    decreases parts.len(),
{
    if parts.len() == 1 {
        lemma_pieces_appended(seq![], parts[0], separator);
        assert(seq![] + parts[0] =~= parts[0]);
        let empty: Seq<char> = seq![];
        assert(pieces(empty, separator) =~= seq![empty]);
        assert(pieces(empty, separator).drop_last().push(empty + parts[0]) =~= parts);
    } else {
        let front = parts.drop_last();
        assert forall|i: int| 0 <= i < front.len() implies !(#[trigger] front[i]).contains(separator) by {
            assert(front[i] == parts[i]);
        }
        law_splitting_undoes_joining(front, separator);
        let j = joined(front, seq![separator]);
        let js = j + seq![separator];
        assert(js.drop_last() =~= j);
        assert(pieces(js, separator) == front.push(seq![]));
        assert(!parts[parts.len() - 1].contains(separator));
        lemma_pieces_appended(js, parts.last(), separator);
        assert(front.push(seq![]).drop_last() =~= front);
        assert(seq![] + parts.last() =~= parts.last());
        assert(front.push(parts.last()) =~= parts);
    }
}

} // verus!
