//! A minimal reader for NumPy `.npz` archives.
//!
//! An `.npz` is a zip file whose members are `.npy` arrays, stored plainly or
//! with DEFLATE. Only what the phrase model stores is supported: little-endian
//! `f8`/`f4`/`i4`/`i8`, `u1`, `b1` and UTF-32 `U` strings, C order, no pickles.

use crate::detect::error::PhraseError;
use crate::number::binary64::{of_int, widen, widened, zero, Binary64};
use crate::number::integral::truncated;
use crate::text::{
    chars_of, copy_text, copy_texts, decimal, find_from, find_part, lemma_views_push, parse_natural, parsed_natural, push_decimal,
    push_signed_decimal, same_text, signed_decimal, text_between, views,
};
use vstd::prelude::*;
use vstd::slice::{slice_subrange, slice_to_vec};

verus! {

/// What `flate2` makes of a DEFLATE stream: the decoded bytes, or the text of
/// the error.
pub uninterp spec fn inflated(raw: Seq<u8>) -> Result<Seq<u8>, Seq<char>>;

/// What `String::from_utf8_lossy` makes of bytes.
pub uninterp spec fn lossy_text(bytes: Seq<u8>) -> Seq<char>;

/// Decodes a raw DEFLATE stream: reads `flate2::read::DeflateDecoder` over the
/// bytes to its end. Of the outcome it claims only that the same bytes always
/// give the same bytes or the same error text; what DEFLATE decodes to is left
/// unsaid.
#[verifier::external_body]
fn inflate(raw: &[u8]) -> (r: Result<Vec<u8>, String>)
    ensures
        r is Ok <==> inflated(raw@) is Ok,
        r is Ok ==> r->Ok_0@ == inflated(raw@)->Ok_0,
        r is Err ==> r->Err_0@ == inflated(raw@)->Err_0,
{
    let mut decoded = Vec::new();
    match std::io::Read::read_to_end(&mut flate2::read::DeflateDecoder::new(raw), &mut decoded) {
        Ok(_) => Ok(decoded),
        Err(e) => Err(e.to_string()),
    }
}

/// `String::from_utf8_lossy`: bytes as text, with U+FFFD for what is not UTF-8.
/// Valid UTF-8 is decoded; of other bytes it claims only that the same bytes
/// always give the same text.
#[verifier::external_body]
fn text_lossy(bytes: &[u8]) -> (r: String)
    ensures
        r@ == lossy_text(bytes@),
        vstd::utf8::valid_utf8(bytes@) ==> r@ == vstd::utf8::decode_utf8(bytes@),
{
    String::from_utf8_lossy(bytes).to_string()
}

/// `char::from_u32`: the character of a Unicode scalar value, and `None` for
/// any other number.
#[verifier::external_body]
fn char_of(n: u32) -> (r: Option<char>)
    ensures
        r is Some <==> vstd::utf8::is_scalar(n),
        r is Some ==> r->0 == n as char,
{
    char::from_u32(n)
}

/// One array out of the archive.
#[derive(Debug, Clone)]
pub enum NpyArray {
    F64(Vec<Binary64>),
    I64(Vec<i64>),
    /// `u1` and `b1` both land here; NumPy stores booleans as single bytes.
    U8(Vec<u8>),
    /// A `U`-dtype array, one `String` per element.
    Str(Vec<String>),
}

/// The contents of an array.
pub enum Npy {
    F64(Seq<Binary64>),
    I64(Seq<i64>),
    U8(Seq<u8>),
    Str(Seq<Seq<char>>),
}

impl View for NpyArray {
    type V = Npy;

    open spec fn view(&self) -> Npy {
        match self {
            NpyArray::F64(v) => Npy::F64(v@),
            NpyArray::I64(v) => Npy::I64(v@),
            NpyArray::U8(v) => Npy::U8(v@),
            NpyArray::Str(v) => Npy::Str(views(v@)),
        }
    }
}

/// Whether an error says that a field cannot be used, and why.
pub open spec fn is_field_error(e: PhraseError, name: Seq<char>, why: Seq<char>) -> bool {
    e matches PhraseError::ModelField { field, reason } && field@ == name && reason@ == why
}

/// Whether an error says that the archive is malformed, and how.
pub open spec fn is_malformed(e: PhraseError, how: Seq<char>) -> bool {
    e matches PhraseError::MalformedModel(m) && m@ == how
}

fn field_error(name: &str, why: &str) -> (e: PhraseError)
    ensures
        is_field_error(e, name@, why@),
{
    PhraseError::ModelField { field: copy_text(name), reason: copy_text(why) }
}

fn malformed(how: &str) -> (e: PhraseError)
    ensures
        is_malformed(e, how@),
{
    PhraseError::MalformedModel(copy_text(how))
}

/// The values of a numeric array.
pub open spec fn numbers(a: Npy) -> Seq<Binary64> {
    match a {
        Npy::F64(v) => v,
        Npy::I64(v) => Seq::new(v.len(), |i: int| of_int(v[i] as int)),
        Npy::U8(v) => Seq::new(v.len(), |i: int| of_int(v[i] as int)),
        Npy::Str(_) => seq![],
    }
}

/// The first entry of a list that is no index.
pub open spec fn first_unfit(v: Seq<i64>) -> Option<i64>
    decreases v.len(),
{
    if v.len() == 0 {
        None
    } else {
        match first_unfit(v.drop_last()) {
            Some(x) => Some(x),
            None => if v.last() < 0 || v.last() > usize::MAX {
                Some(v.last())
            } else {
                None
            },
        }
    }
}

/// The entries of an index array.
pub open spec fn places(a: Npy) -> Seq<usize> {
    match a {
        Npy::F64(v) => Seq::new(v.len(), |i: int| truncated(v[i], usize::MAX as nat) as usize),
        Npy::I64(v) => Seq::new(v.len(), |i: int| v[i] as usize),
        Npy::U8(v) => Seq::new(v.len(), |i: int| v[i] as usize),
        Npy::Str(_) => seq![],
    }
}

/// The entries of a flag array.
pub open spec fn flags(a: Npy) -> Seq<bool> {
    match a {
        Npy::F64(v) => Seq::new(v.len(), |i: int| !v[i].spec_same(zero())),
        Npy::I64(v) => Seq::new(v.len(), |i: int| v[i] != 0),
        Npy::U8(v) => Seq::new(v.len(), |i: int| v[i] != 0),
        Npy::Str(_) => seq![],
    }
}

/// The single text of an array: one string, or one flag by its name.
pub open spec fn single_text(a: Npy) -> Option<Seq<char>> {
    match a {
        Npy::Str(v) => if v.len() == 1 {
            Some(v[0])
        } else {
            None
        },
        Npy::U8(v) => if v.len() == 1 {
            Some(
                if v[0] != 0 {
                    "True"@
                } else {
                    "False"@
                },
            )
        } else {
            None
        },
        _ => None,
    }
}

proof fn lemma_first_unfit_step(v: Seq<i64>, i: int)
    requires
        0 <= i < v.len(),
        first_unfit(v.take(i + 1)) is Some,
    ensures
        first_unfit(v) == first_unfit(v.take(i + 1)),
    decreases v.len() - i,
{
    if i + 1 == v.len() {
        assert(v.take(i + 1) == v);
    } else {
        assert(v.drop_last().take(i + 1) == v.take(i + 1));
        lemma_first_unfit_step(v.drop_last(), i);
    }
}

impl NpyArray {
    /// Values as numbers, whatever the stored type.
    pub fn to_f64(&self, name: &str) -> (r: Result<Vec<Binary64>, PhraseError>)
        ensures
            r is Err <==> self@ is Str,
            r is Ok ==> r->Ok_0@ == numbers(self@),
            r is Err ==> is_field_error(r->Err_0, name@, "expected a numeric array, found strings"@),
    {
        let mut out: Vec<Binary64> = Vec::new();
        let mut i: usize = 0;
        match self {
            NpyArray::F64(v) => {
                while i < v.len()
                    invariant
                        i <= v@.len(),
                        out@ == v@.take(i as int),
                    decreases v@.len() - i,
                {
                    out.push(v[i]);
                    i = i + 1;
                    assert(out@ =~= v@.take(i as int));
                }
                assert(v@.take(v@.len() as int) == v@);
            },
            NpyArray::I64(v) => {
                while i < v.len()
                    invariant
                        i <= v@.len(),
                        self@ == Npy::I64(v@),
                        out@ == numbers(self@).take(i as int),
                    decreases v@.len() - i,
                {
                    out.push(Binary64::from_i64(v[i]));
                    i = i + 1;
                    assert(out@ =~= numbers(self@).take(i as int));
                }
                assert(out@ =~= numbers(self@));
            },
            NpyArray::U8(v) => {
                while i < v.len()
                    invariant
                        i <= v@.len(),
                        self@ == Npy::U8(v@),
                        out@ == numbers(self@).take(i as int),
                    decreases v@.len() - i,
                {
                    out.push(Binary64::from_u64(v[i] as u64));
                    i = i + 1;
                    assert(out@ =~= numbers(self@).take(i as int));
                }
                assert(out@ =~= numbers(self@));
            },
            NpyArray::Str(_) => {
                return Err(field_error(name, "expected a numeric array, found strings"));
            },
        }
        Ok(out)
    }

    /// Values as indices.
    pub fn to_usize(&self, name: &str) -> (r: Result<Vec<usize>, PhraseError>)
        ensures
            r is Err <==> self@ is Str || (self@ matches Npy::I64(v) && first_unfit(v) is Some),
            r is Ok ==> r->Ok_0@ == places(self@),
            r is Err ==> match self@ {
                Npy::I64(v) => is_field_error(
                    r->Err_0,
                    name@,
                    "negative index "@ + signed_decimal(first_unfit(v)->0 as int),
                ),
                _ => is_field_error(r->Err_0, name@, "expected an index array, found strings"@),
            },
    {
        let mut out: Vec<usize> = Vec::new();
        let mut i: usize = 0;
        match self {
            NpyArray::I64(v) => {
                while i < v.len()
                    invariant
                        i <= v@.len(),
                        self@ == Npy::I64(v@),
                        out@ == places(self@).take(i as int),
                        first_unfit(v@.take(i as int)) is None,
                    decreases v@.len() - i,
                {
                    assert(v@.take(i + 1).drop_last() == v@.take(i as int));
                    if v[i] < 0 || v[i] as u64 > usize::MAX as u64 {
                        proof {
                            lemma_first_unfit_step(v@, i as int);
                        }
                        let mut why: String = copy_text("negative index ");
                        push_signed_decimal(&mut why, v[i]);
                        return Err(field_error(name, why.as_str()));
                    }
                    out.push(v[i] as usize);
                    i = i + 1;
                    assert(out@ =~= places(self@).take(i as int));
                }
                assert(v@.take(v@.len() as int) == v@);
                assert(out@ =~= places(self@));
            },
            NpyArray::U8(v) => {
                while i < v.len()
                    invariant
                        i <= v@.len(),
                        self@ == Npy::U8(v@),
                        out@ == places(self@).take(i as int),
                    decreases v@.len() - i,
                {
                    out.push(v[i] as usize);
                    i = i + 1;
                    assert(out@ =~= places(self@).take(i as int));
                }
                assert(out@ =~= places(self@));
            },
            NpyArray::F64(v) => {
                while i < v.len()
                    invariant
                        i <= v@.len(),
                        self@ == Npy::F64(v@),
                        out@ == places(self@).take(i as int),
                    decreases v@.len() - i,
                {
                    out.push(v[i].truncate(usize::MAX as u64) as usize);
                    i = i + 1;
                    assert(out@ =~= places(self@).take(i as int));
                }
                assert(out@ =~= places(self@));
            },
            NpyArray::Str(_) => {
                return Err(field_error(name, "expected an index array, found strings"));
            },
        }
        Ok(out)
    }

    /// Booleans, for the flag arrays.
    pub fn to_bool(&self, name: &str) -> (r: Result<Vec<bool>, PhraseError>)
        ensures
            r is Err <==> self@ is Str,
            r is Ok ==> r->Ok_0@ == flags(self@),
            r is Err ==> is_field_error(r->Err_0, name@, "expected flags, found strings"@),
    {
        let mut out: Vec<bool> = Vec::new();
        let mut i: usize = 0;
        match self {
            NpyArray::U8(v) => {
                while i < v.len()
                    invariant
                        i <= v@.len(),
                        self@ == Npy::U8(v@),
                        out@ == flags(self@).take(i as int),
                    decreases v@.len() - i,
                {
                    out.push(v[i] != 0);
                    i = i + 1;
                    assert(out@ =~= flags(self@).take(i as int));
                }
                assert(out@ =~= flags(self@));
            },
            NpyArray::I64(v) => {
                while i < v.len()
                    invariant
                        i <= v@.len(),
                        self@ == Npy::I64(v@),
                        out@ == flags(self@).take(i as int),
                    decreases v@.len() - i,
                {
                    out.push(v[i] != 0);
                    i = i + 1;
                    assert(out@ =~= flags(self@).take(i as int));
                }
                assert(out@ =~= flags(self@));
            },
            NpyArray::F64(v) => {
                while i < v.len()
                    invariant
                        i <= v@.len(),
                        self@ == Npy::F64(v@),
                        out@ == flags(self@).take(i as int),
                    decreases v@.len() - i,
                {
                    out.push(!v[i].same(zero()));
                    i = i + 1;
                    assert(out@ =~= flags(self@).take(i as int));
                }
                assert(out@ =~= flags(self@));
            },
            NpyArray::Str(_) => {
                return Err(field_error(name, "expected flags, found strings"));
            },
        }
        Ok(out)
    }

    /// The single element of a zero-dimensional string array.
    pub fn to_scalar_string(&self, name: &str) -> (r: Result<String, PhraseError>)
        ensures
            r is Ok <==> single_text(self@) is Some,
            r is Ok ==> r->Ok_0@ == single_text(self@)->0,
            r is Err ==> is_field_error(r->Err_0, name@, "expected a single string"@),
    {
        match self {
            NpyArray::Str(v) => {
                if v.len() == 1 {
                    return Ok(copy_text(v[0].as_str()));
                }
            },
            NpyArray::U8(v) => {
                if v.len() == 1 {
                    return Ok(
                        if v[0] != 0 {
                            copy_text("True")
                        } else {
                            copy_text("False")
                        },
                    );
                }
            },
            _ => {},
        }
        Err(field_error(name, "expected a single string"))
    }

    /// The texts of a string array.
    pub fn to_strings(&self, name: &str) -> (r: Result<Vec<String>, PhraseError>)
        ensures
            r is Ok <==> self@ is Str,
            r is Ok ==> Npy::Str(views(r->Ok_0@)) == self@,
            r is Err ==> is_field_error(r->Err_0, name@, "expected a string array"@),
    {
        match self {
            NpyArray::Str(v) => {
                Ok(copy_texts(v))
            },
            _ => Err(field_error(name, "expected a string array")),
        }
    }
}

/// The little-endian 16-bit number at `at`.
pub open spec fn half_word(bytes: Seq<u8>, at: int) -> Option<nat> {
    if 0 <= at && at + 2 <= bytes.len() {
        Some((bytes[at] + 0x100 * bytes[at + 1]) as nat)
    } else {
        None
    }
}

/// The little-endian 32-bit number at `at`.
pub open spec fn word(bytes: Seq<u8>, at: int) -> Option<nat> {
    if 0 <= at && at + 4 <= bytes.len() {
        Some((bytes[at] + 0x100 * bytes[at + 1] + 0x1_0000 * bytes[at + 2] + 0x100_0000 * bytes[at + 3]) as nat)
    } else {
        None
    }
}

/// The little-endian 64-bit number at `at`.
pub open spec fn double_word(bytes: Seq<u8>, at: int) -> nat {
    (word(bytes, at)->0 + 0x1_0000_0000 * word(bytes, at + 4)->0) as nat
}

/// The two's complement value of an unsigned number of `bits` bits below 2^`bits`.
pub open spec fn as_signed(n: nat, half_range: nat) -> int {
    if n < half_range {
        n as int
    } else {
        n - 2 * half_range
    }
}

fn half_word_at(bytes: &[u8], at: u128) -> (r: Option<u16>)
    ensures
        r is Some <==> half_word(bytes@, at as int) is Some,
        r is Some ==> r->0 == half_word(bytes@, at as int)->0,
{
    let total: usize = bytes.len();
    if at > total as u128 || total as u128 - at < 2 {
        return None;
    }
    let k: usize = at as usize;
    Some(bytes[k] as u16 + 0x100 * bytes[k + 1] as u16)
}

fn word_at(bytes: &[u8], at: u128) -> (r: Option<u32>)
    ensures
        r is Some <==> word(bytes@, at as int) is Some,
        r is Some ==> r->0 == word(bytes@, at as int)->0,
{
    let total: usize = bytes.len();
    if at > total as u128 || total as u128 - at < 4 {
        return None;
    }
    let k: usize = at as usize;
    Some(
        bytes[k] as u32 + 0x100 * bytes[k + 1] as u32 + 0x1_0000 * bytes[k + 2] as u32 + 0x100_0000 * bytes[k + 3] as u32,
    )
}

/// The little-endian 16-bit number at `offset`.
pub fn u16_at(bytes: &[u8], offset: usize) -> (r: Result<u16, PhraseError>)
    ensures
        r is Ok <==> half_word(bytes@, offset as int) is Some,
        r is Ok ==> r->Ok_0 == half_word(bytes@, offset as int)->0,
        r is Err ==> is_malformed(r->Err_0, "truncated zip structure"@),
{
    match half_word_at(bytes, offset as u128) {
        Some(n) => Ok(n),
        None => Err(malformed("truncated zip structure")),
    }
}

/// The little-endian 32-bit number at `offset`.
pub fn u32_at(bytes: &[u8], offset: usize) -> (r: Result<u32, PhraseError>)
    ensures
        r is Ok <==> word(bytes@, offset as int) is Some,
        r is Ok ==> r->Ok_0 == word(bytes@, offset as int)->0,
        r is Err ==> is_malformed(r->Err_0, "truncated zip structure"@),
{
    match word_at(bytes, offset as u128) {
        Some(n) => Ok(n),
        None => Err(malformed("truncated zip structure")),
    }
}

/// The element type in the header of an array: what stands between the first
/// two quotes behind `'descr':`.
pub open spec fn dtype_text(header: Seq<char>) -> Option<Seq<char>> {
    let mark = "'descr':"@;
    match find_from(header, mark, 0) {
        None => None,
        Some(p) => {
            let from = p + mark.len();
            let to = match find_from(header, mark, from) {
                Some(q) => q,
                None => header.len() as int,
            };
            let rest = header.subrange(from, to);
            match find_from(rest, seq!['\''], 0) {
                None => None,
                Some(a) => Some(
                    rest.subrange(
                        a + 1,
                        match find_from(rest, seq!['\''], a + 1) {
                            Some(b) => b,
                            None => rest.len() as int,
                        },
                    ),
                ),
            }
        },
    }
}

/// How many characters of an element type stand in its first two UTF-8 bytes:
/// the byte order and the kind; `None` where no character ends there.
pub open spec fn dtype_prefix(descr: Seq<char>) -> Option<int> {
    if (descr[0] as u32) < 0x80 && (descr[1] as u32) < 0x80 {
        Some(2)
    } else if 0x80 <= descr[0] as u32 && (descr[0] as u32) < 0x800 {
        Some(1)
    } else {
        None
    }
}

/// The width that an element type gives: the number at its end, one where
/// there is none.
pub open spec fn dtype_width(descr: Seq<char>) -> nat {
    match parsed_natural(descr.skip(dtype_prefix(descr)->0), usize::MAX as nat) {
        Some(n) => n,
        None => 1,
    }
}

/// The text of `n` UTF-32 words from `at` on, up to the first zero; words that
/// are no characters are skipped.
pub open spec fn utf32_text(data: Seq<u8>, at: int, n: nat) -> Seq<char>
    decreases n,
{
    if n == 0 || word(data, at)->0 == 0 {
        seq![]
    } else if vstd::utf8::is_scalar(word(data, at)->0 as u32) {
        seq![word(data, at)->0 as u32 as char] + utf32_text(data, at + 4, (n - 1) as nat)
    } else {
        utf32_text(data, at + 4, (n - 1) as nat)
    }
}

/// The array that a header and the data behind it describe, or what is wrong.
/// Elements of more than one byte are read in little-endian order; with the
/// other order they are refused.
pub open spec fn array_of(header: Seq<char>, data: Seq<u8>) -> Result<Npy, Seq<char>> {
    if find_from(header, "'fortran_order': True"@, 0) is Some {
        Err("Fortran-ordered arrays are not supported"@)
    } else if dtype_text(header) is None {
        Err("missing dtype in .npy header"@)
    } else {
        let descr = dtype_text(header)->0;
        if descr.len() < 2 || dtype_prefix(descr) is None {
            Err("bad dtype "@ + descr)
        } else {
            let kind = descr[1];
            let width = dtype_width(descr);
            if descr[0] == '>' && kind != 'u' && kind != 'b' {
                Err("unsupported .npy dtype "@ + descr)
            } else if kind == 'f' && width == 8 {
                Ok(Npy::F64(Seq::new(data.len() / 8, |i: int| Binary64 { bits: double_word(data, 8 * i) as u64 })))
            } else if kind == 'f' && width == 4 {
                Ok(Npy::F64(Seq::new(data.len() / 4, |i: int| widened(word(data, 4 * i)->0 as u32))))
            } else if kind == 'i' && width == 8 {
                Ok(
                    Npy::I64(
                        Seq::new(
                            data.len() / 8,
                            |i: int| as_signed(double_word(data, 8 * i), 0x8000_0000_0000_0000) as i64,
                        ),
                    ),
                )
            } else if kind == 'i' && width == 4 {
                Ok(
                    Npy::I64(
                        Seq::new(data.len() / 4, |i: int| as_signed(word(data, 4 * i)->0, 0x8000_0000) as i64),
                    ),
                )
            } else if (kind == 'u' || kind == 'b') && width == 1 {
                Ok(Npy::U8(data))
            } else if kind == 'U' {
                if width == 0 {
                    Ok(Npy::Str(seq![]))
                } else {
                    Ok(
                        Npy::Str(
                            Seq::new(data.len() / (4 * width), |i: int| utf32_text(data, i * (4 * width), width)),
                        ),
                    )
                }
            } else {
                Err("unsupported .npy dtype "@ + descr)
            }
        }
    }
}

/// The element type in the header of an array.
fn find_dtype(header: &[char]) -> (r: Option<Vec<char>>)
    ensures
        r is Some <==> dtype_text(header@) is Some,
        r is Some ==> r->0@ == dtype_text(header@)->0,
{
    let mark: Vec<char> = chars_of("'descr':");
    let total: usize = header.len();
    match find_part(header, mark.as_slice(), 0) {
        None => None,
        Some(p) => {
            let from: usize = p + mark.len();
            let to: usize = match find_part(header, mark.as_slice(), from) {
                Some(q) => q,
                None => total,
            };
            let rest: &[char] = slice_subrange(header, from, to);
            let quote: Vec<char> = vec!['\''];
            assert(quote@ =~= seq!['\'']);
            match find_part(rest, quote.as_slice(), 0) {
                None => None,
                Some(a) => {
                    let b: usize = match find_part(rest, quote.as_slice(), a + 1) {
                        Some(b) => b,
                        None => rest.len(),
                    };
                    let out: Vec<char> = slice_to_vec(slice_subrange(rest, a + 1, b));
                    assert(out@ =~= rest@.subrange(a + 1, b as int));
                    Some(out)
                },
            }
        },
    }
}

/// The text of `n` UTF-32 words from `at` on.
fn utf32_at(data: &[u8], at: usize, n: usize) -> (r: String)
    requires
        at + 4 * n <= data@.len(),
    ensures
        r@ == utf32_text(data@, at as int, n as nat),
{
    let total: usize = data.len();
    let mut out: String = String::new();
    let mut k: usize = 0;
    while k < n
        invariant
            k <= n,
            at + 4 * n <= total == data@.len(),
            out@ + utf32_text(data@, at + 4 * k, (n - k) as nat) == utf32_text(data@, at as int, n as nat),
        decreases n - k,
    {
        let w: u32 = match word_at(data, (at + 4 * k) as u128) {
            Some(w) => w,
            None => 0,
        };
        let ghost rest = utf32_text(data@, at + 4 * k, (n - k) as nat);
        if w == 0 {
            assert(out@ + rest =~= out@);
            return out;
        }
        match char_of(w) {
            Some(c) => {
                proof {
                    assert(c == w as char);
                    assert(rest =~= seq![c] + utf32_text(data@, at + 4 * (k + 1), (n - (k + 1)) as nat));
                    assert(out@ + rest =~= out@.push(c) + utf32_text(data@, at + 4 * (k + 1), (n - (k + 1)) as nat));
                }
                out.push(c);
            },
            None => {},
        }
        k = k + 1;
    }
    assert(out@ + utf32_text(data@, at + 4 * k, 0) =~= out@);
    out
}

fn malformed_with(how: &str, what: &[char]) -> (e: PhraseError)
    ensures
        is_malformed(e, how@ + what@),
{
    let mut text: String = copy_text(how);
    text.push_str(text_between(what, 0, what.len()).as_str());
    assert(what@.subrange(0, what@.len() as int) == what@);
    PhraseError::MalformedModel(text)
}

/// The signed value of a 64-bit pattern.
fn signed_64(n: u64) -> (r: i64)
    ensures
        r == as_signed(n as nat, 0x8000_0000_0000_0000),
{
    if n < 0x8000_0000_0000_0000 {
        n as i64
    } else {
        (n as i128 - 0x1_0000_0000_0000_0000) as i64
    }
}

fn double_word_at(data: &[u8], at: usize) -> (r: u64)
    requires
        at + 8 <= data@.len(),
    ensures
        r == double_word(data@, at as int),
{
    let low: u32 = match word_at(data, at as u128) {
        Some(w) => w,
        None => 0,
    };
    let high: u32 = match word_at(data, at as u128 + 4) {
        Some(w) => w,
        None => 0,
    };
    low as u64 + 0x1_0000_0000 * high as u64
}

/// The array that a header and the data behind it describe.
pub fn read_array(header: &str, data: &[u8]) -> (r: Result<NpyArray, PhraseError>)
    ensures
        r is Ok <==> array_of(header@, data@) is Ok,
        r is Ok ==> r->Ok_0@ == array_of(header@, data@)->Ok_0,
        r is Err ==> is_malformed(r->Err_0, array_of(header@, data@)->Err_0),
{
    let text: Vec<char> = chars_of(header);
    let fortran: Vec<char> = chars_of("'fortran_order': True");
    if find_part(text.as_slice(), fortran.as_slice(), 0).is_some() {
        return Err(malformed("Fortran-ordered arrays are not supported"));
    }
    let descr: Vec<char> = match find_dtype(text.as_slice()) {
        Some(d) => d,
        None => {
            return Err(malformed("missing dtype in .npy header"));
        },
    };
    if descr.len() < 2 {
        return Err(malformed_with("bad dtype ", descr.as_slice()));
    }
    let first: u32 = descr[0] as u32;
    let prefix: usize = if first < 0x80 && (descr[1] as u32) < 0x80 {
        2
    } else if 0x80 <= first && first < 0x800 {
        1
    } else {
        return Err(malformed_with("bad dtype ", descr.as_slice()));
    };
    let width: u64 = match parse_natural(descr.as_slice(), prefix, usize::MAX as u64) {
        Some(n) => n,
        None => 1,
    };
    let kind: char = descr[1];
    let total: usize = data.len();
    let ghost want = array_of(header@, data@);
    let mut i: usize = 0;
    if descr[0] == '>' && kind != 'u' && kind != 'b' {
        return Err(malformed_with("unsupported .npy dtype ", descr.as_slice()));
    }
    if kind == 'f' && width == 8 {
        let mut out: Vec<Binary64> = Vec::new();
        while i < total / 8
            invariant
                i <= total / 8,
                total == data@.len(),
                want is Ok && want->Ok_0 is F64,
                out@ == want->Ok_0->F64_0.take(i as int),
                want->Ok_0->F64_0 == Seq::new(data@.len() / 8, |k: int| Binary64 { bits: double_word(data@, 8 * k) as u64 }),
            decreases total / 8 - i,
        {
            out.push(Binary64::from_bits(double_word_at(data, 8 * i)));
            i = i + 1;
            assert(out@ =~= want->Ok_0->F64_0.take(i as int));
        }
        assert(out@ =~= want->Ok_0->F64_0);
        Ok(NpyArray::F64(out))
    } else if kind == 'f' && width == 4 {
        let mut out: Vec<Binary64> = Vec::new();
        while i < total / 4
            invariant
                i <= total / 4,
                total == data@.len(),
                want is Ok && want->Ok_0 is F64,
                out@ == want->Ok_0->F64_0.take(i as int),
                want->Ok_0->F64_0 == Seq::new(data@.len() / 4, |k: int| widened(word(data@, 4 * k)->0 as u32)),
            decreases total / 4 - i,
        {
            let w: u32 = match word_at(data, (4 * i) as u128) {
                Some(w) => w,
                None => 0,
            };
            out.push(widen(w));
            i = i + 1;
            assert(out@ =~= want->Ok_0->F64_0.take(i as int));
        }
        assert(out@ =~= want->Ok_0->F64_0);
        Ok(NpyArray::F64(out))
    } else if kind == 'i' && width == 8 {
        let mut out: Vec<i64> = Vec::new();
        while i < total / 8
            invariant
                i <= total / 8,
                total == data@.len(),
                want is Ok && want->Ok_0 is I64,
                out@ == want->Ok_0->I64_0.take(i as int),
                want->Ok_0->I64_0 == Seq::new(
                    data@.len() / 8,
                    |k: int| as_signed(double_word(data@, 8 * k), 0x8000_0000_0000_0000) as i64,
                ),
            decreases total / 8 - i,
        {
            out.push(signed_64(double_word_at(data, 8 * i)));
            i = i + 1;
            assert(out@ =~= want->Ok_0->I64_0.take(i as int));
        }
        assert(out@ =~= want->Ok_0->I64_0);
        Ok(NpyArray::I64(out))
    } else if kind == 'i' && width == 4 {
        let mut out: Vec<i64> = Vec::new();
        while i < total / 4
            invariant
                i <= total / 4,
                total == data@.len(),
                want is Ok && want->Ok_0 is I64,
                out@ == want->Ok_0->I64_0.take(i as int),
                want->Ok_0->I64_0 == Seq::new(
                    data@.len() / 4,
                    |k: int| as_signed(word(data@, 4 * k)->0, 0x8000_0000) as i64,
                ),
            decreases total / 4 - i,
        {
            let w: u32 = match word_at(data, (4 * i) as u128) {
                Some(w) => w,
                None => 0,
            };
            let value: i64 = if w < 0x8000_0000 {
                w as i64
            } else {
                w as i64 - 0x1_0000_0000
            };
            out.push(value);
            i = i + 1;
            assert(out@ =~= want->Ok_0->I64_0.take(i as int));
        }
        assert(out@ =~= want->Ok_0->I64_0);
        Ok(NpyArray::I64(out))
    } else if (kind == 'u' || kind == 'b') && width == 1 {
        let out: Vec<u8> = slice_to_vec(data);
        assert(out@ =~= data@);
        Ok(NpyArray::U8(out))
    } else if kind == 'U' {
        read_texts(data, width as usize)
    } else {
        Err(malformed_with("unsupported .npy dtype ", descr.as_slice()))
    }
}

/// The texts of a `U` array of `width` characters each.
fn read_texts(data: &[u8], width: usize) -> (r: Result<NpyArray, PhraseError>)
    ensures
        r is Ok,
        width == 0 ==> r->Ok_0@ == Npy::Str(seq![]),
        width > 0 ==> r->Ok_0@ == Npy::Str(
            Seq::new(
                data@.len() / (4 * width as nat),
                |i: int| utf32_text(data@, i * (4 * width as nat), width as nat),
            ),
        ),
{
    let mut out: Vec<String> = Vec::new();
    if width == 0 {
        assert(views(out@) =~= seq![]);
        return Ok(NpyArray::Str(out));
    }
    let total: usize = data.len();
    let stride: u128 = 4 * width as u128;
    let count: u128 = total as u128 / stride;
    let ghost want = Seq::new(
        data@.len() / (4 * width as nat),
        |i: int| utf32_text(data@, i * (4 * width as nat), width as nat),
    );
    assert(count * stride <= total) by (nonlinear_arith)
        requires
            count == total as u128 / stride,
            stride > 0,
    ;
    let mut i: u128 = 0;
    while i < count
        invariant
            i <= count,
            total == data@.len(),
            width > 0,
            stride == 4 * width,
            count * stride <= total,
            want == Seq::new(
                data@.len() / (4 * width as nat),
                |k: int| utf32_text(data@, k * (4 * width as nat), width as nat),
            ),
            want.len() == count,
            views(out@) == want.take(i as int),
        decreases count - i,
    {
        assert(i * stride + stride <= count * stride) by (nonlinear_arith)
            requires
                i + 1 <= count,
        ;
        let text: String = utf32_at(data, (i * stride) as usize, width);
        proof {
            lemma_views_push(out@, text);
        }
        out.push(text);
        i = i + 1;
        assert(views(out@) =~= want.take(i as int));
    }
    assert(views(out@) =~= want);
    Ok(NpyArray::Str(out))
}

/// Whether bytes start with the mark of an array file.
pub open spec fn has_array_mark(bytes: Seq<u8>) -> bool {
    bytes.len() >= 10 && bytes[0] == 0x93 && bytes[1] == 0x4E && bytes[2] == 0x55 && bytes[3] == 0x4D && bytes[4] == 0x50
        && bytes[5] == 0x59
}

/// Where the header of an array file starts and how long it is.
pub open spec fn header_span(bytes: Seq<u8>) -> Option<(int, int)> {
    if bytes[6] == 1 {
        match half_word(bytes, 8) {
            Some(n) => Some((10int, n as int)),
            None => None,
        }
    } else {
        match word(bytes, 8) {
            Some(n) => Some((12int, n as int)),
            None => None,
        }
    }
}

/// The array that an array file holds, or what is wrong with it.
pub open spec fn npy_of(bytes: Seq<u8>) -> Result<Npy, Seq<char>> {
    if !has_array_mark(bytes) {
        Err("not a .npy array"@)
    } else {
        match header_span(bytes) {
            None => Err("truncated zip structure"@),
            Some((start, length)) => if start + length > bytes.len() {
                Err("truncated .npy header"@)
            } else {
                array_of(lossy_text(bytes.subrange(start, start + length)), bytes.skip(start + length))
            },
        }
    }
}

/// Reads one `.npy` member.
pub fn parse_npy(bytes: &[u8]) -> (r: Result<NpyArray, PhraseError>)
    ensures
        r is Ok <==> npy_of(bytes@) is Ok,
        r is Ok ==> r->Ok_0@ == npy_of(bytes@)->Ok_0,
        r is Err ==> is_malformed(r->Err_0, npy_of(bytes@)->Err_0),
{
    let total: usize = bytes.len();
    if total < 10 || bytes[0] != 0x93 || bytes[1] != 0x4E || bytes[2] != 0x55 || bytes[3] != 0x4D || bytes[4] != 0x50
        || bytes[5] != 0x59 {
        return Err(malformed("not a .npy array"));
    }
    let (start, length): (usize, u32) = if bytes[6] == 1 {
        match u16_at(bytes, 8) {
            Ok(n) => (10, n as u32),
            Err(e) => {
                return Err(e);
            },
        }
    } else {
        match u32_at(bytes, 8) {
            Ok(n) => (12, n),
            Err(e) => {
                return Err(e);
            },
        }
    };
    if start as u128 + length as u128 > total as u128 {
        return Err(malformed("truncated .npy header"));
    }
    let end: usize = start + length as usize;
    let header: String = text_lossy(slice_subrange(bytes, start, end));
    let data: &[u8] = slice_subrange(bytes, end, total);
    assert(data@ =~= bytes@.skip(end as int));
    read_array(header.as_str(), data)
}

/// Every array in an archive, by member name without the `.npy`. Of two
/// members with one name the later counts.
#[derive(Debug, Clone)]
pub struct Npz {
    entries: Vec<(String, NpyArray)>,
}

spec fn entry_map(entries: Seq<(String, NpyArray)>) -> Map<Seq<char>, Npy>
    decreases entries.len(),
{
    if entries.len() == 0 {
        Map::empty()
    } else {
        entry_map(entries.drop_last()).insert(entries.last().0@, entries.last().1@)
    }
}

impl View for Npz {
    type V = Map<Seq<char>, Npy>;

    closed spec fn view(&self) -> Map<Seq<char>, Npy> {
        entry_map(self.entries@)
    }
}

impl Npz {
    /// An archive without arrays.
    pub fn new() -> (r: Npz)
        ensures
            r@ == Map::<Seq<char>, Npy>::empty(),
    {
        Npz { entries: Vec::new() }
    }

    /// Puts an array under a name, in place of what was there.
    pub fn insert(&mut self, name: String, array: NpyArray)
        ensures
            final(self)@ == old(self)@.insert(name@, array@),
    {
        let ghost before = self.entries@;
        self.entries.push((name, array));
        assert(self.entries@.drop_last() =~= before);
    }

    /// Takes the array with a name out.
    pub fn remove(&mut self, name: &str)
        ensures
            final(self)@ == old(self)@.remove(name@),
    {
        let mut kept: Vec<(String, NpyArray)> = Vec::new();
        let mut i: usize = 0;
        while i < self.entries.len()
            invariant
                i <= self.entries@.len(),
                self.entries@ == old(self).entries@,
                entry_map(kept@) == entry_map(self.entries@.take(i as int)).remove(name@),
            decreases self.entries@.len() - i,
        {
            let ghost now = self.entries@.take(i + 1);
            assert(now.drop_last() =~= self.entries@.take(i as int));
            if !same_text(self.entries[i].0.as_str(), name) {
                let ghost before = kept@;
                let copy: NpyArray = copy_array(&self.entries[i].1);
                kept.push((copy_text(self.entries[i].0.as_str()), copy));
                assert(kept@.drop_last() =~= before);
            }
            i = i + 1;
            assert(entry_map(kept@) =~= entry_map(self.entries@.take(i as int)).remove(name@));
        }
        assert(self.entries@.take(self.entries@.len() as int) =~= self.entries@);
        self.entries = kept;
    }

    /// The array with a name.
    pub fn get(&self, name: &str) -> (r: Option<&NpyArray>)
        ensures
            r is Some <==> self@.contains_key(name@),
            r is Some ==> r->0@ == self@[name@],
    {
        let mut n: usize = self.entries.len();
        assert(self.entries@.take(n as int) =~= self.entries@);
        while n > 0
            invariant
                n <= self.entries@.len(),
                self@.contains_key(name@) <==> entry_map(self.entries@.take(n as int)).contains_key(name@),
                self@.contains_key(name@) ==> self@[name@] == entry_map(self.entries@.take(n as int))[name@],
            decreases n,
        {
            let ghost now = self.entries@.take(n as int);
            assert(now.drop_last() =~= self.entries@.take(n - 1));
            if same_text(self.entries[n - 1].0.as_str(), name) {
                return Some(&self.entries[n - 1].1);
            }
            n = n - 1;
        }
        None
    }
}

/// A copy of an array.
fn copy_array(a: &NpyArray) -> (r: NpyArray)
    ensures
        r@ == a@,
{
    match a {
        NpyArray::F64(v) => NpyArray::F64(slice_to_vec(v.as_slice())),
        NpyArray::I64(v) => NpyArray::I64(slice_to_vec(v.as_slice())),
        NpyArray::U8(v) => NpyArray::U8(slice_to_vec(v.as_slice())),
        NpyArray::Str(v) => NpyArray::Str(copy_texts(v)),
    }
}

/// The signature of the end-of-central-directory record.
pub const END_SIGNATURE: u32 = 0x0605_4b50;

/// The signature of a central directory entry.
pub const CENTRAL_SIGNATURE: u32 = 0x0201_4b50;

/// The signature of a local member header.
pub const LOCAL_SIGNATURE: u32 = 0x0403_4b50;

/// The last place up to `from` that holds an end-of-central-directory record.
pub open spec fn end_record(bytes: Seq<u8>, from: int) -> Option<int>
    decreases from + 1,
{
    if from < 0 {
        None
    } else if word(bytes, from) == Some(END_SIGNATURE as nat) {
        Some(from)
    } else {
        end_record(bytes, from - 1)
    }
}

/// A member name without its `.npy`.
pub open spec fn member_key(name: Seq<char>) -> Seq<char> {
    if name.len() >= 4 && name.skip(name.len() - 4) == ".npy"@ {
        name.take(name.len() - 4)
    } else {
        name
    }
}

/// The contents of a member as stored with a compression method.
pub open spec fn payload(method: nat, raw: Seq<u8>) -> Result<Seq<u8>, Seq<char>> {
    if method == 0 {
        Ok(raw)
    } else if method == 8 {
        match inflated(raw) {
            Ok(bytes) => Ok(bytes),
            Err(why) => Err("inflate failed: "@ + why),
        }
    } else {
        Err("unsupported zip compression method "@ + decimal(method))
    }
}

/// The stored bytes of the member whose local header is at `local`.
pub open spec fn stored_bytes(bytes: Seq<u8>, local: int, size: int) -> Result<Seq<u8>, Seq<char>> {
    if word(bytes, local) is None {
        Err("truncated zip structure"@)
    } else if word(bytes, local)->0 != LOCAL_SIGNATURE {
        Err("corrupt zip member"@)
    } else if local + 30 > bytes.len() {
        Err("truncated zip structure"@)
    } else {
        let start = local + 30 + half_word(bytes, local + 26)->0 + half_word(bytes, local + 28)->0;
        if start + size > bytes.len() {
            Err("truncated zip member data"@)
        } else {
            Ok(bytes.subrange(start, start + size))
        }
    }
}

/// The member that the directory entry at `cursor` describes: its key and its
/// array.
pub open spec fn member_at(bytes: Seq<u8>, cursor: int) -> Result<(Seq<char>, Npy), Seq<char>> {
    if word(bytes, cursor) is None {
        Err("truncated zip structure"@)
    } else if word(bytes, cursor)->0 != CENTRAL_SIGNATURE {
        Err("corrupt zip central directory"@)
    } else if cursor + 46 > bytes.len() {
        Err("truncated zip structure"@)
    } else if cursor + 46 + half_word(bytes, cursor + 28)->0 > bytes.len() {
        Err("truncated member name"@)
    } else {
        let name = lossy_text(bytes.subrange(cursor + 46, cursor + 46 + half_word(bytes, cursor + 28)->0));
        match stored_bytes(bytes, word(bytes, cursor + 42)->0 as int, word(bytes, cursor + 20)->0 as int) {
            Err(how) => Err(how),
            Ok(raw) => match payload(half_word(bytes, cursor + 10)->0, raw) {
                Err(how) => Err(how),
                Ok(file) => match npy_of(file) {
                    Err(how) => Err(how),
                    Ok(array) => Ok((member_key(name), array)),
                },
            },
        }
    }
}

/// Where the directory entry behind the one at `cursor` starts.
pub open spec fn next_entry(bytes: Seq<u8>, cursor: int) -> int {
    cursor + 46 + half_word(bytes, cursor + 28)->0 + half_word(bytes, cursor + 30)->0 + half_word(bytes, cursor + 32)->0
}

/// The arrays of `count` members from `cursor` on, put on top of `held`.
pub open spec fn members_from(bytes: Seq<u8>, cursor: int, count: nat, held: Map<Seq<char>, Npy>) -> Result<
    Map<Seq<char>, Npy>,
    Seq<char>,
>
    decreases count,
{
    if count == 0 {
        Ok(held)
    } else {
        match member_at(bytes, cursor) {
            Err(how) => Err(how),
            Ok((key, array)) => members_from(
                bytes,
                next_entry(bytes, cursor),
                (count - 1) as nat,
                held.insert(key, array),
            ),
        }
    }
}

/// The arrays of an archive, or what is wrong with it.
pub open spec fn archive_of(bytes: Seq<u8>) -> Result<Map<Seq<char>, Npy>, Seq<char>> {
    match end_record(bytes, bytes.len() - 22) {
        None => Err("not a zip archive"@),
        Some(end) => members_from(bytes, word(bytes, end + 16)->0 as int, half_word(bytes, end + 10)->0, Map::empty()),
    }
}

/// A member name without its `.npy`.
fn strip_npy(name: &str) -> (r: String)
    ensures
        r@ == member_key(name@),
{
    let chars: Vec<char> = chars_of(name);
    let n: usize = chars.len();
    proof {
        reveal_strlit(".npy");
    }
    if n >= 4 && chars[n - 4] == '.' && chars[n - 3] == 'n' && chars[n - 2] == 'p' && chars[n - 1] == 'y' {
        assert(name@.skip(n - 4) =~= ".npy"@);
        let r: String = text_between(chars.as_slice(), 0, n - 4);
        assert(r@ =~= name@.take(n - 4));
        r
    } else {
        if n >= 4 {
            let ghost tail = name@.skip(n - 4);
            assert(tail[0] == chars@[n - 4] && tail[1] == chars@[n - 3] && tail[2] == chars@[n - 2] && tail[3] == chars@[n
                - 1]);
            assert(tail != ".npy"@);
        }
        text_between(chars.as_slice(), 0, n)
    }
}

/// The stored bytes of the member whose local header is at `local`.
fn read_stored<'a>(bytes: &'a [u8], local: u32, size: u32) -> (r: Result<&'a [u8], PhraseError>)
    ensures
        r is Ok <==> stored_bytes(bytes@, local as int, size as int) is Ok,
        r is Ok ==> r->Ok_0@ == stored_bytes(bytes@, local as int, size as int)->Ok_0,
        r is Err ==> is_malformed(r->Err_0, stored_bytes(bytes@, local as int, size as int)->Err_0),
{
    let total: usize = bytes.len();
    let at: u128 = local as u128;
    match word_at(bytes, at) {
        None => {
            return Err(malformed("truncated zip structure"));
        },
        Some(signature) => {
            if signature != LOCAL_SIGNATURE {
                return Err(malformed("corrupt zip member"));
            }
        },
    }
    let (name_len, extra_len): (u16, u16) = match (half_word_at(bytes, at + 26), half_word_at(bytes, at + 28)) {
        (Some(a), Some(b)) => (a, b),
        _ => {
            return Err(malformed("truncated zip structure"));
        },
    };
    let start: u128 = at + 30 + name_len as u128 + extra_len as u128;
    if start + size as u128 > total as u128 {
        return Err(malformed("truncated zip member data"));
    }
    Ok(slice_subrange(bytes, start as usize, start as usize + size as usize))
}

/// The contents of a member as stored with a compression method.
fn unpack(method: u16, raw: &[u8]) -> (r: Result<Vec<u8>, PhraseError>)
    ensures
        r is Ok <==> payload(method as nat, raw@) is Ok,
        r is Ok ==> r->Ok_0@ == payload(method as nat, raw@)->Ok_0,
        r is Err ==> is_malformed(r->Err_0, payload(method as nat, raw@)->Err_0),
{
    if method == 0 {
        Ok(slice_to_vec(raw))
    } else if method == 8 {
        match inflate(raw) {
            Ok(bytes) => Ok(bytes),
            Err(why) => {
                let mut how: String = copy_text("inflate failed: ");
                how.push_str(why.as_str());
                Err(PhraseError::MalformedModel(how))
            },
        }
    } else {
        let mut how: String = copy_text("unsupported zip compression method ");
        push_decimal(&mut how, method as u64);
        Err(PhraseError::MalformedModel(how))
    }
}

/// The member that the directory entry at `cursor` describes, and where the
/// next entry starts.
fn read_member(bytes: &[u8], cursor: u128) -> (r: Result<(String, NpyArray, u128), PhraseError>)
    requires
        cursor <= 0x1_0000_0000_0000_0000_0000,
    ensures
        r is Ok <==> member_at(bytes@, cursor as int) is Ok,
        r is Ok ==> {
            &&& r->Ok_0.0@ == member_at(bytes@, cursor as int)->Ok_0.0
            &&& r->Ok_0.1@ == member_at(bytes@, cursor as int)->Ok_0.1
            &&& r->Ok_0.2 == next_entry(bytes@, cursor as int)
            &&& r->Ok_0.2 <= usize::MAX + 0x4_0000
        },
        r is Err ==> is_malformed(r->Err_0, member_at(bytes@, cursor as int)->Err_0),
{
    let total: usize = bytes.len();
    match word_at(bytes, cursor) {
        None => {
            return Err(malformed("truncated zip structure"));
        },
        Some(signature) => {
            if signature != CENTRAL_SIGNATURE {
                return Err(malformed("corrupt zip central directory"));
            }
        },
    }
    if cursor + 46 > total as u128 {
        return Err(malformed("truncated zip structure"));
    }
    let at: usize = cursor as usize;
    let (method, name_len, extra_len, comment_len): (u16, u16, u16, u16) = match (
        half_word_at(bytes, cursor + 10),
        half_word_at(bytes, cursor + 28),
        half_word_at(bytes, cursor + 30),
        half_word_at(bytes, cursor + 32),
    ) {
        (Some(a), Some(b), Some(c), Some(d)) => (a, b, c, d),
        _ => {
            return Err(malformed("truncated zip structure"));
        },
    };
    let (size, local): (u32, u32) = match (word_at(bytes, cursor + 20), word_at(bytes, cursor + 42)) {
        (Some(a), Some(b)) => (a, b),
        _ => {
            return Err(malformed("truncated zip structure"));
        },
    };
    let name_end: u128 = cursor + 46 + name_len as u128;
    if name_end > total as u128 {
        return Err(malformed("truncated member name"));
    }
    let name: String = text_lossy(slice_subrange(bytes, at + 46, name_end as usize));
    let raw: &[u8] = match read_stored(bytes, local, size) {
        Ok(raw) => raw,
        Err(e) => {
            return Err(e);
        },
    };
    let file: Vec<u8> = match unpack(method, raw) {
        Ok(file) => file,
        Err(e) => {
            return Err(e);
        },
    };
    match parse_npy(file.as_slice()) {
        Ok(array) => Ok((strip_npy(name.as_str()), array, name_end + extra_len as u128 + comment_len as u128)),
        Err(e) => Err(e),
    }
}

/// Reads an `.npz` from bytes in memory.
pub fn parse(bytes: &[u8]) -> (r: Result<Npz, PhraseError>)
    ensures
        r is Ok <==> archive_of(bytes@) is Ok,
        r is Ok ==> r->Ok_0@ == archive_of(bytes@)->Ok_0,
        r is Err ==> is_malformed(r->Err_0, archive_of(bytes@)->Err_0),
{
    let total: usize = bytes.len();
    if total < 22 {
        return Err(malformed("not a zip archive"));
    }
    let mut at: usize = total - 22;
    let mut found: bool = false;
    loop
        invariant_except_break
            !found,
            end_record(bytes@, bytes@.len() - 22) == end_record(bytes@, at as int),
        invariant
            at <= total - 22,
            total == bytes@.len(),
            total >= 22,
        ensures
            found ==> end_record(bytes@, bytes@.len() - 22) == Some(at as int),
            !found ==> end_record(bytes@, bytes@.len() - 22) is None,
        decreases at,
    {
        match word_at(bytes, at as u128) {
            Some(w) => {
                if w == END_SIGNATURE {
                    found = true;
                    break;
                }
            },
            None => {},
        }
        if at == 0 {
            proof {
                reveal_with_fuel(end_record, 2);
            }
            break;
        }
        at = at - 1;
    }
    if !found {
        return Err(malformed("not a zip archive"));
    }
    let (entries, first): (u16, u32) = match (half_word_at(bytes, at as u128 + 10), word_at(bytes, at as u128 + 16)) {
        (Some(a), Some(b)) => (a, b),
        _ => {
            return Err(malformed("truncated zip structure"));
        },
    };
    let mut out: Npz = Npz::new();
    let mut cursor: u128 = first as u128;
    let mut left: u16 = entries;
    while left > 0
        invariant
            cursor <= 0x1_0000_0000_0000_0000_0000,
            members_from(bytes@, cursor as int, left as nat, out@) == archive_of(bytes@),
        decreases left,
    {
        match read_member(bytes, cursor) {
            Ok((key, array, next)) => {
                out.insert(key, array);
                cursor = next;
            },
            Err(e) => {
                return Err(e);
            },
        }
        left = left - 1;
    }
    Ok(out)
}

} // verus!
