//! Byte-level primitives shared by the line grammars: character classes,
//! literal matching, maximal runs, and the passage from bytes to text.
//!
//! Every grammar in this crate is a function from a byte sequence and a start
//! position to either a value together with the position just after it, or a
//! [`ParseError`]. The specification of each grammar is a `spec` function of
//! that shape over `Seq<u8>`; the executable parser promises to agree with it.
use vstd::prelude::*;
use vstd::slice::*;
use vstd::string::StringSliceAdditionalSpecFns;
use vstd::utf8::*;

verus! {

/// Why a grammar did not accept its input.
#[derive(Clone, Copy, Debug, PartialEq, Eq, Structural)]
pub enum ParseError {
    /// The bytes do not have the shape the grammar asks for.
    Malformed,
    /// The bytes have the right shape, but the digits name a calendar date or
    /// a time of day that does not exist.
    OutOfRange,
}

/// The digit `0`.
pub const DIGIT_ZERO: u8 = 48;

/// The digit `9`.
pub const DIGIT_NINE: u8 = 57;

/// The space.
pub const SPACE: u8 = 32;

/// The line feed.
pub const NEWLINE: u8 = 10;

/// The double quote `"`.
pub const QUOTE: u8 = 34;

/// The dash `-`.
pub const DASH: u8 = 45;

/// The dot `.`.
pub const DOT: u8 = 46;

/// The colon `:`.
pub const COLON: u8 = 58;

/// The equals sign `=`.
pub const EQUALS: u8 = 61;

/// The model of a parser's result: the view of the value and the position
/// after it as a mathematical integer.
pub open spec fn parsed<T: View>(r: Result<(T, usize), ParseError>) -> Result<
    (T::V, int),
    ParseError,
> {
    match r {
        Ok((value, end)) => Ok((value@, end as int)),
        Err(e) => Err(e),
    }
}

/// `b` is one of the ASCII digits `0` to `9`.
pub open spec fn is_digit(b: u8) -> bool {
    DIGIT_ZERO <= b <= DIGIT_NINE
}

/// The number that the ASCII digit `b` stands for.
pub open spec fn digit_value(b: u8) -> int {
    b - DIGIT_ZERO
}

/// `b` is an ASCII hexadecimal digit, in either case.
pub open spec fn is_hex_digit(b: u8) -> bool {
    is_digit(b) || 65 <= b <= 70 || 97 <= b <= 102
}

/// Every byte of `bytes` is an ASCII character.
pub open spec fn is_ascii_bytes(bytes: Seq<u8>) -> bool {
    forall|i: int| 0 <= i < bytes.len() ==> bytes[i] < 128
}

/// The text that a sequence of ASCII bytes spells, one character per byte.
pub open spec fn ascii_text(bytes: Seq<u8>) -> Seq<char> {
    Seq::new(bytes.len(), |i: int| bytes[i] as char)
}

/// The bytes `lit` stand in `s` at position `i`.
pub open spec fn has_bytes(s: Seq<u8>, i: int, lit: Seq<u8>) -> bool {
    0 <= i && i + lit.len() <= s.len() && s.subrange(i, i + lit.len()) == lit
}

/// Where the literal `lit` ends if it stands in `s` at position `i`.
pub open spec fn literal_end(s: Seq<u8>, i: int, lit: Seq<u8>) -> Option<int> {
    if has_bytes(s, i, lit) {
        Some(i + lit.len())
    } else {
        None
    }
}

/// The end of the longest run of bytes other than `stop` that starts at `i`:
/// the first position from `i` on that holds `stop`, or the end of `s`.
pub open spec fn run_end(s: Seq<u8>, i: int, stop: u8) -> int
    decreases s.len() - i,
{
    if 0 <= i < s.len() && s[i] != stop {
        run_end(s, i + 1, stop)
    } else {
        i
    }
}

/// A run ends at or after its start, within the input, on the stop byte or at
/// the end, and holds no stop byte.
pub proof fn lemma_run_end(s: Seq<u8>, i: int, stop: u8)
    requires
        0 <= i <= s.len(),
    ensures
        i <= run_end(s, i, stop) <= s.len(),
        run_end(s, i, stop) < s.len() ==> s[run_end(s, i, stop)] == stop,
        forall|k: int| i <= k < run_end(s, i, stop) ==> s[k] != stop,
    decreases s.len() - i,
{
    if i < s.len() && s[i] != stop {
        lemma_run_end(s, i + 1, stop);
    }
}

/// A position that is preceded, from `i` on, by no stop byte and that holds
/// one, or is the end of the input, is where the run from `i` ends.
pub proof fn lemma_run_end_is(s: Seq<u8>, i: int, stop: u8, end: int)
    requires
        0 <= i <= end <= s.len(),
        forall|k: int| i <= k < end ==> s[k] != stop,
        end < s.len() ==> s[end] == stop,
    ensures
        run_end(s, i, stop) == end,
    decreases end - i,
{
    if i < end {
        lemma_run_end_is(s, i + 1, stop, end);
    }
}

/// Three pieces joined are the same however they are grouped.
pub proof fn lemma_joined(a: Seq<u8>, b: Seq<u8>, c: Seq<u8>)
    ensures
        a + b + c == a + (b + c),
{
    assert(a + b + c =~= a + (b + c));
}

/// Bytes that stand between two pieces of input stand where the first
/// piece ends.
pub proof fn lemma_bytes_between(before: Seq<u8>, bytes: Seq<u8>, after: Seq<u8>)
    ensures
        has_bytes(before + bytes + after, before.len() as int, bytes),
{
    let s = before + bytes + after;
    assert(s.subrange(before.len() as int, (before.len() + bytes.len()) as int) =~= bytes);
}

/// Two pieces stand one after the other where their concatenation stands.
pub proof fn lemma_bytes_split(s: Seq<u8>, i: int, first: Seq<u8>, second: Seq<u8>)
    requires
        has_bytes(s, i, first + second),
    ensures
        has_bytes(s, i, first),
        has_bytes(s, i + first.len(), second),
{
    let both = s.subrange(i, i + first.len() + second.len());
    assert(both == first + second);
    assert(s.subrange(i, i + first.len()) =~= both.subrange(0, first.len() as int));
    assert(s.subrange(i + first.len(), i + first.len() + second.len()) =~= both.subrange(
        first.len() as int,
        (first.len() + second.len()) as int,
    ));
    assert((first + second).subrange(0, first.len() as int) =~= first);
    assert((first + second).subrange(first.len() as int, (first.len() + second.len()) as int)
        =~= second);
}

/// A literal is not found where one of its bytes is missing.
pub proof fn lemma_literal_missing(s: Seq<u8>, i: int, lit: Seq<u8>, k: int)
    requires
        0 <= i,
        0 <= k < lit.len(),
        i + k >= s.len() || s[i + k] != lit[k],
    ensures
        literal_end(s, i, lit) is None,
{
    if has_bytes(s, i, lit) {
        assert(s.subrange(i, i + lit.len())[k] == s[i + k]);
    }
}

/// The bytes of an ASCII text are its characters, one byte each.
pub proof fn lemma_ascii_text_bytes(text: &str)
    requires
        is_ascii_chars(text@),
    ensures
        text.spec_bytes().len() == text@.len(),
        forall|i: int| 0 <= i < text@.len() ==> text.spec_bytes()[i] == text@[i] as u8,
{
    is_ascii_chars_encode_utf8(text@);
}

/// ASCII bytes are valid UTF-8 and decode to one character per byte.
pub proof fn lemma_ascii_is_utf8(bytes: Seq<u8>)
    requires
        is_ascii_bytes(bytes),
    ensures
        valid_utf8(bytes),
        decode_utf8(bytes) == ascii_text(bytes),
{
    let chars = ascii_text(bytes);
    assert(is_ascii_chars(chars));
    is_ascii_chars_encode_utf8(chars);
    assert(encode_utf8(chars) =~= bytes);
    encode_utf8_valid_utf8(chars);
    encode_utf8_decode_utf8(chars);
}

/// Tells whether a byte is an ASCII decimal digit.
pub fn digit(b: u8) -> (r: bool)
    ensures
        r == is_digit(b),
{
    DIGIT_ZERO <= b && b <= DIGIT_NINE
}

/// Tells whether a byte is an ASCII hexadecimal digit.
pub fn hex_digit(b: u8) -> (r: bool)
    ensures
        r == is_hex_digit(b),
{
    digit(b) || (65 <= b && b <= 70) || (97 <= b && b <= 102)
}

/// Matches the bytes of `text` at `pos` and returns the position after them.
pub fn match_text(input: &[u8], pos: usize, text: &str) -> (r: Option<usize>)
    ensures
        match r {
            Some(end) => Some(end as int),
            None => None,
        } == literal_end(input@, pos as int, text.spec_bytes()),
{
    let lit = text.as_bytes();
    let n = lit.len();
    if pos > input.len() || input.len() - pos < n {
        return None;
    }
    let mut k: usize = 0;
    while k < n
        invariant
            k <= n,
            n == lit@.len(),
            lit@ == text.spec_bytes(),
            pos + n <= input.len(),
            forall|j: int| 0 <= j < k ==> input@[pos + j] == lit@[j],
        decreases n - k,
    {
        if input[pos + k] != lit[k] {
            return None;
        }
        k += 1;
    }
    assert(input@.subrange(pos as int, pos + n) =~= lit@);
    Some(pos + n)
}

/// Skips the longest run of bytes other than `stop` from `pos` on and returns
/// where it ends. A start beyond the input is returned as it is.
pub fn scan_until(input: &[u8], pos: usize, stop: u8) -> (end: usize)
    ensures
        end == run_end(input@, pos as int, stop),
{
    if pos > input.len() {
        return pos;
    }
    let mut end: usize = pos;
    while end < input.len() && input[end] != stop
        invariant
            pos <= end <= input@.len(),
            forall|k: int| pos <= k < end ==> input@[k] != stop,
        decreases input@.len() - end,
    {
        end += 1;
    }
    proof {
        lemma_run_end_is(input@, pos as int, stop, end as int);
    }
    end
}

/// Copies the bytes from `from` up to `to` out of the input.
pub(crate) fn copy_range(input: &[u8], from: usize, to: usize) -> (out: Vec<u8>)
    requires
        from <= to <= input@.len(),
    ensures
        out@ == input@.subrange(from as int, to as int),
{
    slice_to_vec(slice_subrange(input, from, to))
}

/// Decodes the bytes from `from` up to `to` as UTF-8 text, or returns `None`
/// where they are not valid UTF-8.
pub(crate) fn decode_range(input: &[u8], from: usize, to: usize) -> (r: Option<String>)
    requires
        from <= to <= input@.len(),
    ensures
        r is Some <==> valid_utf8(input@.subrange(from as int, to as int)),
        r matches Some(text) ==> text@ == decode_utf8(input@.subrange(from as int, to as int)),
{
    match core::str::from_utf8(slice_subrange(input, from, to)) {
        Ok(text) => Some(text.to_owned()),
        Err(_) => None,
    }
}

/// Tells whether two string slices hold the same text.
pub fn same_text(a: &str, b: &str) -> (r: bool)
    ensures
        r == (a@ == b@),
{
    let x = a.as_bytes();
    let y = b.as_bytes();
    proof {
        encode_utf8_decode_utf8(a@);
        encode_utf8_decode_utf8(b@);
    }
    if x.len() != y.len() {
        return false;
    }
    let mut k: usize = 0;
    while k < x.len()
        invariant
            k <= x@.len(),
            x@.len() == y@.len(),
            x@ == a.spec_bytes(),
            y@ == b.spec_bytes(),
            forall|j: int| 0 <= j < k ==> x@[j] == y@[j],
        decreases x@.len() - k,
    {
        if x[k] != y[k] {
            return false;
        }
        k += 1;
    }
    assert(x@ =~= y@);
    true
}

/// The error that `core::str::from_utf8` reports; nothing is read from it.
#[verifier::external_type_specification]
#[verifier::external_body]
pub struct ExUtf8Error(core::str::Utf8Error);

/// `core::str::from_utf8` succeeds exactly on valid UTF-8, and the string
/// slice it returns holds the characters that the bytes encode.
pub assume_specification[ core::str::from_utf8 ](v: &[u8]) -> (r: Result<
    &str,
    core::str::Utf8Error,
>)
    ensures
        r is Ok <==> valid_utf8(v@),
        r matches Ok(text) ==> text@ == decode_utf8(v@),
;

} // verus!
