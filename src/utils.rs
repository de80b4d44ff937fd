use vstd::prelude::*;
use vstd::slice::slice_subrange;
use vstd::string::StringSliceAdditionalSpecFns;
use vstd::utf8::valid_utf8;

use crate::error::{ParseError, ParseResult};

verus! {

/// A parse outcome in mathematical form: the unconsumed input and the value read.
pub type SpecResult<V> = Result<(Seq<u8>, V), ParseError>;

/// The mathematical form of an executable parse outcome.
pub open spec fn res_view<'a, T: View>(r: ParseResult<'a, T>) -> SpecResult<T::V> {
    match r {
        Ok((rest, v)) => Ok((rest@, v@)),
        Err(e) => Err(e),
    }
}

/// The mathematical form of a parse outcome whose value is text, taken as its bytes.
pub open spec fn text_res_view<'a>(r: ParseResult<'a, &'a str>) -> SpecResult<Seq<u8>> {
    match r {
        Ok((rest, t)) => Ok((rest@, t.spec_bytes())),
        Err(e) => Err(e),
    }
}

/// What PDF considers white space: NUL, TAB, LF, FF, CR and SPACE.
pub open spec fn is_white_space(b: u8) -> bool {
    b == 0x00 || b == 0x09 || b == 0x0A || b == 0x0C || b == 0x0D || b == 0x20
}

pub open spec fn is_digit(b: u8) -> bool {
    0x30 <= b && b <= 0x39
}

pub open spec fn is_hex_digit(b: u8) -> bool {
    is_digit(b) || (0x41 <= b && b <= 0x46) || (0x61 <= b && b <= 0x66)
}

/// The byte classes that the lexical scanners run over.
#[derive(Clone, Copy)]
pub enum ByteClass {
    WhiteSpace,
    NotWhiteSpace,
    Digit,
    HexDigit,
    NotNewline,
}

pub open spec fn class_has(c: ByteClass, b: u8) -> bool {
    match c {
        ByteClass::WhiteSpace => is_white_space(b),
        ByteClass::NotWhiteSpace => !is_white_space(b),
        ByteClass::Digit => is_digit(b),
        ByteClass::HexDigit => is_hex_digit(b),
        ByteClass::NotNewline => b != 0x0A,
    }
}

/// The length of the longest prefix of `s` whose bytes all belong to class `c`.
pub open spec fn span_len(s: Seq<u8>, c: ByteClass) -> nat
    decreases s.len(),
{
    if s.len() > 0 && class_has(c, s[0]) {
        1 + span_len(s.drop_first(), c)
    } else {
        0
    }
}

/// `n` is the span length exactly when the first `n` bytes are in the class
/// and the byte after them, if any, is not.
pub proof fn lemma_span_len(s: Seq<u8>, c: ByteClass, n: nat)
    requires
        n <= s.len(),
        forall|j: int| 0 <= j < n ==> class_has(c, #[trigger] s[j]),
        n == s.len() || !class_has(c, s[n as int]),
    ensures
        span_len(s, c) == n,
    decreases n,
{
    if n > 0 {
        let t = s.drop_first();
        assert forall|j: int| 0 <= j < n - 1 implies class_has(c, #[trigger] t[j]) by {
            assert(t[j] == s[j + 1]);
        }
        lemma_span_len(t, c, (n - 1) as nat);
    }
}

/// The span never runs past the end, every byte in it is in the class, and
/// the byte that ends it is not.
pub proof fn lemma_span_len_facts(s: Seq<u8>, c: ByteClass)
    ensures
        span_len(s, c) <= s.len(),
        forall|j: int| 0 <= j < span_len(s, c) ==> class_has(c, #[trigger] s[j]),
        span_len(s, c) == s.len() || !class_has(c, s[span_len(s, c) as int]),
    decreases s.len(),
{
    if s.len() > 0 && class_has(c, s[0]) {
        let t = s.drop_first();
        lemma_span_len_facts(t, c);
        assert forall|j: int| 0 <= j < span_len(s, c) implies class_has(c, #[trigger] s[j]) by {
            if j > 0 {
                assert(s[j] == t[j - 1]);
            }
        }
    }
}

fn in_class(b: u8, c: ByteClass) -> (r: bool)
    ensures
        r == class_has(c, b),
{
    match c {
        ByteClass::WhiteSpace => b == 0x00 || b == 0x09 || b == 0x0A || b == 0x0C || b == 0x0D
            || b == 0x20,
        ByteClass::NotWhiteSpace => !(b == 0x00 || b == 0x09 || b == 0x0A || b == 0x0C || b
            == 0x0D || b == 0x20),
        ByteClass::Digit => 0x30 <= b && b <= 0x39,
        ByteClass::HexDigit => (0x30 <= b && b <= 0x39) || (0x41 <= b && b <= 0x46) || (0x61 <= b
            && b <= 0x66),
        ByteClass::NotNewline => b != 0x0A,
    }
}

/// Counts the leading bytes of `s` that belong to class `c`.
pub fn class_len(s: &[u8], c: ByteClass) -> (n: usize)
    ensures
        n == span_len(s@, c),
{
    let mut i: usize = 0;
    while i < s.len() && in_class(s[i], c)
        invariant
            i <= s@.len(),
            forall|j: int| 0 <= j < i ==> class_has(c, #[trigger] s@[j]),
        decreases s@.len() - i,
    {
        i += 1;
    }
    proof {
        lemma_span_len(s@, c, i as nat);
    }
    i
}

/// Whether `s` begins with the bytes of `t`.
pub open spec fn starts_with(s: Seq<u8>, t: Seq<u8>) -> bool {
    t.len() <= s.len() && s.take(t.len() as int) == t
}

/// Consumes the bytes of `t` at the head of `input`.
pub fn tag<'a>(input: &'a [u8], t: &[u8]) -> (res: ParseResult<'a, &'a [u8]>)
    ensures
        res_view(res) == (if starts_with(input@, t@) {
            Ok((input@.skip(t@.len() as int), t@))
        } else {
            Err(ParseError::Mismatch)
        }),
{
    if t.len() > input.len() {
        return Err(ParseError::Mismatch);
    }
    let mut i: usize = 0;
    while i < t.len()
        invariant
            t@.len() <= input@.len(),
            i <= t@.len(),
            forall|j: int| 0 <= j < i ==> input@[j] == t@[j],
        decreases t@.len() - i,
    {
        if input[i] != t[i] {
            proof {
                assert(input@.take(t@.len() as int)[i as int] != t@[i as int]);
            }
            return Err(ParseError::Mismatch);
        }
        i += 1;
    }
    let head = slice_subrange(input, 0, t.len());
    let rest = slice_subrange(input, t.len(), input.len());
    proof {
        assert(input@.take(t@.len() as int) =~= t@);
        assert(head@ =~= t@);
    }
    Ok((rest, head))
}

/// Whether two byte sequences are equal.
pub fn bytes_eq(a: &[u8], b: &[u8]) -> (r: bool)
    ensures
        r == (a@ == b@),
{
    if a.len() != b.len() {
        return false;
    }
    let mut i: usize = 0;
    while i < a.len()
        invariant
            a@.len() == b@.len(),
            i <= a@.len(),
            forall|j: int| 0 <= j < i ==> a@[j] == b@[j],
        decreases a@.len() - i,
    {
        if a[i] != b[i] {
            return false;
        }
        i += 1;
    }
    proof {
        assert(a@ =~= b@);
    }
    true
}

/// Relies on `std::str::from_utf8`: it accepts exactly the valid UTF-8 byte
/// sequences, and the text it returns is made of the bytes it was given.
#[verifier::external_body]
pub(crate) fn utf8_text<'a>(b: &'a [u8]) -> (r: Option<&'a str>)
    ensures
        r is Some <==> valid_utf8(b@),
        r matches Some(t) ==> t.spec_bytes() == b@,
{
    std::str::from_utf8(b).ok()
}

/// Splits off the longest prefix whose bytes all belong to class `c`:
/// the result holds the rest and the prefix.
pub open spec fn spec_take_span(s: Seq<u8>, c: ByteClass) -> SpecResult<Seq<u8>> {
    let n = span_len(s, c) as int;
    Ok((s.skip(n), s.take(n)))
}

fn take_span<'a>(input: &'a [u8], c: ByteClass) -> (res: ParseResult<'a, &'a [u8]>)
    ensures
        res_view(res) == spec_take_span(input@, c),
{
    let n = class_len(input, c);
    proof {
        lemma_span_len_facts(input@, c);
    }
    Ok((slice_subrange(input, n, input.len()), slice_subrange(input, 0, n)))
}

/// Takes the bytes up to the first white space (possibly none).
pub fn take_till_whitespace(input: &[u8]) -> (res: ParseResult<&[u8]>)
    ensures
        res_view(res) == spec_take_span(input@, ByteClass::NotWhiteSpace),
{
    take_span(input, ByteClass::NotWhiteSpace)
}

/// Takes the white space at the head of the input (possibly none).
pub fn take_while_whitespace(input: &[u8]) -> (res: ParseResult<&[u8]>)
    ensures
        res_view(res) == spec_take_span(input@, ByteClass::WhiteSpace),
{
    take_span(input, ByteClass::WhiteSpace)
}

/// Takes the white space at the head of the input, of which there must be some.
pub fn take_while1_whitespace(input: &[u8]) -> (res: ParseResult<&[u8]>)
    ensures
        res_view(res) == (if span_len(input@, ByteClass::WhiteSpace) > 0 {
            spec_take_span(input@, ByteClass::WhiteSpace)
        } else {
            Err(ParseError::Mismatch)
        }),
{
    let n = class_len(input, ByteClass::WhiteSpace);
    if n == 0 {
        return Err(ParseError::Mismatch);
    }
    take_span(input, ByteClass::WhiteSpace)
}

/// The input after its leading white space.
pub open spec fn after_white_space(s: Seq<u8>) -> Seq<u8> {
    s.skip(span_len(s, ByteClass::WhiteSpace) as int)
}

/// A token may end here: at white space or at the end of the input.
pub open spec fn separated(s: Seq<u8>) -> bool {
    span_len(s, ByteClass::WhiteSpace) > 0 || s.len() == 0
}

pub open spec fn spec_take_while_separator(s: Seq<u8>) -> SpecResult<Seq<u8>> {
    if separated(s) {
        spec_take_span(s, ByteClass::WhiteSpace)
    } else {
        Err(ParseError::Mismatch)
    }
}

/// Some objects must be followed by white space or by the end of the input:
/// `true` is a boolean, `truee` is not.
pub fn take_while_separator(input: &[u8]) -> (res: ParseResult<&[u8]>)
    ensures
        res_view(res) == spec_take_while_separator(input@),
        res matches Ok((rest, _)) ==> rest@ == after_white_space(input@),
{
    let n = class_len(input, ByteClass::WhiteSpace);
    if n == 0 && input.len() != 0 {
        return Err(ParseError::Mismatch);
    }
    take_span(input, ByteClass::WhiteSpace)
}

/// Takes the bytes up to the first line feed (possibly none).
pub fn take_till_newline(input: &[u8]) -> (res: ParseResult<&[u8]>)
    ensures
        res_view(res) == spec_take_span(input@, ByteClass::NotNewline),
{
    take_span(input, ByteClass::NotNewline)
}

/// `true`
pub open spec fn true_tag() -> Seq<u8> {
    seq![0x74u8, 0x72, 0x75, 0x65]
}

/// `false`
pub open spec fn false_tag() -> Seq<u8> {
    seq![0x66u8, 0x61, 0x6c, 0x73, 0x65]
}

pub open spec fn spec_bool(s: Seq<u8>) -> SpecResult<bool> {
    if starts_with(s, true_tag()) {
        Ok((s.skip(4), true))
    } else if starts_with(s, false_tag()) {
        Ok((s.skip(5), false))
    } else {
        Err(ParseError::Mismatch)
    }
}

/// Reads the keyword `true` or `false`.
pub fn bool(input: &[u8]) -> (res: ParseResult<bool>)
    ensures
        res_view(res) == spec_bool(input@),
{
    let kw_true: [u8; 4] = [0x74, 0x72, 0x75, 0x65];
    let kw_false: [u8; 5] = [0x66, 0x61, 0x6c, 0x73, 0x65];
    proof {
        assert(kw_true@ =~= true_tag());
        assert(kw_false@ =~= false_tag());
    }
    if let Ok((rest, _)) = tag(input, &kw_true) {
        return Ok((rest, true));
    }
    if let Ok((rest, _)) = tag(input, &kw_false) {
        return Ok((rest, false));
    }
    Err(ParseError::Mismatch)
}

/// The number that a string of decimal digits denotes.
pub open spec fn digits_value(d: Seq<u8>) -> nat
    decreases d.len(),
{
    if d.len() == 0 {
        0
    } else {
        digits_value(d.drop_last()) * 10 + (d.last() - 0x30) as nat
    }
}

/// A prefix of a digit string never denotes more than the whole.
pub proof fn lemma_digits_value_prefix(d: Seq<u8>, k: int)
    requires
        0 <= k <= d.len(),
    ensures
        digits_value(d.take(k)) <= digits_value(d),
    decreases d.len(),
{
    if k < d.len() {
        assert(d.drop_last().take(k) =~= d.take(k));
        lemma_digits_value_prefix(d.drop_last(), k);
    } else {
        assert(d.take(k) =~= d);
    }
}

/// Reads a digit string as a number, or `None` when the number exceeds `bound`.
fn decimal_value(d: &[u8], bound: u64) -> (r: Option<u64>)
    requires
        9 <= bound <= u32::MAX + 1,
        forall|j: int| 0 <= j < d@.len() ==> is_digit(#[trigger] d@[j]),
    ensures
        match r {
            Some(v) => v == digits_value(d@) && v <= bound,
            None => digits_value(d@) > bound,
        },
{
    let mut v: u64 = 0;
    let mut i: usize = 0;
    while i < d.len()
        invariant
            9 <= bound <= u32::MAX + 1,
            forall|j: int| 0 <= j < d@.len() ==> is_digit(#[trigger] d@[j]),
            i <= d@.len(),
            v == digits_value(d@.take(i as int)),
            v <= bound,
        decreases d@.len() - i,
    {
        assert(is_digit(d@[i as int]));
        let digit = (d[i] - 0x30) as u64;
        proof {
            assert(d@.take(i + 1).drop_last() =~= d@.take(i as int));
        }
        if v > (bound - digit) / 10 {
            proof {
                assert(v * 10 + digit > bound) by (nonlinear_arith)
                    requires
                        v > (bound - digit) / 10,
                        digit <= 9,
                        bound >= 9,
                ;
                lemma_digits_value_prefix(d@, i + 1);
            }
            return None;
        }
        proof {
            assert(v * 10 + digit <= bound) by (nonlinear_arith)
                requires
                    v <= (bound - digit) / 10,
                    digit <= bound,
            ;
        }
        v = v * 10 + digit;
        i += 1;
    }
    proof {
        assert(d@.take(i as int) =~= d@);
    }
    Some(v)
}

pub open spec fn spec_digit1_u32_validate_length(s: Seq<u8>, length: nat) -> SpecResult<u32> {
    let n = span_len(s, ByteClass::Digit);
    if n == 0 {
        Err(ParseError::Mismatch)
    } else if 0 < length && n != length {
        Err(ParseError::InvalidFixedWidthField)
    } else if digits_value(s.take(n as int)) > u32::MAX {
        Err(ParseError::ParseIntError)
    } else {
        Ok((s.skip(n as int), digits_value(s.take(n as int)) as u32))
    }
}

/// Reads an unsigned decimal number; when `length` is not zero, the number
/// must be written with exactly that many digits.
pub fn digit1_u32_validate_length(input: &[u8], length: usize) -> (res: ParseResult<u32>)
    ensures
        res_view(res) == spec_digit1_u32_validate_length(input@, length as nat),
        res matches Ok((rest, _)) ==> rest@.len() < input@.len(),
{
    let n = class_len(input, ByteClass::Digit);
    if n == 0 {
        return Err(ParseError::Mismatch);
    }
    if 0 < length && n != length {
        return Err(ParseError::InvalidFixedWidthField);
    }
    proof {
        lemma_span_len_facts(input@, ByteClass::Digit);
    }
    let digits = slice_subrange(input, 0, n);
    match decimal_value(digits, 0xffff_ffff) {
        Some(v) => Ok((slice_subrange(input, n, input.len()), v as u32)),
        None => Err(ParseError::ParseIntError),
    }
}

/// Reads an unsigned decimal number of any number of digits.
pub fn digit1_u32(input: &[u8]) -> (res: ParseResult<u32>)
    ensures
        res_view(res) == spec_digit1_u32_validate_length(input@, 0),
        res matches Ok((rest, _)) ==> rest@.len() < input@.len(),
{
    digit1_u32_validate_length(input, 0)
}

/// The length of an optional leading `+` or `-`.
pub open spec fn sign_len(s: Seq<u8>) -> nat {
    if s.len() > 0 && (s[0] == 0x2B || s[0] == 0x2D) {
        1
    } else {
        0
    }
}

pub open spec fn spec_digit1_i32(s: Seq<u8>) -> SpecResult<i32> {
    let k = sign_len(s) as int;
    let n = span_len(s.skip(k), ByteClass::Digit) as int;
    let m = digits_value(s.subrange(k, k + n)) as int;
    let v = if k == 1 && s[0] == 0x2D {
        -m
    } else {
        m
    };
    if n == 0 {
        Err(ParseError::Mismatch)
    } else if v < i32::MIN || v > i32::MAX {
        Err(ParseError::ParseIntError)
    } else {
        Ok((s.skip(k + n), v as i32))
    }
}

/// Reads a decimal integer with an optional sign.
pub fn digit1_i32(input: &[u8]) -> (res: ParseResult<i32>)
    ensures
        res_view(res) == spec_digit1_i32(input@),
        res matches Ok((rest, _)) ==> rest@.len() < input@.len(),
{
    let k: usize = if input.len() > 0 && (input[0] == 0x2B || input[0] == 0x2D) {
        1
    } else {
        0
    };
    let negative = k == 1 && input[0] == 0x2D;
    let unsigned = slice_subrange(input, k, input.len());
    let n = class_len(unsigned, ByteClass::Digit);
    if n == 0 {
        return Err(ParseError::Mismatch);
    }
    proof {
        lemma_span_len_facts(unsigned@, ByteClass::Digit);
    }
    let digits = slice_subrange(input, k, k + n);
    assert(digits@ =~= unsigned@.take(n as int));
    let bound: u64 = if negative {
        0x8000_0000
    } else {
        0x7fff_ffff
    };
    match decimal_value(digits, bound) {
        Some(m) => {
            let v: i32 = if negative {
                if m == 0x8000_0000 {
                    i32::MIN
                } else {
                    -(m as i32)
                }
            } else {
                m as i32
            };
            Ok((slice_subrange(input, k + n, input.len()), v))
        },
        None => Err(ParseError::ParseIntError),
    }
}

/// The length of the real-number literal at the head of `s` (zero when there
/// is none): an optional sign, then digits with an optional fractional part,
/// or a point followed by digits.
pub open spec fn real_len(s: Seq<u8>) -> nat {
    let k = sign_len(s) as int;
    let t = s.skip(k);
    let a = span_len(t, ByteClass::Digit) as int;
    if a < t.len() && t[a] == 0x2E {
        let b = span_len(t.skip(a + 1), ByteClass::Digit) as int;
        if a + b == 0 {
            0
        } else {
            (k + a + 1 + b) as nat
        }
    } else if a == 0 {
        0
    } else {
        (k + a) as nat
    }
}

pub open spec fn spec_float_f32(s: Seq<u8>) -> SpecResult<Seq<u8>> {
    let n = real_len(s) as int;
    if n == 0 {
        Err(ParseError::Mismatch)
    } else if !valid_utf8(s.take(n)) {
        Err(ParseError::UTF8Error)
    } else {
        Ok((s.skip(n), s.take(n)))
    }
}

/// Reads a real-number literal and returns its text; turning the text into
/// a binary floating-point value is left to the caller.
pub fn float_f32(input: &[u8]) -> (res: ParseResult<&str>)
    ensures
        text_res_view(res) == spec_float_f32(input@),
        res matches Ok((rest, _)) ==> rest@.len() < input@.len(),
{
    let k: usize = if input.len() > 0 && (input[0] == 0x2B || input[0] == 0x2D) {
        1
    } else {
        0
    };
    let t = slice_subrange(input, k, input.len());
    let a = class_len(t, ByteClass::Digit);
    proof {
        lemma_span_len_facts(t@, ByteClass::Digit);
    }
    let n: usize;
    if a < t.len() && t[a] == 0x2E {
        let frac = slice_subrange(t, a + 1, t.len());
        let b = class_len(frac, ByteClass::Digit);
        proof {
            lemma_span_len_facts(frac@, ByteClass::Digit);
            assert(frac@ =~= t@.skip(a + 1));
        }
        if a + b == 0 {
            return Err(ParseError::Mismatch);
        }
        n = k + a + 1 + b;
    } else {
        if a == 0 {
            return Err(ParseError::Mismatch);
        }
        n = k + a;
    }
    match utf8_text(slice_subrange(input, 0, n)) {
        Some(text) => Ok((slice_subrange(input, n, input.len()), text)),
        None => Err(ParseError::UTF8Error),
    }
}

/// How one byte changes the bracket nesting.
pub open spec fn bracket_step(b: u8, opening: u8, closing: u8) -> int {
    if b == opening {
        1
    } else if b == closing {
        -1
    } else {
        0
    }
}

/// The bracket nesting after `s`: openings minus closings.
pub open spec fn nesting(s: Seq<u8>, opening: u8, closing: u8) -> int
    decreases s.len(),
{
    if s.len() == 0 {
        0
    } else {
        nesting(s.drop_last(), opening, closing) + bracket_step(s.last(), opening, closing)
    }
}

/// Position `i` of `s` holds the closing byte that first takes the nesting below zero.
pub open spec fn closes_at(s: Seq<u8>, opening: u8, closing: u8, i: int) -> bool {
    &&& 0 <= i < s.len()
    &&& nesting(s.take(i + 1), opening, closing) == -1
    &&& forall|j: int| 0 <= j < i ==> nesting(#[trigger] s.take(j + 1), opening, closing) >= 0
}

/// The bracketed span at the head of `s`, whose opening byte was already
/// consumed: everything before the closing byte that matches it, with that
/// byte and what follows left over. Without such a byte, the whole input when
/// its nesting comes back to zero, else an error.
pub open spec fn spec_take_bracketed(s: Seq<u8>, opening: u8, closing: u8) -> SpecResult<Seq<u8>> {
    if exists|i: int| closes_at(s, opening, closing, i) {
        let i = choose|i: int| closes_at(s, opening, closing, i);
        Ok((s.skip(i), s.take(i)))
    } else if nesting(s, opening, closing) == 0 {
        Ok((Seq::empty(), s))
    } else {
        Err(ParseError::UnbalancedDelimiter)
    }
}

/// Takes the content of a bracketed span whose opening byte the caller has
/// already consumed; the matching closing byte is not consumed.
pub fn take_bracketed<'a>(input: &'a [u8], opening: u8, closing: u8) -> (res: ParseResult<
    'a,
    &'a [u8],
>)
    ensures
        res_view(res) == spec_take_bracketed(input@, opening, closing),
        res matches Ok((rest, inner)) ==> rest@.len() + inner@.len() == input@.len(),
{
    let mut depth: usize = 0;
    let mut i: usize = 0;
    while i < input.len()
        invariant
            i <= input@.len(),
            depth <= i,
            depth as int == nesting(input@.take(i as int), opening, closing),
            forall|j: int| 0 <= j < i ==> nesting(#[trigger] input@.take(j + 1), opening, closing) >= 0,
        decreases input@.len() - i,
    {
        let b = input[i];
        proof {
            assert(input@.take(i + 1).drop_last() =~= input@.take(i as int));
        }
        if b == opening {
            depth += 1;
        } else if b == closing {
            if depth == 0 {
                proof {
                    assert(closes_at(input@, opening, closing, i as int));
                    assert forall|k: int| closes_at(input@, opening, closing, k) implies k == i by {
                        if k > i {
                            assert(nesting(input@.take(i + 1), opening, closing) >= 0);
                        }
                    }
                }
                return Ok((slice_subrange(input, i, input.len()), slice_subrange(input, 0, i)));
            }
            depth -= 1;
        }
        i += 1;
    }
    proof {
        assert(input@.take(i as int) =~= input@);
        assert forall|k: int| !closes_at(input@, opening, closing, k) by {
            if 0 <= k < input@.len() {
                assert(nesting(input@.take(k + 1), opening, closing) >= 0);
            }
        }
    }
    if depth == 0 {
        let empty = slice_subrange(input, input.len(), input.len());
        assert(empty@ =~= Seq::<u8>::empty());
        Ok((empty, input))
    } else {
        Err(ParseError::UnbalancedDelimiter)
    }
}

/// The first position at or after `i` where `t` occurs in `s`.
pub open spec fn find_from(s: Seq<u8>, t: Seq<u8>, i: int) -> Option<int>
    decreases s.len() + 1 - i,
{
    if i < 0 || i + t.len() > s.len() {
        None
    } else if s.subrange(i, i + t.len()) == t {
        Some(i)
    } else {
        find_from(s, t, i + 1)
    }
}

/// A position that `find_from` reports lies at or after where the search
/// began, and leaves room for `t`.
pub proof fn lemma_find_from(s: Seq<u8>, t: Seq<u8>, i: int)
    ensures
        find_from(s, t, i) matches Some(k) ==> i <= k && k + t.len() <= s.len(),
    decreases s.len() + 1 - i,
{
    if !(i < 0 || i + t.len() > s.len()) && s.subrange(i, i + t.len()) != t {
        lemma_find_from(s, t, i + 1);
    }
}

pub open spec fn spec_take_until(s: Seq<u8>, t: Seq<u8>) -> SpecResult<Seq<u8>> {
    match find_from(s, t, 0) {
        Some(i) => Ok((s.skip(i), s.take(i))),
        None => Err(ParseError::Mismatch),
    }
}

/// Takes the bytes before the first occurrence of `t`, which is left over.
pub fn take_until<'a>(input: &'a [u8], t: &[u8]) -> (res: ParseResult<'a, &'a [u8]>)
    ensures
        res_view(res) == spec_take_until(input@, t@),
        res matches Ok((rest, _)) ==> rest@.len() <= input@.len(),
        res matches Ok((rest, _)) ==> starts_with(rest@, t@),
{
    let mut i: usize = 0;
    while t.len() <= input.len() - i
        invariant
            i <= input@.len(),
            find_from(input@, t@, 0) == find_from(input@, t@, i as int),
        decreases input@.len() - i,
    {
        let window = slice_subrange(input, i, i + t.len());
        if bytes_eq(window, t) {
            assert(input@.skip(i as int).take(t@.len() as int) =~= window@);
            return Ok((slice_subrange(input, i, input.len()), slice_subrange(input, 0, i)));
        }
        if i == input.len() {
            assert(window@ =~= t@);
        }
        i += 1;
    }
    Err(ParseError::Mismatch)
}

} // verus!
