use vstd::prelude::*;
use vstd::utf8::valid_utf8;

use crate::error::ParseError;
use crate::object::{dict_insert, keys_unique, lemma_dict_insert_unique, ObjectView};
use crate::parser::{
    spec_dictionary_entries, spec_name_text, spec_parse, spec_parse_dictionary,
    spec_parse_literal_string,
};
use crate::utils::{
    after_white_space, closes_at, digits_value, is_digit, lemma_span_len, nesting, separated,
    spec_digit1_u32_validate_length, spec_take_bracketed, ByteClass,
};

verus! {

/// A digit string `d` of length L, followed by anything that does not start
/// with a digit, is read with required length L as the number it denotes
/// (when that number fits in 32 bits); with any other required length it is
/// rejected as a field of the wrong width.
pub proof fn lemma_fixed_width_digits(d: Seq<u8>, rest: Seq<u8>, other: nat)
    requires
        d.len() > 0,
        forall|j: int| 0 <= j < d.len() ==> is_digit(#[trigger] d[j]),
        rest.len() == 0 || !is_digit(rest[0]),
        digits_value(d) <= u32::MAX,
        other > 0,
        other != d.len(),
    ensures
        spec_digit1_u32_validate_length(d + rest, d.len()) == Ok::<(Seq<u8>, u32), ParseError>(
            (rest, digits_value(d) as u32),
        ),
        spec_digit1_u32_validate_length(d + rest, other) == Err::<(Seq<u8>, u32), ParseError>(
            ParseError::InvalidFixedWidthField,
        ),
{
    let s = d + rest;
    assert forall|j: int| 0 <= j < d.len() implies crate::utils::class_has(ByteClass::Digit, #[trigger] s[j]) by {
        assert(s[j] == d[j]);
    }
    lemma_span_len(s, ByteClass::Digit, d.len());
    assert(s.take(d.len() as int) =~= d);
    assert(s.skip(d.len() as int) =~= rest);
}

/// Content whose nesting never drops below zero and ends at zero.
pub open spec fn balanced(c: Seq<u8>, opening: u8, closing: u8) -> bool {
    &&& nesting(c, opening, closing) == 0
    &&& forall|j: int| 0 <= j <= c.len() ==> nesting(#[trigger] c.take(j), opening, closing) >= 0
}

/// Balanced content followed by a closing byte comes back from the bracket
/// scanner exactly, nested brackets intact, with the closing byte and what
/// follows it left over.
pub proof fn lemma_bracketed_round_trip(c: Seq<u8>, rest: Seq<u8>, opening: u8, closing: u8)
    requires
        opening != closing,
        balanced(c, opening, closing),
    ensures
        spec_take_bracketed(c + seq![closing] + rest, opening, closing) == Ok::<
            (Seq<u8>, Seq<u8>),
            ParseError,
        >((seq![closing] + rest, c)),
{
    let s = c + seq![closing] + rest;
    let n = c.len() as int;
    assert(s.take(n + 1).drop_last() =~= c);
    assert(s.take(n + 1).last() == closing);
    assert forall|j: int| 0 <= j < n implies nesting(#[trigger] s.take(j + 1), opening, closing)
        >= 0 by {
        assert(s.take(j + 1) =~= c.take(j + 1));
    }
    assert(closes_at(s, opening, closing, n));
    assert forall|k: int| closes_at(s, opening, closing, k) implies k == n by {
        if k < n {
            assert(nesting(s.take(k + 1), opening, closing) >= 0);
        }
    }
    assert(s.skip(n) =~= seq![closing] + rest);
    assert(s.take(n) =~= c);
}

/// A literal string whose content is balanced in parentheses and valid text
/// is read back as exactly that content.
pub proof fn lemma_literal_string_round_trip(c: Seq<u8>, rest: Seq<u8>)
    requires
        balanced(c, 0x28, 0x29),
        valid_utf8(c),
        separated(rest),
    ensures
        spec_parse_literal_string(seq![0x28u8] + c + seq![0x29u8] + rest) == Ok::<
            (Seq<u8>, ObjectView),
            ParseError,
        >((after_white_space(rest), ObjectView::LiteralString(c))),
{
    let s = seq![0x28u8] + c + seq![0x29u8] + rest;
    assert(s.skip(1) =~= c + seq![0x29u8] + rest);
    lemma_bracketed_round_trip(c, rest, 0x28, 0x29);
    assert((seq![0x29u8] + rest).skip(1) =~= rest);
}

proof fn lemma_entries_keys_unique(t: Seq<u8>, acc: Seq<(Seq<u8>, ObjectView)>)
    requires
        keys_unique(acc),
    ensures
        spec_dictionary_entries(t, acc) matches Ok(d) ==> keys_unique(d),
    decreases t.len(),
{
    if t.len() > 0 {
        if let Ok((r, k)) = spec_name_text(t) {
            if r.len() < t.len() {
                if let Ok((r2, v)) = spec_parse(r) {
                    let r3 = after_white_space(r2);
                    if r3.len() < t.len() {
                        lemma_dict_insert_unique(acc, k, v);
                        lemma_entries_keys_unique(r3, dict_insert(acc, k, v));
                    }
                }
            }
        }
    }
}

/// No key occurs twice in a parsed dictionary.
pub proof fn lemma_dictionary_keys_unique(s: Seq<u8>)
    ensures
        spec_parse_dictionary(s) matches Ok((_, ObjectView::Dictionary(entries, _))) ==> keys_unique(
            entries,
        ),
{
    if let Ok((_, ObjectView::Dictionary(entries, _))) = spec_parse_dictionary(s) {
        let (r, outer) = spec_take_bracketed(s.skip(1), 0x3c, 0x3e)->Ok_0;
        let (r2, inner) = spec_take_bracketed(outer.skip(1), 0x3c, 0x3e)->Ok_0;
        lemma_entries_keys_unique(after_white_space(inner), Seq::empty());
    }
}

} // verus!
