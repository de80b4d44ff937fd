use vstd::prelude::*;
use vstd::slice::slice_subrange;
use vstd::string::StringSliceAdditionalSpecFns;
use vstd::utf8::valid_utf8;

use crate::error::{ParseError, ParseResult};
use crate::object::{
    dict_insert, entries_view, insert_entry, keys_unique, lemma_objects_view, objects_view,
    CrossReferenceEntry, CrossReferenceTable, CrossReferenceTableView, DictionaryObject, Header,
    NameObject, Object, ObjectView, PDFView, Trailer, TrailerView, PDF,
};
use crate::utils::{
    after_white_space, class_len, digit1_u32, digit1_i32, find_from, float_f32, lemma_span_len_facts,
    digit1_u32_validate_length, res_view, separated, span_len, spec_digit1_i32, spec_digit1_u32_validate_length,
    spec_float_f32, spec_take_bracketed, starts_with, tag, take_bracketed, take_until,
    take_while_separator, take_while_whitespace, text_res_view, utf8_text, ByteClass, SpecResult,
};

verus! {

/// `s` begins with the byte `b`.
pub open spec fn byte_at(s: Seq<u8>, b: u8) -> bool {
    s.len() > 0 && s[0] == b
}

/// Consumes the byte `b` at the head of the input.
fn expect_byte<'a>(input: &'a [u8], b: u8) -> (r: Option<&'a [u8]>)
    ensures
        r is Some <==> byte_at(input@, b),
        r matches Some(rest) ==> rest@ == input@.skip(1),
{
    if input.len() > 0 && input[0] == b {
        Some(slice_subrange(input, 1, input.len()))
    } else {
        None
    }
}

/// Consumes the separator that must follow a token.
fn separator<'a>(input: &'a [u8]) -> (r: Option<&'a [u8]>)
    ensures
        r is Some <==> separated(input@),
        r matches Some(rest) ==> rest@ == after_white_space(input@) && rest@.len() <= input@.len(),
{
    proof {
        lemma_span_len_facts(input@, ByteClass::WhiteSpace);
    }
    match take_while_separator(input) {
        Ok((rest, _)) => Some(rest),
        Err(_) => None,
    }
}

/// `null`
pub open spec fn null_tag() -> Seq<u8> {
    seq![0x6eu8, 0x75, 0x6c, 0x6c]
}

/// `stream`
pub open spec fn stream_tag() -> Seq<u8> {
    seq![0x73u8, 0x74, 0x72, 0x65, 0x61, 0x6d]
}

/// `endstream`
pub open spec fn endstream_tag() -> Seq<u8> {
    seq![0x65u8, 0x6e, 0x64, 0x73, 0x74, 0x72, 0x65, 0x61, 0x6d]
}

/// ` R`
pub open spec fn reference_tag() -> Seq<u8> {
    seq![0x20u8, 0x52]
}

pub open spec fn spec_parse_null(s: Seq<u8>) -> SpecResult<ObjectView> {
    if starts_with(s, null_tag()) && separated(s.skip(4)) {
        Ok((after_white_space(s.skip(4)), ObjectView::Null))
    } else {
        Err(ParseError::Mismatch)
    }
}

pub open spec fn spec_parse_bool(s: Seq<u8>) -> SpecResult<ObjectView> {
    match crate::utils::spec_bool(s) {
        Ok((r, b)) => if separated(r) {
            Ok((after_white_space(r), ObjectView::Boolean(b)))
        } else {
            Err(ParseError::Mismatch)
        },
        Err(e) => Err(e),
    }
}

pub open spec fn spec_parse_integer(s: Seq<u8>) -> SpecResult<ObjectView> {
    match spec_digit1_i32(s) {
        Ok((r, v)) => if separated(r) {
            Ok((after_white_space(r), ObjectView::Integer(v as int)))
        } else {
            Err(ParseError::Mismatch)
        },
        Err(e) => Err(e),
    }
}

pub open spec fn spec_parse_real(s: Seq<u8>) -> SpecResult<ObjectView> {
    match spec_float_f32(s) {
        Ok((r, t)) => if separated(r) {
            Ok((after_white_space(r), ObjectView::Real(t)))
        } else {
            Err(ParseError::Mismatch)
        },
        Err(e) => Err(e),
    }
}

/// An integer where one can be read, else a real number.
pub open spec fn spec_parse_numeric(s: Seq<u8>) -> SpecResult<ObjectView> {
    match spec_parse_integer(s) {
        Ok(r) => Ok(r),
        Err(_) => spec_parse_real(s),
    }
}

pub open spec fn spec_parse_literal_string(s: Seq<u8>) -> SpecResult<ObjectView> {
    if !byte_at(s, 0x28) {
        Err(ParseError::Mismatch)
    } else {
        match spec_take_bracketed(s.skip(1), 0x28, 0x29) {
            Ok((r, inner)) => if !byte_at(r, 0x29) || !separated(r.skip(1)) {
                Err(ParseError::Mismatch)
            } else if !valid_utf8(inner) {
                Err(ParseError::UTF8Error)
            } else {
                Ok((after_white_space(r.skip(1)), ObjectView::LiteralString(inner)))
            },
            Err(e) => Err(e),
        }
    }
}

pub open spec fn spec_parse_hexadecimal_string(s: Seq<u8>) -> SpecResult<ObjectView> {
    let n = span_len(s.skip(1), ByteClass::HexDigit) as int;
    let r = s.skip(1 + n);
    if !byte_at(s, 0x3c) || n == 0 || !byte_at(r, 0x3e) || !separated(r.skip(1)) {
        Err(ParseError::Mismatch)
    } else if !valid_utf8(s.subrange(1, 1 + n)) {
        Err(ParseError::UTF8Error)
    } else {
        Ok((after_white_space(r.skip(1)), ObjectView::HexadecimalString(s.subrange(1, 1 + n))))
    }
}

/// A byte `lead`, then the text made of the bytes of class `c` that follow,
/// then a separator.
pub open spec fn spec_led_text(s: Seq<u8>, lead: u8, c: ByteClass) -> SpecResult<Seq<u8>> {
    let n = span_len(s.skip(1), c) as int;
    let r = s.skip(1 + n);
    if !byte_at(s, lead) || !separated(r) {
        Err(ParseError::Mismatch)
    } else if !valid_utf8(s.subrange(1, 1 + n)) {
        Err(ParseError::UTF8Error)
    } else {
        Ok((after_white_space(r), s.subrange(1, 1 + n)))
    }
}

/// The text of a name: a slash, then everything up to white space.
pub open spec fn spec_name_text(s: Seq<u8>) -> SpecResult<Seq<u8>> {
    spec_led_text(s, 0x2f, ByteClass::NotWhiteSpace)
}

pub open spec fn spec_parse_name(s: Seq<u8>) -> SpecResult<ObjectView> {
    match spec_name_text(s) {
        Ok((r, t)) => Ok((r, ObjectView::Name(t))),
        Err(e) => Err(e),
    }
}

/// A comment: a percent sign, then everything up to the end of the line.
pub open spec fn spec_parse_comment(s: Seq<u8>) -> SpecResult<ObjectView> {
    match spec_led_text(s, 0x25, ByteClass::NotNewline) {
        Ok((r, t)) => Ok((r, ObjectView::Comment(t))),
        Err(e) => Err(e),
    }
}

/// A stream section: the keyword `stream`, the rest of its line, then the raw
/// payload up to the first `endstream`.
pub open spec fn spec_parse_stream(s: Seq<u8>) -> SpecResult<Seq<u8>> {
    let t = s.skip(6);
    let u = t.skip(span_len(t, ByteClass::NotWhiteSpace) as int);
    let v = u.skip(1);
    if !starts_with(s, stream_tag()) || !byte_at(u, 0x0a) {
        Err(ParseError::Mismatch)
    } else {
        match find_from(v, endstream_tag(), 0) {
            Some(i) => if !separated(v.skip(i + 9)) {
                Err(ParseError::Mismatch)
            } else if !valid_utf8(v.take(i)) {
                Err(ParseError::UTF8Error)
            } else {
                Ok((after_white_space(v.skip(i + 9)), v.take(i)))
            },
            None => Err(ParseError::Mismatch),
        }
    }
}

/// An object number and a generation number, separated by one space.
pub open spec fn spec_object_numbers(s: Seq<u8>) -> SpecResult<(u32, u32)> {
    match spec_digit1_u32_validate_length(s, 0) {
        Ok((r1, id)) => if !byte_at(r1, 0x20) {
            Err(ParseError::Mismatch)
        } else {
            match spec_digit1_u32_validate_length(r1.skip(1), 0) {
                Ok((r2, generation)) => Ok((r2, (id, generation))),
                Err(e) => Err(e),
            }
        },
        Err(e) => Err(e),
    }
}

pub open spec fn spec_parse_indirect_reference(s: Seq<u8>) -> SpecResult<ObjectView> {
    match spec_object_numbers(s) {
        Ok((r, (id, generation))) => if !starts_with(r, reference_tag()) || !separated(r.skip(2)) {
            Err(ParseError::Mismatch)
        } else {
            Ok((
                after_white_space(r.skip(2)),
                ObjectView::IndirectReference { id: id as nat, generation: generation as nat },
            ))
        },
        Err(e) => Err(e),
    }
}

/// ` obj`
pub open spec fn object_tag() -> Seq<u8> {
    seq![0x20u8, 0x6f, 0x62, 0x6a]
}

/// `endobj`
pub open spec fn endobj_tag() -> Seq<u8> {
    seq![0x65u8, 0x6e, 0x64, 0x6f, 0x62, 0x6a]
}

/// The first outcome when it succeeded, else the second.
pub open spec fn or_else(a: SpecResult<ObjectView>, b: SpecResult<ObjectView>) -> SpecResult<
    ObjectView,
> {
    if a is Ok {
        a
    } else {
        b
    }
}

// In the mutually recursive definitions below, each length test before a
// recursive step always passes (every production consumes input); it makes
// the termination of the recursion evident.
/// An object: the productions are tried in a fixed order, the first that
/// matches wins.
pub open spec fn spec_parse(s: Seq<u8>) -> SpecResult<ObjectView>
    decreases s.len(), 1nat,
{
    or_else(
        spec_parse_indirect_object(s),
        or_else(
            spec_parse_comment(s),
            or_else(
                spec_parse_dictionary(s),
                or_else(
                    spec_parse_array(s),
                    or_else(
                        spec_parse_indirect_reference(s),
                        or_else(
                            spec_parse_name(s),
                            or_else(
                                spec_parse_literal_string(s),
                                or_else(
                                    spec_parse_hexadecimal_string(s),
                                    or_else(
                                        spec_parse_numeric(s),
                                        or_else(
                                            spec_parse_bool(s),
                                            or_else(
                                                spec_parse_null(s),
                                                Err(ParseError::InvalidPDFObject),
                                            ),
                                        ),
                                    ),
                                ),
                            ),
                        ),
                    ),
                ),
            ),
        ),
    )
}

/// `id generation obj`, a dictionary, then `endobj`.
pub open spec fn spec_parse_indirect_object(s: Seq<u8>) -> SpecResult<ObjectView>
    decreases s.len(), 0nat,
{
    match spec_object_numbers(s) {
        Ok((r, (id, generation))) => {
            let d_input = after_white_space(r.skip(4));
            if !starts_with(r, object_tag()) || !separated(r.skip(4)) {
                Err(ParseError::Mismatch)
            } else if d_input.len() >= s.len() {
                Err(ParseError::Mismatch)
            } else {
                match spec_parse_dictionary(d_input) {
                    Ok((r2, d)) => if !starts_with(r2, endobj_tag()) || !separated(r2.skip(6)) {
                        Err(ParseError::Mismatch)
                    } else {
                        Ok(
                            (
                                after_white_space(r2.skip(6)),
                                ObjectView::IndirectObject {
                                    id: id as nat,
                                    generation: generation as nat,
                                    dictionary: Box::new(d),
                                },
                            ),
                        )
                    },
                    Err(e) => Err(e),
                }
            }
        },
        Err(e) => Err(e),
    }
}

/// A dictionary: the span inside `<` and `>`, and inside that the span
/// inside the first `<` and its matching `>`, holds the entries. White space
/// follows, and then possibly one stream section.
pub open spec fn spec_parse_dictionary(s: Seq<u8>) -> SpecResult<ObjectView>
    decreases s.len(), 0nat,
{
    if !byte_at(s, 0x3c) {
        Err(ParseError::Mismatch)
    } else {
        match spec_take_bracketed(s.skip(1), 0x3c, 0x3e) {
            Ok((r, outer)) => if !byte_at(r, 0x3e) || !byte_at(outer, 0x3c) {
                Err(ParseError::Mismatch)
            } else {
                match spec_take_bracketed(outer.skip(1), 0x3c, 0x3e) {
                    Ok((r2, inner)) => {
                        let t = after_white_space(inner);
                        if !byte_at(r2, 0x3e) {
                            Err(ParseError::Mismatch)
                        } else if t.len() >= s.len() {
                            Err(ParseError::Mismatch)
                        } else {
                            match spec_dictionary_entries(t, Seq::empty()) {
                                Ok(entries) => {
                                    let after = after_white_space(r.skip(1));
                                    match spec_parse_stream(after) {
                                        Ok((r3, payload)) => Ok(
                                            (r3, ObjectView::Dictionary(entries, payload)),
                                        ),
                                        Err(_) => Ok(
                                            (after, ObjectView::Dictionary(entries, Seq::empty())),
                                        ),
                                    }
                                },
                                Err(e) => Err(e),
                            }
                        }
                    },
                    Err(e) => Err(e),
                }
            },
            Err(e) => Err(e),
        }
    }
}

/// The entries of a dictionary: pairs of a name and an object, each followed
/// by optional white space, up to the end of `t`, added to `acc` in turn.
pub open spec fn spec_dictionary_entries(t: Seq<u8>, acc: Seq<(Seq<u8>, ObjectView)>) -> Result<
    Seq<(Seq<u8>, ObjectView)>,
    ParseError,
>
    decreases t.len(), 0nat,
{
    if t.len() == 0 {
        Ok(acc)
    } else {
        match spec_name_text(t) {
            Ok((r, k)) => if r.len() >= t.len() {
                Err(ParseError::Mismatch)
            } else {
                match spec_parse(r) {
                    Ok((r2, v)) => {
                        let r3 = after_white_space(r2);
                        if r3.len() >= t.len() {
                            Err(ParseError::Mismatch)
                        } else {
                            spec_dictionary_entries(r3, dict_insert(acc, k, v))
                        }
                    },
                    Err(e) => Err(e),
                }
            },
            Err(e) => Err(e),
        }
    }
}

/// An array: the objects inside `[` and the matching `]`.
pub open spec fn spec_parse_array(s: Seq<u8>) -> SpecResult<ObjectView>
    decreases s.len(), 0nat,
{
    if !byte_at(s, 0x5b) {
        Err(ParseError::Mismatch)
    } else {
        match spec_take_bracketed(s.skip(1), 0x5b, 0x5d) {
            Ok((r, inner)) => {
                let t = after_white_space(inner);
                if !byte_at(r, 0x5d) {
                    Err(ParseError::Mismatch)
                } else if t.len() >= s.len() {
                    Err(ParseError::Mismatch)
                } else {
                    match spec_array_elements(t, Seq::empty()) {
                        Ok(elements) => Ok((r.skip(1), ObjectView::Array(elements))),
                        Err(e) => Err(e),
                    }
                }
            },
            Err(e) => Err(e),
        }
    }
}

/// The elements of an array: objects, each followed by optional white
/// space, up to the end of `t`, appended to `acc` in turn.
pub open spec fn spec_array_elements(t: Seq<u8>, acc: Seq<ObjectView>) -> Result<
    Seq<ObjectView>,
    ParseError,
>
    decreases t.len(), 2nat,
{
    if t.len() == 0 {
        Ok(acc)
    } else {
        match spec_parse(t) {
            Ok((r, o)) => {
                let r2 = after_white_space(r);
                if r2.len() >= t.len() {
                    Err(ParseError::Mismatch)
                } else {
                    spec_array_elements(r2, acc.push(o))
                }
            },
            Err(e) => Err(e),
        }
    }
}

/// The input after the comments at its head.
pub open spec fn spec_skip_comments(s: Seq<u8>) -> Seq<u8>
    decreases s.len(),
{
    match spec_parse_comment(s) {
        Ok((r, _)) => if r.len() < s.len() {
            spec_skip_comments(r)
        } else {
            s
        },
        Err(_) => s,
    }
}

/// An indirect object of the document body, after any comments.
pub open spec fn spec_parse_body(s: Seq<u8>) -> SpecResult<ObjectView> {
    spec_parse_indirect_object(spec_skip_comments(s))
}

/// `%PDF-`
pub open spec fn header_tag() -> Seq<u8> {
    seq![0x25u8, 0x50, 0x44, 0x46, 0x2d]
}

/// `xref`
pub open spec fn xref_tag() -> Seq<u8> {
    seq![0x78u8, 0x72, 0x65, 0x66]
}

/// `trailer`
pub open spec fn trailer_tag() -> Seq<u8> {
    seq![0x74u8, 0x72, 0x61, 0x69, 0x6c, 0x65, 0x72]
}

/// `startxref`
pub open spec fn startxref_tag() -> Seq<u8> {
    seq![0x73u8, 0x74, 0x61, 0x72, 0x74, 0x78, 0x72, 0x65, 0x66]
}

/// `%%EOF`
pub open spec fn eof_tag() -> Seq<u8> {
    seq![0x25u8, 0x25, 0x45, 0x4f, 0x46]
}

/// `%PDF-major.minor`, then a separator.
pub open spec fn spec_parse_header(s: Seq<u8>) -> SpecResult<Header> {
    if !starts_with(s, header_tag()) {
        Err(ParseError::Mismatch)
    } else {
        match spec_digit1_u32_validate_length(s.skip(5), 0) {
            Ok((r1, major)) => if !byte_at(r1, 0x2e) {
                Err(ParseError::Mismatch)
            } else {
                match spec_digit1_u32_validate_length(r1.skip(1), 0) {
                    Ok((r2, minor)) => if !separated(r2) {
                        Err(ParseError::Mismatch)
                    } else {
                        Ok((after_white_space(r2), Header { major, minor }))
                    },
                    Err(e) => Err(e),
                }
            },
            Err(e) => Err(e),
        }
    }
}

/// One cross-reference entry: a ten-digit offset, a five-digit generation,
/// the flag `n` (in use) or `f` (free), the rest of the line, and at most one
/// line feed.
pub open spec fn spec_parse_xref_entry(s: Seq<u8>) -> SpecResult<CrossReferenceEntry> {
    match spec_digit1_u32_validate_length(s, 10) {
        Ok((r1, offset)) => if !separated(r1) {
            Err(ParseError::Mismatch)
        } else {
            match spec_digit1_u32_validate_length(after_white_space(r1), 5) {
                Ok((r2, generation)) => {
                    let r3 = after_white_space(r2);
                    let r4 = r3.skip(1);
                    let r5 = r4.skip(span_len(r4, ByteClass::NotNewline) as int);
                    if !separated(r2) || !(byte_at(r3, 0x6e) || byte_at(r3, 0x66)) {
                        Err(ParseError::Mismatch)
                    } else {
                        Ok(
                            (
                                if byte_at(r5, 0x0a) {
                                    r5.skip(1)
                                } else {
                                    r5
                                },
                                CrossReferenceEntry { offset, generation, free: r3[0] == 0x66 },
                            ),
                        )
                    }
                },
                Err(e) => Err(e),
            }
        },
        Err(e) => Err(e),
    }
}

/// Reads entries while they parse, appending them to `acc`: the input left
/// and the entries read.
pub open spec fn spec_xref_entries(s: Seq<u8>, acc: Seq<CrossReferenceEntry>) -> (
    Seq<u8>,
    Seq<CrossReferenceEntry>,
)
    decreases s.len(),
{
    match spec_parse_xref_entry(s) {
        Ok((r, e)) => if r.len() < s.len() {
            spec_xref_entries(r, acc.push(e))
        } else {
            (s, acc)
        },
        Err(_) => (s, acc),
    }
}

/// `xref`, a line with the first object number and the count, then exactly
/// that many entries.
pub open spec fn spec_parse_xref_table(s: Seq<u8>) -> SpecResult<CrossReferenceTableView> {
    if !starts_with(s, xref_tag()) || !byte_at(s.skip(4), 0x0a) {
        Err(ParseError::Mismatch)
    } else {
        match spec_digit1_u32_validate_length(s.skip(5), 0) {
            Ok((r1, id)) => if !byte_at(r1, 0x20) {
                Err(ParseError::Mismatch)
            } else {
                match spec_digit1_u32_validate_length(r1.skip(1), 0) {
                    Ok((r2, count)) => if !byte_at(r2, 0x0a) {
                        Err(ParseError::Mismatch)
                    } else {
                        let (r3, entries) = spec_xref_entries(r2.skip(1), Seq::empty());
                        if entries.len() != count {
                            Err(ParseError::InvalidPDFXrefTable)
                        } else {
                            Ok((r3, CrossReferenceTableView { id, count, entries }))
                        }
                    },
                    Err(e) => Err(e),
                }
            },
            Err(e) => Err(e),
        }
    }
}

/// `trailer`, a dictionary, `startxref` and an offset, then `%%EOF` with
/// nothing but white space after it.
pub open spec fn spec_parse_trailer(s: Seq<u8>) -> SpecResult<TrailerView> {
    if !starts_with(s, trailer_tag()) || !separated(s.skip(7)) {
        Err(ParseError::Mismatch)
    } else {
        match spec_parse_dictionary(after_white_space(s.skip(7))) {
            Ok((r1, dictionary)) => if !starts_with(r1, startxref_tag()) || !separated(
                r1.skip(9),
            ) {
                Err(ParseError::Mismatch)
            } else {
                match spec_digit1_u32_validate_length(after_white_space(r1.skip(9)), 0) {
                    Ok((r2, startxref)) => {
                        let r3 = after_white_space(r2);
                        if !separated(r2) || !starts_with(r3, eof_tag()) || !separated(
                            r3.skip(5),
                        ) || after_white_space(r3.skip(5)).len() != 0 {
                            Err(ParseError::Mismatch)
                        } else {
                            Ok(
                                (
                                    after_white_space(r3.skip(5)),
                                    TrailerView { dictionary, startxref },
                                ),
                            )
                        }
                    },
                    Err(e) => Err(e),
                }
            },
            Err(e) => Err(e),
        }
    }
}

/// Reads body objects while they parse, appending them to `acc`.
pub open spec fn spec_body_objects(s: Seq<u8>, acc: Seq<ObjectView>) -> (Seq<u8>, Seq<ObjectView>)
    decreases s.len(),
{
    match spec_parse_body(s) {
        Ok((r, o)) => if r.len() < s.len() {
            spec_body_objects(r, acc.push(o))
        } else {
            (s, acc)
        },
        Err(_) => (s, acc),
    }
}

/// Reads cross-reference tables while they parse, appending them to `acc`.
pub open spec fn spec_xref_tables(s: Seq<u8>, acc: Seq<CrossReferenceTableView>) -> (
    Seq<u8>,
    Seq<CrossReferenceTableView>,
)
    decreases s.len(),
{
    match spec_parse_xref_table(s) {
        Ok((r, t)) => if r.len() < s.len() {
            spec_xref_tables(r, acc.push(t))
        } else {
            (s, acc)
        },
        Err(_) => (s, acc),
    }
}

/// A whole document: the header, the body objects, the cross-reference
/// tables and the trailer, in that order.
pub open spec fn spec_parse_pdf(s: Seq<u8>) -> SpecResult<PDFView> {
    match spec_parse_header(s) {
        Ok((r1, header)) => {
            let (r2, body) = spec_body_objects(r1, Seq::empty());
            let (r3, cross_reference_tables) = spec_xref_tables(r2, Seq::empty());
            match spec_parse_trailer(r3) {
                Ok((r4, trailer)) => Ok(
                    (r4, PDFView { header, body, cross_reference_tables, trailer }),
                ),
                Err(e) => Err(e),
            }
        },
        Err(e) => Err(e),
    }
}

fn object_numbers(input: &[u8]) -> (res: ParseResult<(u32, u32)>)
    ensures
        res_view(res) == spec_object_numbers(input@),
        res matches Ok((rest, _)) ==> rest@.len() < input@.len(),
{
    let (r1, id) = match digit1_u32(input) {
        Ok(x) => x,
        Err(e) => return Err(e),
    };
    let r1 = match expect_byte(r1, 0x20) {
        Some(r) => r,
        None => return Err(ParseError::Mismatch),
    };
    match digit1_u32(r1) {
        Ok((r2, generation)) => Ok((r2, (id, generation))),
        Err(e) => Err(e),
    }
}

/// Reads the byte `lead`, then the bytes of class `c` that follow it as text,
/// then a separator.
fn led_text<'a>(input: &'a [u8], lead: u8, c: ByteClass) -> (res: ParseResult<'a, &'a str>)
    ensures
        text_res_view(res) == spec_led_text(input@, lead, c),
        res matches Ok((rest, _)) ==> rest@.len() < input@.len(),
{
    let body = match expect_byte(input, lead) {
        Some(b) => b,
        None => return Err(ParseError::Mismatch),
    };
    let n = class_len(body, c);
    proof {
        lemma_span_len_facts(body@, c);
    }
    let rest = match separator(slice_subrange(body, n, body.len())) {
        Some(r) => r,
        None => return Err(ParseError::Mismatch),
    };
    let text = slice_subrange(body, 0, n);
    proof {
        assert(text@ =~= input@.subrange(1, 1 + n));
        assert(body@.skip(n as int) =~= input@.skip(1 + n));
    }
    match utf8_text(text) {
        Some(t) => Ok((rest, t)),
        None => Err(ParseError::UTF8Error),
    }
}

impl<'a> Object<'a> {
    /// Reads the keyword `null`.
    pub fn parse_null(input: &'a [u8]) -> (res: ParseResult<'a, Object<'a>>)
        ensures
            res_view(res) == spec_parse_null(input@),
            res matches Ok((rest, _)) ==> rest@.len() < input@.len(),
    {
        let kw: [u8; 4] = [0x6e, 0x75, 0x6c, 0x6c];
        assert(kw@ =~= null_tag());
        let rest = match tag(input, &kw) {
            Ok((r, _)) => r,
            Err(e) => return Err(e),
        };
        match separator(rest) {
            Some(r) => Ok((r, Object::Null)),
            None => Err(ParseError::Mismatch),
        }
    }

    /// Reads the keyword `true` or `false`.
    pub fn parse_bool(input: &'a [u8]) -> (res: ParseResult<'a, Object<'a>>)
        ensures
            res_view(res) == spec_parse_bool(input@),
            res matches Ok((rest, _)) ==> rest@.len() < input@.len(),
    {
        let (rest, b) = match crate::utils::bool(input) {
            Ok(x) => x,
            Err(e) => return Err(e),
        };
        match separator(rest) {
            Some(r) => Ok((r, Object::Boolean(b))),
            None => Err(ParseError::Mismatch),
        }
    }

    /// Reads a signed 32-bit integer.
    pub fn parse_integer(input: &'a [u8]) -> (res: ParseResult<'a, Object<'a>>)
        ensures
            res_view(res) == spec_parse_integer(input@),
            res matches Ok((rest, _)) ==> rest@.len() < input@.len(),
    {
        let (rest, v) = match digit1_i32(input) {
            Ok(x) => x,
            Err(e) => return Err(e),
        };
        match separator(rest) {
            Some(r) => Ok((r, Object::Integer(v))),
            None => Err(ParseError::Mismatch),
        }
    }

    /// Reads a real number, kept as its literal text.
    pub fn parse_real(input: &'a [u8]) -> (res: ParseResult<'a, Object<'a>>)
        ensures
            res_view(res) == spec_parse_real(input@),
            res matches Ok((rest, _)) ==> rest@.len() < input@.len(),
    {
        let (rest, t) = match float_f32(input) {
            Ok(x) => x,
            Err(e) => return Err(e),
        };
        match separator(rest) {
            Some(r) => Ok((r, Object::Real(t))),
            None => Err(ParseError::Mismatch),
        }
    }

    /// Reads an integer, or else a real number.
    pub fn parse_numeric(input: &'a [u8]) -> (res: ParseResult<'a, Object<'a>>)
        ensures
            res_view(res) == spec_parse_numeric(input@),
            res matches Ok((rest, _)) ==> rest@.len() < input@.len(),
    {
        match Object::parse_integer(input) {
            Ok(r) => Ok(r),
            Err(_) => Object::parse_real(input),
        }
    }

    /// Reads a string in parentheses; nested balanced parentheses belong to
    /// the string. Backslash escapes are not interpreted: an escaped
    /// parenthesis counts as a bracket like any other.
    pub fn parse_literal_string(input: &'a [u8]) -> (res: ParseResult<'a, Object<'a>>)
        ensures
            res_view(res) == spec_parse_literal_string(input@),
            res matches Ok((rest, _)) ==> rest@.len() < input@.len(),
    {
        let body = match expect_byte(input, 0x28) {
            Some(b) => b,
            None => return Err(ParseError::Mismatch),
        };
        let (r, inner) = match take_bracketed(body, 0x28, 0x29) {
            Ok(x) => x,
            Err(e) => return Err(e),
        };
        let r = match expect_byte(r, 0x29) {
            Some(r) => r,
            None => return Err(ParseError::Mismatch),
        };
        let rest = match separator(r) {
            Some(r) => r,
            None => return Err(ParseError::Mismatch),
        };
        match utf8_text(inner) {
            Some(t) => Ok((rest, Object::LiteralString(t))),
            None => Err(ParseError::UTF8Error),
        }
    }

    /// Reads hexadecimal digits between `<` and `>`; white space inside is rejected.
    pub fn parse_hexadecimal_string(input: &'a [u8]) -> (res: ParseResult<'a, Object<'a>>)
        ensures
            res_view(res) == spec_parse_hexadecimal_string(input@),
            res matches Ok((rest, _)) ==> rest@.len() < input@.len(),
    {
        let body = match expect_byte(input, 0x3c) {
            Some(b) => b,
            None => return Err(ParseError::Mismatch),
        };
        let n = class_len(body, ByteClass::HexDigit);
        proof {
            lemma_span_len_facts(body@, ByteClass::HexDigit);
            assert(body@.skip(n as int) =~= input@.skip(1 + n));
        }
        if n == 0 {
            return Err(ParseError::Mismatch);
        }
        let r = match expect_byte(slice_subrange(body, n, body.len()), 0x3e) {
            Some(r) => r,
            None => return Err(ParseError::Mismatch),
        };
        let rest = match separator(r) {
            Some(r) => r,
            None => return Err(ParseError::Mismatch),
        };
        let digits = slice_subrange(body, 0, n);
        assert(digits@ =~= input@.subrange(1, 1 + n));
        match utf8_text(digits) {
            Some(t) => Ok((rest, Object::HexadecimalString(t))),
            None => Err(ParseError::UTF8Error),
        }
    }

    /// Reads a name: a slash, then everything up to white space.
    pub fn parse_name(input: &'a [u8]) -> (res: ParseResult<'a, Object<'a>>)
        ensures
            res_view(res) == spec_parse_name(input@),
            res matches Ok((rest, _)) ==> rest@.len() < input@.len(),
    {
        match led_text(input, 0x2f, ByteClass::NotWhiteSpace) {
            Ok((rest, t)) => Ok((rest, Object::Name(NameObject(t)))),
            Err(e) => Err(e),
        }
    }

    /// Reads a comment: a percent sign, then the rest of the line.
    pub fn parse_comment(input: &'a [u8]) -> (res: ParseResult<'a, Object<'a>>)
        ensures
            res_view(res) == spec_parse_comment(input@),
            res matches Ok((rest, _)) ==> rest@.len() < input@.len(),
    {
        match led_text(input, 0x25, ByteClass::NotNewline) {
            Ok((rest, t)) => Ok((rest, Object::Comment(t))),
            Err(e) => Err(e),
        }
    }

    /// Reads a stream section and returns its raw payload.
    pub fn parse_stream(input: &'a [u8]) -> (res: ParseResult<'a, &'a str>)
        ensures
            text_res_view(res) == spec_parse_stream(input@),
            res matches Ok((rest, _)) ==> rest@.len() < input@.len(),
    {
        let kw: [u8; 6] = [0x73, 0x74, 0x72, 0x65, 0x61, 0x6d];
        assert(kw@ =~= stream_tag());
        let t = match tag(input, &kw) {
            Ok((r, _)) => r,
            Err(e) => return Err(e),
        };
        let n = class_len(t, ByteClass::NotWhiteSpace);
        proof {
            lemma_span_len_facts(t@, ByteClass::NotWhiteSpace);
        }
        let v = match expect_byte(slice_subrange(t, n, t.len()), 0x0a) {
            Some(r) => r,
            None => return Err(ParseError::Mismatch),
        };
        let end: [u8; 9] = [0x65, 0x6e, 0x64, 0x73, 0x74, 0x72, 0x65, 0x61, 0x6d];
        assert(end@ =~= endstream_tag());
        proof {
            crate::utils::lemma_find_from(v@, endstream_tag(), 0);
        }
        let (at_end, payload) = match take_until(v, &end) {
            Ok(x) => x,
            Err(e) => return Err(e),
        };
        let after = slice_subrange(at_end, 9, at_end.len());
        assert(after@ =~= v@.skip(payload@.len() + 9int));
        let rest = match separator(after) {
            Some(r) => r,
            None => return Err(ParseError::Mismatch),
        };
        match utf8_text(payload) {
            Some(p) => Ok((rest, p)),
            None => Err(ParseError::UTF8Error),
        }
    }

    /// Reads a reference `id generation R`.
    pub fn parse_indirect_reference(input: &'a [u8]) -> (res: ParseResult<'a, Object<'a>>)
        ensures
            res_view(res) == spec_parse_indirect_reference(input@),
            res matches Ok((rest, _)) ==> rest@.len() < input@.len(),
    {
        let (r, (id, generation)) = match object_numbers(input) {
            Ok(x) => x,
            Err(e) => return Err(e),
        };
        let kw: [u8; 2] = [0x20, 0x52];
        assert(kw@ =~= reference_tag());
        let r = match tag(r, &kw) {
            Ok((r, _)) => r,
            Err(e) => return Err(e),
        };
        match separator(r) {
            Some(rest) => Ok((rest, Object::IndirectReference { id, generation })),
            None => Err(ParseError::Mismatch),
        }
    }

    /// Reads an indirect object `id generation obj << ... >> endobj`.
    pub fn parse_indirect_object(input: &'a [u8]) -> (res: ParseResult<'a, Object<'a>>)
        ensures
            res_view(res) == spec_parse_indirect_object(input@),
            res matches Ok((rest, _)) ==> rest@.len() < input@.len(),
        decreases input@.len(), 0nat,
    {
        let (r, (id, generation)) = match object_numbers(input) {
            Ok(x) => x,
            Err(e) => return Err(e),
        };
        let kw: [u8; 4] = [0x20, 0x6f, 0x62, 0x6a];
        assert(kw@ =~= object_tag());
        let r = match tag(r, &kw) {
            Ok((r, _)) => r,
            Err(e) => return Err(e),
        };
        let d_input = match separator(r) {
            Some(r) => r,
            None => return Err(ParseError::Mismatch),
        };
        let (r2, dictionary) = match Object::parse_dictionary(d_input) {
            Ok(x) => x,
            Err(e) => return Err(e),
        };
        let end: [u8; 6] = [0x65, 0x6e, 0x64, 0x6f, 0x62, 0x6a];
        assert(end@ =~= endobj_tag());
        let r3 = match tag(r2, &end) {
            Ok((r, _)) => r,
            Err(e) => return Err(e),
        };
        match separator(r3) {
            Some(rest) => Ok(
                (rest, Object::IndirectObject { id, generation, dictionary: Box::new(dictionary) }),
            ),
            None => Err(ParseError::Mismatch),
        }
    }

    /// Reads a dictionary `<< /Key value ... >>` and the stream that may follow it.
    pub fn parse_dictionary(input: &'a [u8]) -> (res: ParseResult<'a, Object<'a>>)
        ensures
            res_view(res) == spec_parse_dictionary(input@),
            res matches Ok((rest, _)) ==> rest@.len() < input@.len(),
        decreases input@.len(), 0nat,
    {
        let body = match expect_byte(input, 0x3c) {
            Some(b) => b,
            None => return Err(ParseError::Mismatch),
        };
        let (r, outer) = match take_bracketed(body, 0x3c, 0x3e) {
            Ok(x) => x,
            Err(e) => return Err(e),
        };
        let after_close = match expect_byte(r, 0x3e) {
            Some(r) => r,
            None => return Err(ParseError::Mismatch),
        };
        let outer_body = match expect_byte(outer, 0x3c) {
            Some(b) => b,
            None => return Err(ParseError::Mismatch),
        };
        let (r2, inner) = match take_bracketed(outer_body, 0x3c, 0x3e) {
            Ok(x) => x,
            Err(e) => return Err(e),
        };
        if expect_byte(r2, 0x3e).is_none() {
            return Err(ParseError::Mismatch);
        }
        proof {
            lemma_span_len_facts(inner@, ByteClass::WhiteSpace);
        }
        let (mut cur, _) = match take_while_whitespace(inner) {
            Ok(x) => x,
            Err(e) => return Err(e),
        };
        let ghost t = cur@;
        let mut entries: DictionaryObject<'a> = Vec::new();
        proof {
            crate::object::lemma_entries_view(entries@);
            assert(entries_view(entries@) =~= Seq::empty());
        }
        while cur.len() > 0
            invariant
                cur@.len() < input@.len(),
                keys_unique(entries_view(entries@)),
                spec_dictionary_entries(t, Seq::empty()) == spec_dictionary_entries(
                    cur@,
                    entries_view(entries@),
                ),
                spec_dictionary_entries(t, Seq::empty()) matches Err(e) ==> spec_parse_dictionary(
                    input@,
                ) == Err::<(Seq<u8>, ObjectView), ParseError>(e),
            decreases cur@.len(),
        {
            let (r, key) = match led_text(cur, 0x2f, ByteClass::NotWhiteSpace) {
                Ok(x) => x,
                Err(e) => return Err(e),
            };
            let (r2, value) = match Object::parse(r) {
                Ok(x) => x,
                Err(e) => return Err(e),
            };
            proof {
                lemma_span_len_facts(r2@, ByteClass::WhiteSpace);
            }
            let (r3, _) = match take_while_whitespace(r2) {
                Ok(x) => x,
                Err(e) => return Err(e),
            };
            insert_entry(&mut entries, NameObject(key), value);
            cur = r3;
        }
        proof {
            lemma_span_len_facts(after_close@, ByteClass::WhiteSpace);
        }
        let (after, _) = match take_while_whitespace(after_close) {
            Ok(x) => x,
            Err(e) => return Err(e),
        };
        match Object::parse_stream(after) {
            Ok((rest, payload)) => Ok((rest, Object::Dictionary(entries, payload))),
            Err(_) => {
                let none = "";
                proof {
                    reveal_strlit("");
                    assert(none.spec_bytes() =~= Seq::<u8>::empty());
                }
                Ok((after, Object::Dictionary(entries, none)))
            },
        }
    }

    /// Reads an array `[ ... ]` of objects.
    pub fn parse_array(input: &'a [u8]) -> (res: ParseResult<'a, Object<'a>>)
        ensures
            res_view(res) == spec_parse_array(input@),
            res matches Ok((rest, _)) ==> rest@.len() < input@.len(),
        decreases input@.len(), 0nat,
    {
        let body = match expect_byte(input, 0x5b) {
            Some(b) => b,
            None => return Err(ParseError::Mismatch),
        };
        let (r, inner) = match take_bracketed(body, 0x5b, 0x5d) {
            Ok(x) => x,
            Err(e) => return Err(e),
        };
        let rest = match expect_byte(r, 0x5d) {
            Some(r) => r,
            None => return Err(ParseError::Mismatch),
        };
        proof {
            lemma_span_len_facts(inner@, ByteClass::WhiteSpace);
        }
        let (mut cur, _) = match take_while_whitespace(inner) {
            Ok(x) => x,
            Err(e) => return Err(e),
        };
        let ghost t = cur@;
        let mut elements: Vec<Object<'a>> = Vec::new();
        proof {
            lemma_objects_view(elements@);
            assert(objects_view(elements@) =~= Seq::empty());
        }
        while cur.len() > 0
            invariant
                cur@.len() < input@.len(),
                spec_array_elements(t, Seq::empty()) == spec_array_elements(
                    cur@,
                    objects_view(elements@),
                ),
                spec_array_elements(t, Seq::empty()) matches Err(e) ==> spec_parse_array(input@)
                    == Err::<(Seq<u8>, ObjectView), ParseError>(e),
            decreases cur@.len(),
        {
            let (r, element) = match Object::parse(cur) {
                Ok(x) => x,
                Err(e) => return Err(e),
            };
            proof {
                lemma_span_len_facts(r@, ByteClass::WhiteSpace);
            }
            let (r2, _) = match take_while_whitespace(r) {
                Ok(x) => x,
                Err(e) => return Err(e),
            };
            let ghost before = elements@;
            elements.push(element);
            proof {
                lemma_objects_view(before);
                lemma_objects_view(elements@);
                assert(objects_view(elements@) =~= objects_view(before).push(
                    crate::object::object_view(element),
                ));
            }
            cur = r2;
        }
        Ok((rest, Object::Array(elements)))
    }

    /// Reads one object of any kind.
    pub fn parse(input: &'a [u8]) -> (res: ParseResult<'a, Object<'a>>)
        ensures
            res_view(res) == spec_parse(input@),
            res matches Ok((rest, _)) ==> rest@.len() < input@.len(),
        decreases input@.len(), 1nat,
    {
        let r = Object::parse_indirect_object(input);
        if r.is_ok() {
            return r;
        }
        let r = Object::parse_comment(input);
        if r.is_ok() {
            return r;
        }
        let r = Object::parse_dictionary(input);
        if r.is_ok() {
            return r;
        }
        let r = Object::parse_array(input);
        if r.is_ok() {
            return r;
        }
        let r = Object::parse_indirect_reference(input);
        if r.is_ok() {
            return r;
        }
        let r = Object::parse_name(input);
        if r.is_ok() {
            return r;
        }
        let r = Object::parse_literal_string(input);
        if r.is_ok() {
            return r;
        }
        let r = Object::parse_hexadecimal_string(input);
        if r.is_ok() {
            return r;
        }
        let r = Object::parse_numeric(input);
        if r.is_ok() {
            return r;
        }
        let r = Object::parse_bool(input);
        if r.is_ok() {
            return r;
        }
        let r = Object::parse_null(input);
        if r.is_ok() {
            return r;
        }
        Err(ParseError::InvalidPDFObject)
    }

    /// Reads an indirect object of the document body, skipping the comments before it.
    pub fn parse_body(input: &'a [u8]) -> (res: ParseResult<'a, Object<'a>>)
        ensures
            res_view(res) == spec_parse_body(input@),
            res matches Ok((rest, _)) ==> rest@.len() < input@.len(),
    {
        let mut cur = input;
        loop
            invariant
                cur@.len() <= input@.len(),
                spec_skip_comments(input@) == spec_skip_comments(cur@),
            ensures
                spec_skip_comments(input@) == cur@,
            decreases cur@.len(),
        {
            match Object::parse_comment(cur) {
                Ok((r, _)) => {
                    cur = r;
                },
                Err(_) => {
                    break;
                },
            }
        }
        Object::parse_indirect_object(cur)
    }
}

/// Reads body objects for as long as they parse.
fn body_objects<'a>(input: &'a [u8]) -> (res: (&'a [u8], Vec<Object<'a>>))
    ensures
        spec_body_objects(input@, Seq::empty()) == (res.0@, objects_view(res.1@)),
{
    let mut cur = input;
    let mut body: Vec<Object<'a>> = Vec::new();
    proof {
        lemma_objects_view(body@);
        assert(objects_view(body@) =~= Seq::empty());
    }
    loop
        invariant
            spec_body_objects(input@, Seq::empty()) == spec_body_objects(
                cur@,
                objects_view(body@),
            ),
        ensures
            spec_body_objects(input@, Seq::empty()) == (cur@, objects_view(body@)),
        decreases cur@.len(),
    {
        match Object::parse_body(cur) {
            Ok((r, o)) => {
                let ghost before = body@;
                body.push(o);
                proof {
                    lemma_objects_view(before);
                    lemma_objects_view(body@);
                    assert(objects_view(body@) =~= objects_view(before).push(
                        crate::object::object_view(o),
                    ));
                }
                cur = r;
            },
            Err(_) => {
                break;
            },
        }
    }
    (cur, body)
}

/// Reads cross-reference tables for as long as they parse.
fn xref_tables(input: &[u8]) -> (res: (&[u8], Vec<CrossReferenceTable>))
    ensures
        spec_xref_tables(input@, Seq::empty()) == (
            res.0@,
            res.1@.map_values(|t: CrossReferenceTable| t@),
        ),
{
    let mut cur = input;
    let mut tables: Vec<CrossReferenceTable> = Vec::new();
    assert(tables@.map_values(|t: CrossReferenceTable| t@) =~= Seq::empty());
    loop
        invariant
            spec_xref_tables(input@, Seq::empty()) == spec_xref_tables(
                cur@,
                tables@.map_values(|t: CrossReferenceTable| t@),
            ),
        ensures
            spec_xref_tables(input@, Seq::empty()) == (
                cur@,
                tables@.map_values(|t: CrossReferenceTable| t@),
            ),
        decreases cur@.len(),
    {
        match CrossReferenceTable::parse(cur) {
            Ok((r, t)) => {
                let ghost before = tables@;
                let ghost tv = t@;
                tables.push(t);
                assert(tables@.map_values(|t: CrossReferenceTable| t@) =~= before.map_values(
                    |t: CrossReferenceTable| t@,
                ).push(tv));
                cur = r;
            },
            Err(_) => {
                break;
            },
        }
    }
    (cur, tables)
}

impl<'a> PDF<'a> {
    /// Parses a whole document.
    pub fn parse(input: &'a [u8]) -> (res: ParseResult<'a, PDF<'a>>)
        ensures
            res_view(res) == spec_parse_pdf(input@),
            res matches Ok((rest, _)) ==> rest@.len() == 0,
    {
        let (r1, header) = match Header::parse(input) {
            Ok(x) => x,
            Err(e) => return Err(e),
        };
        let (r2, body) = body_objects(r1);
        let (r3, tables) = xref_tables(r2);
        match Trailer::parse(r3) {
            Ok((rest, trailer)) => Ok(
                (rest, PDF { header, body, cross_reference_tables: tables, trailer }),
            ),
            Err(e) => Err(e),
        }
    }
}

impl Header {
    /// Reads the header line `%PDF-major.minor`.
    pub fn parse(input: &[u8]) -> (res: ParseResult<Header>)
        ensures
            res_view(res) == spec_parse_header(input@),
    {
        let kw: [u8; 5] = [0x25, 0x50, 0x44, 0x46, 0x2d];
        assert(kw@ =~= header_tag());
        let r = match tag(input, &kw) {
            Ok((r, _)) => r,
            Err(e) => return Err(e),
        };
        let (r1, major) = match digit1_u32(r) {
            Ok(x) => x,
            Err(e) => return Err(e),
        };
        let r1 = match expect_byte(r1, 0x2e) {
            Some(r) => r,
            None => return Err(ParseError::Mismatch),
        };
        let (r2, minor) = match digit1_u32(r1) {
            Ok(x) => x,
            Err(e) => return Err(e),
        };
        match separator(r2) {
            Some(rest) => Ok((rest, Header { major, minor })),
            None => Err(ParseError::Mismatch),
        }
    }
}

impl CrossReferenceEntry {
    /// Reads one fixed-width cross-reference entry.
    pub fn parse(input: &[u8]) -> (res: ParseResult<CrossReferenceEntry>)
        ensures
            res_view(res) == spec_parse_xref_entry(input@),
            res matches Ok((rest, _)) ==> rest@.len() < input@.len(),
    {
        let (r1, offset) = match digit1_u32_validate_length(input, 10) {
            Ok(x) => x,
            Err(e) => return Err(e),
        };
        let r1 = match separator(r1) {
            Some(r) => r,
            None => return Err(ParseError::Mismatch),
        };
        let (r2, generation) = match digit1_u32_validate_length(r1, 5) {
            Ok(x) => x,
            Err(e) => return Err(e),
        };
        let r3 = match separator(r2) {
            Some(r) => r,
            None => return Err(ParseError::Mismatch),
        };
        let free = if r3.len() > 0 && r3[0] == 0x6e {
            false
        } else if r3.len() > 0 && r3[0] == 0x66 {
            true
        } else {
            return Err(ParseError::Mismatch);
        };
        let r4 = slice_subrange(r3, 1, r3.len());
        let n = class_len(r4, ByteClass::NotNewline);
        proof {
            lemma_span_len_facts(r4@, ByteClass::NotNewline);
        }
        let r5 = slice_subrange(r4, n, r4.len());
        let rest = match expect_byte(r5, 0x0a) {
            Some(r) => r,
            None => r5,
        };
        Ok((rest, CrossReferenceEntry { offset, generation, free }))
    }

    /// Reads entries for as long as they parse.
    pub fn parse_entries(input: &[u8]) -> (res: ParseResult<Vec<CrossReferenceEntry>>)
        ensures
            res matches Ok((rest, entries)) && spec_xref_entries(input@, Seq::empty()) == (
                rest@,
                entries@,
            ),
    {
        let mut entries: Vec<CrossReferenceEntry> = Vec::new();
        let mut remaining = input;
        loop
            invariant
                spec_xref_entries(input@, Seq::empty()) == spec_xref_entries(
                    remaining@,
                    entries@,
                ),
            ensures
                spec_xref_entries(input@, Seq::empty()) == (remaining@, entries@),
            decreases remaining@.len(),
        {
            match CrossReferenceEntry::parse(remaining) {
                Ok((r, entry)) => {
                    entries.push(entry);
                    remaining = r;
                },
                Err(_) => {
                    break;
                },
            }
        }
        Ok((remaining, entries))
    }
}

impl CrossReferenceTable {
    /// Reads a cross-reference table; its entries must number exactly as declared.
    pub fn parse(input: &[u8]) -> (res: ParseResult<CrossReferenceTable>)
        ensures
            res_view(res) == spec_parse_xref_table(input@),
            res matches Ok((rest, t)) ==> rest@.len() < input@.len() && t.entries@.len()
                == t.count,
    {
        let kw: [u8; 4] = [0x78, 0x72, 0x65, 0x66];
        assert(kw@ =~= xref_tag());
        let r = match tag(input, &kw) {
            Ok((r, _)) => r,
            Err(e) => return Err(e),
        };
        let r = match expect_byte(r, 0x0a) {
            Some(r) => r,
            None => return Err(ParseError::Mismatch),
        };
        assert(r@ =~= input@.skip(5));
        let (r1, id) = match digit1_u32(r) {
            Ok(x) => x,
            Err(e) => return Err(e),
        };
        let r1 = match expect_byte(r1, 0x20) {
            Some(r) => r,
            None => return Err(ParseError::Mismatch),
        };
        let (r2, count) = match digit1_u32(r1) {
            Ok(x) => x,
            Err(e) => return Err(e),
        };
        let r2 = match expect_byte(r2, 0x0a) {
            Some(r) => r,
            None => return Err(ParseError::Mismatch),
        };
        let (rest, entries) = match CrossReferenceEntry::parse_entries(r2) {
            Ok(x) => x,
            Err(e) => return Err(e),
        };
        proof {
            lemma_xref_entries_rest(r2@, Seq::empty());
        }
        if entries.len() as u64 != count as u64 {
            Err(ParseError::InvalidPDFXrefTable)
        } else {
            Ok((rest, CrossReferenceTable { id, count, entries }))
        }
    }
}

impl<'a> Trailer<'a> {
    /// Reads the trailer, which must end the input.
    pub fn parse(input: &'a [u8]) -> (res: ParseResult<'a, Trailer<'a>>)
        ensures
            res_view(res) == spec_parse_trailer(input@),
            res matches Ok((rest, _)) ==> rest@.len() == 0,
    {
        let kw: [u8; 7] = [0x74, 0x72, 0x61, 0x69, 0x6c, 0x65, 0x72];
        assert(kw@ =~= trailer_tag());
        let r = match tag(input, &kw) {
            Ok((r, _)) => r,
            Err(e) => return Err(e),
        };
        let r = match separator(r) {
            Some(r) => r,
            None => return Err(ParseError::Mismatch),
        };
        let (r1, dictionary) = match Object::parse_dictionary(r) {
            Ok(x) => x,
            Err(e) => return Err(e),
        };
        let start: [u8; 9] = [0x73, 0x74, 0x61, 0x72, 0x74, 0x78, 0x72, 0x65, 0x66];
        assert(start@ =~= startxref_tag());
        let r1 = match tag(r1, &start) {
            Ok((r, _)) => r,
            Err(e) => return Err(e),
        };
        let r1 = match separator(r1) {
            Some(r) => r,
            None => return Err(ParseError::Mismatch),
        };
        let (r2, startxref) = match digit1_u32(r1) {
            Ok(x) => x,
            Err(e) => return Err(e),
        };
        let r3 = match separator(r2) {
            Some(r) => r,
            None => return Err(ParseError::Mismatch),
        };
        let eof: [u8; 5] = [0x25, 0x25, 0x45, 0x4f, 0x46];
        assert(eof@ =~= eof_tag());
        let r4 = match tag(r3, &eof) {
            Ok((r, _)) => r,
            Err(e) => return Err(e),
        };
        let rest = match separator(r4) {
            Some(r) => r,
            None => return Err(ParseError::Mismatch),
        };
        if rest.len() != 0 {
            return Err(ParseError::Mismatch);
        }
        Ok((rest, Trailer { dictionary, startxref }))
    }
}

/// The entries read from `s` leave a suffix of it.
proof fn lemma_xref_entries_rest(s: Seq<u8>, acc: Seq<CrossReferenceEntry>)
    ensures
        spec_xref_entries(s, acc).0.len() <= s.len(),
        spec_xref_entries(s, acc).1.len() >= acc.len(),
    decreases s.len(),
{
    if let Ok((r, e)) = spec_parse_xref_entry(s) {
        if r.len() < s.len() {
            lemma_xref_entries_rest(r, acc.push(e));
        }
    }
}

} // verus!
