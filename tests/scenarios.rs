use pdf_parser::error::ParseError;
use pdf_parser::object::{CrossReferenceEntry, CrossReferenceTable, Header, Object, Trailer, PDF};
use pdf_parser::utils::{digit1_i32, digit1_u32, digit1_u32_validate_length, float_f32, take_bracketed};

#[test]
fn object_remainder_parses_again() {
    let (rest, first) = Object::parse(b"true false").unwrap();
    assert!(matches!(first, Object::Boolean(true)));
    assert_eq!(rest, b"false");
    let (rest, second) = Object::parse(rest).unwrap();
    assert!(matches!(second, Object::Boolean(false)));
    assert_eq!(rest, b"");
}

#[test]
fn nested_parentheses_come_back_intact() {
    let (rest, obj) = Object::parse_literal_string(b"(a(b(c)d)e)").unwrap();
    assert_eq!(rest, b"");
    match obj {
        Object::LiteralString(s) => assert_eq!(s, "a(b(c)d)e"),
        _ => panic!("Expected Object::LiteralString"),
    }
    let (rest, inner) = take_bracketed(b"a(b(c)d)e) tail", b'(', b')').unwrap();
    assert_eq!(inner, b"a(b(c)d)e");
    assert_eq!(rest, b") tail");
}

#[test]
fn bracket_scanner_without_closing_byte() {
    let (rest, inner) = take_bracketed(b"a(b)c", b'(', b')').unwrap();
    assert_eq!(inner, b"a(b)c");
    assert_eq!(rest, b"");
    let (rest, inner) = take_bracketed(b")", b'(', b')').unwrap();
    assert_eq!(inner, b"");
    assert_eq!(rest, b")");
}

#[test]
fn unbalanced_literal_string_fails() {
    let input = b"(a(b";
    assert_eq!(Object::parse_literal_string(input).unwrap_err(), ParseError::UnbalancedDelimiter);
    assert_eq!(take_bracketed(b"a(b", b'(', b')').unwrap_err(), ParseError::UnbalancedDelimiter);
    assert_eq!(input, b"(a(b");
}

fn xref_input(entries: usize, malformed_tail: bool) -> Vec<u8> {
    let mut text = String::from("xref\n0 51\n");
    for i in 0..entries {
        if i % 2 == 0 {
            text.push_str("0000000000 65535 f \n");
        } else {
            text.push_str(&format!("{:010} 00000 n \n", 100 + i));
        }
    }
    if malformed_tail {
        text.push_str("00000 65535 f \n");
    }
    text.push_str("trailer");
    text.into_bytes()
}

#[test]
fn xref_table_with_declared_count() {
    let input = xref_input(51, false);
    let (rest, table) = CrossReferenceTable::parse(&input).unwrap();
    assert_eq!(rest, b"trailer");
    assert_eq!(table.count, 51);
    assert_eq!(table.entries.len(), 51);
    assert_eq!(table.entries[1].offset, 101);
    assert!(!table.entries[1].free);
    assert!(table.entries[50].free);
}

#[test]
fn xref_table_one_entry_short() {
    let input = xref_input(50, true);
    assert_eq!(CrossReferenceTable::parse(&input).unwrap_err(), ParseError::InvalidPDFXrefTable);
}

#[test]
fn xref_entries_stop_at_first_bad_line() {
    let input = b"0000000015 00000 n\n0000000107 00000 n\nxx";
    let (rest, entries) = CrossReferenceEntry::parse_entries(input).unwrap();
    assert_eq!(rest, b"xx");
    assert_eq!(entries.len(), 2);
    assert_eq!(entries[0].offset, 15);
    assert_eq!(entries[1].offset, 107);
}

#[test]
fn null_through_object_parser() {
    let (rest, obj) = Object::parse(b"null").unwrap();
    assert!(matches!(obj, Object::Null));
    assert_eq!(rest, b"");
    let (rest, obj) = Object::parse(b"null THIS_REMAINS").unwrap();
    assert!(matches!(obj, Object::Null));
    assert_eq!(rest, b"THIS_REMAINS");
}

#[test]
fn indirect_object_with_two_entries() {
    let input = b"8 0 obj << /Type /Annot /Rect [400 400 600 600] >> endobj";
    let (rest, obj) = Object::parse(input).unwrap();
    assert_eq!(rest, b"");
    match obj {
        Object::IndirectObject { id, generation, dictionary } => {
            assert_eq!(id, 8);
            assert_eq!(generation, 0);
            match *dictionary {
                Object::Dictionary(d, s) => {
                    assert_eq!(d.len(), 2);
                    assert_eq!(s, "");
                    assert_eq!(d[0].0 .0, "Type");
                    assert!(matches!(d[0].1, Object::Name(n) if n.0 == "Annot"));
                    assert_eq!(d[1].0 .0, "Rect");
                    match &d[1].1 {
                        Object::Array(a) => {
                            assert_eq!(a.len(), 4);
                            assert!(matches!(a[0], Object::Integer(400)));
                            assert!(matches!(a[3], Object::Integer(600)));
                        }
                        _ => panic!("Expected Object::Array"),
                    }
                }
                _ => panic!("Expected Object::Dictionary"),
            }
        }
        _ => panic!("Expected Object::IndirectObject"),
    }
}

#[test]
fn minimal_document() {
    let input = b"%PDF-1.7\n1 0 obj\n<< /Type /Catalog >>\nendobj\nxref\n0 1\n0000000000 65535 f \ntrailer\n<< /Root 1 0 R >>\nstartxref\n45\n%%EOF\n";
    let (rest, pdf) = PDF::parse(input).unwrap();
    assert_eq!(rest, b"");
    assert_eq!(pdf.header, Header { major: 1, minor: 7 });
    assert_eq!(pdf.body.len(), 1);
    assert_eq!(pdf.cross_reference_tables.len(), 1);
    assert_eq!(pdf.cross_reference_tables[0].entries.len(), 1);
    assert_eq!(pdf.trailer.startxref, 45);
    match pdf.trailer.dictionary {
        Object::Dictionary(d, _) => {
            assert_eq!(d.len(), 1);
            assert!(matches!(d[0].1, Object::IndirectReference { id: 1, generation: 0 }));
        }
        _ => panic!("Expected Object::Dictionary"),
    }
}

#[test]
fn document_with_leading_comment_and_stream() {
    let input = b"%PDF-1.4\n% a comment\n2 0 obj\n<< /Length 6 >>\nstream\nhello\nendstream\nendobj\ntrailer\n<< >>\nstartxref\n0\n%%EOF";
    let (_, pdf) = PDF::parse(input).unwrap();
    assert_eq!(pdf.header.minor, 4);
    assert_eq!(pdf.body.len(), 1);
    assert_eq!(pdf.cross_reference_tables.len(), 0);
    match &pdf.body[0] {
        Object::IndirectObject { dictionary, .. } => match &**dictionary {
            Object::Dictionary(d, s) => {
                assert_eq!(d.len(), 1);
                assert_eq!(*s, "hello\n");
            }
            _ => panic!("Expected Object::Dictionary"),
        },
        _ => panic!("Expected Object::IndirectObject"),
    }
}

#[test]
fn document_out_of_order_fails() {
    let input = b"%PDF-1.7\ntrailer\n<< >>\nstartxref\n0\n%%EOF\n1 0 obj << >> endobj";
    assert!(PDF::parse(input).is_err());
}

#[test]
fn trailer_with_trailing_bytes_fails() {
    assert_eq!(
        Trailer::parse(b"trailer\n<< >>\nstartxref\n5\n%%EOF\nextra").unwrap_err(),
        ParseError::Mismatch
    );
    let (rest, trailer) = Trailer::parse(b"trailer << /Size 3 >> startxref 5 %%EOF").unwrap();
    assert_eq!(rest, b"");
    assert_eq!(trailer.startxref, 5);
}

#[test]
fn fixed_width_digits() {
    assert_eq!(digit1_u32_validate_length(b"0000000107 00000 n", 10).unwrap(), (&b" 00000 n"[..], 107));
    assert_eq!(
        digit1_u32_validate_length(b"0000000107", 5).unwrap_err(),
        ParseError::InvalidFixedWidthField
    );
    assert_eq!(digit1_u32_validate_length(b"123", 0).unwrap(), (&b""[..], 123));
    assert_eq!(digit1_u32_validate_length(b"x", 0).unwrap_err(), ParseError::Mismatch);
    assert_eq!(
        CrossReferenceEntry::parse(b"000000000 65535 f").unwrap_err(),
        ParseError::InvalidFixedWidthField
    );
}

#[test]
fn numbers_out_of_range() {
    assert_eq!(digit1_u32(b"4294967295").unwrap().1, u32::MAX);
    assert_eq!(digit1_u32(b"4294967296").unwrap_err(), ParseError::ParseIntError);
    assert_eq!(digit1_i32(b"-2147483648").unwrap().1, i32::MIN);
    assert_eq!(digit1_i32(b"+2147483647").unwrap().1, i32::MAX);
    assert_eq!(digit1_i32(b"2147483648").unwrap_err(), ParseError::ParseIntError);
    assert_eq!(digit1_i32(b"+x").unwrap_err(), ParseError::Mismatch);
    match Object::parse_numeric(b"2147483648").unwrap().1 {
        Object::Real(t) => assert_eq!(t, "2147483648"),
        _ => panic!("Expected Object::Real"),
    }
}

#[test]
fn real_literal_shapes() {
    assert_eq!(float_f32(b".5 x").unwrap(), (&b" x"[..], ".5"));
    assert_eq!(float_f32(b"-12. x").unwrap(), (&b" x"[..], "-12."));
    assert_eq!(float_f32(b"1.2.3").unwrap(), (&b".3"[..], "1.2"));
    assert_eq!(float_f32(b".").unwrap_err(), ParseError::Mismatch);
    assert_eq!(float_f32(b"-").unwrap_err(), ParseError::Mismatch);
}

#[test]
fn invalid_text_is_rejected() {
    assert_eq!(Object::parse_literal_string(b"(\xff)").unwrap_err(), ParseError::UTF8Error);
    assert_eq!(Object::parse_name(b"/\xfe").unwrap_err(), ParseError::UTF8Error);
}

#[test]
fn nothing_matches() {
    assert_eq!(Object::parse(b"@").unwrap_err(), ParseError::InvalidPDFObject);
    assert_eq!(Object::parse(b"").unwrap_err(), ParseError::InvalidPDFObject);
    assert_eq!(Object::parse_null(b"nul").unwrap_err(), ParseError::Mismatch);
}

#[test]
fn empty_containers() {
    match Object::parse_array(b"[]").unwrap() {
        (rest, Object::Array(a)) => {
            assert_eq!(rest, b"");
            assert_eq!(a.len(), 0);
        }
        _ => panic!("Expected Object::Array"),
    }
    match Object::parse_array(b"[ ]").unwrap().1 {
        Object::Array(a) => assert_eq!(a.len(), 0),
        _ => panic!("Expected Object::Array"),
    }
    match Object::parse_dictionary(b"<<>>").unwrap().1 {
        Object::Dictionary(d, s) => {
            assert_eq!(d.len(), 0);
            assert_eq!(s, "");
        }
        _ => panic!("Expected Object::Dictionary"),
    }
    match Object::parse_dictionary(b"<< >>").unwrap().1 {
        Object::Dictionary(d, _) => assert_eq!(d.len(), 0),
        _ => panic!("Expected Object::Dictionary"),
    }
}

#[test]
fn repeated_key_keeps_last_value() {
    match Object::parse_dictionary(b"<< /A 1 /B 2 /A 3 >>").unwrap().1 {
        Object::Dictionary(d, _) => {
            assert_eq!(d.len(), 2);
            assert_eq!(d[0].0 .0, "A");
            assert!(matches!(d[0].1, Object::Integer(3)));
            assert_eq!(d[1].0 .0, "B");
        }
        _ => panic!("Expected Object::Dictionary"),
    }
}

#[test]
fn nested_dictionary_value() {
    match Object::parse(b"<< /Inner << /X 1 >> /Y (s) >>").unwrap().1 {
        Object::Dictionary(d, _) => {
            assert_eq!(d.len(), 2);
            assert!(matches!(&d[0].1, Object::Dictionary(inner, _) if inner.len() == 1));
            assert!(matches!(d[1].1, Object::LiteralString("s")));
        }
        _ => panic!("Expected Object::Dictionary"),
    }
}

#[test]
fn stream_payload() {
    let (rest, payload) = Object::parse_stream(b"stream\nabc\ndef\nendstream\nnext").unwrap();
    assert_eq!(payload, "abc\ndef\n");
    assert_eq!(rest, b"next");
    assert_eq!(Object::parse_stream(b"stream\nabc").unwrap_err(), ParseError::Mismatch);
}

#[test]
fn header_needs_separator() {
    assert_eq!(Header::parse(b"%PDF-1.7x").unwrap_err(), ParseError::Mismatch);
    assert_eq!(Header::parse(b"%PDF-2.0 ").unwrap(), (&b""[..], Header { major: 2, minor: 0 }));
}

#[test]
fn comment_is_kept() {
    match Object::parse(b"%note\n1").unwrap() {
        (rest, Object::Comment(c)) => {
            assert_eq!(c, "note");
            assert_eq!(rest, b"1");
        }
        _ => panic!("Expected Object::Comment"),
    }
}
