use pab_converter::convert::{
    convert, convert_ohh_content, convert_with_format, emit, greet, sniff_format, validate, ConversionError,
};
use pab_converter::decimal::{decimal_chars, parse_decimal};
use pab_converter::document::{Document, Record, SourceFormat};
use pab_converter::parser::{parse, SyntaxError};

fn syntax_error(r: Result<String, ConversionError>) -> SyntaxError {
    match r {
        Err(ConversionError::Syntax(e)) => e,
        other => panic!("expected a syntax error, got {:?}", other),
    }
}

#[test]
fn single_record_converts_to_json_line() {
    let out = convert("record a 3").unwrap();
    assert_eq!(out, "{\"id\":\"a\",\"value\":3}\n");
}

#[test]
fn several_records_keep_their_order() {
    let out = convert("record first 10\nrecord second 0\nrecord x_y-Z 18446744073709551615\n").unwrap();
    assert_eq!(
        out,
        "{\"id\":\"first\",\"value\":10}\n{\"id\":\"second\",\"value\":0}\n{\"id\":\"x_y-Z\",\"value\":18446744073709551615}\n"
    );
}

#[test]
fn empty_input_is_a_syntax_error() {
    assert_eq!(syntax_error(convert("")), SyntaxError { line: 1, offset: 0, column: 1 });
}

#[test]
fn blank_input_is_a_syntax_error() {
    assert_eq!(syntax_error(convert(" \n\t\r\n")), SyntaxError { line: 1, offset: 0, column: 1 });
}

#[test]
fn trailing_whitespace_is_ignored() {
    let out = convert("record a 3\n\n   \n").unwrap();
    assert_eq!(out, "{\"id\":\"a\",\"value\":3}\n");
}

#[test]
fn unknown_top_level_construct_is_rejected() {
    assert_eq!(syntax_error(convert("widget a 3")), SyntaxError { line: 1, offset: 0, column: 1 });
    assert_eq!(
        syntax_error(convert("record a 3\nsection b 4\n")),
        SyntaxError { line: 2, offset: 11, column: 1 }
    );
}

#[test]
fn malformed_records_are_rejected() {
    assert_eq!(syntax_error(convert("record  3")).line, 1);
    assert_eq!(syntax_error(convert("record a")).line, 1);
    assert_eq!(syntax_error(convert("record a 03")).line, 1);
    assert_eq!(syntax_error(convert("record a -3")).line, 1);
    assert_eq!(syntax_error(convert("record a 18446744073709551616")).line, 1);
    assert_eq!(syntax_error(convert("record a 3x")).line, 1);
    assert_eq!(syntax_error(convert("record a 3\n\nrecord b 4")), SyntaxError { line: 2, offset: 11, column: 1 });
}

#[test]
fn syntax_errors_point_at_the_breaking_token() {
    assert_eq!(syntax_error(convert("recxrd a 3")).column, 4);
    assert_eq!(syntax_error(convert("record  3")).column, 8);
    assert_eq!(syntax_error(convert("record a:3")).column, 9);
    assert_eq!(syntax_error(convert("record a 03")).column, 10);
    assert_eq!(syntax_error(convert("record a 3\nrecord b x")), SyntaxError { line: 2, offset: 11, column: 10 });
    assert_eq!(
        syntax_error(convert("{\"id\":\"a\",\"valu\":3}")),
        SyntaxError { line: 1, offset: 0, column: 16 }
    );
}

#[test]
fn repeated_id_is_a_semantic_error() {
    match convert("record a 1\nrecord b 2\nrecord a 3") {
        Err(ConversionError::Semantic(e)) => {
            assert_eq!(e.line, 3);
            assert_eq!(e.id, "a");
        }
        other => panic!("expected a semantic error, got {:?}", other),
    }
}

#[test]
fn conversion_is_deterministic() {
    for input in ["record a 3\nrecord b 4", "", "record a 1\nrecord a 1", "oops"] {
        let first = convert(input);
        let second = convert(input);
        match (first, second) {
            (Ok(a), Ok(b)) => assert_eq!(a, b),
            (Err(a), Err(b)) => assert_eq!(a.message(), b.message()),
            _ => panic!("two conversions of one input differ"),
        }
    }
}

#[test]
fn error_messages() {
    let e = convert("record a 3\nnope").unwrap_err();
    assert_eq!(e.message(), "syntax error at line 2: not a record");
    let e = convert("record a 1\nrecord a 2").unwrap_err();
    assert_eq!(e.message(), "duplicate record id a at line 2");
    assert_eq!(
        convert_ohh_content(""),
        Err("conversion failed: syntax error at line 1: not a record".to_string())
    );
    assert_eq!(convert_ohh_content("record z 7"), Ok("{\"id\":\"z\",\"value\":7}\n".to_string()));
}

#[test]
fn json_and_plain_sources() {
    let json = convert_with_format(SourceFormat::Json, "{\"id\":\"x\",\"value\":10}\n{\"id\":\"y\",\"value\":2}").unwrap();
    assert_eq!(json, "{\"id\":\"x\",\"value\":10}\n{\"id\":\"y\",\"value\":2}\n");
    let plain = convert_with_format(SourceFormat::Plain, "record x 10").unwrap();
    assert_eq!(plain, "{\"id\":\"x\",\"value\":10}\n");
    assert!(convert_with_format(SourceFormat::Json, "record x 10").is_err());
    assert!(convert_with_format(SourceFormat::Native, "{\"id\":\"x\",\"value\":10}").is_err());
}

#[test]
fn emitted_document_parses_back() {
    let doc = Document {
        records: vec![
            Record { id: "alpha".to_string(), value: 0 },
            Record { id: "b-2".to_string(), value: 42 },
            Record { id: "alpha".to_string(), value: u64::MAX },
        ],
    };
    let text = emit(&doc);
    let back = parse(SourceFormat::Json, &text).unwrap();
    assert_eq!(back.records.len(), 3);
    for (a, b) in doc.records.iter().zip(back.records.iter()) {
        assert_eq!(a.id, b.id);
        assert_eq!(a.value, b.value);
    }
}

#[test]
fn validate_reports_first_repeat() {
    let doc = Document {
        records: vec![
            Record { id: "a".to_string(), value: 1 },
            Record { id: "b".to_string(), value: 1 },
            Record { id: "b".to_string(), value: 2 },
            Record { id: "a".to_string(), value: 3 },
        ],
    };
    let e = validate(&doc).unwrap_err();
    assert_eq!(e.line, 3);
    assert_eq!(e.id, "b");
    assert!(validate(&Document { records: vec![Record { id: "a".to_string(), value: 1 }] }).is_ok());
}

#[test]
fn decimals() {
    let s: String = decimal_chars(0).into_iter().collect();
    assert_eq!(s, "0");
    let s: String = decimal_chars(1234).into_iter().collect();
    assert_eq!(s, "1234");
    let v: Vec<char> = "x907y".chars().collect();
    assert_eq!(parse_decimal(&v, 1, 4), Some(907));
    assert_eq!(parse_decimal(&v, 1, 1), None);
    assert_eq!(parse_decimal(&v, 0, 4), None);
}

#[test]
fn emitted_json_converts_through_content_entry_point() {
    let doc = Document {
        records: vec![
            Record { id: "a".to_string(), value: 3 },
            Record { id: "b".to_string(), value: 40 },
        ],
    };
    let text = emit(&doc);
    assert_eq!(convert_ohh_content(&text), Ok(text.clone()));
    assert_eq!(syntax_error(convert("  \n{\"id\":\"a\",\"value\":3}")), SyntaxError { line: 1, offset: 0, column: 1 });
}

#[test]
fn sniffing_picks_the_grammar() {
    assert_eq!(sniff_format("{\"id\":\"a\",\"value\":3}"), SourceFormat::Json);
    assert_eq!(sniff_format(" \t\n{"), SourceFormat::Json);
    assert_eq!(sniff_format("record a 3"), SourceFormat::Native);
    assert_eq!(sniff_format(""), SourceFormat::Native);
    assert_eq!(sniff_format("   "), SourceFormat::Native);
}

#[test]
fn greets_by_name() {
    assert_eq!(greet("World"), "Hello, World! You've been greeted from Rust!");
}
