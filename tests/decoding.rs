use nanopdb::decode::{
    parse_decimal, parse_signed, parse_unsigned, raw_text, text_field, trim_bounds, Decimal,
};
use nanopdb::error::{FetchError, ParseError};
use nanopdb::parser::{download_url, Parser};

fn chars(s: &str) -> Vec<char> {
    s.chars().collect()
}

fn dec(value: i64, scale: usize) -> Decimal {
    Decimal { negative: value < 0, magnitude: value.unsigned_abs(), scale }
}

#[test]
fn unsigned_fields() {
    let line = chars("ATOM     42  N");
    assert_eq!(parse_unsigned(&line, 3, 6, 11), Ok(42));
    let line = chars("   +7 ");
    assert_eq!(parse_unsigned(&line, 3, 0, 6), Ok(7));
    let line = chars("  -7 ");
    assert_eq!(parse_unsigned(&line, 3, 0, 5), Err(ParseError::FieldParse { line: 3 }));
    let line = chars("     ");
    assert_eq!(parse_unsigned(&line, 4, 0, 5), Err(ParseError::FieldParse { line: 4 }));
    let line = chars("99999999999999999999999");
    assert_eq!(parse_unsigned(&line, 5, 0, 23), Err(ParseError::FieldParse { line: 5 }));
}

#[test]
fn signed_fields() {
    let line = chars("  -12");
    assert_eq!(parse_signed(&line, 1, 0, 5), Ok(-12));
    let line = chars(" 1 0");
    assert_eq!(parse_signed(&line, 8, 0, 4), Err(ParseError::FieldParse { line: 8 }));
    let line = chars("-");
    assert_eq!(parse_signed(&line, 2, 0, 1), Err(ParseError::FieldParse { line: 2 }));
    let min = format!("{}", isize::MIN);
    let line = chars(&min);
    assert_eq!(parse_signed(&line, 1, 0, line.len()), Ok(isize::MIN));
}

#[test]
fn decimal_fields() {
    let line = chars("  38.198 -0.5 7 .25 3.");
    assert_eq!(parse_decimal(&line, 1, 0, 8), Ok(dec(38198, 3)));
    assert_eq!(parse_decimal(&line, 1, 8, 13), Ok(dec(-5, 1)));
    assert_eq!(parse_decimal(&line, 1, 13, 15), Ok(dec(7, 0)));
    assert_eq!(parse_decimal(&line, 1, 15, 19), Ok(dec(25, 2)));
    assert_eq!(parse_decimal(&line, 1, 19, 22), Ok(dec(3, 0)));
    let bad = chars(" 1.2.3 . 1e5");
    assert_eq!(parse_decimal(&bad, 6, 0, 6), Err(ParseError::FieldParse { line: 6 }));
    assert_eq!(parse_decimal(&bad, 6, 6, 8), Err(ParseError::FieldParse { line: 6 }));
    assert_eq!(parse_decimal(&bad, 6, 8, 12), Ok(dec(100000, 0)));
}

#[test]
fn decimal_text() {
    assert_eq!(dec(38198, 3).to_text(), "38.198");
    assert_eq!(dec(-5, 1).to_text(), "-0.5");
    assert_eq!(dec(7, 0).to_text(), "7");
    assert_eq!(dec(100, 2).to_text(), "1.00");
    assert_eq!(dec(0, 3).to_text(), "0.000");
    assert_eq!(dec(-28222, 3).to_text(), "-28.222");
}

#[test]
fn decimal_round_trip() {
    for text in ["38.198", "-28.222", "1.00", "0.000", "-0.000", "7", "-0.5", "123456.789012"] {
        let line = chars(text);
        let d = parse_decimal(&line, 1, 0, line.len()).unwrap();
        assert_eq!(d.to_text(), text);
        let again = chars(&d.to_text());
        assert_eq!(parse_decimal(&again, 1, 0, again.len()), Ok(d));
    }
}

#[test]
fn trimming() {
    let line = chars(" \t LIPID  BINDING \u{a0} ");
    let (a, b) = trim_bounds(&line, 0, line.len());
    assert_eq!((a, b), (3, 17));
    assert_eq!(text_field(&line, 0, line.len()), "LIPID  BINDING");
    assert_eq!(raw_text(&line, 3, 8), "LIPID");
    assert_eq!(text_field(&line, 0, 3), "");
}

#[test]
fn url_is_lowercased() {
    assert_eq!(download_url("1ZHY"), "https://files.rcsb.org/download/1zhy.pdb");
}

#[test]
fn fetch_status_and_body() {
    let parser = Parser::__new__();
    assert_eq!(parser.fetch(404, "").unwrap_err(), FetchError::Status { status: 404 });
    assert_eq!(
        parser.fetch(200, "END").unwrap_err(),
        FetchError::Parse { error: ParseError::LabelTooShort { line: 1 } }
    );
    let header = "HEADER    LIPID BINDING PROTEIN                   26-APR-05   1ZHY";
    let s = parser.fetch(200, header).unwrap();
    assert_eq!(s.pdbid().as_str(), "1ZHY");
}

#[test]
fn decimal_exponents() {
    let cases: [(&str, Result<Decimal, ParseError>); 11] = [
        ("1.5e2", Ok(dec(150, 0))),
        ("1.5E-3", Ok(dec(15, 4))),
        ("-2.25e1", Ok(dec(-225, 1))),
        ("+7e+0", Ok(dec(7, 0))),
        ("0e999", Ok(dec(0, 0))),
        ("9e18", Ok(dec(9_000_000_000_000_000_000, 0))),
        ("1e19", Ok(Decimal { negative: false, magnitude: 10_000_000_000_000_000_000, scale: 0 })),
        ("1e20", Err(ParseError::FieldParse { line: 2 })),
        ("1e", Err(ParseError::FieldParse { line: 2 })),
        ("e5", Err(ParseError::FieldParse { line: 2 })),
        ("1e99999999999999999999", Err(ParseError::FieldParse { line: 2 })),
    ];
    for (text, expected) in cases {
        let line = chars(text);
        assert_eq!(parse_decimal(&line, 2, 0, line.len()), expected, "{}", text);
    }
}

#[test]
fn infinities_are_not_decimals() {
    for text in ["inf", "-inf", "NaN", "infinity"] {
        let line = chars(text);
        assert_eq!(
            parse_decimal(&line, 3, 0, line.len()),
            Err(ParseError::FieldParse { line: 3 })
        );
    }
}

#[test]
fn negative_zero_keeps_its_sign() {
    let line = chars("  -0.00 ");
    let d = parse_decimal(&line, 1, 0, line.len()).unwrap();
    assert_eq!(d, Decimal { negative: true, magnitude: 0, scale: 2 });
    assert_eq!(d.to_text(), "-0.00");
    let plain = chars("0.00");
    let z = parse_decimal(&plain, 1, 0, plain.len()).unwrap();
    assert_eq!(z, Decimal { negative: false, magnitude: 0, scale: 2 });
    assert_eq!(z.to_text(), "0.00");
}

#[test]
fn integer_round_trip() {
    for text in ["0", "7", "-42", "9999", "-9223372036854775808"] {
        let line = chars(text);
        let v = parse_signed(&line, 1, 0, line.len()).unwrap();
        assert_eq!(v.to_string(), text);
    }
    for text in ["0", "12345", "18446744073709551615"] {
        let line = chars(text);
        let v = parse_unsigned(&line, 1, 0, line.len()).unwrap();
        assert_eq!(v.to_string(), text);
    }
}
