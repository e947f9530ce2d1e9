use ijson_rust::errors::Error;
use ijson_rust::lexer::{is_whitespace, Lexeme, Lexer, Number};
use ijson_rust::source::SliceSource;

fn lexemes(data: &[u8]) -> Vec<Result<Lexeme, Error>> {
    let mut lexer = Lexer::new(SliceSource::new(data.to_vec()));
    let mut out = Vec::new();
    while let Some(item) = lexer.next() {
        out.push(item);
    }
    out
}

fn number(data: &[u8]) -> Result<Lexeme, Error> {
    let mut all = lexemes(data);
    assert_eq!(all.len(), 1);
    all.pop().unwrap()
}

fn as_float(n: Number) -> f64 {
    if n.exponent == 0 {
        n.mantissa as f64
    } else if n.exponent < 0 {
        n.mantissa as f64 / (10.0f64).powi(-n.exponent as i32)
    } else {
        n.mantissa as f64 * (10.0f64).powi(n.exponent as i32)
    }
}

fn float_of(data: &[u8]) -> f64 {
    match number(data) {
        Ok(Lexeme::Number(n)) => as_float(n),
        other => panic!("not a number: {:?}", other),
    }
}

#[test]
fn whitespace_bytes() {
    for b in 0u8..=255 {
        assert_eq!(is_whitespace(b), b == 9 || b == 10 || b == 13 || b == 32);
    }
}

#[test]
fn punctuation_and_keywords() {
    assert_eq!(
        lexemes(b" { } [ ] , : true false null\t\r\n"),
        vec![
            Ok(Lexeme::OBrace),
            Ok(Lexeme::CBrace),
            Ok(Lexeme::OBracket),
            Ok(Lexeme::CBracket),
            Ok(Lexeme::Comma),
            Ok(Lexeme::Colon),
            Ok(Lexeme::Boolean(true)),
            Ok(Lexeme::Boolean(false)),
            Ok(Lexeme::Null),
        ]
    );
}

#[test]
fn empty_input_has_no_lexeme() {
    assert_eq!(lexemes(b""), vec![]);
    assert_eq!(lexemes(b"  \n\t "), vec![]);
}

#[test]
fn number_values() {
    assert_eq!(float_of(b"1e2"), 100.0);
    assert_eq!(float_of(b"0.5"), 0.5);
    assert_eq!(float_of(b"10000000000"), 10000000000.0);
    assert_eq!(float_of(b"-12"), -12.0);
    assert_eq!(float_of(b"2.5E+1"), 25.0);
    assert_eq!(float_of(b"25e-1"), 2.5);
}

#[test]
fn number_parts() {
    assert_eq!(number(b"1e2"), Ok(Lexeme::Number(Number { mantissa: 1, exponent: 2 })));
    assert_eq!(number(b"0.5"), Ok(Lexeme::Number(Number { mantissa: 5, exponent: -1 })));
    assert_eq!(
        number(b"10000000000"),
        Ok(Lexeme::Number(Number { mantissa: 10000000000, exponent: 0 }))
    );
    assert_eq!(number(b"-1.25e-3"), Ok(Lexeme::Number(Number { mantissa: -125, exponent: -5 })));
    assert_eq!(number(b"+7"), Ok(Lexeme::Number(Number { mantissa: 7, exponent: 0 })));
    assert_eq!(number(b".5"), Ok(Lexeme::Number(Number { mantissa: 5, exponent: -1 })));
    assert_eq!(number(b"5."), Ok(Lexeme::Number(Number { mantissa: 5, exponent: 0 })));
    assert_eq!(number(b"007"), Ok(Lexeme::Number(Number { mantissa: 7, exponent: 0 })));
    assert_eq!(number(b"1E5"), Ok(Lexeme::Number(Number { mantissa: 1, exponent: 5 })));
}

#[test]
fn malformed_numbers() {
    assert_eq!(number(b"-"), Err(Error::Unknown(None)));
    assert_eq!(number(b"+"), Err(Error::Unknown(None)));
    assert_eq!(number(b"1e"), Err(Error::Unknown(None)));
    assert_eq!(number(b"1e+"), Err(Error::Unknown(None)));
    assert_eq!(lexemes(b"-x"), vec![Err(Error::Unknown(None))]);
    assert_eq!(lexemes(b"1ex"), vec![Err(Error::Unknown(None))]);
}

#[test]
fn number_limits() {
    assert_eq!(
        number(b"9223372036854775807"),
        Ok(Lexeme::Number(Number { mantissa: i64::MAX, exponent: 0 }))
    );
    assert_eq!(
        number(b"-9223372036854775807"),
        Ok(Lexeme::Number(Number { mantissa: -i64::MAX, exponent: 0 }))
    );
    assert_eq!(
        number(b"9223372036854775808"),
        Ok(Lexeme::Number(Number { mantissa: 922337203685477580, exponent: 1 }))
    );
    assert_eq!(
        number(b"0.00000000000000000000000001"),
        Ok(Lexeme::Number(Number { mantissa: 1, exponent: -26 }))
    );
}

#[test]
fn long_numbers_keep_their_leading_digits() {
    assert_eq!(
        number(b"100000000000000000000"),
        Ok(Lexeme::Number(Number { mantissa: 1000000000000000000, exponent: 2 }))
    );
    assert_eq!(float_of(b"100000000000000000000"), 1e20);
    assert_eq!(
        number(b"3.141592653589793238462643"),
        Ok(Lexeme::Number(Number { mantissa: 3141592653589793238, exponent: -18 }))
    );
    assert!((float_of(b"3.141592653589793238462643") - std::f64::consts::PI).abs() < 1e-15);
    assert_eq!(
        number(b"-12345678901234567890123.456e2"),
        Ok(Lexeme::Number(Number { mantissa: -1234567890123456789, exponent: 6 }))
    );
    assert_eq!(
        number(b"99999999999999999999"),
        Ok(Lexeme::Number(Number { mantissa: 999999999999999999, exponent: 2 }))
    );
    assert_eq!(
        number(b"0000000000000000000000000000000017"),
        Ok(Lexeme::Number(Number { mantissa: 17, exponent: 0 }))
    );
    assert_eq!(
        number(b"0.000000000000000000000000000012345678901234567890123"),
        Ok(Lexeme::Number(Number { mantissa: 1234567890123456789, exponent: -47 }))
    );
}

#[test]
fn exponents_stop_at_the_ends_of_the_range() {
    assert_eq!(
        number(b"1e9223372036854775807"),
        Ok(Lexeme::Number(Number { mantissa: 1, exponent: i64::MAX }))
    );
    assert_eq!(
        number(b"1e9223372036854775808"),
        Ok(Lexeme::Number(Number { mantissa: 1, exponent: i64::MAX }))
    );
    assert_eq!(
        number(b"1e99999999999999999999999999"),
        Ok(Lexeme::Number(Number { mantissa: 1, exponent: i64::MAX }))
    );
    assert_eq!(
        number(b"1e-99999999999999999999999999"),
        Ok(Lexeme::Number(Number { mantissa: 1, exponent: -i64::MAX }))
    );
    assert_eq!(
        number(b"0.1e-9223372036854775807"),
        Ok(Lexeme::Number(Number { mantissa: 1, exponent: i64::MIN }))
    );
    assert_eq!(
        number(b"0.01e-9223372036854775807"),
        Ok(Lexeme::Number(Number { mantissa: 1, exponent: i64::MIN }))
    );
    assert_eq!(
        number(b"100000000000000000000e9223372036854775807"),
        Ok(Lexeme::Number(Number { mantissa: 1000000000000000000, exponent: i64::MAX }))
    );
    assert_eq!(float_of(b"1e400"), f64::INFINITY);
    assert_eq!(float_of(b"1e-400"), 0.0);
}

#[test]
fn number_ends_at_other_byte() {
    assert_eq!(
        lexemes(b"12,3"),
        vec![
            Ok(Lexeme::Number(Number { mantissa: 12, exponent: 0 })),
            Ok(Lexeme::Comma),
            Ok(Lexeme::Number(Number { mantissa: 3, exponent: 0 })),
        ]
    );
}

#[test]
fn plain_strings() {
    assert_eq!(lexemes(br#""""#), vec![Ok(Lexeme::String("".to_string()))]);
    assert_eq!(lexemes(br#""value""#), vec![Ok(Lexeme::String("value".to_string()))]);
    assert_eq!(
        lexemes("\"строка - тест\"".as_bytes()),
        vec![Ok(Lexeme::String("строка - тест".to_string()))]
    );
}

#[test]
fn escapes() {
    assert_eq!(
        lexemes(br#""\"\\\/\b\f\n\r\t""#),
        vec![Ok(Lexeme::String("\"\\/\u{8}\u{c}\n\r\t".to_string()))]
    );
    assert_eq!(lexemes(br#""\u0041""#), vec![Ok(Lexeme::String("A".to_string()))]);
    assert_eq!(lexemes(br#""\u00e9""#), vec![Ok(Lexeme::String("\u{e9}".to_string()))]);
    assert_eq!(lexemes(br#""\u00E9""#), vec![Ok(Lexeme::String("\u{e9}".to_string()))]);
    assert_eq!(lexemes(br#""\u20ac""#), vec![Ok(Lexeme::String("\u{20ac}".to_string()))]);
    assert_eq!(lexemes(br#""\uffff""#), vec![Ok(Lexeme::String("\u{ffff}".to_string()))]);
    assert_eq!(lexemes(br#""\u0000""#), vec![Ok(Lexeme::String("\u{0}".to_string()))]);
    assert_eq!(lexemes(br#""a\u0062c""#), vec![Ok(Lexeme::String("abc".to_string()))]);
}

#[test]
fn malformed_escapes() {
    assert_eq!(lexemes(br#""\w""#), vec![Err(Error::Escape(Some(b'w')))]);
    assert_eq!(lexemes(br#""\u""#), vec![Err(Error::Escape(None))]);
    assert_eq!(lexemes(br#""\u0""#), vec![Err(Error::Escape(None))]);
    assert_eq!(lexemes(br#""\u00g0""#), vec![Err(Error::Escape(None))]);
    assert_eq!(lexemes(br#""\uD800""#), vec![Err(Error::Escape(None))]);
    assert_eq!(lexemes(br#""\uDFFF""#), vec![Err(Error::Escape(None))]);
    assert_eq!(lexemes(br#""\uD83D\uDE00""#), vec![Err(Error::Escape(None))]);
    assert_eq!(lexemes(br#""\"#), vec![Err(Error::Escape(None))]);
    assert_eq!(lexemes(br#""\u12"#), vec![Err(Error::Escape(None))]);
}

#[test]
fn unterminated_strings() {
    assert_eq!(lexemes(br#"""#), vec![Err(Error::Unterminated)]);
    assert_eq!(lexemes(br#""abc"#), vec![Err(Error::Unterminated)]);
    assert_eq!(lexemes(br#""a\n"#), vec![Err(Error::Unterminated)]);
}

#[test]
fn invalid_utf8_in_string() {
    assert_eq!(lexemes(&[b'"', 0xff, b'"']), vec![Err(Error::Utf8)]);
    assert_eq!(lexemes(&[b'"', 0xc3, b'"']), vec![Err(Error::Utf8)]);
    assert_eq!(lexemes(&[b'"', 0xed, 0xa0, 0x80, b'"']), vec![Err(Error::Utf8)]);
    assert_eq!(lexemes(&[b'"', 0xc3, 0xa9, b'"']), vec![Ok(Lexeme::String("\u{e9}".to_string()))]);
}

#[test]
fn unknown_lexemes() {
    assert_eq!(lexemes(b"x"), vec![Err(Error::Unknown(Some(b'x')))]);
    assert_eq!(lexemes(b"tru"), vec![Err(Error::Unknown(None))]);
    assert_eq!(lexemes(b"trux"), vec![Err(Error::Unknown(Some(b'x')))]);
    assert_eq!(lexemes(b"nul"), vec![Err(Error::Unknown(None))]);
    assert_eq!(lexemes(b"fals "), vec![Err(Error::Unknown(Some(b' ')))]);
    assert_eq!(lexemes(b"[ @"), vec![Ok(Lexeme::OBracket), Err(Error::Unknown(Some(b'@')))]);
}

#[test]
fn lexer_stops_after_error() {
    let mut lexer = Lexer::new(SliceSource::new(b"x 1 2".to_vec()));
    assert_eq!(lexer.next(), Some(Err(Error::Unknown(Some(b'x')))));
    assert_eq!(lexer.next(), None);
    assert_eq!(lexer.next(), None);
}

#[test]
fn consume_requires_a_lexeme() {
    let mut lexer = Lexer::new(SliceSource::new(b" 1 ".to_vec()));
    assert_eq!(lexer.consume(), Ok(Lexeme::Number(Number { mantissa: 1, exponent: 0 })));
    assert_eq!(lexer.consume(), Err(Error::MoreLexemes));
    assert_eq!(lexer.consume(), Err(Error::MoreLexemes));
}

#[test]
fn tokens_across_buffer_refills() {
    let data = br#"{"a\u00e9\nb": [true, false, null, -12.5e+3, "xyz"]}"#;
    let reference = lexemes(data);
    assert_eq!(reference.len(), 15);
    for capacity in [0usize, 1, 2, 3, 4, 5, 6, 7, 8, 9, 4096] {
        let mut lexer = Lexer::with_capacity(SliceSource::new(data.to_vec()), capacity);
        let mut out = Vec::new();
        while let Some(item) = lexer.next() {
            out.push(item);
        }
        assert_eq!(out, reference);
    }
}

#[test]
fn source_failure_in_the_middle_of_a_lexeme() {
    let mut lexer = Lexer::new(SliceSource::broken(br#""abc"#.to_vec(), 3));
    assert_eq!(lexer.next(), Some(Err(Error::IO(3))));
    assert_eq!(lexer.next(), None);
    let mut lexer = Lexer::new(SliceSource::broken(b"12".to_vec(), 4));
    assert_eq!(lexer.next(), Some(Err(Error::IO(4))));
    let mut lexer = Lexer::new(SliceSource::broken(b"tr".to_vec(), 5));
    assert_eq!(lexer.next(), Some(Err(Error::IO(5))));
    let mut lexer = Lexer::new(SliceSource::broken(b"true".to_vec(), 6));
    assert_eq!(lexer.next(), Some(Ok(Lexeme::Boolean(true))));
    assert_eq!(lexer.next(), Some(Err(Error::IO(6))));
}

#[test]
fn keywords_by_themselves() {
    let mut lexer = Lexer::new(SliceSource::new(b"true,".to_vec()));
    assert_eq!(lexer.check_word(b"true"), Ok(()));
    assert_eq!(lexer.next(), Some(Ok(Lexeme::Comma)));
    let mut lexer = Lexer::new(SliceSource::new(b"tru".to_vec()));
    assert_eq!(lexer.check_word(b"true"), Err(Error::Unknown(None)));
    let mut lexer = Lexer::new(SliceSource::new(b"nulx".to_vec()));
    assert_eq!(lexer.check_word(b"null"), Err(Error::Unknown(Some(b'x'))));
    let mut lexer = Lexer::with_capacity(SliceSource::new(b"false".to_vec()), 2);
    assert_eq!(lexer.check_word(b"false"), Ok(()));
    assert_eq!(lexer.next(), None);
}

#[test]
fn four_hexadecimal_digits() {
    let mut lexer = Lexer::with_capacity(SliceSource::new(b"0041x".to_vec()), 3);
    assert_eq!(lexer.hexdecode(), Ok(0x41));
    assert_eq!(lexer.unread(), Some(1));
    let mut lexer = Lexer::new(SliceSource::new(b"fFfF".to_vec()));
    assert_eq!(lexer.hexdecode(), Ok(0xffff));
    let mut lexer = Lexer::new(SliceSource::new(b"D7FF".to_vec()));
    assert_eq!(lexer.hexdecode(), Ok(0xd7ff));
    let mut lexer = Lexer::new(SliceSource::new(b"E000".to_vec()));
    assert_eq!(lexer.hexdecode(), Ok(0xe000));
    for bad in [&b"D800"[..], b"DFFF", b"dabc", b"", b"0", b"004", b"00g0", b"+041"] {
        let mut lexer = Lexer::new(SliceSource::new(bad.to_vec()));
        assert_eq!(lexer.hexdecode(), Err(Error::Escape(None)), "{:?}", bad);
    }
}

#[test]
fn numbers_by_themselves() {
    let mut lexer = Lexer::with_capacity(SliceSource::new(b"-1.5e1,".to_vec()), 2);
    assert_eq!(lexer.consume_number(), Ok(Number { mantissa: -15, exponent: 0 }));
    assert_eq!(lexer.unread(), Some(1));
    let mut lexer = Lexer::new(SliceSource::new(b"1.25".to_vec()));
    let n = lexer.consume_number().unwrap();
    assert_eq!(n, Number { mantissa: 125, exponent: -2 });
    assert_eq!(as_float(n), 1.25);
    let mut lexer = Lexer::new(SliceSource::new(b"e5".to_vec()));
    assert_eq!(lexer.consume_number(), Err(Error::Unknown(None)));
}
