use ijson_rust::builder::collect;
use ijson_rust::errors::Error;
use ijson_rust::lexer::Number;
use ijson_rust::parser::{Event, Parser};
use ijson_rust::source::SliceSource;

const DOCUMENT: &str = r#"{"docs":[{"null":null,"boolean":false,"true":true,"integer":0,"double":0.5,"exponent":1e2,"long":10000000000,"string":"строка - тест"},{"meta":[[1],{}]},{"meta":{"key":"value"}},{"meta":null}]}"#;

/// An event with its number turned into a float.
#[derive(Debug, PartialEq)]
enum Seen {
    Null,
    Boolean(bool),
    String(String),
    Key(String),
    Number(f64),
    StartArray,
    EndArray,
    StartMap,
    EndMap,
}

fn float(n: Number) -> f64 {
    if n.exponent == 0 {
        n.mantissa as f64
    } else if n.exponent < 0 {
        n.mantissa as f64 / (10.0f64).powi(-n.exponent as i32)
    } else {
        n.mantissa as f64 * (10.0f64).powi(n.exponent as i32)
    }
}

fn seen(event: Event) -> Seen {
    match event {
        Event::Null => Seen::Null,
        Event::Boolean(b) => Seen::Boolean(b),
        Event::String(s) => Seen::String(s),
        Event::Key(s) => Seen::Key(s),
        Event::Number(n) => Seen::Number(float(n)),
        Event::StartArray => Seen::StartArray,
        Event::EndArray => Seen::EndArray,
        Event::StartMap => Seen::StartMap,
        Event::EndMap => Seen::EndMap,
    }
}

fn events(data: &[u8]) -> Vec<Result<Event, Error>> {
    let mut parser = Parser::new(SliceSource::new(data.to_vec()));
    collect(&mut parser)
}

fn reference_events() -> Vec<Seen> {
    vec![
        Seen::StartMap,
        Seen::Key("docs".to_string()),
        Seen::StartArray,
        Seen::StartMap,
        Seen::Key("null".to_string()),
        Seen::Null,
        Seen::Key("boolean".to_string()),
        Seen::Boolean(false),
        Seen::Key("true".to_string()),
        Seen::Boolean(true),
        Seen::Key("integer".to_string()),
        Seen::Number(0f64),
        Seen::Key("double".to_string()),
        Seen::Number(0.5f64),
        Seen::Key("exponent".to_string()),
        Seen::Number(100f64),
        Seen::Key("long".to_string()),
        Seen::Number(10000000000f64),
        Seen::Key("string".to_string()),
        Seen::String("строка - тест".to_string()),
        Seen::EndMap,
        Seen::StartMap,
        Seen::Key("meta".to_string()),
        Seen::StartArray,
        Seen::StartArray,
        Seen::Number(1f64),
        Seen::EndArray,
        Seen::StartMap,
        Seen::EndMap,
        Seen::EndArray,
        Seen::EndMap,
        Seen::StartMap,
        Seen::Key("meta".to_string()),
        Seen::StartMap,
        Seen::Key("key".to_string()),
        Seen::String("value".to_string()),
        Seen::EndMap,
        Seen::EndMap,
        Seen::StartMap,
        Seen::Key("meta".to_string()),
        Seen::Null,
        Seen::EndMap,
        Seen::EndArray,
        Seen::EndMap,
    ]
}

fn test_error(data: &[u8], error: Error) {
    let r = events(data).pop().unwrap();
    assert!(r.is_err(), "Not an error: {:?}", r.ok().unwrap());
    let rerror = r.err().unwrap();
    if rerror.description() != error.description() {
        panic!("Not <{:?}> at data: {:?}. Got {:?} instead.", error, data, rerror);
    }
}

#[test]
fn parser() {
    let events: Vec<_> = events(DOCUMENT.as_bytes()).into_iter().map(Result::unwrap).map(seen).collect();
    assert_eq!(events, reference_events());
}

#[test]
fn unterminated_string() {
    test_error(br#"{"key": "value"#, Error::Unterminated);
}

#[test]
fn additional_data() {
    test_error(br#"{"key": "value"} stuff"#, Error::AdditionalData);
}

#[test]
fn incomplete() {
    let data: Vec<&'static [u8]> = vec![
        b"",
        b"[",
        b"[1",
        b"[1,",
        b"{",
        br#"{"key""#,
        br#"{"key":"#,
        br#"{"key": "value""#,
        br#"{"key": "value","#,
    ];
    for d in data.iter() {
        test_error(d, Error::MoreLexemes);
    }
}

#[test]
fn bad_escape() {
    let data: Vec<&'static [u8]> = vec![
        br#""\w""#,
        br#""\u""#,
        br#""\u0""#,
        br#""\uD800""#,
    ];
    for d in data.iter() {
        test_error(d, Error::Escape(None));
    }
}

#[test]
fn error_is_last_item() {
    let mut parser = Parser::new(SliceSource::new(b"[1, }".to_vec()));
    assert_eq!(parser.next(), Some(Ok(Event::StartArray)));
    assert_eq!(parser.next(), Some(Ok(Event::Number(Number { mantissa: 1, exponent: 0 }))));
    assert_eq!(parser.next(), Some(Err(Error::Unexpected)));
    assert_eq!(parser.next(), None);
    assert_eq!(parser.next(), None);
}

#[test]
fn clean_end_repeats() {
    let mut parser = Parser::new(SliceSource::new(b" null ".to_vec()));
    assert_eq!(parser.next(), Some(Ok(Event::Null)));
    assert_eq!(parser.next(), None);
    assert_eq!(parser.next(), None);
}

#[test]
fn additional_data_is_reported_once() {
    let all = events(b"1 2 3");
    assert_eq!(
        all,
        vec![Ok(Event::Number(Number { mantissa: 1, exponent: 0 })), Err(Error::AdditionalData)]
    );
}

#[test]
fn trailing_comma_is_rejected() {
    test_error(b"[1,]", Error::Unexpected);
    test_error(br#"{"a":1,}"#, Error::Unexpected);
}

#[test]
fn value_must_follow_colon() {
    test_error(br#"{"a":}"#, Error::Unexpected);
    test_error(br#"{"a":,"#, Error::Unexpected);
    test_error(br#"{"a" 1}"#, Error::Unexpected);
}

#[test]
fn mismatched_closer() {
    test_error(b"[1}", Error::Unmatched);
    test_error(br#"{"a":1]"#, Error::Unmatched);
    test_error(b"[}", Error::Unexpected);
    test_error(b"{]", Error::Unexpected);
}

#[test]
fn closer_at_top_level() {
    test_error(b"]", Error::Unexpected);
    test_error(b"}", Error::Unexpected);
    test_error(b",", Error::Unexpected);
    test_error(b":", Error::Unexpected);
}

#[test]
fn key_must_be_string() {
    test_error(b"{1:2}", Error::Unexpected);
    test_error(br#"{"a":1,2}"#, Error::Unexpected);
}

#[test]
fn empty_containers() {
    assert_eq!(events(b"[]"), vec![Ok(Event::StartArray), Ok(Event::EndArray)]);
    assert_eq!(events(b"{}"), vec![Ok(Event::StartMap), Ok(Event::EndMap)]);
    assert_eq!(
        events(b"[[],{}]"),
        vec![
            Ok(Event::StartArray),
            Ok(Event::StartArray),
            Ok(Event::EndArray),
            Ok(Event::StartMap),
            Ok(Event::EndMap),
            Ok(Event::EndArray),
        ]
    );
}

#[test]
fn source_failure_is_reported() {
    let mut parser = Parser::new(SliceSource::broken(b"[1, 2".to_vec(), 5));
    let all = collect(&mut parser);
    assert_eq!(
        all,
        vec![
            Ok(Event::StartArray),
            Ok(Event::Number(Number { mantissa: 1, exponent: 0 })),
            Err(Error::IO(5)),
        ]
    );
}

#[test]
fn source_failure_after_the_value() {
    let mut parser = Parser::new(SliceSource::broken(b"true ".to_vec(), 7));
    let all = collect(&mut parser);
    assert_eq!(all, vec![Ok(Event::Boolean(true)), Err(Error::IO(7))]);
}

#[test]
fn buffer_size_does_not_matter() {
    let reference = events(DOCUMENT.as_bytes());
    for capacity in [0usize, 1, 2, 3, 4, 5, 7, 16, 64, 65536] {
        let mut parser =
            Parser::with_capacity(SliceSource::new(DOCUMENT.as_bytes().to_vec()), capacity);
        assert_eq!(collect(&mut parser), reference);
    }
}

#[test]
fn buffer_size_does_not_matter_for_errors() {
    let inputs: Vec<&'static [u8]> =
        vec![br#"{"key": "value"#, br#"["\u00e9\n", 12.5e-3, tru]"#, br#"["a\uD800"]"#, b"[1e]"];
    for data in inputs.iter() {
        let reference = events(data);
        for capacity in [1usize, 2, 3, 4, 4096] {
            let mut parser = Parser::with_capacity(SliceSource::new(data.to_vec()), capacity);
            assert_eq!(collect(&mut parser), reference);
        }
    }
}

#[test]
fn every_description() {
    assert_eq!(Error::Unterminated.description(), "unterminated string");
    assert_eq!(Error::IO(1).description(), "i/o failure");
    assert_eq!(Error::Unknown(None).description(), "unknown lexeme");
    assert_eq!(Error::Unexpected.description(), "unexpected lexeme");
    assert_eq!(Error::Utf8.description(), "invalid utf-8");
    assert_eq!(Error::Escape(Some(0)).description(), "malformed escape");
    assert_eq!(Error::MoreLexemes.description(), "more lexemes expected");
    assert_eq!(Error::Unmatched.description(), "unmatched container terminator");
    assert_eq!(Error::AdditionalData.description(), "additional data");
}
