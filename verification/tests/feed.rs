use ijson_rust::builder::collect;
use ijson_rust::errors::Error;
use ijson_rust::feed::Feeder;
use ijson_rust::lexer::Number;
use ijson_rust::parser::{Event, Parser};
use ijson_rust::source::SliceSource;

const LONG: &str = r#"{"docs":[{"null":null,"boolean":false,"true":true,"integer":0,"double":0.5,"exponent":1e2,"long":10000000000,"string":"строка - тест"},{"meta":[[1],{}]},{"meta":{"key":"value"}},{"meta":null}]}"#;

fn at_once(data: &[u8]) -> Vec<Result<Event, Error>> {
    let mut parser = Parser::new(SliceSource::new(data.to_vec()));
    collect(&mut parser)
}

fn in_chunks(data: &[u8], size: usize) -> Vec<Result<Event, Error>> {
    let mut feeder = Feeder::new();
    let mut out = Vec::new();
    for chunk in data.chunks(size) {
        out.extend(feeder.feed(chunk));
    }
    out.extend(feeder.finish());
    out
}

fn number(mantissa: i64, exponent: i64) -> Event {
    Event::Number(Number { mantissa, exponent })
}

#[test]
fn chunks_of_any_size_give_the_same_events() {
    let whole = at_once(LONG.as_bytes());
    assert_eq!(whole.len(), 44);
    for size in 1..LONG.len() + 2 {
        assert_eq!(in_chunks(LONG.as_bytes(), size), whole, "chunks of {}", size);
    }
}

#[test]
fn chunks_give_the_same_errors() {
    let inputs: Vec<&'static [u8]> = vec![
        b"",
        b"[",
        b"[1,",
        br#"{"key": "value"#,
        br#"{"key": "value"} stuff"#,
        br#"["a\uD800"]"#,
        br#"["a\u00"#,
        b"[1e]",
        b"[tru]",
        b"[1, }",
        b"  12  ",
        b"12",
        b"nul",
    ];
    for data in inputs.iter() {
        let whole = at_once(data);
        for size in 1..data.len() + 2 {
            assert_eq!(in_chunks(data, size), whole, "{:?} in chunks of {}", data, size);
        }
    }
}

#[test]
fn events_come_as_soon_as_they_are_settled() {
    let mut feeder = Feeder::new();
    assert_eq!(feeder.feed(b"[1"), vec![Ok(Event::StartArray)]);
    assert_eq!(feeder.feed(b"2"), vec![]);
    assert_eq!(feeder.feed(b", tr"), vec![Ok(number(12, 0))]);
    assert_eq!(feeder.feed(b"ue"), vec![Ok(Event::Boolean(true))]);
    assert_eq!(feeder.feed(b" "), vec![]);
    assert_eq!(feeder.feed(br#", "a"#), vec![]);
    assert_eq!(feeder.feed(br#"b" "#), vec![Ok(Event::String("ab".to_string()))]);
    assert_eq!(feeder.feed(b"]"), vec![Ok(Event::EndArray)]);
    assert_eq!(feeder.feed(b"  "), vec![]);
    assert_eq!(feeder.finish(), vec![]);
}

#[test]
fn a_number_at_the_end_waits_for_the_end() {
    let mut feeder = Feeder::new();
    assert_eq!(feeder.feed(b"12"), vec![]);
    assert_eq!(feeder.feed(b"3"), vec![]);
    assert_eq!(feeder.finish(), vec![Ok(number(123, 0))]);
}

#[test]
fn a_key_waits_for_nothing() {
    let mut feeder = Feeder::new();
    assert_eq!(
        feeder.feed(br#"{"a""#),
        vec![Ok(Event::StartMap), Ok(Event::Key("a".to_string()))]
    );
    assert_eq!(feeder.feed(b":"), vec![]);
    assert_eq!(feeder.feed(b"null"), vec![Ok(Event::Null)]);
    assert_eq!(feeder.feed(b","), vec![]);
    assert_eq!(feeder.feed(br#""b":1"#), vec![Ok(Event::Key("b".to_string()))]);
    assert_eq!(feeder.feed(b"}"), vec![Ok(number(1, 0)), Ok(Event::EndMap)]);
    assert_eq!(feeder.finish(), vec![]);
}

#[test]
fn nothing_follows_an_error() {
    let mut feeder = Feeder::new();
    assert_eq!(feeder.feed(b"[1, }"), vec![
        Ok(Event::StartArray),
        Ok(number(1, 0)),
        Err(Error::Unexpected),
    ]);
    assert_eq!(feeder.feed(b"2, 3]"), vec![]);
    assert_eq!(feeder.finish(), vec![]);
}

#[test]
fn the_end_may_come_too_early() {
    let mut feeder = Feeder::new();
    assert_eq!(feeder.feed(br#"{"a": "b"#), vec![
        Ok(Event::StartMap),
        Ok(Event::Key("a".to_string())),
    ]);
    assert_eq!(feeder.finish(), vec![Err(Error::Unterminated)]);
    assert_eq!(Feeder::new().finish(), vec![Err(Error::MoreLexemes)]);
}

#[test]
fn data_after_the_value_is_reported() {
    let mut feeder = Feeder::new();
    assert_eq!(feeder.feed(b"{} "), vec![Ok(Event::StartMap), Ok(Event::EndMap)]);
    assert_eq!(feeder.feed(b" x"), vec![Err(Error::AdditionalData)]);
    assert_eq!(feeder.finish(), vec![]);
}

#[test]
fn empty_chunks_change_nothing() {
    let mut feeder = Feeder::new();
    assert_eq!(feeder.feed(b""), vec![]);
    assert_eq!(feeder.feed(b"[nu"), vec![Ok(Event::StartArray)]);
    assert_eq!(feeder.feed(b""), vec![]);
    assert_eq!(feeder.feed(b"ll]"), vec![Ok(Event::Null), Ok(Event::EndArray)]);
    assert_eq!(feeder.feed(b""), vec![]);
    assert_eq!(feeder.finish(), vec![]);
}
