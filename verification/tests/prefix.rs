use ijson_rust::builder::{collect, split_path, Builder};
use ijson_rust::errors::Error;
use ijson_rust::iter::ResultIterator;
use ijson_rust::lexer::Number;
use ijson_rust::parser::{Event, Parser};
use ijson_rust::source::SliceSource;

const TEXT: &str = r#"{"docs":[{"null":null,"boolean":false,"true":true,"integer":0,"double":0.5,"exponent":100,"long":10000000000,"string":"x"},{"meta":[[1],{}]},{"meta":{"key":"value"}},{"meta":null}]}"#;

fn parser_over(data: &[u8]) -> Parser<SliceSource> {
    Parser::new(SliceSource::new(data.to_vec()))
}

fn filtered(data: &[u8], prefix: &str) -> Vec<Result<Event, Error>> {
    let mut events = parser_over(data).prefix(prefix);
    collect(&mut events)
}

fn one() -> Event {
    Event::Number(Number { mantissa: 1, exponent: 0 })
}

#[test]
fn prefixes() {
    let mut parser = parser_over(TEXT.as_bytes());
    let full: Vec<_> = collect(&mut parser).into_iter().map(Result::unwrap).collect();
    let result: Vec<_> = filtered(TEXT.as_bytes(), "").into_iter().map(Result::unwrap).collect();
    assert_eq!(result, full);

    let result: Vec<_> =
        filtered(TEXT.as_bytes(), "docs.item.meta.item").into_iter().map(Result::unwrap).collect();
    assert_eq!(
        result,
        vec![Event::StartArray, one(), Event::EndArray, Event::StartMap, Event::EndMap]
    );
}

#[test]
fn path_segments() {
    assert_eq!(split_path(""), Vec::<String>::new());
    assert_eq!(split_path("docs"), vec!["docs".to_string()]);
    assert_eq!(
        split_path("docs.item.meta.item"),
        vec!["docs".to_string(), "item".to_string(), "meta".to_string(), "item".to_string()]
    );
    assert_eq!(split_path("docs."), vec!["docs".to_string()]);
    assert_eq!(split_path("."), vec!["".to_string()]);
    assert_eq!(split_path("a..b"), vec!["a".to_string(), "".to_string(), "b".to_string()]);
    assert_eq!(split_path(".a"), vec!["".to_string(), "a".to_string()]);
    assert_eq!(split_path("é.ü"), vec!["é".to_string(), "ü".to_string()]);
}

#[test]
fn matches_under_a_key_are_whole_values() {
    let result = filtered(TEXT.as_bytes(), "docs.item.meta");
    assert_eq!(
        result,
        vec![
            Ok(Event::StartArray),
            Ok(Event::StartArray),
            Ok(one()),
            Ok(Event::EndArray),
            Ok(Event::StartMap),
            Ok(Event::EndMap),
            Ok(Event::EndArray),
            Ok(Event::StartMap),
            Ok(Event::Key("key".to_string())),
            Ok(Event::String("value".to_string())),
            Ok(Event::EndMap),
            Ok(Event::Null),
        ]
    );
}

#[test]
fn prefix_that_matches_nothing() {
    assert_eq!(filtered(TEXT.as_bytes(), "nothing"), vec![]);
    assert_eq!(filtered(TEXT.as_bytes(), "docs.item.meta.item.item.item"), vec![]);
}

#[test]
fn array_elements_at_the_top() {
    assert_eq!(
        filtered(b"[1, [1], {}]", "item"),
        vec![
            Ok(one()),
            Ok(Event::StartArray),
            Ok(one()),
            Ok(Event::EndArray),
            Ok(Event::StartMap),
            Ok(Event::EndMap),
        ]
    );
}

#[test]
fn errors_pass_the_filter() {
    assert_eq!(filtered(b"[1, 2", "nothing"), vec![Err(Error::MoreLexemes)]);
    assert_eq!(
        filtered(br#"{"a": [1, }"#, "a"),
        vec![Ok(Event::StartArray), Ok(one()), Err(Error::Unexpected)]
    );
}

#[test]
fn empty_prefix_keeps_errors_in_place() {
    let data = br#"{"a": [1, tru"#;
    let mut parser = parser_over(data);
    let full = collect(&mut parser);
    assert_eq!(filtered(data, ""), full);
    assert_eq!(full.last(), Some(&Err(Error::Unknown(None))));
}

#[test]
fn result_iterator_ends_at_first_error() {
    let mut events = ResultIterator::new(parser_over(b"[1, }"));
    assert_eq!(
        collect(&mut events),
        vec![Ok(Event::StartArray), Ok(one()), Err(Error::Unexpected)]
    );
    assert_eq!(collect(&mut events), vec![]);
}

#[test]
fn result_iterator_keeps_a_clean_stream() {
    let mut plain = parser_over(TEXT.as_bytes());
    let mut wrapped = ResultIterator::new(parser_over(TEXT.as_bytes()));
    assert_eq!(collect(&mut wrapped), collect(&mut plain));
}
