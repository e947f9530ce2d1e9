use ijson_rust::builder::{collect, Builder};
use ijson_rust::errors::Error;
use ijson_rust::iter::{Replay, ResultIterator};
use ijson_rust::lexer::Number;
use ijson_rust::parser::{Event, Parser};
use ijson_rust::source::SliceSource;
use ijson_rust::value::Value;

const SAMPLE: &str = r#"{"docs":[{"null":null,"boolean":false,"true":true,"integer":0,"double":0.5,"exponent":100,"long":10000000000,"string":"x"},{"meta":[[1],{}]},{"meta":{"key":"value"}},{"meta":null}]}"#;

fn recorded(data: &[u8]) -> Vec<Result<Event, Error>> {
    let mut parser = Parser::new(SliceSource::new(data.to_vec()));
    collect(&mut parser)
}

fn kept(data: &[u8], prefix: &str) -> Vec<Result<Event, Error>> {
    let mut events = Parser::new(SliceSource::new(data.to_vec())).prefix(prefix);
    collect(&mut events)
}

fn built(events: Vec<Result<Event, Error>>, prefix: &str) -> Vec<Result<Value, Error>> {
    let mut items = Replay::new(events).items(prefix);
    let mut out = Vec::new();
    while let Some(item) = items.next() {
        out.push(item);
    }
    out
}

fn is_subsequence(part: &[Result<Event, Error>], whole: &[Result<Event, Error>]) -> bool {
    let mut at = 0;
    for item in whole {
        if at < part.len() && part[at] == *item {
            at += 1;
        }
    }
    at == part.len()
}

/// The depth after the events, or nothing where an end matches no start.
fn depth_after(events: &[Result<Event, Error>]) -> Option<Vec<bool>> {
    let mut open = Vec::new();
    for item in events {
        match item {
            Ok(Event::StartArray) => open.push(true),
            Ok(Event::StartMap) => open.push(false),
            Ok(Event::EndArray) => {
                if open.pop() != Some(true) {
                    return None;
                }
            }
            Ok(Event::EndMap) => {
                if open.pop() != Some(false) {
                    return None;
                }
            }
            _ => {}
        }
    }
    Some(open)
}

fn one() -> Event {
    Event::Number(Number { mantissa: 1, exponent: 0 })
}

fn key(name: &str) -> Event {
    Event::Key(name.to_string())
}

#[test]
fn path_before_the_nested_array() {
    let mut walker = Parser::new(SliceSource::new(SAMPLE.as_bytes().to_vec())).prefix("");
    let mut seen = Vec::new();
    while let Some((path, item)) = walker.annotated() {
        seen.push((path.join("."), item.unwrap()));
    }
    let at = seen.iter().position(|(path, _)| path == "docs.item.meta.item").unwrap();
    assert_eq!(seen[at].1, Event::StartArray);
    assert_eq!(seen[at + 1], ("docs.item.meta.item.item".to_string(), one()));
    assert_eq!(seen[at + 2], ("docs.item.meta.item".to_string(), Event::EndArray));
    assert_eq!(seen[at + 3], ("docs.item.meta.item".to_string(), Event::StartMap));
    assert_eq!(seen[at + 4], ("docs.item.meta.item".to_string(), Event::EndMap));
    assert_eq!(seen[at + 5], ("docs.item.meta".to_string(), Event::EndArray));
    assert_eq!(seen[at - 1], ("docs.item.meta".to_string(), Event::StartArray));
    assert_eq!(seen[at - 2], ("docs.item".to_string(), key("meta")));
}

#[test]
fn paths_of_every_event() {
    let mut walker = Parser::new(SliceSource::new(br#"{"a": [1, {"b": null}], "c": 1}"#.to_vec()))
        .prefix("nothing");
    let mut seen = Vec::new();
    while let Some((path, item)) = walker.annotated() {
        seen.push((path, item.unwrap()));
    }
    let path = |segments: &[&str]| segments.iter().map(|s| s.to_string()).collect::<Vec<_>>();
    assert_eq!(
        seen,
        vec![
            (path(&[]), Event::StartMap),
            (path(&[]), key("a")),
            (path(&["a"]), Event::StartArray),
            (path(&["a", "item"]), one()),
            (path(&["a", "item"]), Event::StartMap),
            (path(&["a", "item"]), key("b")),
            (path(&["a", "item", "b"]), Event::Null),
            (path(&["a", "item"]), Event::EndMap),
            (path(&["a"]), Event::EndArray),
            (path(&[]), key("c")),
            (path(&["c"]), one()),
            (path(&[]), Event::EndMap),
        ]
    );
}

#[test]
fn annotated_hands_on_errors() {
    let mut walker = Parser::new(SliceSource::new(b"[1, }".to_vec())).prefix("");
    assert_eq!(walker.annotated(), Some((vec![], Ok(Event::StartArray))));
    assert_eq!(walker.annotated(), Some((vec!["item".to_string()], Ok(one()))));
    assert_eq!(walker.annotated(), Some((vec!["item".to_string()], Err(Error::Unexpected))));
    assert_eq!(walker.annotated(), None);
}

#[test]
fn filtered_is_a_balanced_subsequence() {
    let whole = recorded(SAMPLE.as_bytes());
    assert_eq!(depth_after(&whole), Some(vec![]));
    for prefix in [
        "",
        "docs",
        "docs.item",
        "docs.item.meta",
        "docs.item.meta.item",
        "docs.item.meta.item.item",
        "docs.item.meta.key",
        "docs.item.string",
        "item",
        "nothing",
        "docs..",
    ] {
        let part = kept(SAMPLE.as_bytes(), prefix);
        assert!(is_subsequence(&part, &whole), "prefix {:?}", prefix);
        assert_eq!(depth_after(&part), Some(vec![]), "prefix {:?}", prefix);
    }
}

#[test]
fn filtered_matches_need_not_be_adjacent() {
    let data = b"[[1],[2]]";
    let whole = recorded(data);
    let part = kept(data, "item.item");
    assert_eq!(
        part,
        vec![
            Ok(Event::Number(Number { mantissa: 1, exponent: 0 })),
            Ok(Event::Number(Number { mantissa: 2, exponent: 0 })),
        ]
    );
    assert_eq!(whole[2], part[0]);
    assert_eq!(whole[5], part[1]);
}

#[test]
fn filtered_truncated_input_stays_nested() {
    let data = br#"{"a": [[1, 2], [3"#;
    let part = kept(data, "a.item");
    assert_eq!(part.last(), Some(&Err(Error::MoreLexemes)));
    assert_eq!(depth_after(&part), Some(vec![true]));
}

#[test]
fn round_trip_through_recorded_events() {
    for text in [
        SAMPLE,
        r#"[]"#,
        r#"{}"#,
        r#"12.5"#,
        r#""text""#,
        r#"[[[]], {"a": {"b": [null, true, false, -1e-7]}}, "x"]"#,
    ] {
        let events = recorded(text.as_bytes());
        let mut direct = Parser::new(SliceSource::new(text.as_bytes().to_vec())).items("");
        let again = built(events, "");
        assert_eq!(again.len(), 1);
        assert_eq!(Some(&again[0]), direct.next().as_ref());
        assert_eq!(direct.next(), None);
    }
}

#[test]
fn replay_yields_what_was_recorded() {
    let events = recorded(SAMPLE.as_bytes());
    let mut replay = Replay::new(recorded(SAMPLE.as_bytes()));
    assert_eq!(collect(&mut replay), events);
    assert_eq!(collect(&mut replay), vec![]);
}

#[test]
fn error_of_the_stream_inside_a_value() {
    assert_eq!(
        built(vec![Ok(Event::StartArray), Ok(one()), Err(Error::Utf8), Ok(one())], ""),
        vec![Err(Error::Utf8), Ok(Value::Number(Number { mantissa: 1, exponent: 0 }))]
    );
    assert_eq!(
        built(vec![Ok(Event::StartMap), Ok(key("a")), Err(Error::Escape(None))], ""),
        vec![Err(Error::Escape(None))]
    );
    assert_eq!(built(vec![Err(Error::IO(2))], ""), vec![Err(Error::IO(2))]);
    assert_eq!(built(vec![], ""), vec![]);
}

#[test]
fn result_iterator_drops_what_follows_an_error() {
    let mut events = ResultIterator::new(Replay::new(vec![
        Ok(Event::Null),
        Err(Error::Unknown(None)),
        Ok(Event::Null),
        Err(Error::Utf8),
    ]));
    assert_eq!(collect(&mut events), vec![Ok(Event::Null), Err(Error::Unknown(None))]);
    assert_eq!(collect(&mut events), vec![]);
}

#[test]
fn filter_over_recorded_events() {
    let mut events = Replay::new(vec![
        Ok(Event::StartMap),
        Ok(key("a")),
        Ok(one()),
        Err(Error::Unknown(None)),
        Ok(key("b")),
        Ok(Event::Null),
        Ok(Event::EndMap),
    ])
    .prefix("b");
    assert_eq!(collect(&mut events), vec![Err(Error::Unknown(None)), Ok(Event::Null)]);
}
