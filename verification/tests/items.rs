use ijson_rust::builder::{Builder, Items, Prefix};
use ijson_rust::errors::Error;
use ijson_rust::lexer::Number;
use ijson_rust::parser::Parser;
use ijson_rust::source::SliceSource;
use ijson_rust::value::Value;

const RECORDS: &str = r#"{"docs":[{"null":null,"boolean":false,"true":true,"integer":0,"double":0.5,"exponent":100,"long":10000000000,"string":"x"},{"meta":[[1],{}]},{"meta":{"key":"value"}},{"meta":null}]}"#;

const PEOPLE: &str = r#"[{"name": "John", "friends": ["Mary", "Michael"]}, {"name": "Mary", "friends": ["John"]}]"#;

fn items_of(data: &[u8], prefix: &str) -> Items<Prefix<Parser<SliceSource>>> {
    Parser::new(SliceSource::new(data.to_vec())).items(prefix)
}

fn all_items(data: &[u8], prefix: &str) -> Vec<Result<Value, Error>> {
    let mut items = items_of(data, prefix);
    let mut out = Vec::new();
    while let Some(item) = items.next() {
        out.push(item);
    }
    out
}

fn whole(mantissa: i64) -> Value {
    Value::Number(Number { mantissa, exponent: 0 })
}

fn text(s: &str) -> Value {
    Value::String(s.to_string())
}

#[test]
fn items() {
    let result: Vec<_> = all_items(RECORDS.as_bytes(), "").into_iter().map(Result::unwrap).collect();
    assert_eq!(result.len(), 1);

    let json = items_of(PEOPLE.as_bytes(), "item").next().unwrap().unwrap();
    let reference = Value::Object(vec![
        ("name".to_string(), text("John")),
        ("friends".to_string(), Value::Array(vec![text("Mary"), text("Michael")])),
    ]);
    assert_eq!(json, reference);
}

#[test]
fn one_value_per_match() {
    let result = all_items(RECORDS.as_bytes(), "docs.item.meta");
    assert_eq!(
        result,
        vec![
            Ok(Value::Array(vec![Value::Array(vec![whole(1)]), Value::Object(vec![])])),
            Ok(Value::Object(vec![("key".to_string(), text("value"))])),
            Ok(Value::Null),
        ]
    );
}

#[test]
fn whole_document() {
    let result = all_items(br#"{"a": [1, 2.5, true, null, "s", {}], "b": {"c": []}}"#, "");
    assert_eq!(
        result,
        vec![Ok(Value::Object(vec![
            (
                "a".to_string(),
                Value::Array(vec![
                    whole(1),
                    Value::Number(Number { mantissa: 25, exponent: -1 }),
                    Value::Boolean(true),
                    Value::Null,
                    text("s"),
                    Value::Object(vec![]),
                ])
            ),
            ("b".to_string(), Value::Object(vec![("c".to_string(), Value::Array(vec![]))])),
        ]))]
    );
}

#[test]
fn scalar_document() {
    assert_eq!(all_items(b"17", ""), vec![Ok(whole(17))]);
    assert_eq!(all_items(b"", ""), vec![Err(Error::MoreLexemes)]);
}

#[test]
fn later_member_replaces_earlier() {
    assert_eq!(
        all_items(br#"{"a": 1, "b": 2, "a": 3}"#, ""),
        vec![Ok(Value::Object(vec![("a".to_string(), whole(3)), ("b".to_string(), whole(2))]))]
    );
}

#[test]
fn error_inside_a_value() {
    assert_eq!(all_items(b"[1, [2, }", ""), vec![Err(Error::Unexpected)]);
    assert_eq!(all_items(br#"{"a": [1, 2"#, ""), vec![Err(Error::MoreLexemes)]);
    assert_eq!(all_items(br#"[1, 2] x"#, ""), vec![
        Ok(Value::Array(vec![whole(1), whole(2)])),
        Err(Error::AdditionalData),
    ]);
}

#[test]
fn people_by_item() {
    let result = all_items(PEOPLE.as_bytes(), "item.name");
    assert_eq!(result, vec![Ok(text("John")), Ok(text("Mary"))]);
}

#[test]
fn builder_ends_with_the_stream() {
    let mut items = items_of(b"[1]", "item");
    assert_eq!(items.next(), Some(Ok(whole(1))));
    assert_eq!(items.next(), None);
    assert_eq!(items.next(), None);
}
