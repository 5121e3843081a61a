use regex::Regex;
use sq::{ReadOutcome, Record, Records};

#[test]
fn serialize() {
    let r = Record {
        text: String::from("Hello"),
        spans: vec![],
    };
    let expected = r#"{"text":"Hello","spans":[]}"#;
    let value = r.to_json();
    assert_eq!(value, expected);
}

#[test]
fn deserialize() {
    let expected = Record {
        text: String::from("Русский текст"),
        spans: vec![(13..15)],
    };
    let json = r#"{"text": "Русский текст", "spans": [[13, 15]]}"#;
    let value: Record = Record::from_json(json).unwrap();
    assert_eq!(value, expected)
}

#[test]
fn iterate() {
    let string = r#"{"text": "Hello", "spans": []}"#;
    let mut records = Records::new();

    assert_eq!(
        records
            .next(ReadOutcome::Line(String::from(string)))
            .map(|i| i.unwrap().text),
        Some(String::from("Hello"))
    );
    assert_eq!(records.next(ReadOutcome::End), None);
}

#[test]
fn mark_records() {
    let mut r = Record::new("Вот тебе 2 яблочка");

    assert_eq!(r.add_match_str("[0-9]+"), Ok(1));
    assert_eq!(r.spans[0], 9..10);
}

#[test]
fn build_template() {
    let mut r = Record::new("2 cats have 2 tails 2");
    r.add_match(&Regex::new("[0-9]").unwrap());

    let result = r.mask("<DIGIT>");
    assert_eq!(result, "<DIGIT> cats have <DIGIT> tails <DIGIT>");
}
