use regex::Regex;
use sq::{
    byte_offset, char_span, import, mark, matched_texts, texts_of_spans, OffsetError, ReadOutcome, Record,
    Records, StreamError,
};

#[test]
fn char_span_counts_characters() {
    let text = "Вот тебе 2 яблочка";
    // "Вот тебе " is 9 characters, 16 bytes: the digit is byte 16.
    assert_eq!(char_span(text, 16..17), 9..10);
    assert_eq!(char_span(text, 0..6), 0..3);
    assert_eq!(char_span(text, 0..0), 0..0);
    assert_eq!(char_span(text, text.len()..text.len()), 18..18);
}

#[test]
fn char_span_then_byte_offset_gives_bytes_back() {
    let text = "aé€𝄞z";
    let boundaries = [0usize, 1, 3, 6, 10, 11];
    for &b0 in boundaries.iter() {
        for &b1 in boundaries.iter() {
            if b0 <= b1 {
                let s = char_span(text, b0..b1);
                assert_eq!(byte_offset(text, s.start), Ok(b0));
                assert_eq!(byte_offset(text, s.end), Ok(b1));
            }
        }
    }
}

#[test]
fn byte_offset_at_end_is_byte_length() {
    assert_eq!(byte_offset("", 0), Ok(0));
    assert_eq!(byte_offset("abc", 3), Ok(3));
    let text = "яблочко";
    assert_eq!(byte_offset(text, text.chars().count()), Ok(text.len()));
    assert_eq!(byte_offset(text, 2), Ok(4));
}

#[test]
fn byte_offset_past_end_is_an_error() {
    assert_eq!(
        byte_offset("ab", 3),
        Err(OffsetError {
            index: 3,
            char_len: 2,
            text: String::from("ab"),
        })
    );
    assert!(byte_offset("", 1).is_err());
}

#[test]
fn add_match_counts_and_orders_spans() {
    let mut r = Record::new("a1 bb22 ccc333");
    let n = r.add_match(&Regex::new("[0-9]+").unwrap());
    assert_eq!(n, 3);
    assert_eq!(r.spans, vec![1..2, 5..7, 11..14]);
}

#[test]
fn add_match_accumulates_across_patterns() {
    let mut r = Record::new("ab12");
    assert_eq!(r.add_match_str("[0-9]"), Ok(2));
    assert_eq!(r.add_match_str("[a-z]+"), Ok(1));
    assert_eq!(r.spans, vec![2..3, 3..4, 0..2]);
}

#[test]
fn add_match_without_matches_adds_nothing() {
    let mut r = Record::new("no digits here");
    assert_eq!(r.add_match_str("[0-9]"), Ok(0));
    assert!(r.spans.is_empty());
}

#[test]
fn invalid_pattern_is_an_error() {
    let mut r = Record::new("text");
    let e = r.add_match_str("(unclosed");
    assert!(e.is_err());
    assert!(!e.unwrap_err().message.is_empty());
    assert!(r.spans.is_empty());
}

#[test]
fn mask_keeps_trailing_text() {
    let mut r = Record::new("Hello world");
    r.add_match_str("Hello").unwrap();
    assert_eq!(r.mask("<W>"), "<W> world");
    let mut r = Record::new("Hello world!");
    r.add_match_str("world").unwrap();
    assert_eq!(r.mask("<W>"), "Hello <W>!");
}

#[test]
fn mask_length_relation() {
    let text = "ab12cd345ef";
    let mut r = Record::new(text);
    r.add_match_str("[0-9]+").unwrap();
    let out = r.mask("#");
    assert_eq!(out, "ab#cd#ef");
    let covered: usize = r.spans.iter().map(|s| s.end - s.start).sum();
    assert_eq!(
        out.chars().count(),
        text.chars().count() - covered + r.spans.len() * "#".chars().count()
    );
}

#[test]
fn mask_on_non_ascii_text() {
    let mut r = Record::new("Вот тебе 2 яблочка");
    r.add_match_str("[0-9]+").unwrap();
    assert_eq!(r.mask("<N>"), "Вот тебе <N> яблочка");
}

#[test]
fn mask_without_spans_is_the_text() {
    let r = Record::new("plain");
    assert_eq!(r.mask("<X>"), "plain");
    let r = Record::new("");
    assert_eq!(r.mask("<X>"), "");
}

#[test]
fn mask_takes_spans_in_stored_order() {
    let r = Record {
        text: String::from("abcdef"),
        spans: vec![4..5, 1..2],
    };
    // After the first span ends at 5, the second starts earlier: no text
    // is copied before its label, and copying resumes from its end.
    assert_eq!(r.mask("#"), "abcd##cdef");
}

#[test]
fn spans_are_valid_checks_bounds() {
    let r = Record {
        text: String::from("abc"),
        spans: vec![0..3],
    };
    assert!(r.spans_are_valid());
    let r = Record {
        text: String::from("abc"),
        spans: vec![2..4],
    };
    assert!(!r.spans_are_valid());
}

#[test]
fn json_round_trip() {
    let r = Record {
        text: String::from("quote \" backslash \\ tab \t newline \n ünï €"),
        spans: vec![0..5, 6..7, 10..10, 1234567..1234568],
    };
    let line = r.to_json();
    assert_eq!(Record::from_json(&line), Ok(r));
}

#[test]
fn json_escapes_the_text() {
    let r = Record {
        text: String::from("a\"b\\c\n"),
        spans: vec![0..1, 2..3],
    };
    assert_eq!(
        r.to_json(),
        "{\"text\":\"a\\\"b\\\\c\\n\",\"spans\":[[0,1],[2,3]]}"
    );
}

#[test]
fn json_reads_escapes_and_either_field_order() {
    let r = Record::from_json(r#" { "spans" : [ [ 0 , 1 ] ] , "text" : "\u0041b\n" } "#).unwrap();
    assert_eq!(r.text, "Ab\n");
    assert_eq!(r.spans, vec![0..1]);
}

#[test]
fn json_rejects_malformed_lines() {
    let bad = [
        "",
        "{}",
        r#"{"text":"a"}"#,
        r#"{"text":"a","spans":[],"x":1}"#,
        r#"{"text":"a","spans":[[01,2]]}"#,
        r#"{"text":"a","spans":[[-1,2]]}"#,
        r#"{"text":"a","spans":[[1,2],]}"#,
        r#"{"text":"a","spans":[[1,2,3]]}"#,
        r#"{"text":"a","spans":[[99999999999999999999999,1]]}"#,
        r#"{"text":"a\","spans":[]}"#,
        r#"{"text":"a","spans":[]} x"#,
    ];
    for line in bad.iter() {
        let e = Record::from_json(line).unwrap_err();
        assert_eq!(e.line, *line);
    }
}

#[test]
fn stream_yields_two_records_then_ends() {
    let input = "{\"text\":\"a\",\"spans\":[]}\n{\"text\":\"b\",\"spans\":[]}\n";
    let mut records = Records::new();
    let mut texts = Vec::new();
    for line in input.split_inclusive('\n') {
        match records.next(ReadOutcome::Line(String::from(line))) {
            Some(Ok(r)) => texts.push(r.text),
            other => panic!("unexpected {:?}", other),
        }
    }
    assert_eq!(records.next(ReadOutcome::End), None);
    assert_eq!(texts, vec![String::from("a"), String::from("b")]);
    assert!(records.is_exhausted());
    assert_eq!(
        records.next(ReadOutcome::Line(String::from("{\"text\":\"c\",\"spans\":[]}"))),
        None
    );
}

#[test]
fn stream_stops_on_a_malformed_line() {
    let mut records = Records::new();
    match records.next(ReadOutcome::Line(String::from("not a record\n"))) {
        Some(Err(StreamError::Parse(e))) => assert_eq!(e.line, "not a record"),
        other => panic!("unexpected {:?}", other),
    }
    assert!(records.is_exhausted());
    assert_eq!(records.next(ReadOutcome::End), None);
}

#[test]
fn stream_stops_on_a_read_failure() {
    let mut records = Records::new();
    assert_eq!(
        records.next(ReadOutcome::Failed(String::from("broken pipe"))),
        Some(Err(StreamError::Io(String::from("broken pipe"))))
    );
    assert!(records.is_exhausted());
}

#[test]
fn import_makes_record_lines() {
    let lines = vec![String::from("one"), String::from("two \"2\"")];
    assert_eq!(
        import(&lines),
        vec![
            String::from(r#"{"text":"one","spans":[]}"#),
            String::from(r#"{"text":"two \"2\"","spans":[]}"#),
        ]
    );
    assert!(import(&Vec::new()).is_empty());
}

#[test]
fn mark_adds_spans_and_gives_the_line() {
    let mut r = Record::new("x 10 y 200");
    let line = mark(&mut r, &Regex::new("[0-9]+").unwrap());
    assert_eq!(line, r#"{"text":"x 10 y 200","spans":[[2,4],[7,10]]}"#);
    assert_eq!(r.spans, vec![2..4, 7..10]);
}

#[test]
fn matched_texts_lists_matches() {
    let r = Record::new("Вот 12 и 345");
    assert_eq!(
        matched_texts(&r, &Regex::new("[0-9]+").unwrap()),
        vec![String::from("12"), String::from("345")]
    );
}

#[test]
fn mark_on_digits_example() {
    let mut r = Record::new("2 cats have 2 tails 2");
    let line = mark(&mut r, &Regex::new("[0-9]").unwrap());
    assert_eq!(
        line,
        r#"{"text":"2 cats have 2 tails 2","spans":[[0,1],[12,13],[20,21]]}"#
    );
}

#[test]
fn matched_texts_over_two_records() {
    let re = Regex::new("[0-9]+").unwrap();
    let mut out = Vec::new();
    for text in ["Вот тебе 2 яблочка", "2 cats have 2 tails 2"].iter() {
        out.extend(matched_texts(&Record::new(text), &re));
    }
    assert_eq!(out, vec!["2", "2", "2", "2"]);
}

#[test]
fn matched_texts_ignores_the_records_spans() {
    let r = Record {
        text: String::from("a1b"),
        spans: vec![0..3],
    };
    assert_eq!(matched_texts(&r, &Regex::new("[a-z]").unwrap()), vec!["a", "b"]);
}

#[test]
fn texts_of_spans_cuts_by_characters() {
    assert_eq!(
        texts_of_spans("яблочко и груша", &vec![0..3, 10..15, 7..7]),
        vec!["ябл", "груша", ""]
    );
}

#[test]
fn json_escapes_control_characters() {
    let r = Record::new("\u{1}\u{1f}\u{8}\u{c}\r\t\u{7f}é");
    assert_eq!(
        r.to_json(),
        "{\"text\":\"\\u0001\\u001f\\b\\f\\r\\t\u{7f}é\",\"spans\":[]}"
    );
    assert_eq!(Record::from_json(&r.to_json()), Ok(r));
}
