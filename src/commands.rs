//! The per-line work of the command-line tool: importing raw lines as
//! records, marking the matches of a pattern, and listing what matched.
use vstd::prelude::*;
use regex::Regex;
use crate::json::record_json;
use crate::offsets::Span;
use crate::offsets::char_index_of;
use crate::record::{converted, regex_spans, spans_ordered, spans_valid, Record};

verus! {

/// The record line of each raw line, in order: the line as text, no spans.
pub fn import(lines: &Vec<String>) -> (r: Vec<String>)
    ensures
        r@.len() == lines@.len(),
        forall|k: int|
            0 <= k < lines@.len() ==> #[trigger] r@[k]@ == record_json(
                lines@[k]@,
                Seq::<Span>::empty(),
            ),
{
    let mut r: Vec<String> = Vec::new();
    let mut k: usize = 0;
    while k < lines.len()
        invariant
            k <= lines@.len(),
            r@.len() == k,
            forall|m: int|
                0 <= m < k ==> #[trigger] r@[m]@ == record_json(lines@[m]@, Seq::<Span>::empty()),
        decreases lines@.len() - k,
    {
        let record = Record::new(lines[k].as_str());
        proof {
            assert(record.spans@ =~= Seq::<Span>::empty());
        }
        r.push(record.to_json());
        k = k + 1;
    }
    r
}

/// Appends the spans of the matches of `re` to `record`, as
/// `Record::add_match` does, and returns the record's line.
pub fn mark(record: &mut Record, re: &Regex) -> (r: String)
    ensures
        final(record).text@ == old(record).text@,
        final(record).spans@.take(old(record).spans@.len() as int) == old(record).spans@,
        spans_valid(
            final(record).text@.len(),
            final(record).spans@.skip(old(record).spans@.len() as int),
        ),
        spans_ordered(final(record).spans@.skip(old(record).spans@.len() as int)),
        converted(
            old(record).text@,
            regex_spans(*re, old(record).text@),
            final(record).spans@.skip(old(record).spans@.len() as int),
        ),
        r@ == record_json(final(record).text@, final(record).spans@),
{
    record.add_match(re);
    record.to_json()
}

/// The text of each span of `text`, in order.
pub fn texts_of_spans(text: &str, spans: &Vec<Span>) -> (r: Vec<String>)
    requires
        spans_valid(text@.len(), spans@),
    ensures
        r@.len() == spans@.len(),
        forall|k: int|
            0 <= k < spans@.len() ==> #[trigger] r@[k]@ == text@.subrange(
                spans@[k].start as int,
                spans@[k].end as int,
            ),
{
    let mut r: Vec<String> = Vec::new();
    let mut k: usize = 0;
    while k < spans.len()
        invariant
            spans_valid(text@.len(), spans@),
            k <= spans@.len(),
            r@.len() == k,
            forall|m: int|
                0 <= m < k ==> #[trigger] r@[m]@ == text@.subrange(
                    spans@[m].start as int,
                    spans@[m].end as int,
                ),
        decreases spans@.len() - k,
    {
        let s = &spans[k];
        assert(spans@[k as int].start <= spans@[k as int].end <= text@.len());
        r.push(text.substring_char(s.start, s.end).to_owned());
        k = k + 1;
    }
    r
}

/// The text of each match of `re` in the record's text, left to right; the
/// record's own spans play no part.
pub fn matched_texts(record: &Record, re: &Regex) -> (r: Vec<String>)
    ensures
        r@.len() == regex_spans(*re, record.text@).len(),
        forall|k: int|
            0 <= k < r@.len() ==> #[trigger] r@[k]@ == record.text@.subrange(
                char_index_of(record.text@, regex_spans(*re, record.text@)[k].start as int),
                char_index_of(record.text@, regex_spans(*re, record.text@)[k].end as int),
            ),
{
    let mut found = Record::new(record.text.as_str());
    found.add_match(re);
    proof {
        assert(found.spans@.skip(0) =~= found.spans@);
    }
    texts_of_spans(record.text.as_str(), &found.spans)
}

} // verus!
