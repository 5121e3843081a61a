//! A stream of records, one per line of a source. The source itself is read
//! by the caller, which hands each outcome of a read to the stream.
use vstd::prelude::*;
use crate::decode::ParseError;
use crate::json::parse_record;
use crate::record::Record;

verus! {

/// What one read of a line from the source gave.
pub enum ReadOutcome {
    /// A line, with its `\n` if it had one.
    Line(String),
    /// Nothing more: zero bytes were read.
    End,
    /// The read failed, for the reason given.
    Failed(String),
}

/// Why the stream stopped early.
#[derive(Debug, PartialEq, Eq, Clone)]
pub enum StreamError {
    /// Reading the source failed.
    Io(String),
    /// A line did not hold a record.
    Parse(ParseError),
}

/// A line without its terminating `\n`.
pub open spec fn payload(line: Seq<char>) -> Seq<char> {
    if line.len() > 0 && line.last() == '\n' {
        line.drop_last()
    } else {
        line
    }
}

/// The state of a stream: ready for more lines, or exhausted for good (at
/// the end of the source, or after a failure).
pub struct Records {
    exhausted: bool,
}

impl Records {
    pub closed spec fn is_exhausted_spec(&self) -> bool {
        self.exhausted
    }

    /// A stream that is ready for the first line.
    pub fn new() -> (r: Records)
        ensures
            !r.is_exhausted_spec(),
    {
        Records { exhausted: false }
    }

    pub fn is_exhausted(&self) -> (r: bool)
        ensures
            r == self.is_exhausted_spec(),
    {
        self.exhausted
    }

    /// Takes the outcome of one read of the source and yields the next
    /// record, an error, or `None` at the end. Once the source has ended or
    /// anything has failed, the stream stays exhausted and yields `None`.
    pub fn next(&mut self, read: ReadOutcome) -> (r: Option<Result<Record, StreamError>>)
        ensures
            old(self).is_exhausted_spec() ==> r is None && final(self).is_exhausted_spec(),
            !old(self).is_exhausted_spec() ==> match read {
                ReadOutcome::End => r is None && final(self).is_exhausted_spec(),
                ReadOutcome::Failed(m) => r == Some(
                    Err::<Record, StreamError>(StreamError::Io(m)),
                ) && final(self).is_exhausted_spec(),
                ReadOutcome::Line(l) => match parse_record(payload(l@)) {
                    Some((t, sp)) => (r matches Some(Ok(rec)) && rec.text@ == t && rec.spans@ == sp)
                        && !final(self).is_exhausted_spec(),
                    None => (r matches Some(Err(StreamError::Parse(e))) && e.line@ == payload(l@))
                        && final(self).is_exhausted_spec(),
                },
            },
    {
        if self.exhausted {
            return None;
        }
        match read {
            ReadOutcome::End => {
                self.exhausted = true;
                None
            },
            ReadOutcome::Failed(m) => {
                self.exhausted = true;
                Some(Err(StreamError::Io(m)))
            },
            ReadOutcome::Line(l) => {
                let text = l.as_str();
                let n = text.unicode_len();
                let body = if n > 0 && text.get_char(n - 1) == '\n' {
                    text.substring_char(0, n - 1)
                } else {
                    text
                };
                proof {
                    assert(body@ == payload(l@));
                }
                match Record::from_json(body) {
                    Ok(rec) => Some(Ok(rec)),
                    Err(e) => {
                        self.exhausted = true;
                        Some(Err(StreamError::Parse(e)))
                    },
                }
            },
        }
    }
}

} // verus!
