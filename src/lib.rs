//! Annotating lines of text with the positions of pattern matches, rendering
//! masked views of them, and reading them back from a line-oriented format.
pub mod offsets;
pub mod record;
pub mod json;
pub mod decode;
pub mod stream;
pub mod commands;

pub use commands::{import, mark, matched_texts, texts_of_spans};
pub use decode::ParseError;
pub use offsets::{byte_offset, char_span, OffsetError, Span};
pub use record::{PatternError, Record};
pub use stream::{ReadOutcome, Records, StreamError};
