//! Incremental decoding of a newline-delimited JSON response stream.
//!
//! The response body of a streaming generation request arrives as byte chunks
//! whose boundaries need not match the boundaries of the records in it. The
//! library reassembles complete lines across chunks, hands each non-blank line
//! out to be parsed, and folds the parsed records into the accumulated text,
//! the token events and the completion flag.
//!
//! - `framing`: the byte-level model of splitting a stream into lines.
//! - `decoder`: the per-request decoding state and its record-level model.
//! - `transport`: the request value and the transport error.

pub mod decoder;
pub mod framing;
pub mod transport;

pub use decoder::{BodyEvent, DecodeState, Next, StreamRecord};
pub use transport::{check_status, DecodeError, StreamRequest};
