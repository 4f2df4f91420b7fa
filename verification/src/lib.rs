//! A record-stream codec for a binary-text hardware test-vector format.
//!
//! The wire format is a sequence of text lines, each carrying a tagged
//! record: an optional message-length announcement and an optional data
//! byte. A stateful reconstructor reassembles the records into framed
//! messages and pairs each completed message with a rolling two-accumulator
//! checksum. An encoder performs the inverse transform from text content
//! to records.

pub mod codec;
pub mod encoder;
pub mod record;
pub mod stream;
