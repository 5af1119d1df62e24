//! A buffered reader for protocols whose responses are lines that end in a
//! carriage return and a line feed.
//!
//! [`MyBufReader`] owns a [`ByteSource`] and a buffer of fixed size. `read_line`
//! hands out the first line as a slice of the buffer, `consume` releases it,
//! `read_exact` fills a region of the caller with the bytes that come next. A
//! line that does not fit the buffer, a source that runs dry in the middle of a
//! line and a source that fails are answered with a [`ReadError`]; the buffer
//! keeps what it had received.
//!
//! The module `line` says where a line ends, `reader` holds the reader and its
//! contracts, `source` the sources and the log that a source may keep of its
//! reads, and `stream` what follows from the contracts for the bytes that pass
//! through a reader: that lines which a source delivers are read back whole and
//! in order, whatever the pieces in which they arrive.

pub mod error;
pub mod line;
pub mod reader;
pub mod source;
pub mod stream;

pub use error::ReadError;
pub use line::get_line;
pub use reader::MyBufReader;
pub use source::{ByteSource, MemorySource};
