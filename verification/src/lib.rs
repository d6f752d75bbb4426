//! A schema-driven binary codec.
//!
//! The crate derives, from the shape of a data type, a byte-level encoding and
//! a matching decoding procedure: fixed-width little-endian scalars,
//! length-prefixed UTF-8 text, count-prefixed sequences, markerless optional
//! values, concatenated products and tag-prefixed sums.  Encoding is
//! infallible on well-formed values; decoding validates the buffer and reports
//! the first failure through [`OrbyteError`].

pub mod serialize;
pub mod deserialize;
mod error;
pub mod message;
pub mod schema;
pub mod engine;

pub use serialize::Serialize;
pub use deserialize::Deserialize;
pub use error::OrbyteError;
pub use message::ChatMessage;
pub use message::Content;
pub use message::Content3;
pub use message::FileData;
