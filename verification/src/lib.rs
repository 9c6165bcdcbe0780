//! A self-describing binary document format (a BSON-style encoding), its
//! verified codec, a generic builder/reader framework that produces the same
//! wire bytes, and the pure message-framing logic of a small document-store
//! wire-protocol client.

pub mod codec;
pub mod format;
pub mod serialize;
pub mod wire;
pub mod value;

pub use codec::{
    BuilderError, DecodeResult, Decoder, DecoderError, EncodeResult, Encoder, EncoderError, decode,
    encode, from_vec, is_encodable,
};
pub use format::{ErrorCode, ParserError};
pub use value::{Bson, Id, List, Object, SpecValue};

