//! Bidirectional conversion between a JSON-like value tree and TOON, a
//! line-oriented, indentation-based notation with explicit array lengths and
//! field lists.
//!
//! [`encode`] writes a [`Value`] as TOON text and [`decode`] reads it back.
//! Both are specified by the spec functions of their modules: the decoder by
//! `decoder::decode_spec`, the encoder by `encoder::encode_spec`.

pub mod common;
pub mod decoder;
pub mod encoder;
pub mod error;
pub mod laws;
pub mod text;
pub mod value;
pub mod wf;

pub use common::Delimiter;
pub use decoder::{decode, Decoder, DecoderOptions};
pub use encoder::{encode, Encoder, EncoderOptions};
pub use error::DecodeError;
pub use value::{Number, Value};
pub use wf::is_encodable;
