//! A codec for the Bencode format: byte strings, integers, lists and
//! dictionaries with byte-string keys in strictly ascending order.
//!
//! `grammar` states the format as spec functions, `decode` and `encode` are
//! proved to follow it, and `laws` proves that decoding and encoding are
//! inverse on canonical data. `metainfo` reads a torrent's metainfo record
//! out of a decoded dictionary.
pub mod decode;
pub mod encode;
pub mod grammar;
pub mod laws;
pub mod metainfo;
pub mod text;
pub mod value;

pub use decode::{Decoder, MAX_DEPTH};
pub use encode::Encoder;
pub use metainfo::{
    MetaInfo, MetaInfoError, MetaInfoFileMode, MetaInfoFiles, MetaInfoMultiFileEntry,
    MetaInfoMultiFiles, MetaInfoSingleFile,
};
pub use value::{DecodeError, Term, Value};
