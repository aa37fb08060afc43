//! A compact cross-language binary serialization core: byte buffers with
//! variable-length integers, typed serializers for strings and mappings,
//! mode-dependent struct framing, and a UTF-16 to UTF-8 transcoder.
pub mod buffer;
pub mod error;
pub mod map;
pub mod serializer;
pub mod structs;
pub mod types;
pub mod utf16;
pub mod varint;

pub use utf16::{
    target_is_little_endian, transcode_units, transcode_units_batched, utf16_to_utf8,
    utf16_to_utf8_batched, utf16_to_utf8_on, Utf16Error,
};
