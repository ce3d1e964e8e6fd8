//! A codec for the JCE tag-length-value wire format: field headers, the skip
//! algorithm that makes unknown fields safe to ignore, and encoders and decoders for
//! integers, strings, structs, lists, maps and raw byte arrays.

pub mod buf;
pub mod codec;
pub mod head;
pub mod laws;
pub mod value;
pub mod wire;
