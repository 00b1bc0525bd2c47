//! A codec for Bencode: integers, byte strings, lists and key-sorted
//! dictionaries, decoded from and encoded to their exact binary framing.
//!
//! `decode` reads one value from the start of a byte buffer and says how
//! many bytes it took up; `encode` writes a value in canonical form. What
//! both do is stated over a mathematical model of values (`model`) and of
//! the wire format (`syntax`), and proved of the code. The modules `sound`,
//! `roundtrip` and `locality` prove what holds of the format itself: that
//! decoding undoes encoding, that a decode looks at no byte beyond its
//! value, that nothing cut short decodes.

pub mod decimal;
pub mod decoder;
pub mod encoder;
pub mod error;
pub mod locality;
pub mod model;
pub mod order;
pub mod roundtrip;
pub mod sound;
pub mod syntax;
pub mod text;
pub mod value;

pub use crate::decoder::{decode, decode_with, DecodeOptions, DEFAULT_MAX_DEPTH};
pub use crate::encoder::{encode, encode_into};
pub use crate::error::{DecodeError, DecodeErrorKind};
pub use crate::value::{BValue, Dictionary};
