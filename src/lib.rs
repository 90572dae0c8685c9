//! Serialization of bit-flag sets: a flags value is written either as the
//! text of its set flag names (human-readable formats) or as its raw bits
//! (compact formats), and read back from either form without ever dropping
//! bits that no declared flag explains.

mod chars;
pub mod hex;
pub mod flags;
pub mod error;
pub mod text;
pub mod codec;
pub mod text_laws;
