//! A binary serialization codec: a configurable, symmetric encode/decode
//! engine that turns in-memory values into a compact byte stream and back,
//! with byte-budget accounting that rejects maliciously large length
//! prefixes before any storage is allocated for them.

pub mod config;
pub mod error;
pub mod wire;
pub mod reader;
pub mod de;
pub mod enc;
pub mod codec;
pub mod collections;
