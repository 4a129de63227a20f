//! TENS: a deterministic, canonical serialization scheme for JSON-like data.
//!
//! The crate offers two interchangeable encodings — a compact binary opcode
//! format (TENS v2) and a human-readable record format (TENS-Text) — together
//! with SHA-256 content hashing of the binary bytes.  Values are canonicalized
//! before encoding so that logically equal inputs produce byte-identical
//! output.

pub mod binary;
pub mod canon;
pub mod floatbits;
pub mod hashing;
pub mod laws;
pub mod schema;
pub mod strtab;
pub mod text;
pub mod strutil;
pub mod value;
pub mod varint;
