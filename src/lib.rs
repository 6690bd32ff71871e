//! A compact binary codec: typed values to a deterministic little-endian
//! byte stream and back. Scalars are written as their little-endian bytes,
//! growable sequences and text carry an 8-byte count, fixed sequences and
//! products are their elements back to back, and enums open with a tag
//! whose width depends on how many variants they declare.
//!
//! Types carry their codec through the `Encoded` and `Decoded` traits; a
//! struct or enum declared at run time as a `Shape` is encoded and decoded
//! field by field from that declaration.

pub mod error;
pub mod encoding;
pub mod scalar;
pub mod sequence;
pub mod bulk;
pub mod fixed;
pub mod text;
pub mod product;
pub mod sum;
pub mod laws;
pub mod schema;
