//! A content-addressed object store in the style of a version-control
//! object database: objects are framed in a length-prefixed, type-tagged
//! envelope, named by the SHA-1 digest of that envelope, and kept
//! zlib-compressed under a two-level directory layout.

pub mod bytes;
pub mod codec;
pub mod decimal;
pub mod envelope;
pub mod error;
pub mod kind;
pub mod object;
pub mod oid;
pub mod store;
pub mod text;
pub mod tree;
