//! A content-addressable object store and staging-index codec.
//!
//! The crate holds the byte-exact encodings of blobs, trees and commits, the
//! rule that derives an identifier from an encoding, the pipeline that turns a
//! stored record back into an object, and the binary layout of the staging
//! index. Every function carries a contract over a mathematical model of the
//! bytes it reads or writes.

pub mod blob;
pub mod bytes;
pub mod commit;
pub mod cursor;
pub mod decimal;
pub mod endian;
pub mod error;
pub mod index;
pub mod object;
pub mod odb;
pub mod oid;
pub mod text;
pub mod tree;
