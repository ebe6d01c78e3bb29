//! Hides a byte string in a JPEG file by reordering the symbols of its
//! Huffman tables, and recovers it again.

pub mod bignum;
pub mod perm;
pub mod ns0;
pub mod fns;
pub mod mixed;
pub mod ns1;
pub mod ns2;
pub mod marker;
pub mod error;
pub mod jpeg;
pub mod segments;
pub mod huffman;
pub mod prefix;
pub mod stream;
pub mod entropy;
pub mod secret;
pub mod engine;
