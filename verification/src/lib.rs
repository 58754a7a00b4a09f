//! A prefix-free binary code built from observed character frequencies.
//!
//! The library counts symbol frequencies over one or more input strings,
//! greedily merges the two least-frequent entries until a single code tree
//! remains, and then uses that tree to encode strings into bit sequences
//! and to decode bit sequences back into strings.

pub mod builder;
pub mod code;
pub mod error;
pub mod laws;
pub mod node;
pub mod tree;

pub use code::HuffmanCode;
pub use error::HuffcodeError;
pub use node::Node;
pub use tree::HuffmanTree;
