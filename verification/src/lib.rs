//! A crit-bit tree: a binary trie that stores a set of byte-string keys.
//!
//! Bits are numbered LSB-first: bit 0 is the least significant bit of byte 0,
//! and bit `n` is bit `n % 8` (from the least significant end) of byte `n / 8`.
//! `crit_bit_pos` and `get_bit` share this convention, so whenever two keys
//! differ in some bit, `get_bit` reads opposite bits of them at the index that
//! `crit_bit_pos` returns. Keys that differ only in trailing zero bytes hold
//! the same bits; the tree tells them apart by length.
pub mod bits;
pub mod laws;
pub mod tree;

pub use bits::{crit_bit_pos, get_bit};
pub use tree::{CritBitTree, InternalNode, Node};
