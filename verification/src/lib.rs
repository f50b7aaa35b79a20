//! A prefix tree that maps keys made of ASCII letters to 32-bit ids.
//!
//! Upper and lower case are different symbols, so the alphabet has 52 of them. `Trie`
//! is the map; it offers insertion, lookup of an exact key, and deletion, which also
//! removes every node that the deleted key alone was keeping in the tree. A text is
//! checked with `check_key` before it is used as a key.

pub mod alphabet;
pub mod history;
pub mod node;
pub mod trie;

pub use alphabet::{check_key, InvalidSymbol};
pub use node::Node;
pub use trie::Trie;
