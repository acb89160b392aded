//! LOUDS (level-order unary degree sequence) trees: a succinct encoding of
//! ordered rooted trees over a rank/select bit vector, with constant-time
//! navigation, plus a trie specialization built by freezing a mutable trie.

pub mod bits;
pub mod louds;
pub mod trie;
pub mod trie_vec;
pub mod trie_louds;

pub use crate::louds::Louds;
pub use crate::trie::Trie;
pub use crate::trie_louds::TrieLouds;
pub use crate::trie_vec::BFIter;
pub use crate::trie_vec::TrieVec;
