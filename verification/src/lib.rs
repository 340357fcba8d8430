//! A compressed, multi-token-edge trie over sequences of discrete tokens,
//! together with a second structure that abstracts the trie by grouping
//! sibling edges according to the length of their labels.
//!
//! The pipeline has two stages: segmented trie construction
//! ([`trie::TrieNode::from_sequences`]), whose edges carry variable-length
//! token segments chosen by a divergence-point heuristic, and length-grouped
//! abstraction ([`grouped::LengthGroupedNode::from_trie`]), which merges
//! siblings of equal label length and unions their grandchildren.
//!
//! Both stages return their exact mathematical model. The laws of the
//! builder are proved in [`trie`]: round-trip coverage
//! ([`trie::lemma_round_trip`]), idempotence under duplication and
//! reordering ([`trie::lemma_build_idempotent`]), the sibling no-overlap
//! invariant ([`trie::lemma_trie_no_overlap`]) with the uniqueness of walks
//! it gives ([`trie::lemma_walk_unique`]), and exact terminality
//! ([`trie::lemma_build_contains`], [`trie::lemma_root_terminal`]). Terminal
//! monotonicity of the abstraction is proved in [`grouped`]
//! ([`grouped::lemma_merge_terminal`], [`grouped::lemma_transform_terminal`]).

pub mod grouped;
pub mod order;
pub mod seq_util;
pub mod token;
pub mod trie;

pub use grouped::LengthGroupKey;
pub use grouped::LengthGroupedNode;
pub use token::Token;
pub use token::TokenCmp;
pub use trie::TrieNode;
