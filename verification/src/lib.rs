//! Detection, replacement and removal of forbidden terms in Unicode text.
//!
//! A [`Filter`] owns a vocabulary of forbidden terms. It finds the terms in a
//! text, also where they are disguised by phonetic spelling or by visually
//! similar characters, and masks or removes them. Exact matching is done by
//! a [`MultiPatternEngine`], which runs one of three back ends chosen by the
//! size of the vocabulary; the block-hash matcher [`WuManber`] is the one
//! built here. Disguises are recognised by a [`VariantDetector`].
//!
//! Every function states what it returns as a contract over sequences of
//! characters, and the contracts are proved.

pub mod cache;
pub mod engine;
pub mod estimate;
pub mod filter;
pub mod link_list;
pub mod order;
pub mod text;
pub mod trie;
pub mod variant;

pub use engine::wumanber::{Match, SpaceHandling, WuManber, WuManberMemoryStats, WuManberStats};
pub use engine::{EngineStats, MatchAlgorithm, MatchInfo, MultiPatternEngine};
pub use filter::Filter;
pub use link_list::LinkList;
pub use trie::{Trie, TrieNode};
pub use variant::VariantDetector;
