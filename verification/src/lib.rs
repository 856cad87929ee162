//! An interval tree over half-open text ranges.
//!
//! Keys are ranges `[start, end)` of text positions and no two stored keys
//! overlap: inserting a range that straddles stored ranges splits both into
//! pieces.  The tree is a left-leaning red-black tree whose nodes carry their
//! subtree size and a back-reference to their parent.
//!
//! A tree stands for the sequence of its entries in key order (`model`).
//! `node` and `balance` hold the nodes and their rotations, `insert` and
//! `delete` the two ways a tree grows and shrinks, `tree` the tree itself,
//! `put` how a key that cuts stored intervals goes in piece by piece, and
//! `edit`, `split` and `clean` what the tree does to whole ranges.  `llrb`
//! says what the red-black shape is, and `laws` what holds of every tree.
pub mod advance;
pub mod balance;
pub mod clean;
pub mod delete;
pub mod edit;
pub mod insert;
pub mod laws;
pub mod llrb;
pub mod model;
pub mod neighbour;
pub mod node;
pub mod pieces;
pub mod place;
pub mod put;
pub mod query;
pub mod range;
pub mod search;
pub mod split;
pub mod tree;
pub mod visit;

pub use node::{BoxedNode, Color, MaybeNode, Node};
pub use range::TextRange;
pub use tree::IntervalTree;
