//! Subtree Prune-and-Regraft (SPR) on a rooted binary phylogenetic tree.
//!
//! The tree lives in an index-addressed arena ([`arena::FlatTree`]): node
//! records linked by integer indices rather than owning pointers. The
//! recipient's parent is repurposed as a new junction that parents donor
//! and recipient together in the donor's former place, and the recipient's
//! sibling is re-attached one level up — or promoted to the root — so that
//! a new valid rooted binary topology results.
//!
//! An owned hierarchical form ([`hier::HierNode`]) serves as the interchange
//! representation at the parse/serialize boundary; [`bridge`] converts
//! between the two. [`walk`] provides pre-order traversal, name lookup and
//! the ancestry check that guards the move; [`rearrange`] holds the SPR
//! operator itself.

pub mod arena;
pub mod bridge;
pub mod hier;
pub mod rearrange;
pub mod walk;
