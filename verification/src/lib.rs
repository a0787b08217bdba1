//! An in-memory B+ tree over variable-length byte keys, laid out in
//! fixed-size slotted pages.
//!
//! Each key maps to an address that the tree stores and never follows. A
//! page holds a sorted directory of slots at its low end and the keys, each
//! behind its address, at its high end. A page does not say whether it is
//! a leaf or a branch: the tree knows its height and counts it down on the
//! way from the root.
//!
//! - [`keys`]: the order of keys, common prefixes, separators, fingerprints.
//! - [`flex`]: the raw page, its directory and its heap.
//! - [`slotted_leaf`] and [`slotted_branch`]: the two kinds of page, each
//!   with its lookup, its insertion and its cut.
//! - [`room`]: a length of keys up to which every cut fits.
//! - [`probe`]: whether the pages on the way of a key have room for it.
//! - [`span`], [`pages`], [`upkeep`]: the store of the pages of a tree,
//!   what it means for it to be in order, and why insertion keeps it so.
//! - [`census`]: the number of pages under a page.
//! - [`laws`]: what holds of every store that is in order.
//! - [`btree`]: the tree itself.

use vstd::prelude::*;

pub mod btree;
pub mod census;
pub mod flex;
pub mod keys;
pub mod laws;
pub mod pages;
pub mod probe;
pub mod room;
pub mod slotted_branch;
pub mod slotted_leaf;
pub mod span;
pub mod upkeep;

verus! {

/// Size in bytes of one tree page.
pub const PAGE_SIZE: usize = 4096;

/// Size in bytes of one stored address.
pub const PTR_SIZE: usize = 8;

} // verus!
