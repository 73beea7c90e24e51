//! A slotted heap page: a fixed-size block of bytes that stores variable-length
//! values under stable slot ids, recycles the ids of deleted values, and
//! serializes to and from exactly `PAGE_SIZE` bytes.
use vstd::prelude::*;

pub mod layout;
pub mod page;
pub mod laws;
pub mod history;

verus! {

/// The size in bytes of a page, both in memory and once serialized.
pub const PAGE_SIZE: usize = 4096;

/// Identifies a page.
pub type PageId = u16;

/// Identifies a value within a page.
pub type SlotId = u16;

} // verus!
