//! A minimal byte-source capability for callers that want to expose some
//! other backing store to this crate's users: one positioned read.

use vstd::prelude::*;

verus! {

/// Implement reading functionality from anything by implementing this
/// trait: copy `size` bytes starting at `position` into the front of
/// `buffer`, or report nothing on failure.
pub trait Read {
    fn read(&mut self, position: usize, size: usize, buffer: &mut Vec<u8>) -> Option<()>;
}

} // verus!
