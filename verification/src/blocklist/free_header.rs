use super::free_block::FreeBlock;
use vstd::prelude::*;

verus! {

/// The number of bytes a header takes at the start of a free region.
pub const HEADER_SIZE: usize = 16;

/// The record that describes a free region: its size in bytes, header
/// included, and the owning link to the free region that follows.
#[derive(Debug)]
pub struct FreeHeader {
    pub next: Option<FreeBlock>,
    pub size: usize,
}

impl FreeHeader {
    /// Makes the header of a region of `size` bytes that is followed by
    /// `next`.
    pub fn from_raw(next: Option<FreeBlock>, size: usize) -> (header: FreeHeader)
        ensures
            header.next == next,
            header.size == size,
    {
        FreeHeader { next, size }
    }

    pub fn get_size(&self) -> (size: usize)
        ensures
            size == self.size,
    {
        self.size
    }

    pub fn set_size(&mut self, new_size: usize)
        ensures
            final(self).size == new_size,
            final(self).next == old(self).next,
    {
        self.size = new_size;
    }
}

pub fn header_size() -> (size: usize)
    ensures
        size == HEADER_SIZE,
{
    HEADER_SIZE
}

} // verus!
