use super::free_header::{FreeHeader, HEADER_SIZE};
use super::region::{all_valid, merge_head, merge_next, Region};
use crate::relation::Relation;
use core::ops::Range;
use vstd::prelude::*;

verus! {

/// An owning handle over a free region. The header it holds describes the
/// region that starts at `base`; through the header's link it owns the
/// blocks that follow.
#[derive(Debug)]
pub struct FreeBlock {
    pub base: usize,
    pub header: Box<FreeHeader>,
}

/// The regions of an optional chain, in traversal order.
pub open spec fn chain_regions(chain: Option<FreeBlock>) -> Seq<Region> {
    match chain {
        Some(block) => block.regions(),
        None => Seq::empty(),
    }
}

impl FreeBlock {
    /// The region this block stands for.
    pub open spec fn region(&self) -> Region {
        Region { base: self.base as int, size: self.header.size as int }
    }

    /// The regions of this block and of the blocks that follow it.
    pub open spec fn regions(&self) -> Seq<Region>
        decreases self,
    {
        seq![self.region()] + match self.header.next {
            Some(next) => next.regions(),
            None => Seq::empty(),
        }
    }

    /// Every block of the chain stands for a valid region.
    pub open spec fn wf(&self) -> bool {
        all_valid(self.regions())
    }

    /// The chain is its own region followed by the regions behind its link.
    pub proof fn lemma_regions(&self)
        ensures
            self.regions() == seq![self.region()] + chain_regions(self.header.next),
            self.regions().len() == 1 + chain_regions(self.header.next).len(),
            self.regions()[0] == self.region(),
            self.regions().drop_first() == chain_regions(self.header.next),
    {
        let tail = chain_regions(self.header.next);
        assert(self.regions() == seq![self.region()] + tail);
        assert((seq![self.region()] + tail).drop_first() =~= tail);
    }

    /// In a well-formed chain the first block and the chain behind it are
    /// well formed.
    pub proof fn lemma_wf(&self)
        requires
            self.wf(),
        ensures
            self.region().valid(),
            all_valid(chain_regions(self.header.next)),
    {
        self.lemma_regions();
        let s = self.regions();
        let tail = chain_regions(self.header.next);
        assert(s[0].valid());
        assert forall|i: int| 0 <= i < tail.len() implies (#[trigger] tail[i]).valid() by {
            assert(s[i + 1] == tail[i]);
        }
    }

    /// Whether the block can give up `size` bytes and still hold a header.
    pub fn can_split(&self, size: usize) -> (can: bool)
        ensures
            can == (self.header.size as int >= size as int + HEADER_SIZE as int),
    {
        self.header.size >= size && self.header.size - size >= HEADER_SIZE
    }

    /// How this block's region lies relative to `other`'s.
    pub fn relation(&self, other: &Self) -> (relation: Relation)
        requires
            self.region().end() <= usize::MAX,
            other.region().end() <= usize::MAX,
        ensures
            relation == self.region().relation(other.region()),
    {
        let self_start: usize = self.base;
        let self_end: usize = self_start + self.header.size;
        let other_start: usize = other.base;
        let other_end: usize = other_start + other.header.size;
        if self_end < other_start {
            Relation::Before
        } else if self_end == other_start {
            Relation::AdjacentBefore
        } else if self_start < other_end {
            Relation::Overlapping
        } else if self_start == other_end {
            Relation::AdjacentAfter
        } else {
            Relation::After
        }
    }

    /// Makes the block that stands for `[ptr, ptr + size)`, linked to `next`.
    pub fn from_raw(ptr: usize, next: Option<FreeBlock>, size: usize) -> (block: FreeBlock)
        requires
            (Region { base: ptr as int, size: size as int }).valid(),
        ensures
            block.base == ptr,
            block.header.size == size,
            block.header.next == next,
    {
        FreeBlock { base: ptr, header: Box::new(FreeHeader::from_raw(next, size)) }
    }

    /// The addresses of the block, from its first to one past its last.
    pub fn as_range(&self) -> (range: Range<usize>)
        requires
            self.region().end() <= usize::MAX,
        ensures
            range.start == self.base,
            range.end == self.region().end(),
    {
        self.base..(self.base + self.header.size)
    }

    /// Gives up the block: its address range, no longer described by any
    /// header, and the chain that followed it.
    pub fn decompose(self) -> (parts: (Range<usize>, Option<FreeBlock>))
        requires
            self.region().end() <= usize::MAX,
        ensures
            parts.0.start == self.base,
            parts.0.end == self.region().end(),
            parts.1 == self.header.next,
    {
        let mut block = self;
        let next = block.take_next();
        let range = block.as_range();
        (range, next)
    }

    /// The block that follows this one.
    pub fn next(&self) -> (next: Option<&Self>)
        ensures
            next is Some <==> self.header.next is Some,
            next is Some ==> *next->0 == self.header.next->0,
    {
        self.header.next.as_ref()
    }

    /// Exclusive access to the block that follows this one.
    pub fn next_mut(&mut self) -> (next: Option<&mut Self>)
        ensures
            final(self).base == old(self).base,
            final(self).header.size == old(self).header.size,
            match old(self).header.next {
                None => next is None && final(self).header.next is None,
                Some(block) => {
                    &&& next is Some
                    &&& *next->0 == block
                    &&& final(self).header.next == Some(*final(next->0))
                },
            },
    {
        self.header.next.as_mut()
    }

    /// Unlinks and returns the chain that follows this block.
    #[must_use]
    pub fn take_next(&mut self) -> (next: Option<Self>)
        ensures
            next == old(self).header.next,
            final(self).header.next is None,
            final(self).base == old(self).base,
            final(self).header.size == old(self).header.size,
    {
        self.header.next.take()
    }

    /// Links `new_next` behind this block and returns the chain that was
    /// there before.
    #[must_use]
    pub fn replace_next(&mut self, new_next: FreeBlock) -> (previous: Option<Self>)
        ensures
            previous == old(self).header.next,
            final(self).header.next == Some(new_next),
            final(self).base == old(self).base,
            final(self).header.size == old(self).header.size,
    {
        let previous = self.header.next.take();
        self.header.next = Some(new_next);
        previous
    }

    /// The size of the block's region in bytes, header included.
    pub fn size(&self) -> (size: usize)
        ensures
            size == self.header.size,
    {
        self.header.get_size()
    }

    /// The header of the block.
    pub fn header_view(&self) -> (header: &FreeHeader)
        ensures
            *header == *self.header,
    {
        &*self.header
    }

    /// Exclusive access to the header of the block.
    pub fn header_mut(&mut self) -> (header: &mut FreeHeader)
        ensures
            *header == *old(self).header,
            *final(self).header == *final(header),
            final(self).base == old(self).base,
    {
        &mut *self.header
    }

    /// Removes the block that follows this one from the chain and returns
    /// it on its own; the blocks behind it now follow this one.
    #[must_use]
    pub fn pop_next(&mut self) -> (popped: Option<FreeBlock>)
        ensures
            final(self).base == old(self).base,
            final(self).header.size == old(self).header.size,
            match old(self).header.next {
                None => popped is None && final(self).header.next is None,
                Some(next) => {
                    &&& popped is Some
                    &&& popped->0.base == next.base
                    &&& popped->0.header.size == next.header.size
                    &&& popped->0.header.next is None
                    &&& final(self).header.next == next.header.next
                },
            },
    {
        match self.take_next() {
            None => None,
            Some(mut next) => {
                let after = next.take_next();
                self.header.next = after;
                Some(next)
            },
        }
    }

    /// Links `block` directly behind this one; what followed this block now
    /// follows `block`, whose own chain is given up.
    pub fn insert(&mut self, block: FreeBlock)
        ensures
            final(self).base == old(self).base,
            final(self).header.size == old(self).header.size,
            final(self).header.next is Some,
            final(self).header.next->0.base == block.base,
            final(self).header.next->0.header.size == block.header.size,
            final(self).header.next->0.header.next == old(self).header.next,
            final(self).regions() == seq![old(self).region(), block.region()] + chain_regions(
                old(self).header.next,
            ),
    {
        let mut block = block;
        let after = self.take_next();
        block.header.next = after;
        proof {
            block.lemma_regions();
        }
        self.header.next = Some(block);
        proof {
            self.lemma_regions();
            assert(self.regions() =~= seq![old(self).region(), block.region()] + chain_regions(
                old(self).header.next,
            ));
        }
    }

    /// Takes the upper `size` bytes off the block and returns them as a
    /// range that no header describes; the block keeps its base.
    pub fn split(&mut self, size: usize) -> (range: Range<usize>)
        requires
            old(self).header.size as int >= size as int + HEADER_SIZE as int,
            old(self).region().end() <= usize::MAX,
        ensures
            range.start == old(self).region().end() - size,
            range.end == old(self).region().end(),
            final(self).base == old(self).base,
            final(self).header.size == old(self).header.size - size,
            final(self).header.next == old(self).header.next,
    {
        let old_size: usize = self.header.size;
        self.header.size = old_size - size;
        let base: usize = self.base;
        (base + (old_size - size))..(base + old_size)
    }

    /// Absorbs the following block if this block ends where it begins.
    /// Returns whether it did.
    fn absorb_next(&mut self) -> (merged: bool)
        requires
            old(self).wf(),
        ensures
            final(self).wf(),
            final(self).regions() == merge_next(old(self).regions()),
            merged == (old(self).regions().len() >= 2 && old(self).regions()[0].end() == old(
                self,
            ).regions()[1].base),
            final(self).base == old(self).base,
    {
        proof {
            self.lemma_regions();
            self.lemma_wf();
        }
        let next = self.take_next();
        match next {
            None => {
                proof {
                    self.lemma_regions();
                    assert(self.regions() =~= old(self).regions());
                }
                false
            },
            Some(mut absorbed) => {
                proof {
                    absorbed.lemma_regions();
                    absorbed.lemma_wf();
                }
                if self.base + self.header.size == absorbed.base {
                    let rest = absorbed.take_next();
                    self.header.size = self.header.size + absorbed.header.size;
                    self.header.next = rest;
                    proof {
                        let s = old(self).regions();
                        self.lemma_regions();
                        assert(s.subrange(2, s.len() as int) =~= chain_regions(rest));
                        assert(self.regions() =~= seq![s[0].join(s[1])] + s.subrange(
                            2,
                            s.len() as int,
                        ));
                        assert forall|i: int| 0 <= i < self.regions().len() implies (
                        #[trigger] self.regions()[i]).valid() by {
                            if i > 0 {
                                assert(self.regions()[i] == s[i + 1]);
                            }
                        }
                    }
                    true
                } else {
                    self.header.next = Some(absorbed);
                    proof {
                        self.lemma_regions();
                        assert(self.regions() =~= old(self).regions());
                    }
                    false
                }
            },
        }
    }

    /// Absorbs the following block if this block ends where it begins,
    /// and then once more the block that follows if that touches too.
    /// Returns whether anything was merged.
    pub fn try_merge_next(&mut self) -> (merged: bool)
        requires
            old(self).wf(),
        ensures
            final(self).wf(),
            final(self).regions() == merge_head(old(self).regions()),
            merged == (old(self).regions().len() >= 2 && old(self).regions()[0].end() == old(
                self,
            ).regions()[1].base),
            final(self).base == old(self).base,
    {
        if self.absorb_next() {
            let _ = self.absorb_next();
            true
        } else {
            false
        }
    }

    /// Links the lone block `block`, whose region lies behind this one,
    /// into the chain directly behind this block, merging it with this
    /// block and with the block that follows wherever they touch. Returns
    /// one for a merge into this block plus one if a merge with what
    /// follows took place.
    pub fn insert_merge(&mut self, block: FreeBlock) -> (merges: usize)
        requires
            old(self).wf(),
            block.region().valid(),
            block.header.next is None,
        ensures
            final(self).wf(),
            final(self).base == old(self).base,
            ({
                let p = old(self).region();
                let r = block.region();
                let rest = chain_regions(old(self).header.next);
                if p.end() == r.base {
                    &&& final(self).regions() == merge_head(seq![p.join(r)] + rest)
                    &&& merges == 1 + (if rest.len() > 0 && r.end() == rest[0].base {
                        1int
                    } else {
                        0int
                    })
                } else {
                    &&& final(self).regions() == seq![p] + merge_head(seq![r] + rest)
                    &&& merges == (if rest.len() > 0 && r.end() == rest[0].base {
                        1int
                    } else {
                        0int
                    })
                }
            }),
    {
        proof {
            self.lemma_regions();
            self.lemma_wf();
        }
        let ghost p = self.region();
        let ghost r = block.region();
        let ghost rest = chain_regions(self.header.next);
        if self.base + self.header.size == block.base {
            self.header.size = self.header.size + block.header.size;
            proof {
                self.lemma_regions();
                assert(self.regions() =~= seq![p.join(r)] + rest);
                assert forall|i: int| 0 <= i < self.regions().len() implies (
                #[trigger] self.regions()[i]).valid() by {
                    if i > 0 {
                        assert(self.regions()[i] == rest[i - 1]);
                    }
                }
            }
            let merged = self.try_merge_next();
            if merged {
                2
            } else {
                1
            }
        } else {
            self.insert(block);
            let mut next = self.take_next().unwrap();
            proof {
                next.lemma_regions();
                assert(next.regions() =~= seq![r] + rest);
                assert forall|i: int| 0 <= i < next.regions().len() implies (
                #[trigger] next.regions()[i]).valid() by {
                    if i > 0 {
                        assert(next.regions()[i] == rest[i - 1]);
                    }
                }
            }
            let merged = next.try_merge_next();
            self.header.next = Some(next);
            proof {
                self.lemma_regions();
                assert(self.regions() =~= seq![p] + merge_head(seq![r] + rest));
                assert forall|i: int| 0 <= i < self.regions().len() implies (
                #[trigger] self.regions()[i]).valid() by {
                    if i > 0 {
                        assert(self.regions()[i] == next.regions()[i - 1]);
                    }
                }
            }
            if merged {
                1
            } else {
                0
            }
        }
    }
}

} // verus!
