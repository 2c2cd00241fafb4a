use super::free_block::{chain_regions, FreeBlock};
use super::free_header::HEADER_SIZE;
use super::list_proofs::{
    lemma_audit_bounds, lemma_audit_clean, lemma_sum_aligned, lemma_total_size_bounds,
    lemma_wrapped_total,
};
use super::pop_proofs::{
    lemma_after_pop, lemma_after_pop_valid, lemma_after_take, lemma_after_take_valid,
    lemma_first_fit_at, lemma_index_of_base, lemma_index_of_base_at,
};
use super::region::{
    adjacents, after_pop, after_take, all_valid, can_take, clear_of, first_fit, fits, index_of_base,
    list_inv, out_of_orders, overlaps, popped, released, separated, total_size, wrapped_total,
    Region, HEADER_ALIGN,
};
use super::release_proofs::{
    lemma_release_deep, lemma_release_front, lemma_release_here, lemma_released,
};
use super::stats::Stats;
use super::validity::Validity;
use crate::relation::Relation;
use core::ops::Range;
use vstd::prelude::*;

verus! {

/// The free list: the free blocks of a heap, linked in address order.
#[derive(Debug)]
pub struct BlockList {
    first: Option<FreeBlock>,
    length: usize,
}

/// How a step of a traversal ended: go on with a state, stop with a
/// result, or give up with a state.
pub enum ApplyState<C, R> {
    Continue(C),
    Finished(R),
    Fail(C),
}

impl<C, R> ApplyState<C, R> {
    /// The result of a traversal that stopped with one.
    pub fn into_result(self) -> (result: Option<R>)
        ensures
            result == (match self {
                ApplyState::Finished(r) => Some(r),
                _ => None,
            }),
    {
        match self {
            ApplyState::Finished(result) => Some(result),
            _ => None,
        }
    }
}

/// A forward traversal of a free list, block by block.
#[derive(Debug)]
pub struct BlockIter<'list> {
    next: Option<&'list FreeBlock>,
}

impl<'list> BlockIter<'list> {
    /// The regions still to come, in traversal order.
    pub closed spec fn remaining(&self) -> Seq<Region> {
        match self.next {
            Some(block) => block.regions(),
            None => Seq::empty(),
        }
    }

    /// Hands out the next block, if there is one, and moves on.
    pub fn next(&mut self) -> (item: Option<&'list FreeBlock>)
        ensures
            old(self).remaining().len() == 0 ==> item is None && final(self).remaining().len() == 0,
            old(self).remaining().len() > 0 ==> {
                &&& item is Some
                &&& item->0.region() == old(self).remaining()[0]
                &&& item->0.regions() == old(self).remaining()
                &&& final(self).remaining() == old(self).remaining().drop_first()
            },
    {
        match self.next {
            None => None,
            Some(current) => {
                proof {
                    current.lemma_regions();
                }
                self.next = current.next();
                Some(current)
            },
        }
    }
}

impl View for BlockList {
    type V = Seq<Region>;

    /// The regions of the free blocks, in traversal order.
    closed spec fn view(&self) -> Seq<Region> {
        chain_regions(self.first)
    }
}

impl Default for BlockList {
    fn default() -> (list: Self)
        ensures
            list@ == Seq::<Region>::empty(),
            list.inv(),
    {
        BlockList { first: None, length: 0 }
    }
}

/// Serves a first-fit request of `need` bytes from `chain`. Returns the
/// chain that is left, the range handed out, and whether a block left the
/// chain.
fn pop_chain(chain: Option<FreeBlock>, need: usize) -> (out: (
    Option<FreeBlock>,
    Option<Range<usize>>,
    bool,
))
    requires
        all_valid(chain_regions(chain)),
    ensures
        chain_regions(out.0) == after_pop(chain_regions(chain), need as int),
        all_valid(chain_regions(out.0)),
        match out.1 {
            None => first_fit(chain_regions(chain), need as int) >= chain_regions(chain).len(),
            Some(range) => {
                &&& first_fit(chain_regions(chain), need as int) < chain_regions(chain).len()
                &&& range.start == popped(chain_regions(chain), need as int).base
                &&& range.end == popped(chain_regions(chain), need as int).end()
            },
        },
        out.2 ==> chain_regions(out.0).len() + 1 == chain_regions(chain).len(),
        !out.2 ==> chain_regions(out.0).len() == chain_regions(chain).len(),
{
    let ghost s = chain_regions(chain);
    proof {
        lemma_after_pop_valid(s, need as int);
    }
    let mut list = chain;
    let mut cur = &mut list;
    let ghost mut i: int = 0;
    loop
        invariant
            s == chain_regions(chain),
            all_valid(s),
            all_valid(after_pop(s, need as int)),
            0 <= i <= s.len(),
            chain_regions(*cur) == s.subrange(i, s.len() as int),
            chain_regions(after_borrow(list)) == s.take(i) + chain_regions(*final(cur)),
            forall|j: int| 0 <= j < i ==> !fits(#[trigger] s[j], need as int),
        decreases s.len() - i,
    {
        if cur.is_none() {
            proof {
                assert(s.subrange(i, s.len() as int).len() == 0);
                lemma_first_fit_at(s, need as int, i);
                assert(has_resolved(cur));
                assert(s.take(i) + chain_regions(*final(cur)) =~= s);
            }
            return (list, None, false);
        }
        proof {
            cur->0.lemma_regions();
            assert(s.subrange(i, s.len() as int)[0] == s[i]);
            assert(s[i].valid());
            assert(s.subrange(i, s.len() as int).drop_first() =~= s.subrange(
                i + 1,
                s.len() as int,
            ));
        }
        let size_here: usize = cur.as_ref().unwrap().size();
        if size_here == need {
            let block = cur.take().unwrap();
            let (range, next) = block.decompose();
            *cur = next;
            proof {
                lemma_first_fit_at(s, need as int, i);
                assert(has_resolved(cur));
                assert(s.take(i) + s.subrange(i + 1, s.len() as int) =~= s.remove(i));
            }
            return (list, Some(range), true);
        }
        if size_here > need && size_here - need >= HEADER_SIZE {
            let block = cur.as_mut().unwrap();
            let range = block.split(need);
            proof {
                lemma_first_fit_at(s, need as int, i);
                let shrunk = Region { base: s[i].base, size: s[i].size - need };
                cur->0.lemma_regions();
                assert(has_resolved(cur));
                assert(chain_regions(*cur) =~= seq![shrunk] + s.subrange(i + 1, s.len() as int));
                assert(s.take(i) + (seq![shrunk] + s.subrange(i + 1, s.len() as int)) =~= s.update(
                    i,
                    shrunk,
                ));
            }
            return (list, Some(range), false);
        }
        let block = cur.as_mut().unwrap();
        cur = &mut block.header.next;
        proof {
            i = i + 1;
        }
    }
}

/// Takes the lower `need` bytes off the block of `chain` that starts at
/// `base`, if there is such a block and it is `need` bytes long or keeps
/// room for a header. Returns the chain that is left, whether the bytes
/// were taken, and whether a block left the chain.
fn take_chain(chain: Option<FreeBlock>, base: usize, need: usize) -> (out: (
    Option<FreeBlock>,
    bool,
    bool,
))
    requires
        all_valid(chain_regions(chain)),
        need as int % (HEADER_ALIGN as int) == 0,
    ensures
        chain_regions(out.0) == after_take(chain_regions(chain), base as int, need as int),
        all_valid(chain_regions(out.0)),
        out.1 == can_take(chain_regions(chain), base as int, need as int),
        out.2 ==> chain_regions(out.0).len() + 1 == chain_regions(chain).len(),
        !out.2 ==> chain_regions(out.0).len() == chain_regions(chain).len(),
{
    let ghost s = chain_regions(chain);
    proof {
        lemma_after_take_valid(s, base as int, need as int);
    }
    let mut list = chain;
    let mut cur = &mut list;
    let ghost mut i: int = 0;
    loop
        invariant
            s == chain_regions(chain),
            all_valid(s),
            all_valid(after_take(s, base as int, need as int)),
            need as int % (HEADER_ALIGN as int) == 0,
            0 <= i <= s.len(),
            chain_regions(*cur) == s.subrange(i, s.len() as int),
            chain_regions(after_borrow(list)) == s.take(i) + chain_regions(*final(cur)),
            forall|j: int| 0 <= j < i ==> (#[trigger] s[j]).base != base,
        decreases s.len() - i,
    {
        if cur.is_none() {
            proof {
                assert(s.subrange(i, s.len() as int).len() == 0);
                lemma_index_of_base_at(s, base as int, i);
                assert(has_resolved(cur));
                assert(s.take(i) + chain_regions(*final(cur)) =~= s);
            }
            return (list, false, false);
        }
        proof {
            cur->0.lemma_regions();
            assert(s.subrange(i, s.len() as int)[0] == s[i]);
            assert(s[i].valid());
            assert(s.subrange(i, s.len() as int).drop_first() =~= s.subrange(
                i + 1,
                s.len() as int,
            ));
        }
        let block_base: usize = cur.as_ref().unwrap().base;
        let size_here: usize = cur.as_ref().unwrap().size();
        if block_base == base {
            proof {
                lemma_index_of_base_at(s, base as int, i);
            }
            if size_here == need {
                let block = cur.take().unwrap();
                let (_, next) = block.decompose();
                *cur = next;
                proof {
                    assert(has_resolved(cur));
                    assert(s.take(i) + s.subrange(i + 1, s.len() as int) =~= s.remove(i));
                }
                return (list, true, true);
            }
            if size_here > need && size_here - need >= HEADER_SIZE {
                let block = cur.take().unwrap();
                let (range, next) = block.decompose();
                proof {
                    lemma_sum_aligned(base as int, need as int);
                }
                let moved = FreeBlock::from_raw(range.start + need, next, size_here - need);
                proof {
                    moved.lemma_regions();
                }
                *cur = Some(moved);
                proof {
                    let shifted = Region { base: base + need, size: s[i].size - need };
                    assert(has_resolved(cur));
                    assert(chain_regions(*cur) =~= seq![shifted] + s.subrange(
                        i + 1,
                        s.len() as int,
                    ));
                    assert(s.take(i) + (seq![shifted] + s.subrange(i + 1, s.len() as int))
                        =~= s.update(i, shifted));
                }
                return (list, true, false);
            }
            proof {
                assert(has_resolved(cur));
                assert(s.take(i) + s.subrange(i, s.len() as int) =~= s);
            }
            return (list, false, false);
        }
        let block = cur.as_mut().unwrap();
        cur = &mut block.header.next;
        proof {
            i = i + 1;
        }
    }
}

/// Links the lone block `block`, which belongs somewhere behind the first
/// block of the chain `first`, into the chain at its place in address
/// order and merges it with the neighbours it touches. Returns the chain
/// and how many merges took place.
fn merge_block(first: FreeBlock, block: FreeBlock) -> (out: (FreeBlock, usize))
    requires
        list_inv(first.regions()),
        block.region().valid(),
        block.header.next is None,
        clear_of(first.regions(), block.region()),
        first.base < block.base,
    ensures
        out.0.regions() == released(first.regions(), block.region()),
        out.0.regions().len() + out.1 == first.regions().len() + 1,
        out.1 <= 2,
{
    let ghost s = first.regions();
    let ghost r = block.region();
    let mut list = first;
    let mut prev = &mut list;
    let ghost mut i: int = 0;
    proof {
        first.lemma_regions();
        assert(s.subrange(0, s.len() as int) =~= s);
        assert(s.take(0) + s =~= s);
    }
    loop
        invariant
            s == first.regions(),
            r == block.region(),
            list_inv(s),
            r.valid(),
            block.header.next is None,
            clear_of(s, r),
            0 <= i < s.len(),
            s[i].base < r.base,
            prev.regions() == s.subrange(i, s.len() as int),
            after_borrow(list).regions() == s.take(i) + final(prev).regions(),
        decreases s.len() - i,
    {
        let ghost here = s.subrange(i, s.len() as int);
        let ghost rest = s.subrange(i + 1, s.len() as int);
        proof {
            prev.lemma_regions();
            assert(here[0] == s[i]);
            assert(here.drop_first() =~= rest);
            assert(here =~= seq![s[i]] + rest);
            assert(s[i].valid());
            assert(s[i].disjoint(r));
            assert forall|k: int| 0 <= k < here.len() implies (#[trigger] here[k]).valid() by {
                assert(here[k] == s[i + k]);
            }
            if rest.len() > 0 {
                assert(rest[0] == s[i + 1]);
                assert(s[i + 1].valid());
                assert(s[i + 1].disjoint(r));
            }
        }
        let goes_here = match prev.next() {
            None => true,
            Some(next) => {
                proof {
                    next.lemma_regions();
                }
                let relation = block.relation(next);
                relation == Relation::Before || relation == Relation::AdjacentBefore
            },
        };
        if goes_here {
            proof {
                assert(separated(here)) by {
                    assert forall|a: int, b: int| 0 <= a < b < here.len() implies (
                    #[trigger] here[a]).end() < (#[trigger] here[b]).base by {
                        assert(here[a] == s[i + a] && here[b] == s[i + b]);
                    }
                }
                lemma_release_here(s[i], rest, r);
                lemma_release_deep(s, r, i);
            }
            let merges = prev.insert_merge(block);
            proof {
                assert(has_resolved(prev));
            }
            return (list, merges);
        }
        prev = prev.next_mut().unwrap();
        proof {
            i = i + 1;
        }
    }
}

impl BlockList {
    /// The length the list keeps is the number of its blocks.
    pub closed spec fn counted(&self) -> bool {
        self.length == self@.len()
    }

    /// Every block stands for a valid region.
    pub open spec fn well_formed(&self) -> bool {
        self.counted() && all_valid(self@)
    }

    /// The invariant of the free list: valid regions in address order,
    /// without overlap, with no two touching.
    pub open spec fn inv(&self) -> bool {
        self.counted() && list_inv(self@)
    }

    /// The number of bytes a header takes at the start of a free region.
    pub fn header_size() -> (size: usize)
        ensures
            size == HEADER_SIZE,
    {
        super::free_header::header_size()
    }

    /// The number of free bytes in the list.
    pub fn get_total_memory(&self) -> (total: usize)
        requires
            self.well_formed(),
            total_size(self@) <= usize::MAX,
        ensures
            total == total_size(self@),
    {
        let (_, stats) = self.stats();
        proof {
            lemma_wrapped_total(self@);
        }
        stats.size
    }

    /// Releases the region `[ptr, ptr + size)` into the list: it is linked
    /// in at its place in address order and merged with the neighbours it
    /// touches.
    pub fn add_block(&mut self, ptr: usize, size: usize)
        requires
            old(self).inv(),
            (Region { base: ptr as int, size: size as int }).valid(),
            clear_of(old(self)@, Region { base: ptr as int, size: size as int }),
        ensures
            final(self).inv(),
            final(self)@ == released(old(self)@, Region { base: ptr as int, size: size as int }),
    {
        let ghost s = self@;
        let ghost r = Region { base: ptr as int, size: size as int };
        proof {
            lemma_released(s, r);
            lemma_total_size_bounds(s);
            lemma_total_size_bounds(released(s, r));
        }
        let mut new_block = FreeBlock::from_raw(ptr, None, size);
        proof {
            new_block.lemma_regions();
        }
        match self.first.take() {
            None => {
                self.first = Some(new_block);
                self.length = 1;
                proof {
                    assert(released(s, r) =~= seq![r]);
                    assert(self@ =~= seq![r]);
                }
            },
            Some(first) => {
                proof {
                    first.lemma_regions();
                    first.lemma_wf();
                    assert(s[0].disjoint(r));
                }
                let relation = new_block.relation(&first);
                if relation == Relation::Before || relation == Relation::AdjacentBefore {
                    let _ = new_block.replace_next(first);
                    proof {
                        new_block.lemma_regions();
                        assert(new_block.regions() =~= seq![r] + s);
                        assert forall|i: int| 0 <= i < new_block.regions().len() implies (
                        #[trigger] new_block.regions()[i]).valid() by {
                            if i > 0 {
                                assert(new_block.regions()[i] == s[i - 1]);
                            }
                        }
                        lemma_release_front(s, r);
                    }
                    let merged = new_block.try_merge_next();
                    self.first = Some(new_block);
                    if !merged {
                        self.length = self.length + 1;
                    }
                } else {
                    let (first, merges) = merge_block(first, new_block);
                    self.first = Some(first);
                    self.length = self.length + 1 - merges;
                }
            },
        }
    }

    /// A traversal of the list from its first block on.
    pub fn iter(&self) -> (iter: BlockIter<'_>)
        ensures
            iter.remaining() == self@,
    {
        BlockIter { next: self.first.as_ref() }
    }

    /// The range of the free block that starts where `[ptr, ptr + size)`
    /// ends, if there is one.
    pub fn find_adjacent(&self, ptr: usize, size: usize) -> (found: Option<Range<usize>>)
        requires
            self.well_formed(),
        ensures
            match found {
                Some(range) => {
                    &&& index_of_base(self@, ptr + size) < self@.len()
                    &&& range.start == self@[index_of_base(self@, ptr + size)].base
                    &&& range.end == self@[index_of_base(self@, ptr + size)].end()
                },
                None => index_of_base(self@, ptr + size) == self@.len(),
            },
    {
        let ghost s = self@;
        let mut current: Option<&FreeBlock> = self.first.as_ref();
        let ghost mut i: int = 0;
        while current.is_some()
            invariant
                0 <= i <= s.len(),
                s == self@,
                all_valid(s),
                match current {
                    Some(block) => block.regions() == s.subrange(i, s.len() as int),
                    None => i == s.len(),
                },
                forall|j: int| 0 <= j < i ==> (#[trigger] s[j]).base != ptr + size,
            decreases s.len() - i,
        {
            let block = current.unwrap();
            proof {
                block.lemma_regions();
                assert(s.subrange(i, s.len() as int)[0] == s[i]);
                assert(s[i].valid());
            }
            if block.base >= ptr && block.base - ptr == size {
                proof {
                    lemma_index_of_base(s, ptr + size);
                }
                return Some(block.as_range());
            }
            current = block.next();
            proof {
                assert(s.subrange(i, s.len() as int).drop_first() =~= s.subrange(
                    i + 1,
                    s.len() as int,
                ));
                i = i + 1;
            }
        }
        proof {
            lemma_index_of_base(s, ptr + size);
        }
        None
    }

    /// Audits the list in one pass: counts the consecutive pairs of blocks
    /// that overlap, touch or stand out of order, and the blocks and their
    /// bytes.
    pub fn stats(&self) -> (audit: (Validity, Stats))
        requires
            self.well_formed(),
        ensures
            audit.0.overlaps == overlaps(self@),
            audit.0.adjacents == adjacents(self@),
            audit.0.out_of_orders == out_of_orders(self@),
            audit.1.length == self@.len(),
            audit.1.size == wrapped_total(self@),
            self.inv() ==> audit.0.is_valid() && audit.1.size == total_size(self@),
    {
        let ghost s = self@;
        let mut validity = Validity::default();
        let mut stats = Stats::default();
        let mut previous: Option<&FreeBlock> = None;
        let mut current: Option<&FreeBlock> = self.first.as_ref();
        let ghost mut i: int = 0;
        while current.is_some()
            invariant
                0 <= i <= s.len(),
                s == self@,
                s.len() <= usize::MAX,
                all_valid(s),
                match current {
                    Some(block) => block.regions() == s.subrange(i, s.len() as int),
                    None => i == s.len(),
                },
                match previous {
                    Some(block) => i > 0 && block.region() == s[i - 1],
                    None => i == 0,
                },
                validity.overlaps == overlaps(s.take(i)),
                validity.adjacents == adjacents(s.take(i)),
                validity.out_of_orders == out_of_orders(s.take(i)),
                stats.length == i,
                stats.size == wrapped_total(s.take(i)),
            decreases s.len() - i,
        {
            let block = current.unwrap();
            proof {
                block.lemma_regions();
                assert(s.subrange(i, s.len() as int)[0] == s[i]);
                assert(s[i].valid());
                assert(s.take(i + 1).drop_last() =~= s.take(i));
                lemma_audit_bounds(s.take(i + 1));
            }
            if let Some(prev) = previous {
                proof {
                    assert(s[i - 1].valid());
                }
                match prev.relation(block) {
                    Relation::Before => {},
                    Relation::AdjacentBefore => validity.record_adjacent(),
                    Relation::Overlapping => validity.record_overlap(),
                    Relation::AdjacentAfter => {
                        validity.record_out_of_order();
                        validity.record_adjacent();
                    },
                    Relation::After => validity.record_out_of_order(),
                }
            }
            stats.add_block(block.size());
            previous = Some(block);
            current = block.next();
            proof {
                assert(s.subrange(i, s.len() as int).drop_first() =~= s.subrange(
                    i + 1,
                    s.len() as int,
                ));
                i = i + 1;
            }
        }
        proof {
            assert(s.take(i) =~= s);
            if self.inv() {
                lemma_audit_clean(s);
                lemma_total_size_bounds(s);
                lemma_wrapped_total(s);
            }
        }
        (validity, stats)
    }

    /// Serves a request of `size` bytes from the first block that fits it
    /// exactly or can be split for it. An exact fit leaves the list; a
    /// larger block gives up its upper `size` bytes. Returns the range
    /// handed out, which no header describes any longer.
    pub fn pop_size(&mut self, size: usize) -> (range: Option<Range<usize>>)
        requires
            old(self).well_formed(),
        ensures
            final(self).well_formed(),
            final(self)@ == after_pop(old(self)@, size as int),
            old(self).inv() ==> final(self).inv(),
            match range {
                None => first_fit(old(self)@, size as int) >= old(self)@.len(),
                Some(range) => {
                    &&& first_fit(old(self)@, size as int) < old(self)@.len()
                    &&& range.start == popped(old(self)@, size as int).base
                    &&& range.end == popped(old(self)@, size as int).end()
                },
            },
    {
        proof {
            if self.inv() {
                lemma_after_pop(self@, size as int);
            }
        }
        let chain = self.first.take();
        let (rest, range, removed) = pop_chain(chain, size);
        self.first = rest;
        if removed {
            self.length = self.length - 1;
        }
        range
    }

    /// Takes the lower `need` bytes off the free block that starts at
    /// `base`, for a neighbour that grows in place. The bytes are taken
    /// only if there is such a block and it is `need` bytes long or keeps
    /// room for a header; otherwise the list stays as it is. Returns
    /// whether the bytes were taken.
    pub fn take_from(&mut self, base: usize, need: usize) -> (taken: bool)
        requires
            old(self).well_formed(),
            need as int % (HEADER_ALIGN as int) == 0,
        ensures
            final(self).well_formed(),
            taken == can_take(old(self)@, base as int, need as int),
            final(self)@ == after_take(old(self)@, base as int, need as int),
            old(self).inv() ==> final(self).inv(),
    {
        proof {
            if self.inv() && can_take(self@, base as int, need as int) {
                lemma_after_take(self@, base as int, need as int);
            }
        }
        let chain = self.first.take();
        let (rest, taken, removed) = take_chain(chain, base, need);
        self.first = rest;
        if removed {
            self.length = self.length - 1;
        }
        taken
    }

    /// The number of free blocks in the list.
    pub fn len(&self) -> (len: usize)
        requires
            self.well_formed(),
        ensures
            len == self@.len(),
    {
        self.length
    }

    /// Whether the list holds no free block.
    pub fn is_empty(&self) -> (empty: bool)
        requires
            self.well_formed(),
        ensures
            empty == (self@.len() == 0),
    {
        self.length == 0
    }
}

} // verus!
