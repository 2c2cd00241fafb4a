use super::{lemma_multiple_of_multiple, lemma_round_up, round_up_spec};
use super::heap_grower::{
    acquired_set, lemma_grown_acquired, lemma_same_acquired, pages_aligned, span, HeapGrower,
};
use super::heap_state::{
    consistent, lemma_extend, lemma_growth, lemma_release, lemma_serve, lemma_shrink,
};
use super::layout::{is_power_of_two, lemma_power_of_two_small, max_size_for_align, Layout};
use crate::blocklist::{BlockList, Stats, Validity};
use crate::blocklist::free_header::HEADER_SIZE;
use crate::blocklist::pop_proofs::{lemma_first_fit, lemma_index_of_base};
use crate::blocklist::region::{
    after_pop, after_take, all_valid, can_take, covers, distinct, first_fit, index_of_base, popped,
    released, total_size, Region, HEADER_ALIGN,
};
use crate::blocklist::stats::wrapping_sum;
use vstd::prelude::*;

verus! {

/// The size of the block that serves a request of `size` bytes aligned to
/// `align`: the larger of the two, rounded up to the header alignment.
pub open spec fn block_size_spec(size: int, align: int) -> int {
    round_up_spec(if size >= align {
        size
    } else {
        align
    }, HEADER_ALIGN as int)
}

/// The size of the block that serves a request with `layout`.
pub open spec fn block_need(layout: Layout) -> int {
    block_size_spec(layout.size() as int, layout.align() as int)
}

/// The free list after an allocation of `need` bytes that returned `ptr`
/// and took `got` bytes from the page provider: served from the list by
/// first fit where a block fits, and otherwise from the `got` fresh bytes
/// at `ptr`, whose surplus joins the list.
pub open spec fn after_alloc(free: Seq<Region>, need: int, ptr: int, got: int) -> Seq<Region> {
    if first_fit(free, need) < free.len() {
        after_pop(free, need)
    } else if got > need {
        released(free, Region { base: ptr + need, size: got - need })
    } else {
        free
    }
}

/// An allocator that serves requests from a free list and asks a page
/// provider for more memory when no free block fits.
pub struct RawAlloc<G: HeapGrower> {
    pub grower: G,
    pub blocks: BlockList,
    pub allocation_counter: usize,
    pub deallocation_counter: usize,
    pub live: Ghost<Seq<Region>>,
    pub obtained: Ghost<int>,
}

impl<G: HeapGrower + Default> Default for RawAlloc<G> {
    fn default() -> (allocator: Self)
        ensures
            call_ensures(G::default, (), allocator.grower),
            allocator.blocks@ == Seq::<Region>::empty(),
            allocator.live() == Seq::<Region>::empty(),
            allocator.obtained() == 0,
            allocator.spec_allocation_count() == 0,
            allocator.spec_deallocation_count() == 0,
            allocator.grower.inv() && pages_aligned(&allocator.grower) ==> allocator.wf(),
    {
        RawAlloc {
            grower: G::default(),
            blocks: BlockList::default(),
            allocation_counter: 0,
            deallocation_counter: 0,
            live: Ghost(Seq::empty()),
            obtained: Ghost(0),
        }
    }
}

impl<G: HeapGrower> RawAlloc<G> {
    /// The live allocations, each as the region of its block, in the
    /// order in which they were made.
    pub open spec fn live(&self) -> Seq<Region> {
        self.live@
    }

    /// The number of bytes that this allocator has obtained from its page
    /// provider.
    pub open spec fn obtained(&self) -> int {
        self.obtained@
    }

    /// The number of allocations that succeeded.
    pub open spec fn spec_allocation_count(&self) -> usize {
        self.allocation_counter
    }

    /// The number of allocations that were released.
    pub open spec fn spec_deallocation_count(&self) -> usize {
        self.deallocation_counter
    }

    /// The invariant of the allocator: its page provider is sound and
    /// hands out header-aligned pages, and free list, live allocations
    /// and the memory obtained are consistent with each other.
    pub open spec fn wf(&self) -> bool {
        &&& self.grower.inv()
        &&& pages_aligned(&self.grower)
        &&& self.blocks.counted()
        &&& consistent(self.blocks@, self.live(), acquired_set(&self.grower), self.obtained())
    }

    /// Whether `ptr` is a live allocation that was made with `layout`.
    pub open spec fn is_live(&self, ptr: usize, layout: Layout) -> bool {
        self.live().contains(
            Region {
                base: ptr as int,
                size: block_need(layout),
            },
        )
    }

    /// What an allocation of a block of `need` bytes for a request aligned
    /// to `align` has done to the allocator `before` to make it `after`,
    /// where it returned `ptr`. A null `ptr` means that no block fits and
    /// the page provider gave nothing: free list and live allocations are
    /// as before. Otherwise the block at `ptr` is a new live allocation,
    /// taken from the free list by first fit or, where no block fits, from
    /// fresh memory of the page provider.
    pub open spec fn allocated(before: Self, after: Self, need: int, align: int, ptr: usize) -> bool {
        let got = after.obtained() - before.obtained();
        &&& first_fit(before.blocks@, need) < before.blocks@.len() ==> ptr == popped(
            before.blocks@,
            need,
        ).base
        &&& ptr == 0 ==> {
            &&& after.blocks@ == before.blocks@
            &&& after.live() == before.live()
            &&& got == 0
            &&& acquired_set(&after.grower) == acquired_set(&before.grower)
            &&& after.spec_allocation_count() == before.spec_allocation_count()
        }
        &&& ptr != 0 ==> {
            &&& after.blocks@ == after_alloc(before.blocks@, need, ptr as int, got)
            &&& after.live() == before.live().push(Region { base: ptr as int, size: need })
            &&& got == 0 || got >= need
            &&& got == 0 <==> first_fit(before.blocks@, need) < before.blocks@.len()
            &&& acquired_set(&after.grower) == acquired_set(&before.grower).union(span(ptr as int, got))
            &&& forall|a: int|
                ptr <= a < ptr + got ==> !(#[trigger] acquired_set(&before.grower).contains(a))
            &&& after.spec_allocation_count() == wrapping_sum(
                before.spec_allocation_count(),
                1,
            )
            &&& ptr as int % (HEADER_ALIGN as int) == 0
            &&& align <= HEADER_ALIGN ==> ptr as int % align == 0
            &&& ptr + need <= usize::MAX
            &&& forall|a: int|
                ptr <= a < ptr + need ==> #[trigger] acquired_set(&after.grower).contains(a)
        }
        &&& after.spec_deallocation_count() == before.spec_deallocation_count()
    }

    /// What resizing the live allocation at `ptr` from a block of
    /// `old_need` bytes to one of `new_need` bytes has done to the
    /// allocator `before` to make it `after`, where it returned `new_ptr`.
    /// A block that does not grow stays where it is and gives what it no
    /// longer needs to the free list. A block that grows stays where it
    /// is if the free block that starts at its end can give up the bytes;
    /// otherwise a new block is allocated, the old bytes are copied to it
    /// and the old block is released. If that allocation fails, the
    /// result is null and the old block stays as it is.
    pub open spec fn resized(
        before: Self,
        after: Self,
        ptr: usize,
        old_need: int,
        new_need: int,
        align: int,
        new_ptr: usize,
    ) -> bool {
        let region = Region { base: ptr as int, size: old_need };
        let k = before.live().index_of(region);
        let in_place = new_need <= old_need || can_take(
            before.blocks@,
            ptr + old_need,
            new_need - old_need,
        );
        &&& in_place ==> {
            &&& new_ptr == ptr
            &&& after.grower == before.grower
            &&& after.obtained() == before.obtained()
            &&& after.spec_allocation_count() == before.spec_allocation_count()
            &&& after.spec_deallocation_count() == before.spec_deallocation_count()
            &&& after.live() == before.live().update(k, Region { base: ptr as int, size: new_need })
            &&& after.blocks@ == (if new_need == old_need {
                before.blocks@
            } else if new_need < old_need {
                released(
                    before.blocks@,
                    Region { base: ptr + new_need, size: old_need - new_need },
                )
            } else {
                after_take(before.blocks@, ptr + old_need, new_need - old_need)
            })
        }
        &&& !in_place && new_ptr == 0 ==> {
            &&& Self::allocated(before, after, new_need, align, 0)
            &&& Self::bytes_kept(before, after, 0, 0)
        }
        &&& !in_place && new_ptr != 0 ==> {
            let got = after.obtained() - before.obtained();
            &&& after.blocks@ == released(
                after_alloc(before.blocks@, new_need, new_ptr as int, got),
                region,
            )
            &&& after.live() == before.live().push(
                Region { base: new_ptr as int, size: new_need },
            ).remove(k)
            &&& got == 0 || got >= new_need
            &&& got == 0 <==> first_fit(before.blocks@, new_need) < before.blocks@.len()
            &&& acquired_set(&after.grower) == acquired_set(&before.grower).union(
                span(new_ptr as int, got),
            )
            &&& after.spec_allocation_count() == wrapping_sum(
                before.spec_allocation_count(),
                1,
            )
            &&& after.spec_deallocation_count() == wrapping_sum(
                before.spec_deallocation_count(),
                1,
            )
            &&& new_ptr as int % (HEADER_ALIGN as int) == 0
            &&& align <= HEADER_ALIGN ==> new_ptr as int % align == 0
            &&& forall|j: int|
                0 <= j < old_need ==> #[trigger] after.grower.byte((new_ptr + j) as usize)
                    == before.grower.byte((ptr + j) as usize)
            &&& Self::bytes_kept(before, after, new_ptr as int, old_need)
        }
    }

    /// Whether `ptr` and the `got` bytes newly obtained are what follows
    /// from the answer `grown` of the page provider: on failure null and
    /// nothing, and else the base and the size of the region handed out.
    pub open spec fn answered(grown: Result<(usize, usize), G::Err>, ptr: usize, got: int) -> bool {
        match grown {
            Ok((base, actual)) => ptr == base && got == actual,
            Err(_) => ptr == 0 && got == 0,
        }
    }

    /// Whether `after` is `before` but for its page provider.
    pub open spec fn same_but_grower(before: Self, after: Self) -> bool {
        &&& after.blocks == before.blocks
        &&& after.live() == before.live()
        &&& after.obtained() == before.obtained()
        &&& after.allocation_counter == before.allocation_counter
        &&& after.deallocation_counter == before.deallocation_counter
    }

    /// Every byte that the page provider had handed out to `before` is in
    /// `after` what it was, but for the `len` bytes from `ptr` on.
    pub open spec fn bytes_kept(before: Self, after: Self, ptr: int, len: int) -> bool {
        forall|a: int| #[trigger]
            acquired_set(&before.grower).contains(a) && !(ptr <= a < ptr + len)
                ==> after.grower.byte(a as usize) == before.grower.byte(a as usize)
    }

    /// A live allocation starts at a non-null, header-aligned address,
    /// which is aligned as its layout asks where that is no more than
    /// the header alignment; its block lies in memory obtained from the
    /// page provider and shares no address with a free block.
    pub proof fn lemma_live_allocation(&self, ptr: usize, layout: Layout)
        requires
            self.wf(),
            layout.wf(),
            self.is_live(ptr, layout),
        ensures
            ptr != 0,
            ptr as int % (HEADER_ALIGN as int) == 0,
            layout.align() <= HEADER_ALIGN ==> ptr as int % (layout.align() as int) == 0,
            forall|a: int|
                ptr <= a < ptr + block_need(layout) ==> (
                #[trigger] acquired_set(&self.grower).contains(a)) && !covers(self.blocks@, a),
    {
        let region = Region {
            base: ptr as int,
            size: block_need(layout),
        };
        let k = self.live().index_of(region);
        assert(self.live()[k] == region);
        assert(region.valid());
        lemma_aligned_for(ptr as int, layout.align() as int);
        assert forall|a: int| ptr <= a < ptr + region.size implies (
        #[trigger] acquired_set(&self.grower).contains(a)) && !covers(self.blocks@, a) by {
            assert(self.live()[k].contains(a));
            assert(covers(self.live(), a));
        }
    }

    /// The bytes of the live allocations and the free bytes together are
    /// the bytes obtained from the page provider.
    pub proof fn lemma_accounting(&self)
        requires
            self.wf(),
        ensures
            total_size(self.live()) + total_size(self.blocks@) == self.obtained(),
    {
    }

    /// Makes an allocator with an empty free list over `grower`.
    pub fn new(grower: G) -> (allocator: Self)
        ensures
            allocator.grower == grower,
            allocator.blocks@ == Seq::<Region>::empty(),
            allocator.live() == Seq::<Region>::empty(),
            allocator.obtained() == 0,
            allocator.spec_allocation_count() == 0,
            allocator.spec_deallocation_count() == 0,
            grower.inv() && pages_aligned(&grower) ==> allocator.wf(),
    {
        RawAlloc {
            grower,
            blocks: BlockList::default(),
            allocation_counter: 0,
            deallocation_counter: 0,
            live: Ghost(Seq::empty()),
            obtained: Ghost(0),
        }
    }

    /// Audits the free list.
    pub fn stats(&self) -> (audit: (Validity, Stats))
        requires
            self.wf(),
        ensures
            audit.0.is_valid(),
            audit.1.length == self.blocks@.len(),
            audit.1.size == total_size(self.blocks@),
            audit.1.size + total_size(self.live()) == self.obtained(),
    {
        self.blocks.stats()
    }

    /// The size of the block that serves a request with `layout`.
    pub fn block_size(layout: Layout) -> (size: usize)
        requires
            layout.wf(),
        ensures
            size == block_need(layout),
            size >= HEADER_SIZE,
            size >= layout.size(),
            size as int % (HEADER_ALIGN as int) == 0,
    {
        let larger: usize = if layout.size() >= layout.align() {
            layout.size()
        } else {
            layout.align()
        };
        proof {
            lemma_round_up(larger as int, HEADER_ALIGN as int);
        }
        Self::round_up(larger, HEADER_ALIGN)
    }

    /// The number of allocations that succeeded.
    pub fn allocation_count(&self) -> (count: usize)
        ensures
            count == self.spec_allocation_count(),
    {
        self.allocation_counter
    }

    /// The number of allocations that were released.
    pub fn deallocation_count(&self) -> (count: usize)
        ensures
            count == self.spec_deallocation_count(),
    {
        self.deallocation_counter
    }

    /// Rounds `value` up to the next multiple of `increment`.
    fn round_up(value: usize, increment: usize) -> (rounded: usize)
        requires
            increment > 0,
            value + increment - 1 <= usize::MAX,
        ensures
            rounded == round_up_spec(value as int, increment as int),
    {
        proof {
            lemma_round_up(value as int, increment as int);
        }
        (value + (increment - 1)) / increment * increment
    }

    /// Takes in the region `[base, base + got)` of the memory obtained
    /// from the page provider, which is neither free nor live: its first
    /// `needed` bytes become a live allocation, whose address is returned,
    /// and the surplus joins the free list.
    pub fn adopt_region(&mut self, needed: usize, base: usize, got: usize) -> (ptr: usize)
        requires
            old(self).wf(),
            needed >= HEADER_SIZE,
            needed as int % (HEADER_ALIGN as int) == 0,
            got >= needed,
            got as int % (HEADER_ALIGN as int) == 0,
            base > 0,
            base as int % (HEADER_ALIGN as int) == 0,
            base + got <= usize::MAX,
            forall|a: int|
                base <= a < base + got ==> (#[trigger] acquired_set(&old(self).grower).contains(a))
                    && !covers(old(self).blocks@, a) && !covers(old(self).live(), a),
        ensures
            final(self).wf(),
            ptr == base,
            final(self).grower == old(self).grower,
            final(self).blocks@ == (if got > needed {
                released(old(self).blocks@, Region { base: base + needed, size: got - needed })
            } else {
                old(self).blocks@
            }),
            final(self).live() == old(self).live().push(
                Region { base: base as int, size: needed as int },
            ),
            final(self).obtained() == old(self).obtained() + got,
            final(self).spec_allocation_count() == wrapping_sum(
                old(self).spec_allocation_count(),
                1,
            ),
            final(self).spec_deallocation_count() == old(self).spec_deallocation_count(),
    {
        proof {
            lemma_growth(
                self.blocks@,
                self.live(),
                acquired_set(&self.grower),
                self.obtained(),
                base as int,
                got as int,
                needed as int,
            );
        }
        if got - needed >= HEADER_SIZE {
            self.blocks.add_block(base + needed, got - needed);
        }
        self.allocation_counter = self.allocation_counter.wrapping_add(1);
        self.live = Ghost(self.live@.push(Region { base: base as int, size: needed as int }));
        self.obtained = Ghost(self.obtained@ + got);
        base
    }

    /// Allocates a block for a request with `layout`: from the first free
    /// block that fits, or else from fresh memory of the page provider.
    /// Returns the address of the block, or null if the page provider has
    /// no more memory.
    pub fn allocate(&mut self, layout: Layout) -> (ptr: usize)
        requires
            old(self).wf(),
            layout.wf(),
        ensures
            final(self).wf(),
            Self::allocated(
                *old(self),
                *final(self),
                block_need(layout),
                layout.align() as int,
                ptr,
            ),
            Self::bytes_kept(*old(self), *final(self), 0, 0),
            first_fit(old(self).blocks@, block_need(layout)) < old(self).blocks@.len() ==> {
                final(self).grower == old(self).grower
            },
            first_fit(old(self).blocks@, block_need(layout)) >= old(self).blocks@.len()
                ==> exists|r: &mut G, grown: Result<(usize, usize), G::Err>|
                {
                    &&& *r == old(self).grower
                    &&& *final(r) == final(self).grower
                    &&& #[trigger] call_ensures(
                        G::grow_heap,
                        (r, block_need(layout) as usize),
                        grown,
                    )
                    &&& Self::answered(grown, ptr, final(self).obtained() - old(self).obtained())
                },
    {
        let needed = Self::block_size(layout);
        proof {
            lemma_first_fit(self.blocks@, needed as int);
            assert(block_need(layout) as usize == needed);
        }
        match self.blocks.pop_size(needed) {
            Some(range) => {
                proof {
                    lemma_serve(
                        old(self).blocks@,
                        self.live(),
                        acquired_set(&self.grower),
                        self.obtained(),
                        needed as int,
                    );
                    lemma_aligned_for(range.start as int, layout.align() as int);
                    assert(acquired_set(&self.grower) =~= acquired_set(&self.grower).union(
                        span(range.start as int, 0),
                    ));
                }
                self.allocation_counter = self.allocation_counter.wrapping_add(1);
                self.live = Ghost(
                    self.live@.push(Region { base: range.start as int, size: needed as int }),
                );
                range.start
            },
            None => {
                let ghost page = self.grower.page_size() as int;
                let grown = self.grower.grow_heap(needed);
                proof {
                    assert forall|a: int| #[trigger]
                        acquired_set(&old(self).grower).contains(a) implies self.grower.byte(
                        a as usize,
                    ) == old(self).grower.byte(a as usize) by {
                        assert(old(self).grower.acquired(a as usize));
                    }
                }
                match grown {
                    Err(_) => {
                        proof {
                            lemma_same_acquired(&old(self).grower, &self.grower);
                        }
                        0
                    },
                    Ok((base, got)) => {
                        proof {
                            lemma_grown_acquired(&old(self).grower, &self.grower, base, got);
                            lemma_multiple_of_multiple(base as int, page, HEADER_ALIGN as int);
                            lemma_multiple_of_multiple(got as int, page, HEADER_ALIGN as int);
                            lemma_aligned_for(base as int, layout.align() as int);
                            assert forall|a: int| base <= a < base + got implies (
                            #[trigger] acquired_set(&self.grower).contains(a)) && !covers(
                                self.blocks@,
                                a,
                            ) && !covers(self.live(), a) by {
                                assert(span(base as int, got as int).contains(a));
                                assert(!acquired_set(&old(self).grower).contains(a));
                            }
                            assert(consistent(
                                self.blocks@,
                                self.live(),
                                acquired_set(&self.grower),
                                self.obtained(),
                            ));
                        }
                        self.adopt_region(needed, base, got)
                    },
                }
            },
        }
    }

    /// Releases the live allocation at `ptr`, which was made with
    /// `layout`: its block joins the free list.
    pub fn dealloc(&mut self, ptr: usize, layout: Layout)
        requires
            old(self).wf(),
            layout.wf(),
            old(self).is_live(ptr, layout),
        ensures
            final(self).wf(),
            final(self).grower == old(self).grower,
            final(self).blocks@ == released(
                old(self).blocks@,
                Region {
                    base: ptr as int,
                    size: block_need(layout),
                },
            ),
            final(self).live() == old(self).live().remove(
                old(self).live().index_of(
                    Region {
                        base: ptr as int,
                        size: block_need(layout),
                    },
                ),
            ),
            final(self).obtained() == old(self).obtained(),
            final(self).spec_allocation_count() == old(self).spec_allocation_count(),
            final(self).spec_deallocation_count() == wrapping_sum(
                old(self).spec_deallocation_count(),
                1,
            ),
    {
        let size = Self::block_size(layout);
        let ghost region = Region { base: ptr as int, size: size as int };
        let ghost k = self.live().index_of(region);
        proof {
            lemma_release(
                self.blocks@,
                self.live(),
                acquired_set(&self.grower),
                self.obtained(),
                k,
            );
        }
        self.deallocation_counter = self.deallocation_counter.wrapping_add(1);
        self.blocks.add_block(ptr, size);
        self.live = Ghost(self.live@.remove(k));
    }

    /// Allocates as `allocate` does and sets the bytes of the request to
    /// zero.
    pub fn calloc(&mut self, layout: Layout) -> (ptr: usize)
        requires
            old(self).wf(),
            layout.wf(),
        ensures
            final(self).wf(),
            Self::allocated(
                *old(self),
                *final(self),
                block_need(layout),
                layout.align() as int,
                ptr,
            ),
            Self::bytes_kept(*old(self), *final(self), ptr as int, layout.size() as int),
            ptr != 0 ==> forall|a: int|
                ptr <= a < ptr + layout.size() ==> #[trigger] final(self).grower.byte(a as usize) == 0,
            exists|a: &mut Self|
                {
                    &&& *a == *old(self)
                    &&& #[trigger] call_ensures(Self::allocate, (a, layout), ptr)
                    &&& ptr == 0 ==> *final(self) == *final(a)
                    &&& ptr != 0 ==> Self::same_but_grower(*final(a), *final(self))
                        && exists|z: &mut G|
                        {
                            &&& *z == final(a).grower
                            &&& #[trigger] call_ensures(G::zero_bytes, (z, ptr, layout.size()), ())
                            &&& *final(z) == final(self).grower
                        }
                },
    {
        let ptr = self.allocate(layout);
        let ghost mid = *self;
        if ptr != 0 {
            proof {
                assert forall|a: usize| ptr <= a < ptr + layout.size() implies #[trigger] self.grower.acquired(
                    a,
                ) by {
                    assert(acquired_set(&self.grower).contains(a as int));
                }
            }
            self.grower.zero_bytes(ptr, layout.size());
            proof {
                lemma_same_acquired(&mid.grower, &self.grower);
                assert forall|a: int|
                    ptr <= a < ptr + layout.size() implies #[trigger] self.grower.byte(a as usize)
                    == 0 by {
                    assert(acquired_set(&mid.grower).contains(a));
                    assert(mid.grower.acquired(a as usize));
                }
                assert forall|a: int| #[trigger]
                    acquired_set(&old(self).grower).contains(a) && !(ptr <= a < ptr + layout.size())
                    implies self.grower.byte(a as usize) == old(self).grower.byte(a as usize) by {
                    assert(acquired_set(&mid.grower).contains(a));
                    assert(mid.grower.acquired(a as usize));
                }
            }
        }
        ptr
    }

    /// Grows the live allocation at `ptr` in place from `old_size` to
    /// `new_block_size` bytes, if the free block that starts at its end
    /// can give up the difference. Returns `ptr` if it did.
    fn try_expand_allocation(
        &mut self,
        ptr: usize,
        old_size: usize,
        new_block_size: usize,
        k: Ghost<int>,
    ) -> (expanded: Option<usize>)
        requires
            old(self).wf(),
            0 <= k@ < old(self).live().len(),
            old(self).live()[k@] == (Region { base: ptr as int, size: old_size as int }),
            new_block_size > old_size,
            new_block_size as int % (HEADER_ALIGN as int) == 0,
        ensures
            final(self).wf(),
            final(self).grower == old(self).grower,
            final(self).obtained() == old(self).obtained(),
            final(self).allocation_counter == old(self).allocation_counter,
            final(self).deallocation_counter == old(self).deallocation_counter,
            can_take(old(self).blocks@, ptr + old_size, new_block_size - old_size) ==> {
                &&& expanded == Some(ptr)
                &&& final(self).blocks@ == after_take(
                    old(self).blocks@,
                    ptr + old_size,
                    new_block_size - old_size,
                )
                &&& final(self).live() == old(self).live().update(
                    k@,
                    Region { base: ptr as int, size: new_block_size as int },
                )
            },
            !can_take(old(self).blocks@, ptr + old_size, new_block_size - old_size) ==> {
                &&& expanded is None
                &&& *final(self) == *old(self)
            },
    {
        let need: usize = new_block_size - old_size;
        let ghost free = self.blocks@;
        proof {
            assert(self.live()[k@].valid());
            assert(self.live()[k@].size % (HEADER_ALIGN as int) == 0);
        }
        match self.blocks.find_adjacent(ptr, old_size) {
            None => None,
            Some(range) => {
                proof {
                    lemma_index_of_base(free, ptr + old_size);
                    assert(free[index_of_base(free, ptr + old_size)].valid());
                }
                let available: usize = range.end - range.start;
                if available == need || (available > need && available - need >= HEADER_SIZE) {
                    let taken = self.blocks.take_from(range.start, need);
                    assert(taken);
                    proof {
                        lemma_extend(
                            free,
                            self.live(),
                            acquired_set(&self.grower),
                            self.obtained(),
                            k@,
                            new_block_size as int,
                        );
                    }
                    self.live = Ghost(
                        self.live@.update(
                            k@,
                            Region { base: ptr as int, size: new_block_size as int },
                        ),
                    );
                    Some(ptr)
                } else {
                    None
                }
            },
        }
    }

    /// Resizes the allocation at `ptr`, which was made with `layout`, to
    /// `new_size` bytes; a null `ptr` makes a new allocation. Returns the
    /// address of the resized allocation, or null if it could not be
    /// made, in which case the old allocation stays as it is.
    pub fn realloc(&mut self, ptr: usize, layout: Layout, new_size: usize) -> (new_ptr: usize)
        requires
            old(self).wf(),
            layout.wf(),
            ptr != 0 ==> old(self).is_live(ptr, layout),
        ensures
            final(self).wf(),
            new_size > max_size_for_align(layout.align() as int) ==> new_ptr == 0 && *final(self)
                == *old(self),
            new_size <= max_size_for_align(layout.align() as int) && ptr == 0 ==> {
                &&& Self::allocated(
                    *old(self),
                    *final(self),
                    block_size_spec(new_size as int, layout.align() as int),
                    layout.align() as int,
                    new_ptr,
                )
                &&& Self::bytes_kept(*old(self), *final(self), 0, 0)
                &&& exists|new_layout: Layout, a: &mut Self|
                    {
                        &&& new_layout.wf()
                        &&& new_layout.size() == new_size
                        &&& new_layout.align() == layout.align()
                        &&& *a == *old(self)
                        &&& #[trigger] call_ensures(Self::allocate, (a, new_layout), new_ptr)
                        &&& *final(self) == *final(a)
                    }
            },
            new_size <= max_size_for_align(layout.align() as int) && ptr != 0 && block_size_spec(
                new_size as int,
                layout.align() as int,
            ) > block_need(layout) && !can_take(
                old(self).blocks@,
                ptr + block_need(layout),
                block_size_spec(new_size as int, layout.align() as int) - block_need(layout),
            ) ==> exists|new_layout: Layout, a: &mut Self|
                {
                    &&& new_layout.wf()
                    &&& new_layout.size() == new_size
                    &&& new_layout.align() == layout.align()
                    &&& *a == *old(self)
                    &&& #[trigger] call_ensures(Self::allocate, (a, new_layout), new_ptr)
                    &&& new_ptr == 0 ==> *final(self) == *final(a)
                    &&& new_ptr != 0 ==> exists|c: &mut G, d: &mut Self|
                        {
                            &&& *c == final(a).grower
                            &&& #[trigger] call_ensures(
                                G::copy_bytes,
                                (c, ptr, new_ptr, block_need(layout) as usize),
                                (),
                            )
                            &&& Self::same_but_grower(*final(a), *d)
                            &&& d.grower == *final(c)
                            &&& #[trigger] call_ensures(Self::dealloc, (d, ptr, layout), ())
                            &&& *final(self) == *final(d)
                        }
                },
            new_size <= max_size_for_align(layout.align() as int) && ptr != 0 ==> Self::resized(
                *old(self),
                *final(self),
                ptr,
                block_need(layout),
                block_size_spec(new_size as int, layout.align() as int),
                layout.align() as int,
                new_ptr,
            ),
    {
        let new_layout = match Layout::from_size_align(new_size, layout.align()) {
            Ok(new_layout) => new_layout,
            Err(_) => {
                return 0;
            },
        };
        if ptr == 0 {
            return self.allocate(new_layout);
        }
        let old_size = Self::block_size(layout);
        let new_block_size = Self::block_size(new_layout);
        let ghost region = Region { base: ptr as int, size: old_size as int };
        let ghost k = self.live().index_of(region);
        let ghost free = self.blocks@;
        proof {
            assert(self.live()[k] == region);
            assert(region.valid());
        }
        if new_block_size <= old_size {
            if old_size - new_block_size >= HEADER_SIZE {
                proof {
                    lemma_shrink(
                        free,
                        self.live(),
                        acquired_set(&self.grower),
                        self.obtained(),
                        k,
                        new_block_size as int,
                    );
                }
                self.blocks.add_block(ptr + new_block_size, old_size - new_block_size);
                self.live = Ghost(
                    self.live@.update(k, Region { base: ptr as int, size: new_block_size as int }),
                );
            } else {
                proof {
                    assert(old_size == new_block_size);
                    assert(self.live().update(k, region) =~= self.live());
                }
            }
            return ptr;
        }
        if let Some(expanded) = self.try_expand_allocation(
            ptr,
            old_size,
            new_block_size,
            Ghost(k),
        ) {
            return expanded;
        }
        let new_ptr = self.allocate(new_layout);
        if new_ptr != 0 {
            let ghost mid = *self;
            let ghost fresh = Region { base: new_ptr as int, size: new_block_size as int };
            let count: usize = if old_size <= new_block_size {
                old_size
            } else {
                new_block_size
            };
            proof {
                assert(block_need(layout) as usize == count);
                let live = mid.live();
                assert(live[k] == region);
                assert(live[live.len() - 1] == fresh);
                assert(live[k].disjoint(live[live.len() - 1]));
                assert(fresh.valid());
                assert forall|a: usize| ptr <= a < ptr + count implies #[trigger] self.grower.acquired(
                    a,
                ) by {
                    assert(live[k].contains(a as int));
                    assert(covers(live, a as int));
                    assert(acquired_set(&self.grower).contains(a as int));
                }
                assert forall|a: usize|
                    new_ptr <= a < new_ptr + count implies #[trigger] self.grower.acquired(a) by {
                    assert(acquired_set(&self.grower).contains(a as int));
                }
                lemma_unique_index(live, k);
            }
            self.grower.copy_bytes(ptr, new_ptr, count);
            let ghost copied = *self;
            proof {
                lemma_same_acquired(&mid.grower, &self.grower);
            }
            self.dealloc(ptr, layout);
            proof {
                assert forall|j: int| 0 <= j < old_size implies #[trigger] self.grower.byte(
                    (new_ptr + j) as usize,
                ) == old(self).grower.byte((ptr + j) as usize) by {
                    let to = (new_ptr + j) as usize;
                    let from = (ptr + j) as usize;
                    assert(acquired_set(&mid.grower).contains(new_ptr + j));
                    assert(mid.grower.acquired(to));
                    assert(copied.grower.byte(to) == mid.grower.byte((to - new_ptr + ptr) as usize));
                    assert(old(self).live()[k].contains(ptr + j));
                    assert(covers(old(self).live(), ptr + j));
                    assert(acquired_set(&old(self).grower).contains(ptr + j));
                    assert(old(self).grower.acquired(from));
                }
                assert forall|a: int| #[trigger]
                    acquired_set(&old(self).grower).contains(a) && !(new_ptr <= a < new_ptr + old_size)
                    implies self.grower.byte(a as usize) == old(self).grower.byte(a as usize) by {
                    assert(acquired_set(&mid.grower).contains(a));
                    assert(mid.grower.acquired(a as usize));
                    assert(old(self).grower.acquired(a as usize));
                }
            }
        }
        new_ptr
    }
}

/// An address that is a multiple of the header alignment is aligned for
/// every power of two up to the header alignment.
pub proof fn lemma_aligned_for(ptr: int, align: int)
    requires
        ptr % (HEADER_ALIGN as int) == 0,
        is_power_of_two(align),
    ensures
        align <= HEADER_ALIGN ==> ptr % align == 0,
{
    if align <= HEADER_ALIGN {
        lemma_power_of_two_small(align);
        lemma_multiple_of_multiple(ptr, HEADER_ALIGN as int, align);
    }
}

/// In a list of valid, pairwise disjoint regions a region stands at one
/// index only.
pub proof fn lemma_unique_index(live: Seq<Region>, k: int)
    requires
        distinct(live),
        all_valid(live),
        0 <= k < live.len(),
    ensures
        live.index_of(live[k]) == k,
{
    let i = live.index_of(live[k]);
    assert(live[k].valid());
    if i < k {
        assert(live[i].disjoint(live[k]));
    } else if i > k {
        assert(live[k].disjoint(live[i]));
    }
}

} // verus!
