use super::heap_grower::{pages_aligned, HeapGrower};
use super::layout::Layout;
use super::raw_alloc::RawAlloc;
use crate::blocklist::{Stats, Validity};
use crate::blocklist::region::{total_size, Region};
use vstd::prelude::*;

verus! {

/// The state of an allocator that nobody has used yet.
pub const UNINIT: u8 = 0;

/// The state of an allocator whose raw allocator is being made.
pub const INITIALIZING: u8 = 1;

/// The state of an allocator whose raw allocator is there to be used.
pub const READY: u8 = 2;

/// The longest wait between two looks at the state, in turns of the
/// processor's spin hint.
pub const MAX_BACKOFF: usize = 64;

/// The wait that follows a wait of `backoff` turns: twice as long, up to
/// `MAX_BACKOFF`.
pub fn next_backoff(backoff: usize) -> (next: usize)
    ensures
        next == (if 2 * backoff <= MAX_BACKOFF {
            2 * backoff
        } else {
            MAX_BACKOFF as int
        }),
{
    if backoff <= MAX_BACKOFF / 2 {
        backoff * 2
    } else {
        MAX_BACKOFF
    }
}

/// An allocator that makes its raw allocator the first time it is used.
pub struct GenericAllocator<G: HeapGrower + Default> {
    pub init: u8,
    pub raw: Option<RawAlloc<G>>,
}

/// Exclusive access to the raw allocator of a `GenericAllocator`.
pub struct AllocGuard<'a, G: HeapGrower + Default>(pub &'a mut RawAlloc<G>);

impl<'a, G: HeapGrower + Default> AllocGuard<'a, G> {
    /// The raw allocator that the guard gives access to.
    pub open spec fn raw(&self) -> RawAlloc<G> {
        *self.0
    }

    /// Audits the free list.
    pub fn stats(&self) -> (audit: (Validity, Stats))
        requires
            self.raw().wf(),
        ensures
            audit.0.is_valid(),
            audit.1.length == self.raw().blocks@.len(),
            audit.1.size == total_size(self.raw().blocks@),
            audit.1.size + total_size(self.raw().live()) == self.raw().obtained(),
    {
        self.0.stats()
    }

    /// Allocates a block for a request with `layout`: what `allocate` of
    /// the raw allocator does and returns.
    pub fn allocate(&mut self, layout: Layout) -> (ptr: usize)
        requires
            old(self).0.wf(),
            layout.wf(),
        ensures
            final(self).0.wf(),
            exists|raw: &mut RawAlloc<G>|
                {
                    &&& *raw == *old(self).0
                    &&& #[trigger] call_ensures(RawAlloc::<G>::allocate, (raw, layout), ptr)
                    &&& *final(raw) == *final(self).0
                },
    {
        self.0.allocate(layout)
    }

    /// Allocates a block for a request with `layout` and sets the bytes
    /// of the request to zero: what `calloc` of the raw allocator does
    /// and returns.
    pub fn calloc(&mut self, layout: Layout) -> (ptr: usize)
        requires
            old(self).0.wf(),
            layout.wf(),
        ensures
            final(self).0.wf(),
            exists|raw: &mut RawAlloc<G>|
                {
                    &&& *raw == *old(self).0
                    &&& #[trigger] call_ensures(RawAlloc::<G>::calloc, (raw, layout), ptr)
                    &&& *final(raw) == *final(self).0
                },
    {
        self.0.calloc(layout)
    }

    /// Resizes the allocation at `ptr`, which was made with `layout`, to
    /// `new_size` bytes: what `realloc` of the raw allocator does and
    /// returns.
    pub fn realloc(&mut self, ptr: usize, layout: Layout, new_size: usize) -> (new_ptr: usize)
        requires
            old(self).0.wf(),
            layout.wf(),
            ptr != 0 ==> old(self).0.is_live(ptr, layout),
        ensures
            final(self).0.wf(),
            exists|raw: &mut RawAlloc<G>|
                {
                    &&& *raw == *old(self).0
                    &&& #[trigger] call_ensures(
                        RawAlloc::<G>::realloc,
                        (raw, ptr, layout, new_size),
                        new_ptr,
                    )
                    &&& *final(raw) == *final(self).0
                },
    {
        self.0.realloc(ptr, layout, new_size)
    }

    /// Releases the live allocation at `ptr`, which was made with
    /// `layout`: what `dealloc` of the raw allocator does.
    pub fn dealloc(&mut self, ptr: usize, layout: Layout)
        requires
            old(self).0.wf(),
            layout.wf(),
            old(self).0.is_live(ptr, layout),
        ensures
            final(self).0.wf(),
            exists|raw: &mut RawAlloc<G>|
                {
                    &&& *raw == *old(self).0
                    &&& #[trigger] call_ensures(RawAlloc::<G>::dealloc, (raw, ptr, layout), ())
                    &&& *final(raw) == *final(self).0
                },
    {
        self.0.dealloc(ptr, layout)
    }
}

impl<G: HeapGrower + Default> GenericAllocator<G> {
    /// Every page provider that `G::default()` makes is sound and hands
    /// out header-aligned pages.
    pub open spec fn sound_default() -> bool {
        forall|g: G| #[trigger] call_ensures(G::default, (), g) ==> g.inv() && pages_aligned(&g)
    }

    /// The allocator is unused and holds no raw allocator, or it is ready
    /// and holds a raw allocator that meets its invariant.
    pub open spec fn wf(&self) -> bool {
        ||| self.init == UNINIT && self.raw is None
        ||| self.init == READY && self.raw is Some && self.raw->0.wf()
    }

    /// Makes an allocator that nobody has used yet.
    pub fn new() -> (allocator: Self)
        ensures
            allocator.init == UNINIT,
            allocator.raw is None,
            allocator.wf(),
    {
        GenericAllocator { init: UNINIT, raw: None }
    }

    /// Audits the free list of the raw allocator, which is made first if
    /// the allocator was not used before.
    pub fn stats(&mut self) -> (audit: (Validity, Stats))
        requires
            old(self).wf(),
            Self::sound_default(),
        ensures
            final(self).wf(),
            final(self).init == READY,
            old(self).init == READY ==> final(self).raw == old(self).raw,
            audit.0.is_valid(),
            audit.1.length == final(self).raw->0.blocks@.len(),
            audit.1.size == total_size(final(self).raw->0.blocks@),
    {
        let guard = self.get_raw();
        guard.stats()
    }

    /// Gives exclusive access to the raw allocator, which is made first
    /// if the allocator was not used before: with an empty free list over
    /// the page provider that `G::default()` makes.
    pub fn get_raw(&mut self) -> (guard: AllocGuard<'_, G>)
        requires
            old(self).wf(),
            Self::sound_default(),
        ensures
            guard.0.wf(),
            old(self).init == READY ==> *guard.0 == old(self).raw->0,
            old(self).init == UNINIT ==> {
                &&& call_ensures(G::default, (), guard.0.grower)
                &&& guard.0.blocks@ == Seq::<Region>::empty()
                &&& guard.0.live() == Seq::<Region>::empty()
                &&& guard.0.obtained() == 0
                &&& guard.0.spec_allocation_count() == 0
                &&& guard.0.spec_deallocation_count() == 0
            },
            final(self).init == READY,
            final(self).raw == Some(*final(guard.0)),
    {
        if self.init == READY {
            return AllocGuard(self.raw.as_mut().unwrap());
        }
        self.ensure_initialized()
    }

    /// Makes the raw allocator of an unused allocator, marks the
    /// allocator ready and gives exclusive access to the raw allocator.
    fn ensure_initialized(&mut self) -> (guard: AllocGuard<'_, G>)
        requires
            old(self).init == UNINIT,
            old(self).raw is None,
            Self::sound_default(),
        ensures
            guard.0.wf(),
            call_ensures(G::default, (), guard.0.grower),
            guard.0.blocks@ == Seq::<Region>::empty(),
            guard.0.live() == Seq::<Region>::empty(),
            guard.0.obtained() == 0,
            guard.0.spec_allocation_count() == 0,
            guard.0.spec_deallocation_count() == 0,
            final(self).init == READY,
            final(self).raw == Some(*final(guard.0)),
    {
        self.init = INITIALIZING;
        let grower = G::default();
        self.raw = Some(RawAlloc::new(grower));
        self.init = READY;
        AllocGuard(self.raw.as_mut().unwrap())
    }
}

impl<G: HeapGrower + Default> Default for GenericAllocator<G> {
    fn default() -> (allocator: Self)
        ensures
            allocator.init == UNINIT,
            allocator.raw is None,
            allocator.wf(),
    {
        Self::new()
    }
}

} // verus!
