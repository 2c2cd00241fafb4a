use super::{lemma_round_up, round_up_spec};
use crate::blocklist::region::HEADER_ALIGN;
use crate::blocklist::stats::wrapping_sum;
use vstd::prelude::*;

verus! {

/// The addresses `base`, `base + 1`, up to but not including `base + size`.
pub open spec fn span(base: int, size: int) -> Set<int> {
    Set::new(|a: int| base <= a < base + size)
}

/// A source of memory for an allocator: it hands out page-aligned regions
/// of the address space, each only once, and gives access to the bytes of
/// what it has handed out.
pub trait HeapGrower {
    type Err;

    /// What the grower needs to hold of itself between calls.
    spec fn inv(&self) -> bool;

    /// The size of a page in bytes.
    spec fn page_size(&self) -> usize;

    /// Whether the address was handed out.
    spec fn acquired(&self, addr: usize) -> bool;

    /// The byte that stands at an address that was handed out.
    spec fn byte(&self, addr: usize) -> u8;

    /// Hands out a region of at least `size` bytes as its base and its
    /// actual size. The region is page-aligned, a whole number of pages
    /// long, and shares no address with anything handed out before; the
    /// bytes handed out before stay as they are.
    fn grow_heap(&mut self, size: usize) -> (grown: Result<(usize, usize), Self::Err>)
        requires
            old(self).inv(),
        ensures
            final(self).inv(),
            final(self).page_size() == old(self).page_size(),
            forall|a: usize| #[trigger]
                old(self).acquired(a) ==> final(self).byte(a) == old(self).byte(a),
            match grown {
                Ok((base, actual)) => {
                    &&& actual >= size
                    &&& base as int % old(self).page_size() as int == 0
                    &&& actual as int % old(self).page_size() as int == 0
                    &&& base + actual <= usize::MAX
                    &&& size > 0 ==> base > 0
                    &&& forall|a: usize|
                        base <= a < base + actual ==> !(#[trigger] old(self).acquired(a))
                    &&& forall|a: usize| #[trigger]
                        final(self).acquired(a) == (old(self).acquired(a) || base <= a < base
                            + actual)
                },
                Err(_) => forall|a: usize| #[trigger]
                    final(self).acquired(a) == old(self).acquired(a),
            },
    ;

    /// Sets the `len` bytes from `ptr` on to zero.
    fn zero_bytes(&mut self, ptr: usize, len: usize)
        requires
            old(self).inv(),
            ptr + len <= usize::MAX,
            forall|a: usize| ptr <= a < ptr + len ==> #[trigger] old(self).acquired(a),
        ensures
            final(self).inv(),
            final(self).page_size() == old(self).page_size(),
            forall|a: usize| #[trigger] final(self).acquired(a) == old(self).acquired(a),
            forall|a: usize| #[trigger]
                old(self).acquired(a) ==> final(self).byte(a) == (if ptr <= a < ptr + len {
                    0u8
                } else {
                    old(self).byte(a)
                }),
    ;

    /// Copies the `len` bytes from `from` on to the `len` bytes from `to`
    /// on; the two ranges share no address.
    fn copy_bytes(&mut self, from: usize, to: usize, len: usize)
        requires
            old(self).inv(),
            from + len <= usize::MAX,
            to + len <= usize::MAX,
            forall|a: usize| from <= a < from + len ==> #[trigger] old(self).acquired(a),
            forall|a: usize| to <= a < to + len ==> #[trigger] old(self).acquired(a),
            from + len <= to || to + len <= from,
        ensures
            final(self).inv(),
            final(self).page_size() == old(self).page_size(),
            forall|a: usize| #[trigger] final(self).acquired(a) == old(self).acquired(a),
            forall|a: usize| #[trigger]
                old(self).acquired(a) ==> final(self).byte(a) == (if to <= a < to + len {
                    old(self).byte((a - to + from) as usize)
                } else {
                    old(self).byte(a)
                }),
    ;
}

/// Whether the pages of `grower` are whole numbers of header alignments
/// long, so that every page starts at an address fit for a header.
pub open spec fn pages_aligned<G: HeapGrower>(grower: &G) -> bool {
    grower.page_size() > 0 && grower.page_size() as int % (HEADER_ALIGN as int) == 0
}

/// The addresses that `grower` has handed out.
pub open spec fn acquired_set<G: HeapGrower>(grower: &G) -> Set<int> {
    Set::new(|a: int| 0 <= a <= usize::MAX && grower.acquired(a as usize))
}

/// The page size that the page provider of the operating system works
/// with.
pub const DEFAULT_PAGE_SIZE: usize = 4096;

/// The bookkeeping of a page provider that maps memory from the operating
/// system: what it has mapped, and how often it was asked.
#[derive(Debug)]
pub struct EnhancedHeapGrower {
    pub pages: usize,
    pub growths: usize,
    pub base: usize,
    pub total_allocated: usize,
    pub peak_allocation: usize,
    pub allocation_attempts: usize,
}

impl Default for EnhancedHeapGrower {
    fn default() -> (grower: Self)
        ensures
            grower.pages == 0,
            grower.growths == 0,
            grower.base == 0,
            grower.total_allocated == 0,
            grower.peak_allocation == 0,
            grower.allocation_attempts == 0,
    {
        EnhancedHeapGrower {
            pages: 0,
            growths: 0,
            base: 0,
            total_allocated: 0,
            peak_allocation: 0,
            allocation_attempts: 0,
        }
    }
}

impl EnhancedHeapGrower {
    /// Rounds `value` up to the next multiple of `increment`, a power of
    /// two: the one number from `value` on, and less than `increment`
    /// above it, whose bits below `increment` are all zero.
    pub fn round_up(value: usize, increment: usize) -> (rounded: usize)
        requires
            increment > 0,
            increment & ((increment - 1) as usize) == 0,
            value + increment - 1 <= usize::MAX,
        ensures
            rounded & ((increment - 1) as usize) == 0,
            value <= rounded < value + increment,
    {
        let mask: usize = increment - 1;
        let sum: usize = value + mask;
        let rounded: usize = sum & !mask;
        assert(rounded & mask == 0 && rounded <= sum && sum - rounded <= mask) by (bit_vector)
            requires
                increment > 0,
                increment & mask == 0,
                mask == (increment - 1) as usize,
                rounded == sum & !mask,
        ;
        rounded
    }

    /// The size of a page in bytes.
    pub fn get_page_size() -> (size: usize)
        ensures
            size == DEFAULT_PAGE_SIZE,
    {
        DEFAULT_PAGE_SIZE
    }

    /// Counts a request for `size` bytes and says how many bytes to map
    /// for it: none for an empty request, else the size rounded up to
    /// whole pages. There is no answer if the rounded size does not fit a
    /// machine word.
    pub fn plan_growth(&mut self, size: usize) -> (bytes: Option<usize>)
        ensures
            final(self).allocation_attempts == wrapping_sum(old(self).allocation_attempts, 1),
            final(self).pages == old(self).pages,
            final(self).growths == old(self).growths,
            final(self).base == old(self).base,
            final(self).total_allocated == old(self).total_allocated,
            final(self).peak_allocation == old(self).peak_allocation,
            size + DEFAULT_PAGE_SIZE - 1 > usize::MAX ==> bytes is None,
            size + DEFAULT_PAGE_SIZE - 1 <= usize::MAX ==> bytes == Some(
                round_up_spec(size as int, DEFAULT_PAGE_SIZE as int) as usize,
            ),
    {
        self.allocation_attempts = self.allocation_attempts.wrapping_add(1);
        if size == 0 {
            proof {
                lemma_round_up(0, DEFAULT_PAGE_SIZE as int);
            }
            return Some(0);
        }
        let page_size: usize = Self::get_page_size();
        if size > usize::MAX - (page_size - 1) {
            return None;
        }
        assert(page_size & ((page_size - 1) as usize) == 0) by (bit_vector)
            requires
                page_size == 4096,
        ;
        let to_allocate: usize = Self::round_up(size, page_size);
        assert(to_allocate % 4096 == 0) by (bit_vector)
            requires
                to_allocate & 4095 == 0,
        ;
        proof {
            lemma_round_up(size as int, DEFAULT_PAGE_SIZE as int);
        }
        Some(to_allocate)
    }

    /// Books a region of `mapped` bytes that the operating system has
    /// mapped at `ptr`, and hands both on.
    pub fn record_growth(&mut self, ptr: usize, mapped: usize) -> (grown: (usize, usize))
        ensures
            grown == (ptr, mapped),
            final(self).allocation_attempts == old(self).allocation_attempts,
            final(self).total_allocated == wrapping_sum(old(self).total_allocated, mapped),
            final(self).peak_allocation == (if old(self).peak_allocation >= wrapping_sum(
                old(self).total_allocated,
                mapped,
            ) {
                old(self).peak_allocation
            } else {
                wrapping_sum(old(self).total_allocated, mapped)
            }),
            final(self).pages == wrapping_sum(
                old(self).pages,
                (mapped / DEFAULT_PAGE_SIZE) as usize,
            ),
            final(self).growths == wrapping_sum(old(self).growths, 1),
            final(self).base == ptr,
    {
        let page_size: usize = Self::get_page_size();
        let total: usize = self.total_allocated.wrapping_add(mapped);
        self.total_allocated = total;
        if total > self.peak_allocation {
            self.peak_allocation = total;
        }
        self.pages = self.pages.wrapping_add(mapped / page_size);
        self.growths = self.growths.wrapping_add(1);
        self.base = ptr;
        (ptr, mapped)
    }

    /// The number of bytes mapped so far.
    pub fn total_allocated(&self) -> (total: usize)
        ensures
            total == self.total_allocated,
    {
        self.total_allocated
    }

    /// The largest number of bytes that were ever mapped at once.
    pub fn peak_allocation(&self) -> (peak: usize)
        ensures
            peak == self.peak_allocation,
    {
        self.peak_allocation
    }

    /// The number of requests to grow so far.
    pub fn allocation_attempts(&self) -> (attempts: usize)
        ensures
            attempts == self.allocation_attempts,
    {
        self.allocation_attempts
    }
}

/// Two growers that have handed out the same addresses have the same
/// set of addresses handed out.
pub proof fn lemma_same_acquired<G: HeapGrower>(before: &G, after: &G)
    requires
        forall|a: usize| #[trigger] after.acquired(a) == before.acquired(a),
    ensures
        acquired_set(after) == acquired_set(before),
{
    assert forall|a: int| acquired_set(after).contains(a) == acquired_set(before).contains(a) by {
        if 0 <= a <= usize::MAX {
            assert(after.acquired(a as usize) == before.acquired(a as usize));
        }
    }
    assert(acquired_set(after) =~= acquired_set(before));
}

/// A grower that has handed out one more region has the addresses of
/// that region more in its set of addresses handed out.
pub proof fn lemma_grown_acquired<G: HeapGrower>(before: &G, after: &G, base: usize, actual: usize)
    requires
        base + actual <= usize::MAX,
        forall|a: usize| #[trigger]
            after.acquired(a) == (before.acquired(a) || base <= a < base + actual),
        forall|a: usize| base <= a < base + actual ==> !(#[trigger] before.acquired(a)),
    ensures
        acquired_set(after) == acquired_set(before).union(span(base as int, actual as int)),
        forall|a: int| base <= a < base + actual ==> !(#[trigger] acquired_set(before).contains(a)),
{
    let grown = acquired_set(before).union(span(base as int, actual as int));
    assert forall|a: int| acquired_set(after).contains(a) == grown.contains(a) by {
        if 0 <= a <= usize::MAX {
            let u = a as usize;
            assert(after.acquired(u) == (before.acquired(u) || base <= u < base + actual));
        }
    }
    assert(acquired_set(after) =~= grown);
    assert forall|a: int| base <= a < base + actual implies !(#[trigger] acquired_set(
        before,
    ).contains(a)) by {
        assert(!before.acquired(a as usize));
    }
}

} // verus!
