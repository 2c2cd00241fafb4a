use super::{
    lemma_multiple_is_large, lemma_round_up, lemma_sum_of_multiples, round_up, round_up_spec,
};
use super::atomic_array::{AtomicArray, ARRAY_ORIGIN};
use super::heap_grower::HeapGrower;
use vstd::prelude::*;

verus! {

/// A heap of fixed capacity that hands out its bytes page by page, from
/// the lowest address up.
pub struct ToyHeap {
    pub page_size: usize,
    pub size: usize,
    pub heap: AtomicArray,
}

/// The error of a request that the rest of the toy heap cannot hold.
#[derive(Debug)]
pub struct ToyHeapOverflowError();

impl Default for ToyHeap {
    fn default() -> (heap: Self)
        ensures
            heap.page_size == 64,
            heap.size == 0,
            heap.heap@.len() == 256 * 1024,
            heap.inv(),
    {
        ToyHeap { page_size: 64, size: 0, heap: AtomicArray::new(256 * 1024) }
    }
}

impl ToyHeap {
    /// Whether the heap can hand out `size` more bytes, rounded up to
    /// whole pages.
    pub open spec fn can_grow(&self, size: usize) -> bool {
        self.size + round_up_spec(size as int, self.page_size as int) <= self.heap@.len()
    }
}

impl HeapGrower for ToyHeap {
    type Err = ToyHeapOverflowError;

    open spec fn inv(&self) -> bool {
        &&& self.page_size > 0
        &&& ARRAY_ORIGIN as int % self.page_size as int == 0
        &&& self.size as int % self.page_size as int == 0
        &&& self.size <= self.heap@.len()
        &&& ARRAY_ORIGIN + self.heap@.len() <= usize::MAX
    }

    open spec fn page_size(&self) -> usize {
        self.page_size
    }

    open spec fn acquired(&self, addr: usize) -> bool {
        ARRAY_ORIGIN <= addr < ARRAY_ORIGIN + self.size
    }

    open spec fn byte(&self, addr: usize) -> u8 {
        self.heap@[addr - ARRAY_ORIGIN]
    }

    /// Hands out the next `size` bytes, rounded up to whole pages, or
    /// fails if the heap has not that many left.
    fn grow_heap(&mut self, size: usize) -> (grown: Result<(usize, usize), ToyHeapOverflowError>)
        ensures
            final(self).page_size == old(self).page_size,
            final(self).heap == old(self).heap,
            match grown {
                Ok((base, actual)) => {
                    &&& old(self).can_grow(size)
                    &&& base == ARRAY_ORIGIN + old(self).size
                    &&& actual == round_up_spec(size as int, old(self).page_size as int)
                    &&& final(self).size == old(self).size + actual
                },
                Err(_) => !old(self).can_grow(size) && final(self).size == old(self).size,
            },
    {
        proof {
            lemma_round_up(size as int, self.page_size as int);
            lemma_multiple_is_large(ARRAY_ORIGIN as int, self.page_size as int);
        }
        if size > usize::MAX - (self.page_size - 1) {
            return Err(ToyHeapOverflowError());
        }
        let allocating: usize = round_up(size, self.page_size);
        let current_size: usize = self.size;
        if allocating > self.heap.len() - current_size {
            return Err(ToyHeapOverflowError());
        }
        let ptr: usize = self.heap.as_ptr() + current_size;
        self.size = current_size + allocating;
        proof {
            let page = self.page_size as int;
            lemma_sum_of_multiples(ARRAY_ORIGIN as int, current_size as int, page);
            lemma_sum_of_multiples(current_size as int, allocating as int, page);
        }
        Ok((ptr, allocating))
    }

    /// Sets the `len` bytes from `ptr` on to zero and leaves everything
    /// else as it is.
    fn zero_bytes(&mut self, ptr: usize, len: usize)
        ensures
            final(self).page_size == old(self).page_size,
            final(self).size == old(self).size,
            final(self).heap@.len() == old(self).heap@.len(),
            forall|k: int|
                0 <= k < old(self).heap@.len() ==> #[trigger] final(self).heap@[k] == (if ptr
                    <= ARRAY_ORIGIN + k < ptr + len {
                    0u8
                } else {
                    old(self).heap@[k]
                }),
    {
        if len == 0 {
            return ;
        }
        proof {
            assert(self.acquired(ptr));
            assert(self.acquired((ptr + len - 1) as usize));
        }
        let start: usize = ptr - self.heap.as_ptr();
        let mut i: usize = 0;
        while i < len
            invariant
                0 <= i <= len,
                start + len <= self.heap@.len(),
                ARRAY_ORIGIN + self.heap@.len() <= usize::MAX,
                self.heap@.len() == old(self).heap@.len(),
                self.page_size == old(self).page_size,
                self.size == old(self).size,
                forall|k: int|
                    0 <= k < self.heap@.len() ==> #[trigger] self.heap@[k] == (if start <= k
                        < start + i {
                        0u8
                    } else {
                        old(self).heap@[k]
                    }),
            decreases len - i,
        {
            self.heap.store(start + i, 0);
            i = i + 1;
        }
    }

    /// Copies the `len` bytes from `from` on to the `len` bytes from `to`
    /// on and leaves everything else as it is.
    fn copy_bytes(&mut self, from: usize, to: usize, len: usize)
        ensures
            final(self).page_size == old(self).page_size,
            final(self).size == old(self).size,
            final(self).heap@.len() == old(self).heap@.len(),
            forall|k: int|
                0 <= k < old(self).heap@.len() ==> #[trigger] final(self).heap@[k] == (if to
                    <= ARRAY_ORIGIN + k < to + len {
                    old(self).heap@[k - to + from]
                } else {
                    old(self).heap@[k]
                }),
    {
        if len == 0 {
            return ;
        }
        proof {
            assert(self.acquired(from));
            assert(self.acquired((from + len - 1) as usize));
            assert(self.acquired(to));
            assert(self.acquired((to + len - 1) as usize));
        }
        let source: usize = from - self.heap.as_ptr();
        let target: usize = to - self.heap.as_ptr();
        let mut i: usize = 0;
        while i < len
            invariant
                0 <= i <= len,
                source + len <= self.heap@.len(),
                ARRAY_ORIGIN + self.heap@.len() <= usize::MAX,
                target + len <= self.heap@.len(),
                source + len <= target || target + len <= source,
                self.heap@.len() == old(self).heap@.len(),
                self.page_size == old(self).page_size,
                self.size == old(self).size,
                forall|k: int|
                    0 <= k < self.heap@.len() ==> #[trigger] self.heap@[k] == (if target <= k
                        < target + i {
                        old(self).heap@[k - target + source]
                    } else {
                        old(self).heap@[k]
                    }),
            decreases len - i,
        {
            let value: u8 = self.heap.load(source + i);
            self.heap.store(target + i, value);
            i = i + 1;
        }
    }
}

} // verus!
