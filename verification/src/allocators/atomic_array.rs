use vstd::prelude::*;

verus! {

/// The address at which the first byte of every array stands.
pub const ARRAY_ORIGIN: usize = 0x1_0000;

/// A fixed-length array of bytes that stands for a stretch of memory
/// starting at `ARRAY_ORIGIN`.
pub struct AtomicArray {
    data: Vec<u8>,
}

impl View for AtomicArray {
    type V = Seq<u8>;

    closed spec fn view(&self) -> Seq<u8> {
        self.data@
    }
}

impl Default for AtomicArray {
    fn default() -> (array: Self)
        ensures
            array@.len() == 0,
    {
        AtomicArray { data: Vec::new() }
    }
}

impl AtomicArray {
    /// Makes an array of `size` bytes, all zero.
    pub fn new(size: usize) -> (array: Self)
        ensures
            array@.len() == size,
            forall|i: int| 0 <= i < size ==> #[trigger] array@[i] == 0,
    {
        AtomicArray { data: vec![0u8; size] }
    }

    /// The byte at `index`.
    pub fn load(&self, index: usize) -> (value: u8)
        requires
            index < self@.len(),
        ensures
            value == self@[index as int],
    {
        self.data[index]
    }

    /// Puts `value` at `index`.
    pub fn store(&mut self, index: usize, value: u8)
        requires
            index < old(self)@.len(),
        ensures
            final(self)@ == old(self)@.update(index as int, value),
    {
        self.data[index] = value;
    }

    /// Adds `value` to the byte at `index`, wrapping around at 256, and
    /// returns the byte that stood there before.
    pub fn fetch_add(&mut self, index: usize, value: u8) -> (previous: u8)
        requires
            index < old(self)@.len(),
        ensures
            previous == old(self)@[index as int],
            final(self)@ == old(self)@.update(
                index as int,
                ((previous + value) % 256) as u8,
            ),
    {
        let previous: u8 = self.data[index];
        let sum: u8 = if value <= u8::MAX - previous {
            previous + value
        } else {
            value - (u8::MAX - previous) - 1
        };
        self.data[index] = sum;
        previous
    }

    /// The number of bytes in the array.
    pub fn len(&self) -> (len: usize)
        ensures
            len == self@.len(),
    {
        self.data.len()
    }

    /// The address of the array's first byte.
    pub fn as_ptr(&self) -> (ptr: usize)
        ensures
            ptr == ARRAY_ORIGIN,
    {
        ARRAY_ORIGIN
    }
}

} // verus!
