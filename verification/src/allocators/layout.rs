use vstd::prelude::*;

verus! {

/// Whether `n` is a power of two.
pub open spec fn is_power_of_two(n: int) -> bool
    decreases n,
{
    if n <= 0 {
        false
    } else if n == 1 {
        true
    } else {
        n % 2 == 0 && is_power_of_two(n / 2)
    }
}

/// The largest size a layout may have for the alignment `align`: rounded
/// up to the alignment the size still fits `isize`.
pub open spec fn max_size_for_align(align: int) -> int {
    isize::MAX as int - (align - 1)
}

/// The size and alignment of a requested block of memory.
#[derive(Debug, Clone, Copy, PartialEq, Eq, Structural)]
pub struct Layout {
    size: usize,
    align: usize,
}

/// The error of a size and an alignment that make no layout.
#[derive(Debug, Clone, Copy, PartialEq, Eq, Structural)]
pub struct LayoutError {}

impl Layout {
    /// The requested number of bytes.
    pub closed spec fn spec_size(&self) -> usize {
        self.size
    }

    /// The requested alignment in bytes.
    pub closed spec fn spec_align(&self) -> usize {
        self.align
    }

    /// The alignment is a power of two, and the size rounded up to it
    /// fits `isize`.
    pub open spec fn wf(&self) -> bool {
        &&& is_power_of_two(self.spec_align() as int)
        &&& self.spec_size() <= max_size_for_align(self.spec_align() as int)
    }

    /// Makes the layout of `size` bytes aligned to `align`, which must be
    /// a power of two; the size rounded up to the alignment must fit
    /// `isize`.
    pub fn from_size_align(size: usize, align: usize) -> (layout: Result<Layout, LayoutError>)
        ensures
            match layout {
                Ok(layout) => {
                    &&& is_power_of_two(align as int)
                    &&& size <= max_size_for_align(align as int)
                    &&& layout.spec_size() == size
                    &&& layout.spec_align() == align
                    &&& layout.wf()
                },
                Err(_) => !is_power_of_two(align as int) || size > max_size_for_align(
                    align as int,
                ),
            },
    {
        if !power_of_two(align) {
            return Err(LayoutError {  });
        }
        let limit: usize = isize::MAX as usize;
        if align - 1 > limit || size > limit - (align - 1) {
            return Err(LayoutError {  });
        }
        Ok(Layout { size, align })
    }

    /// The requested number of bytes.
    #[verifier::when_used_as_spec(spec_size)]
    pub fn size(&self) -> (size: usize)
        ensures
            size == self.spec_size(),
    {
        self.size
    }

    /// The requested alignment in bytes.
    #[verifier::when_used_as_spec(spec_align)]
    pub fn align(&self) -> (align: usize)
        ensures
            align == self.spec_align(),
    {
        self.align
    }
}

/// Whether `n` is a power of two.
pub fn power_of_two(n: usize) -> (is: bool)
    ensures
        is == is_power_of_two(n as int),
{
    if n == 0 {
        return false;
    }
    let mut m: usize = n;
    while m % 2 == 0
        invariant
            m > 0,
            is_power_of_two(m as int) == is_power_of_two(n as int),
        decreases m,
    {
        m = m / 2;
    }
    m == 1
}

/// A power of two that is at most sixteen divides sixteen.
pub proof fn lemma_power_of_two_small(n: int)
    requires
        is_power_of_two(n),
        n <= 16,
    ensures
        16int % n == 0,
{
    reveal_with_fuel(is_power_of_two, 5);
    assert(!is_power_of_two(3));
    assert(!is_power_of_two(5));
    assert(!is_power_of_two(7));
    assert(!is_power_of_two(6));
    assert(!is_power_of_two(9));
    assert(!is_power_of_two(10));
    assert(!is_power_of_two(11));
    assert(!is_power_of_two(12));
    assert(!is_power_of_two(13));
    assert(!is_power_of_two(14));
    assert(!is_power_of_two(15));
    assert(n == 1 || n == 2 || n == 3 || n == 4 || n == 5 || n == 6 || n == 7 || n == 8 || n == 9
        || n == 10 || n == 11 || n == 12 || n == 13 || n == 14 || n == 15 || n == 16);
}

} // verus!
