use vstd::prelude::*;

verus! {

/// The sum of two counters as the machine computes it: past `usize::MAX`
/// it starts again at zero.
pub open spec fn wrapping_sum(a: usize, b: usize) -> usize {
    if a + b > usize::MAX {
        (a + b - usize::MAX - 1) as usize
    } else {
        (a + b) as usize
    }
}

/// How many free blocks a list holds and how many bytes they span.
#[derive(Debug)]
pub struct Stats {
    pub length: usize,
    pub size: usize,
}

impl Default for Stats {
    fn default() -> (stats: Self)
        ensures
            stats.length == 0,
            stats.size == 0,
    {
        Stats { length: 0, size: 0 }
    }
}

impl Stats {
    /// Counts one more block, of `size` bytes.
    pub fn add_block(&mut self, size: usize)
        ensures
            final(self).length == wrapping_sum(old(self).length, 1),
            final(self).size == wrapping_sum(old(self).size, size),
    {
        self.length = self.length.wrapping_add(1);
        self.size = self.size.wrapping_add(size);
    }

    /// The number of blocks and the number of bytes counted so far.
    pub fn get_stats(&self) -> (stats: (usize, usize))
        ensures
            stats.0 == self.length,
            stats.1 == self.size,
    {
        (self.length, self.size)
    }
}

} // verus!
