use super::free_header::HEADER_SIZE;
use crate::relation::Relation;
use vstd::prelude::*;

verus! {

/// Alignment of every free region's first byte.
pub const HEADER_ALIGN: usize = 16;

/// A contiguous range of addresses `[base, base + size)`.
pub struct Region {
    pub base: int,
    pub size: int,
}

impl Region {
    /// The first address past the region.
    pub open spec fn end(self) -> int {
        self.base + self.size
    }

    /// Whether address `a` lies inside the region.
    pub open spec fn contains(self, a: int) -> bool {
        self.base <= a < self.end()
    }

    /// A region that may stand in a free list: it starts at a non-null,
    /// header-aligned address, has room for a header and ends inside the
    /// address space.
    pub open spec fn valid(self) -> bool {
        &&& self.base > 0
        &&& self.base % (HEADER_ALIGN as int) == 0
        &&& self.size >= HEADER_SIZE as int
        &&& self.end() <= usize::MAX as int
    }

    /// The two regions share no address.
    pub open spec fn disjoint(self, other: Region) -> bool {
        self.end() <= other.base || other.end() <= self.base
    }

    /// The region that spans `self` and `other` when `other` starts where
    /// `self` ends.
    pub open spec fn join(self, other: Region) -> Region {
        Region { base: self.base, size: self.size + other.size }
    }

    /// How `self` lies relative to `other`.
    pub open spec fn relation(self, other: Region) -> Relation {
        if self.end() < other.base {
            Relation::Before
        } else if self.end() == other.base {
            Relation::AdjacentBefore
        } else if self.base < other.end() {
            Relation::Overlapping
        } else if self.base == other.end() {
            Relation::AdjacentAfter
        } else {
            Relation::After
        }
    }
}

/// Every region of `s` is valid.
pub open spec fn all_valid(s: Seq<Region>) -> bool {
    forall|i: int| 0 <= i < s.len() ==> (#[trigger] s[i]).valid()
}

/// The regions stand in address order and none reaches into a later one;
/// neighbours may touch.
pub open spec fn ordered(s: Seq<Region>) -> bool {
    forall|i: int, j: int| 0 <= i < j < s.len() ==> (#[trigger] s[i]).end() <= (#[trigger] s[j]).base
}

/// The regions stand in address order with a gap between any two: no
/// overlap and no touching neighbours.
pub open spec fn separated(s: Seq<Region>) -> bool {
    forall|i: int, j: int| 0 <= i < j < s.len() ==> (#[trigger] s[i]).end() < (#[trigger] s[j]).base
}

/// The invariant of a free list: valid regions, in address order, without
/// overlap, maximally coalesced.
pub open spec fn list_inv(s: Seq<Region>) -> bool {
    all_valid(s) && separated(s)
}

/// No two regions of `s` share an address.
pub open spec fn distinct(s: Seq<Region>) -> bool {
    forall|i: int, j: int| 0 <= i < j < s.len() ==> (#[trigger] s[i]).disjoint(#[trigger] s[j])
}

/// Every region of `s` is a whole number of header alignments long.
pub open spec fn sizes_aligned(s: Seq<Region>) -> bool {
    forall|i: int| 0 <= i < s.len() ==> (#[trigger] s[i]).size % (HEADER_ALIGN as int) == 0
}

/// Whether address `a` lies in some region of `s`.
pub open spec fn covers(s: Seq<Region>, a: int) -> bool {
    exists|i: int| 0 <= i < s.len() && (#[trigger] s[i]).contains(a)
}

/// Whether `r` shares no address with any region of `s`.
pub open spec fn clear_of(s: Seq<Region>, r: Region) -> bool {
    forall|i: int| 0 <= i < s.len() ==> (#[trigger] s[i]).disjoint(r)
}

/// The number of bytes in the regions of `s`.
pub open spec fn total_size(s: Seq<Region>) -> int
    decreases s.len(),
{
    if s.len() == 0 {
        0
    } else {
        s[0].size + total_size(s.drop_first())
    }
}

/// The number of bytes in the regions of `s` as a machine word sums them,
/// from the first region on.
pub open spec fn wrapped_total(s: Seq<Region>) -> int
    decreases s.len(),
{
    if s.len() == 0 {
        0
    } else {
        let sum = wrapped_total(s.drop_last()) + s.last().size;
        if sum > usize::MAX {
            sum - usize::MAX - 1
        } else {
            sum
        }
    }
}

/// Whether a block of this region can serve a request of `need` bytes:
/// it fits exactly, or what is left after the split can hold a header.
pub open spec fn fits(r: Region, need: int) -> bool {
    r.size == need || r.size >= need + HEADER_SIZE as int
}

/// The index of the first region of `s` that can serve `need` bytes, or
/// `s.len()` if there is none.
pub open spec fn first_fit(s: Seq<Region>, need: int) -> int
    decreases s.len(),
{
    if s.len() == 0 {
        0
    } else if fits(s[0], need) {
        0
    } else {
        1 + first_fit(s.drop_first(), need)
    }
}

/// The list after a first-fit request of `need` bytes: an exact fit leaves
/// the list, a larger block keeps its lower part.
pub open spec fn after_pop(s: Seq<Region>, need: int) -> Seq<Region> {
    let i = first_fit(s, need);
    if i >= s.len() {
        s
    } else if s[i].size == need {
        s.remove(i)
    } else {
        s.update(i, Region { base: s[i].base, size: s[i].size - need })
    }
}

/// The region handed out by a first-fit request of `need` bytes that finds
/// a block: the upper `need` bytes of that block.
pub open spec fn popped(s: Seq<Region>, need: int) -> Region {
    let i = first_fit(s, need);
    Region { base: s[i].end() - need, size: need }
}

/// The index of the first region of `s` that starts at `base`, or
/// `s.len()` if there is none.
pub open spec fn index_of_base(s: Seq<Region>, base: int) -> int
    decreases s.len(),
{
    if s.len() == 0 || s[0].base == base {
        0
    } else {
        1 + index_of_base(s.drop_first(), base)
    }
}

/// Whether the block of `s` that starts at `base` can give up its lower
/// `need` bytes: there is such a block, and it is `need` bytes long or
/// keeps room for a header.
pub open spec fn can_take(s: Seq<Region>, base: int, need: int) -> bool {
    index_of_base(s, base) < s.len() && fits(s[index_of_base(s, base)], need)
}

/// The list after the block that starts at `base` has given up its lower
/// `need` bytes, where it can: a block of just that size leaves the list,
/// a larger one starts `need` bytes later.
pub open spec fn after_take(s: Seq<Region>, base: int, need: int) -> Seq<Region> {
    let i = index_of_base(s, base);
    if !can_take(s, base, need) {
        s
    } else if s[i].size == need {
        s.remove(i)
    } else {
        s.update(i, Region { base: base + need, size: s[i].size - need })
    }
}

/// The number of regions of `s` that positional insertion leaves in
/// front of `r`.
pub open spec fn place_index(s: Seq<Region>, r: Region) -> int
    decreases s.len(),
{
    if s.len() == 0 || r.base < s[0].base {
        0
    } else {
        1 + place_index(s.drop_first(), r)
    }
}

/// `r` put into `s` at its place in address order, nothing merged.
pub open spec fn place(s: Seq<Region>, r: Region) -> Seq<Region>
    decreases s.len(),
{
    if s.len() == 0 {
        seq![r]
    } else if r.base < s[0].base {
        seq![r] + s
    } else {
        seq![s[0]] + place(s.drop_first(), r)
    }
}

/// `s` with its first region merged with the second, if the first ends
/// where the second begins.
pub open spec fn merge_next(s: Seq<Region>) -> Seq<Region> {
    if s.len() >= 2 && s[0].end() == s[1].base {
        seq![s[0].join(s[1])] + s.subrange(2, s.len() as int)
    } else {
        s
    }
}

/// `s` after the merge at its head: the first region absorbs the second
/// if the two touch, and then once more what follows if that touches too.
pub open spec fn merge_head(s: Seq<Region>) -> Seq<Region> {
    if s.len() >= 2 && s[0].end() == s[1].base {
        merge_next(merge_next(s))
    } else {
        s
    }
}

/// `s` with every pair of touching neighbours merged into one region.
pub open spec fn coalesce(s: Seq<Region>) -> Seq<Region>
    decreases s.len(),
{
    if s.len() < 2 {
        s
    } else {
        let t = coalesce(s.drop_first());
        if t.len() > 0 && s[0].end() == t[0].base {
            seq![s[0].join(t[0])] + t.drop_first()
        } else {
            seq![s[0]] + t
        }
    }
}

/// The free list after region `r` was released into `s`: positional
/// insertion, then the merge pass.
pub open spec fn released(s: Seq<Region>, r: Region) -> Seq<Region> {
    coalesce(place(s, r))
}

/// How many consecutive pairs of `s` overlap.
pub open spec fn overlaps(s: Seq<Region>) -> int
    decreases s.len(),
{
    if s.len() < 2 {
        0
    } else {
        overlaps(s.drop_last()) + (if s[s.len() - 2].relation(s[s.len() - 1])
            == Relation::Overlapping {
            1int
        } else {
            0int
        })
    }
}

/// How many consecutive pairs of `s` touch, in either order.
pub open spec fn adjacents(s: Seq<Region>) -> int
    decreases s.len(),
{
    if s.len() < 2 {
        0
    } else {
        let relation = s[s.len() - 2].relation(s[s.len() - 1]);
        adjacents(s.drop_last()) + (if relation == Relation::AdjacentBefore || relation
            == Relation::AdjacentAfter {
            1int
        } else {
            0int
        })
    }
}

/// How many consecutive pairs of `s` stand with the later region at the
/// lower address.
pub open spec fn out_of_orders(s: Seq<Region>) -> int
    decreases s.len(),
{
    if s.len() < 2 {
        0
    } else {
        let relation = s[s.len() - 2].relation(s[s.len() - 1]);
        out_of_orders(s.drop_last()) + (if relation == Relation::AdjacentAfter || relation
            == Relation::After {
            1int
        } else {
            0int
        })
    }
}

} // verus!
