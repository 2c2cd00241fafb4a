use crate::blocklist::free_header::HEADER_SIZE;
use crate::blocklist::list_proofs::{
    lemma_clear_of_covers, lemma_covers_push, lemma_covers_remove, lemma_covers_update,
    lemma_diff_aligned, lemma_sum_aligned, lemma_total_size_push, lemma_total_size_remove,
    lemma_total_size_update,
};
use crate::blocklist::pop_proofs::{
    lemma_after_pop, lemma_after_pop_aligned, lemma_after_take, lemma_first_fit,
    lemma_index_of_base,
};
use crate::blocklist::region::{
    after_pop, after_take, all_valid, can_take, clear_of, covers, distinct, first_fit,
    index_of_base, list_inv, popped, released, sizes_aligned, total_size, Region, HEADER_ALIGN,
};
use crate::blocklist::release_proofs::{lemma_released, lemma_released_aligned};
use vstd::prelude::*;

verus! {

/// What holds of a heap between two calls: `free` is a free list whose
/// regions, like the live allocations `live`, are whole numbers of
/// header alignments long; no two live allocations share an address, and
/// none shares one with a free region; free and live bytes lie in the
/// memory `acquired` from the page provider, and together they are the
/// `obtained` bytes that it handed out.
pub open spec fn consistent(
    free: Seq<Region>,
    live: Seq<Region>,
    acquired: Set<int>,
    obtained: int,
) -> bool {
    &&& list_inv(free)
    &&& sizes_aligned(free)
    &&& all_valid(live)
    &&& sizes_aligned(live)
    &&& distinct(live)
    &&& forall|a: int| #[trigger] covers(free, a) ==> acquired.contains(a)
    &&& forall|a: int| #[trigger] covers(live, a) ==> acquired.contains(a) && !covers(free, a)
    &&& total_size(live) + total_size(free) == obtained
}

/// Two non-empty regions are disjoint if no address lies in both.
pub proof fn lemma_disjoint_regions(r: Region, q: Region)
    requires
        r.size > 0,
        q.size > 0,
        forall|a: int| r.contains(a) ==> !q.contains(a),
    ensures
        r.disjoint(q),
{
    if !r.disjoint(q) {
        let a = if r.base >= q.base {
            r.base
        } else {
            q.base
        };
        assert(r.contains(a) && q.contains(a));
    }
}

/// A list of valid, aligned, pairwise disjoint regions stays one when a
/// valid, aligned region that shares no address with it joins it.
pub proof fn lemma_live_push(live: Seq<Region>, r: Region)
    requires
        all_valid(live),
        sizes_aligned(live),
        distinct(live),
        r.valid(),
        r.size % (HEADER_ALIGN as int) == 0,
        forall|a: int| r.contains(a) ==> !covers(live, a),
    ensures
        all_valid(live.push(r)),
        sizes_aligned(live.push(r)),
        distinct(live.push(r)),
{
    let p = live.push(r);
    assert forall|i: int| 0 <= i < p.len() implies (#[trigger] p[i]).valid() by {
        if i < live.len() {
            assert(p[i] == live[i]);
        }
    }
    assert forall|i: int| 0 <= i < p.len() implies (#[trigger] p[i]).size % (HEADER_ALIGN as int)
        == 0 by {
        if i < live.len() {
            assert(p[i] == live[i]);
        }
    }
    assert forall|i: int, j: int| 0 <= i < j < p.len() implies (#[trigger] p[i]).disjoint(
        #[trigger] p[j],
    ) by {
        assert(p[i] == live[i]);
        if j < live.len() {
            assert(p[j] == live[j]);
        } else {
            assert(live[i].valid());
            assert forall|a: int| live[i].contains(a) implies !r.contains(a) by {
                assert(covers(live, a));
            }
            lemma_disjoint_regions(live[i], r);
        }
    }
}

/// A list of valid, aligned, pairwise disjoint regions stays one without
/// one of its regions.
pub proof fn lemma_live_remove(live: Seq<Region>, k: int)
    requires
        all_valid(live),
        sizes_aligned(live),
        distinct(live),
        0 <= k < live.len(),
    ensures
        all_valid(live.remove(k)),
        sizes_aligned(live.remove(k)),
        distinct(live.remove(k)),
{
    let p = live.remove(k);
    assert forall|i: int| 0 <= i < p.len() implies (#[trigger] p[i]).valid() && p[i].size % (
    HEADER_ALIGN as int) == 0 by {
        if i < k {
            assert(p[i] == live[i]);
        } else {
            assert(p[i] == live[i + 1]);
        }
    }
    assert forall|i: int, j: int| 0 <= i < j < p.len() implies (#[trigger] p[i]).disjoint(
        #[trigger] p[j],
    ) by {
        let i0 = if i < k {
            i
        } else {
            i + 1
        };
        let j0 = if j < k {
            j
        } else {
            j + 1
        };
        assert(p[i] == live[i0] && p[j] == live[j0]);
    }
}

/// A list of valid, aligned, pairwise disjoint regions stays one when a
/// region is replaced by a valid, aligned region with the same base that
/// shares no address with the others.
pub proof fn lemma_live_update(live: Seq<Region>, k: int, r: Region)
    requires
        all_valid(live),
        sizes_aligned(live),
        distinct(live),
        0 <= k < live.len(),
        r.valid(),
        r.size % (HEADER_ALIGN as int) == 0,
        forall|a: int| r.contains(a) ==> !covers(live.remove(k), a),
    ensures
        all_valid(live.update(k, r)),
        sizes_aligned(live.update(k, r)),
        distinct(live.update(k, r)),
{
    let p = live.update(k, r);
    let q = live.remove(k);
    assert forall|i: int| 0 <= i < p.len() implies (#[trigger] p[i]).valid() && p[i].size % (
    HEADER_ALIGN as int) == 0 by {
        if i != k {
            assert(p[i] == live[i]);
        }
    }
    assert forall|i: int| 0 <= i < live.len() && i != k implies (#[trigger] live[i]).disjoint(
        r,
    ) by {
        assert(live[i].valid());
        assert forall|a: int| live[i].contains(a) implies !r.contains(a) by {
            if i < k {
                assert(q[i] == live[i]);
                assert(q[i].contains(a));
            } else {
                assert(q[i - 1] == live[i]);
                assert(q[i - 1].contains(a));
            }
            assert(covers(q, a));
        }
        lemma_disjoint_regions(live[i], r);
    }
    assert forall|i: int, j: int| 0 <= i < j < p.len() implies (#[trigger] p[i]).disjoint(
        #[trigger] p[j],
    ) by {
        if i == k {
            assert(p[j] == live[j]);
            assert(live[j].disjoint(r));
        } else if j == k {
            assert(p[i] == live[i]);
            assert(live[i].disjoint(r));
        } else {
            assert(p[i] == live[i] && p[j] == live[j]);
        }
    }
}

/// Serving a request from the free list keeps the heap consistent: the
/// region handed out is valid and aligned, and becomes a live allocation.
pub proof fn lemma_serve(
    free: Seq<Region>,
    live: Seq<Region>,
    acquired: Set<int>,
    obtained: int,
    need: int,
)
    requires
        consistent(free, live, acquired, obtained),
        need >= HEADER_SIZE,
        need % (HEADER_ALIGN as int) == 0,
        first_fit(free, need) < free.len(),
    ensures
        popped(free, need).valid(),
        consistent(after_pop(free, need), live.push(popped(free, need)), acquired, obtained),
        forall|a: int| popped(free, need).contains(a) ==> acquired.contains(a),
{
    let got = popped(free, need);
    let rest = after_pop(free, need);
    lemma_first_fit(free, need);
    lemma_after_pop(free, need);
    lemma_after_pop_aligned(free, need);
    let i = first_fit(free, need);
    assert(free[i].valid());
    assert(got.valid());
    assert forall|a: int| got.contains(a) implies acquired.contains(a) && !covers(live, a)
        && !covers(rest, a) by {
        assert(covers(free, a));
        lemma_clear_of_covers(rest, got);
        assert forall|j: int| 0 <= j < rest.len() implies (#[trigger] rest[j]).size > 0 by {
            assert(rest[j].valid());
        }
    }
    lemma_live_push(live, got);
    lemma_total_size_push(live, got);
    assert forall|a: int| #[trigger] covers(rest, a) implies acquired.contains(a) by {
        assert(covers(free, a));
    }
    assert forall|a: int| #[trigger] covers(live.push(got), a) implies acquired.contains(a)
        && !covers(rest, a) by {
        lemma_covers_push(live, got, a);
        if covers(live, a) {
            assert(!covers(free, a));
        }
    }
}

/// Releasing a live allocation keeps the heap consistent: its region
/// overlaps no free block, and joins the free list.
pub proof fn lemma_release(
    free: Seq<Region>,
    live: Seq<Region>,
    acquired: Set<int>,
    obtained: int,
    k: int,
)
    requires
        consistent(free, live, acquired, obtained),
        0 <= k < live.len(),
    ensures
        clear_of(free, live[k]),
        consistent(released(free, live[k]), live.remove(k), acquired, obtained),
{
    let r = live[k];
    let rest = released(free, r);
    assert(r.valid());
    assert forall|j: int| 0 <= j < free.len() implies (#[trigger] free[j]).size > 0 by {
        assert(free[j].valid());
    }
    assert forall|a: int| r.contains(a) implies !covers(free, a) by {
        assert(covers(live, a));
    }
    lemma_clear_of_covers(free, r);
    lemma_released(free, r);
    lemma_released_aligned(free, r);
    lemma_live_remove(live, k);
    lemma_total_size_remove(live, k);
    assert forall|a: int| #[trigger] covers(rest, a) implies acquired.contains(a) by {
        if r.contains(a) {
            assert(covers(live, a));
        } else {
            assert(covers(free, a));
        }
    }
    assert forall|a: int| #[trigger] covers(live.remove(k), a) implies acquired.contains(a)
        && !covers(rest, a) by {
        lemma_covers_remove(live, k, a);
        assert(covers(live, a));
    }
}

/// Taking in a region of the memory acquired that is neither free nor
/// live keeps the heap consistent: its lower `need` bytes become a live
/// allocation, and what is left joins the free list. What is left is
/// nothing, or enough to hold a header.
pub proof fn lemma_growth(
    free: Seq<Region>,
    live: Seq<Region>,
    acquired: Set<int>,
    obtained: int,
    base: int,
    got: int,
    need: int,
)
    requires
        consistent(free, live, acquired, obtained),
        need >= HEADER_SIZE,
        need % (HEADER_ALIGN as int) == 0,
        got >= need,
        got % (HEADER_ALIGN as int) == 0,
        base > 0,
        base % (HEADER_ALIGN as int) == 0,
        base + got <= usize::MAX,
        forall|a: int|
            base <= a < base + got ==> (#[trigger] acquired.contains(a)) && !covers(free, a)
                && !covers(live, a),
    ensures
        got == need || got >= need + HEADER_SIZE,
        got > need ==> (Region { base: base + need, size: got - need }).valid() && clear_of(
            free,
            Region { base: base + need, size: got - need },
        ),
        consistent(
            if got > need {
                released(free, Region { base: base + need, size: got - need })
            } else {
                free
            },
            live.push(Region { base, size: need }),
            acquired,
            obtained + got,
        ),
{
    let g = Region { base, size: need };
    let r = Region { base: base + need, size: got - need };
    lemma_diff_aligned(got, need);
    lemma_sum_aligned(base, need);
    assert forall|j: int| 0 <= j < free.len() implies (#[trigger] free[j]).size > 0 by {
        assert(free[j].valid());
    }
    assert forall|a: int| g.contains(a) implies !covers(live, a) by {
        assert(acquired.contains(a));
    }
    lemma_live_push(live, g);
    lemma_total_size_push(live, g);
    let rest = if got > need {
        released(free, r)
    } else {
        free
    };
    if got > need {
        assert forall|a: int| r.contains(a) implies !covers(free, a) by {
            assert(acquired.contains(a));
        }
        lemma_clear_of_covers(free, r);
        lemma_released(free, r);
        lemma_released_aligned(free, r);
    }
    assert forall|a: int| #[trigger] covers(rest, a) implies acquired.contains(a) by {
        if got > need && r.contains(a) {
            assert(acquired.contains(a));
        } else {
            assert(covers(free, a));
        }
    }
    assert forall|a: int| #[trigger] covers(live.push(g), a) implies acquired.contains(a)
        && !covers(rest, a) by {
        lemma_covers_push(live, g, a);
        if covers(live, a) {
            assert(!covers(free, a));
            if got > need && r.contains(a) {
                assert(acquired.contains(a));
            }
        } else {
            assert(acquired.contains(a));
        }
    }
}

/// Shrinking a live allocation keeps the heap consistent: the bytes it
/// gives up join the free list.
pub proof fn lemma_shrink(
    free: Seq<Region>,
    live: Seq<Region>,
    acquired: Set<int>,
    obtained: int,
    k: int,
    size: int,
)
    requires
        consistent(free, live, acquired, obtained),
        0 <= k < live.len(),
        HEADER_SIZE <= size < live[k].size,
        size % (HEADER_ALIGN as int) == 0,
    ensures
        live[k].size - size >= HEADER_SIZE,
        (Region { base: live[k].base + size, size: live[k].size - size }).valid(),
        clear_of(free, Region { base: live[k].base + size, size: live[k].size - size }),
        consistent(
            released(free, Region { base: live[k].base + size, size: live[k].size - size }),
            live.update(k, Region { base: live[k].base, size }),
            acquired,
            obtained,
        ),
{
    let old_region = live[k];
    let kept = Region { base: old_region.base, size };
    let r = Region { base: old_region.base + size, size: old_region.size - size };
    let rest = released(free, r);
    assert(old_region.valid());
    assert(old_region.size % (HEADER_ALIGN as int) == 0);
    lemma_diff_aligned(old_region.size, size);
    lemma_sum_aligned(old_region.base, size);
    assert forall|j: int| 0 <= j < free.len() implies (#[trigger] free[j]).size > 0 by {
        assert(free[j].valid());
    }
    assert forall|a: int| r.contains(a) implies !covers(free, a) by {
        assert(old_region.contains(a));
        assert(covers(live, a));
    }
    lemma_clear_of_covers(free, r);
    lemma_released(free, r);
    lemma_released_aligned(free, r);
    assert forall|a: int| kept.contains(a) implies !covers(live.remove(k), a) by {
        lemma_covers_remove(live, k, a);
        assert(old_region.contains(a));
    }
    lemma_live_update(live, k, kept);
    lemma_total_size_update(live, k, kept);
    assert forall|a: int| #[trigger] covers(rest, a) implies acquired.contains(a) by {
        if r.contains(a) {
            assert(old_region.contains(a));
            assert(covers(live, a));
        } else {
            assert(covers(free, a));
        }
    }
    assert forall|a: int| #[trigger] covers(live.update(k, kept), a) implies acquired.contains(a)
        && !covers(rest, a) by {
        lemma_covers_update(live, k, kept, a);
        lemma_covers_remove(live, k, a);
        if kept.contains(a) {
            assert(old_region.contains(a));
        }
        assert(covers(live, a));
    }
}

/// Growing a live allocation in place keeps the heap consistent: the
/// bytes it gains leave the free block that starts at its end.
pub proof fn lemma_extend(
    free: Seq<Region>,
    live: Seq<Region>,
    acquired: Set<int>,
    obtained: int,
    k: int,
    size: int,
)
    requires
        consistent(free, live, acquired, obtained),
        0 <= k < live.len(),
        size > live[k].size,
        size % (HEADER_ALIGN as int) == 0,
        can_take(free, live[k].end(), size - live[k].size),
    ensures
        (Region { base: live[k].base, size }).valid(),
        consistent(
            after_take(free, live[k].end(), size - live[k].size),
            live.update(k, Region { base: live[k].base, size }),
            acquired,
            obtained,
        ),
{
    let old_region = live[k];
    let grown = Region { base: old_region.base, size };
    let need = size - old_region.size;
    let rest = after_take(free, old_region.end(), need);
    assert(old_region.valid());
    assert(old_region.size % (HEADER_ALIGN as int) == 0);
    lemma_diff_aligned(size, old_region.size);
    lemma_after_take(free, old_region.end(), need);
    lemma_index_of_base(free, old_region.end());
    let i = index_of_base(free, old_region.end());
    assert(free[i].valid());
    assert forall|a: int| grown.contains(a) implies !covers(live.remove(k), a)
        && acquired.contains(a) && !covers(rest, a) by {
        lemma_covers_remove(live, k, a);
        if old_region.contains(a) {
            assert(covers(live, a));
            assert(!covers(free, a));
        } else {
            assert(covers(free, a));
            if covers(live, a) {
                assert(!covers(free, a));
            }
        }
    }
    lemma_live_update(live, k, grown);
    lemma_total_size_update(live, k, grown);
    assert forall|a: int| #[trigger] covers(rest, a) implies acquired.contains(a) by {
        assert(covers(free, a));
    }
    assert forall|a: int| #[trigger] covers(live.update(k, grown), a) implies acquired.contains(a)
        && !covers(rest, a) by {
        lemma_covers_update(live, k, grown, a);
        lemma_covers_remove(live, k, a);
        if !grown.contains(a) {
            assert(covers(live, a));
            assert(!covers(free, a));
        }
    }
}

} // verus!
