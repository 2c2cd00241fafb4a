use super::list_proofs::{
    lemma_covers_remove, lemma_covers_update, lemma_diff_aligned, lemma_inv_remove,
    lemma_inv_shrink, lemma_separated_distinct, lemma_sum_aligned, lemma_total_size_remove,
    lemma_total_size_update,
};
use super::region::{
    after_pop, after_take, all_valid, can_take, clear_of, covers, first_fit, fits, index_of_base,
    list_inv, popped, sizes_aligned, total_size, Region, HEADER_ALIGN,
};
use vstd::prelude::*;

verus! {

/// The index that first-fit yields lies in the list or just past its end;
/// no block before it can serve the request, and the block at it can.
pub proof fn lemma_first_fit(s: Seq<Region>, need: int)
    ensures
        0 <= first_fit(s, need) <= s.len(),
        forall|j: int| 0 <= j < first_fit(s, need) ==> !fits(#[trigger] s[j], need),
        first_fit(s, need) < s.len() ==> fits(s[first_fit(s, need)], need),
    decreases s.len(),
{
    if s.len() > 0 && !fits(s[0], need) {
        let t = s.drop_first();
        lemma_first_fit(t, need);
        assert forall|j: int| 0 <= j < first_fit(s, need) implies !fits(#[trigger] s[j], need) by {
            if j > 0 {
                assert(s[j] == t[j - 1]);
            }
        }
        if first_fit(s, need) < s.len() {
            assert(s[first_fit(s, need)] == t[first_fit(t, need)]);
        }
    }
}

/// The index up to which no block can serve the request, and at which one
/// can unless it is the end of the list, is the index that first-fit
/// yields.
pub proof fn lemma_first_fit_at(s: Seq<Region>, need: int, i: int)
    requires
        0 <= i <= s.len(),
        forall|j: int| 0 <= j < i ==> !fits(#[trigger] s[j], need),
        i < s.len() ==> fits(s[i], need),
    ensures
        first_fit(s, need) == i,
{
    lemma_first_fit(s, need);
    let f = first_fit(s, need);
    if f < i {
        assert(!fits(s[f], need));
    }
}

/// A first-fit request leaves every region valid.
pub proof fn lemma_after_pop_valid(s: Seq<Region>, need: int)
    requires
        all_valid(s),
        need >= 0,
    ensures
        all_valid(after_pop(s, need)),
{
    lemma_first_fit(s, need);
    let i = first_fit(s, need);
    let out = after_pop(s, need);
    if i < s.len() {
        assert(s[i].valid());
        assert forall|k: int| 0 <= k < out.len() implies (#[trigger] out[k]).valid() by {
            if s[i].size == need {
                if k < i {
                    assert(out[k] == s[k]);
                } else {
                    assert(out[k] == s[k + 1]);
                }
            } else if k != i {
                assert(out[k] == s[k]);
            }
        }
    }
}

/// A first-fit request keeps the free-list invariant. If it finds a block,
/// the region handed out lies inside what was free and outside what stays
/// free, and the free bytes drop by the request.
pub proof fn lemma_after_pop(s: Seq<Region>, need: int)
    requires
        list_inv(s),
        need >= 0,
    ensures
        list_inv(after_pop(s, need)),
        first_fit(s, need) >= s.len() ==> after_pop(s, need) == s,
        first_fit(s, need) < s.len() ==> {
            &&& total_size(after_pop(s, need)) == total_size(s) - need
            &&& clear_of(after_pop(s, need), popped(s, need))
            &&& popped(s, need).base >= s[first_fit(s, need)].base
            &&& popped(s, need).end() == s[first_fit(s, need)].end()
            &&& forall|a: int|
                covers(s, a) <==> covers(after_pop(s, need), a) || popped(s, need).contains(a)
        },
{
    lemma_first_fit(s, need);
    let i = first_fit(s, need);
    let out = after_pop(s, need);
    if i < s.len() {
        let got = popped(s, need);
        assert(s[i].valid());
        lemma_separated_distinct(s);
        if s[i].size == need {
            lemma_inv_remove(s, i);
            lemma_total_size_remove(s, i);
            assert forall|a: int| covers(s, a) <==> covers(out, a) || got.contains(a) by {
                lemma_covers_remove(s, i, a);
                if got.contains(a) {
                    assert(s[i].contains(a));
                }
            }
            assert forall|k: int| 0 <= k < out.len() implies (#[trigger] out[k]).disjoint(got) by {
                if k < i {
                    assert(out[k] == s[k]);
                    assert(s[k].end() < s[i].base);
                } else {
                    assert(out[k] == s[k + 1]);
                    assert(s[i].end() < s[k + 1].base);
                }
            }
        } else {
            let shrunk = Region { base: s[i].base, size: s[i].size - need };
            lemma_inv_shrink(s, i, shrunk);
            lemma_total_size_update(s, i, shrunk);
            assert forall|a: int| covers(s, a) <==> covers(out, a) || got.contains(a) by {
                lemma_covers_update(s, i, shrunk, a);
                lemma_covers_remove(s, i, a);
                if got.contains(a) || shrunk.contains(a) {
                    assert(s[i].contains(a));
                }
            }
            assert forall|k: int| 0 <= k < out.len() implies (#[trigger] out[k]).disjoint(got) by {
                if k < i {
                    assert(out[k] == s[k]);
                    assert(s[k].end() < s[i].base);
                } else if k > i {
                    assert(out[k] == s[k]);
                    assert(s[i].end() < s[k].base);
                }
            }
        }
    }
}

/// A first-fit request for a multiple of the header alignment leaves
/// every size a multiple of it, and hands out an aligned region.
pub proof fn lemma_after_pop_aligned(s: Seq<Region>, need: int)
    requires
        list_inv(s),
        sizes_aligned(s),
        need >= 0,
        need % (HEADER_ALIGN as int) == 0,
    ensures
        sizes_aligned(after_pop(s, need)),
        first_fit(s, need) < s.len() ==> popped(s, need).base % (HEADER_ALIGN as int) == 0,
{
    lemma_first_fit(s, need);
    let i = first_fit(s, need);
    if i < s.len() {
        assert(s[i].valid());
        assert(s[i].size % (HEADER_ALIGN as int) == 0);
        lemma_sum_aligned(s[i].base, s[i].size);
        lemma_diff_aligned(s[i].end(), need);
        if s[i].size == need {
            lemma_inv_remove(s, i);
        } else {
            let shrunk = Region { base: s[i].base, size: s[i].size - need };
            lemma_diff_aligned(s[i].size, need);
            lemma_inv_shrink(s, i, shrunk);
        }
    }
}

/// The index that `index_of_base` yields lies in the list or just past
/// its end; the region at it starts at the base, and none before it does.
pub proof fn lemma_index_of_base(s: Seq<Region>, base: int)
    ensures
        0 <= index_of_base(s, base) <= s.len(),
        index_of_base(s, base) < s.len() ==> s[index_of_base(s, base)].base == base,
        forall|j: int| 0 <= j < index_of_base(s, base) ==> (#[trigger] s[j]).base != base,
    decreases s.len(),
{
    if s.len() > 0 && s[0].base != base {
        let t = s.drop_first();
        lemma_index_of_base(t, base);
        assert forall|j: int| 0 <= j < index_of_base(s, base) implies (#[trigger] s[j]).base
            != base by {
            if j > 0 {
                assert(s[j] == t[j - 1]);
            }
        }
        if index_of_base(s, base) < s.len() {
            assert(s[index_of_base(s, base)] == t[index_of_base(t, base)]);
        }
    }
}

/// The index up to which no block starts at `base`, and at which one
/// does unless it is the end of the list, is the index that
/// `index_of_base` yields.
pub proof fn lemma_index_of_base_at(s: Seq<Region>, base: int, i: int)
    requires
        0 <= i <= s.len(),
        forall|j: int| 0 <= j < i ==> (#[trigger] s[j]).base != base,
        i < s.len() ==> s[i].base == base,
    ensures
        index_of_base(s, base) == i,
{
    lemma_index_of_base(s, base);
    let f = index_of_base(s, base);
    if f < i {
        assert(s[f].base != base);
    }
}

/// Taking the lower bytes of a block leaves every region valid.
pub proof fn lemma_after_take_valid(s: Seq<Region>, base: int, need: int)
    requires
        all_valid(s),
        need >= 0,
        need % (HEADER_ALIGN as int) == 0,
    ensures
        all_valid(after_take(s, base, need)),
{
    lemma_index_of_base(s, base);
    let i = index_of_base(s, base);
    let out = after_take(s, base, need);
    if can_take(s, base, need) {
        assert(s[i].valid());
        lemma_sum_aligned(base, need);
        assert forall|k: int| 0 <= k < out.len() implies (#[trigger] out[k]).valid() by {
            if s[i].size == need {
                if k < i {
                    assert(out[k] == s[k]);
                } else {
                    assert(out[k] == s[k + 1]);
                }
            } else if k != i {
                assert(out[k] == s[k]);
            }
        }
    }
}

/// Taking the lower bytes of a block keeps the free-list invariant. The
/// bytes taken were free before and are free no longer, and the free
/// bytes drop by their number.
pub proof fn lemma_after_take(s: Seq<Region>, base: int, need: int)
    requires
        list_inv(s),
        need >= 0,
        need % (HEADER_ALIGN as int) == 0,
        can_take(s, base, need),
    ensures
        list_inv(after_take(s, base, need)),
        sizes_aligned(s) ==> sizes_aligned(after_take(s, base, need)),
        total_size(after_take(s, base, need)) == total_size(s) - need,
        forall|a: int|
            covers(s, a) <==> covers(after_take(s, base, need), a) || base <= a < base + need,
        forall|a: int| base <= a < base + need ==> !covers(after_take(s, base, need), a),
{
    lemma_index_of_base(s, base);
    let i = index_of_base(s, base);
    let out = after_take(s, base, need);
    let taken = Region { base, size: need };
    assert(s[i].valid());
    lemma_separated_distinct(s);
    if s[i].size == need {
        lemma_inv_remove(s, i);
        lemma_total_size_remove(s, i);
        assert forall|a: int| covers(s, a) <==> covers(out, a) || base <= a < base + need by {
            lemma_covers_remove(s, i, a);
            if base <= a < base + need {
                assert(s[i].contains(a));
            }
        }
        assert forall|a: int| base <= a < base + need implies !covers(out, a) by {
            lemma_covers_remove(s, i, a);
            assert(s[i].contains(a));
        }
    } else {
        let moved = Region { base: base + need, size: s[i].size - need };
        lemma_sum_aligned(base, need);
        lemma_inv_shrink(s, i, moved);
        if sizes_aligned(s) {
            assert(s[i].size % (HEADER_ALIGN as int) == 0);
            lemma_diff_aligned(s[i].size, need);
        }
        lemma_total_size_update(s, i, moved);
        assert forall|a: int| covers(s, a) <==> covers(out, a) || base <= a < base + need by {
            lemma_covers_update(s, i, moved, a);
            lemma_covers_remove(s, i, a);
            if base <= a < base + need {
                assert(s[i].contains(a));
            }
            if moved.contains(a) {
                assert(s[i].contains(a));
            }
        }
        assert forall|a: int| base <= a < base + need implies !covers(out, a) by {
            lemma_covers_update(s, i, moved, a);
            lemma_covers_remove(s, i, a);
            assert(s[i].contains(a));
        }
    }
}

} // verus!
