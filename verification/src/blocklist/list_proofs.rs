use super::free_header::HEADER_SIZE;
use super::region::{
    adjacents, all_valid, clear_of, covers, distinct, list_inv, ordered, out_of_orders, overlaps,
    separated, sizes_aligned, total_size, wrapped_total, Region, HEADER_ALIGN,
};
use crate::relation::Relation;
use vstd::prelude::*;

verus! {

/// What holds of a list holds of the list without its first region.
pub proof fn lemma_drop_first(s: Seq<Region>)
    requires
        s.len() > 0,
    ensures
        all_valid(s) ==> all_valid(s.drop_first()),
        ordered(s) ==> ordered(s.drop_first()),
        separated(s) ==> separated(s.drop_first()),
{
    let t = s.drop_first();
    assert forall|i: int| 0 <= i < t.len() implies t[i] == s[i + 1] by {}
    if all_valid(s) {
        assert forall|i: int| 0 <= i < t.len() implies (#[trigger] t[i]).valid() by {
            assert(s[i + 1].valid());
        }
    }
    if ordered(s) {
        assert forall|i: int, j: int| 0 <= i < j < t.len() implies (#[trigger] t[i]).end() <= (
        #[trigger] t[j]).base by {
            assert(s[i + 1].end() <= s[j + 1].base);
        }
    }
    if separated(s) {
        assert forall|i: int, j: int| 0 <= i < j < t.len() implies (#[trigger] t[i]).end() < (
        #[trigger] t[j]).base by {
            assert(s[i + 1].end() < s[j + 1].base);
        }
    }
}

/// Regions that stand in address order with gaps between them share no
/// address.
pub proof fn lemma_separated_distinct(s: Seq<Region>)
    requires
        separated(s),
    ensures
        distinct(s),
{
    assert forall|i: int, j: int| 0 <= i < j < s.len() implies (#[trigger] s[i]).disjoint(
        #[trigger] s[j],
    ) by {
        assert(s[i].end() < s[j].base);
    }
}

/// A list that meets the invariant still meets it without one of its
/// regions.
pub proof fn lemma_inv_remove(s: Seq<Region>, k: int)
    requires
        list_inv(s),
        0 <= k < s.len(),
    ensures
        list_inv(s.remove(k)),
        sizes_aligned(s) ==> sizes_aligned(s.remove(k)),
{
    let p = s.remove(k);
    assert forall|i: int| 0 <= i < p.len() implies (#[trigger] p[i]).valid() by {
        if i < k {
            assert(p[i] == s[i]);
        } else {
            assert(p[i] == s[i + 1]);
        }
    }
    assert forall|i: int, j: int| 0 <= i < j < p.len() implies (#[trigger] p[i]).end() < (
    #[trigger] p[j]).base by {
        let i0 = if i < k {
            i
        } else {
            i + 1
        };
        let j0 = if j < k {
            j
        } else {
            j + 1
        };
        assert(p[i] == s[i0] && p[j] == s[j0]);
    }
    if sizes_aligned(s) {
        assert forall|i: int| 0 <= i < p.len() implies (#[trigger] p[i]).size % (
        HEADER_ALIGN as int) == 0 by {
            if i < k {
                assert(p[i] == s[i]);
            } else {
                assert(p[i] == s[i + 1]);
            }
        }
    }
}

/// A list that meets the invariant still meets it when one of its regions
/// is replaced by a valid region inside it.
pub proof fn lemma_inv_shrink(s: Seq<Region>, k: int, r: Region)
    requires
        list_inv(s),
        0 <= k < s.len(),
        r.valid(),
        s[k].base <= r.base,
        r.end() <= s[k].end(),
    ensures
        list_inv(s.update(k, r)),
        sizes_aligned(s) && r.size % (HEADER_ALIGN as int) == 0 ==> sizes_aligned(s.update(k, r)),
{
    let p = s.update(k, r);
    assert forall|i: int| 0 <= i < p.len() implies (#[trigger] p[i]).valid() by {
        if i != k {
            assert(p[i] == s[i]);
        }
    }
    assert forall|i: int, j: int| 0 <= i < j < p.len() implies (#[trigger] p[i]).end() < (
    #[trigger] p[j]).base by {
        assert(s[i].end() < s[j].base);
    }
    if sizes_aligned(s) && r.size % (HEADER_ALIGN as int) == 0 {
        assert forall|i: int| 0 <= i < p.len() implies (#[trigger] p[i]).size % (
        HEADER_ALIGN as int) == 0 by {
            if i != k {
                assert(p[i] == s[i]);
            }
        }
    }
}

/// A list made of a first region and a rest has the bytes of both.
pub proof fn lemma_total_size_cons(r: Region, s: Seq<Region>)
    ensures
        total_size(seq![r] + s) == r.size + total_size(s),
{
    assert((seq![r] + s).drop_first() =~= s);
}

/// A list with one more region at its end has that region's bytes more.
pub proof fn lemma_total_size_push(s: Seq<Region>, r: Region)
    ensures
        total_size(s.push(r)) == total_size(s) + r.size,
    decreases s.len(),
{
    if s.len() == 0 {
        assert(s.push(r).drop_first() =~= Seq::<Region>::empty());
        assert(total_size(s.push(r).drop_first()) == 0);
    } else {
        assert(s.push(r).drop_first() =~= s.drop_first().push(r));
        lemma_total_size_push(s.drop_first(), r);
    }
}

/// A list without one of its regions has that region's bytes less.
pub proof fn lemma_total_size_remove(s: Seq<Region>, k: int)
    requires
        0 <= k < s.len(),
    ensures
        total_size(s.remove(k)) == total_size(s) - s[k].size,
    decreases s.len(),
{
    if k == 0 {
        assert(s.remove(0) =~= s.drop_first());
    } else {
        let t = s.drop_first();
        assert(s.remove(k) =~= seq![s[0]] + t.remove(k - 1));
        lemma_total_size_cons(s[0], t.remove(k - 1));
        lemma_total_size_remove(t, k - 1);
        assert(t[k - 1] == s[k]);
    }
}

/// A list with one region replaced has the difference of the two sizes
/// more.
pub proof fn lemma_total_size_update(s: Seq<Region>, k: int, r: Region)
    requires
        0 <= k < s.len(),
    ensures
        total_size(s.update(k, r)) == total_size(s) - s[k].size + r.size,
    decreases s.len(),
{
    let t = s.drop_first();
    if k == 0 {
        assert(s.update(0, r) =~= seq![r] + t);
        lemma_total_size_cons(r, t);
    } else {
        assert(s.update(k, r) =~= seq![s[0]] + t.update(k - 1, r));
        lemma_total_size_cons(s[0], t.update(k - 1, r));
        lemma_total_size_update(t, k - 1, r);
        assert(t[k - 1] == s[k]);
    }
}

/// Regions in address order that do not overlap hold no more bytes than
/// lie between the first base and the last end, and at least a header
/// each.
pub proof fn lemma_total_size_bounds(s: Seq<Region>)
    requires
        all_valid(s),
        ordered(s),
    ensures
        s.len() * HEADER_SIZE <= total_size(s),
        s.len() > 0 ==> total_size(s) <= s.last().end() - s[0].base,
        total_size(s) <= usize::MAX,
        s.len() * HEADER_SIZE <= usize::MAX,
    decreases s.len(),
{
    if s.len() > 0 {
        let t = s.drop_first();
        lemma_drop_first(s);
        lemma_total_size_bounds(t);
        assert(s[0].valid());
        assert(s.last().valid());
        if t.len() > 0 {
            assert(t[0] == s[1]);
            assert(t.last() == s.last());
            assert(s[0].end() <= s[1].base);
        }
        assert(s.len() * HEADER_SIZE == t.len() * HEADER_SIZE + HEADER_SIZE) by (nonlinear_arith)
            requires
                s.len() == t.len() + 1,
        ;
    }
}

/// Where the bytes of a list fit a machine word, the machine's sum is the
/// number of bytes.
pub proof fn lemma_wrapped_total(s: Seq<Region>)
    requires
        all_valid(s),
        total_size(s) <= usize::MAX,
    ensures
        wrapped_total(s) == total_size(s),
    decreases s.len(),
{
    if s.len() > 0 {
        let t = s.drop_last();
        assert(s =~= t.push(s.last()));
        lemma_total_size_push(t, s.last());
        assert(s.last().valid());
        assert forall|i: int| 0 <= i < t.len() implies (#[trigger] t[i]).valid() by {
            assert(t[i] == s[i]);
        }
        lemma_wrapped_total(t);
    }
}

/// An address lies in a list exactly if it lies in the first region or
/// in the rest.
pub proof fn lemma_covers_cons(r: Region, s: Seq<Region>, a: int)
    ensures
        covers(seq![r] + s, a) <==> r.contains(a) || covers(s, a),
{
    let p = seq![r] + s;
    if covers(p, a) {
        let i = choose|i: int| 0 <= i < p.len() && (#[trigger] p[i]).contains(a);
        if i > 0 {
            assert(s[i - 1].contains(a));
        }
    }
    if covers(s, a) {
        let i = choose|i: int| 0 <= i < s.len() && (#[trigger] s[i]).contains(a);
        assert(p[i + 1] == s[i]);
        assert(p[i + 1].contains(a));
    }
    if r.contains(a) {
        assert(p[0].contains(a));
    }
}

/// An address lies in a list with one more region at its end exactly if
/// it lies in the list or in that region.
pub proof fn lemma_covers_push(s: Seq<Region>, r: Region, a: int)
    ensures
        covers(s.push(r), a) <==> covers(s, a) || r.contains(a),
{
    let p = s.push(r);
    if covers(p, a) {
        let i = choose|i: int| 0 <= i < p.len() && (#[trigger] p[i]).contains(a);
        if i < s.len() {
            assert(s[i].contains(a));
        }
    }
    if covers(s, a) {
        let i = choose|i: int| 0 <= i < s.len() && (#[trigger] s[i]).contains(a);
        assert(p[i].contains(a));
    }
    if r.contains(a) {
        assert(p[s.len() as int].contains(a));
    }
}

/// An address lies in a list of non-empty, pairwise disjoint regions with
/// one region taken out exactly if it lies in the list and not in that
/// region.
pub proof fn lemma_covers_remove(s: Seq<Region>, k: int, a: int)
    requires
        0 <= k < s.len(),
        distinct(s),
    ensures
        covers(s.remove(k), a) <==> covers(s, a) && !s[k].contains(a),
{
    let p = s.remove(k);
    if covers(p, a) {
        let i = choose|i: int| 0 <= i < p.len() && (#[trigger] p[i]).contains(a);
        if i < k {
            assert(s[i].contains(a));
            assert(s[i].disjoint(s[k]));
        } else {
            assert(p[i] == s[i + 1]);
            assert(s[i + 1].contains(a));
            assert(s[k].disjoint(s[i + 1]));
        }
    }
    if covers(s, a) && !s[k].contains(a) {
        let i = choose|i: int| 0 <= i < s.len() && (#[trigger] s[i]).contains(a);
        if i < k {
            assert(p[i].contains(a));
        } else {
            assert(p[i - 1] == s[i]);
            assert(p[i - 1].contains(a));
        }
    }
}

/// An address lies in a list with one region replaced exactly if it lies
/// in the replacement or in one of the other regions.
pub proof fn lemma_covers_update(s: Seq<Region>, k: int, r: Region, a: int)
    requires
        0 <= k < s.len(),
    ensures
        covers(s.update(k, r), a) <==> r.contains(a) || covers(s.remove(k), a),
{
    let p = s.update(k, r);
    let q = s.remove(k);
    if covers(p, a) {
        let i = choose|i: int| 0 <= i < p.len() && (#[trigger] p[i]).contains(a);
        if i < k {
            assert(q[i].contains(a));
        } else if i > k {
            assert(q[i - 1] == s[i]);
            assert(q[i - 1].contains(a));
        }
    }
    if covers(q, a) {
        let i = choose|i: int| 0 <= i < q.len() && (#[trigger] q[i]).contains(a);
        if i < k {
            assert(p[i].contains(a));
        } else {
            assert(q[i] == s[i + 1]);
            assert(p[i + 1].contains(a));
        }
    }
    if r.contains(a) {
        assert(p[k].contains(a));
    }
}

/// A non-empty region shares no address with a list exactly if it is
/// disjoint from each of the list's regions.
pub proof fn lemma_clear_of_covers(s: Seq<Region>, r: Region)
    requires
        r.size > 0,
        forall|i: int| 0 <= i < s.len() ==> (#[trigger] s[i]).size > 0,
    ensures
        clear_of(s, r) <==> (forall|a: int| r.contains(a) ==> !covers(s, a)),
{
    if clear_of(s, r) {
        assert forall|a: int| r.contains(a) implies !covers(s, a) by {
            if covers(s, a) {
                let i = choose|i: int| 0 <= i < s.len() && (#[trigger] s[i]).contains(a);
                assert(s[i].disjoint(r));
            }
        }
    }
    if forall|a: int| r.contains(a) ==> !covers(s, a) {
        assert forall|i: int| 0 <= i < s.len() implies (#[trigger] s[i]).disjoint(r) by {
            if !s[i].disjoint(r) {
                let a = if r.base >= s[i].base {
                    r.base
                } else {
                    s[i].base
                };
                assert(s[i].contains(a));
                assert(r.contains(a));
                assert(covers(s, a));
            }
        }
    }
}

/// The sum of two multiples of the header alignment is one.
pub proof fn lemma_sum_aligned(a: int, b: int)
    requires
        a % (HEADER_ALIGN as int) == 0,
        b % (HEADER_ALIGN as int) == 0,
    ensures
        (a + b) % (HEADER_ALIGN as int) == 0,
{
}

/// The difference of two multiples of the header alignment is one.
pub proof fn lemma_diff_aligned(a: int, b: int)
    requires
        a % (HEADER_ALIGN as int) == 0,
        b % (HEADER_ALIGN as int) == 0,
    ensures
        (a - b) % (HEADER_ALIGN as int) == 0,
{
}

/// The audit counts lie between zero and the number of consecutive pairs.
pub proof fn lemma_audit_bounds(s: Seq<Region>)
    ensures
        0 <= overlaps(s) <= s.len(),
        0 <= adjacents(s) <= s.len(),
        0 <= out_of_orders(s) <= s.len(),
    decreases s.len(),
{
    if s.len() >= 2 {
        lemma_audit_bounds(s.drop_last());
    }
}

/// A list that meets the free-list invariant passes the audit: no pair
/// overlaps, touches or stands out of order.
pub proof fn lemma_audit_clean(s: Seq<Region>)
    requires
        separated(s),
    ensures
        overlaps(s) == 0,
        adjacents(s) == 0,
        out_of_orders(s) == 0,
    decreases s.len(),
{
    if s.len() >= 2 {
        let t = s.drop_last();
        assert forall|i: int, j: int| 0 <= i < j < t.len() implies (#[trigger] t[i]).end() < (
        #[trigger] t[j]).base by {
            assert(t[i] == s[i] && t[j] == s[j]);
        }
        lemma_audit_clean(t);
        assert(s[s.len() - 2].end() < s[s.len() - 1].base);
    }
}

/// A list of valid regions that passes the audit meets the free-list
/// invariant.
pub proof fn lemma_clean_audit_inv(s: Seq<Region>)
    requires
        all_valid(s),
        overlaps(s) == 0,
        adjacents(s) == 0,
        out_of_orders(s) == 0,
    ensures
        list_inv(s),
    decreases s.len(),
{
    if s.len() >= 2 {
        let t = s.drop_last();
        lemma_audit_bounds(t);
        assert forall|i: int| 0 <= i < t.len() implies (#[trigger] t[i]).valid() by {
            assert(t[i] == s[i]);
        }
        lemma_clean_audit_inv(t);
        let n = s.len() - 1;
        assert(s[n - 1].relation(s[n]) == Relation::Before);
        assert(s[n - 1].valid());
        assert forall|i: int, j: int| 0 <= i < j < s.len() implies (#[trigger] s[i]).end() < (
        #[trigger] s[j]).base by {
            if j < n {
                assert(t[i] == s[i] && t[j] == s[j]);
            } else if i < n - 1 {
                assert(t[i] == s[i] && t[n - 1] == s[n - 1]);
                assert(t[i].end() < t[n - 1].base);
            }
        }
    }
}

} // verus!
