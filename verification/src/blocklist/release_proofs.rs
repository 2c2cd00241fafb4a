use super::list_proofs::{
    lemma_covers_cons, lemma_drop_first, lemma_sum_aligned, lemma_total_size_cons,
};
use super::region::{
    all_valid, clear_of, coalesce, covers, list_inv, merge_head, merge_next, ordered, place,
    place_index, released, separated, sizes_aligned, total_size, Region, HEADER_ALIGN,
};
use vstd::prelude::*;

verus! {

/// Positional insertion puts `r` behind the leading regions that do not
/// start after it and moves the others one place back.
pub proof fn lemma_place_shape(s: Seq<Region>, r: Region)
    ensures
        0 <= place_index(s, r) <= s.len(),
        place(s, r).len() == s.len() + 1,
        place(s, r)[place_index(s, r)] == r,
        forall|j: int| 0 <= j < place_index(s, r) ==> (#[trigger] place(s, r)[j]) == s[j],
        forall|j: int|
            place_index(s, r) < j <= s.len() ==> (#[trigger] place(s, r)[j]) == s[j - 1],
        forall|j: int| 0 <= j < place_index(s, r) ==> (#[trigger] s[j]).base <= r.base,
        place_index(s, r) < s.len() ==> r.base < s[place_index(s, r)].base,
    decreases s.len(),
{
    if s.len() == 0 || r.base < s[0].base {
    } else {
        let t = s.drop_first();
        lemma_place_shape(t, r);
        let k = place_index(s, r);
        let p = place(s, r);
        let q = place(t, r);
        assert(p == seq![s[0]] + q);
        assert forall|j: int| 0 <= j < k implies (#[trigger] p[j]) == s[j] by {
            if j > 0 {
                assert(p[j] == q[j - 1]);
                assert(t[j - 1] == s[j]);
            }
        }
        assert forall|j: int| k < j <= s.len() implies (#[trigger] p[j]) == s[j - 1] by {
            assert(p[j] == q[j - 1]);
            assert(t[j - 2] == s[j - 1]);
        }
        assert forall|j: int| 0 <= j < k implies (#[trigger] s[j]).base <= r.base by {
            if j > 0 {
                assert(t[j - 1] == s[j]);
            }
        }
        if k < s.len() {
            assert(t[k - 1] == s[k]);
        }
    }
}

/// Positional insertion adds exactly the bytes of the region.
pub proof fn lemma_place_total(s: Seq<Region>, r: Region)
    ensures
        total_size(place(s, r)) == total_size(s) + r.size,
    decreases s.len(),
{
    if s.len() == 0 {
        lemma_total_size_cons(r, s);
        assert(seq![r] + s =~= seq![r]);
    } else if r.base < s[0].base {
        lemma_total_size_cons(r, s);
    } else {
        lemma_place_total(s.drop_first(), r);
        lemma_total_size_cons(s[0], place(s.drop_first(), r));
    }
}

/// Positional insertion of a valid region that overlaps nothing keeps the
/// regions valid and in address order, and adds exactly its bytes.
pub proof fn lemma_place(s: Seq<Region>, r: Region)
    requires
        all_valid(s),
        ordered(s),
        r.valid(),
        clear_of(s, r),
    ensures
        all_valid(place(s, r)),
        ordered(place(s, r)),
        place(s, r).len() == s.len() + 1,
        total_size(place(s, r)) == total_size(s) + r.size,
        forall|a: int| covers(place(s, r), a) <==> covers(s, a) || r.contains(a),
        s.len() > 0 && s[0].base < r.base ==> place(s, r)[0] == s[0],
{
    let p = place(s, r);
    let k = place_index(s, r);
    lemma_place_shape(s, r);
    lemma_place_total(s, r);
    assert forall|i: int| 0 <= i < p.len() implies (#[trigger] p[i]).valid() by {
        if i < k {
            assert(p[i] == s[i]);
        } else if i > k {
            assert(p[i] == s[i - 1]);
        }
    }
    // regions before the place end at or before r, those behind start at or after its end
    assert forall|i: int| 0 <= i < k implies (#[trigger] s[i]).end() <= r.base by {
        assert(s[i].disjoint(r));
        assert(s[i].valid());
        assert(s[i].base <= r.base);
    }
    assert forall|i: int| k <= i < s.len() implies r.end() <= (#[trigger] s[i]).base by {
        assert(s[i].disjoint(r));
        assert(s[i].valid());
        assert(s[k].valid());
        if i > k {
            assert(s[k].end() <= s[i].base);
        }
    }
    assert forall|i: int, j: int| 0 <= i < j < p.len() implies (#[trigger] p[i]).end() <= (
    #[trigger] p[j]).base by {
        if j < k {
            assert(p[i] == s[i] && p[j] == s[j]);
        } else if j == k {
            assert(p[i] == s[i]);
        } else if i < k {
            assert(p[i] == s[i] && p[j] == s[j - 1]);
        } else if i == k {
            assert(p[j] == s[j - 1]);
        } else {
            assert(p[i] == s[i - 1] && p[j] == s[j - 1]);
        }
    }
    assert forall|a: int| covers(p, a) <==> covers(s, a) || r.contains(a) by {
        if covers(p, a) {
            let i = choose|i: int| 0 <= i < p.len() && (#[trigger] p[i]).contains(a);
            if i < k {
                assert(s[i].contains(a));
            } else if i > k {
                assert(s[i - 1].contains(a));
            }
        }
        if covers(s, a) {
            let i = choose|i: int| 0 <= i < s.len() && (#[trigger] s[i]).contains(a);
            if i < k {
                assert(p[i].contains(a));
            } else {
                assert(p[i + 1] == s[i]);
                assert(p[i + 1].contains(a));
            }
        }
        if r.contains(a) {
            assert(p[k].contains(a));
        }
    }
    if s.len() > 0 && s[0].base < r.base {
        assert(k > 0);
    }
}

/// A list that meets the free-list invariant has nothing left to merge.
pub proof fn lemma_coalesce_fixed(s: Seq<Region>)
    requires
        separated(s),
    ensures
        coalesce(s) == s,
    decreases s.len(),
{
    if s.len() >= 2 {
        let t = s.drop_first();
        lemma_drop_first(s);
        lemma_coalesce_fixed(t);
        assert(t[0] == s[1]);
        assert(s[0].end() < s[1].base);
        assert(seq![s[0]] + t =~= s);
    }
}

/// The merge pass keeps a list non-empty, with its first base.
pub proof fn lemma_coalesce_nonempty(s: Seq<Region>)
    requires
        s.len() > 0,
    ensures
        coalesce(s).len() > 0,
        coalesce(s).len() <= s.len(),
        coalesce(s)[0].base == s[0].base,
        coalesce(s)[0].size >= s[0].size || !all_valid(s),
    decreases s.len(),
{
    if s.len() >= 2 {
        let rest = s.drop_first();
        lemma_coalesce_nonempty(rest);
        lemma_drop_first(s);
        if all_valid(s) {
            assert(rest[0].valid());
        }
    }
}

/// The merge pass neither frees nor takes an address.
pub proof fn lemma_coalesce_covers(s: Seq<Region>, a: int)
    requires
        all_valid(s),
    ensures
        covers(coalesce(s), a) <==> covers(s, a),
    decreases s.len(),
{
    if s.len() >= 2 {
        let rest = s.drop_first();
        let t = coalesce(rest);
        lemma_drop_first(s);
        lemma_coalesce_covers(rest, a);
        assert(s =~= seq![s[0]] + rest);
        lemma_covers_cons(s[0], rest, a);
        if t.len() > 0 && s[0].end() == t[0].base {
            let tail = t.drop_first();
            assert(t =~= seq![t[0]] + tail);
            lemma_covers_cons(t[0], tail, a);
            lemma_covers_cons(s[0].join(t[0]), tail, a);
            lemma_coalesce_nonempty(rest);
            assert(rest[0].valid());
        } else {
            lemma_covers_cons(s[0], t, a);
        }
    }
}

/// The merge pass turns valid regions in address order into a list that
/// meets the free-list invariant, keeps the first base and the last end,
/// and neither adds nor loses a byte.
pub proof fn lemma_coalesce(s: Seq<Region>)
    requires
        all_valid(s),
        ordered(s),
    ensures
        list_inv(coalesce(s)),
        coalesce(s).len() <= s.len(),
        s.len() > 0 ==> coalesce(s).len() > 0 && coalesce(s)[0].base == s[0].base && coalesce(
            s,
        ).last().end() == s.last().end(),
        total_size(coalesce(s)) == total_size(s),
        forall|a: int| covers(coalesce(s), a) <==> covers(s, a),
    decreases s.len(),
{
    let c = coalesce(s);
    assert forall|a: int| covers(coalesce(s), a) <==> covers(s, a) by {
        lemma_coalesce_covers(s, a);
    }
    if s.len() < 2 {
        assert(c == s);
    } else {
        let rest = s.drop_first();
        let t = coalesce(rest);
        lemma_drop_first(s);
        lemma_coalesce(rest);
        assert(rest[0] == s[1]);
        assert(rest.last() == s.last());
        assert(s[0].valid());
        assert(s[0].end() <= s[1].base);
        assert(t[0].valid());
        assert(t.last().valid());
        if s[0].end() == t[0].base {
            let m = s[0].join(t[0]);
            let tail = t.drop_first();
            assert(c == seq![m] + tail);
            lemma_drop_first(t);
            assert(all_valid(c)) by {
                assert forall|i: int| 0 <= i < c.len() implies (#[trigger] c[i]).valid() by {
                    if i > 0 {
                        assert(c[i] == t[i]);
                    }
                }
            }
            assert(separated(c)) by {
                assert forall|i: int, j: int| 0 <= i < j < c.len() implies (
                #[trigger] c[i]).end() < (#[trigger] c[j]).base by {
                    assert(c[j] == t[j]);
                    if i == 0 {
                        assert(t[0].end() < t[j].base);
                    } else {
                        assert(c[i] == t[i]);
                    }
                }
            }
            if tail.len() > 0 {
                assert(c.last() == t.last());
            }
            lemma_total_size_cons(m, tail);
            assert(total_size(t) == t[0].size + total_size(tail));
        } else {
            assert(c == seq![s[0]] + t);
            assert(all_valid(c)) by {
                assert forall|i: int| 0 <= i < c.len() implies (#[trigger] c[i]).valid() by {
                    if i > 0 {
                        assert(c[i] == t[i - 1]);
                    }
                }
            }
            assert(separated(c)) by {
                assert forall|i: int, j: int| 0 <= i < j < c.len() implies (
                #[trigger] c[i]).end() < (#[trigger] c[j]).base by {
                    assert(c[j] == t[j - 1]);
                    if i == 0 {
                        if j > 1 {
                            assert(t[0].end() < t[j - 1].base);
                        }
                    } else {
                        assert(c[i] == t[i - 1]);
                    }
                }
            }
            assert(c.last() == t.last());
            lemma_total_size_cons(s[0], t);
        }
    }
}

/// The merge pass leaves every size a multiple of the header alignment.
pub proof fn lemma_coalesce_aligned(s: Seq<Region>)
    requires
        sizes_aligned(s),
    ensures
        sizes_aligned(coalesce(s)),
    decreases s.len(),
{
    if s.len() >= 2 {
        let rest = s.drop_first();
        let t = coalesce(rest);
        assert forall|i: int| 0 <= i < rest.len() implies (#[trigger] rest[i]).size % (
        HEADER_ALIGN as int) == 0 by {
            assert(rest[i] == s[i + 1]);
        }
        lemma_coalesce_aligned(rest);
        let c = coalesce(s);
        assert(s[0].size % (HEADER_ALIGN as int) == 0);
        if t.len() > 0 && s[0].end() == t[0].base {
            assert(t[0].size % (HEADER_ALIGN as int) == 0);
            lemma_sum_aligned(s[0].size, t[0].size);
            assert forall|i: int| 0 <= i < c.len() implies (#[trigger] c[i]).size % (
            HEADER_ALIGN as int) == 0 by {
                if i > 0 {
                    assert(c[i] == t[i]);
                }
            }
        } else {
            assert forall|i: int| 0 <= i < c.len() implies (#[trigger] c[i]).size % (
            HEADER_ALIGN as int) == 0 by {
                if i > 0 {
                    assert(c[i] == t[i - 1]);
                }
            }
        }
    }
}

/// Releasing a valid region that overlaps no free block keeps the
/// free-list invariant; the free bytes afterwards are those that were free
/// before and those of the region.
pub proof fn lemma_released(s: Seq<Region>, r: Region)
    requires
        list_inv(s),
        r.valid(),
        clear_of(s, r),
    ensures
        list_inv(released(s, r)),
        total_size(released(s, r)) == total_size(s) + r.size,
        forall|a: int| covers(released(s, r), a) <==> covers(s, a) || r.contains(a),
        released(s, r).len() <= s.len() + 1,
        released(s, r).len() > 0,
{
    lemma_place(s, r);
    lemma_coalesce(place(s, r));
}

/// Releasing a region whose size is a multiple of the header alignment
/// leaves every size a multiple of it.
pub proof fn lemma_released_aligned(s: Seq<Region>, r: Region)
    requires
        sizes_aligned(s),
        r.size % (HEADER_ALIGN as int) == 0,
    ensures
        sizes_aligned(released(s, r)),
{
    let p = place(s, r);
    let k = place_index(s, r);
    lemma_place_shape(s, r);
    assert forall|i: int| 0 <= i < p.len() implies (#[trigger] p[i]).size % (HEADER_ALIGN as int)
        == 0 by {
        if i < k {
            assert(p[i] == s[i]);
        } else if i > k {
            assert(p[i] == s[i - 1]);
        }
    }
    lemma_coalesce_aligned(p);
}

/// A region put in front of a list that meets the invariant merges with
/// the first region if the two touch, and with nothing else; the merge
/// pass and the merge at the head agree on it.
pub proof fn lemma_merge_front(r: Region, s: Seq<Region>)
    requires
        separated(s),
        s.len() > 0 ==> r.end() <= s[0].base,
    ensures
        merge_head(seq![r] + s) == coalesce(seq![r] + s),
        coalesce(seq![r] + s) == (if s.len() > 0 && r.end() == s[0].base {
            seq![r.join(s[0])] + s.drop_first()
        } else {
            seq![r] + s
        }),
{
    let x = seq![r] + s;
    assert(x.drop_first() =~= s);
    lemma_coalesce_fixed(s);
    if s.len() > 0 {
        assert(x[1] == s[0]);
        if r.end() == s[0].base {
            let y = seq![r.join(s[0])] + s.drop_first();
            assert(x.subrange(2, x.len() as int) =~= s.drop_first());
            assert(merge_next(x) == y);
            if y.len() >= 2 {
                assert(y[1] == s[1]);
                assert(s[0].end() < s[1].base);
            }
            assert(merge_next(y) == y);
        } else {
            assert(merge_head(x) == x);
        }
    } else {
        assert(merge_head(x) == x);
    }
}

/// Releasing a region that lies in front of the whole list.
pub proof fn lemma_release_front(s: Seq<Region>, r: Region)
    requires
        separated(s),
        s.len() > 0,
        r.base < s[0].base,
        r.end() <= s[0].base,
    ensures
        released(s, r) == merge_head(seq![r] + s),
        released(s, r).len() == s.len() + (if r.end() == s[0].base {
            0int
        } else {
            1int
        }),
{
    lemma_merge_front(r, s);
}

/// Releasing a region that belongs directly behind the first region of
/// the list.
pub proof fn lemma_release_here(p: Region, rest: Seq<Region>, r: Region)
    requires
        separated(seq![p] + rest),
        p.base <= r.base,
        p.end() <= r.base,
        rest.len() > 0 ==> r.base < rest[0].base && r.end() <= rest[0].base,
    ensures
        released(seq![p] + rest, r) == (if p.end() == r.base {
            merge_head(seq![p.join(r)] + rest)
        } else {
            seq![p] + merge_head(seq![r] + rest)
        }),
        released(seq![p] + rest, r).len() == rest.len() + 2 - (if p.end() == r.base {
            1int
        } else {
            0int
        }) - (if rest.len() > 0 && r.end() == rest[0].base {
            1int
        } else {
            0int
        }),
{
    let s = seq![p] + rest;
    assert(s.drop_first() =~= rest);
    lemma_drop_first(s);
    assert(place(rest, r) =~= seq![r] + rest);
    assert(place(s, r) == seq![p] + (seq![r] + rest));
    let x = seq![p] + (seq![r] + rest);
    assert(x.drop_first() =~= seq![r] + rest);
    lemma_merge_front(r, rest);
    let t = coalesce(seq![r] + rest);
    assert(t[0].base == r.base);
    if p.end() == r.base {
        let y = seq![p.join(r)] + rest;
        if rest.len() > 0 {
            assert(y[1] == rest[0]);
            assert(s[1] == rest[0]);
        }
        if rest.len() > 0 && r.end() == rest[0].base {
            let z = seq![p.join(r).join(rest[0])] + rest.drop_first();
            assert(y.subrange(2, y.len() as int) =~= rest.drop_first());
            assert(merge_next(y) == z);
            if z.len() >= 2 {
                assert(z[1] == rest[1]);
                assert(s[1] == rest[0] && s[2] == rest[1]);
                assert(s[1].end() < s[2].base);
            }
            assert(merge_next(z) == z);
            assert(t.drop_first() =~= rest.drop_first());
            assert(p.join(t[0]) == p.join(r).join(rest[0]));
        } else {
            assert(merge_head(y) == y);
            assert(t.drop_first() =~= rest);
        }
    } else {
    }
}

/// Releasing a region that belongs further back than directly behind the
/// first region leaves the first region as it is.
pub proof fn lemma_release_later(p: Region, rest: Seq<Region>, r: Region)
    requires
        all_valid(seq![p] + rest),
        separated(seq![p] + rest),
        r.valid(),
        clear_of(seq![p] + rest, r),
        rest.len() > 0,
        rest[0].base < r.base,
    ensures
        released(seq![p] + rest, r) == seq![p] + released(rest, r),
{
    let s = seq![p] + rest;
    assert(s.drop_first() =~= rest);
    assert(s[0] == p && s[1] == rest[0]);
    assert(p.end() < rest[0].base);
    lemma_drop_first(s);
    assert(place(s, r) == seq![p] + place(rest, r));
    let x = seq![p] + place(rest, r);
    assert(x.drop_first() =~= place(rest, r));
    assert forall|i: int| 0 <= i < rest.len() implies (#[trigger] rest[i]).disjoint(r) by {
        assert(s[i + 1].disjoint(r));
    }
    assert(ordered(rest)) by {
        assert forall|i: int, j: int| 0 <= i < j < rest.len() implies (
        #[trigger] rest[i]).end() <= (#[trigger] rest[j]).base by {}
    }
    lemma_place(rest, r);
    lemma_coalesce_nonempty(place(rest, r));
}

/// Releasing a region that belongs behind the region at index `i` leaves
/// the regions before that index as they are.
pub proof fn lemma_release_deep(s: Seq<Region>, r: Region, i: int)
    requires
        list_inv(s),
        r.valid(),
        clear_of(s, r),
        0 <= i < s.len(),
        s[i].base < r.base,
    ensures
        released(s, r) == s.take(i) + released(s.subrange(i, s.len() as int), r),
    decreases i,
{
    if i == 0 {
        assert(s.subrange(0, s.len() as int) =~= s);
        assert(s.take(0) + released(s, r) =~= released(s, r));
    } else {
        let rest = s.drop_first();
        assert(s =~= seq![s[0]] + rest);
        assert(rest[0] == s[1] && rest[i - 1] == s[i]);
        assert(s[1].valid());
        if i > 1 {
            assert(s[1].end() < s[i].base);
        }
        lemma_release_later(s[0], rest, r);
        lemma_drop_first(s);
        assert forall|k: int| 0 <= k < rest.len() implies (#[trigger] rest[k]).disjoint(r) by {
            assert(s[k + 1].disjoint(r));
        }
        lemma_release_deep(rest, r, i - 1);
        assert(rest.subrange(i - 1, rest.len() as int) =~= s.subrange(i, s.len() as int));
        assert(seq![s[0]] + (rest.take(i - 1) + released(s.subrange(i, s.len() as int), r))
            =~= s.take(i) + released(s.subrange(i, s.len() as int), r));
    }
}

} // verus!
