use super::free_header::HEADER_SIZE;
use super::list_proofs::{
    lemma_clear_of_covers, lemma_covers_remove, lemma_drop_first, lemma_separated_distinct,
};
use super::pop_proofs::{lemma_after_pop, lemma_after_pop_aligned, lemma_first_fit};
use super::region::{
    after_pop, clear_of, covers, first_fit, fits, list_inv, place, place_index, popped, released,
    separated, sizes_aligned, total_size, Region, HEADER_ALIGN,
};
use super::release_proofs::{lemma_coalesce_fixed, lemma_place, lemma_place_shape, lemma_released};
use vstd::prelude::*;

verus! {

/// The first region of a list that meets the invariant starts at the
/// lowest free address, and the address at its end is not free.
proof fn lemma_first_region(s: Seq<Region>)
    requires
        list_inv(s),
        s.len() > 0,
    ensures
        covers(s, s[0].base),
        !covers(s, s[0].end()),
        forall|a: int| covers(s, a) ==> s[0].base <= a,
        forall|a: int| covers(s.drop_first(), a) <==> covers(s, a) && !s[0].contains(a),
{
    assert(s[0].valid());
    assert(s[0].contains(s[0].base));
    assert forall|a: int| covers(s, a) implies s[0].base <= a by {
        let i = choose|i: int| 0 <= i < s.len() && (#[trigger] s[i]).contains(a);
        if i > 0 {
            assert(s[0].end() < s[i].base);
        }
    }
    if covers(s, s[0].end()) {
        let i = choose|i: int| 0 <= i < s.len() && (#[trigger] s[i]).contains(s[0].end());
        if i > 0 {
            assert(s[0].end() < s[i].base);
        }
    }
    lemma_separated_distinct(s);
    assert(s.remove(0) =~= s.drop_first());
    assert forall|a: int| covers(s.drop_first(), a) <==> covers(s, a) && !s[0].contains(a) by {
        lemma_covers_remove(s, 0, a);
    }
}

/// A free list is determined by the addresses that are free: two lists
/// that meet the invariant and cover the same addresses are equal.
pub proof fn lemma_same_cover_same_list(s: Seq<Region>, t: Seq<Region>)
    requires
        list_inv(s),
        list_inv(t),
        forall|a: int| covers(s, a) <==> covers(t, a),
    ensures
        s == t,
    decreases s.len(),
{
    if s.len() == 0 {
        if t.len() > 0 {
            lemma_first_region(t);
            let i = choose|i: int| 0 <= i < s.len() && (#[trigger] s[i]).contains(t[0].base);
        }
        assert(s =~= t);
    } else {
        lemma_first_region(s);
        if t.len() == 0 {
            let i = choose|i: int| 0 <= i < t.len() && (#[trigger] t[i]).contains(s[0].base);
            assert(false);
        }
        lemma_first_region(t);
        assert(s[0].valid() && t[0].valid());
        assert(s[0].base == t[0].base);
        if s[0].end() < t[0].end() {
            assert(t[0].contains(s[0].end()));
            assert(covers(t, s[0].end()));
        }
        if t[0].end() < s[0].end() {
            assert(s[0].contains(t[0].end()));
            assert(covers(s, t[0].end()));
        }
        assert(s[0] == t[0]);
        lemma_drop_first(s);
        lemma_drop_first(t);
        assert forall|a: int| covers(s.drop_first(), a) <==> covers(t.drop_first(), a) by {
            assert(covers(s.drop_first(), a) <==> covers(s, a) && !s[0].contains(a));
            assert(covers(t.drop_first(), a) <==> covers(t, a) && !t[0].contains(a));
            assert(covers(s, a) <==> covers(t, a));
        }
        lemma_same_cover_same_list(s.drop_first(), t.drop_first());
        assert(s =~= seq![s[0]] + s.drop_first());
        assert(t =~= seq![t[0]] + t.drop_first());
    }
}

/// Releasing two regions gives the same free list in either order.
pub proof fn lemma_release_commutes(s: Seq<Region>, a: Region, b: Region)
    requires
        list_inv(s),
        a.valid(),
        b.valid(),
        clear_of(s, a),
        clear_of(s, b),
        a.disjoint(b),
    ensures
        clear_of(released(s, a), b),
        clear_of(released(s, b), a),
        released(released(s, a), b) == released(released(s, b), a),
        list_inv(released(released(s, a), b)),
        forall|x: int|
            covers(released(released(s, a), b), x) <==> covers(s, x) || a.contains(x)
                || b.contains(x),
{
    lemma_released(s, a);
    lemma_released(s, b);
    lemma_clear_after_release(s, a, b);
    lemma_clear_after_release(s, b, a);
    lemma_released(released(s, a), b);
    lemma_released(released(s, b), a);
    let ab = released(released(s, a), b);
    let ba = released(released(s, b), a);
    assert forall|x: int| covers(ab, x) <==> covers(s, x) || a.contains(x) || b.contains(x) by {
        assert(covers(ab, x) <==> covers(released(s, a), x) || b.contains(x));
        assert(covers(released(s, a), x) <==> covers(s, x) || a.contains(x));
    }
    assert forall|x: int| covers(ab, x) <==> covers(ba, x) by {
        assert(covers(ba, x) <==> covers(released(s, b), x) || a.contains(x));
        assert(covers(released(s, b), x) <==> covers(s, x) || b.contains(x));
    }
    lemma_same_cover_same_list(ab, ba);
}

/// A region that overlaps neither a free list nor a region released into
/// it overlaps nothing in the list after the release.
pub proof fn lemma_clear_after_release(s: Seq<Region>, a: Region, b: Region)
    requires
        list_inv(s),
        a.valid(),
        b.valid(),
        clear_of(s, a),
        clear_of(s, b),
        a.disjoint(b),
    ensures
        clear_of(released(s, a), b),
{
    let t = released(s, a);
    lemma_released(s, a);
    assert forall|i: int| 0 <= i < s.len() implies (#[trigger] s[i]).size > 0 by {
        assert(s[i].valid());
    }
    assert forall|i: int| 0 <= i < t.len() implies (#[trigger] t[i]).size > 0 by {
        assert(t[i].valid());
    }
    lemma_clear_of_covers(s, b);
    assert forall|x: int| b.contains(x) implies !covers(t, x) by {}
    lemma_clear_of_covers(t, b);
}

/// Three regions that stand one directly behind the other, released in
/// any of the six orders, leave the free list that releasing the one
/// region spanning all three leaves; into an empty list that is a single
/// block of the three sizes together.
pub proof fn lemma_release_three(s: Seq<Region>, a: Region, b: Region, c: Region)
    requires
        list_inv(s),
        a.valid(),
        b.valid(),
        c.valid(),
        a.end() == b.base,
        b.end() == c.base,
        clear_of(s, a),
        clear_of(s, b),
        clear_of(s, c),
    ensures
        ({
            let whole = Region { base: a.base, size: a.size + b.size + c.size };
            &&& released(released(released(s, a), b), c) == released(s, whole)
            &&& released(released(released(s, a), c), b) == released(s, whole)
            &&& released(released(released(s, b), a), c) == released(s, whole)
            &&& released(released(released(s, b), c), a) == released(s, whole)
            &&& released(released(released(s, c), a), b) == released(s, whole)
            &&& released(released(released(s, c), b), a) == released(s, whole)
            &&& s.len() == 0 ==> released(s, whole) == seq![whole]
        }),
{
    let whole = Region { base: a.base, size: a.size + b.size + c.size };
    assert forall|i: int| 0 <= i < s.len() implies (#[trigger] s[i]).disjoint(whole) by {
        assert(s[i].disjoint(a) && s[i].disjoint(b) && s[i].disjoint(c));
        assert(s[i].valid());
    }
    lemma_released(s, whole);
    lemma_release_order(s, a, b, c, whole);
    lemma_release_order(s, a, c, b, whole);
    lemma_release_order(s, b, a, c, whole);
    lemma_release_order(s, b, c, a, whole);
    lemma_release_order(s, c, a, b, whole);
    lemma_release_order(s, c, b, a, whole);
    if s.len() == 0 {
        assert(released(s, whole) =~= seq![whole]);
    }
}

/// Releasing three pairwise disjoint regions one after the other leaves
/// the free list that releasing a region with the same addresses leaves.
proof fn lemma_release_order(s: Seq<Region>, x: Region, y: Region, z: Region, whole: Region)
    requires
        list_inv(s),
        x.valid(),
        y.valid(),
        z.valid(),
        whole.valid(),
        x.disjoint(y),
        x.disjoint(z),
        y.disjoint(z),
        clear_of(s, x),
        clear_of(s, y),
        clear_of(s, z),
        clear_of(s, whole),
        forall|a: int| whole.contains(a) <==> x.contains(a) || y.contains(a) || z.contains(a),
    ensures
        released(released(released(s, x), y), z) == released(s, whole),
{
    lemma_released(s, x);
    lemma_clear_after_release(s, x, y);
    lemma_clear_after_release(s, x, z);
    let t = released(s, x);
    lemma_released(t, y);
    lemma_clear_after_release(t, y, z);
    let u = released(t, y);
    lemma_released(u, z);
    lemma_released(s, whole);
    assert forall|a: int| covers(released(u, z), a) <==> covers(released(s, whole), a) by {
        assert(covers(released(u, z), a) <==> covers(u, a) || z.contains(a));
        assert(covers(u, a) <==> covers(t, a) || y.contains(a));
        assert(covers(t, a) <==> covers(s, a) || x.contains(a));
        assert(covers(released(s, whole), a) <==> covers(s, a) || whole.contains(a));
        assert(whole.contains(a) <==> x.contains(a) || y.contains(a) || z.contains(a));
    }
    lemma_same_cover_same_list(released(u, z), released(s, whole));
}

/// Releasing the first and the third of three regions that stand one
/// directly behind the other into an empty list leaves two free blocks;
/// releasing the second then merges all three into one.
pub proof fn lemma_three_way_merge(a: Region, b: Region, c: Region)
    requires
        a.valid(),
        b.valid(),
        c.valid(),
        a.end() == b.base,
        b.end() == c.base,
    ensures
        released(released(Seq::<Region>::empty(), a), c) == seq![a, c],
        released(seq![a, c], b) == seq![
            Region { base: a.base, size: a.size + b.size + c.size },
        ],
{
    let empty = Seq::<Region>::empty();
    let whole = Region { base: a.base, size: a.size + b.size + c.size };
    lemma_release_three(empty, a, b, c);
    lemma_released(empty, a);
    lemma_clear_after_release(empty, a, c);
    lemma_released(released(empty, a), c);
    let two = seq![a, c];
    assert(list_inv(two)) by {
        assert forall|i: int| 0 <= i < two.len() implies (#[trigger] two[i]).valid() by {}
        assert forall|i: int, j: int| 0 <= i < j < two.len() implies (#[trigger] two[i]).end() < (
        #[trigger] two[j]).base by {}
    }
    assert forall|x: int| covers(released(released(empty, a), c), x) <==> covers(two, x) by {
        if covers(two, x) {
            let i = choose|i: int| 0 <= i < two.len() && (#[trigger] two[i]).contains(x);
        }
        if a.contains(x) {
            assert(two[0].contains(x));
        }
        if c.contains(x) {
            assert(two[1].contains(x));
        }
        if covers(empty, x) {
            let i = choose|i: int| 0 <= i < empty.len() && (#[trigger] empty[i]).contains(x);
        }
    }
    lemma_same_cover_same_list(released(released(empty, a), c), two);
}

/// A block that is released and stands alone afterwards is handed out
/// again by the next request for its size, unless a block at a lower
/// address can serve the request; the free list is then what it was
/// before the release.
pub proof fn lemma_release_then_pop(s: Seq<Region>, r: Region)
    requires
        list_inv(s),
        r.valid(),
        clear_of(s, r),
        forall|i: int| 0 <= i < s.len() ==> (#[trigger] s[i]).end() != r.base && r.end() != s[i].base,
        forall|i: int| 0 <= i < s.len() && (#[trigger] s[i]).base < r.base ==> !fits(s[i], r.size),
    ensures
        first_fit(released(s, r), r.size) < released(s, r).len(),
        popped(released(s, r), r.size) == r,
        after_pop(released(s, r), r.size) == s,
{
    let t = place(s, r);
    let k = place_index(s, r);
    lemma_place_shape(s, r);
    lemma_place(s, r);
    // nothing touches, so the merge pass changes nothing
    assert(separated(t)) by {
        assert forall|i: int, j: int| 0 <= i < j < t.len() implies (#[trigger] t[i]).end() < (
        #[trigger] t[j]).base by {
            assert(t[i].end() <= t[j].base);
            if i == k {
                assert(t[j] == s[j - 1]);
            } else if j == k {
                assert(t[i] == s[i]);
            } else {
                let i0 = if i < k {
                    i
                } else {
                    i - 1
                };
                let j0 = if j < k {
                    j
                } else {
                    j - 1
                };
                assert(t[i] == s[i0] && t[j] == s[j0]);
                assert(s[i0].end() < s[j0].base);
            }
        }
    }
    lemma_coalesce_fixed(t);
    assert(released(s, r) == t);
    lemma_first_fit(t, r.size);
    let i = first_fit(t, r.size);
    assert(fits(t[k], r.size));
    if i < k {
        assert(t[i] == s[i]);
        assert(s[i].base <= r.base);
        assert(s[i].disjoint(r));
        assert(s[i].valid());
        assert(fits(s[i], r.size));
    }
    assert(i == k);
    assert(t.remove(k) =~= s);
}

/// A request served from the free list and released at once leaves the
/// free list as it was before the request, with the same number of free
/// bytes.
pub proof fn lemma_pop_then_release(s: Seq<Region>, need: int)
    requires
        list_inv(s),
        sizes_aligned(s),
        need >= HEADER_SIZE,
        need % (HEADER_ALIGN as int) == 0,
        first_fit(s, need) < s.len(),
    ensures
        popped(s, need).valid(),
        clear_of(after_pop(s, need), popped(s, need)),
        released(after_pop(s, need), popped(s, need)) == s,
        total_size(released(after_pop(s, need), popped(s, need))) == total_size(s),
{
    lemma_first_fit(s, need);
    lemma_after_pop(s, need);
    lemma_after_pop_aligned(s, need);
    let i = first_fit(s, need);
    assert(s[i].valid());
    lemma_released(after_pop(s, need), popped(s, need));
    let back = released(after_pop(s, need), popped(s, need));
    assert forall|a: int| covers(back, a) <==> covers(s, a) by {
        assert(covers(back, a) <==> covers(after_pop(s, need), a) || popped(s, need).contains(a));
        assert(covers(s, a) <==> covers(after_pop(s, need), a) || popped(s, need).contains(a));
    }
    lemma_same_cover_same_list(back, s);
}

} // verus!
