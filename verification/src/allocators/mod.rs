pub mod atomic_array;
pub mod generic_allocator;
pub mod heap_grower;
pub mod heap_state;
pub mod layout;
pub mod raw_alloc;
pub mod toy_heap;

pub use atomic_array::AtomicArray;
pub use generic_allocator::{AllocGuard, GenericAllocator};
pub use heap_grower::{EnhancedHeapGrower, HeapGrower};
pub use layout::{Layout, LayoutError};
pub use raw_alloc::RawAlloc;
pub use toy_heap::{ToyHeap, ToyHeapOverflowError};

use vstd::prelude::*;

verus! {

/// The least multiple of `increment` that is not below `value`.
pub open spec fn round_up_spec(value: int, increment: int) -> int {
    (value + increment - 1) / increment * increment
}

/// `round_up_spec` yields a multiple of the increment, at or above the
/// value and less than one increment above it.
pub proof fn lemma_round_up(value: int, increment: int)
    requires
        value >= 0,
        increment > 0,
    ensures
        round_up_spec(value, increment) % increment == 0,
        value <= round_up_spec(value, increment) < value + increment,
        value % increment == 0 ==> round_up_spec(value, increment) == value,
{
    let q = (value + increment - 1) / increment;
    let r = (value + increment - 1) % increment;
    assert(value + increment - 1 == q * increment + r && 0 <= r < increment) by (nonlinear_arith)
        requires
            increment > 0,
            q == (value + increment - 1) / increment,
            r == (value + increment - 1) % increment,
    ;
    assert((q * increment) % increment == 0) by (nonlinear_arith)
        requires
            increment > 0,
    ;
    if value % increment == 0 {
        let k = value / increment;
        assert(value == k * increment) by (nonlinear_arith)
            requires
                increment > 0,
                k == value / increment,
                value % increment == 0,
        ;
        assert(q == k) by (nonlinear_arith)
            requires
                increment > 0,
                value == k * increment,
                value + increment - 1 == q * increment + r,
                0 <= r < increment,
        ;
    }
}

/// The sum of two multiples of `m` is a multiple of `m`.
pub proof fn lemma_sum_of_multiples(a: int, b: int, m: int)
    requires
        m > 0,
        a % m == 0,
        b % m == 0,
    ensures
        (a + b) % m == 0,
        (a - b) % m == 0,
{
    vstd::arithmetic::div_mod::lemma_mod_adds(a, b, m);
    vstd::arithmetic::div_mod::lemma_mod_adds(a - b, b, m);
    let r = (a - b) % m;
    assert(0 <= r < m) by (nonlinear_arith)
        requires
            m > 0,
            r == (a - b) % m,
    ;
    assert(r == 0) by (nonlinear_arith)
        requires
            0 <= r < m,
            r == m * (r / m),
    ;
}

/// A multiple of a multiple of `m` is a multiple of `m`.
pub proof fn lemma_multiple_of_multiple(a: int, p: int, m: int)
    requires
        p > 0,
        m > 0,
        a % p == 0,
        p % m == 0,
    ensures
        a % m == 0,
{
    let k = a / p;
    let j = p / m;
    assert(a == k * p) by (nonlinear_arith)
        requires
            p > 0,
            k == a / p,
            a % p == 0,
    ;
    assert(p == j * m) by (nonlinear_arith)
        requires
            m > 0,
            j == p / m,
            p % m == 0,
    ;
    assert(a == (k * j) * m) by (nonlinear_arith)
        requires
            a == k * p,
            p == j * m,
    ;
    vstd::arithmetic::div_mod::lemma_mod_multiples_basic(k * j, m);
}

/// A positive multiple of `m` is at least `m`.
pub proof fn lemma_multiple_is_large(a: int, m: int)
    requires
        m > 0,
        a > 0,
        a % m == 0,
    ensures
        a >= m,
{
    vstd::arithmetic::div_mod::lemma_mod_is_zero(a as nat, m as nat);
}

/// Rounds `value` up to the next multiple of `increment`.
pub fn round_up(value: usize, increment: usize) -> (rounded: usize)
    requires
        increment > 0,
        value + increment - 1 <= usize::MAX,
    ensures
        rounded == round_up_spec(value as int, increment as int),
        rounded % increment == 0,
        value <= rounded < value + increment,
{
    proof {
        lemma_round_up(value as int, increment as int);
    }
    (value + (increment - 1)) / increment * increment
}

} // verus!
