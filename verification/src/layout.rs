//! Sizes: the default block capacity, the byte size of a request and the
//! capacity of the block that is created to serve it.

use vstd::arithmetic::power2::{lemma2_to64, lemma_pow2_strictly_increases, lemma_pow2_unfold, pow2};
use vstd::prelude::*;

verus! {

/// Capacity in bytes of an ordinary block.
pub const BLOCK_SIZE: usize = 0x1000;

/// Highest address that a block may end at.  No block is larger than this
/// either, so its backing storage can always be requested.
pub open spec fn address_limit() -> nat {
    isize::MAX as nat
}

/// `p`, doubled until it is at least `size`.
pub open spec fn doubled_to_fit(p: nat, size: nat) -> nat
    decreases (if p < size { size - p } else { 0 }),
{
    if 0 < p < size {
        doubled_to_fit(2 * p, size)
    } else {
        p
    }
}

/// Capacity of the block that is created for a request of `size` bytes: the
/// default capacity for an ordinary request, and the default capacity doubled
/// until the request fits for an oversized one.
pub open spec fn capacity_for(size: nat) -> nat {
    doubled_to_fit(BLOCK_SIZE as nat, size)
}

/// `n` is a power of two.
pub open spec fn is_power_of_two(n: nat) -> bool {
    exists|k: nat| n == pow2(k)
}

/// Doubling a power of two until `size` fits gives the smallest power of two
/// that is at least `size`, provided the start is no larger than needed.
pub proof fn lemma_doubled_to_fit(p: nat, k: nat, size: nat)
    requires
        p == pow2(k),
        p < 2 * size,
    ensures
        is_power_of_two(doubled_to_fit(p, size)),
        doubled_to_fit(p, size) >= size,
        doubled_to_fit(p, size) >= p,
        doubled_to_fit(p, size) < 2 * size,
    decreases (if p < size { size - p } else { 0 }),
{
    vstd::arithmetic::power2::lemma_pow2_pos(k);
    if p < size {
        lemma_pow2_unfold(k + 1);
        lemma_doubled_to_fit(2 * p, k + 1, size);
    }
}

/// Between `size` and `2 * size` there is one power of two at most.
pub proof fn lemma_power_of_two_unique(a: nat, b: nat, size: nat)
    requires
        is_power_of_two(a),
        is_power_of_two(b),
        size <= a < 2 * size,
        size <= b < 2 * size,
    ensures
        a == b,
{
    let i = choose|k: nat| a == pow2(k);
    let j = choose|k: nat| b == pow2(k);
    if i < j {
        lemma_pow2_strictly_increases(i, (j - 1) as nat + 1);
        lemma_pow2_unfold(j);
        if i < j - 1 {
            lemma_pow2_strictly_increases(i, (j - 1) as nat);
        }
    } else if j < i {
        lemma_pow2_unfold(i);
        if j < i - 1 {
            lemma_pow2_strictly_increases(j, (i - 1) as nat);
        }
    }
}

/// An oversized request gets a block whose capacity is the smallest power of
/// two that holds it; any other request gets the default capacity.
pub proof fn lemma_capacity_for(size: nat)
    ensures
        size <= BLOCK_SIZE ==> capacity_for(size) == BLOCK_SIZE,
        size > BLOCK_SIZE ==> {
            &&& is_power_of_two(capacity_for(size))
            &&& capacity_for(size) >= size
            &&& forall|q: nat| is_power_of_two(q) && q >= size ==> capacity_for(size) <= q
        },
        capacity_for(size) >= BLOCK_SIZE,
        capacity_for(size) >= size,
        capacity_for(size) % (BLOCK_SIZE as nat) == 0,
{
    lemma2_to64();
    lemma_doubled_aligned(BLOCK_SIZE as nat, size);
    if size > BLOCK_SIZE {
        lemma_doubled_to_fit(BLOCK_SIZE as nat, 12, size);
        let c = capacity_for(size);
        assert forall|q: nat| is_power_of_two(q) && q >= size implies c <= q by {
            if q < c {
                lemma_power_of_two_unique(q, c, size);
            }
        }
    }
}

/// Byte size of `count` items of `type_size` bytes each, if it can be
/// represented.
pub fn request_size(type_size: usize, count: usize) -> (size: Option<usize>)
    ensures
        size == (if type_size * count <= usize::MAX {
            Some((type_size * count) as usize)
        } else {
            None
        }),
{
    type_size.checked_mul(count)
}

/// Capacity of the block to create for a request of `size` bytes, or `None`
/// where no block of that capacity can lie below the address limit.
pub fn block_capacity(size: usize) -> (capacity: Option<usize>)
    ensures
        capacity == (if capacity_for(size as nat) <= address_limit() {
            Some(capacity_for(size as nat) as usize)
        } else {
            None
        }),
{
    let limit: usize = isize::MAX as usize;
    let mut p: usize = BLOCK_SIZE;
    while p < size
        invariant
            0 < p <= limit,
            limit == address_limit(),
            doubled_to_fit(p as nat, size as nat) == capacity_for(size as nat),
        decreases (if p < size { size - p } else { 0 }),
    {
        if p > limit / 2 {
            proof {
                lemma_doubled_from(2 * p as nat, size as nat);
            }
            return None;
        }
        p = p * 2;
    }
    Some(p)
}

/// Doubling a multiple of the default capacity gives one.
pub proof fn lemma_doubled_aligned(p: nat, size: nat)
    requires
        p % (BLOCK_SIZE as nat) == 0,
    ensures
        doubled_to_fit(p, size) % (BLOCK_SIZE as nat) == 0,
    decreases (if p < size { size - p } else { 0 }),
{
    if 0 < p < size {
        lemma_doubled_aligned(2 * p, size);
    }
}

/// Doubling never goes below its start.
pub proof fn lemma_doubled_from(p: nat, size: nat)
    ensures
        doubled_to_fit(p, size) >= p,
    decreases (if p < size { size - p } else { 0 }),
{
    if 0 < p < size {
        lemma_doubled_from(2 * p, size);
    }
}

} // verus!
