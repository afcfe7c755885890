//! Sizing rules of the table: neighborhood geometry, tags, load factor and
//! the power-of-two capacities.

use vstd::prelude::*;

verus! {

/// Tag value that marks an empty slot (sign bit set).
pub const EMPTY: u8 = 0x80;

/// Number of buckets in a neighborhood.
pub const HOP_RANGE: usize = 16;

/// Number of slots in a bucket.
pub const LANES: usize = 16;

/// Largest number of root buckets a table is ever given.
pub const MAX_ROOTS: usize = usize::MAX / 4096;

/// Largest capacity that a caller may request.
pub const MAX_REQUEST: usize = usize::MAX / 1024;

/// The 7-bit fingerprint of a hash: its top seven bits.
pub open spec fn spec_hashtag(hash: u64) -> u8 {
    (hash >> 57u64) as u8
}

/// Computes the 7-bit fingerprint stored in the tag array for a hash.
pub fn hashtag(hash: u64) -> (tag: u8)
    ensures
        tag == spec_hashtag(hash),
        tag < EMPTY,
{
    assert((hash >> 57u64) < 128u64) by (bit_vector);
    (hash >> 57u64) as u8
}

/// The number of entries a table with `slots` slots holds before it grows:
/// 92% of the slots, rounded down.
pub open spec fn spec_load(slots: int) -> int {
    slots * 23 / 25
}

/// The number of slots needed to hold `count` entries at the target load.
pub open spec fn spec_load_inverse(count: int) -> int {
    count * 25 / 23
}

pub fn target_load_factor(capacity: usize) -> (r: usize)
    requires
        capacity <= usize::MAX / 64,
    ensures
        r == spec_load(capacity as int),
        r <= capacity,
{
    capacity * 23 / 25
}

pub fn target_load_factor_inverse(capacity: usize) -> (r: usize)
    requires
        capacity <= MAX_REQUEST,
    ensures
        r == spec_load_inverse(capacity as int),
        r >= capacity,
        r <= 2 * capacity,
{
    capacity * 25 / 23
}

/// `p` is a power of two.
pub open spec fn is_pow2(p: int) -> bool
    decreases p,
{
    if p <= 0 {
        false
    } else if p == 1 {
        true
    } else {
        p % 2 == 0 && is_pow2(p / 2)
    }
}

/// The smallest power of two that is at least `v`.
pub open spec fn is_next_pow2(v: int, p: int) -> bool {
    &&& is_pow2(p)
    &&& v <= p
    &&& (p == 1 || p / 2 < v)
}

pub proof fn lemma_next_pow2_unique(v: int, p: int, q: int)
    requires
        is_next_pow2(v, p),
        is_next_pow2(v, q),
    ensures
        p == q,
    decreases p + q,
{
    if p != 1 && q != 1 {
        assert(is_next_pow2((v + 1) / 2, p / 2)) by {
            assert(is_pow2(p / 2));
        }
        assert(is_next_pow2((v + 1) / 2, q / 2)) by {
            assert(is_pow2(q / 2));
        }
        lemma_next_pow2_unique((v + 1) / 2, p / 2, q / 2);
    } else if p == 1 && q != 1 {
        assert(q / 2 >= 1) by {
            assert(is_pow2(q / 2));
        }
    } else if q == 1 && p != 1 {
        assert(p / 2 >= 1) by {
            assert(is_pow2(p / 2));
        }
    }
}

/// The smallest power of two that is at least `v` (for positive `v`).
pub open spec fn spec_next_pow2(v: int) -> int {
    choose|p: int| is_next_pow2(v, p)
}

/// The next power of two of `v` is at most any power of two that is at
/// least `v`.
pub proof fn lemma_next_pow2_least(v: int, p: int, q: int)
    requires
        is_next_pow2(v, p),
        is_pow2(q),
        v <= q,
    ensures
        p <= q,
    decreases q,
{
    if p != 1 {
        assert(p / 2 >= 1) by {
            assert(is_pow2(p / 2));
        }
        if q != 1 {
            assert(is_pow2(q / 2));
            assert(is_next_pow2((v + 1) / 2, p / 2)) by {
                assert(is_pow2(p / 2));
            }
            lemma_next_pow2_least((v + 1) / 2, p / 2, q / 2);
        }
    }
}

/// A table built for at most sixteen entries has one root bucket: its
/// slots are those of `1 + HOP_RANGE` buckets.
pub proof fn lemma_slots_for_one_root(request: int)
    requires
        1 <= request <= LANES,
    ensures
        spec_slots_for(request) == (1 + HOP_RANGE) * LANES,
        spec_capacity_for(request) == spec_load((1 + HOP_RANGE) * LANES),
{
    assert((request + 15) / 16 == 1);
    assert(spec_load_inverse(1) == 1);
    assert(is_next_pow2(1, 1));
    lemma_next_pow2_exists(1);
    lemma_next_pow2_unique(1, 1, spec_next_pow2(1));
}

/// A table built for more entries has no fewer slots.
pub proof fn lemma_slots_for_monotone(a: int, b: int)
    requires
        0 <= a <= b,
    ensures
        spec_slots_for(a) <= spec_slots_for(b),
{
    let xa = (a + 15) / 16;
    let xb = (b + 15) / 16;
    assert(xa <= xb);
    let va = spec_load_inverse(xa);
    let vb = spec_load_inverse(xb);
    assert(0 <= va <= vb) by (nonlinear_arith)
        requires
            0 <= xa <= xb,
            va == xa * 25 / 23,
            vb == xb * 25 / 23,
    ;
    if vb > 0 {
        lemma_next_pow2_exists(vb);
    }
    if va > 0 {
        lemma_next_pow2_exists(va);
        lemma_next_pow2_least(va, spec_next_pow2(va), spec_next_pow2(vb));
    }
    assert(0 <= spec_base(va) <= spec_base(vb));
}

/// The number of buckets for `value` requested root buckets.
pub open spec fn spec_base(value: int) -> int {
    if value == 0 {
        0
    } else {
        spec_next_pow2(value) + HOP_RANGE
    }
}

/// The number of slots of a table built for `request` entries.
pub open spec fn spec_slots_for(request: int) -> int {
    spec_base(spec_load_inverse((request + 15) / 16)) * LANES
}

/// The capacity (entries before growth) of a table built for `request`
/// entries.
pub open spec fn spec_capacity_for(request: int) -> int {
    spec_load(spec_slots_for(request))
}

/// A table built for `request` entries holds at least that many.
pub proof fn lemma_capacity_for(request: int)
    requires
        0 <= request <= MAX_REQUEST,
    ensures
        spec_capacity_for(request) >= request,
{
    let x = (request + 15) / 16;
    let v = spec_load_inverse(x);
    if request > 0 {
        assert(x >= 1);
        assert(v >= x);
        let p = spec_next_pow2(v);
        assert(is_next_pow2(v, p)) by {
            lemma_next_pow2_exists(v);
        }
        assert(p >= v);
        let slots = (p + HOP_RANGE) * LANES;
        assert(spec_load(slots) >= request) by (nonlinear_arith)
            requires
                slots == (p + 16) * 16,
                p >= v,
                v == x * 25 / 23,
                x == (request + 15) / 16,
                request >= 1,
                spec_load(slots) == slots * 23 / 25,
        {
            assert(v * 23 >= x * 25 - 22);
            assert(16 * x >= request);
        }
    }
}

/// Every positive number has a next power of two.
pub proof fn lemma_next_pow2_exists(v: int)
    requires
        v >= 1,
    ensures
        is_next_pow2(v, spec_next_pow2(v)),
    decreases v,
{
    if v == 1 {
        assert(is_next_pow2(1, 1));
    } else {
        let h = (v + 1) / 2;
        lemma_next_pow2_exists(h);
        let q = spec_next_pow2(h);
        assert(is_pow2(2 * q)) by {
            assert((2 * q) / 2 == q);
        }
        assert(is_next_pow2(v, 2 * q));
    }
}

/// Rounds `v` up to a power of two.
pub fn next_power_of_two(v: usize) -> (p: usize)
    requires
        1 <= v <= MAX_ROOTS,
    ensures
        is_next_pow2(v as int, p as int),
        p < 2 * v,
{
    let mut p: usize = 1;
    while p < v
        invariant
            1 <= v <= MAX_ROOTS,
            is_pow2(p as int),
            p == 1 || p / 2 < v,
            p < 2 * v,
        decreases 2 * v - p,
    {
        assert(is_pow2((p * 2) as int)) by {
            assert((p * 2) / 2 == p);
        }
        p = p * 2;
    }
    p
}

/// The number of buckets of a table (root buckets plus the padding of
/// `HOP_RANGE` buckets), or zero for a table with no allocation.
#[derive(Clone, Copy)]
pub struct Capacity {
    pub base: usize,
}

impl Capacity {
    /// Builds the capacity for `value` root buckets: zero stays zero, anything
    /// else is rounded up to a power of two and padded by `HOP_RANGE`.
    pub fn from(value: usize) -> (c: Capacity)
        requires
            value <= MAX_ROOTS,
        ensures
            value == 0 ==> c.base == 0,
            value != 0 ==> (c.base >= HOP_RANGE + 1 && is_next_pow2(value as int, c.base - HOP_RANGE)),
            c.base == spec_base(value as int),
            c.base < 2 * MAX_ROOTS + HOP_RANGE,
    {
        let base = if value == 0 {
            0
        } else {
            let p = next_power_of_two(value);
            proof {
                lemma_next_pow2_exists(value as int);
                lemma_next_pow2_unique(value as int, p as int, spec_next_pow2(value as int));
            }
            p + HOP_RANGE
        };
        Capacity { base }
    }

    pub open spec fn spec_max_root_mask(self) -> usize {
        if self.base <= HOP_RANGE {
            usize::MAX
        } else {
            (self.base - HOP_RANGE - 1) as usize
        }
    }

    /// The largest root bucket index (all ones below the power of two), or
    /// `usize::MAX` for a table with no allocation.
    pub fn max_root_mask(self) -> (m: usize)
        ensures
            m == self.spec_max_root_mask(),
    {
        self.base.saturating_sub(HOP_RANGE).wrapping_sub(1)
    }
}

} // verus!
