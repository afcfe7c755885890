//! The hopscotch layout invariant of a table, stated over its parts, and the
//! lemmas that keep it when one slot is filled, emptied or rewritten.

use vstd::prelude::*;
use crate::layout::{spec_hashtag, EMPTY, HOP_RANGE, LANES, MAX_ROOTS};
use crate::slot_model::{
    cnt, has_root, lemma_cnt_bound_strict, lemma_cnt_pos, lemma_cnt_update, spec_root,
};

verus! {

/// The number of root buckets for a root mask (`usize::MAX` marks a table
/// without allocation).
pub open spec fn roots_of(mask: usize) -> int {
    if mask == usize::MAX {
        0
    } else {
        mask + 1
    }
}

/// The number of slots of a table whose root mask is `mask`.
pub open spec fn slots_of(mask: usize) -> int {
    if mask == usize::MAX {
        0
    } else {
        (mask + 1 + HOP_RANGE) * LANES
    }
}

/// The slot is empty exactly when its tag is `EMPTY`, and an entry in it
/// carries its hash's tag and lies in the neighborhood of its root bucket.
pub open spec fn slot_ok_at<V>(tags: Seq<u8>, b: Seq<Option<(u64, V)>>, mask: usize, i: int) -> bool {
    &&& (b[i] is Some <==> tags[i] != EMPTY)
    &&& (b[i] is Some ==> {
        let h = (b[i]->0).0;
        &&& tags[i] == spec_hashtag(h)
        &&& spec_root(h, mask) * 16 <= i < (spec_root(h, mask) + 16) * 16
    })
}

/// Neighbor counter `n` of root `r` holds the number of entries of root `r`
/// in bucket `r + n`.
pub open spec fn hop_ok_at<V>(hop: Seq<u8>, b: Seq<Option<(u64, V)>>, mask: usize, r: int, n: int) -> bool {
    hop[r * 16 + n] == cnt(b, mask, r, (r + n) * 16, (r + n + 1) * 16)
}

/// The hopscotch layout invariant.
pub open spec fn layout_ok<V>(hop: Seq<u8>, tags: Seq<u8>, b: Seq<Option<(u64, V)>>, mask: usize) -> bool {
    &&& tags.len() == b.len()
    &&& b.len() == slots_of(mask)
    &&& hop.len() == roots_of(mask) * 16
    &&& (mask != usize::MAX ==> mask < 2 * MAX_ROOTS)
    &&& forall|i: int| 0 <= i < b.len() ==> #[trigger] slot_ok_at(tags, b, mask, i)
    &&& forall|r: int, n: int|
        0 <= r < roots_of(mask) && 0 <= n < 16 ==> #[trigger] hop_ok_at(hop, b, mask, r, n)
}

/// A root bucket never exceeds the mask.
pub proof fn lemma_root_bound(hash: u64, mask: usize)
    ensures
        0 <= spec_root(hash, mask) <= mask,
{
    let x = hash as usize;
    assert(x & mask <= mask) by (bit_vector);
}

/// The counter index of `(r, n)` is in bounds and distinct pairs have
/// distinct indices.
pub proof fn lemma_hop_index(r: int, n: int, r2: int, n2: int)
    requires
        0 <= n < 16,
        0 <= n2 < 16,
        r * 16 + n == r2 * 16 + n2,
    ensures
        r == r2 && n == n2,
{
}

/// Filling an empty slot inside the neighborhood of the entry's root keeps
/// the layout, with the matching counter raised by one.
pub proof fn lemma_place<V>(
    hop: Seq<u8>,
    tags: Seq<u8>,
    b: Seq<Option<(u64, V)>>,
    mask: usize,
    i: int,
    h: u64,
    v: V,
)
    requires
        layout_ok(hop, tags, b, mask),
        0 <= i < b.len(),
        b[i] is None,
        spec_root(h, mask) * 16 <= i < (spec_root(h, mask) + 16) * 16,
    ensures
        ({
            let r = spec_root(h, mask);
            let k = r * 16 + (i - r * 16) / 16;
            &&& 0 <= k < hop.len()
            &&& hop[k] < 16
            &&& layout_ok(
                hop.update(k, (hop[k] + 1) as u8),
                tags.update(i, spec_hashtag(h)),
                b.update(i, Some((h, v))),
                mask,
            )
        }),
{
    let r = spec_root(h, mask);
    let ni = (i - r * 16) / 16;
    let k = r * 16 + ni;
    lemma_root_bound(h, mask);
    assert(mask != usize::MAX);
    assert(hop_ok_at(hop, b, mask, r, ni));
    assert(!has_root(b[i], mask, r));
    lemma_cnt_bound_strict(b, mask, r, (r + ni) * 16, (r + ni + 1) * 16, i);
    let hop2 = hop.update(k, (hop[k] + 1) as u8);
    let tags2 = tags.update(i, spec_hashtag(h));
    let b2 = b.update(i, Some((h, v)));
    assert forall|j: int| 0 <= j < b2.len() implies #[trigger] slot_ok_at(tags2, b2, mask, j) by {
        if j != i {
            assert(slot_ok_at(tags, b, mask, j));
        }
        assert(spec_hashtag(h) < EMPTY) by {
            assert((h >> 57u64) < 128u64) by (bit_vector);
        }
    }
    assert forall|r2: int, n2: int|
        0 <= r2 < roots_of(mask) && 0 <= n2 < 16 implies #[trigger] hop_ok_at(hop2, b2, mask, r2, n2) by {
        assert(hop_ok_at(hop, b, mask, r2, n2));
        lemma_cnt_update(b, i, Some((h, v)), mask, r2, (r2 + n2) * 16, (r2 + n2 + 1) * 16);
        if r2 * 16 + n2 == k {
            lemma_hop_index(r2, n2, r, ni);
        }
    }
}

/// Emptying a slot keeps the layout, with the matching counter lowered by one.
pub proof fn lemma_unplace<V>(
    hop: Seq<u8>,
    tags: Seq<u8>,
    b: Seq<Option<(u64, V)>>,
    mask: usize,
    i: int,
)
    requires
        layout_ok(hop, tags, b, mask),
        0 <= i < b.len(),
        b[i] is Some,
    ensures
        ({
            let h = (b[i]->0).0;
            let r = spec_root(h, mask);
            let k = r * 16 + (i - r * 16) / 16;
            &&& r * 16 <= i < (r + 16) * 16
            &&& 0 <= k < hop.len()
            &&& hop[k] >= 1
            &&& layout_ok(hop.update(k, (hop[k] - 1) as u8), tags.update(i, EMPTY), b.update(i, None), mask)
        }),
{
    let h = (b[i]->0).0;
    let r = spec_root(h, mask);
    let ni = (i - r * 16) / 16;
    let k = r * 16 + ni;
    assert(slot_ok_at(tags, b, mask, i));
    lemma_root_bound(h, mask);
    assert(mask != usize::MAX);
    assert(hop_ok_at(hop, b, mask, r, ni));
    lemma_cnt_pos(b, mask, r, (r + ni) * 16, (r + ni + 1) * 16, i);
    let hop2 = hop.update(k, (hop[k] - 1) as u8);
    let tags2 = tags.update(i, EMPTY);
    let b2 = b.update(i, None::<(u64, V)>);
    assert forall|j: int| 0 <= j < b2.len() implies #[trigger] slot_ok_at(tags2, b2, mask, j) by {
        if j != i {
            assert(slot_ok_at(tags, b, mask, j));
        }
    }
    assert forall|r2: int, n2: int|
        0 <= r2 < roots_of(mask) && 0 <= n2 < 16 implies #[trigger] hop_ok_at(hop2, b2, mask, r2, n2) by {
        assert(hop_ok_at(hop, b, mask, r2, n2));
        lemma_cnt_update(b, i, None, mask, r2, (r2 + n2) * 16, (r2 + n2 + 1) * 16);
        if r2 * 16 + n2 == k {
            lemma_hop_index(r2, n2, r, ni);
        }
    }
}

/// Rewriting the value of an occupied slot (same hash) keeps the layout.
pub proof fn lemma_set_value<V>(
    hop: Seq<u8>,
    tags: Seq<u8>,
    b: Seq<Option<(u64, V)>>,
    mask: usize,
    i: int,
    v: V,
)
    requires
        layout_ok(hop, tags, b, mask),
        0 <= i < b.len(),
        b[i] is Some,
    ensures
        layout_ok(hop, tags, b.update(i, Some(((b[i]->0).0, v))), mask),
{
    let h = (b[i]->0).0;
    let b2 = b.update(i, Some((h, v)));
    assert(slot_ok_at(tags, b, mask, i));
    assert forall|j: int| 0 <= j < b2.len() implies #[trigger] slot_ok_at(tags, b2, mask, j) by {
        assert(slot_ok_at(tags, b, mask, j));
    }
    assert forall|r2: int, n2: int|
        0 <= r2 < roots_of(mask) && 0 <= n2 < 16 implies #[trigger] hop_ok_at(hop, b2, mask, r2, n2) by {
        assert(hop_ok_at(hop, b, mask, r2, n2));
        lemma_cnt_update(b, i, Some((h, v)), mask, r2, (r2 + n2) * 16, (r2 + n2 + 1) * 16);
    }
}

/// The layout only looks at which slots are occupied and at the hashes of
/// their entries.
pub proof fn lemma_layout_same_hashes<V>(
    hop: Seq<u8>,
    tags: Seq<u8>,
    b: Seq<Option<(u64, V)>>,
    c: Seq<Option<(u64, V)>>,
    mask: usize,
)
    requires
        layout_ok(hop, tags, b, mask),
        b.len() == c.len(),
        forall|j: int| 0 <= j < b.len() ==> (b[j] is Some <==> c[j] is Some),
        forall|j: int| 0 <= j < b.len() && b[j] is Some ==> (b[j]->0).0 == (c[j]->0).0,
    ensures
        layout_ok(hop, tags, c, mask),
{
    assert forall|i: int| 0 <= i < c.len() implies #[trigger] slot_ok_at(tags, c, mask, i) by {
        assert(slot_ok_at(tags, b, mask, i));
    }
    assert forall|r: int, n: int| 0 <= r < roots_of(mask) && 0 <= n < 16 implies #[trigger] hop_ok_at(
        hop,
        c,
        mask,
        r,
        n,
    ) by {
        assert(hop_ok_at(hop, b, mask, r, n));
        crate::slot_model::lemma_cnt_same_hashes(b, c, mask, r, (r + n) * 16, (r + n + 1) * 16);
    }
}

} // verus!
