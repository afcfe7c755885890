//! Mathematical model of a slot array: the multiset of entries that the
//! slots hold, and the number of slots in a range that hold an entry of a
//! given root bucket.

use vstd::prelude::*;
use vstd::multiset::Multiset;

verus! {

broadcast use vstd::multiset::group_multiset_axioms;

/// The multiset holding the entry of one slot, if any.
pub open spec fn opt_ms<T>(e: Option<T>) -> Multiset<T> {
    match e {
        Some(x) => Multiset::singleton(x),
        None => Multiset::empty(),
    }
}

/// The multiset of the entries held by a sequence of slots.
pub open spec fn slots_ms<T>(s: Seq<Option<T>>) -> Multiset<T>
    decreases s.len(),
{
    if s.len() == 0 {
        Multiset::empty()
    } else {
        slots_ms(s.drop_last()).add(opt_ms(s.last()))
    }
}

/// Emptying one slot takes exactly its entry out of the multiset.
pub proof fn lemma_slots_ms_decompose<T>(s: Seq<Option<T>>, i: int)
    requires
        0 <= i < s.len(),
    ensures
        slots_ms(s) =~= slots_ms(s.update(i, None)).add(opt_ms(s[i])),
    decreases s.len(),
{
    let u = s.update(i, None);
    if i == s.len() - 1 {
        assert(u.drop_last() =~= s.drop_last());
    } else {
        assert(u.drop_last() =~= s.drop_last().update(i, None));
        lemma_slots_ms_decompose(s.drop_last(), i);
        assert(u.last() == s.last());
    }
}

/// Writing `x` into slot `i` replaces the slot's old entry by `x`.
pub proof fn lemma_slots_ms_update<T>(s: Seq<Option<T>>, i: int, x: Option<T>)
    requires
        0 <= i < s.len(),
    ensures
        slots_ms(s.update(i, x)) =~= slots_ms(s.update(i, None)).add(opt_ms(x)),
        slots_ms(s) =~= slots_ms(s.update(i, None)).add(opt_ms(s[i])),
{
    lemma_slots_ms_decompose(s, i);
    lemma_slots_ms_decompose(s.update(i, x), i);
    assert(s.update(i, x).update(i, None) =~= s.update(i, None));
}

/// The multiset has at most one entry per slot.
pub proof fn lemma_slots_ms_len<T>(s: Seq<Option<T>>)
    ensures
        slots_ms(s).len() <= s.len(),
    decreases s.len(),
{
    if s.len() > 0 {
        lemma_slots_ms_len(s.drop_last());
    }
}

/// A run of filled slots holds at least as many entries as it is long.
pub proof fn lemma_slots_ms_filled<T>(s: Seq<Option<T>>, lo: int, hi: int)
    requires
        0 <= lo <= hi <= s.len(),
        forall|j: int| lo <= j < hi ==> #[trigger] s[j] is Some,
    ensures
        slots_ms(s).len() >= hi - lo,
    decreases s.len(),
{
    if s.len() > 0 && lo < hi {
        if hi == s.len() {
            lemma_slots_ms_filled(s.drop_last(), lo, hi - 1);
        } else {
            lemma_slots_ms_filled(s.drop_last(), lo, hi);
        }
    }
}

/// Every entry of the multiset sits in some slot.
pub proof fn lemma_slots_ms_member<T>(s: Seq<Option<T>>, e: T)
    requires
        slots_ms(s).count(e) > 0,
    ensures
        exists|i: int| 0 <= i < s.len() && s[i] == Some(e),
    decreases s.len(),
{
    if s.len() > 0 {
        if s.last() == Some(e) {
            assert(s[s.len() - 1] == Some(e));
        } else {
            assert(slots_ms(s.drop_last()).count(e) > 0);
            lemma_slots_ms_member(s.drop_last(), e);
            let j = choose|j: int| 0 <= j < s.drop_last().len() && s.drop_last()[j] == Some(e);
            assert(s[j] == Some(e));
        }
    }
}

/// The entry of every slot is in the multiset.
pub proof fn lemma_slots_ms_has<T>(s: Seq<Option<T>>, i: int)
    requires
        0 <= i < s.len(),
        s[i] is Some,
    ensures
        slots_ms(s).count(s[i]->0) > 0,
{
    lemma_slots_ms_decompose(s, i);
}

/// A sequence of empty slots holds nothing.
pub proof fn lemma_slots_ms_all_none<T>(s: Seq<Option<T>>)
    requires
        forall|i: int| 0 <= i < s.len() ==> s[i] is None,
    ensures
        slots_ms(s) =~= Multiset::<T>::empty(),
    decreases s.len(),
{
    if s.len() > 0 {
        lemma_slots_ms_all_none(s.drop_last());
    }
}

/// The root bucket that a hash selects under a mask.
pub open spec fn spec_root(hash: u64, mask: usize) -> int {
    ((hash as usize) & mask) as int
}

/// The slot holds an entry whose hash selects root bucket `r`.
pub open spec fn has_root<V>(e: Option<(u64, V)>, mask: usize, r: int) -> bool {
    e is Some && spec_root((e->0).0, mask) == r
}

/// The number of slots in `[lo, hi)` holding an entry of root bucket `r`.
pub open spec fn cnt<V>(s: Seq<Option<(u64, V)>>, mask: usize, r: int, lo: int, hi: int) -> nat
    decreases hi - lo,
{
    if hi <= lo {
        0
    } else {
        cnt(s, mask, r, lo, hi - 1) + if has_root(s[hi - 1], mask, r) {
            1nat
        } else {
            0nat
        }
    }
}

/// Slots outside the range do not change the count.
pub proof fn lemma_cnt_frame<V>(
    s: Seq<Option<(u64, V)>>,
    t: Seq<Option<(u64, V)>>,
    mask: usize,
    r: int,
    lo: int,
    hi: int,
)
    requires
        forall|j: int| lo <= j < hi ==> s[j] == t[j],
    ensures
        cnt(s, mask, r, lo, hi) == cnt(t, mask, r, lo, hi),
    decreases hi - lo,
{
    if hi > lo {
        lemma_cnt_frame(s, t, mask, r, lo, hi - 1);
    }
}

/// Slots holding entries of the same hashes count the same.
pub proof fn lemma_cnt_same_hashes<V>(
    s: Seq<Option<(u64, V)>>,
    t: Seq<Option<(u64, V)>>,
    mask: usize,
    r: int,
    lo: int,
    hi: int,
)
    requires
        forall|j: int| lo <= j < hi ==> (s[j] is Some <==> t[j] is Some),
        forall|j: int| lo <= j < hi && s[j] is Some ==> (s[j]->0).0 == (t[j]->0).0,
    ensures
        cnt(s, mask, r, lo, hi) == cnt(t, mask, r, lo, hi),
    decreases hi - lo,
{
    if hi > lo {
        lemma_cnt_same_hashes(s, t, mask, r, lo, hi - 1);
    }
}

/// Changing one slot inside the range changes the count by what the slot
/// held before and after.
pub proof fn lemma_cnt_update<V>(
    s: Seq<Option<(u64, V)>>,
    i: int,
    x: Option<(u64, V)>,
    mask: usize,
    r: int,
    lo: int,
    hi: int,
)
    requires
        0 <= i < s.len(),
        0 <= lo,
        hi <= s.len(),
    ensures
        cnt(s.update(i, x), mask, r, lo, hi) + (if lo <= i < hi && has_root(s[i], mask, r) {
            1int
        } else {
            0int
        }) == cnt(s, mask, r, lo, hi) + (if lo <= i < hi && has_root(x, mask, r) {
            1int
        } else {
            0int
        }),
    decreases hi - lo,
{
    if hi > lo {
        lemma_cnt_update(s, i, x, mask, r, lo, hi - 1);
        if hi - 1 != i {
            assert(s.update(i, x)[hi - 1] == s[hi - 1]);
        }
    }
}

/// The count never exceeds the width of the range.
pub proof fn lemma_cnt_bound<V>(s: Seq<Option<(u64, V)>>, mask: usize, r: int, lo: int, hi: int)
    requires
        lo <= hi,
    ensures
        cnt(s, mask, r, lo, hi) <= hi - lo,
    decreases hi - lo,
{
    if hi > lo {
        lemma_cnt_bound(s, mask, r, lo, hi - 1);
    }
}

/// A slot of the range holding an entry of root `r` makes the count positive.
pub proof fn lemma_cnt_pos<V>(s: Seq<Option<(u64, V)>>, mask: usize, r: int, lo: int, hi: int, i: int)
    requires
        lo <= i < hi,
        has_root(s[i], mask, r),
    ensures
        cnt(s, mask, r, lo, hi) > 0,
    decreases hi - lo,
{
    if i < hi - 1 {
        lemma_cnt_pos(s, mask, r, lo, hi - 1, i);
    }
}

/// A range without an entry of root `r` counts none.
pub proof fn lemma_cnt_zero<V>(s: Seq<Option<(u64, V)>>, mask: usize, r: int, lo: int, hi: int)
    requires
        forall|j: int| lo <= j < hi ==> !has_root(#[trigger] s[j], mask, r),
    ensures
        cnt(s, mask, r, lo, hi) == 0,
    decreases hi - lo,
{
    if hi > lo {
        lemma_cnt_zero(s, mask, r, lo, hi - 1);
    }
}

/// A full count means every slot of the range holds an entry of root `r`.
pub proof fn lemma_cnt_full<V>(s: Seq<Option<(u64, V)>>, mask: usize, r: int, lo: int, hi: int, i: int)
    requires
        lo <= i < hi,
        cnt(s, mask, r, lo, hi) == hi - lo,
    ensures
        has_root(s[i], mask, r),
    decreases hi - lo,
{
    lemma_cnt_bound(s, mask, r, lo, hi - 1);
    if i < hi - 1 {
        lemma_cnt_full(s, mask, r, lo, hi - 1, i);
    }
}

/// A range of empty slots counts zero.
pub proof fn lemma_cnt_none<V>(s: Seq<Option<(u64, V)>>, mask: usize, r: int, lo: int, hi: int)
    requires
        forall|j: int| lo <= j < hi ==> s[j] is None,
    ensures
        cnt(s, mask, r, lo, hi) == 0,
    decreases hi - lo,
{
    if hi > lo {
        lemma_cnt_none(s, mask, r, lo, hi - 1);
    }
}

} // verus!

verus! {

/// Some entry of `m` has the value `v`.
pub open spec fn has_value<V>(m: Multiset<(u64, V)>, v: V) -> bool {
    exists|h: u64| m.count((h, v)) > 0
}

/// The multiset of a plain sequence.
pub open spec fn seq_ms<T>(s: Seq<T>) -> Multiset<T>
    decreases s.len(),
{
    if s.len() == 0 {
        Multiset::empty()
    } else {
        seq_ms(s.drop_last()).insert(s.last())
    }
}

pub proof fn lemma_seq_ms_push<T>(s: Seq<T>, x: T)
    ensures
        seq_ms(s.push(x)) =~= seq_ms(s).insert(x),
{
    assert(s.push(x).drop_last() =~= s);
}

/// Replacing element `i` swaps its contribution to the multiset.
pub proof fn lemma_seq_ms_update<T>(s: Seq<T>, i: int, x: T)
    requires
        0 <= i < s.len(),
    ensures
        seq_ms(s.update(i, x)) =~= seq_ms(s).remove(s[i]).insert(x),
        seq_ms(s).count(s[i]) > 0,
    decreases s.len(),
{
    let u = s.update(i, x);
    if i == s.len() - 1 {
        assert(u.drop_last() =~= s.drop_last());
    } else {
        assert(u.drop_last() =~= s.drop_last().update(i, x));
        lemma_seq_ms_update(s.drop_last(), i, x);
    }
}

pub proof fn lemma_seq_ms_len<T>(s: Seq<T>)
    ensures
        seq_ms(s).len() == s.len(),
    decreases s.len(),
{
    if s.len() > 0 {
        lemma_seq_ms_len(s.drop_last());
    }
}

/// Every element of the multiset occurs in the sequence.
pub proof fn lemma_seq_ms_member<T>(s: Seq<T>, e: T)
    requires
        seq_ms(s).count(e) > 0,
    ensures
        exists|i: int| 0 <= i < s.len() && s[i] == e,
    decreases s.len(),
{
    if s.len() > 0 {
        if s.last() == e {
            assert(s[s.len() - 1] == e);
        } else {
            lemma_seq_ms_member(s.drop_last(), e);
            let j = choose|j: int| 0 <= j < s.drop_last().len() && s.drop_last()[j] == e;
            assert(s[j] == e);
        }
    }
}

/// Removing element `i` by moving the last element into its place.
pub proof fn lemma_seq_ms_swap_remove<T>(s: Seq<T>, i: int)
    requires
        0 <= i < s.len(),
    ensures
        seq_ms(s.update(i, s.last()).drop_last()) =~= seq_ms(s).remove(s[i]),
{
    let u = s.update(i, s.last());
    assert(seq_ms(s) == seq_ms(s.drop_last()).insert(s.last()));
    if i == s.len() - 1 {
        assert(u.drop_last() =~= s.drop_last());
        assert(seq_ms(s).remove(s[i]) =~= seq_ms(s.drop_last()));
    } else {
        lemma_seq_ms_update(s, i, s.last());
        assert(u.last() == s.last());
        assert(seq_ms(u) == seq_ms(u.drop_last()).insert(u.last()));
        assert(seq_ms(u.drop_last()) =~= seq_ms(u).remove(s.last()));
    }
}

/// A slot range of width `hi - lo` with one slot not of root `r` counts
/// fewer than `hi - lo`.
pub proof fn lemma_cnt_bound_strict<V>(
    s: Seq<Option<(u64, V)>>,
    mask: usize,
    r: int,
    lo: int,
    hi: int,
    i: int,
)
    requires
        lo <= i < hi,
        !has_root(s[i], mask, r),
    ensures
        cnt(s, mask, r, lo, hi) < hi - lo,
    decreases hi - lo,
{
    lemma_cnt_bound(s, mask, r, lo, hi - 1);
    if i < hi - 1 {
        lemma_cnt_bound_strict(s, mask, r, lo, hi - 1, i);
    }
}

/// Taking the first element out of a sequence takes it out of the multiset.
pub proof fn lemma_seq_ms_remove_first<T>(s: Seq<T>)
    requires
        s.len() > 0,
    ensures
        seq_ms(s.remove(0)).insert(s[0]) =~= seq_ms(s),
    decreases s.len(),
{
    if s.len() == 1 {
        assert(s.remove(0) =~= Seq::<T>::empty());
        assert(s.drop_last() =~= Seq::<T>::empty());
    } else {
        lemma_seq_ms_remove_first(s.drop_last());
        assert(s.remove(0).drop_last() =~= s.drop_last().remove(0));
        assert(s.remove(0).last() == s.last());
    }
}

/// A sequence of slots with an empty multiset holds nothing.
pub proof fn lemma_slots_ms_empty_none<T>(s: Seq<Option<T>>)
    requires
        slots_ms(s).len() == 0,
    ensures
        forall|i: int| 0 <= i < s.len() ==> s[i] is None,
{
    assert forall|i: int| 0 <= i < s.len() implies s[i] is None by {
        if s[i] is Some {
            lemma_slots_ms_has(s, i);
        }
    }
}

/// Every element wrapped as an occupied slot.
pub open spec fn some_all<T>(s: Seq<T>) -> Seq<Option<T>> {
    s.map_values(|x: T| Some(x))
}

/// The entries of the slots whose flag is set.
pub open spec fn kept<T>(p: Seq<Option<T>>, keep: Seq<bool>) -> Multiset<T>
    decreases p.len(),
{
    if p.len() == 0 {
        Multiset::empty()
    } else if keep[p.len() - 1] {
        kept(p.drop_last(), keep.take(p.len() - 1)).add(opt_ms(p.last()))
    } else {
        kept(p.drop_last(), keep.take(p.len() - 1))
    }
}

/// The entries of the slots whose flag is clear.
pub open spec fn dropped<T>(p: Seq<Option<T>>, keep: Seq<bool>) -> Multiset<T>
    decreases p.len(),
{
    if p.len() == 0 {
        Multiset::empty()
    } else if keep[p.len() - 1] {
        dropped(p.drop_last(), keep.take(p.len() - 1))
    } else {
        dropped(p.drop_last(), keep.take(p.len() - 1)).add(opt_ms(p.last()))
    }
}

/// The multiset of two slot sequences laid end to end.
pub proof fn lemma_slots_ms_add<T>(a: Seq<Option<T>>, b: Seq<Option<T>>)
    ensures
        slots_ms(a.add(b)) =~= slots_ms(a).add(slots_ms(b)),
    decreases b.len(),
{
    if b.len() == 0 {
        assert(a.add(b) =~= a);
    } else {
        lemma_slots_ms_add(a, b.drop_last());
        assert(a.add(b).drop_last() =~= a.add(b.drop_last()));
        assert(a.add(b).last() == b.last());
    }
}

/// Occupied slots hold exactly the elements they wrap.
pub proof fn lemma_slots_ms_some<T>(s: Seq<T>)
    ensures
        slots_ms(some_all(s)) =~= seq_ms(s),
    decreases s.len(),
{
    if s.len() > 0 {
        lemma_slots_ms_some(s.drop_last());
        assert(some_all(s).drop_last() =~= some_all(s.drop_last()));
    }
}

/// The flags only look at their own slots: a longer flag sequence changes
/// nothing.
pub proof fn lemma_kept_take<T>(p: Seq<Option<T>>, keep: Seq<bool>)
    requires
        p.len() <= keep.len(),
    ensures
        kept(p, keep) == kept(p, keep.take(p.len() as int)),
        dropped(p, keep) == dropped(p, keep.take(p.len() as int)),
    decreases p.len(),
{
    if p.len() > 0 {
        let n = p.len() - 1;
        assert(keep.take(p.len() as int).take(n) =~= keep.take(n));
    }
}

/// Kept and dropped entries together are all the entries.
pub proof fn lemma_kept_split<T>(p: Seq<Option<T>>, keep: Seq<bool>)
    requires
        p.len() <= keep.len(),
    ensures
        kept(p, keep).add(dropped(p, keep)) =~= slots_ms(p),
    decreases p.len(),
{
    if p.len() > 0 {
        lemma_kept_split(p.drop_last(), keep.take(p.len() - 1));
    }
}

/// Flags laid end to end keep what each part keeps.
pub proof fn lemma_kept_add<T>(a: Seq<Option<T>>, ka: Seq<bool>, b: Seq<Option<T>>, kb: Seq<bool>)
    requires
        a.len() == ka.len(),
        b.len() == kb.len(),
    ensures
        kept(a.add(b), ka.add(kb)) =~= kept(a, ka).add(kept(b, kb)),
        dropped(a.add(b), ka.add(kb)) =~= dropped(a, ka).add(dropped(b, kb)),
    decreases b.len(),
{
    if b.len() == 0 {
        assert(a.add(b) =~= a);
        assert(ka.add(kb) =~= ka);
        assert(ka.take(a.len() as int) =~= ka);
        lemma_kept_take(a, ka);
    } else {
        let n = b.len() - 1;
        lemma_kept_add(a, ka, b.drop_last(), kb.take(n));
        assert(a.add(b).drop_last() =~= a.add(b.drop_last()));
        assert(ka.add(kb).take(a.len() + n) =~= ka.add(kb.take(n)));
        assert(kb.take(n) =~= kb.take(b.drop_last().len() as int));
        assert(ka.add(kb)[a.len() + n] == kb[n]);
        assert(a.add(b).last() == b.last());
    }
}

/// What the flags keep is part of what the slots hold.
pub proof fn lemma_kept_sub<T>(p: Seq<Option<T>>, keep: Seq<bool>, e: T)
    requires
        p.len() <= keep.len(),
    ensures
        kept(p, keep).count(e) <= slots_ms(p).count(e),
        dropped(p, keep).count(e) <= slots_ms(p).count(e),
{
    lemma_kept_split(p, keep);
}

/// An entry held once, at slot `i`, is kept exactly when its flag is set.
pub proof fn lemma_kept_at<T>(p: Seq<Option<T>>, keep: Seq<bool>, i: int)
    requires
        p.len() <= keep.len(),
        0 <= i < p.len(),
        p[i] is Some,
        slots_ms(p).count(p[i]->0) == 1,
    ensures
        kept(p, keep).count(p[i]->0) == (if keep[i] { 1int } else { 0int }),
        dropped(p, keep).count(p[i]->0) == (if keep[i] { 0int } else { 1int }),
    decreases p.len(),
{
    let e = p[i]->0;
    lemma_kept_split(p, keep);
    if i == p.len() - 1 {
        let q = p.drop_last();
        assert(slots_ms(p) == slots_ms(q).add(opt_ms(p.last())));
        assert(slots_ms(q).count(e) == 0);
        lemma_kept_sub(q, keep.take(p.len() - 1), e);
    } else {
        let q = p.drop_last();
        assert(q[i] == p[i]);
        assert(slots_ms(p) == slots_ms(q).add(opt_ms(p.last())));
        assert(slots_ms(q).count(e) == 1) by {
            lemma_slots_ms_has(q, i);
        }
        assert(opt_ms(p.last()).count(e) == 0);
        lemma_kept_at(q, keep.take(p.len() - 1), i);
    }
}

/// Slot sequences occupied at the same places hold as many entries.
pub proof fn lemma_slots_ms_len_same<T, U>(p: Seq<Option<T>>, q: Seq<Option<U>>)
    requires
        p.len() == q.len(),
        forall|i: int| 0 <= i < p.len() ==> (#[trigger] p[i] is Some <==> q[i] is Some),
    ensures
        slots_ms(p).len() == slots_ms(q).len(),
    decreases p.len(),
{
    if p.len() > 0 {
        lemma_slots_ms_len_same(p.drop_last(), q.drop_last());
        assert(p.last() is Some <==> q.last() is Some);
    }
}

/// A dropped entry sits in a slot whose flag is clear.
pub proof fn lemma_dropped_member<T>(p: Seq<Option<T>>, keep: Seq<bool>, e: T)
    requires
        p.len() <= keep.len(),
        dropped(p, keep).count(e) > 0,
    ensures
        exists|i: int| 0 <= i < p.len() && p[i] == Some(e) && !keep[i],
    decreases p.len(),
{
    let n = p.len() - 1;
    if !keep[n] && p.last() == Some(e) {
        assert(p[n] == Some(e));
    } else {
        lemma_dropped_member(p.drop_last(), keep.take(n), e);
        let i = choose|i: int| 0 <= i < n && p.drop_last()[i] == Some(e) && !keep.take(n)[i];
        assert(p[i] == Some(e) && !keep[i]);
    }
}

/// Slots that only differ where the flag is clear keep the same entries.
pub proof fn lemma_kept_same<T>(p: Seq<Option<T>>, q: Seq<Option<T>>, keep: Seq<bool>)
    requires
        p.len() == q.len(),
        p.len() <= keep.len(),
        forall|i: int| 0 <= i < p.len() && keep[i] ==> p[i] == q[i],
    ensures
        kept(p, keep) == kept(q, keep),
    decreases p.len(),
{
    if p.len() > 0 {
        lemma_kept_same(p.drop_last(), q.drop_last(), keep.take(p.len() - 1));
    }
}

/// The entry of a slot whose flag is clear is dropped.
pub proof fn lemma_dropped_has<T>(p: Seq<Option<T>>, keep: Seq<bool>, i: int)
    requires
        p.len() <= keep.len(),
        0 <= i < p.len(),
        p[i] is Some,
        !keep[i],
    ensures
        dropped(p, keep).count(p[i]->0) > 0,
    decreases p.len(),
{
    if i < p.len() - 1 {
        lemma_dropped_has(p.drop_last(), keep.take(p.len() - 1), i);
    }
}

/// Counting over a range is counting over its two halves.
pub proof fn lemma_cnt_split<V>(s: Seq<Option<(u64, V)>>, mask: usize, r: int, lo: int, mid: int, hi: int)
    requires
        lo <= mid <= hi,
    ensures
        cnt(s, mask, r, lo, hi) == cnt(s, mask, r, lo, mid) + cnt(s, mask, r, mid, hi),
    decreases hi - mid,
{
    if hi > mid {
        lemma_cnt_split(s, mask, r, lo, mid, hi - 1);
    }
}

/// The number of roots below `rr` that the entry of a slot has: one if it
/// holds an entry whose root is below `rr`, zero if not.
pub open spec fn roots_hit<V>(e: Option<(u64, V)>, mask: usize, rr: int) -> int
    decreases rr,
{
    if rr <= 0 {
        0
    } else {
        roots_hit(e, mask, rr - 1) + if has_root(e, mask, rr - 1) { 1int } else { 0int }
    }
}

/// An entry has exactly one root.
pub proof fn lemma_roots_hit<V>(e: Option<(u64, V)>, mask: usize, rr: int)
    requires
        rr >= 0,
    ensures
        roots_hit(e, mask, rr) == if e is Some && spec_root((e->0).0, mask) < rr { 1int } else { 0int },
    decreases rr,
{
    if rr > 0 {
        lemma_roots_hit(e, mask, rr - 1);
    }
}

/// The counts of the roots below `rr` over the first `hi` slots, added up.
pub open spec fn cnt_roots<V>(s: Seq<Option<(u64, V)>>, mask: usize, rr: int, hi: int) -> int
    decreases rr,
{
    if rr <= 0 {
        0
    } else {
        cnt_roots(s, mask, rr - 1, hi) + cnt(s, mask, rr - 1, 0, hi)
    }
}

/// The number of the first `hi` slots holding an entry whose root is below
/// `rr`.
pub open spec fn rooted<V>(s: Seq<Option<(u64, V)>>, mask: usize, rr: int, hi: int) -> int
    decreases hi,
{
    if hi <= 0 {
        0
    } else {
        rooted(s, mask, rr, hi - 1) + roots_hit(s[hi - 1], mask, rr)
    }
}

/// Adding up the counts of the roots counts each entry of those roots once.
pub proof fn lemma_cnt_roots<V>(s: Seq<Option<(u64, V)>>, mask: usize, rr: int, hi: int)
    requires
        rr >= 0,
        hi >= 0,
    ensures
        cnt_roots(s, mask, rr, hi) == rooted(s, mask, rr, hi),
    decreases hi, rr,
{
    if hi > 0 {
        lemma_cnt_roots(s, mask, rr, hi - 1);
        lemma_cnt_roots_step(s, mask, rr, hi);
    } else {
        lemma_cnt_roots_zero(s, mask, rr);
    }
}

proof fn lemma_cnt_roots_zero<V>(s: Seq<Option<(u64, V)>>, mask: usize, rr: int)
    requires
        rr >= 0,
    ensures
        cnt_roots(s, mask, rr, 0) == 0,
    decreases rr,
{
    if rr > 0 {
        lemma_cnt_roots_zero(s, mask, rr - 1);
    }
}

proof fn lemma_cnt_roots_step<V>(s: Seq<Option<(u64, V)>>, mask: usize, rr: int, hi: int)
    requires
        rr >= 0,
        hi > 0,
    ensures
        cnt_roots(s, mask, rr, hi) == cnt_roots(s, mask, rr, hi - 1) + roots_hit(s[hi - 1], mask, rr),
    decreases rr,
{
    if rr > 0 {
        lemma_cnt_roots_step(s, mask, rr - 1, hi);
    }
}

/// When every entry's root is below `rr`, the slots holding such an entry
/// are all the entries.
pub proof fn lemma_rooted_all<V>(s: Seq<Option<(u64, V)>>, mask: usize, rr: int, hi: int)
    requires
        rr >= 0,
        0 <= hi <= s.len(),
        forall|j: int| 0 <= j < hi && (#[trigger] s[j]) is Some ==> spec_root((s[j]->0).0, mask) < rr,
    ensures
        rooted(s, mask, rr, hi) == slots_ms(s.take(hi)).len(),
    decreases hi,
{
    if hi > 0 {
        lemma_rooted_all(s, mask, rr, hi - 1);
        lemma_roots_hit(s[hi - 1], mask, rr);
        assert(s.take(hi).drop_last() =~= s.take(hi - 1));
        assert(s.take(hi).last() == s[hi - 1]);
    } else {
        assert(s.take(0).len() == 0);
    }
}

/// Joining two sequences joins their multisets.
pub proof fn lemma_seq_ms_add<T>(a: Seq<T>, b: Seq<T>)
    ensures
        seq_ms(a.add(b)) =~= seq_ms(a).add(seq_ms(b)),
    decreases b.len(),
{
    if b.len() > 0 {
        lemma_seq_ms_add(a, b.drop_last());
        assert(a.add(b).drop_last() =~= a.add(b.drop_last()));
        assert(a.add(b).last() == b.last());
    } else {
        assert(a.add(b) =~= a);
    }
}

/// Reversing a sequence keeps its multiset.
pub proof fn lemma_seq_ms_reverse<T>(s: Seq<T>)
    ensures
        seq_ms(s.reverse()) =~= seq_ms(s),
    decreases s.len(),
{
    if s.len() > 0 {
        lemma_seq_ms_reverse(s.drop_last());
        assert(s.reverse() =~= seq![s.last()].add(s.drop_last().reverse()));
        lemma_seq_ms_add(seq![s.last()], s.drop_last().reverse());
        let one = seq![s.last()];
        assert(one.drop_last() =~= Seq::<T>::empty());
        assert(seq_ms(one.drop_last()) =~= Multiset::<T>::empty());
        assert(one.last() == s.last());
        assert(seq_ms(one) =~= Multiset::<T>::empty().insert(s.last()));
        assert(seq_ms(s) =~= seq_ms(s.drop_last()).insert(s.last()));
        assert(Multiset::<T>::empty().insert(s.last()).add(seq_ms(s.drop_last())) =~= seq_ms(s.drop_last()).insert(
            s.last(),
        ));
    }
}

/// The entries held by a sequence of slots, in order.
pub open spec fn slot_entries<T>(s: Seq<Option<T>>) -> Seq<T>
    decreases s.len(),
{
    if s.len() == 0 {
        Seq::empty()
    } else {
        slot_entries(s.drop_last()).add(
            match s.last() {
                Some(e) => seq![e],
                None => Seq::empty(),
            },
        )
    }
}

/// The entries of the slots, in order, make the multiset of the slots.
pub proof fn lemma_slot_entries<T>(s: Seq<Option<T>>)
    ensures
        seq_ms(slot_entries(s)) =~= slots_ms(s),
    decreases s.len(),
{
    if s.len() > 0 {
        lemma_slot_entries(s.drop_last());
        match s.last() {
            Some(e) => {
                lemma_seq_ms_push(slot_entries(s.drop_last()), e);
                assert(slot_entries(s) =~= slot_entries(s.drop_last()).push(e));
            },
            None => {
                assert(slot_entries(s) =~= slot_entries(s.drop_last()));
            },
        }
    }
}

/// An element held at two places of a sequence counts at least twice.
pub proof fn lemma_seq_ms_two<T>(s: Seq<T>, i: int, j: int)
    requires
        0 <= i < j < s.len(),
        s[i] == s[j],
    ensures
        seq_ms(s).count(s[i]) >= 2,
    decreases s.len(),
{
    if j == s.len() - 1 {
        lemma_seq_ms_update(s.drop_last(), i, s[i]);
        assert(s.drop_last()[i] == s[i]);
    } else {
        lemma_seq_ms_two(s.drop_last(), i, j);
        assert(s.drop_last()[i] == s[i]);
    }
}

} // verus!
