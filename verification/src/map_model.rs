//! The abstract views of the map and set front ends: a table of hashed
//! key-value pairs seen as a map from (hash, key) to value, and a table of
//! hashed elements seen as a set of (hash, element) pairs.

use vstd::prelude::*;
use vstd::multiset::Multiset;
use crate::slot_model::{
    has_value, kept, lemma_kept_at, lemma_kept_sub, lemma_slots_ms_decompose, lemma_slots_ms_has,
    lemma_slots_ms_member, opt_ms, slots_ms, some_all,
};

verus! {

broadcast use vstd::multiset::group_multiset_axioms;

/// Some entry of `m` has hash `h` and key `k`.
pub open spec fn keyed<K, V>(m: Multiset<(u64, (K, V))>, h: u64, k: K) -> bool {
    exists|v: V| m.count((h, (k, v))) > 0
}

/// No two entries of `m` share a hash and a key.
pub open spec fn unique_keys<K, V>(m: Multiset<(u64, (K, V))>) -> bool {
    forall|h: u64, k: K, v1: V, v2: V|
        #![trigger m.count((h, (k, v1))), m.count((h, (k, v2)))]
        m.count((h, (k, v1))) > 0 && m.count((h, (k, v2))) > 0 ==> v1 == v2 && m.count((h, (k, v1))) == 1
}

/// The map from (hash, key) to value that `m` holds.
pub open spec fn map_of<K, V>(m: Multiset<(u64, (K, V))>) -> Map<(u64, K), V> {
    Map::new(
        |p: (u64, K)| keyed(m, p.0, p.1),
        |p: (u64, K)| choose|v: V| m.count((p.0, (p.1, v))) > 0,
    )
}

pub proof fn lemma_map_of_lookup<K, V>(m: Multiset<(u64, (K, V))>, h: u64, k: K, v: V)
    requires
        unique_keys(m),
        m.count((h, (k, v))) > 0,
    ensures
        map_of(m).contains_key((h, k)),
        map_of(m)[(h, k)] == v,
{
    assert(keyed(m, h, k));
    let w = choose|w: V| m.count((h, (k, w))) > 0;
    assert(m.count((h, (k, w))) > 0);
}

pub proof fn lemma_map_of_empty<K, V>()
    ensures
        unique_keys(Multiset::<(u64, (K, V))>::empty()),
        map_of(Multiset::<(u64, (K, V))>::empty()) =~= Map::empty(),
{
}

/// Adding an entry under a fresh (hash, key) adds it to the map.
pub proof fn lemma_map_of_insert<K, V>(m: Multiset<(u64, (K, V))>, h: u64, k: K, v: V)
    requires
        unique_keys(m),
        forall|w: V| m.count((h, (k, w))) == 0,
    ensures
        unique_keys(m.insert((h, (k, v)))),
        map_of(m.insert((h, (k, v)))) =~= map_of(m).insert((h, k), v),
{
    let m2 = m.insert((h, (k, v)));
    assert forall|p: (u64, K)| #[trigger] map_of(m2).contains_key(p) == map_of(m).insert((h, k), v).contains_key(p) by {
        if p == (h, k) {
            assert(m2.count((p.0, (p.1, v))) > 0);
        } else if keyed(m2, p.0, p.1) {
            let w = choose|w: V| m2.count((p.0, (p.1, w))) > 0;
            assert(m.count((p.0, (p.1, w))) > 0);
        } else if keyed(m, p.0, p.1) {
            let w = choose|w: V| m.count((p.0, (p.1, w))) > 0;
            assert(m2.count((p.0, (p.1, w))) > 0);
        }
    }
    assert forall|p: (u64, K)| map_of(m2).contains_key(p) implies #[trigger] map_of(m2)[p] == map_of(m).insert(
        (h, k),
        v,
    )[p] by {
        if p == (h, k) {
            lemma_map_of_lookup(m2, h, k, v);
        } else {
            let w = choose|w: V| m2.count((p.0, (p.1, w))) > 0;
            assert(m.count((p.0, (p.1, w))) > 0);
            lemma_map_of_lookup(m, p.0, p.1, w);
            lemma_map_of_lookup(m2, p.0, p.1, w);
        }
    }
}

/// Taking out the entry of a (hash, key) removes it from the map.
pub proof fn lemma_map_of_remove<K, V>(m: Multiset<(u64, (K, V))>, h: u64, k: K, v: V)
    requires
        unique_keys(m),
        m.count((h, (k, v))) > 0,
    ensures
        unique_keys(m.remove((h, (k, v)))),
        forall|w: V| m.remove((h, (k, v))).count((h, (k, w))) == 0,
        map_of(m.remove((h, (k, v)))) =~= map_of(m).remove((h, k)),
{
    let m2 = m.remove((h, (k, v)));
    assert forall|w: V| m2.count((h, (k, w))) == 0 by {
        if m.count((h, (k, w))) > 0 {
            assert(w == v);
        }
    }
    assert forall|p: (u64, K)| #[trigger] map_of(m2).contains_key(p) == map_of(m).remove((h, k)).contains_key(p) by {
        if p != (h, k) && keyed(m, p.0, p.1) {
            let w = choose|w: V| m.count((p.0, (p.1, w))) > 0;
            assert(m2.count((p.0, (p.1, w))) > 0);
        }
    }
    assert forall|p: (u64, K)| map_of(m2).contains_key(p) implies #[trigger] map_of(m2)[p] == map_of(m).remove(
        (h, k),
    )[p] by {
        let w = choose|w: V| m2.count((p.0, (p.1, w))) > 0;
        assert(m.count((p.0, (p.1, w))) > 0);
        lemma_map_of_lookup(m, p.0, p.1, w);
        lemma_map_of_lookup(m2, p.0, p.1, w);
    }
}

/// Replacing the value of a (hash, key) updates the map.
pub proof fn lemma_map_of_replace<K, V>(m: Multiset<(u64, (K, V))>, h: u64, k: K, v0: V, v: V)
    requires
        unique_keys(m),
        m.count((h, (k, v0))) > 0,
    ensures
        unique_keys(m.remove((h, (k, v0))).insert((h, (k, v)))),
        map_of(m.remove((h, (k, v0))).insert((h, (k, v)))) =~= map_of(m).insert((h, k), v),
{
    lemma_map_of_remove(m, h, k, v0);
    lemma_map_of_insert(m.remove((h, (k, v0))), h, k, v);
    assert(map_of(m).remove((h, k)).insert((h, k), v) =~= map_of(m).insert((h, k), v));
}

/// No element of `m` occurs twice.
pub open spec fn unique_elems<T>(m: Multiset<(u64, T)>) -> bool {
    forall|e: (u64, T)| #[trigger] m.count(e) <= 1
}

/// The set of (hash, element) pairs that `m` holds.
pub open spec fn set_of<T>(m: Multiset<(u64, T)>) -> Set<(u64, T)> {
    Set::new(|e: (u64, T)| m.count(e) > 0)
}

/// The map holds `kv.1` for `kv.0` under some hash.
pub open spec fn listed<K, V>(m: Map<(u64, K), V>, kv: (K, V)) -> bool {
    exists|h: u64| m.contains_key((h, kv.0)) && m[(h, kv.0)] == kv.1
}

/// `s` lists the entries of `m`: every pair of `s` is an entry of `m` under
/// some hash, and every entry of `m` is a pair of `s`.
pub open spec fn lists<K, V>(s: Seq<(K, V)>, m: Map<(u64, K), V>) -> bool {
    &&& forall|i: int| 0 <= i < s.len() ==> #[trigger] listed(m, s[i])
    &&& forall|p: (u64, K)| #[trigger] m.contains_key(p) ==> s.contains((p.1, m[p]))
}

/// A sequence of the values of the entries of `m`, holding every one, lists
/// the map of `m`.
pub proof fn lemma_lists<K, V>(m: Multiset<(u64, (K, V))>, s: Seq<(K, V)>)
    requires
        unique_keys(m),
        forall|i: int| 0 <= i < s.len() ==> has_value(m, #[trigger] s[i]),
        forall|e: (u64, (K, V))| m.count(e) > 0 ==> s.contains(e.1),
    ensures
        lists(s, map_of(m)),
{
    assert forall|i: int| 0 <= i < s.len() implies #[trigger] listed(map_of(m), s[i]) by {
        assert(has_value(m, s[i]));
        let h = choose|h: u64| m.count((h, s[i])) > 0;
        lemma_map_of_lookup(m, h, s[i].0, s[i].1);
    }
    assert forall|p: (u64, K)| #[trigger] map_of(m).contains_key(p) implies s.contains((p.1, map_of(m)[p])) by {
        let v = choose|v: V| m.count((p.0, (p.1, v))) > 0;
        lemma_map_of_lookup(m, p.0, p.1, v);
        assert(m.count((p.0, (p.1, v))) > 0);
    }
}

/// The (hash, key) of an occupied place.
pub open spec fn place_key<K, V>(e: Option<(u64, (K, V))>) -> (u64, K) {
    ((e->0).0, (e->0).1.0)
}

/// The value of an occupied place.
pub open spec fn place_value<K, V>(e: Option<(u64, (K, V))>) -> V {
    (e->0).1.1
}

/// No two occupied places share a hash and a key.
pub open spec fn key_unique_places<K, V>(p: Seq<Option<(u64, (K, V))>>) -> bool {
    forall|i: int, j: int|
        0 <= i < p.len() && 0 <= j < p.len() && i != j && p[i] is Some && p[j] is Some
            ==> #[trigger] place_key(p[i]) != #[trigger] place_key(p[j])
}

/// Two occupied places count their entries twice over when equal.
proof fn lemma_two_places<T>(p: Seq<Option<T>>, i: int, j: int)
    requires
        0 <= i < p.len(),
        0 <= j < p.len(),
        i != j,
        p[i] is Some,
        p[j] is Some,
    ensures
        p[i] == p[j] ==> slots_ms(p).count(p[i]->0) >= 2,
        slots_ms(p).count(p[j]->0) >= 1,
{
    lemma_slots_ms_decompose(p, i);
    lemma_slots_ms_has(p.update(i, None), j);
}

/// An entry counted twice sits in two places.
proof fn lemma_twice_two_places<T>(p: Seq<Option<T>>, i: int)
    requires
        0 <= i < p.len(),
        p[i] is Some,
        slots_ms(p).count(p[i]->0) >= 2,
    ensures
        exists|j: int| 0 <= j < p.len() && j != i && p[j] == p[i],
{
    lemma_slots_ms_decompose(p, i);
    let q = p.update(i, None);
    lemma_slots_ms_member(q, p[i]->0);
    let j = choose|j: int| 0 <= j < q.len() && q[j] == Some(p[i]->0);
    assert(j != i && p[j] == p[i]);
}

/// Places of a table whose entries have unique keys hold unique keys.
pub proof fn lemma_unique_places<K, V>(p: Seq<Option<(u64, (K, V))>>)
    requires
        unique_keys(slots_ms(p)),
    ensures
        key_unique_places(p),
{
    assert forall|i: int, j: int|
        0 <= i < p.len() && 0 <= j < p.len() && i != j && p[i] is Some && p[j] is Some
            implies #[trigger] place_key(p[i]) != #[trigger] place_key(p[j]) by {
        if place_key(p[i]) == place_key(p[j]) {
            lemma_two_places(p, i, j);
            lemma_two_places(p, j, i);
            let ei = p[i]->0;
            let ej = p[j]->0;
            assert(slots_ms(p).count((ei.0, (ei.1.0, ei.1.1))) > 0);
            assert(slots_ms(p).count((ei.0, (ei.1.0, ej.1.1))) > 0);
            assert(ei.1.1 == ej.1.1);
            assert(p[i] == p[j]);
        }
    }
}

/// Places holding unique keys make a table with unique keys.
pub proof fn lemma_places_unique<K, V>(p: Seq<Option<(u64, (K, V))>>)
    requires
        key_unique_places(p),
    ensures
        unique_keys(slots_ms(p)),
{
    assert forall|h: u64, k: K, v1: V, v2: V|
        slots_ms(p).count((h, (k, v1))) > 0 && slots_ms(p).count((h, (k, v2))) > 0 implies v1 == v2
            && slots_ms(p).count((h, (k, v1))) == 1 by {
        lemma_slots_ms_member(p, (h, (k, v1)));
        lemma_slots_ms_member(p, (h, (k, v2)));
        let i = choose|i: int| 0 <= i < p.len() && p[i] == Some((h, (k, v1)));
        let j = choose|j: int| 0 <= j < p.len() && p[j] == Some((h, (k, v2)));
        assert(place_key(p[i]) == place_key(p[j]));
        if slots_ms(p).count((h, (k, v1))) >= 2 {
            lemma_twice_two_places(p, i);
            let j2 = choose|j2: int| 0 <= j2 < p.len() && j2 != i && p[j2] == p[i];
            assert(place_key(p[i]) == place_key(p[j2]));
        }
    }
}

/// The map of the entries that flags keep, for places with unique keys: a
/// (hash, key) is in it exactly when its place's flag is set, with its
/// place's value.
pub proof fn lemma_map_of_kept<K, V>(p: Seq<Option<(u64, (K, V))>>, keep: Seq<bool>)
    requires
        key_unique_places(p),
        p.len() <= keep.len(),
    ensures
        unique_keys(kept(p, keep)),
        forall|i: int|
            0 <= i < p.len() && p[i] is Some ==> (#[trigger] map_of(kept(p, keep)).contains_key(place_key(p[i]))
                <==> keep[i]),
        forall|i: int|
            0 <= i < p.len() && p[i] is Some && keep[i] ==> #[trigger] map_of(kept(p, keep))[place_key(p[i])]
                == place_value(p[i]),
        forall|q: (u64, K)|
            #[trigger] map_of(kept(p, keep)).contains_key(q) ==> exists|i: int|
                0 <= i < p.len() && p[i] is Some && place_key(p[i]) == q,
{
    let m = kept(p, keep);
    lemma_places_unique(p);
    assert(unique_keys(m)) by {
        assert forall|h: u64, k: K, v1: V, v2: V|
            m.count((h, (k, v1))) > 0 && m.count((h, (k, v2))) > 0 implies v1 == v2 && m.count((h, (k, v1)))
                == 1 by {
            lemma_kept_sub(p, keep, (h, (k, v1)));
            lemma_kept_sub(p, keep, (h, (k, v2)));
        }
    }
    assert forall|i: int| 0 <= i < p.len() && p[i] is Some implies (#[trigger] map_of(m).contains_key(place_key(p[i]))
        <==> keep[i]) && (keep[i] ==> map_of(m)[place_key(p[i])] == place_value(p[i])) by {
        let e = p[i]->0;
        lemma_slots_ms_has(p, i);
        assert(slots_ms(p).count((e.0, (e.1.0, e.1.1))) == 1);
        lemma_kept_at(p, keep, i);
        if keep[i] {
            lemma_map_of_lookup(m, e.0, e.1.0, e.1.1);
        } else {
            assert forall|w: V| m.count((e.0, (e.1.0, w))) == 0 by {
                lemma_kept_sub(p, keep, (e.0, (e.1.0, w)));
                if m.count((e.0, (e.1.0, w))) > 0 {
                    assert(w == e.1.1);
                }
            }
        }
    }
    assert forall|i: int| 0 <= i < p.len() && p[i] is Some && keep[i] implies #[trigger] map_of(m)[place_key(p[i])]
        == place_value(p[i]) by {
        assert(map_of(m).contains_key(place_key(p[i])));
    }
    assert forall|q: (u64, K)| #[trigger] map_of(m).contains_key(q) implies exists|i: int|
        0 <= i < p.len() && p[i] is Some && place_key(p[i]) == q by {
        let w = choose|w: V| m.count((q.0, (q.1, w))) > 0;
        lemma_kept_sub(p, keep, (q.0, (q.1, w)));
        lemma_slots_ms_member(p, (q.0, (q.1, w)));
        let i = choose|i: int| 0 <= i < p.len() && p[i] == Some((q.0, (q.1, w)));
        assert(place_key(p[i]) == q);
    }
}

/// Two place sequences of one length, occupied at the same places by the
/// same (hash, key)s.
pub open spec fn same_keys<K, V>(p: Seq<Option<(u64, (K, V))>>, q: Seq<Option<(u64, (K, V))>>) -> bool {
    &&& p.len() == q.len()
    &&& forall|i: int| 0 <= i < p.len() ==> (#[trigger] p[i] is Some <==> q[i] is Some)
    &&& forall|i: int| 0 <= i < p.len() && p[i] is Some ==> #[trigger] place_key(p[i]) == place_key(q[i])
}

/// The places of a map's storage: its slots, then its overflow entries.
pub open spec fn places_of<K, V>(slots: Seq<Option<(u64, (K, V))>>, overflow: Seq<(u64, (K, V))>) -> Seq<
    Option<(u64, (K, V))>,
> {
    slots.add(some_all(overflow))
}

/// The slots `s1` and overflow entries `o1` hold, place by place, the
/// hashes and keys of `s0` and `o0`; only the values may differ.
pub open spec fn keeps_keys<K, V>(
    s0: Seq<Option<(u64, (K, V))>>,
    o0: Seq<(u64, (K, V))>,
    s1: Seq<Option<(u64, (K, V))>>,
    o1: Seq<(u64, (K, V))>,
) -> bool {
    &&& s1.len() == s0.len()
    &&& same_keys(places_of(s0, o0), places_of(s1, o1))
}

/// A key of the places of `p` is a key of the places of `q` when `q` holds
/// the keys of `p`.
proof fn lemma_keyed_same_keys<K, V>(p: Seq<Option<(u64, (K, V))>>, q: Seq<Option<(u64, (K, V))>>, h: u64, k: K)
    requires
        same_keys(p, q),
        keyed(slots_ms(p), h, k),
    ensures
        keyed(slots_ms(q), h, k),
{
    let v = choose|v: V| slots_ms(p).count((h, (k, v))) > 0;
    lemma_slots_ms_member(p, (h, (k, v)));
    let i = choose|i: int| 0 <= i < p.len() && p[i] == Some((h, (k, v)));
    assert(q[i] is Some);
    assert(place_key(p[i]) == place_key(q[i]));
    lemma_slots_ms_has(q, i);
    assert(slots_ms(q).count((h, (k, (q[i]->0).1.1))) > 0);
}

/// Places that keep the keys of `p` and change only values make a map with
/// the keys of `p`, each with the value of its new place.
pub proof fn lemma_map_of_rewritten<K, V>(p: Seq<Option<(u64, (K, V))>>, q: Seq<Option<(u64, (K, V))>>)
    requires
        unique_keys(slots_ms(p)),
        same_keys(p, q),
    ensures
        unique_keys(slots_ms(q)),
        map_of(slots_ms(q)).dom() == map_of(slots_ms(p)).dom(),
        forall|i: int|
            0 <= i < q.len() && q[i] is Some ==> #[trigger] map_of(slots_ms(q))[place_key(q[i])] == place_value(q[i]),
{
    lemma_unique_places(p);
    lemma_same_keys_unique(p, q);
    lemma_places_unique(q);
    assert(same_keys(q, p));
    assert forall|x: (u64, K)| map_of(slots_ms(q)).dom().contains(x) == map_of(slots_ms(p)).dom().contains(x) by {
        if keyed(slots_ms(p), x.0, x.1) {
            lemma_keyed_same_keys(p, q, x.0, x.1);
        }
        if keyed(slots_ms(q), x.0, x.1) {
            lemma_keyed_same_keys(q, p, x.0, x.1);
        }
    }
    assert(map_of(slots_ms(q)).dom() =~= map_of(slots_ms(p)).dom());
    assert forall|i: int| 0 <= i < q.len() && q[i] is Some implies #[trigger] map_of(slots_ms(q))[place_key(q[i])]
        == place_value(q[i]) by {
        lemma_slots_ms_has(q, i);
        let e = q[i]->0;
        lemma_map_of_lookup(slots_ms(q), e.0, e.1.0, e.1.1);
    }
}

/// Rewriting values keeps the keys of the places unique.
pub proof fn lemma_same_keys_unique<K, V>(p: Seq<Option<(u64, (K, V))>>, q: Seq<Option<(u64, (K, V))>>)
    requires
        key_unique_places(p),
        same_keys(p, q),
    ensures
        key_unique_places(q),
{
    assert forall|i: int, j: int|
        0 <= i < q.len() && 0 <= j < q.len() && i != j && q[i] is Some && q[j] is Some
            implies #[trigger] place_key(q[i]) != #[trigger] place_key(q[j]) by {
        assert(p[i] is Some && p[j] is Some);
        assert(place_key(p[i]) == place_key(q[i]));
        assert(place_key(p[j]) == place_key(q[j]));
    }
}

/// `k` had an entry in `before`, under a hash under which it has none in
/// `after`.
pub open spec fn taken_out<K, V>(before: Map<(u64, K), V>, after: Map<(u64, K), V>, k: K) -> bool {
    exists|h: u64| before.contains_key((h, k)) && !after.contains_key((h, k))
}

pub proof fn lemma_set_of_empty<T>()
    ensures
        unique_elems(Multiset::<(u64, T)>::empty()),
        set_of(Multiset::<(u64, T)>::empty()) =~= Set::empty(),
{
}

/// Adding a new element adds it to the set.
pub proof fn lemma_set_of_insert<T>(m: Multiset<(u64, T)>, e: (u64, T))
    requires
        unique_elems(m),
        m.count(e) == 0,
    ensures
        unique_elems(m.insert(e)),
        set_of(m.insert(e)) =~= set_of(m).insert(e),
{
}

/// Taking out an element takes it out of the set.
pub proof fn lemma_set_of_remove<T>(m: Multiset<(u64, T)>, e: (u64, T))
    requires
        unique_elems(m),
        m.count(e) > 0,
    ensures
        unique_elems(m.remove(e)),
        set_of(m.remove(e)) =~= set_of(m).remove(e),
{
}

/// `hs` has `n` elements. The functions that hash with a builder say of the
/// hashes they used no more than this: which hashes the builder gives is
/// not known.
pub open spec fn seq_of_len(hs: Seq<u64>, n: nat) -> bool {
    hs.len() == n
}

/// `t` is in `m` under some hash.
pub open spec fn found<T>(m: Set<(u64, T)>, t: T) -> bool {
    exists|h: u64| m.contains((h, t))
}

/// `s` lists the elements of `m`: every element of `s` is in `m` under some
/// hash, and every element of `m` is in `s`.
pub open spec fn lists_set<T>(s: Seq<T>, m: Set<(u64, T)>) -> bool {
    &&& forall|i: int| 0 <= i < s.len() ==> found(m, #[trigger] s[i])
    &&& forall|e: (u64, T)| #[trigger] m.contains(e) ==> s.contains(e.1)
}

/// A sequence of the elements of `m`, holding every one, lists the set of
/// `m`.
pub proof fn lemma_lists_set<T>(m: Multiset<(u64, T)>, s: Seq<T>)
    requires
        forall|i: int| 0 <= i < s.len() ==> has_value(m, #[trigger] s[i]),
        forall|e: (u64, T)| m.count(e) > 0 ==> s.contains(e.1),
    ensures
        lists_set(s, set_of(m)),
{
    assert forall|i: int| 0 <= i < s.len() implies found(set_of(m), #[trigger] s[i]) by {
        assert(has_value(m, s[i]));
        let h = choose|h: u64| m.count((h, s[i])) > 0;
        assert(set_of(m).contains((h, s[i])));
    }
}

/// The set of the elements that flags keep: an element is in it exactly
/// when its place's flag is set.
pub proof fn lemma_set_of_kept<T>(p: Seq<Option<(u64, T)>>, keep: Seq<bool>)
    requires
        unique_elems(slots_ms(p)),
        p.len() <= keep.len(),
    ensures
        unique_elems(kept(p, keep)),
        forall|i: int|
            0 <= i < p.len() && p[i] is Some ==> (#[trigger] set_of(kept(p, keep)).contains(p[i]->0) <==> keep[i]),
        forall|e: (u64, T)| #[trigger] set_of(kept(p, keep)).contains(e) ==> set_of(slots_ms(p)).contains(e),
{
    let m = kept(p, keep);
    assert forall|e: (u64, T)| #[trigger] m.count(e) <= 1 by {
        lemma_kept_sub(p, keep, e);
    }
    assert forall|i: int| 0 <= i < p.len() && p[i] is Some implies (#[trigger] set_of(m).contains(p[i]->0)
        <==> keep[i]) by {
        lemma_slots_ms_has(p, i);
        lemma_kept_at(p, keep, i);
    }
    assert forall|e: (u64, T)| #[trigger] set_of(m).contains(e) implies set_of(slots_ms(p)).contains(e) by {
        lemma_kept_sub(p, keep, e);
    }
}

/// A table with unique keys has one map entry per stored entry.
pub proof fn lemma_map_of_len<K, V>(m: Multiset<(u64, (K, V))>)
    requires
        unique_keys(m),
    ensures
        map_of(m).dom().finite(),
        map_of(m).len() == m.len(),
    decreases m.len(),
{
    if m.len() == 0 {
        vstd::multiset::lemma_multiset_empty_len(m);
        lemma_map_of_empty::<K, V>();
        assert(m =~= Multiset::empty());
    } else {
        let e = m.choose();
        assert(m.count(e) > 0);
        lemma_map_of_remove(m, e.0, e.1.0, e.1.1);
        lemma_map_of_lookup(m, e.0, e.1.0, e.1.1);
        lemma_map_of_len(m.remove(e));
        assert(map_of(m).dom() =~= map_of(m.remove(e)).dom().insert((e.0, e.1.0)));
    }
}

/// A table with unique elements has one set element per stored entry.
pub proof fn lemma_set_of_len<T>(m: Multiset<(u64, T)>)
    requires
        unique_elems(m),
    ensures
        set_of(m).finite(),
        set_of(m).len() == m.len(),
    decreases m.len(),
{
    if m.len() == 0 {
        vstd::multiset::lemma_multiset_empty_len(m);
        assert(set_of(m) =~= Set::empty());
    } else {
        let e = m.choose();
        assert(m.count(e) > 0);
        lemma_set_of_remove(m, e);
        lemma_set_of_len(m.remove(e));
        assert(set_of(m) =~= set_of(m.remove(e)).insert(e));
    }
}

} // verus!
