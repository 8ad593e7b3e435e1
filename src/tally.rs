use vstd::prelude::*;
use std::collections::BTreeMap;
use vstd::laws_cmp::obeys_cmp;
use vstd::std_specs::iter::IteratorSpec;

verus! {

broadcast use vstd::std_specs::btree::group_btree_axioms;

/// How many times `k` was counted: its value in the map, zero when absent.
pub open spec fn map_count<K>(m: Map<K, u64>, k: K) -> nat {
    if m.contains_key(k) {
        m[k] as nat
    } else {
        0
    }
}

/// Only keys that were counted at least once are present.
pub open spec fn all_positive<K>(m: Map<K, u64>) -> bool {
    forall|k: K| #[trigger] m.contains_key(k) ==> m[k] > 0
}

/// No count exceeds `b`.
pub open spec fn all_at_most<K>(m: Map<K, u64>, b: nat) -> bool {
    forall|k: K| #[trigger] m.contains_key(k) ==> m[k] <= b
}

/// Counts `k` once more.
pub fn bump<K: Ord + Copy>(m: &mut BTreeMap<K, u64>, k: K)
    requires
        obeys_cmp::<K>(),
        map_count(old(m)@, k) < u64::MAX,
    ensures
        forall|j: K| #[trigger]
            map_count(final(m)@, j) == map_count(old(m)@, j) + if j == k {
                1nat
            } else {
                0nat
            },
        final(m)@.dom() == old(m)@.dom().insert(k),
        all_positive(old(m)@) ==> all_positive(final(m)@),
        forall|b: nat| all_at_most(old(m)@, b) && map_count(old(m)@, k) < b ==> all_at_most(final(m)@, b),
{
    let c: u64 = match m.get(&k) {
        Some(v) => *v,
        None => 0,
    };
    m.insert(k, c + 1);
}

/// Adds every count of `src` to `dst`.
pub fn add_counts<K: Ord + Copy>(dst: &mut BTreeMap<K, u64>, src: &BTreeMap<K, u64>)
    requires
        obeys_cmp::<K>(),
        forall|k: K| #[trigger] map_count(old(dst)@, k) + map_count(src@, k) <= u64::MAX,
    ensures
        forall|k: K| #[trigger]
            map_count(final(dst)@, k) == map_count(old(dst)@, k) + map_count(src@, k),
        all_positive(old(dst)@) && all_positive(src@) ==> all_positive(final(dst)@),
{
    let ghost d0 = dst@;
    let ghost s0 = src.iter().remaining();
    assert(vstd::std_specs::btree::key_obeys_cmp_spec::<K>());
    for item in it: src.iter()
        invariant
            obeys_cmp::<K>(),
            it.seq() == s0,
            s0.len() == src@.dom().len(),
            s0.no_duplicates(),
            forall|t: int|
                0 <= t < s0.len() ==> src@.contains_key(*#[trigger] s0[t].0) && src@[*s0[t].0]
                    == *s0[t].1,
            forall|k: K| #[trigger] src@.contains_key(k) ==> s0.contains((&k, &src@[k])),
            forall|k: K| map_count(d0, k) + map_count(src@, k) <= u64::MAX,
            forall|k: K| #[trigger]
                map_count(dst@, k) == map_count(d0, k) + if (exists|t: int|
                    0 <= t < it.index() && *it.seq()[t].0 == k) {
                    map_count(src@, k)
                } else {
                    0
                },
            all_positive(d0) && all_positive(src@) ==> all_positive(dst@),
    {
        let (k, v) = item;
        let ghost i = it.index();
        assert(item == s0[i]);
        proof {
            assert forall|t: int| 0 <= t < i implies *s0[t].0 != *k by {
                if *s0[t].0 == *k {
                    assert(s0[t] == s0[i]);
                }
            }
        }
        let ghost dprev = dst@;
        assert(!(exists|t: int| 0 <= t < it.index() && *it.seq()[t].0 == *k));
        assert(map_count(dst@, *k) == map_count(d0, *k));
        assert(src@.contains_key(*k) && src@[*k] == *v);
        let c: u64 = match dst.get(k) {
            Some(x) => *x,
            None => 0,
        };
        assert(map_count(d0, *k) + map_count(src@, *k) <= u64::MAX);
        dst.insert(*k, c + *v);
        proof {
            assert forall|j: K| #[trigger]
                map_count(dst@, j) == map_count(d0, j) + if (exists|t: int|
                    0 <= t < i + 1 && *s0[t].0 == j) {
                    map_count(src@, j)
                } else {
                    0
                } by {
                if j == *k {
                    assert(*s0[i].0 == j);
                } else {
                    assert(map_count(dst@, j) == map_count(dprev, j));
                    if exists|t: int| 0 <= t < i + 1 && *s0[t].0 == j {
                        let t = choose|t: int| 0 <= t < i + 1 && *s0[t].0 == j;
                        assert(t < i);
                    }
                }
            }
        }
    }
}

} // verus!
