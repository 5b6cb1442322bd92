//! Laws of the map's abstract behaviour, stated over the `Map` views that
//! the operations' contracts speak of.

use vstd::prelude::*;

verus! {

broadcast use vstd::set::group_set_axioms;

/// The abstract map left behind by performing the given insertions, in
/// order, on an empty map.
pub open spec fn map_after_inserts<KV, V>(pairs: Seq<(KV, V)>) -> Map<KV, V>
    decreases pairs.len(),
{
    if pairs.len() == 0 {
        Map::empty()
    } else {
        map_after_inserts(pairs.drop_last()).insert(pairs.last().0, pairs.last().1)
    }
}

/// The set of keys inserted by the given insertions.
pub open spec fn keys_of<KV, V>(pairs: Seq<(KV, V)>) -> Set<KV> {
    pairs.map_values(|p: (KV, V)| p.0).to_set()
}

/// For every sequence of insertions, the resulting map holds exactly the
/// keys inserted, one entry each: its size is the number of distinct keys.
/// Combined with the contracts of `insert` and `len`, this is what `len()`
/// reports after any run of inserts.
pub proof fn lemma_len_counts_distinct_keys<KV, V>(pairs: Seq<(KV, V)>)
    ensures
        map_after_inserts(pairs).dom() == keys_of(pairs),
        map_after_inserts(pairs).dom().finite(),
        map_after_inserts(pairs).len() == keys_of(pairs).len(),
    decreases pairs.len(),
{
    let ks_all = pairs.map_values(|p: (KV, V)| p.0);
    if pairs.len() == 0 {
        assert(map_after_inserts(pairs).dom() =~= keys_of(pairs)) by {
            assert forall|x: KV| !ks_all.contains(x) by {
                if ks_all.contains(x) {
                    let i = choose|i: int| 0 <= i < ks_all.len() && ks_all[i] == x;
                }
            }
        }
    } else {
        let rest = pairs.drop_last();
        let last = pairs.last();
        let ks_rest = rest.map_values(|p: (KV, V)| p.0);
        lemma_len_counts_distinct_keys(rest);
        assert(keys_of(pairs) =~= keys_of(rest).insert(last.0)) by {
            assert forall|x: KV| ks_all.contains(x) implies ks_rest.contains(x) || x == last.0 by {
                let i = choose|i: int| 0 <= i < ks_all.len() && ks_all[i] == x;
                if i < ks_rest.len() {
                    assert(ks_rest[i] == x);
                }
            }
            assert forall|x: KV| ks_rest.contains(x) implies ks_all.contains(x) by {
                let i = choose|i: int| 0 <= i < ks_rest.len() && ks_rest[i] == x;
                assert(ks_all[i] == x);
            }
            assert(ks_all[pairs.len() - 1] == last.0);
        }
        assert(map_after_inserts(pairs).dom() =~= keys_of(pairs));
    }
}

/// A key that none of the insertions used is absent from the resulting map:
/// by the contracts of `get` and `contains_key`, looking it up yields
/// nothing and a containment test reports `false`.
pub proof fn lemma_never_inserted_absent<KV, V>(pairs: Seq<(KV, V)>, kv: KV)
    requires
        forall|i: int| 0 <= i < pairs.len() ==> (#[trigger] pairs[i]).0 != kv,
    ensures
        !map_after_inserts(pairs).contains_key(kv),
    decreases pairs.len(),
{
    if pairs.len() > 0 {
        lemma_never_inserted_absent(pairs.drop_last(), kv);
        assert(pairs.last() == pairs[pairs.len() - 1]);
    }
}

/// Inserting twice under one key only replaces the value: the map ends as
/// if only the second insertion had happened under that key, a lookup of
/// the key yields the second value, and the size is unchanged by the second
/// insertion. The first clause below also makes the second insertion hand
/// back the first value, through the contract of `insert`.
pub proof fn lemma_insert_overwrites<KV, V>(m: Map<KV, V>, kv: KV, v1: V, v2: V)
    requires
        m.dom().finite(),
    ensures
        m.insert(kv, v1)[kv] == v1,
        m.insert(kv, v1).insert(kv, v2) == m.insert(kv, v2),
        m.insert(kv, v1).insert(kv, v2)[kv] == v2,
        m.insert(kv, v1).insert(kv, v2).len() == m.insert(kv, v1).len(),
{
    assert(m.insert(kv, v1).insert(kv, v2) =~= m.insert(kv, v2));
    assert(m.insert(kv, v1).dom() =~= m.dom().insert(kv));
    assert(m.insert(kv, v2).dom() =~= m.dom().insert(kv));
}

} // verus!
