//! The map itself: separate-chaining buckets over a dynamically doubled
//! bucket array, with a count of stored items maintained alongside.

use vstd::prelude::*;

use crate::key::BorrowedKey;
use crate::key::HashKey;

verus! {

broadcast use vstd::set::group_set_axioms;

/// The number of buckets allocated by the first resize of an empty map.
/// Kept small deliberately, so that tests exercise the growth path.
pub const INITIAL_NBUCKETS: usize = 1;

/// The bucket count a resize grows `n` buckets to: the initial constant
/// when there are none yet, else double — short of the machine limit on a
/// vector's length, where the count stays put.
pub open spec fn grown_bucket_count(n: int) -> int {
    if n == 0 {
        INITIAL_NBUCKETS as int
    } else if n <= usize::MAX as int / 2 {
        2 * n
    } else {
        n
    }
}

/// The bucket that a key with view `kv` belongs to, out of `n` buckets.
spec fn bucket_of<K: HashKey>(kv: K::V, n: int) -> int {
    (K::hash_spec(kv) as int) % n
}

/// The contents of a vector of buckets, bucket by bucket.
spec fn bviews<K: HashKey, V>(bv: Vec<Vec<(K, V)>>) -> Seq<Seq<(K, V)>> {
    bv@.map_values(|b: Vec<(K, V)>| b@)
}

/// Whether `(bi, i)` addresses an entry of the bucket array `bs`.
spec fn valid_pos<K: HashKey, V>(bs: Seq<Seq<(K, V)>>, bi: int, i: int) -> bool {
    0 <= bi < bs.len() && 0 <= i < bs[bi].len()
}

/// The view of the key stored at position `(bi, i)` of `bs`.
spec fn key_at<K: HashKey, V>(bs: Seq<Seq<(K, V)>>, bi: int, i: int) -> K::V {
    (bs[bi][i].0)@
}

/// The value stored at position `(bi, i)` of `bs`.
spec fn val_at<K: HashKey, V>(bs: Seq<Seq<(K, V)>>, bi: int, i: int) -> V {
    bs[bi][i].1
}

/// Whether some entry of `bs` holds a key with view `kv`.
spec fn contains_kv<K: HashKey, V>(bs: Seq<Seq<(K, V)>>, kv: K::V) -> bool {
    exists|bi: int, i: int| valid_pos(bs, bi, i) && #[trigger] key_at(bs, bi, i) == kv
}

/// The value stored in `bs` under the key with view `kv`.
spec fn value_of<K: HashKey, V>(bs: Seq<Seq<(K, V)>>, kv: K::V) -> V {
    let p = choose|bi: int, i: int| valid_pos(bs, bi, i) && #[trigger] key_at(bs, bi, i) == kv;
    val_at(bs, p.0, p.1)
}

/// The abstract content of a bucket array: keys, by view, to values.
spec fn bmap<K: HashKey, V>(bs: Seq<Seq<(K, V)>>) -> Map<K::V, V> {
    Map::new(|kv: K::V| contains_kv(bs, kv), |kv: K::V| value_of(bs, kv))
}

/// Every entry of `bs` sits in the bucket its key hashes to.
spec fn placed<K: HashKey, V>(bs: Seq<Seq<(K, V)>>) -> bool {
    forall|bi: int, i: int|
        valid_pos(bs, bi, i) ==> bucket_of::<K>(#[trigger] key_at(bs, bi, i), bs.len() as int)
            == bi
}

/// No two entries of `bs` hold keys with the same view.
spec fn distinct<K: HashKey, V>(bs: Seq<Seq<(K, V)>>) -> bool {
    forall|bi: int, i: int, bj: int, j: int|
        valid_pos(bs, bi, i) && valid_pos(bs, bj, j) && (bi != bj || i != j)
            ==> #[trigger] key_at(bs, bi, i) != #[trigger] key_at(bs, bj, j)
}

/// The number of entries in the first `n` buckets of `bs`.
spec fn count_upto<K: HashKey, V>(bs: Seq<Seq<(K, V)>>, n: int) -> int
    decreases n,
{
    if n <= 0 {
        0
    } else {
        count_upto(bs, n - 1) + bs[n - 1].len()
    }
}

/// The number of entries in all buckets of `bs`.
spec fn count<K: HashKey, V>(bs: Seq<Seq<(K, V)>>) -> int {
    count_upto(bs, bs.len() as int)
}

/// An entry of `bs` witnesses its own key and value in `bmap(bs)`.
proof fn lemma_value_at<K: HashKey, V>(bs: Seq<Seq<(K, V)>>, bi: int, i: int)
    requires
        distinct(bs),
        valid_pos(bs, bi, i),
    ensures
        contains_kv(bs, key_at(bs, bi, i)),
        value_of(bs, key_at(bs, bi, i)) == val_at(bs, bi, i),
{
    let kv = key_at(bs, bi, i);
    assert(contains_kv(bs, kv));
    let p = choose|bj: int, j: int| valid_pos(bs, bj, j) && #[trigger] key_at(bs, bj, j) == kv;
    if p.0 != bi || p.1 != i {
        assert(key_at(bs, p.0, p.1) != key_at(bs, bi, i));
        assert(false);
    }
}

/// Two bucket arrays that agree on their first `n` buckets hold the same
/// number of entries there.
proof fn lemma_count_upto_agree<K: HashKey, V>(bs1: Seq<Seq<(K, V)>>, bs2: Seq<Seq<(K, V)>>, n: int)
    requires
        forall|j: int| 0 <= j < n ==> #[trigger] bs1[j] == bs2[j],
    ensures
        count_upto(bs1, n) == count_upto(bs2, n),
    decreases n,
{
    if n > 0 {
        lemma_count_upto_agree(bs1, bs2, n - 1);
    }
}

/// With no two entries sharing a key, the abstract map has exactly one key
/// per entry: its size is the total entry count, and in particular finite.
proof fn lemma_bmap_len<K: HashKey, V>(bs: Seq<Seq<(K, V)>>)
    requires
        distinct(bs),
    ensures
        bmap(bs).dom().finite(),
        bmap(bs).len() == count(bs),
    decreases bs.len(), (if bs.len() > 0 { bs.last().len() } else { 0 }),
{
    if bs.len() == 0 {
        assert(bmap(bs) =~= Map::<K::V, V>::empty());
    } else if bs.last().len() == 0 {
        let bs2 = bs.drop_last();
        let n = bs.len() - 1;
        assert forall|bi: int, i: int, bj: int, j: int|
            valid_pos(bs2, bi, i) && valid_pos(bs2, bj, j) && (bi != bj || i != j) implies #[trigger] key_at(
            bs2,
            bi,
            i,
        ) != #[trigger] key_at(bs2, bj, j) by {
            assert(key_at(bs2, bi, i) == key_at(bs, bi, i));
            assert(key_at(bs2, bj, j) == key_at(bs, bj, j));
        }
        lemma_bmap_len(bs2);
        assert forall|kv: K::V| contains_kv(bs, kv) implies contains_kv(bs2, kv) by {
            let p = choose|bi: int, i: int|
                valid_pos(bs, bi, i) && #[trigger] key_at(bs, bi, i) == kv;
            assert(p.0 < n);
            assert(key_at(bs2, p.0, p.1) == kv);
        }
        assert forall|kv: K::V| contains_kv(bs2, kv) implies contains_kv(bs, kv) by {
            let p = choose|bi: int, i: int|
                valid_pos(bs2, bi, i) && #[trigger] key_at(bs2, bi, i) == kv;
            assert(key_at(bs, p.0, p.1) == kv);
        }
        assert(bmap(bs) =~= bmap(bs2)) by {
            assert forall|kv: K::V| #[trigger] contains_kv(bs, kv) implies value_of(bs, kv)
                == value_of(bs2, kv) by {
                let p = choose|bi: int, i: int|
                    valid_pos(bs2, bi, i) && #[trigger] key_at(bs2, bi, i) == kv;
                lemma_value_at(bs2, p.0, p.1);
                assert(key_at(bs, p.0, p.1) == kv);
                lemma_value_at(bs, p.0, p.1);
            }
        }
        lemma_count_upto_agree(bs, bs2, n);
    } else {
        let n = bs.len() - 1;
        let m = bs.last().len() - 1;
        let e = bs[n][m];
        let kv = (e.0)@;
        let bs2 = bs.update(n, bs[n].drop_last());
        assert(bs2.len() == bs.len());
        assert forall|bi: int, i: int|
            valid_pos(bs2, bi, i) implies valid_pos(bs, bi, i) && key_at(bs2, bi, i) == key_at(
            bs,
            bi,
            i,
        ) && val_at(bs2, bi, i) == val_at(bs, bi, i) by {
            if bi == n {
                assert(bs2[bi][i] == bs[bi][i]);
            }
        }
        assert forall|bi: int, i: int, bj: int, j: int|
            valid_pos(bs2, bi, i) && valid_pos(bs2, bj, j) && (bi != bj || i != j) implies #[trigger] key_at(
            bs2,
            bi,
            i,
        ) != #[trigger] key_at(bs2, bj, j) by {
            assert(key_at(bs2, bi, i) == key_at(bs, bi, i));
            assert(key_at(bs2, bj, j) == key_at(bs, bj, j));
        }
        lemma_bmap_len(bs2);
        assert(key_at(bs, n, m) == kv);
        assert(contains_kv(bs, kv));
        assert(!contains_kv(bs2, kv)) by {
            if contains_kv(bs2, kv) {
                let p = choose|bi: int, i: int|
                    valid_pos(bs2, bi, i) && #[trigger] key_at(bs2, bi, i) == kv;
                assert(key_at(bs, p.0, p.1) == kv);
                assert(p.0 != n || p.1 != m);
                assert(key_at(bs, p.0, p.1) != key_at(bs, n, m));
            }
        }
        assert(bmap(bs) =~= bmap(bs2).insert(kv, e.1)) by {
            assert forall|kv2: K::V| #[trigger] contains_kv(bs, kv2) && kv2 != kv implies contains_kv(
                bs2,
                kv2,
            ) && value_of(bs, kv2) == value_of(bs2, kv2) by {
                let p = choose|bi: int, i: int|
                    valid_pos(bs, bi, i) && #[trigger] key_at(bs, bi, i) == kv2;
                assert(p.0 != n || p.1 != m);
                if p.0 == n {
                    assert(bs2[p.0][p.1] == bs[p.0][p.1]);
                }
                assert(key_at(bs2, p.0, p.1) == kv2);
                lemma_value_at(bs2, p.0, p.1);
                lemma_value_at(bs, p.0, p.1);
            }
            assert forall|kv2: K::V| #[trigger] contains_kv(bs2, kv2) implies contains_kv(bs, kv2) by {
                let p = choose|bi: int, i: int|
                    valid_pos(bs2, bi, i) && #[trigger] key_at(bs2, bi, i) == kv2;
                assert(key_at(bs, p.0, p.1) == kv2);
            }
            lemma_value_at(bs, n, m);
        }
        assert(bmap(bs).dom() =~= bmap(bs2).dom().insert(kv));
        assert(count(bs) == count(bs2) + 1) by {
            lemma_count_upto_agree(bs, bs2, n);
            assert(count_upto(bs, n + 1) == count_upto(bs, n) + bs[n].len());
            assert(count_upto(bs2, n + 1) == count_upto(bs2, n) + bs2[n].len());
        }
    }
}

/// The bucket array after appending entry `e` to bucket `bi`.
spec fn with_pushed<K: HashKey, V>(bs: Seq<Seq<(K, V)>>, bi: int, e: (K, V)) -> Seq<Seq<(K, V)>> {
    bs.update(bi, bs[bi].push(e))
}

/// The bucket array after removing the entry at `(bi, i)`, moving the
/// bucket's last entry into its place.
spec fn with_removed<K: HashKey, V>(bs: Seq<Seq<(K, V)>>, bi: int, i: int) -> Seq<Seq<(K, V)>> {
    bs.update(bi, bs[bi].update(i, bs[bi].last()).drop_last())
}

/// The bucket array after replacing the entry at `(bi, i)` with `e`.
spec fn with_replaced<K: HashKey, V>(bs: Seq<Seq<(K, V)>>, bi: int, i: int, e: (K, V)) -> Seq<
    Seq<(K, V)>,
> {
    bs.update(bi, bs[bi].update(i, e))
}

/// Updating one bucket changes the entry count by the difference in that
/// bucket's length.
proof fn lemma_count_update<K: HashKey, V>(
    bs: Seq<Seq<(K, V)>>,
    bi: int,
    b2: Seq<(K, V)>,
    n: int,
)
    requires
        0 <= bi < bs.len(),
        n <= bs.len(),
    ensures
        n <= bi ==> count_upto(bs.update(bi, b2), n) == count_upto(bs, n),
        n > bi ==> count_upto(bs.update(bi, b2), n) == count_upto(bs, n) - bs[bi].len()
            + b2.len(),
    decreases n,
{
    if n > 0 {
        lemma_count_update(bs, bi, b2, n - 1);
    }
}

/// Appending an entry with a fresh key to a bucket adds exactly that entry.
proof fn lemma_push_entry<K: HashKey, V>(bs: Seq<Seq<(K, V)>>, bi: int, e: (K, V))
    requires
        distinct(bs),
        0 <= bi < bs.len(),
        !contains_kv(bs, (e.0)@),
    ensures
        distinct(with_pushed(bs, bi, e)),
        placed(bs) && bucket_of::<K>((e.0)@, bs.len() as int) == bi ==> placed(
            with_pushed(bs, bi, e),
        ),
        bmap(with_pushed(bs, bi, e)) == bmap(bs).insert((e.0)@, e.1),
        count(with_pushed(bs, bi, e)) == count(bs) + 1,
{
    let kv = (e.0)@;
    let bs2 = with_pushed(bs, bi, e);
    let m = bs[bi].len() as int;
    assert(bs2[bi][m] == e);
    assert(valid_pos(bs2, bi, m));
    assert(key_at(bs2, bi, m) == kv);
    assert forall|bj: int, j: int|
        valid_pos(bs2, bj, j) && (bj != bi || j != m) implies valid_pos(bs, bj, j) && bs2[bj][j]
        == bs[bj][j] by {
        if bj == bi {
            assert(bs2[bj][j] == bs[bi].push(e)[j]);
        }
    }
    assert forall|b1: int, i1: int, b2: int, i2: int|
        valid_pos(bs2, b1, i1) && valid_pos(bs2, b2, i2) && (b1 != b2 || i1 != i2)
        implies #[trigger] key_at(bs2, b1, i1) != #[trigger] key_at(bs2, b2, i2) by {
        if b1 == bi && i1 == m {
            assert(key_at(bs2, b2, i2) == key_at(bs, b2, i2));
            if key_at(bs, b2, i2) == kv {
                assert(contains_kv(bs, kv));
            }
        } else if b2 == bi && i2 == m {
            assert(key_at(bs2, b1, i1) == key_at(bs, b1, i1));
            if key_at(bs, b1, i1) == kv {
                assert(contains_kv(bs, kv));
            }
        } else {
            assert(key_at(bs2, b1, i1) == key_at(bs, b1, i1));
            assert(key_at(bs2, b2, i2) == key_at(bs, b2, i2));
        }
    }
    if placed(bs) && bucket_of::<K>(kv, bs.len() as int) == bi {
        assert forall|bj: int, j: int| valid_pos(bs2, bj, j) implies bucket_of::<K>(
            #[trigger] key_at(bs2, bj, j),
            bs2.len() as int,
        ) == bj by {
            if bj != bi || j != m {
                assert(key_at(bs2, bj, j) == key_at(bs, bj, j));
            }
        }
    }
    assert(bmap(bs2) =~= bmap(bs).insert(kv, e.1)) by {
        lemma_value_at(bs2, bi, m);
        assert forall|kv2: K::V| #[trigger] contains_kv(bs2, kv2) && kv2 != kv implies contains_kv(
            bs,
            kv2,
        ) && value_of(bs2, kv2) == value_of(bs, kv2) by {
            let p = choose|bj: int, j: int|
                valid_pos(bs2, bj, j) && #[trigger] key_at(bs2, bj, j) == kv2;
            assert(p.0 != bi || p.1 != m);
            assert(key_at(bs, p.0, p.1) == kv2);
            lemma_value_at(bs, p.0, p.1);
            lemma_value_at(bs2, p.0, p.1);
        }
        assert forall|kv2: K::V| #[trigger] contains_kv(bs, kv2) implies contains_kv(bs2, kv2) by {
            let p = choose|bj: int, j: int|
                valid_pos(bs, bj, j) && #[trigger] key_at(bs, bj, j) == kv2;
            if p.0 == bi {
                assert(bs2[p.0][p.1] == bs[bi].push(e)[p.1]);
            }
            assert(key_at(bs2, p.0, p.1) == kv2);
        }
    }
    lemma_count_update(bs, bi, bs[bi].push(e), bs.len() as int);
}

/// Removing the entry at `(bi, i)` by a swap with the bucket's last entry
/// removes exactly that entry's key.
proof fn lemma_swap_remove_entry<K: HashKey, V>(bs: Seq<Seq<(K, V)>>, bi: int, i: int)
    requires
        distinct(bs),
        valid_pos(bs, bi, i),
    ensures
        distinct(with_removed(bs, bi, i)),
        placed(bs) ==> placed(with_removed(bs, bi, i)),
        bmap(with_removed(bs, bi, i)) == bmap(bs).remove(key_at(bs, bi, i)),
        count(with_removed(bs, bi, i)) == count(bs) - 1,
        contains_kv(bs, key_at(bs, bi, i)),
        value_of(bs, key_at(bs, bi, i)) == val_at(bs, bi, i),
{
    let kv = key_at(bs, bi, i);
    let bs2 = with_removed(bs, bi, i);
    let m = bs[bi].len() - 1;
    lemma_value_at(bs, bi, i);
    assert(bs2[bi].len() == m);
    assert forall|bj: int, j: int|
        valid_pos(bs2, bj, j) implies {
        let sj: int = if bj == bi && j == i { m } else { j };
        valid_pos(bs, bj, sj) && (bj != bi || sj != i) && #[trigger] bs2[bj][j] == bs[bj][sj]
    } by {
        if bj == bi {
            if j == i {
                assert(bs2[bj][j] == bs[bi].update(i, bs[bi].last())[j]);
                assert(i < m);
            } else {
                assert(bs2[bj][j] == bs[bi].update(i, bs[bi].last())[j]);
            }
        }
    }
    assert forall|b1: int, i1: int, b2: int, i2: int|
        valid_pos(bs2, b1, i1) && valid_pos(bs2, b2, i2) && (b1 != b2 || i1 != i2)
        implies #[trigger] key_at(bs2, b1, i1) != #[trigger] key_at(bs2, b2, i2) by {
        let s1: int = if b1 == bi && i1 == i { m } else { i1 };
        let s2: int = if b2 == bi && i2 == i { m } else { i2 };
        assert(bs2[b1][i1] == bs[b1][s1]);
        assert(bs2[b2][i2] == bs[b2][s2]);
        assert(key_at(bs2, b1, i1) == key_at(bs, b1, s1));
        assert(key_at(bs2, b2, i2) == key_at(bs, b2, s2));
        assert(b1 != b2 || s1 != s2);
    }
    if placed(bs) {
        assert forall|bj: int, j: int| valid_pos(bs2, bj, j) implies bucket_of::<K>(
            #[trigger] key_at(bs2, bj, j),
            bs2.len() as int,
        ) == bj by {
            let sj: int = if bj == bi && j == i { m } else { j };
            assert(bs2[bj][j] == bs[bj][sj]);
            assert(key_at(bs2, bj, j) == key_at(bs, bj, sj));
        }
    }
    assert(bmap(bs2) =~= bmap(bs).remove(kv)) by {
        assert forall|kv2: K::V| #[trigger] contains_kv(bs2, kv2) implies kv2 != kv && contains_kv(
            bs,
            kv2,
        ) && value_of(bs2, kv2) == value_of(bs, kv2) by {
            let p = choose|bj: int, j: int|
                valid_pos(bs2, bj, j) && #[trigger] key_at(bs2, bj, j) == kv2;
            let sj: int = if p.0 == bi && p.1 == i { m } else { p.1 };
            assert(bs2[p.0][p.1] == bs[p.0][sj]);
            assert(key_at(bs, p.0, sj) == kv2);
            if kv2 == kv {
                assert(key_at(bs, p.0, sj) != key_at(bs, bi, i) || (p.0 == bi && sj == i));
                assert(false);
            }
            lemma_value_at(bs, p.0, sj);
            lemma_value_at(bs2, p.0, p.1);
            assert(val_at(bs2, p.0, p.1) == val_at(bs, p.0, sj));
        }
        assert forall|kv2: K::V| #[trigger] contains_kv(bs, kv2) && kv2 != kv implies contains_kv(
            bs2,
            kv2,
        ) by {
            let p = choose|bj: int, j: int|
                valid_pos(bs, bj, j) && #[trigger] key_at(bs, bj, j) == kv2;
            if p.0 != bi {
                assert(bs2[p.0][p.1] == bs[p.0][p.1]);
                assert(key_at(bs2, p.0, p.1) == kv2);
            } else {
                assert(p.1 != i);
                if p.1 == m {
                    assert(i < m);
                    assert(bs2[bi][i] == bs[bi][m]);
                    assert(key_at(bs2, bi, i) == kv2);
                } else {
                    assert(bs2[bi][p.1] == bs[bi][p.1]);
                    assert(key_at(bs2, p.0, p.1) == kv2);
                }
            }
        }
    }
    lemma_count_update(bs, bi, bs[bi].update(i, bs[bi].last()).drop_last(), bs.len() as int);
}

/// Replacing the entry at `(bi, i)` with one whose key has the same view
/// only changes the value stored under that key.
proof fn lemma_replace_entry<K: HashKey, V>(bs: Seq<Seq<(K, V)>>, bi: int, i: int, e: (K, V))
    requires
        distinct(bs),
        valid_pos(bs, bi, i),
        (e.0)@ == key_at(bs, bi, i),
    ensures
        distinct(with_replaced(bs, bi, i, e)),
        placed(bs) ==> placed(with_replaced(bs, bi, i, e)),
        bmap(with_replaced(bs, bi, i, e)) == bmap(bs).insert((e.0)@, e.1),
        count(with_replaced(bs, bi, i, e)) == count(bs),
        contains_kv(bs, (e.0)@),
        value_of(bs, (e.0)@) == val_at(bs, bi, i),
{
    let kv = (e.0)@;
    let bs2 = with_replaced(bs, bi, i, e);
    lemma_value_at(bs, bi, i);
    assert(bs2[bi][i] == e);
    assert forall|bj: int, j: int|
        valid_pos(bs2, bj, j) implies valid_pos(bs, bj, j) && key_at(bs2, bj, j) == key_at(
        bs,
        bj,
        j,
    ) && ((bj != bi || j != i) ==> bs2[bj][j] == bs[bj][j]) by {
        if bj == bi && j != i {
            assert(bs2[bj][j] == bs[bi].update(i, e)[j]);
        }
    }
    assert forall|b1: int, i1: int, b2: int, i2: int|
        valid_pos(bs2, b1, i1) && valid_pos(bs2, b2, i2) && (b1 != b2 || i1 != i2)
        implies #[trigger] key_at(bs2, b1, i1) != #[trigger] key_at(bs2, b2, i2) by {
        assert(key_at(bs2, b1, i1) == key_at(bs, b1, i1));
        assert(key_at(bs2, b2, i2) == key_at(bs, b2, i2));
    }
    if placed(bs) {
        assert forall|bj: int, j: int| valid_pos(bs2, bj, j) implies bucket_of::<K>(
            #[trigger] key_at(bs2, bj, j),
            bs2.len() as int,
        ) == bj by {
            assert(key_at(bs2, bj, j) == key_at(bs, bj, j));
        }
    }
    assert(bmap(bs2) =~= bmap(bs).insert(kv, e.1)) by {
        lemma_value_at(bs2, bi, i);
        assert(key_at(bs2, bi, i) == kv);
        assert forall|kv2: K::V| #[trigger] contains_kv(bs2, kv2) && kv2 != kv implies contains_kv(
            bs,
            kv2,
        ) && value_of(bs2, kv2) == value_of(bs, kv2) by {
            let p = choose|bj: int, j: int|
                valid_pos(bs2, bj, j) && #[trigger] key_at(bs2, bj, j) == kv2;
            assert(p.0 != bi || p.1 != i);
            assert(key_at(bs, p.0, p.1) == kv2);
            lemma_value_at(bs, p.0, p.1);
            lemma_value_at(bs2, p.0, p.1);
        }
        assert forall|kv2: K::V| #[trigger] contains_kv(bs, kv2) implies contains_kv(bs2, kv2) by {
            let p = choose|bj: int, j: int|
                valid_pos(bs, bj, j) && #[trigger] key_at(bs, bj, j) == kv2;
            assert(key_at(bs2, p.0, p.1) == kv2);
        }
    }
    lemma_count_update(bs, bi, bs[bi].update(i, e), bs.len() as int);
}

/// The first `n` buckets of an all-empty bucket array hold no entries.
proof fn lemma_count_upto_all_empty<K: HashKey, V>(bs: Seq<Seq<(K, V)>>, n: int)
    requires
        forall|j: int| 0 <= j < bs.len() ==> #[trigger] bs[j].len() == 0,
        n <= bs.len(),
    ensures
        count_upto(bs, n) == 0,
    decreases n,
{
    if n > 0 {
        lemma_count_upto_all_empty(bs, n - 1);
    }
}

/// An all-empty bucket array holds nothing.
proof fn lemma_all_empty<K: HashKey, V>(bs: Seq<Seq<(K, V)>>)
    requires
        forall|j: int| 0 <= j < bs.len() ==> #[trigger] bs[j].len() == 0,
    ensures
        placed(bs),
        distinct(bs),
        forall|kv: K::V| !contains_kv(bs, kv),
        bmap(bs) == Map::<K::V, V>::empty(),
        count(bs) == 0,
{
    assert forall|kv: K::V| !contains_kv(bs, kv) by {
        if contains_kv(bs, kv) {
            let p = choose|bi: int, i: int|
                valid_pos(bs, bi, i) && #[trigger] key_at(bs, bi, i) == kv;
            assert(bs[p.0].len() == 0);
        }
    }
    assert forall|bi: int, i: int| !valid_pos(bs, bi, i) by {
        if 0 <= bi < bs.len() {
            assert(bs[bi].len() == 0);
        }
    }
    assert(bmap(bs) =~= Map::<K::V, V>::empty());
    lemma_count_upto_all_empty(bs, bs.len() as int);
}

/// If a key is missing from the one bucket it hashes to, it is missing from
/// the whole map.
proof fn lemma_not_in_bucket<K: HashKey, V>(bs: Seq<Seq<(K, V)>>, kv: K::V)
    requires
        placed(bs),
        bs.len() > 0,
        forall|i: int| 0 <= i < bs[bucket_of::<K>(kv, bs.len() as int)].len()
            ==> #[trigger] key_at(bs, bucket_of::<K>(kv, bs.len() as int), i) != kv,
    ensures
        !contains_kv(bs, kv),
{
    let n = bs.len() as int;
    let b = bucket_of::<K>(kv, n);
    if contains_kv(bs, kv) {
        let p = choose|bi: int, i: int| valid_pos(bs, bi, i) && #[trigger] key_at(bs, bi, i) == kv;
        assert(bucket_of::<K>(key_at(bs, p.0, p.1), n) == p.0);
        assert(key_at(bs, b, p.1) != kv);
        assert(false);
    }
}

/// Scan a bucket for the first entry whose key has the given view.
fn find_in_bucket<K: HashKey, V, Q: BorrowedKey<K>>(b: &Vec<(K, V)>, key: &Q) -> (r: Option<
    usize,
>)
    ensures
        match r {
            Some(i) => i < b@.len() && (b@[i as int].0)@ == key@,
            None => forall|j: int| 0 <= j < b@.len() ==> (#[trigger] b@[j].0)@ != key@,
        },
{
    let mut i: usize = 0;
    while i < b.len()
        invariant
            i <= b@.len(),
            forall|j: int| 0 <= j < i ==> (#[trigger] b@[j].0)@ != key@,
        decreases b@.len() - i,
    {
        let p = &b[i];
        if key.eq_borrowed(&p.0) {
            return Some(i);
        }
        i += 1;
    }
    None
}

/// A key/value map over separate-chaining hash buckets.
pub struct HashMap<K: HashKey, V> {
    buckets: Vec<Vec<(K, V)>>,
    items: usize,
}

impl<K: HashKey, V> View for HashMap<K, V> {
    type V = Map<K::V, V>;

    /// The abstract content of the map: its stored keys, by view, and the
    /// value each one carries.
    closed spec fn view(&self) -> Map<K::V, V> {
        bmap(self.bseq())
    }
}

impl<K: HashKey, V> HashMap<K, V> {
    /// The bucket array, with each bucket as a sequence.
    spec fn bseq(self) -> Seq<Seq<(K, V)>> {
        bviews(self.buckets)
    }

    /// How many buckets the map currently has.
    pub closed spec fn bucket_count(self) -> int {
        self.bseq().len() as int
    }

    /// The internal invariant: entries sit in the buckets their keys hash
    /// to, no two entries share a key, and `items` counts every entry.
    pub closed spec fn well_formed(self) -> bool {
        &&& placed(self.bseq())
        &&& distinct(self.bseq())
        &&& self.items == count(self.bseq())
    }

    /// Create an empty map. No bucket is allocated until the first insert.
    pub fn new() -> (m: Self)
        ensures
            m.well_formed(),
            m@ == Map::<K::V, V>::empty(),
            m.bucket_count() == 0,
    {
        let m = HashMap { buckets: Vec::new(), items: 0 };
        proof {
            assert(m.bseq() =~= Seq::<Seq<(K, V)>>::empty());
            assert(m@ =~= Map::<K::V, V>::empty());
        }
        m
    }

    /// The number of stored entries, read from the maintained counter.
    pub fn len(&self) -> (n: usize)
        requires
            self.well_formed(),
        ensures
            n == self@.len(),
    {
        proof {
            lemma_bmap_len(self.bseq());
        }
        self.items
    }

    /// The bucket that a key belongs to, under the current bucket count.
    fn bucket<Q: BorrowedKey<K>>(&self, key: &Q) -> (bi: usize)
        requires
            self.well_formed(),
            self.bseq().len() > 0,
        ensures
            bi < self.bseq().len(),
            bi == bucket_of::<K>(key@, self.bseq().len() as int),
    {
        let h = key.hash_borrowed();
        let n = self.buckets.len();
        proof {
            assert(n > 0);
            assert(h % (n as u64) < (n as u64));
        }
        (h % (n as u64)) as usize
    }

    /// Grow the bucket array — to the initial size if there is none yet,
    /// doubling it otherwise — and move every entry into the bucket its key
    /// hashes to under the new count. The content is unchanged.
    fn resize(&mut self)
        requires
            old(self).well_formed(),
        ensures
            final(self).well_formed(),
            final(self)@ == old(self)@,
            final(self).bucket_count() == grown_bucket_count(old(self).bucket_count()),
            final(self).bseq().len() > 0,
            final(self).items == old(self).items,
    {
        let n = self.buckets.len();
        let target: usize = if n == 0 {
            INITIAL_NBUCKETS
        } else if n <= usize::MAX / 2 {
            n * 2
        } else {
            n
        };
        proof {
            assert(target as int == grown_bucket_count(self.bucket_count()));
        }
        let mut new_buckets: Vec<Vec<(K, V)>> = Vec::new();
        while new_buckets.len() < target
            invariant
                new_buckets@.len() <= target,
                forall|j: int| 0 <= j < new_buckets@.len() ==> #[trigger] new_buckets@[j]@.len()
                    == 0,
            decreases target - new_buckets@.len(),
        {
            new_buckets.push(Vec::new());
        }
        let ghost orig = old(self)@;
        let ghost total = old(self).items;
        let mut obs: Vec<Vec<(K, V)>> = Vec::new();
        core::mem::swap(&mut self.buckets, &mut obs);
        proof {
            let nbs = bviews(new_buckets);
            assert forall|j: int| 0 <= j < nbs.len() implies #[trigger] nbs[j].len() == 0 by {
                assert(nbs[j] == new_buckets@[j]@);
            }
            lemma_all_empty::<K, V>(nbs);
            assert(bviews(obs) == old(self).bseq());
            assert(orig =~= bmap(bviews(obs)).union_prefer_right(bmap(nbs)));
        }
        let mut bi: usize = 0;
        while bi < obs.len()
            invariant
                bi <= obs@.len(),
                target > 0,
                bviews(new_buckets).len() == target,
                placed(bviews(new_buckets)),
                distinct(bviews(new_buckets)),
                distinct(bviews(obs)),
                forall|kv: K::V|
                    !(contains_kv(bviews(obs), kv) && contains_kv(bviews(new_buckets), kv)),
                forall|j: int| 0 <= j < bi ==> #[trigger] bviews(obs)[j].len() == 0,
                orig == bmap(bviews(obs)).union_prefer_right(bmap(bviews(new_buckets))),
                count(bviews(obs)) + count(bviews(new_buckets)) == total,
            decreases obs@.len() - bi,
        {
            let ghost pre = bviews(obs);
            let mut b: Vec<(K, V)> = Vec::new();
            core::mem::swap(&mut obs[bi], &mut b);
            proof {
                assert(bviews(obs).update(bi as int, b@) =~= pre);
            }
            while b.len() > 0
                invariant
                    bi < obs@.len(),
                    target > 0,
                    bviews(new_buckets).len() == target,
                    placed(bviews(new_buckets)),
                    distinct(bviews(new_buckets)),
                    distinct(bviews(obs).update(bi as int, b@)),
                    forall|kv: K::V|
                        !(contains_kv(bviews(obs).update(bi as int, b@), kv) && contains_kv(
                            bviews(new_buckets),
                            kv,
                        )),
                    forall|j: int| 0 <= j < bi ==> #[trigger] bviews(obs).update(
                        bi as int,
                        b@,
                    )[j].len() == 0,
                    obs@[bi as int]@.len() == 0,
                    orig == bmap(bviews(obs).update(bi as int, b@)).union_prefer_right(
                        bmap(bviews(new_buckets)),
                    ),
                    count(bviews(obs).update(bi as int, b@)) + count(bviews(new_buckets))
                        == total,
                decreases b@.len(),
            {
                let ghost vbs0 = bviews(obs).update(bi as int, b@);
                let ghost nbs0 = bviews(new_buckets);
                let ghost m = b@.len() - 1;
                let e = b.pop().unwrap();
                proof {
                    assert(e == vbs0[bi as int].last());
                    assert(vbs0[bi as int].update(m, vbs0[bi as int].last()) =~= vbs0[bi as int]);
                    assert(bviews(obs).update(bi as int, b@) =~= with_removed(
                        vbs0,
                        bi as int,
                        m,
                    ));
                    lemma_swap_remove_entry(vbs0, bi as int, m);
                }
                let h = e.0.hash_key();
                let idx = (h % (target as u64)) as usize;
                proof {
                    assert(h % (target as u64) < (target as u64));
                    assert(idx as int == (h as int) % (target as int));
                    assert(bucket_of::<K>((e.0)@, target as int) == idx as int);
                    assert(key_at(vbs0, bi as int, m) == (e.0)@);
                    assert(contains_kv(vbs0, (e.0)@));
                    assert(!contains_kv(nbs0, (e.0)@));
                    lemma_push_entry(nbs0, idx as int, e);
                }
                let mut nb: Vec<(K, V)> = Vec::new();
                core::mem::swap(&mut new_buckets[idx], &mut nb);
                nb.push(e);
                core::mem::swap(&mut new_buckets[idx], &mut nb);
                proof {
                    let kv = (e.0)@;
                    let vbs1 = bviews(obs).update(bi as int, b@);
                    let nbs1 = bviews(new_buckets);
                    assert(nbs1 =~= with_pushed(nbs0, idx as int, e));
                    assert(bmap(vbs1) == bmap(vbs0).remove(kv));
                    assert(bmap(nbs1) == bmap(nbs0).insert(kv, e.1));
                    assert forall|kv2: K::V|
                        !(contains_kv(vbs1, kv2) && contains_kv(nbs1, kv2)) by {
                        assert(contains_kv(vbs1, kv2) == bmap(vbs1).dom().contains(kv2));
                        assert(contains_kv(nbs1, kv2) == bmap(nbs1).dom().contains(kv2));
                    }
                    assert(value_of(vbs0, kv) == e.1);
                    assert(orig == bmap(vbs1).union_prefer_right(bmap(nbs1))) by {
                        assert(bmap(vbs0).dom().contains(kv));
                        assert(orig.dom().contains(kv));
                        assert(orig[kv] == e.1);
                        assert(orig =~= bmap(vbs1).union_prefer_right(bmap(nbs1)));
                    }
                }
            }
            proof {
                assert(b@ =~= obs@[bi as int]@);
                assert(bviews(obs) =~= bviews(obs).update(bi as int, b@));
            }
            bi += 1;
        }
        proof {
            lemma_all_empty::<K, V>(bviews(obs));
            assert(orig =~= bmap(bviews(new_buckets)));
        }
        let ghost nbs_done = bviews(new_buckets);
        self.buckets = new_buckets;
        proof {
            assert(self.bseq() == nbs_done);
        }
    }

    /// Look up the value stored under a key, if any. The lookup key may be
    /// any borrowed form of the stored key type.
    pub fn get<Q: BorrowedKey<K>>(&self, key: &Q) -> (r: Option<&V>)
        requires
            self.well_formed(),
        ensures
            match r {
                Some(v) => self@.contains_key(key@) && *v == self@[key@],
                None => !self@.contains_key(key@),
            },
    {
        if self.buckets.len() == 0 {
            return None;
        }
        let bi = self.bucket(key);
        let b = &self.buckets[bi];
        proof {
            assert(self.bseq()[bi as int] == b@);
        }
        match find_in_bucket(b, key) {
            Some(i) => {
                proof {
                    assert(key_at(self.bseq(), bi as int, i as int) == key@);
                    lemma_value_at(self.bseq(), bi as int, i as int);
                }
                let p = &b[i];
                Some(&p.1)
            },
            None => {
                proof {
                    let bs = self.bseq();
                    let bidx = bi as int;
                    assert forall|j: int| 0 <= j < bs[bidx].len() implies #[trigger] key_at(
                        bs,
                        bidx,
                        j,
                    ) != key@ by {
                        assert((b@[j].0)@ != key@);
                    }
                    lemma_not_in_bucket(bs, key@);
                }
                None
            },
        }
    }

    /// Store `value` under `key`. If an entry with an equal key is already
    /// present, its value is replaced and the old value returned; otherwise
    /// a new entry is added. The bucket array grows first whenever it is
    /// empty or the stored items exceed three quarters of the bucket count.
    pub fn insert(&mut self, key: K, value: V) -> (prev: Option<V>)
        requires
            old(self).well_formed(),
            old(self)@.len() < usize::MAX,
        ensures
            final(self).well_formed(),
            final(self)@ == old(self)@.insert(key@, value),
            final(self)@.len() == old(self)@.len() + (if old(self)@.contains_key(key@) {
                0int
            } else {
                1int
            }),
            prev == (if old(self)@.contains_key(key@) {
                Some(old(self)@[key@])
            } else {
                None::<V>
            }),
            final(self).bucket_count() == (if old(self).bucket_count() == 0 || old(self)@.len()
                > 3 * old(self).bucket_count() / 4 {
                grown_bucket_count(old(self).bucket_count())
            } else {
                old(self).bucket_count()
            }),
    {
        proof {
            lemma_bmap_len(self.bseq());
        }
        if self.buckets.len() == 0 || (self.items as u128) > 3u128 * (self.buckets.len() as u128)
            / 4 {
            self.resize();
        }
        let bi = self.bucket(&key);
        let ghost bs0 = self.bseq();
        let ghost kv = key@;
        proof {
            lemma_bmap_len(bs0);
        }
        let r = find_in_bucket(&self.buckets[bi], &key);
        match r {
            Some(i) => {
                proof {
                    assert(key_at(bs0, bi as int, i as int) == kv);
                }
                let mut b: Vec<(K, V)> = Vec::new();
                core::mem::swap(&mut self.buckets[bi], &mut b);
                let mut pair = (key, value);
                let ghost e = pair;
                core::mem::swap(&mut b[i], &mut pair);
                core::mem::swap(&mut self.buckets[bi], &mut b);
                proof {
                    lemma_replace_entry(bs0, bi as int, i as int, e);
                    assert(self.bseq() =~= with_replaced(bs0, bi as int, i as int, e));
                    assert(pair == bs0[bi as int][i as int]);
                    assert(bmap(bs0).dom().insert(kv) =~= bmap(bs0).dom());
                }
                let (_replaced_key, old_value) = pair;
                Some(old_value)
            },
            None => {
                proof {
                    let bidx = bi as int;
                    assert forall|j: int| 0 <= j < bs0[bidx].len() implies #[trigger] key_at(
                        bs0,
                        bidx,
                        j,
                    ) != kv by {
                        assert((self.buckets@[bidx]@[j].0)@ != kv);
                    }
                    lemma_not_in_bucket(bs0, kv);
                }
                let mut b: Vec<(K, V)> = Vec::new();
                core::mem::swap(&mut self.buckets[bi], &mut b);
                let ghost e = (key, value);
                b.push((key, value));
                core::mem::swap(&mut self.buckets[bi], &mut b);
                proof {
                    lemma_push_entry(bs0, bi as int, e);
                    assert(self.bseq() =~= with_pushed(bs0, bi as int, e));
                }
                self.items = self.items + 1;
                None
            },
        }
    }

    /// Take the entry stored under a key out of the map, returning its
    /// value. Absence is reported as `None`, with the map left untouched.
    /// The lookup key may be any borrowed form of the stored key type.
    pub fn remove<Q: BorrowedKey<K>>(&mut self, key: &Q) -> (removed: Option<V>)
        requires
            old(self).well_formed(),
        ensures
            final(self).well_formed(),
            final(self)@ == old(self)@.remove(key@),
            final(self)@.len() == old(self)@.len() - (if old(self)@.contains_key(key@) {
                1int
            } else {
                0int
            }),
            removed == (if old(self)@.contains_key(key@) {
                Some(old(self)@[key@])
            } else {
                None::<V>
            }),
            !old(self)@.contains_key(key@) ==> *final(self) == *old(self),
    {
        if self.buckets.len() == 0 {
            proof {
                if contains_kv(self.bseq(), key@) {
                    let p = choose|bj: int, j: int|
                        valid_pos(self.bseq(), bj, j) && #[trigger] key_at(self.bseq(), bj, j)
                            == key@;
                }
                assert(old(self)@.remove(key@) =~= old(self)@);
            }
            return None;
        }
        let bi = self.bucket(key);
        let ghost bs0 = self.bseq();
        let ghost kv = key@;
        proof {
            lemma_bmap_len(bs0);
        }
        match find_in_bucket(&self.buckets[bi], key) {
            Some(i) => {
                proof {
                    assert(key_at(bs0, bi as int, i as int) == kv);
                    lemma_swap_remove_entry(bs0, bi as int, i as int);
                    assert(bmap(bs0).dom().remove(kv) =~= bmap(with_removed(
                        bs0,
                        bi as int,
                        i as int,
                    )).dom());
                    if self.items == 0 {
                        assert(bmap(bs0).len() == 0);
                        assert(bmap(bs0).dom() =~= Set::<K::V>::empty()) by {
                            bmap(bs0).dom().lemma_len0_is_empty();
                        }
                        assert(false);
                    }
                }
                let mut b: Vec<(K, V)> = Vec::new();
                core::mem::swap(&mut self.buckets[bi], &mut b);
                let e = b.swap_remove(i);
                core::mem::swap(&mut self.buckets[bi], &mut b);
                self.items = self.items - 1;
                proof {
                    assert(self.bseq() =~= with_removed(bs0, bi as int, i as int));
                }
                let (_removed_key, removed_value) = e;
                Some(removed_value)
            },
            None => {
                proof {
                    let bidx = bi as int;
                    assert forall|j: int| 0 <= j < bs0[bidx].len() implies #[trigger] key_at(
                        bs0,
                        bidx,
                        j,
                    ) != kv by {
                        assert((self.buckets@[bidx]@[j].0)@ != kv);
                    }
                    lemma_not_in_bucket(bs0, kv);
                    assert(old(self)@.remove(kv) =~= old(self)@);
                }
                None
            },
        }
    }

    /// Whether the map stores an entry under the given key. The lookup key
    /// may be any borrowed form of the stored key type.
    pub fn contains_key<Q: BorrowedKey<K>>(&self, key: &Q) -> (r: bool)
        requires
            self.well_formed(),
        ensures
            r == self@.contains_key(key@),
    {
        self.get(key).is_some()
    }

    /// Whether the map holds no entry.
    pub fn is_empty(&self) -> (r: bool)
        requires
            self.well_formed(),
        ensures
            r == (self@.len() == 0),
    {
        proof {
            lemma_bmap_len(self.bseq());
        }
        self.items == 0
    }
}

/// The entries of `bs` from position `(bi, at)` on, bucket-major: the rest
/// of bucket `bi`, then every later bucket in full.
spec fn suffix_pairs<K: HashKey, V>(bs: Seq<Seq<(K, V)>>, bi: int, at: int) -> Seq<(K, V)>
    decreases bs.len() - bi,
{
    if bi < 0 || bi >= bs.len() {
        Seq::empty()
    } else {
        bs[bi].skip(at) + suffix_pairs(bs, bi + 1, 0)
    }
}

/// `suffix_pairs(bs, bi, at)` holds everything stored, minus what lies
/// before position `(bi, at)`.
proof fn lemma_suffix_len<K: HashKey, V>(bs: Seq<Seq<(K, V)>>, bi: int, at: int)
    requires
        0 <= bi <= bs.len(),
        bi < bs.len() ==> 0 <= at <= bs[bi].len(),
        bi == bs.len() ==> at == 0,
    ensures
        suffix_pairs(bs, bi, at).len() + count_upto(bs, bi) + at == count(bs),
    decreases bs.len() - bi,
{
    if bi < bs.len() {
        lemma_suffix_len(bs, bi + 1, 0);
        assert(count_upto(bs, bi + 1) == count_upto(bs, bi) + bs[bi].len());
    }
}

/// Whether `e` occurs in the entry sequence `s`.
spec fn entry_in<K: HashKey, V>(s: Seq<(K, V)>, e: (K, V)) -> bool {
    exists|idx: int| 0 <= idx < s.len() && s[idx] == e
}

/// Whether some entry of the sequence `s` holds a key with view `kv`.
spec fn key_in<K: HashKey, V>(s: Seq<(K, V)>, kv: K::V) -> bool {
    exists|idx: int| 0 <= idx < s.len() && ((#[trigger] s[idx]).0)@ == kv
}

/// Every entry of `suffix_pairs(bs, bi, at)` is stored in the map with its
/// key hashing to bucket `bi` or later, no key view repeats among them, and
/// every entry at or after position `(bi, at)` appears among them.
proof fn lemma_suffix_pairs<K: HashKey, V>(bs: Seq<Seq<(K, V)>>, bi: int, at: int)
    requires
        placed(bs),
        distinct(bs),
        0 <= bi <= bs.len(),
        bi < bs.len() ==> 0 <= at <= bs[bi].len(),
        bi == bs.len() ==> at == 0,
    ensures
        forall|idx: int|
            0 <= idx < suffix_pairs(bs, bi, at).len() ==> {
                let kv = ((#[trigger] suffix_pairs(bs, bi, at)[idx]).0)@;
                contains_kv(bs, kv) && value_of(bs, kv) == suffix_pairs(bs, bi, at)[idx].1
                    && bucket_of::<K>(kv, bs.len() as int) >= bi
            },
        forall|i1: int, i2: int|
            0 <= i1 < i2 < suffix_pairs(bs, bi, at).len() ==> ((#[trigger] suffix_pairs(
                bs,
                bi,
                at,
            )[i1]).0)@ != ((#[trigger] suffix_pairs(bs, bi, at)[i2]).0)@,
        forall|kv: K::V|
            contains_kv(bs, kv) && bucket_of::<K>(kv, bs.len() as int) > bi ==> key_in(
                suffix_pairs(bs, bi, at),
                kv,
            ),
        forall|bj: int, j: int|
            valid_pos(bs, bj, j) && bj == bi && at <= j ==> entry_in(
                suffix_pairs(bs, bi, at),
                #[trigger] bs[bj][j],
            ),
    decreases bs.len() - bi,
{
    let s = suffix_pairs(bs, bi, at);
    let n = bs.len() as int;
    if bi == bs.len() {
        assert forall|kv: K::V|
            contains_kv(bs, kv) && bucket_of::<K>(kv, n) > bi implies key_in(s, kv) by {
            let p = choose|bj: int, j: int|
                valid_pos(bs, bj, j) && #[trigger] key_at(bs, bj, j) == kv;
            assert(bucket_of::<K>(key_at(bs, p.0, p.1), n) == p.0);
            assert(false);
        }
    } else {
        let head = bs[bi].skip(at);
        let rest = suffix_pairs(bs, bi + 1, 0);
        lemma_suffix_pairs(bs, bi + 1, 0);
        assert forall|idx: int| 0 <= idx < s.len() implies {
            let kv = ((#[trigger] s[idx]).0)@;
            contains_kv(bs, kv) && value_of(bs, kv) == s[idx].1 && bucket_of::<K>(kv, n) >= bi
        } by {
            if idx < head.len() {
                assert(s[idx] == bs[bi][at + idx]);
                lemma_value_at(bs, bi, at + idx);
                assert(bucket_of::<K>(key_at(bs, bi, at + idx), n) == bi);
            } else {
                assert(s[idx] == rest[idx - head.len()]);
            }
        }
        assert forall|i1: int, i2: int|
            0 <= i1 < i2 < s.len() implies ((#[trigger] s[i1]).0)@ != ((#[trigger] s[i2]).0)@ by {
            if i2 < head.len() {
                assert(s[i1] == bs[bi][at + i1]);
                assert(s[i2] == bs[bi][at + i2]);
                assert(key_at(bs, bi, at + i1) != key_at(bs, bi, at + i2));
            } else if i1 >= head.len() {
                assert(s[i1] == rest[i1 - head.len()]);
                assert(s[i2] == rest[i2 - head.len()]);
            } else {
                assert(s[i1] == bs[bi][at + i1]);
                assert(s[i2] == rest[i2 - head.len()]);
                assert(bucket_of::<K>(key_at(bs, bi, at + i1), n) == bi);
                assert(bucket_of::<K>(((rest[i2 - head.len()]).0)@, n) >= bi + 1);
            }
        }
        assert forall|kv: K::V|
            contains_kv(bs, kv) && bucket_of::<K>(kv, n) > bi implies key_in(s, kv) by {
            if bucket_of::<K>(kv, n) > bi + 1 {
                assert(key_in(rest, kv));
                let ridx = choose|ridx: int|
                    0 <= ridx < rest.len() && ((#[trigger] rest[ridx]).0)@ == kv;
                assert(s[head.len() + ridx] == rest[ridx]);
                assert(((s[head.len() + ridx]).0)@ == kv);
            } else {
                let p = choose|bj: int, j: int|
                    valid_pos(bs, bj, j) && #[trigger] key_at(bs, bj, j) == kv;
                assert(bucket_of::<K>(key_at(bs, p.0, p.1), n) == p.0);
                assert(p.0 == bi + 1);
                assert(entry_in(rest, bs[p.0][p.1]));
                let ridx = choose|ridx: int|
                    0 <= ridx < rest.len() && rest[ridx] == bs[p.0][p.1];
                assert(s[head.len() + ridx] == rest[ridx]);
                assert(((s[head.len() + ridx]).0)@ == kv);
            }
        }
        assert forall|bj: int, j: int|
            valid_pos(bs, bj, j) && bj == bi && at <= j implies entry_in(s, bs[bj][j]) by {
            assert(s[j - at] == head[j - at]);
            assert(head[j - at] == bs[bi][j]);
        }
    }
}

impl<K: HashKey, V> HashMap<K, V> {
    /// The sequence of entries an iteration yields: bucket-major, within a
    /// bucket in storage order.
    pub closed spec fn pairs(self) -> Seq<(K, V)> {
        suffix_pairs(self.bseq(), 0, 0)
    }

    /// Begin an iteration over the map's entries.
    pub fn iter<'a>(&'a self) -> (it: Iter<'a, K, V>)
        requires
            self.well_formed(),
        ensures
            it.well_formed(),
            it.remaining() == self.pairs(),
    {
        Iter { map: self, bucket: 0, at: 0 }
    }

    /// Iteration yields exactly the map's content: one pair per stored key,
    /// each carrying the value that a lookup of its key returns, with no
    /// duplicate, no omission, and no stray entry — however many resizes
    /// the map has been through.
    pub proof fn lemma_pairs_match_content(self)
        requires
            self.well_formed(),
        ensures
            self.pairs().len() == self@.len(),
            forall|idx: int|
                0 <= idx < self.pairs().len() ==> self@.contains_key(
                    ((#[trigger] self.pairs()[idx]).0)@,
                ) && self@[(self.pairs()[idx].0)@] == self.pairs()[idx].1,
            forall|i1: int, i2: int|
                0 <= i1 < i2 < self.pairs().len() ==> ((#[trigger] self.pairs()[i1]).0)@ != ((
                #[trigger] self.pairs()[i2]).0)@,
            forall|kv: K::V|
                self@.contains_key(kv) ==> exists|idx: int|
                    0 <= idx < self.pairs().len() && ((#[trigger] self.pairs()[idx]).0)@ == kv,
    {
        let bs = self.bseq();
        let s = self.pairs();
        let n = bs.len() as int;
        lemma_suffix_len(bs, 0, 0);
        lemma_suffix_pairs(bs, 0, 0);
        lemma_bmap_len(bs);
        assert forall|kv: K::V| self@.contains_key(kv) implies exists|idx: int|
            0 <= idx < s.len() && ((#[trigger] s[idx]).0)@ == kv by {
            let p = choose|bj: int, j: int|
                valid_pos(bs, bj, j) && #[trigger] key_at(bs, bj, j) == kv;
            assert(bucket_of::<K>(key_at(bs, p.0, p.1), n) == p.0);
            if p.0 > 0 {
                assert(key_in(s, kv));
                let idx = choose|idx: int|
                    0 <= idx < s.len() && ((#[trigger] s[idx]).0)@ == kv;
                assert(((s[idx]).0)@ == kv);
            } else {
                assert(entry_in(s, bs[p.0][p.1]));
                let idx = choose|idx: int| 0 <= idx < s.len() && s[idx] == bs[p.0][p.1];
                assert(((s[idx]).0)@ == kv);
            }
        }
    }
}

/// A cursor over a map's buckets, yielding each stored pair once, borrowed
/// from the map.
pub struct Iter<'a, K: HashKey, V> {
    map: &'a HashMap<K, V>,
    bucket: usize,
    at: usize,
}

impl<'a, K: HashKey, V> Iter<'a, K, V> {
    /// The cursor points at a position of, or just past, a well-formed map.
    pub closed spec fn well_formed(self) -> bool {
        &&& self.map.well_formed()
        &&& self.bucket <= self.map.bseq().len()
        &&& (self.bucket < self.map.bseq().len() ==> self.at
            <= self.map.bseq()[self.bucket as int].len())
        &&& (self.bucket == self.map.bseq().len() ==> self.at == 0)
    }

    /// The entries not yet yielded.
    pub closed spec fn remaining(self) -> Seq<(K, V)> {
        suffix_pairs(self.map.bseq(), self.bucket as int, self.at as int)
    }

    /// Yield the next stored pair, or `None` once every pair has been
    /// yielded.
    pub fn next(&mut self) -> (r: Option<(&'a K, &'a V)>)
        requires
            old(self).well_formed(),
        ensures
            final(self).well_formed(),
            match r {
                Some(p) => old(self).remaining().len() > 0 && final(self).remaining() == old(
                    self,
                ).remaining().drop_first() && (*p.0, *p.1) == old(self).remaining()[0],
                None => old(self).remaining().len() == 0 && final(self).remaining() == old(
                    self,
                ).remaining(),
            },
    {
        let map: &'a HashMap<K, V> = self.map;
        let ghost bs = map.bseq();
        while self.bucket < map.buckets.len()
            invariant
                self.map == map,
                bs == map.bseq(),
                self.well_formed(),
                self.remaining() == old(self).remaining(),
            decreases bs.len() - self.bucket,
        {
            let b = &map.buckets[self.bucket];
            proof {
                assert(bs[self.bucket as int] == b@);
            }
            if self.at < b.len() {
                let ghost bi = self.bucket as int;
                let ghost at = self.at as int;
                let p = &b[self.at];
                self.at = self.at + 1;
                proof {
                    let head = bs[bi].skip(at);
                    assert(head[0] == bs[bi][at]);
                    assert(suffix_pairs(bs, bi, at)[0] == bs[bi][at]);
                    assert(suffix_pairs(bs, bi, at + 1) =~= suffix_pairs(
                        bs,
                        bi,
                        at,
                    ).drop_first()) by {
                        assert(bs[bi].skip(at + 1) =~= bs[bi].skip(at).drop_first());
                    }
                }
                return Some((&p.0, &p.1));
            }
            proof {
                let bi = self.bucket as int;
                assert(bs[bi].skip(self.at as int) =~= Seq::<(K, V)>::empty());
                assert(suffix_pairs(bs, bi, self.at as int) =~= suffix_pairs(bs, bi + 1, 0));
            }
            self.bucket = self.bucket + 1;
            self.at = 0;
        }
        None
    }
}

} // verus!
