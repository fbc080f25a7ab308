//! The mathematical model of a bucket store: a sequence of buckets, each a
//! sequence of key/value pairs, together with the `Map` it denotes and the
//! lemmas that track that `Map` through every mutation a container performs
//! (appending a pair, replacing a value, swap-removing a pair, draining).

use vstd::prelude::*;

use crate::key::{MapKey, QueryKey};

verus! {

/// The bucket a hash routes to, under `n` buckets.
pub open spec fn slot_of(h: u64, n: int) -> int {
    h as int % n
}

/// Whether `(i, j)` addresses a stored pair.
pub open spec fn valid_at<K: MapKey, V>(bs: Seq<Seq<(K, V)>>, i: int, j: int) -> bool {
    0 <= i < bs.len() && 0 <= j < bs[i].len()
}

/// The abstract value of the key stored at `(i, j)`.
pub open spec fn key_at<K: MapKey, V>(bs: Seq<Seq<(K, V)>>, i: int, j: int) -> K::V {
    bs[i][j].0@
}

/// Whether some stored pair has abstract key `a`.
pub open spec fn has_key<K: MapKey, V>(bs: Seq<Seq<(K, V)>>, a: K::V) -> bool {
    exists|p: (int, int)| #[trigger] valid_at(bs, p.0, p.1) && key_at(bs, p.0, p.1) == a
}

/// The value stored under abstract key `a` (meaningful when `has_key`).
pub open spec fn val_of<K: MapKey, V>(bs: Seq<Seq<(K, V)>>, a: K::V) -> V {
    let p = choose|p: (int, int)| #[trigger] valid_at(bs, p.0, p.1) && key_at(bs, p.0, p.1) == a;
    bs[p.0][p.1].1
}

/// The map a bucket store denotes.
pub open spec fn to_map<K: MapKey, V>(bs: Seq<Seq<(K, V)>>) -> Map<K::V, V> {
    Map::new(|a: K::V| has_key(bs, a), |a: K::V| val_of(bs, a))
}

/// No two stored pairs share an abstract key.
pub open spec fn all_distinct<K: MapKey, V>(bs: Seq<Seq<(K, V)>>) -> bool {
    forall|i1: int, j1: int, i2: int, j2: int|
        valid_at(bs, i1, j1) && valid_at(bs, i2, j2) && (i1 != i2 || j1 != j2) ==> #[trigger] key_at(
            bs,
            i1,
            j1,
        ) != #[trigger] key_at(bs, i2, j2)
}

/// Every stored pair sits in the bucket its key's hash routes to.
pub open spec fn routed<K: MapKey, V>(bs: Seq<Seq<(K, V)>>, n: int) -> bool {
    forall|i: int, j: int| #[trigger] valid_at(bs, i, j) ==> slot_of(bs[i][j].0.hash_spec(), n) == i
}

/// A pair stored at `(i, j)` is what the denoted map yields for its key.
pub proof fn lemma_lookup<K: MapKey, V>(bs: Seq<Seq<(K, V)>>, i: int, j: int)
    requires
        all_distinct(bs),
        valid_at(bs, i, j),
    ensures
        to_map(bs).contains_key(key_at(bs, i, j)),
        to_map(bs)[key_at(bs, i, j)] == bs[i][j].1,
{
    let a = key_at(bs, i, j);
    assert(has_key(bs, a)) by {
        let p = (i, j);
        assert(valid_at(bs, p.0, p.1) && key_at(bs, p.0, p.1) == a);
    }
    let p = choose|p: (int, int)| #[trigger] valid_at(bs, p.0, p.1) && key_at(bs, p.0, p.1) == a;
    assert(p.0 == i && p.1 == j);
}

/// A key missing from the bucket it routes to is missing from the whole
/// store: any pair holding it elsewhere would be routed to that bucket.
pub proof fn lemma_bucket_miss<K: MapKey, V>(bs: Seq<Seq<(K, V)>>, n: int, k: K)
    requires
        routed(bs, n),
        n == bs.len(),
        n > 0,
        forall|j: int|
            0 <= j < bs[slot_of(k.hash_spec(), n)].len() ==> #[trigger] bs[slot_of(
                k.hash_spec(),
                n,
            )][j].0@ != k@,
    ensures
        !has_key(bs, k@),
        !to_map(bs).contains_key(k@),
{
    let b = slot_of(k.hash_spec(), n);
    if has_key(bs, k@) {
        let p = choose|p: (int, int)| #[trigger] valid_at(bs, p.0, p.1) && key_at(bs, p.0, p.1)
            == k@;
        bs[p.0][p.1].0.lemma_hash_congruent(k);
        assert(slot_of(bs[p.0][p.1].0.hash_spec(), n) == p.0);
        assert(bs[b][p.1].0@ != k@);
    }
}

/// As `lemma_bucket_miss`, for a borrowed-form query: a query missing from
/// the bucket its hash routes to stands for no stored key at all.
pub proof fn lemma_bucket_miss_q<K: MapKey, V, Q: QueryKey<K>>(bs: Seq<Seq<(K, V)>>, n: int, q: Q)
    requires
        routed(bs, n),
        n == bs.len(),
        n > 0,
        forall|j: int|
            0 <= j < bs[slot_of(q.query_hash(), n)].len() ==> #[trigger] bs[slot_of(
                q.query_hash(),
                n,
            )][j].0@ != q.query_abs(),
    ensures
        !has_key(bs, q.query_abs()),
        !to_map(bs).contains_key(q.query_abs()),
{
    let b = slot_of(q.query_hash(), n);
    if has_key(bs, q.query_abs()) {
        let p = choose|p: (int, int)| #[trigger] valid_at(bs, p.0, p.1) && key_at(bs, p.0, p.1)
            == q.query_abs();
        q.lemma_query_hash(bs[p.0][p.1].0);
        assert(slot_of(bs[p.0][p.1].0.hash_spec(), n) == p.0);
        assert(bs[b][p.1].0@ != q.query_abs());
    }
}

/// Appending a pair with a fresh key to bucket `b` inserts it into the
/// denoted map and keeps keys pairwise distinct.
pub proof fn lemma_push<K: MapKey, V>(bs: Seq<Seq<(K, V)>>, b: int, p: (K, V))
    requires
        all_distinct(bs),
        0 <= b < bs.len(),
        !has_key(bs, p.0@),
    ensures
        ({
            let bs2 = bs.update(b, bs[b].push(p));
            &&& all_distinct(bs2)
            &&& to_map(bs2) == to_map(bs).insert(p.0@, p.1)
        }),
{
    let bs2 = bs.update(b, bs[b].push(p));
    let a0 = p.0@;
    let m = bs[b].len() as int;
    assert forall|i: int, j: int| valid_at(bs2, i, j) implies (i == b && j == m) || (valid_at(
        bs,
        i,
        j,
    ) && bs2[i][j] == bs[i][j]) by {}
    assert forall|i: int, j: int| valid_at(bs, i, j) implies valid_at(bs2, i, j) && bs2[i][j]
        == bs[i][j] by {}
    assert(valid_at(bs2, b, m) && bs2[b][m] == p);
    assert forall|i: int, j: int|
        valid_at(bs, i, j) implies #[trigger] key_at(bs, i, j) != a0 by {
        if key_at(bs, i, j) == a0 {
            let q = (i, j);
            assert(valid_at(bs, q.0, q.1) && key_at(bs, q.0, q.1) == a0);
        }
    }
    assert(all_distinct(bs2)) by {
        assert forall|i1: int, j1: int, i2: int, j2: int|
            valid_at(bs2, i1, j1) && valid_at(bs2, i2, j2) && (i1 != i2 || j1 != j2)
                implies #[trigger] key_at(bs2, i1, j1) != #[trigger] key_at(bs2, i2, j2) by {
            if i1 == b && j1 == m {
                assert(key_at(bs2, i2, j2) == key_at(bs, i2, j2));
            } else if i2 == b && j2 == m {
                assert(key_at(bs2, i1, j1) == key_at(bs, i1, j1));
            } else {
                assert(key_at(bs2, i1, j1) == key_at(bs, i1, j1));
                assert(key_at(bs2, i2, j2) == key_at(bs, i2, j2));
            }
        }
    }
    assert forall|a: K::V| #[trigger] has_key(bs2, a) implies has_key(bs, a) || a == a0 by {
        let q = choose|q: (int, int)| #[trigger] valid_at(bs2, q.0, q.1) && key_at(bs2, q.0, q.1)
            == a;
        if !(q.0 == b && q.1 == m) {
            assert(valid_at(bs, q.0, q.1) && key_at(bs, q.0, q.1) == a);
        }
    }
    assert forall|a: K::V| has_key(bs, a) implies #[trigger] has_key(bs2, a) by {
        let q = choose|q: (int, int)| #[trigger] valid_at(bs, q.0, q.1) && key_at(bs, q.0, q.1)
            == a;
        assert(valid_at(bs2, q.0, q.1) && key_at(bs2, q.0, q.1) == a);
    }
    assert(has_key(bs2, a0)) by {
        let q = (b, m);
        assert(valid_at(bs2, q.0, q.1) && key_at(bs2, q.0, q.1) == a0);
    }
    assert forall|a: K::V| #[trigger] has_key(bs2, a) implies to_map(bs2)[a] == to_map(bs).insert(
        a0,
        p.1,
    )[a] by {
        if a == a0 {
            lemma_lookup(bs2, b, m);
        } else {
            let q = choose|q: (int, int)| #[trigger] valid_at(bs, q.0, q.1) && key_at(bs, q.0, q.1)
                == a;
            lemma_lookup(bs, q.0, q.1);
            lemma_lookup(bs2, q.0, q.1);
        }
    }
    assert(to_map(bs2) =~= to_map(bs).insert(a0, p.1));
}

/// Replacing the value stored at `(b, j)` while keeping its key updates the
/// denoted map at exactly that key.
pub proof fn lemma_set_val<K: MapKey, V>(bs: Seq<Seq<(K, V)>>, b: int, j: int, w: V)
    requires
        all_distinct(bs),
        valid_at(bs, b, j),
    ensures
        ({
            let bs2 = bs.update(b, bs[b].update(j, (bs[b][j].0, w)));
            &&& all_distinct(bs2)
            &&& to_map(bs2) == to_map(bs).insert(key_at(bs, b, j), w)
        }),
{
    let bs2 = bs.update(b, bs[b].update(j, (bs[b][j].0, w)));
    let a0 = key_at(bs, b, j);
    assert forall|i: int, t: int| valid_at(bs2, i, t) implies valid_at(bs, i, t) && key_at(
        bs2,
        i,
        t,
    ) == key_at(bs, i, t) && (!(i == b && t == j) ==> bs2[i][t] == bs[i][t]) by {}
    assert forall|i: int, t: int| valid_at(bs, i, t) implies valid_at(bs2, i, t) by {}
    assert(bs2[b][j] == (bs[b][j].0, w));
    assert(all_distinct(bs2));
    assert forall|a: K::V| #[trigger] has_key(bs2, a) implies has_key(bs, a) by {
        let q = choose|q: (int, int)| #[trigger] valid_at(bs2, q.0, q.1) && key_at(bs2, q.0, q.1)
            == a;
        assert(valid_at(bs, q.0, q.1) && key_at(bs, q.0, q.1) == a);
    }
    assert forall|a: K::V| has_key(bs, a) implies #[trigger] has_key(bs2, a) by {
        let q = choose|q: (int, int)| #[trigger] valid_at(bs, q.0, q.1) && key_at(bs, q.0, q.1)
            == a;
        assert(valid_at(bs2, q.0, q.1) && key_at(bs2, q.0, q.1) == a);
    }
    assert(has_key(bs, a0)) by {
        let q = (b, j);
        assert(valid_at(bs, q.0, q.1) && key_at(bs, q.0, q.1) == a0);
    }
    assert forall|a: K::V| #[trigger] has_key(bs2, a) implies to_map(bs2)[a] == to_map(bs).insert(
        a0,
        w,
    )[a] by {
        if a == a0 {
            lemma_lookup(bs2, b, j);
        } else {
            let q = choose|q: (int, int)| #[trigger] valid_at(bs, q.0, q.1) && key_at(bs, q.0, q.1)
                == a;
            assert(!(q.0 == b && q.1 == j));
            lemma_lookup(bs, q.0, q.1);
            lemma_lookup(bs2, q.0, q.1);
        }
    }
    assert(to_map(bs2) =~= to_map(bs).insert(a0, w));
}

/// Swap-removing the pair at `(b, j)` (the last pair of the bucket moves
/// into its place) removes exactly its key from the denoted map.
pub proof fn lemma_swap_remove<K: MapKey, V>(bs: Seq<Seq<(K, V)>>, b: int, j: int)
    requires
        all_distinct(bs),
        valid_at(bs, b, j),
    ensures
        ({
            let bs2 = bs.update(b, bs[b].update(j, bs[b].last()).drop_last());
            &&& all_distinct(bs2)
            &&& to_map(bs2) == to_map(bs).remove(key_at(bs, b, j))
            &&& !has_key(bs2, key_at(bs, b, j))
        }),
{
    let bs2 = bs.update(b, bs[b].update(j, bs[b].last()).drop_last());
    let a0 = key_at(bs, b, j);
    let m = bs[b].len() - 1;
    assert forall|i: int, t: int| valid_at(bs2, i, t) implies valid_at(bs, i, t) && (if i == b && t
        == j {
        bs2[i][t] == bs[b][m]
    } else {
        bs2[i][t] == bs[i][t]
    }) by {}
    // every pair of bs2 is a pair of bs at a position other than (b, j)
    assert forall|i: int, t: int| valid_at(bs2, i, t) implies exists|i9: int, t9: int|
        valid_at(bs, i9, t9) && !(i9 == b && t9 == j) && #[trigger] bs2[i][t] == bs[i9][t9] by {
        if i == b && t == j {
            assert(valid_at(bs, b, m) && !(b == b && m == j) && bs2[i][t] == bs[b][m]);
        } else {
            assert(valid_at(bs, i, t) && !(i == b && t == j) && bs2[i][t] == bs[i][t]);
        }
    }
    assert(all_distinct(bs2)) by {
        assert forall|i1: int, j1: int, i2: int, j2: int|
            valid_at(bs2, i1, j1) && valid_at(bs2, i2, j2) && (i1 != i2 || j1 != j2)
                implies #[trigger] key_at(bs2, i1, j1) != #[trigger] key_at(bs2, i2, j2) by {
            if i1 == b && j1 == j {
                assert(key_at(bs2, i1, j1) == key_at(bs, b, m));
                assert(key_at(bs2, i2, j2) == key_at(bs, i2, j2));
                assert(!(i2 == b && j2 == m));
            } else if i2 == b && j2 == j {
                assert(key_at(bs2, i2, j2) == key_at(bs, b, m));
                assert(key_at(bs2, i1, j1) == key_at(bs, i1, j1));
                assert(!(i1 == b && j1 == m));
            } else {
                assert(key_at(bs2, i1, j1) == key_at(bs, i1, j1));
                assert(key_at(bs2, i2, j2) == key_at(bs, i2, j2));
            }
        }
    }
    assert forall|a: K::V| #[trigger] has_key(bs2, a) implies has_key(bs, a) && a != a0 by {
        let q = choose|q: (int, int)| #[trigger] valid_at(bs2, q.0, q.1) && key_at(bs2, q.0, q.1)
            == a;
        if q.0 == b && q.1 == j {
            let w = (b, m);
            assert(valid_at(bs, w.0, w.1) && key_at(bs, w.0, w.1) == a);
            assert(key_at(bs, b, m) != key_at(bs, b, j));
        } else {
            assert(valid_at(bs, q.0, q.1) && key_at(bs, q.0, q.1) == a);
            if a == a0 {
                assert(key_at(bs, q.0, q.1) == key_at(bs, b, j));
                assert(false);
            }
        }
    }
    assert forall|a: K::V| has_key(bs, a) && a != a0 implies #[trigger] has_key(bs2, a) by {
        let q = choose|q: (int, int)| #[trigger] valid_at(bs, q.0, q.1) && key_at(bs, q.0, q.1)
            == a;
        assert(key_at(bs, q.0, q.1) != key_at(bs, b, j));
        if q.0 == b && q.1 == m {
            // the last pair of bucket b relocated to position j
            let w = (b, j);
            assert(j != m);
            assert(valid_at(bs2, w.0, w.1) && key_at(bs2, w.0, w.1) == a);
        } else {
            assert(valid_at(bs2, q.0, q.1) && key_at(bs2, q.0, q.1) == a);
        }
    }
    assert forall|a: K::V| #[trigger] has_key(bs2, a) implies to_map(bs2)[a] == to_map(bs).remove(
        a0,
    )[a] by {
        let q = choose|q: (int, int)| #[trigger] valid_at(bs2, q.0, q.1) && key_at(bs2, q.0, q.1)
            == a;
        lemma_lookup(bs2, q.0, q.1);
        if q.0 == b && q.1 == j {
            lemma_lookup(bs, b, m);
            assert(bs2[q.0][q.1] == bs[b][m]);
        } else {
            lemma_lookup(bs, q.0, q.1);
            assert(bs2[q.0][q.1] == bs[q.0][q.1]);
        }
    }
    assert(to_map(bs2) =~= to_map(bs).remove(a0));
}

/// Replacing a value in place moves no key, so routing is undisturbed.
pub proof fn lemma_set_val_routed<K: MapKey, V>(bs: Seq<Seq<(K, V)>>, b: int, j: int, w: V, n: int)
    requires
        routed(bs, n),
        valid_at(bs, b, j),
    ensures
        routed(bs.update(b, bs[b].update(j, (bs[b][j].0, w))), n),
{
    let bs2 = bs.update(b, bs[b].update(j, (bs[b][j].0, w)));
    assert forall|i: int, t: int| #[trigger] valid_at(bs2, i, t) implies slot_of(
        bs2[i][t].0.hash_spec(),
        n,
    ) == i by {
        assert(valid_at(bs, i, t));
        assert(bs2[i][t].0 == bs[i][t].0);
    }
}

/// Dropping an empty final bucket leaves the denoted map unchanged.
pub proof fn lemma_drop_empty_last<K: MapKey, V>(bs: Seq<Seq<(K, V)>>)
    requires
        all_distinct(bs),
        bs.len() > 0,
        bs.last().len() == 0,
    ensures
        all_distinct(bs.drop_last()),
        to_map(bs.drop_last()) == to_map(bs),
        forall|a: K::V| has_key(bs.drop_last(), a) == has_key(bs, a),
{
    let bs2 = bs.drop_last();
    assert forall|i: int, t: int| valid_at(bs2, i, t) implies valid_at(bs, i, t) && bs2[i][t]
        == bs[i][t] by {}
    assert(all_distinct(bs2)) by {
        assert forall|i1: int, j1: int, i2: int, j2: int|
            valid_at(bs2, i1, j1) && valid_at(bs2, i2, j2) && (i1 != i2 || j1 != j2)
                implies #[trigger] key_at(bs2, i1, j1) != #[trigger] key_at(bs2, i2, j2) by {
            assert(key_at(bs2, i1, j1) == key_at(bs, i1, j1));
            assert(key_at(bs2, i2, j2) == key_at(bs, i2, j2));
        }
    }
    assert forall|a: K::V| #[trigger] has_key(bs2, a) implies has_key(bs, a) by {
        let q = choose|q: (int, int)| #[trigger] valid_at(bs2, q.0, q.1) && key_at(bs2, q.0, q.1)
            == a;
        assert(valid_at(bs, q.0, q.1) && key_at(bs, q.0, q.1) == a);
    }
    assert forall|a: K::V| has_key(bs, a) implies #[trigger] has_key(bs2, a) by {
        let q = choose|q: (int, int)| #[trigger] valid_at(bs, q.0, q.1) && key_at(bs, q.0, q.1)
            == a;
        assert(q.0 != bs.len() - 1);
        assert(valid_at(bs2, q.0, q.1) && key_at(bs2, q.0, q.1) == a);
    }
    assert forall|a: K::V| #[trigger] has_key(bs2, a) implies to_map(bs2)[a] == to_map(bs)[a] by {
        let q = choose|q: (int, int)| #[trigger] valid_at(bs2, q.0, q.1) && key_at(bs2, q.0, q.1)
            == a;
        lemma_lookup(bs2, q.0, q.1);
        lemma_lookup(bs, q.0, q.1);
    }
    assert(to_map(bs2) =~= to_map(bs));
}

/// Appending an empty bucket leaves the denoted map unchanged.
pub proof fn lemma_push_empty<K: MapKey, V>(bs: Seq<Seq<(K, V)>>)
    requires
        all_distinct(bs),
    ensures
        all_distinct(bs.push(Seq::<(K, V)>::empty())),
        to_map(bs.push(Seq::<(K, V)>::empty())) == to_map(bs),
        forall|a: K::V| has_key(bs.push(Seq::<(K, V)>::empty()), a) == has_key(bs, a),
{
    let bs2 = bs.push(Seq::<(K, V)>::empty());
    assert(all_distinct(bs2)) by {
        assert forall|i1: int, j1: int, i2: int, j2: int|
            valid_at(bs2, i1, j1) && valid_at(bs2, i2, j2) && (i1 != i2 || j1 != j2)
                implies #[trigger] key_at(bs2, i1, j1) != #[trigger] key_at(bs2, i2, j2) by {
            assert(valid_at(bs, i1, j1) && key_at(bs2, i1, j1) == key_at(bs, i1, j1));
            assert(valid_at(bs, i2, j2) && key_at(bs2, i2, j2) == key_at(bs, i2, j2));
        }
    }
    assert(bs2.drop_last() =~= bs);
    lemma_drop_empty_last(bs2);
}

/// A store of none but empty buckets denotes the empty map.
pub proof fn lemma_all_empty<K: MapKey, V>(bs: Seq<Seq<(K, V)>>)
    requires
        forall|i: int| 0 <= i < bs.len() ==> bs[i].len() == 0,
    ensures
        all_distinct(bs),
        to_map(bs) == Map::<K::V, V>::empty(),
        forall|a: K::V| !has_key(bs, a),
{
    assert forall|a: K::V| !#[trigger] has_key(bs, a) by {
        if has_key(bs, a) {
            let q = choose|q: (int, int)| #[trigger] valid_at(bs, q.0, q.1) && key_at(
                bs,
                q.0,
                q.1,
            ) == a;
            assert(bs[q.0].len() == 0);
        }
    }
    assert(to_map(bs) =~= Map::<K::V, V>::empty());
}

} // verus!
