//! The container: a vector of chained buckets routed by hash, a running
//! pair count, and a doubling growth policy, verified against a `Map` view
//! from abstract key values to stored values.

use vstd::prelude::*;

use crate::bucket;
use crate::bucket::{all_distinct, has_key, key_at, routed, slot_of, to_map, valid_at};
use crate::key::{MapKey, QueryKey};

verus! {

/// Whether `n` is a positive power of two.
pub open spec fn spec_is_pow2(n: int) -> bool
    decreases n,
{
    if n <= 0 {
        false
    } else if n == 1 {
        true
    } else {
        n % 2 == 0 && spec_is_pow2(n / 2)
    }
}

/// How many pairs a container accepts; far below this bound the bucket
/// count, which doubling keeps within a factor of four of the pair count,
/// cannot outgrow the machine word.
pub open spec fn capacity_limit() -> int {
    usize::MAX as int / 32
}

/// The whole bucket store as a sequence of pair sequences.
pub(crate) open spec fn bucket_views<K: MapKey, V>(bv: Seq<Vec<(K, V)>>) -> Seq<Seq<(K, V)>> {
    bv.map_values(|bk: Vec<(K, V)>| bk@)
}

/// The map a sequence of pairs denotes when inserted in order: a later
/// pair with an equal key overwrites an earlier one.
pub open spec fn map_of_pairs<K: MapKey, V>(s: Seq<(K, V)>) -> Map<K::V, V>
    decreases s.len(),
{
    if s.len() == 0 {
        Map::empty()
    } else {
        map_of_pairs(s.drop_last()).insert(s.last().0@, s.last().1)
    }
}

/// A hash map of chained buckets.
///
/// `buckets` is the bucket store: bucket `i` holds exactly the pairs whose
/// key hashes route to `i`. `items` counts the stored pairs. Both facts,
/// together with pairwise distinctness of keys, make up `wf`.
#[derive(Debug)]
pub struct HashMap<K: MapKey, V> {
    pub(crate) buckets: Vec<Vec<(K, V)>>,
    pub(crate) items: usize,
}

impl<K: MapKey, V> View for HashMap<K, V> {
    type V = Map<K::V, V>;

    open(crate) spec fn view(&self) -> Map<K::V, V> {
        to_map(self.bucket_seqs())
    }
}

/// The bucket a key routes to, under `n` buckets.
pub(crate) fn bucket_of_key<K: MapKey>(key: &K, n: usize) -> (b: usize)
    requires
        n > 0,
    ensures
        b as int == slot_of(key.hash_spec(), n as int),
        b < n,
{
    let h = key.hash_key();
    (h % (n as u64)) as usize
}

/// Scans one bucket for a key, returning its position if present.
pub(crate) fn scan_bucket<K: MapKey, V>(bucket: &Vec<(K, V)>, key: &K) -> (r: Option<usize>)
    ensures
        (match r {
            Some(j) => j < bucket@.len() && bucket@[j as int].0@ == key@,
            None => forall|t: int| 0 <= t < bucket@.len() ==> bucket@[t].0@ != key@,
        }),
{
    let mut j: usize = 0;
    while j < bucket.len()
        invariant
            j <= bucket@.len(),
            forall|t: int| 0 <= t < j ==> bucket@[t].0@ != key@,
        decreases bucket@.len() - j,
    {
        if bucket[j].0.key_eq(key) {
            return Some(j);
        }
        j += 1;
    }
    None
}

/// The bucket a borrowed-form query routes to, under `n` buckets.
pub(crate) fn bucket_of_query<K: MapKey, Q: QueryKey<K>>(key: &Q, n: usize) -> (b: usize)
    requires
        n > 0,
    ensures
        b as int == slot_of(key.query_hash(), n as int),
        b < n,
{
    let h = key.hash_query();
    (h % (n as u64)) as usize
}

/// Scans one bucket for a borrowed-form query, returning the position of
/// the stored key it stands for, if any.
pub(crate) fn scan_bucket_q<K: MapKey, V, Q: QueryKey<K>>(bucket: &Vec<(K, V)>, key: &Q) -> (r:
    Option<usize>)
    ensures
        (match r {
            Some(j) => j < bucket@.len() && bucket@[j as int].0@ == key.query_abs(),
            None => forall|t: int| 0 <= t < bucket@.len() ==> bucket@[t].0@ != key.query_abs(),
        }),
{
    let mut j: usize = 0;
    while j < bucket.len()
        invariant
            j <= bucket@.len(),
            forall|t: int| 0 <= t < j ==> bucket@[t].0@ != key.query_abs(),
        decreases bucket@.len() - j,
    {
        if key.query_eq(&bucket[j].0) {
            return Some(j);
        }
        j += 1;
    }
    None
}

/// Appends a pair to bucket `b`, leaving every other bucket untouched.
pub(crate) fn push_into<K: MapKey, V>(bv: &mut Vec<Vec<(K, V)>>, b: usize, pair: (K, V))
    requires
        b < old(bv).len(),
    ensures
        final(bv)@.len() == old(bv)@.len(),
        final(bv)@[b as int]@ == old(bv)@[b as int]@.push(pair),
        forall|i: int| 0 <= i < old(bv)@.len() && i != b ==> final(bv)@[i] == old(bv)@[i],
{
    let dst = &mut bv[b];
    dst.push(pair);
}

/// Swap-removes the pair at position `j` of bucket `b` and returns it.
pub(crate) fn take_pair<K: MapKey, V>(bv: &mut Vec<Vec<(K, V)>>, b: usize, j: usize) -> (pair: (K, V))
    requires
        b < old(bv).len(),
        j < old(bv)@[b as int]@.len(),
    ensures
        pair == old(bv)@[b as int]@[j as int],
        final(bv)@.len() == old(bv)@.len(),
        final(bv)@[b as int]@ == old(bv)@[b as int]@.update(
            j as int,
            old(bv)@[b as int]@.last(),
        ).drop_last(),
        forall|i: int| 0 <= i < old(bv)@.len() && i != b ==> final(bv)@[i] == old(bv)@[i],
{
    let src = &mut bv[b];
    src.swap_remove(j)
}

/// Borrows the value of the pair at position `j` of bucket `b` mutably;
/// whatever the caller writes through the borrow, only that value changes.
pub(crate) fn value_mut<'x, K: MapKey, V>(bv: &'x mut Vec<Vec<(K, V)>>, b: usize, j: usize) -> (r:
    &'x mut V)
    requires
        b < old(bv).len(),
        j < old(bv)@[b as int]@.len(),
    ensures
        *r == old(bv)@[b as int]@[j as int].1,
        final(bv)@.len() == old(bv)@.len(),
        final(bv)@[b as int]@ == old(bv)@[b as int]@.update(
            j as int,
            (old(bv)@[b as int]@[j as int].0, *final(r)),
        ),
        forall|i: int| 0 <= i < old(bv)@.len() && i != b ==> final(bv)@[i] == old(bv)@[i],
{
    let bucket = &mut bv[b];
    let pr = &mut bucket[j];
    &mut pr.1
}

/// The state halfway through a rehash: the pairs of `orig` are split
/// between the freshly routed store `cur` and the drained remainder `rem`,
/// with no key in both and every stored value the one `orig` gives its key.
pub(crate) open spec fn rehash_inv<K: MapKey, V>(
    orig: Map<K::V, V>,
    cur: Seq<Seq<(K, V)>>,
    rem: Seq<Seq<(K, V)>>,
    target: int,
) -> bool {
    &&& cur.len() == target
    &&& routed(cur, target)
    &&& all_distinct(cur)
    &&& all_distinct(rem)
    &&& forall|a: K::V| !(#[trigger] has_key(cur, a) && has_key(rem, a))
    &&& forall|a: K::V|
        #![trigger has_key(cur, a)]
        #![trigger has_key(rem, a)]
        #![trigger orig.contains_key(a)]
        orig.contains_key(a) <==> (has_key(cur, a) || has_key(rem, a))
    &&& forall|i: int, j: int| #[trigger]
        valid_at(cur, i, j) ==> orig.contains_key(key_at(cur, i, j)) && orig[key_at(cur, i, j)]
            == cur[i][j].1
    &&& forall|i: int, j: int| #[trigger]
        valid_at(rem, i, j) ==> orig.contains_key(key_at(rem, i, j)) && orig[key_at(rem, i, j)]
            == rem[i][j].1
}

/// Moving the last pair of the last remaining bucket into the bucket its
/// key routes to preserves the rehash invariant.
proof fn lemma_rehash_move<K: MapKey, V>(
    orig: Map<K::V, V>,
    cur: Seq<Seq<(K, V)>>,
    rem: Seq<Seq<(K, V)>>,
    target: int,
    b: int,
)
    requires
        rehash_inv(orig, cur, rem, target),
        rem.len() > 0,
        rem.last().len() > 0,
        0 <= b < cur.len(),
        slot_of(rem.last().last().0.hash_spec(), target) == b,
    ensures
        ({
            let p = rem.last().last();
            let cur2 = cur.update(b, cur[b].push(p));
            let rem2 = rem.update(rem.len() - 1, rem.last().drop_last());
            &&& rehash_inv(orig, cur2, rem2, target)
            &&& orig.contains_key(p.0@) && orig[p.0@] == p.1
        }),
{
    let p = rem.last().last();
    let a0 = p.0@;
    let rl = rem.len() - 1;
    let j = rem.last().len() - 1;
    let cur2 = cur.update(b, cur[b].push(p));
    let rem2 = rem.update(rem.len() - 1, rem.last().drop_last());
    assert(has_key(rem, a0)) by {
        let w = (rl, j);
        assert(valid_at(rem, w.0, w.1) && key_at(rem, w.0, w.1) == a0);
    }
    assert(!has_key(cur, a0));
    assert(orig.contains_key(a0) && orig[a0] == p.1) by {
        assert(valid_at(rem, rl, j));
    }
    assert(rem2 =~= rem.update(rl, rem[rl].update(j, rem[rl].last()).drop_last())) by {
        assert(rem.last().update(j, rem.last().last()) =~= rem.last());
    }
    bucket::lemma_swap_remove(rem, rl, j);
    bucket::lemma_push(cur, b, p);
    // the maps before and after determine key membership on both sides
    assert forall|a: K::V| #[trigger] has_key(cur2, a) implies has_key(cur, a) || a == a0 by {
        assert(to_map(cur2) == to_map(cur).insert(a0, p.1));
        assert(to_map(cur2).contains_key(a) == has_key(cur2, a));
        assert(to_map(cur).contains_key(a) == has_key(cur, a));
    }
    assert forall|a: K::V| #[trigger] has_key(rem2, a) implies has_key(rem, a) && a != a0 by {
        assert(to_map(rem2) == to_map(rem).remove(a0));
        assert(to_map(rem2).contains_key(a) == has_key(rem2, a));
        assert(to_map(rem).contains_key(a) == has_key(rem, a));
    }
    assert forall|a: K::V| has_key(cur, a) implies #[trigger] has_key(cur2, a) by {
        assert(to_map(cur2) == to_map(cur).insert(a0, p.1));
        assert(to_map(cur2).contains_key(a) == has_key(cur2, a));
        assert(to_map(cur).contains_key(a) == has_key(cur, a));
    }
    assert forall|a: K::V| has_key(rem, a) && a != a0 implies #[trigger] has_key(rem2, a) by {
        assert(to_map(rem2) == to_map(rem).remove(a0));
        assert(to_map(rem2).contains_key(a) == has_key(rem2, a));
        assert(to_map(rem).contains_key(a) == has_key(rem, a));
    }
    assert(has_key(cur2, a0)) by {
        assert(to_map(cur2) == to_map(cur).insert(a0, p.1));
        assert(to_map(cur2).contains_key(a0) == has_key(cur2, a0));
    }
    // pairs of cur2: the old ones plus p at (b, |cur[b]|)
    let m = cur[b].len() as int;
    assert forall|i: int, t: int| valid_at(cur2, i, t) implies (i == b && t == m && cur2[i][t]
        == p) || (valid_at(cur, i, t) && cur2[i][t] == cur[i][t]) by {}
    assert(routed(cur2, target)) by {
        assert forall|i: int, t: int| #[trigger]
            valid_at(cur2, i, t) implies slot_of(cur2[i][t].0.hash_spec(), target) == i by {
            if i == b && t == m {
            } else {
                assert(valid_at(cur, i, t) && cur2[i][t] == cur[i][t]);
            }
        }
    }
    // pairs of rem2 are pairs of rem
    assert forall|i: int, t: int| valid_at(rem2, i, t) implies valid_at(rem, i, t) && rem2[i][t]
        == rem[i][t] by {}
    assert forall|i: int, t: int| #[trigger]
        valid_at(cur2, i, t) implies orig.contains_key(key_at(cur2, i, t)) && orig[key_at(
        cur2,
        i,
        t,
    )] == cur2[i][t].1 by {
        if i == b && t == m {
        } else {
            assert(valid_at(cur, i, t) && cur2[i][t] == cur[i][t]);
        }
    }
}

/// An empty bucket at the end of the remainder can be dropped.
proof fn lemma_rehash_drop_empty<K: MapKey, V>(
    orig: Map<K::V, V>,
    cur: Seq<Seq<(K, V)>>,
    rem: Seq<Seq<(K, V)>>,
    target: int,
)
    requires
        rehash_inv(orig, cur, rem.push(Seq::<(K, V)>::empty()), target),
    ensures
        rehash_inv(orig, cur, rem, target),
{
    let big = rem.push(Seq::<(K, V)>::empty());
    bucket::lemma_drop_empty_last(big);
    assert(big.drop_last() =~= rem);
    assert forall|i: int, t: int| valid_at(rem, i, t) implies valid_at(big, i, t) && rem[i][t]
        == big[i][t] by {}
}

/// When nothing remains to drain, the rebuilt store denotes `orig`.
proof fn lemma_rehash_done<K: MapKey, V>(
    orig: Map<K::V, V>,
    cur: Seq<Seq<(K, V)>>,
    target: int,
)
    requires
        rehash_inv(orig, cur, Seq::<Seq<(K, V)>>::empty(), target),
    ensures
        to_map(cur) == orig,
{
    let rem = Seq::<Seq<(K, V)>>::empty();
    assert forall|a: K::V| !#[trigger] has_key(rem, a) by {
        if has_key(rem, a) {
            let q = choose|q: (int, int)| #[trigger] valid_at(rem, q.0, q.1) && key_at(
                rem,
                q.0,
                q.1,
            ) == a;
        }
    }
    assert forall|a: K::V| #[trigger] has_key(cur, a) implies to_map(cur)[a] == orig[a] by {
        let q = choose|q: (int, int)| #[trigger] valid_at(cur, q.0, q.1) && key_at(cur, q.0, q.1)
            == a;
        bucket::lemma_lookup(cur, q.0, q.1);
    }
    assert(to_map(cur) =~= orig);
}

impl<K: MapKey, V> HashMap<K, V> {
    /// The abstract bucket store: each bucket as a sequence of pairs.
    pub(crate) open spec fn bucket_seqs(self) -> Seq<Seq<(K, V)>> {
        bucket_views(self.buckets@)
    }

    /// The number of buckets.
    pub(crate) open spec fn num_buckets(self) -> int {
        self.buckets@.len() as int
    }

    /// Well-formedness: the bucket count is zero or a positive power of two
    /// and cannot overflow on doubling; every pair sits in the bucket its
    /// key routes to; no two pairs share a key; the running count equals
    /// the number of distinct keys stored; and the load stays within one
    /// pair of the 3/4 growth threshold. The threshold is checked before
    /// each insertion, but the policy doubles once per insertion, and one
    /// doubling of a store of one or two buckets cannot bring the load
    /// under 3/4 — hence the one-pair slack, which is tight only there.
    pub open(crate) spec fn wf(self) -> bool {
        let n = self.num_buckets();
        &&& n == 0 || spec_is_pow2(n)
        &&& 4 * n <= usize::MAX as int + 1
        &&& routed(self.bucket_seqs(), n)
        &&& all_distinct(self.bucket_seqs())
        &&& self@.dom().finite()
        &&& self.items == self@.len()
        &&& n > 0 ==> self.items <= 3 * n / 4 + 1
        &&& n == 0 ==> self.items == 0
    }

    /// An empty container: no buckets allocated, no pairs stored.
    pub fn new() -> (m: Self)
        ensures
            m.wf(),
            m@ == Map::<K::V, V>::empty(),
    {
        let m = HashMap { buckets: Vec::<Vec<(K, V)>>::new(), items: 0usize };
        proof {
            bucket::lemma_all_empty(m.bucket_seqs());
        }
        m
    }

    /// How many pairs are stored.
    pub fn len(&self) -> (n: usize)
        requires
            self.wf(),
        ensures
            n == self@.len(),
    {
        self.items
    }

    /// Whether no pair is stored.
    pub fn is_empty(&self) -> (b: bool)
        requires
            self.wf(),
        ensures
            b == (self@.len() == 0),
    {
        self.items == 0
    }

    /// Looks a key up, returning a reference to its value if present. The
    /// lookup key may be any borrowed form of the stored key type — any
    /// type with the `QueryKey` capability — so no owned key need be built.
    pub fn get<'a, Q: QueryKey<K>>(&'a self, key: &Q) -> (r: Option<&'a V>)
        requires
            self.wf(),
        ensures
            (match r {
                Some(v) => self@.contains_key(key.query_abs()) && *v == self@[key.query_abs()],
                None => !self@.contains_key(key.query_abs()),
            }),
    {
        let n = self.buckets.len();
        if n == 0 {
            proof {
                bucket::lemma_all_empty(self.bucket_seqs());
            }
            return None;
        }
        let b = bucket_of_query(key, n);
        let bucket_ref = &self.buckets[b];
        match scan_bucket_q(bucket_ref, key) {
            Some(j) => {
                proof {
                    bucket::lemma_lookup(self.bucket_seqs(), b as int, j as int);
                }
                Some(&bucket_ref[j].1)
            },
            None => {
                proof {
                    bucket::lemma_bucket_miss_q(self.bucket_seqs(), n as int, *key);
                }
                None
            },
        }
    }

    /// Doubles the bucket store (allocating one bucket the first time) and
    /// rehashes every stored pair into its new bucket. The denoted map does
    /// not change; afterwards the store has room for an insertion without a
    /// further growth check.
    pub(crate) fn resize(&mut self)
        requires
            old(self).wf(),
            old(self).items < capacity_limit(),
            old(self).num_buckets() == 0 || old(self).items + 1 > 3 * old(self).num_buckets() / 4,
        ensures
            final(self).wf(),
            final(self)@ == old(self)@,
            final(self).items == old(self).items,
            final(self).num_buckets() == (if old(self).num_buckets() == 0 {
                1int
            } else {
                2 * old(self).num_buckets()
            }),
            final(self).items <= 3 * final(self).num_buckets() / 4,
    {
        let n = self.buckets.len();
        let target = if n == 0 {
            1
        } else {
            n * 2
        };
        let ghost orig = old(self)@;
        let mut fresh: Vec<Vec<(K, V)>> = Vec::with_capacity(target);
        while fresh.len() < target
            invariant
                fresh@.len() <= target,
                forall|i: int| 0 <= i < fresh@.len() ==> fresh@[i]@.len() == 0,
            decreases target - fresh@.len(),
        {
            fresh.push(Vec::<(K, V)>::new());
        }
        core::mem::swap(&mut self.buckets, &mut fresh);
        let mut old_buckets = fresh;
        proof {
            bucket::lemma_all_empty(self.bucket_seqs());
            assert forall|i: int, j: int| #[trigger]
                valid_at(self.bucket_seqs(), i, j) implies false by {
                assert(self.bucket_seqs()[i].len() == 0);
            }
            let rem0 = bucket_views(old_buckets@);
            assert(rem0 =~= old(self).bucket_seqs());
            assert forall|i: int, j: int| #[trigger]
                valid_at(rem0, i, j) implies orig.contains_key(key_at(rem0, i, j)) && orig[key_at(
                rem0,
                i,
                j,
            )] == rem0[i][j].1 by {
                bucket::lemma_lookup(rem0, i, j);
            }
            assert(rehash_inv(orig, self.bucket_seqs(), rem0, target as int));
        }
        while old_buckets.len() > 0
            invariant
                0 < target,
                self.buckets@.len() == target,
                self.items == old(self).items,
                rehash_inv(orig, self.bucket_seqs(), bucket_views(old_buckets@), target as int),
            decreases old_buckets@.len(),
        {
            let ghost obs_before = bucket_views(old_buckets@);
            let mut bucket = old_buckets.pop().unwrap();
            proof {
                assert(bucket_views(old_buckets@).push(bucket@) =~= obs_before);
            }
            while bucket.len() > 0
                invariant
                    0 < target,
                    self.buckets@.len() == target,
                    self.items == old(self).items,
                    rehash_inv(
                        orig,
                        self.bucket_seqs(),
                        bucket_views(old_buckets@).push(bucket@),
                        target as int,
                    ),
                decreases bucket@.len(),
            {
                let ghost cur0 = self.bucket_seqs();
                let ghost rem0 = bucket_views(old_buckets@).push(bucket@);
                let pair = bucket.pop().unwrap();
                let b = bucket_of_key(&pair.0, target);
                proof {
                    assert(rem0.last() == bucket@.push(pair));
                    assert(rem0.last().last() == pair);
                    lemma_rehash_move(orig, cur0, rem0, target as int, b as int);
                    assert(bucket_views(old_buckets@).push(bucket@) =~= rem0.update(
                        rem0.len() - 1,
                        rem0.last().drop_last(),
                    )) by {
                        assert(rem0.last().drop_last() =~= bucket@);
                    }
                }
                push_into(&mut self.buckets, b, pair);
                proof {
                    assert(self.bucket_seqs() =~= cur0.update(b as int, cur0[b as int].push(pair)));
                }
            }
            proof {
                assert(bucket@ =~= Seq::<(K, V)>::empty());
                lemma_rehash_drop_empty(
                    orig,
                    self.bucket_seqs(),
                    bucket_views(old_buckets@),
                    target as int,
                );
            }
        }
        proof {
            assert(bucket_views(old_buckets@) =~= Seq::<Seq<(K, V)>>::empty());
            lemma_rehash_done(orig, self.bucket_seqs(), target as int);
            assert(spec_is_pow2(target as int)) by {
                if n != 0 {
                    assert((target as int) % 2 == 0 && (target as int) / 2 == n as int);
                }
            }
            assert(self@ == orig);
            assert(self.items == orig.len());
        }
    }

    /// Inserts a pair. An existing pair with an equal key has its value
    /// replaced in place and handed back; a fresh key is appended to its
    /// bucket, growing the store first whenever the load would pass 3/4.
    pub fn insert(&mut self, key: K, value: V) -> (prev: Option<V>)
        requires
            old(self).wf(),
            old(self)@.len() < capacity_limit(),
        ensures
            final(self).wf(),
            final(self)@ == old(self)@.insert(key@, value),
            (match prev {
                Some(p) => old(self)@.contains_key(key@) && p == old(self)@[key@] && final(self)@.len() == old(self)@.len(),
                None => !old(self)@.contains_key(key@) && final(self)@.len() == old(self)@.len()
                    + 1,
            }),
    {
        let n0 = self.buckets.len();
        if n0 == 0 || self.items + 1 > 3 * n0 / 4 {
            self.resize();
        }
        let n = self.buckets.len();
        assert(self.items <= 3 * self.num_buckets() / 4);
        let b = bucket_of_key(&key, n);
        let ghost cur0 = self.bucket_seqs();
        match scan_bucket(&self.buckets[b], &key) {
            Some(j) => {
                proof {
                    bucket::lemma_lookup(cur0, b as int, j as int);
                    bucket::lemma_swap_remove(cur0, b as int, j as int);
                }
                let pair = take_pair(&mut self.buckets, b, j);
                let ghost cur1 = self.bucket_seqs();
                proof {
                    assert(cur1 =~= cur0.update(
                        b as int,
                        cur0[b as int].update(j as int, cur0[b as int].last()).drop_last(),
                    ));
                    bucket::lemma_push(cur1, b as int, (pair.0, value));
                }
                push_into(&mut self.buckets, b, (pair.0, value));
                proof {
                    assert(self.bucket_seqs() =~= cur1.update(
                        b as int,
                        cur1[b as int].push((pair.0, value)),
                    ));
                    assert(self@ == old(self)@.remove(key@).insert(key@, value));
                    assert(old(self)@.remove(key@).insert(key@, value) =~= old(self)@.insert(
                        key@,
                        value,
                    ));
                    // the replacing pair keeps the stored key, so it stays routed
                    assert(routed(self.bucket_seqs(), n as int)) by {
                        assert forall|i: int, t: int| #[trigger]
                            valid_at(self.bucket_seqs(), i, t) implies slot_of(
                            self.bucket_seqs()[i][t].0.hash_spec(),
                            n as int,
                        ) == i by {
                            let cur2 = self.bucket_seqs();
                            if i == b && t == cur2[b as int].len() - 1 {
                                assert(cur2[i][t].0 == cur0[b as int][j as int].0);
                                assert(valid_at(cur0, b as int, j as int));
                            } else {
                                assert(valid_at(cur1, i, t) && cur2[i][t] == cur1[i][t]);
                                if i == b && t == j && j < cur0[b as int].len() - 1 {
                                    assert(cur1[i][t] == cur0[b as int][cur0[b as int].len() - 1]);
                                    assert(valid_at(cur0, b as int, cur0[b as int].len() - 1));
                                } else {
                                    assert(valid_at(cur0, i, t) && cur1[i][t] == cur0[i][t]);
                                }
                            }
                        }
                    }
                    assert(self@.dom() =~= old(self)@.dom());
                }
                Some(pair.1)
            },
            None => {
                proof {
                    bucket::lemma_bucket_miss(cur0, n as int, key);
                    bucket::lemma_push(cur0, b as int, (key, value));
                }
                push_into(&mut self.buckets, b, (key, value));
                self.items = self.items + 1;
                proof {
                    assert(self.bucket_seqs() =~= cur0.update(
                        b as int,
                        cur0[b as int].push((key, value)),
                    ));
                    assert(self@ == old(self)@.insert(key@, value));
                    assert(self@.dom() =~= old(self)@.dom().insert(key@));
                    assert(routed(self.bucket_seqs(), n as int)) by {
                        assert forall|i: int, t: int| #[trigger]
                            valid_at(self.bucket_seqs(), i, t) implies slot_of(
                            self.bucket_seqs()[i][t].0.hash_spec(),
                            n as int,
                        ) == i by {
                            let cur2 = self.bucket_seqs();
                            if !(i == b && t == cur0[b as int].len()) {
                                assert(valid_at(cur0, i, t) && cur2[i][t] == cur0[i][t]);
                            }
                        }
                    }
                }
                None
            },
        }
    }

    /// Removes a key, returning its value if it was present. The last pair
    /// of the bucket moves into the vacated slot; no bucket is deallocated.
    pub fn remove<Q: QueryKey<K>>(&mut self, key: &Q) -> (r: Option<V>)
        requires
            old(self).wf(),
        ensures
            final(self).wf(),
            final(self)@ == old(self)@.remove(key.query_abs()),
            (match r {
                Some(v) => old(self)@.contains_key(key.query_abs()) && v == old(self)@[key.query_abs()] && final(self)@.len() == old(self)@.len() - 1,
                None => !old(self)@.contains_key(key.query_abs()) && final(self)@.len() == old(self)@.len(),
            }),
    {
        let n = self.buckets.len();
        if n == 0 {
            proof {
                bucket::lemma_all_empty(self.bucket_seqs());
                assert(self@.remove(key.query_abs()) =~= self@);
            }
            return None;
        }
        let b = bucket_of_query(key, n);
        let ghost cur0 = self.bucket_seqs();
        match scan_bucket_q(&self.buckets[b], key) {
            Some(j) => {
                proof {
                    bucket::lemma_lookup(cur0, b as int, j as int);
                    bucket::lemma_swap_remove(cur0, b as int, j as int);
                    assert(self@.dom().remove(key.query_abs()).len() == self@.dom().len() - 1);
                }
                let pair = take_pair(&mut self.buckets, b, j);
                self.items = self.items - 1;
                proof {
                    assert(self.bucket_seqs() =~= cur0.update(
                        b as int,
                        cur0[b as int].update(j as int, cur0[b as int].last()).drop_last(),
                    ));
                    assert(self@ == old(self)@.remove(key.query_abs()));
                    assert(self@.dom() =~= old(self)@.dom().remove(key.query_abs()));
                    assert(routed(self.bucket_seqs(), n as int)) by {
                        assert forall|i: int, t: int| #[trigger]
                            valid_at(self.bucket_seqs(), i, t) implies slot_of(
                            self.bucket_seqs()[i][t].0.hash_spec(),
                            n as int,
                        ) == i by {
                            let cur2 = self.bucket_seqs();
                            if i == b && t == j && j < cur0[b as int].len() - 1 {
                                assert(cur2[i][t] == cur0[b as int][cur0[b as int].len() - 1]);
                                assert(valid_at(cur0, b as int, cur0[b as int].len() - 1));
                            } else {
                                assert(valid_at(cur0, i, t) && cur2[i][t] == cur0[i][t]);
                            }
                        }
                    }
                }
                Some(pair.1)
            },
            None => {
                proof {
                    bucket::lemma_bucket_miss_q(cur0, n as int, *key);
                    assert(self@.remove(key.query_abs()) =~= self@);
                }
                None
            },
        }
    }

    /// Whether a key is present; the key may be in borrowed form.
    pub fn contains_key<Q: QueryKey<K>>(&self, key: &Q) -> (b: bool)
        requires
            self.wf(),
        ensures
            b == self@.contains_key(key.query_abs()),
    {
        self.get(key).is_some()
    }

    /// Unchecked subscript access: the caller asserts the key is present
    /// and, unlike with `get`, absence would be a fault, so it is ruled out
    /// up front.
    pub fn index<Q: QueryKey<K>>(&self, key: &Q) -> (v: &V)
        requires
            self.wf(),
            self@.contains_key(key.query_abs()),
        ensures
            *v == self@[key.query_abs()],
    {
        self.get(key).unwrap()
    }

    /// Bulk construction from a sequence of pairs: equivalent to inserting
    /// them in order into an empty container, later duplicate keys
    /// overwriting earlier ones.
    pub fn from_vec(pairs: Vec<(K, V)>) -> (m: Self)
        requires
            pairs@.len() < capacity_limit(),
        ensures
            m.wf(),
            m@ == map_of_pairs(pairs@),
    {
        let ghost orig = pairs@;
        let mut rest = pairs;
        let mut m = Self::new();
        let ghost done = Seq::<(K, V)>::empty();
        proof {
            assert(done + rest@ =~= orig);
            assert(m@ =~= Map::<K::V, V>::empty());
        }
        while rest.len() > 0
            invariant
                m.wf(),
                done + rest@ =~= orig,
                m@ == map_of_pairs(done),
                m@.len() <= done.len(),
                orig.len() < capacity_limit(),
            decreases rest@.len(),
        {
            let p = rest.remove(0);
            let ghost done0 = done;
            proof {
                done = done.push(p);
                assert(done.drop_last() =~= done0);
                assert(done + rest@ =~= orig);
                assert(done.len() <= orig.len());
            }
            m.insert(p.0, p.1);
        }
        proof {
            assert(done =~= orig);
        }
        m
    }
}

impl<K: MapKey, V> Default for HashMap<K, V> {
    /// The same empty container `new` builds.
    fn default() -> (m: Self)
        ensures
            m.wf(),
            m@ == Map::<K::V, V>::empty(),
    {
        Self::new()
    }
}

impl<K: MapKey + Copy, V: Clone> Clone for HashMap<K, V> {
    /// Deep copy: every bucket is rebuilt pair by pair, keys copied and
    /// values cloned, so the copy stores the same keys, each bound to what
    /// `V::clone` made of its value.
    fn clone(&self) -> (res: Self)
        ensures
            self.wf() ==> res.wf() && res@.dom() =~= self@.dom() && (forall|a: K::V| #[trigger]
                res@.dom().contains(a) ==> vstd::pervasive::cloned::<V>(self@[a], res@[a])),
    {
        let ghost bs = self.bucket_seqs();
        let mut nb: Vec<Vec<(K, V)>> = Vec::new();
        let mut i: usize = 0;
        while i < self.buckets.len()
            invariant
                (i as int) <= bs.len(),
                bs == self.bucket_seqs(),
                nb@.len() == i as int,
                forall|i2: int, j: int|
                    #![trigger nb@[i2]@[j]]
                    0 <= i2 < i as int && 0 <= j < nb@[i2]@.len() ==> nb@[i2]@[j].0 == bs[i2][j].0
                        && vstd::pervasive::cloned::<V>(bs[i2][j].1, nb@[i2]@[j].1),
                forall|i2: int| 0 <= i2 < i as int ==> #[trigger] nb@[i2]@.len() == bs[i2].len(),
            decreases bs.len() - i as int,
        {
            let src = &self.buckets[i];
            let mut dst: Vec<(K, V)> = Vec::new();
            let mut j: usize = 0;
            while j < src.len()
                invariant
                    (j as int) <= src@.len(),
                    src@ == bs[i as int],
                    (i as int) < bs.len(),
                    dst@.len() == j as int,
                    forall|t: int|
                        #![trigger dst@[t]]
                        0 <= t < j as int ==> dst@[t].0 == src@[t].0 && vstd::pervasive::cloned::<
                            V,
                        >(src@[t].1, dst@[t].1),
                decreases src@.len() - j as int,
            {
                let k = src[j].0;
                let v = src[j].1.clone();
                dst.push((k, v));
                j += 1;
            }
            nb.push(dst);
            i += 1;
        }
        let res = HashMap { buckets: nb, items: self.items };
        proof {
            if self.wf() {
                let rs = res.bucket_seqs();
                assert(rs.len() == bs.len());
                assert forall|i2: int, j: int| #[trigger]
                    valid_at(rs, i2, j) implies valid_at(bs, i2, j) && rs[i2][j].0 == bs[i2][j].0
                    && key_at(rs, i2, j) == key_at(bs, i2, j) by {}
                assert forall|i2: int, j: int| #[trigger]
                    valid_at(bs, i2, j) implies valid_at(rs, i2, j) by {}
                assert(all_distinct(rs)) by {
                    assert forall|i1: int, j1: int, i2: int, j2: int|
                        valid_at(rs, i1, j1) && valid_at(rs, i2, j2) && (i1 != i2 || j1 != j2)
                            implies #[trigger] key_at(rs, i1, j1) != #[trigger] key_at(
                        rs,
                        i2,
                        j2,
                    ) by {
                        assert(key_at(rs, i1, j1) == key_at(bs, i1, j1));
                        assert(key_at(rs, i2, j2) == key_at(bs, i2, j2));
                    }
                }
                assert(routed(rs, rs.len() as int)) by {
                    assert forall|i2: int, j: int| #[trigger]
                        valid_at(rs, i2, j) implies slot_of(rs[i2][j].0.hash_spec(), rs.len() as int)
                        == i2 by {
                        assert(rs[i2][j].0 == bs[i2][j].0);
                    }
                }
                assert forall|a: K::V| has_key(rs, a) == has_key(bs, a) by {
                    if has_key(rs, a) {
                        let q = choose|q: (int, int)| #[trigger] valid_at(rs, q.0, q.1) && key_at(
                            rs,
                            q.0,
                            q.1,
                        ) == a;
                        assert(valid_at(bs, q.0, q.1) && key_at(bs, q.0, q.1) == a);
                    }
                    if has_key(bs, a) {
                        let q = choose|q: (int, int)| #[trigger] valid_at(bs, q.0, q.1) && key_at(
                            bs,
                            q.0,
                            q.1,
                        ) == a;
                        assert(valid_at(rs, q.0, q.1) && key_at(rs, q.0, q.1) == a);
                    }
                }
                assert(res@.dom() =~= self@.dom());
                assert forall|a: K::V| #[trigger]
                    res@.dom().contains(a) implies vstd::pervasive::cloned::<V>(
                    self@[a],
                    res@[a],
                ) by {
                    let q = choose|q: (int, int)| #[trigger] valid_at(bs, q.0, q.1) && key_at(
                        bs,
                        q.0,
                        q.1,
                    ) == a;
                    bucket::lemma_lookup(bs, q.0, q.1);
                    bucket::lemma_lookup(rs, q.0, q.1);
                }
            }
        }
        res
    }
}

} // verus!
