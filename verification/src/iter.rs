//! Iteration over the stored pairs: a borrowing cursor that walks buckets
//! in order, and a consuming drain that pops pairs out of each bucket.
//!
//! Neither promises an order — bucket order and intra-bucket order are
//! hash- and history-dependent — but both yield exactly the stored pairs.

use vstd::prelude::*;

use crate::bucket;
use crate::bucket::{all_distinct, key_at, to_map, valid_at};
use crate::key::MapKey;
use crate::map::HashMap;

verus! {

/// The pairs a cursor at bucket `i`, position `j` has yet to yield: the
/// rest of bucket `i`, then every later bucket in full.
pub(crate) open spec fn tail_pairs<K: MapKey, V>(bs: Seq<Seq<(K, V)>>, i: int, j: int) -> Seq<
    (K, V),
>
    decreases bs.len() - i,
{
    if i < 0 || i >= bs.len() {
        Seq::empty()
    } else {
        bs[i].skip(j) + tail_pairs(bs, i + 1, 0)
    }
}

/// A borrowing iterator: a shared view of the container and a cursor.
pub struct Iter<'a, K: MapKey, V> {
    pub(crate) map: &'a HashMap<K, V>,
    pub(crate) curr_bucket: usize,
    pub(crate) at: usize,
}

impl<'a, K: MapKey, V> Iter<'a, K, V> {
    /// The cursor addresses the container: within the current bucket, or
    /// past the last one.
    pub closed spec fn wf(self) -> bool {
        &&& self.map.wf()
        &&& (self.curr_bucket as int) < self.map.num_buckets() ==> (self.at as int)
            <= self.map.bucket_seqs()[self.curr_bucket as int].len()
    }

    /// The container being iterated.
    pub closed spec fn map_view(self) -> HashMap<K, V> {
        *self.map
    }

    /// The pairs not yet yielded.
    pub closed spec fn remaining(self) -> Seq<(K, V)> {
        tail_pairs(self.map.bucket_seqs(), self.curr_bucket as int, self.at as int)
    }

    /// Yields the next pair by reference, skipping exhausted buckets, or
    /// reports the end of iteration.
    pub fn next(&mut self) -> (r: Option<(&'a K, &'a V)>)
        requires
            old(self).wf(),
        ensures
            final(self).wf(),
            final(self).map_view() == old(self).map_view(),
            (match r {
                Some(kv) => old(self).remaining().len() > 0 && (*kv.0, *kv.1) == old(
                    self,
                ).remaining()[0] && final(self).remaining() == old(self).remaining().drop_first(),
                None => old(self).remaining().len() == 0 && final(self).remaining() == old(
                    self,
                ).remaining(),
            }),
    {
        let ghost bs = self.map.bucket_seqs();
        loop
            invariant
                self.wf(),
                self.map == old(self).map,
                bs == self.map.bucket_seqs(),
                self.remaining() == old(self).remaining(),
            decreases self.map.num_buckets() - self.curr_bucket as int,
        {
            if self.curr_bucket >= self.map.buckets.len() {
                return None;
            }
            let bucket_ref = &self.map.buckets[self.curr_bucket];
            let ghost cb = self.curr_bucket as int;
            let ghost at0 = self.at as int;
            if self.at < bucket_ref.len() {
                let pr = &bucket_ref[self.at];
                self.at = self.at + 1;
                proof {
                    assert(bs[cb].skip(at0)[0] == bs[cb][at0]);
                    assert(bs[cb].skip(at0).len() > 0);
                    assert(bs[cb].skip(at0 + 1) =~= bs[cb].skip(at0).drop_first());
                    assert((bs[cb].skip(at0) + tail_pairs(bs, cb + 1, 0)).drop_first() =~= bs[
                        cb
                    ].skip(at0).drop_first() + tail_pairs(bs, cb + 1, 0));
                }
                return Some((&pr.0, &pr.1));
            }
            proof {
                assert(bs[cb].skip(at0) =~= Seq::<(K, V)>::empty());
                assert(Seq::<(K, V)>::empty() + tail_pairs(bs, cb + 1, 0) =~= tail_pairs(
                    bs,
                    cb + 1,
                    0,
                ));
            }
            self.curr_bucket = self.curr_bucket + 1;
            self.at = 0;
        }
    }
}

/// Dropping an empty final bucket does not change the pairs ahead of any
/// cursor.
proof fn lemma_tail_drop_empty<K: MapKey, V>(bs: Seq<Seq<(K, V)>>, i: int)
    requires
        bs.len() > 0,
        bs.last().len() == 0,
        0 <= i,
    ensures
        tail_pairs(bs, i, 0) == tail_pairs(bs.drop_last(), i, 0),
    decreases bs.len() - i,
{
    let bs2 = bs.drop_last();
    if i >= bs.len() {
    } else if i == bs.len() - 1 {
        assert(bs[i].len() == 0);
        assert(tail_pairs(bs, i + 1, 0) == Seq::<(K, V)>::empty());
        assert(tail_pairs(bs, i, 0) == bs[i].skip(0) + tail_pairs(bs, i + 1, 0));
        assert(tail_pairs(bs, i, 0) =~= Seq::<(K, V)>::empty());
        assert(tail_pairs(bs2, i, 0) == Seq::<(K, V)>::empty());
    } else {
        lemma_tail_drop_empty(bs, i + 1);
        assert(bs2[i] == bs[i]);
        assert(tail_pairs(bs, i, 0) =~= tail_pairs(bs2, i, 0));
    }
}

/// Dropping the last pair of the last bucket drops exactly the last pair
/// the cursor would yield.
proof fn lemma_tail_pop_pair<K: MapKey, V>(bs: Seq<Seq<(K, V)>>, i: int)
    requires
        bs.len() > 0,
        bs.last().len() > 0,
        0 <= i <= bs.len() - 1,
    ensures
        tail_pairs(bs, i, 0) == tail_pairs(
            bs.update(bs.len() - 1, bs.last().drop_last()),
            i,
            0,
        ).push(bs.last().last()),
    decreases bs.len() - i,
{
    let bs2 = bs.update(bs.len() - 1, bs.last().drop_last());
    let p = bs.last().last();
    if i == bs.len() - 1 {
        assert(tail_pairs(bs, i + 1, 0) == Seq::<(K, V)>::empty());
        assert(tail_pairs(bs2, i + 1, 0) == Seq::<(K, V)>::empty());
        assert(tail_pairs(bs, i, 0) == bs[i].skip(0) + tail_pairs(bs, i + 1, 0));
        assert(tail_pairs(bs2, i, 0) == bs2[i].skip(0) + tail_pairs(bs2, i + 1, 0));
        assert(tail_pairs(bs2, i, 0).push(p) =~= tail_pairs(bs, i, 0));
    } else {
        lemma_tail_pop_pair(bs, i + 1);
        assert(bs2[i] == bs[i]);
        assert(tail_pairs(bs2, i, 0).push(p) =~= tail_pairs(bs, i, 0));
    }
}

/// With pairwise distinct keys, the pairs ahead of a fresh cursor are the
/// denoted map, pair for pair: as many of them as the map has keys, each
/// matching a lookup, each key exactly once, and every key among them.
pub(crate) proof fn lemma_pairs_match_map<K: MapKey, V>(bs: Seq<Seq<(K, V)>>)
    requires
        all_distinct(bs),
    ensures
        to_map(bs).dom().finite(),
        tail_pairs(bs, 0, 0).len() == to_map(bs).len(),
        forall|t: int|
            #![trigger tail_pairs(bs, 0, 0)[t]]
            0 <= t < tail_pairs(bs, 0, 0).len() ==> to_map(bs).contains_key(
                tail_pairs(bs, 0, 0)[t].0@,
            ) && to_map(bs)[tail_pairs(bs, 0, 0)[t].0@] == tail_pairs(bs, 0, 0)[t].1,
        forall|a: K::V|
            to_map(bs).contains_key(a) ==> exists|t: int|
                0 <= t < tail_pairs(bs, 0, 0).len() && #[trigger] tail_pairs(bs, 0, 0)[t].0@ == a,
        forall|t1: int, t2: int|
            #![trigger tail_pairs(bs, 0, 0)[t1], tail_pairs(bs, 0, 0)[t2]]
            0 <= t1 < t2 < tail_pairs(bs, 0, 0).len() ==> tail_pairs(bs, 0, 0)[t1].0@ != tail_pairs(
                bs,
                0,
                0,
            )[t2].0@,
    decreases bs.len(), (if bs.len() == 0 {
        0int
    } else {
        bs.last().len() as int
    }),
{
    if bs.len() == 0 {
        bucket::lemma_all_empty(bs);
        assert(to_map(bs).dom() =~= Set::<K::V>::empty());
    } else if bs.last().len() == 0 {
        bucket::lemma_drop_empty_last(bs);
        lemma_pairs_match_map(bs.drop_last());
        lemma_tail_drop_empty(bs, 0);
    } else {
        let j = bs.last().len() - 1;
        let rl = bs.len() - 1;
        let p = bs.last().last();
        let a0 = p.0@;
        let bs2 = bs.update(rl, bs.last().drop_last());
        assert(bs2 =~= bs.update(rl, bs[rl].update(j, bs[rl].last()).drop_last())) by {
            assert(bs.last().update(j, bs.last().last()) =~= bs.last());
        }
        bucket::lemma_swap_remove(bs, rl, j);
        bucket::lemma_lookup(bs, rl, j);
        lemma_pairs_match_map(bs2);
        lemma_tail_pop_pair(bs, 0);
        let pairs = tail_pairs(bs, 0, 0);
        let pairs2 = tail_pairs(bs2, 0, 0);
        assert(to_map(bs2) == to_map(bs).remove(a0));
        assert(to_map(bs).dom() =~= to_map(bs2).dom().insert(a0));
        assert(!to_map(bs2).contains_key(a0));
        assert(to_map(bs).len() == to_map(bs2).len() + 1);
        assert(pairs == pairs2.push(p));
        assert(pairs[pairs.len() - 1] == p);
        assert forall|t: int|
            0 <= t < pairs.len() implies to_map(bs).contains_key(#[trigger] pairs[t].0@) && to_map(
            bs,
        )[pairs[t].0@] == pairs[t].1 by {
            if t < pairs.len() - 1 {
                assert(pairs[t] == pairs2[t]);
                assert(to_map(bs2).contains_key(pairs2[t].0@));
                assert(pairs2[t].0@ != a0);
            }
        }
        assert forall|a: K::V| to_map(bs).contains_key(a) implies exists|t: int|
            0 <= t < pairs.len() && #[trigger] pairs[t].0@ == a by {
            if a == a0 {
                assert(pairs[pairs.len() - 1].0@ == a);
            } else {
                assert(to_map(bs2).contains_key(a));
                let t = choose|t: int|
                    0 <= t < pairs2.len() && #[trigger] tail_pairs(bs2, 0, 0)[t].0@ == a;
                assert(pairs[t].0@ == a);
            }
        }
        assert forall|t1: int, t2: int|
            0 <= t1 < t2 < pairs.len() implies #[trigger] pairs[t1].0@ != #[trigger] pairs[t2].0@ by {
            if t2 == pairs.len() - 1 {
                assert(pairs[t1] == pairs2[t1]);
                assert(to_map(bs2).contains_key(pairs2[t1].0@));
            } else {
                assert(pairs[t1] == pairs2[t1]);
                assert(pairs[t2] == pairs2[t2]);
            }
        }
    }
}

impl<K: MapKey, V> HashMap<K, V> {
    /// Begins borrowing iteration. The pairs it will yield are exactly the
    /// container's contents: one pair per stored key, each matching what
    /// `get` returns, in no promised order.
    pub fn iter<'a>(&'a self) -> (it: Iter<'a, K, V>)
        requires
            self.wf(),
        ensures
            it.wf(),
            it.map_view() == *self,
            it.remaining().len() == self@.len(),
            forall|t: int|
                #![trigger it.remaining()[t]]
                0 <= t < it.remaining().len() ==> self@.contains_key(it.remaining()[t].0@)
                    && self@[it.remaining()[t].0@] == it.remaining()[t].1,
            forall|a: K::V|
                self@.contains_key(a) ==> exists|t: int|
                    0 <= t < it.remaining().len() && #[trigger] it.remaining()[t].0@ == a,
            forall|t1: int, t2: int|
                #![trigger it.remaining()[t1], it.remaining()[t2]]
                0 <= t1 < t2 < it.remaining().len() ==> it.remaining()[t1].0@ != it.remaining()[
                    t2
                ].0@,
    {
        let it = Iter { map: self, curr_bucket: 0, at: 0 };
        proof {
            let bs = self.bucket_seqs();
            lemma_pairs_match_map(bs);
            assert(it.remaining() == tail_pairs(bs, 0, 0));
            assert forall|a: K::V| self@.contains_key(a) implies exists|t: int|
                0 <= t < it.remaining().len() && #[trigger] it.remaining()[t].0@ == a by {
                let t = choose|t: int|
                    0 <= t < tail_pairs(bs, 0, 0).len() && #[trigger] tail_pairs(bs, 0, 0)[t].0@
                        == a;
                assert(it.remaining()[t].0@ == a);
            }
        }
        it
    }
}

/// The pairs a drain at bucket `i` has yet to yield: the current bucket
/// back to front (pairs pop off its end), then every later bucket.
pub(crate) open spec fn drain_pairs<K: MapKey, V>(bs: Seq<Seq<(K, V)>>, i: int) -> Seq<(K, V)>
    decreases bs.len() - i,
{
    if i < 0 || i >= bs.len() {
        Seq::empty()
    } else {
        bs[i].reverse() + drain_pairs(bs, i + 1)
    }
}

/// A drain only reads buckets from its cursor on.
proof fn lemma_drain_unchanged<K: MapKey, V>(bs: Seq<Seq<(K, V)>>, bs2: Seq<Seq<(K, V)>>, i: int)
    requires
        bs.len() == bs2.len(),
        forall|t: int| i <= t < bs.len() ==> bs[t] == bs2[t],
    ensures
        drain_pairs(bs, i) == drain_pairs(bs2, i),
    decreases bs.len() - i,
{
    if 0 <= i < bs.len() {
        lemma_drain_unchanged(bs, bs2, i + 1);
    }
}

/// Every pair a drain yields is a stored pair, matching a lookup.
proof fn lemma_drain_members<K: MapKey, V>(bs: Seq<Seq<(K, V)>>, i: int)
    requires
        all_distinct(bs),
    ensures
        forall|t: int|
            #![trigger drain_pairs(bs, i)[t]]
            0 <= t < drain_pairs(bs, i).len() ==> to_map(bs).contains_key(drain_pairs(bs, i)[t].0@)
                && to_map(bs)[drain_pairs(bs, i)[t].0@] == drain_pairs(bs, i)[t].1,
    decreases bs.len() - i,
{
    if 0 <= i < bs.len() {
        lemma_drain_members(bs, i + 1);
        let d = drain_pairs(bs, i);
        let m = bs[i].len() as int;
        assert forall|t: int|
            0 <= t < d.len() implies to_map(bs).contains_key(#[trigger] d[t].0@) && to_map(bs)[
            d[t].0@
        ] == d[t].1 by {
            if t < m {
                assert(d[t] == bs[i][m - 1 - t]);
                bucket::lemma_lookup(bs, i, m - 1 - t);
            } else {
                assert(d[t] == drain_pairs(bs, i + 1)[t - m]);
            }
        }
    }
}

/// A drain yields as many pairs as a cursor from the same spot.
proof fn lemma_drain_len<K: MapKey, V>(bs: Seq<Seq<(K, V)>>, i: int)
    ensures
        drain_pairs(bs, i).len() == tail_pairs(bs, i, 0).len(),
    decreases bs.len() - i,
{
    if 0 <= i < bs.len() {
        lemma_drain_len(bs, i + 1);
        assert(bs[i].skip(0) =~= bs[i]);
    }
}

/// The stored position a drain's `t`-th pair comes from.
proof fn drain_position_of<K: MapKey, V>(bs: Seq<Seq<(K, V)>>, i: int, t: int) -> (p: (int, int))
    requires
        0 <= i,
        0 <= t < drain_pairs(bs, i).len(),
    ensures
        valid_at(bs, p.0, p.1),
        p.0 >= i,
        bs[p.0][p.1] == drain_pairs(bs, i)[t],
    decreases bs.len() - i,
{
    let m = bs[i].len() as int;
    if t < m {
        assert(drain_pairs(bs, i)[t] == bs[i].reverse()[t]);
        (i, m - 1 - t)
    } else {
        drain_position_of(bs, i + 1, t - m)
    }
}

/// The drain index at which the pair stored at `(i2, j2)` is yielded.
proof fn drain_index_of<K: MapKey, V>(bs: Seq<Seq<(K, V)>>, i: int, i2: int, j2: int) -> (t: int)
    requires
        0 <= i <= i2,
        valid_at(bs, i2, j2),
    ensures
        0 <= t < drain_pairs(bs, i).len(),
        drain_pairs(bs, i)[t] == bs[i2][j2],
    decreases bs.len() - i,
{
    let m = bs[i].len() as int;
    if i2 == i {
        assert(drain_pairs(bs, i)[m - 1 - j2] == bs[i].reverse()[m - 1 - j2]);
        assert(bs[i].reverse()[m - 1 - j2] == bs[i][j2]);
        m - 1 - j2
    } else {
        m + drain_index_of(bs, i + 1, i2, j2)
    }
}

/// With pairwise distinct stored keys, a drain yields no key twice.
proof fn lemma_drain_distinct<K: MapKey, V>(bs: Seq<Seq<(K, V)>>, i: int)
    requires
        all_distinct(bs),
        0 <= i,
    ensures
        forall|t1: int, t2: int|
            #![trigger drain_pairs(bs, i)[t1], drain_pairs(bs, i)[t2]]
            0 <= t1 < t2 < drain_pairs(bs, i).len() ==> drain_pairs(bs, i)[t1].0@ != drain_pairs(
                bs,
                i,
            )[t2].0@,
    decreases bs.len() - i,
{
    if 0 <= i < bs.len() {
        lemma_drain_distinct(bs, i + 1);
        let d = drain_pairs(bs, i);
        let m = bs[i].len() as int;
        assert forall|t1: int, t2: int|
            0 <= t1 < t2 < d.len() implies #[trigger] d[t1].0@ != #[trigger] d[t2].0@ by {
            if t2 < m {
                assert(d[t1] == bs[i][m - 1 - t1]);
                assert(d[t2] == bs[i][m - 1 - t2]);
                assert(key_at(bs, i, m - 1 - t1) != key_at(bs, i, m - 1 - t2));
            } else if t1 < m {
                assert(d[t1] == bs[i][m - 1 - t1]);
                assert(d[t2] == drain_pairs(bs, i + 1)[t2 - m]);
                let p = drain_position_of(bs, i + 1, t2 - m);
                assert(key_at(bs, i, m - 1 - t1) != key_at(bs, p.0, p.1));
            } else {
                assert(d[t1] == drain_pairs(bs, i + 1)[t1 - m]);
                assert(d[t2] == drain_pairs(bs, i + 1)[t2 - m]);
            }
        }
    }
}

/// A consuming iterator: owns the container and drains it bucket by
/// bucket; the container is unusable afterwards.
pub struct IntoIter<K: MapKey, V> {
    pub(crate) map: HashMap<K, V>,
    pub(crate) curr_bucket: usize,
}

impl<K: MapKey, V> IntoIter<K, V> {
    /// The cursor has not run past the bucket store.
    pub closed spec fn wf(self) -> bool {
        self.curr_bucket as int <= self.map.num_buckets()
    }

    /// The pairs not yet yielded.
    pub closed spec fn remaining(self) -> Seq<(K, V)> {
        drain_pairs(self.map.bucket_seqs(), self.curr_bucket as int)
    }

    /// Yields the next pair by value, removing it from its bucket, or
    /// reports that the container is drained.
    pub fn next(&mut self) -> (r: Option<(K, V)>)
        requires
            old(self).wf(),
        ensures
            final(self).wf(),
            (match r {
                Some(kv) => old(self).remaining().len() > 0 && kv == old(self).remaining()[0]
                    && final(self).remaining() == old(self).remaining().drop_first(),
                None => old(self).remaining().len() == 0 && final(self).remaining() == old(
                    self,
                ).remaining(),
            }),
    {
        loop
            invariant
                self.wf(),
                self.remaining() == old(self).remaining(),
            decreases self.map.num_buckets() - self.curr_bucket as int,
        {
            let ghost bs = self.map.bucket_seqs();
            let ghost cb = self.curr_bucket as int;
            if self.curr_bucket >= self.map.buckets.len() {
                return None;
            }
            let blen = self.map.buckets[self.curr_bucket].len();
            if blen > 0 {
                let pair = crate::map::take_pair(&mut self.map.buckets, self.curr_bucket, blen - 1);
                proof {
                    let bs2 = self.map.bucket_seqs();
                    assert(bs2 =~= bs.update(cb, bs[cb].drop_last())) by {
                        assert(bs[cb].update(blen - 1 as int, bs[cb].last()).drop_last() =~= bs[
                            cb
                        ].drop_last());
                    }
                    assert(pair == bs[cb].last());
                    assert(bs[cb].reverse()[0] == bs[cb].last());
                    lemma_drain_unchanged(bs, bs2, cb + 1);
                    assert(bs2[cb].reverse() =~= bs[cb].reverse().drop_first());
                    assert(drain_pairs(bs2, cb) =~= drain_pairs(bs, cb).drop_first());
                }
                return Some(pair);
            }
            proof {
                assert(bs[cb].reverse() =~= Seq::<(K, V)>::empty());
                assert(Seq::<(K, V)>::empty() + drain_pairs(bs, cb + 1) =~= drain_pairs(
                    bs,
                    cb + 1,
                ));
            }
            self.curr_bucket = self.curr_bucket + 1;
        }
    }
}

impl<K: MapKey, V> HashMap<K, V> {
    /// Begins consuming iteration. The pairs it will yield are exactly the
    /// container's contents, a permutation of the stored pairs: one per
    /// stored key, each matching what `get` returned, every stored key
    /// among them, in no promised order.
    pub fn into_iter(self) -> (it: IntoIter<K, V>)
        requires
            self.wf(),
        ensures
            it.wf(),
            it.remaining().len() == self@.len(),
            forall|t: int|
                #![trigger it.remaining()[t]]
                0 <= t < it.remaining().len() ==> self@.contains_key(it.remaining()[t].0@)
                    && self@[it.remaining()[t].0@] == it.remaining()[t].1,
            forall|a: K::V|
                self@.contains_key(a) ==> exists|t: int|
                    0 <= t < it.remaining().len() && #[trigger] it.remaining()[t].0@ == a,
            forall|t1: int, t2: int|
                #![trigger it.remaining()[t1], it.remaining()[t2]]
                0 <= t1 < t2 < it.remaining().len() ==> it.remaining()[t1].0@ != it.remaining()[
                    t2
                ].0@,
    {
        let it = IntoIter { map: self, curr_bucket: 0 };
        proof {
            let bs = self.bucket_seqs();
            lemma_pairs_match_map(bs);
            lemma_drain_len(bs, 0);
            lemma_drain_members(bs, 0);
            lemma_drain_distinct(bs, 0);
            assert(it.remaining() == drain_pairs(bs, 0));
            assert forall|a: K::V| self@.contains_key(a) implies exists|t: int|
                0 <= t < it.remaining().len() && #[trigger] it.remaining()[t].0@ == a by {
                let p = choose|p: (int, int)| #[trigger] valid_at(bs, p.0, p.1) && bucket::key_at(
                    bs,
                    p.0,
                    p.1,
                ) == a;
                let t = drain_index_of(bs, 0, p.0, p.1);
                assert(it.remaining()[t].0@ == a);
            }
        }
        it
    }
}

} // verus!
