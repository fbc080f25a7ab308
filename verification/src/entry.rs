//! The entry protocol: a two-state handle produced by a single lookup,
//! letting callers insert or update without hashing or scanning again.
//!
//! A handle carries no borrow of the container; it captures the routed
//! bucket (and, when occupied, the position inside it), as an arena-and-
//! index token. Each terminal operation takes the container back, demands
//! through `wf` that the handle still describes it, and consumes the
//! handle.

use vstd::prelude::*;

use crate::bucket;
use crate::bucket::{slot_of, valid_at};
use crate::key::MapKey;
use crate::map::{bucket_of_key, push_into, scan_bucket, take_pair, value_mut, HashMap};

verus! {

/// A handle to a pair that is present: its bucket and position.
pub struct OccupiedEntry {
    pub(crate) bucket: usize,
    pub(crate) pos: usize,
}

/// A handle to a key that is absent: the key and the bucket it routes to.
pub struct VacantEntry<K: MapKey> {
    pub(crate) key: K,
    pub(crate) bucket: usize,
}

/// The result of `entry`: either state of the handle.
pub enum Entry<K: MapKey> {
    Occupied(OccupiedEntry),
    Vacant(VacantEntry<K>),
}

impl OccupiedEntry {
    /// The handle addresses a stored pair of `m`, which is well-formed and
    /// has room to absorb one insertion without growing.
    pub closed spec fn wf<K: MapKey, V>(self, m: HashMap<K, V>) -> bool {
        &&& m.wf()
        &&& m.num_buckets() > 0
        &&& m.items as int <= 3 * m.num_buckets() / 4
        &&& valid_at(m.bucket_seqs(), self.bucket as int, self.pos as int)
    }

    /// The abstract key of the addressed pair.
    pub closed spec fn key_abs<K: MapKey, V>(self, m: HashMap<K, V>) -> K::V {
        bucket::key_at(m.bucket_seqs(), self.bucket as int, self.pos as int)
    }

    /// Borrows the addressed value mutably, consuming the handle. Whatever
    /// the caller writes through the borrow becomes the key's value; if it
    /// writes nothing, the container is unchanged.
    pub fn into_mut<'a, K: MapKey, V>(self, m: &'a mut HashMap<K, V>) -> (r: &'a mut V)
        requires
            self.wf(*old(m)),
        ensures
            final(m).wf(),
            *r == old(m)@[self.key_abs(*old(m))],
            old(m)@.contains_key(self.key_abs(*old(m))),
            final(m)@ == old(m)@.insert(self.key_abs(*old(m)), *final(r)),
            final(m)@.dom() == old(m)@.dom(),
            final(m)@.len() == old(m)@.len(),
            *final(r) == old(m)@[self.key_abs(*old(m))] ==> final(m)@ == old(m)@,
    {
        let ghost cur0 = m.bucket_seqs();
        let ghost gorig = old(m)@;
        let ghost a0 = self.key_abs(*m);
        let ghost n = m.num_buckets();
        let ghost j = self.pos as int;
        let ghost b = self.bucket as int;
        proof {
            bucket::lemma_lookup(cur0, b, j);
        }
        let r = value_mut(&mut m.buckets, self.bucket, self.pos);
        proof {
            let w = *final(r);
            bucket::lemma_set_val(cur0, b, j, w);
            bucket::lemma_set_val_routed(cur0, b, j, w, n);
            let fbs = crate::map::bucket_views(after_borrow(m.buckets)@);
            assert(fbs =~= cur0.update(b, cur0[b].update(j, (cur0[b][j].0, w))));
            assert(bucket::to_map(fbs) == gorig.insert(a0, w));
            assert(bucket::to_map(fbs).dom() =~= gorig.dom());
            assert(gorig.insert(a0, gorig[a0]) =~= gorig);
        }
        r
    }
}

impl<K: MapKey> VacantEntry<K> {
    /// The captured key is absent from `m`, which is well-formed, routed
    /// the key to `bucket`, and has room for the pending insertion.
    pub closed spec fn wf<V>(self, m: HashMap<K, V>) -> bool {
        &&& m.wf()
        &&& m.num_buckets() > 0
        &&& m.items as int <= 3 * m.num_buckets() / 4
        &&& !m@.contains_key(self.key@)
        &&& self.bucket as int == slot_of(self.key.hash_spec(), m.num_buckets())
    }

    /// The abstract value of the captured key.
    pub closed spec fn key_abs(self) -> K::V {
        self.key@
    }

    /// Appends `(key, value)` to the captured bucket — no second hash or
    /// scan — and returns a reference to the stored value.
    pub fn insert<'a, V>(self, m: &'a mut HashMap<K, V>, value: V) -> (r: &'a mut V)
        requires
            self.wf(*old(m)),
        ensures
            final(m).wf(),
            *r == value,
            final(m)@ == old(m)@.insert(self.key_abs(), *final(r)),
            final(m)@.len() == old(m)@.len() + 1,
    {
        let ghost cur0 = m.bucket_seqs();
        let ghost gkey = self.key;
        let ghost gval = value;
        let ghost n = m.num_buckets();
        let ghost a0 = self.key@;
        let b = self.bucket;
        proof {
            assert(bucket::has_key(cur0, gkey@) == old(m)@.contains_key(gkey@));
            bucket::lemma_push(cur0, b as int, (gkey, gval));
        }
        push_into(&mut m.buckets, b, (self.key, value));
        m.items = m.items + 1;
        let ghost gmid = m.bucket_seqs();
        proof {
            assert(gmid =~= cur0.update(b as int, cur0[b as int].push((gkey, gval))));
            assert(m@ == old(m)@.insert(a0, gval));
            assert(m@.dom() =~= old(m)@.dom().insert(a0));
            assert(bucket::routed(gmid, n)) by {
                assert forall|i: int, t: int| #[trigger]
                    valid_at(gmid, i, t) implies slot_of(gmid[i][t].0.hash_spec(), n) == i by {
                    if !(i == b && t == cur0[b as int].len()) {
                        assert(valid_at(cur0, i, t) && gmid[i][t] == cur0[i][t]);
                    }
                }
            }
        }
        let ghost gorig = old(m)@;
        let blen = m.buckets[b].len();
        let r = value_mut(&mut m.buckets, b, blen - 1);
        proof {
            let w = *final(r);
            let j = (blen - 1) as int;
            bucket::lemma_set_val(gmid, b as int, j, w);
            bucket::lemma_set_val_routed(gmid, b as int, j, w, n);
            let fbs = crate::map::bucket_views(after_borrow(m.buckets)@);
            assert(fbs =~= gmid.update(b as int, gmid[b as int].update(j, (gmid[b as int][j].0, w))));
            assert(bucket::key_at(gmid, b as int, j) == a0);
            assert(bucket::to_map(fbs) == gorig.insert(a0, gval).insert(a0, w));
            assert(gorig.insert(a0, gval).insert(a0, w) =~= gorig.insert(a0, w));
            assert(bucket::to_map(fbs).dom() =~= gorig.dom().insert(a0));
        }
        r
    }
}

impl<K: MapKey> Entry<K> {
    /// Whether the handle is in the occupied state.
    pub open spec fn is_occupied(self) -> bool {
        self matches Entry::Occupied(_)
    }

    /// The handle addresses `m` correctly in either state.
    pub open spec fn wf<V>(self, m: HashMap<K, V>) -> bool {
        match self {
            Entry::Occupied(e) => e.wf(m),
            Entry::Vacant(e) => e.wf(m),
        }
    }

    /// The abstract key the handle was created for.
    pub open spec fn key_abs<V>(self, m: HashMap<K, V>) -> K::V {
        match self {
            Entry::Occupied(e) => e.key_abs(m),
            Entry::Vacant(e) => e.key_abs(),
        }
    }

    /// Returns a reference to the present value, or inserts `value` and
    /// returns a reference to it. Consumes the handle.
    pub fn or_insert<'a, V>(self, m: &'a mut HashMap<K, V>, value: V) -> (r: &'a mut V)
        requires
            self.wf(*old(m)),
        ensures
            final(m).wf(),
            *r == (if self.is_occupied() {
                old(m)@[self.key_abs(*old(m))]
            } else {
                value
            }),
            final(m)@ == old(m)@.insert(self.key_abs(*old(m)), *final(r)),
            final(m)@.len() == (if self.is_occupied() {
                old(m)@.len()
            } else {
                old(m)@.len() + 1
            }),
            self.is_occupied() && *final(r) == old(m)@[self.key_abs(*old(m))] ==> final(m)@ == old(
                m,
            )@,
    {
        match self {
            Entry::Occupied(e) => e.into_mut(m),
            Entry::Vacant(e) => e.insert(m, value),
        }
    }

    /// Returns a reference to the present value, or runs `maker` — only
    /// then, so its effects happen for vacant keys alone — and inserts what
    /// it produces. Consumes the handle.
    pub fn or_insert_with<'a, V, F: FnOnce() -> V>(self, m: &'a mut HashMap<K, V>, maker: F) -> (r:
        &'a mut V)
        requires
            self.wf(*old(m)),
            !self.is_occupied() ==> call_requires(maker, ()),
        ensures
            final(m).wf(),
            final(m)@ == old(m)@.insert(self.key_abs(*old(m)), *final(r)),
            self.is_occupied() ==> *r == old(m)@[self.key_abs(*old(m))] && final(m)@.len() == old(
                m,
            )@.len(),
            self.is_occupied() && *final(r) == old(m)@[self.key_abs(*old(m))] ==> final(m)@ == old(
                m,
            )@,
            !self.is_occupied() ==> (exists|v: V| #[trigger] call_ensures(maker, (), v) && *r == v)
                && final(m)@.len() == old(m)@.len() + 1,
    {
        match self {
            Entry::Occupied(e) => e.into_mut(m),
            Entry::Vacant(e) => {
                let value = maker();
                e.insert(m, value)
            },
        }
    }

    /// Returns a reference to the present value, or inserts the value
    /// type's default construction. Consumes the handle.
    pub fn or_default<'a, V: Default>(self, m: &'a mut HashMap<K, V>) -> (r: &'a mut V)
        requires
            self.wf(*old(m)),
        ensures
            final(m).wf(),
            final(m)@ == old(m)@.insert(self.key_abs(*old(m)), *final(r)),
            self.is_occupied() ==> *r == old(m)@[self.key_abs(*old(m))] && final(m)@.len() == old(
                m,
            )@.len(),
            self.is_occupied() && *final(r) == old(m)@[self.key_abs(*old(m))] ==> final(m)@ == old(
                m,
            )@,
            !self.is_occupied() ==> (exists|v: V| #[trigger] call_ensures(V::default, (), v) && *r
                == v) && final(m)@.len() == old(m)@.len() + 1,
    {
        match self {
            Entry::Occupied(e) => e.into_mut(m),
            Entry::Vacant(e) => {
                let value = V::default();
                e.insert(m, value)
            },
        }
    }

    /// In the occupied state, replaces the stored value with what
    /// `modifier` makes of it, in place, and stays occupied so a terminal
    /// operation can be chained; in the vacant state, hands the handle back
    /// untouched without running `modifier`.
    pub fn and_modify<V, F: FnOnce(V) -> V>(self, m: &mut HashMap<K, V>, modifier: F) -> (e2: Self)
        requires
            self.wf(*old(m)),
            self.is_occupied() ==> call_requires(
                modifier,
                (old(m)@[self.key_abs(*old(m))],),
            ),
        ensures
            final(m).wf(),
            e2.wf(*final(m)),
            e2.is_occupied() == self.is_occupied(),
            e2.key_abs(*final(m)) == self.key_abs(*old(m)),
            !self.is_occupied() ==> final(m)@ == old(m)@ && e2 == self,
            self.is_occupied() ==> (exists|w: V|
                {
                    &&& #[trigger] call_ensures(modifier, (old(m)@[self.key_abs(*old(m))],), w)
                    &&& final(m)@ == old(m)@.insert(self.key_abs(*old(m)), w)
                }),
            final(m)@.len() == old(m)@.len(),
            final(m)@.dom() == old(m)@.dom(),
    {
        match self {
            Entry::Occupied(e) => {
                let ghost cur0 = m.bucket_seqs();
                let ghost a0 = e.key_abs(*m);
                let ghost n = m.num_buckets();
                let b = e.bucket;
                proof {
                    bucket::lemma_lookup(cur0, b as int, e.pos as int);
                    bucket::lemma_swap_remove(cur0, b as int, e.pos as int);
                }
                let pair = take_pair(&mut m.buckets, b, e.pos);
                let ghost cur1 = m.bucket_seqs();
                let ghost gkey = pair.0;
                let modified = modifier(pair.1);
                let ghost gval = modified;
                proof {
                    assert(cur1 =~= cur0.update(
                        b as int,
                        cur0[b as int].update(e.pos as int, cur0[b as int].last()).drop_last(),
                    ));
                    bucket::lemma_push(cur1, b as int, (gkey, gval));
                }
                push_into(&mut m.buckets, b, (pair.0, modified));
                proof {
                    assert(m.bucket_seqs() =~= cur1.update(
                        b as int,
                        cur1[b as int].push((gkey, gval)),
                    ));
                    assert(m@ == old(m)@.remove(a0).insert(a0, gval));
                    assert(old(m)@.remove(a0).insert(a0, gval) =~= old(m)@.insert(a0, gval));
                    assert(m@.dom() =~= old(m)@.dom());
                    assert(bucket::routed(m.bucket_seqs(), n)) by {
                        assert forall|i: int, t: int| #[trigger]
                            valid_at(m.bucket_seqs(), i, t) implies slot_of(
                            m.bucket_seqs()[i][t].0.hash_spec(),
                            n,
                        ) == i by {
                            let cur2 = m.bucket_seqs();
                            if i == b && t == cur2[b as int].len() - 1 {
                                assert(cur2[i][t].0 == cur0[b as int][e.pos as int].0);
                                assert(valid_at(cur0, b as int, e.pos as int));
                            } else {
                                assert(valid_at(cur1, i, t) && cur2[i][t] == cur1[i][t]);
                                if i == b && t == e.pos as int && (e.pos as int) < cur0[
                                    b as int
                                ].len() - 1 {
                                    assert(cur1[i][t] == cur0[b as int][cur0[b as int].len() - 1]);
                                    assert(valid_at(cur0, b as int, cur0[b as int].len() - 1));
                                } else {
                                    assert(valid_at(cur0, i, t) && cur1[i][t] == cur0[i][t]);
                                }
                            }
                        }
                    }
                }
                let new_pos = m.buckets[b].len() - 1;
                proof {
                    bucket::lemma_lookup(m.bucket_seqs(), b as int, new_pos as int);
                }
                Entry::Occupied(OccupiedEntry { bucket: b, pos: new_pos })
            },
            Entry::Vacant(e) => Entry::Vacant(e),
        }
    }
}

impl<K: MapKey, V> HashMap<K, V> {
    /// Looks a key up once — growing the store first if an insertion would
    /// pass the load threshold, since growth re-routes keys — and returns a
    /// handle in the occupied or vacant state, through which callers insert
    /// or update without a second hash or scan.
    pub fn entry(&mut self, key: K) -> (e: Entry<K>)
        requires
            old(self).wf(),
            old(self)@.len() < crate::map::capacity_limit(),
        ensures
            final(self)@ == old(self)@,
            e.wf(*final(self)),
            e.key_abs(*final(self)) == key@,
            e.is_occupied() == old(self)@.contains_key(key@),
    {
        let n0 = self.buckets.len();
        if n0 == 0 || self.items + 1 > 3 * n0 / 4 {
            self.resize();
        }
        let n = self.buckets.len();
        assert(self.items <= 3 * self.num_buckets() / 4);
        let b = bucket_of_key(&key, n);
        match scan_bucket(&self.buckets[b], &key) {
            Some(j) => {
                proof {
                    bucket::lemma_lookup(self.bucket_seqs(), b as int, j as int);
                }
                Entry::Occupied(OccupiedEntry { bucket: b, pos: j })
            },
            None => {
                proof {
                    bucket::lemma_bucket_miss(self.bucket_seqs(), n as int, key);
                }
                Entry::Vacant(VacantEntry { key, bucket: b })
            },
        }
    }
}

} // verus!
