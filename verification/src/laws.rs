//! The container's algebraic laws, stated over the `Map` view that every
//! operation's contract speaks of, and proved once and for all.

use vstd::prelude::*;

use crate::key::MapKey;
use crate::map::map_of_pairs;

verus! {

/// Building a container from any sequence of pairs — by bulk construction
/// or by inserting them in order — stores exactly the sequence's distinct
/// keys: duplicates overwrite, they do not accumulate, so the length is the
/// number of distinct keys.
pub proof fn lemma_len_counts_distinct_keys<K: MapKey, V>(s: Seq<(K, V)>)
    ensures
        map_of_pairs(s).dom() =~= Set::new(
            |a: K::V| exists|t: int| 0 <= t < s.len() && #[trigger] s[t].0@ == a,
        ),
        map_of_pairs(s).dom().finite(),
        map_of_pairs(s).len() == Set::new(
            |a: K::V| exists|t: int| 0 <= t < s.len() && #[trigger] s[t].0@ == a,
        ).len(),
    decreases s.len(),
{
    let keys = Set::new(|a: K::V| exists|t: int| 0 <= t < s.len() && #[trigger] s[t].0@ == a);
    if s.len() == 0 {
        assert forall|a: K::V| !#[trigger] keys.contains(a) by {}
        assert(map_of_pairs(s).dom() =~= keys);
    } else {
        let s0 = s.drop_last();
        lemma_len_counts_distinct_keys(s0);
        let keys0 = Set::new(
            |a: K::V| exists|t: int| 0 <= t < s0.len() && #[trigger] s0[t].0@ == a,
        );
        let k = s.last().0@;
        assert forall|a: K::V| #[trigger] keys.contains(a) implies keys0.insert(k).contains(a) by {
            let t = choose|t: int| 0 <= t < s.len() && #[trigger] s[t].0@ == a;
            if t < s.len() - 1 {
                assert(s0[t].0@ == a);
            }
        }
        assert forall|a: K::V| keys0.insert(k).contains(a) implies #[trigger] keys.contains(a) by {
            if a == k {
                assert(s[s.len() - 1].0@ == a);
            } else {
                let t = choose|t: int| 0 <= t < s0.len() && #[trigger] s0[t].0@ == a;
                assert(s[t].0@ == a);
            }
        }
        assert(keys =~= keys0.insert(k));
        assert(map_of_pairs(s).dom() =~= keys);
    }
}

/// Insert-then-get round trip: after inserting a key, looking it up yields
/// the inserted value, and every other key's presence and value are
/// untouched — so the round trip holds until the key is overwritten or
/// removed.
pub proof fn lemma_insert_get_roundtrip<K: MapKey, V>(m: Map<K::V, V>, a: K::V, v: V)
    ensures
        m.insert(a, v).contains_key(a),
        m.insert(a, v)[a] == v,
        forall|b: K::V| b != a ==> #[trigger] m.insert(a, v).contains_key(b) == m.contains_key(b),
        forall|b: K::V|
            b != a && m.contains_key(b) ==> #[trigger] m.insert(a, v)[b] == m[b],
{
}

/// Insert overwrite: inserting twice under one key stores the second value,
/// the first insertion's value is what the second call hands back, and the
/// length does not change on the second call.
pub proof fn lemma_insert_overwrite<K: MapKey, V>(m: Map<K::V, V>, a: K::V, v1: V, v2: V)
    requires
        m.dom().finite(),
    ensures
        m.insert(a, v1)[a] == v1,
        m.insert(a, v1).insert(a, v2) == m.insert(a, v2),
        m.insert(a, v1).insert(a, v2)[a] == v2,
        m.insert(a, v1).insert(a, v2).len() == m.insert(a, v1).len(),
{
    assert(m.insert(a, v1).insert(a, v2) =~= m.insert(a, v2));
    assert(m.insert(a, v1).dom() =~= m.dom().insert(a));
    assert(m.insert(a, v2).dom() =~= m.dom().insert(a));
}

/// Remove-then-absence: after removing a key it is absent — lookup yields
/// nothing and containment is false — until the key is inserted again, at
/// which point it is present once more.
pub proof fn lemma_remove_then_absent<K: MapKey, V>(m: Map<K::V, V>, a: K::V, v: V)
    ensures
        !m.remove(a).contains_key(a),
        forall|b: K::V| b != a ==> #[trigger] m.remove(a).contains_key(b) == m.contains_key(b),
        forall|b: K::V| b != a && m.contains_key(b) ==> #[trigger] m.remove(a)[b] == m[b],
        m.remove(a).insert(a, v).contains_key(a),
        m.remove(a).insert(a, v)[a] == v,
{
}

/// A terminal insertion through a vacant entry is exactly one insertion:
/// the key becomes present and the length grows by exactly one. The handle
/// is consumed by the operation, so it cannot insert twice.
pub proof fn lemma_vacant_insert_once<K: MapKey, V>(m: Map<K::V, V>, a: K::V, v: V)
    requires
        m.dom().finite(),
        !m.contains_key(a),
    ensures
        m.insert(a, v).contains_key(a),
        m.insert(a, v)[a] == v,
        m.insert(a, v).len() == m.len() + 1,
{
    assert(m.insert(a, v).dom() =~= m.dom().insert(a));
}

/// Growth never loses or duplicates a key: an insertion — however many
/// bucket-store doublings it triggers inside — changes the view by exactly
/// one binding, so every previously stored key keeps its value and the
/// length grows by at most one.
pub proof fn lemma_growth_preserves_contents<K: MapKey, V>(m: Map<K::V, V>, a: K::V, v: V)
    requires
        m.dom().finite(),
    ensures
        forall|b: K::V| m.contains_key(b) ==> #[trigger] m.insert(a, v).contains_key(b),
        forall|b: K::V| b != a && m.contains_key(b) ==> #[trigger] m.insert(a, v)[b] == m[b],
        m.insert(a, v).len() == if m.contains_key(a) {
            m.len()
        } else {
            m.len() + 1
        },
{
    assert(m.insert(a, v).dom() =~= m.dom().insert(a));
}

} // verus!
