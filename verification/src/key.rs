//! The capability a key type must offer: a deterministic hash and an
//! equality test, both answering to the key's abstract value (its view).
//!
//! The router places a key into a bucket by `hash mod bucket_count`, so the
//! whole container is correct exactly when hashing is a function of the
//! key's abstract value and the executable equality decides equality of
//! abstract values. Both obligations are proved, not assumed, by each
//! implementation here.

use vstd::prelude::*;
use vstd::string::StringSliceAdditionalSpecFns;
use vstd::utf8::encode_utf8_decode_utf8;

verus! {

/// Seed of the 64-bit FNV-1a hash.
pub const FNV_OFFSET_BASIS: u64 = 0xcbf29ce484222325;

/// Multiplier of the 64-bit FNV-1a hash.
pub const FNV_PRIME: u64 = 0x100000001b3;

/// The 64-bit FNV-1a hash of a byte sequence.
pub open spec fn fnv1a(bytes: Seq<u8>) -> u64
    decreases bytes.len(),
{
    if bytes.len() == 0 {
        FNV_OFFSET_BASIS
    } else {
        (fnv1a(bytes.drop_last()) ^ (bytes.last() as u64)).wrapping_mul(FNV_PRIME)
    }
}

/// What a hash-map key must provide: a hash that is a mathematical function
/// of the key's abstract value, and an executable equality that decides
/// equality of abstract values.
pub trait MapKey: View + Sized {
    /// The mathematical hash of this key.
    spec fn hash_spec(self) -> u64;

    /// Keys with equal abstract values hash alike, so every representative
    /// of a key routes to the same bucket under a fixed bucket count.
    proof fn lemma_hash_congruent(self, other: Self)
        requires
            self@ == other@,
        ensures
            self.hash_spec() == other.hash_spec(),
    ;

    /// Computes the hash of this key.
    fn hash_key(&self) -> (h: u64)
        ensures
            h == self.hash_spec(),
    ;

    /// Decides whether two keys have the same abstract value.
    fn key_eq(&self, other: &Self) -> (b: bool)
        ensures
            b == (self@ == other@),
    ;
}

/// The capability to look a key up in a container whose stored keys have
/// type `K`, without constructing a `K`: a hash that agrees with the stored
/// keys' hash on equal abstract values, and an equality test against a
/// stored key. Every key type can query itself; a borrowed form of a key —
/// a string slice for an owned string — can query the owned form.
pub trait QueryKey<K: MapKey>: Sized {
    /// The abstract value this query stands for.
    spec fn query_abs(self) -> K::V;

    /// The mathematical hash of this query.
    spec fn query_hash(self) -> u64;

    /// The query hashes as every stored key with its abstract value does,
    /// so both route to the same bucket.
    proof fn lemma_query_hash(self, k: K)
        requires
            k@ == self.query_abs(),
        ensures
            k.hash_spec() == self.query_hash(),
    ;

    /// Computes the hash of this query.
    fn hash_query(&self) -> (h: u64)
        ensures
            h == self.query_hash(),
    ;

    /// Decides whether this query stands for a stored key's abstract value.
    fn query_eq(&self, k: &K) -> (b: bool)
        ensures
            b == (self.query_abs() == k@),
    ;
}

impl<K: MapKey> QueryKey<K> for K {
    open spec fn query_abs(self) -> K::V {
        self@
    }

    open spec fn query_hash(self) -> u64 {
        self.hash_spec()
    }

    proof fn lemma_query_hash(self, k: K) {
        k.lemma_hash_congruent(self);
    }

    fn hash_query(&self) -> (h: u64) {
        self.hash_key()
    }

    fn query_eq(&self, k: &K) -> (b: bool) {
        self.key_eq(k)
    }
}

impl<'s> QueryKey<String> for &'s str {
    open spec fn query_abs(self) -> Seq<char> {
        self@
    }

    open spec fn query_hash(self) -> u64 {
        fnv1a(self.spec_bytes())
    }

    proof fn lemma_query_hash(self, k: String) {
    }

    fn hash_query(&self) -> (h: u64) {
        fnv1a_str(self)
    }

    fn query_eq(&self, k: &String) -> (b: bool) {
        let ks: &str = k.as_str();
        self.key_eq(&ks)
    }
}

impl MapKey for u64 {
    open spec fn hash_spec(self) -> u64 {
        self.wrapping_mul(0x9e3779b97f4a7c15)
    }

    proof fn lemma_hash_congruent(self, other: Self) {
    }

    fn hash_key(&self) -> (h: u64) {
        self.wrapping_mul(0x9e3779b97f4a7c15)
    }

    fn key_eq(&self, other: &Self) -> (b: bool) {
        *self == *other
    }
}

/// The FNV-1a hash of a string's UTF-8 encoding, computed byte by byte.
fn fnv1a_str(s: &str) -> (h: u64)
    ensures
        h == fnv1a(s.spec_bytes()),
{
    let bytes: &[u8] = s.as_bytes();
    let mut h: u64 = FNV_OFFSET_BASIS;
    let mut i: usize = 0;
    while i < bytes.len()
        invariant
            i <= bytes@.len(),
            bytes@ == s.spec_bytes(),
            h == fnv1a(bytes@.take(i as int)),
        decreases bytes@.len() - i,
    {
        proof {
            assert(bytes@.take(i + 1 as int).drop_last() =~= bytes@.take(i as int));
            assert(bytes@.take(i + 1 as int).last() == bytes@[i as int]);
        }
        h = (h ^ (bytes[i] as u64)).wrapping_mul(FNV_PRIME);
        i += 1;
    }
    proof {
        assert(bytes@.take(i as int) =~= bytes@);
    }
    h
}

impl MapKey for String {
    open spec fn hash_spec(self) -> u64 {
        fnv1a(vstd::utf8::encode_utf8(self@))
    }

    proof fn lemma_hash_congruent(self, other: Self) {
    }

    fn hash_key(&self) -> (h: u64) {
        fnv1a_str(self.as_str())
    }

    fn key_eq(&self, other: &Self) -> (b: bool) {
        let a: &str = self.as_str();
        let c: &str = other.as_str();
        a.key_eq(&c)
    }
}

impl<'s> MapKey for &'s str {
    open spec fn hash_spec(self) -> u64 {
        fnv1a(self.spec_bytes())
    }

    proof fn lemma_hash_congruent(self, other: Self) {
    }

    fn hash_key(&self) -> (h: u64) {
        fnv1a_str(self)
    }

    fn key_eq(&self, other: &Self) -> (b: bool) {
        let a: &[u8] = self.as_bytes();
        let c: &[u8] = other.as_bytes();
        if a.len() != c.len() {
            return false;
        }
        let mut i: usize = 0;
        while i < a.len()
            invariant
                i <= a@.len(),
                a@.len() == c@.len(),
                a@ == self.spec_bytes(),
                c@ == other.spec_bytes(),
                forall|k: int| 0 <= k < i ==> a@[k] == c@[k],
            decreases a@.len() - i,
        {
            if a[i] != c[i] {
                return false;
            }
            i += 1;
        }
        proof {
            assert(self.spec_bytes() =~= other.spec_bytes());
            encode_utf8_decode_utf8(self@);
            encode_utf8_decode_utf8(other@);
        }
        true
    }
}

} // verus!
