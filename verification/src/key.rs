//! Keys of the map: a capability to hash a key and to compare two keys, both
//! as functions of the key's abstract view alone, so that equal keys always
//! hash alike.

use std::collections::hash_map::DefaultHasher;
use std::hash::Hasher;
use vstd::prelude::*;

verus! {

use vstd::std_specs::hash::DefaultHasherAdditionalSpecFns;
use vstd::utf8::encode_utf8;
use vstd::utf8::encode_utf8_decode_utf8;

/// A type usable as a key of the map.
///
/// Both operations are determined by the key's abstract view, so two keys
/// with equal views always hash to the same value, and `eq_key` decides
/// exactly that view equality. Hashing builds a fresh accumulator per call;
/// nothing is cached in the key.
pub trait HashKey: View + Sized {
    /// The hash of a key, as a function of its view.
    spec fn hash_spec(kv: Self::V) -> u64;

    /// Produce the key's hash.
    fn hash_key(&self) -> (h: u64)
        ensures
            h == Self::hash_spec(self@),
    ;

    /// Decide whether two keys have the same view.
    fn eq_key(&self, other: &Self) -> (r: bool)
        ensures
            r == (self@ == other@),
    ;
}

/// The hash of a piece of text: what a fresh `DefaultHasher` returns after
/// being fed the text's UTF-8 bytes in a single write.
pub open spec fn text_hash(kv: Seq<char>) -> u64 {
    DefaultHasher::spec_finish(seq![encode_utf8(kv)])
}

/// Hash a string slice by feeding its UTF-8 bytes to a fresh `DefaultHasher`.
fn hash_of_str(s: &str) -> (h: u64)
    ensures
        h == text_hash(s@),
{
    let mut hasher = DefaultHasher::new();
    hasher.write(s.as_bytes());
    proof {
        assert(hasher@ =~= seq![encode_utf8(s@)]);
    }
    hasher.finish()
}

/// Compare two string slices by their UTF-8 bytes; equal byte strings decode
/// to equal character sequences, so this decides view equality.
fn str_eq(a: &str, b: &str) -> (r: bool)
    ensures
        r == (a@ == b@),
{
    let ab = a.as_bytes();
    let bb = b.as_bytes();
    if ab.len() != bb.len() {
        return false;
    }
    let n = ab.len();
    let mut i: usize = 0;
    while i < n
        invariant
            i <= n,
            n == ab@.len(),
            n == bb@.len(),
            ab@ == encode_utf8(a@),
            bb@ == encode_utf8(b@),
            forall|j: int| 0 <= j < i ==> ab@[j] == bb@[j],
        decreases n - i,
    {
        if ab[i] != bb[i] {
            return false;
        }
        i += 1;
    }
    proof {
        assert(ab@ =~= bb@);
        encode_utf8_decode_utf8(a@);
        encode_utf8_decode_utf8(b@);
    }
    true
}

/// A borrowed form of a key of type `K`: a type whose values share `K`'s
/// view, and can hash and compare themselves exactly as `K` would, so that
/// the map can be queried without building an owned key.
pub trait BorrowedKey<K: HashKey>: View<V = K::V> + Sized {
    /// Produce the hash that `K` assigns to a key with this view.
    fn hash_borrowed(&self) -> (h: u64)
        ensures
            h == K::hash_spec(self@),
    ;

    /// Decide whether this lookup key has the same view as a stored key.
    fn eq_borrowed(&self, other: &K) -> (r: bool)
        ensures
            r == (self@ == other@),
    ;
}

/// Every key type is a borrowed form of itself.
impl<K: HashKey> BorrowedKey<K> for K {
    fn hash_borrowed(&self) -> (h: u64) {
        self.hash_key()
    }

    fn eq_borrowed(&self, other: &K) -> (r: bool) {
        self.eq_key(other)
    }
}

/// An owned text key can be looked up by a plain string slice: both hash
/// and compare through the same view, so no owned copy is needed.
impl<'a> BorrowedKey<String> for &'a str {
    fn hash_borrowed(&self) -> (h: u64) {
        hash_of_str(*self)
    }

    fn eq_borrowed(&self, other: &String) -> (r: bool) {
        str_eq(*self, other.as_str())
    }
}

impl HashKey for u64 {
    /// An integer is its own hash: distribution across buckets then follows
    /// the keys themselves, which suffices for correctness.
    open spec fn hash_spec(kv: u64) -> u64 {
        kv
    }

    fn hash_key(&self) -> (h: u64) {
        *self
    }

    fn eq_key(&self, other: &Self) -> (r: bool) {
        *self == *other
    }
}

impl HashKey for String {
    open spec fn hash_spec(kv: Seq<char>) -> u64 {
        text_hash(kv)
    }

    fn hash_key(&self) -> (h: u64) {
        hash_of_str(self.as_str())
    }

    fn eq_key(&self, other: &Self) -> (r: bool) {
        self.eq(other)
    }
}

impl<'a> HashKey for &'a str {
    open spec fn hash_spec(kv: Seq<char>) -> u64 {
        text_hash(kv)
    }

    fn hash_key(&self) -> (h: u64) {
        hash_of_str(*self)
    }

    fn eq_key(&self, other: &Self) -> (r: bool) {
        str_eq(*self, *other)
    }
}

} // verus!
