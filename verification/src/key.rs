//! What the table asks of its keys: a hash and an equality test, each with a
//! mathematical meaning that the table's contracts can speak of.
//!
//! A key is identified by its view. Two values denote the same key exactly
//! when their views are equal, and the hash of a key is a function of its view
//! alone. Every hash is the digest of a fresh `DefaultHasher`, which is not
//! seeded, so it is the same on every run.
//!
//! The keys that come with the crate feed the hasher what the standard
//! library's `Hash` feeds it for the same value: a string its UTF-8 bytes and
//! then the byte `0xff`, an integer its bytes. They differ from it in one
//! point: an integer's bytes are fed least significant first on every
//! machine, not in the machine's own order.

use std::collections::hash_map::DefaultHasher;
use std::hash::Hasher;
use vstd::bytes::spec_u64_to_le_bytes;
use vstd::bytes::u64_to_le_bytes;
use vstd::prelude::*;
use vstd::std_specs::hash::DefaultHasherAdditionalSpecFns;
use vstd::string::StringSliceAdditionalSpecFns;
use vstd::utf8::encode_utf8;
use vstd::utf8::encode_utf8_decode_utf8;

verus! {

/// A type whose values can be stored as keys.
pub trait Key: View + Sized {
    /// The hash of the key that `v` denotes.
    spec fn spec_hash(v: Self::V) -> u64;

    /// Computes the hash of this key.
    fn hash_code(&self) -> (h: u64)
        ensures
            h == Self::spec_hash(self@),
    ;

    /// Tells whether `self` and `other` denote the same key.
    fn same_key(&self, other: &Self) -> (same: bool)
        ensures
            same == (self@ == other@),
    ;
}

/// A form in which a key of type `K` can be presented for a lookup, such as
/// `str` for a table keyed by `String`.
///
/// The form hashes as the key it stands for and matches exactly the stored
/// keys that denote it, so a lookup by the form finds what a lookup by the key
/// would find.
pub trait Equivalent<K: Key> {
    /// The key that this value stands for.
    spec fn key(&self) -> K::V;

    /// Computes the hash of the key that this value stands for.
    fn lookup_hash(&self) -> (h: u64)
        ensures
            h == K::spec_hash(self.key()),
    ;

    /// Tells whether `stored` is the key that this value stands for.
    fn equivalent(&self, stored: &K) -> (same: bool)
        ensures
            same == (self.key() == stored@),
    ;
}

/// Every key stands for itself.
impl<K: Key> Equivalent<K> for K {
    open spec fn key(&self) -> K::V {
        self@
    }

    fn lookup_hash(&self) -> (h: u64) {
        self.hash_code()
    }

    fn equivalent(&self, stored: &K) -> (same: bool) {
        self.same_key(stored)
    }
}

/// The digest of a fresh hasher after one write of `bytes`.
pub open spec fn spec_hash_bytes(bytes: Seq<u8>) -> u64 {
    DefaultHasher::spec_finish(seq![bytes])
}

/// Hashes a run of bytes with a fresh, unseeded hasher.
pub fn hash_bytes(bytes: &[u8]) -> (h: u64)
    ensures
        h == spec_hash_bytes(bytes@),
{
    let mut hasher = DefaultHasher::new();
    hasher.write(bytes);
    assert(hasher@ =~= seq![bytes@]);
    hasher.finish()
}

/// An integer key is hashed by its eight bytes, least significant first, so a
/// key lands in the same bucket whatever the machine's byte order.
impl Key for u64 {
    open spec fn spec_hash(v: u64) -> u64 {
        spec_hash_bytes(spec_u64_to_le_bytes(v))
    }

    fn hash_code(&self) -> (h: u64) {
        let bytes = u64_to_le_bytes(*self);
        hash_bytes(bytes.as_slice())
    }

    fn same_key(&self, other: &Self) -> (same: bool) {
        *self == *other
    }
}

/// The byte that ends a string in what is hashed. No UTF-8 text holds it, so
/// no text is the beginning of another in what the hasher is fed.
pub const STR_END: u8 = 0xff;

/// The hash of the string whose characters are `chars`: the digest of a
/// fresh hasher after a write of its UTF-8 encoding and a write of the byte
/// that ends it.
pub open spec fn spec_hash_str(chars: Seq<char>) -> u64 {
    DefaultHasher::spec_finish(seq![encode_utf8(chars), seq![STR_END]])
}

/// Hashes a string slice by its UTF-8 bytes and the byte that ends it.
pub fn hash_str(s: &str) -> (h: u64)
    ensures
        h == spec_hash_str(s@),
{
    let mut hasher = DefaultHasher::new();
    hasher.write(s.as_bytes());
    let end: [u8; 1] = [STR_END];
    hasher.write(end.as_slice());
    assert(end@ =~= seq![STR_END]);
    assert(hasher@ =~= seq![encode_utf8(s@), seq![STR_END]]);
    hasher.finish()
}

/// Two strings with the same UTF-8 encoding have the same characters.
pub proof fn lemma_encode_utf8_injective(a: Seq<char>, b: Seq<char>)
    requires
        encode_utf8(a) == encode_utf8(b),
    ensures
        a == b,
{
    // Decoding gives back what was encoded.
    encode_utf8_decode_utf8(a);
    encode_utf8_decode_utf8(b);
}

/// Tells whether two string slices hold the same characters, by comparing
/// their bytes.
pub fn str_eq(a: &str, b: &str) -> (same: bool)
    ensures
        same == (a@ == b@),
{
    let x = a.as_bytes();
    let y = b.as_bytes();
    if x.len() != y.len() {
        return false;
    }
    let mut i: usize = 0;
    while i < x.len()
        invariant
            i <= x.len(),
            x@.len() == y@.len(),
            x@ == a.spec_bytes(),
            y@ == b.spec_bytes(),
            forall|k: int| 0 <= k < i ==> x@[k] == y@[k],
        decreases x.len() - i,
    {
        if x[i] != y[i] {
            return false;
        }
        i += 1;
    }
    proof {
        assert(x@ =~= y@);
        lemma_encode_utf8_injective(a@, b@);
    }
    true
}

impl Key for String {
    open spec fn spec_hash(v: Seq<char>) -> u64 {
        spec_hash_str(v)
    }

    fn hash_code(&self) -> (h: u64) {
        hash_str(self.as_str())
    }

    fn same_key(&self, other: &Self) -> (same: bool) {
        str_eq(self.as_str(), other.as_str())
    }
}

impl<'a> Key for &'a str {
    open spec fn spec_hash(v: Seq<char>) -> u64 {
        spec_hash_str(v)
    }

    fn hash_code(&self) -> (h: u64) {
        hash_str(*self)
    }

    fn same_key(&self, other: &Self) -> (same: bool) {
        str_eq(*self, *other)
    }
}

/// A string slice stands for the owned string with the same characters.
impl Equivalent<String> for str {
    open spec fn key(&self) -> Seq<char> {
        self@
    }

    fn lookup_hash(&self) -> (h: u64) {
        hash_str(self)
    }

    fn equivalent(&self, stored: &String) -> (same: bool) {
        str_eq(self, stored.as_str())
    }
}

/// A string slice stands for the borrowed string with the same characters.
impl<'a> Equivalent<&'a str> for str {
    open spec fn key(&self) -> Seq<char> {
        self@
    }

    fn lookup_hash(&self) -> (h: u64) {
        hash_str(self)
    }

    fn equivalent(&self, stored: &&'a str) -> (same: bool) {
        str_eq(self, *stored)
    }
}

} // verus!
