//! Key hashing for the chained hash map.
//!
//! The map needs every key to supply a 64-bit hash that is a function of the
//! key's mathematical value alone, plus a decidable equality on those
//! values. The [`HashKey`] trait packages the three together; its hashing
//! impls delegate to the standard library's keyed hasher rather than
//! reimplementing one, going through the specification that vstd gives to
//! `DefaultHasher`: the finished value is an uninterpreted function of the
//! bytes written, so it is deterministic without being spelled out.

use vstd::prelude::*;
use vstd::std_specs::hash::DefaultHasherAdditionalSpecFns;

verus! {

/// What the standard hasher produces after one write of `bytes`.
pub open spec fn spec_hash_bytes(bytes: Seq<u8>) -> u64 {
    std::collections::hash_map::DefaultHasher::spec_finish(Seq::<Seq<u8>>::empty().push(bytes))
}

/// Feed `bytes` to a fresh standard hasher and finish it.
pub fn hash_bytes(bytes: &[u8]) -> (r: u64)
    ensures
        r == spec_hash_bytes(bytes@),
{
    let mut hasher = std::collections::hash_map::DefaultHasher::new();
    std::hash::Hasher::write(&mut hasher, bytes);
    std::hash::Hasher::finish(&hasher)
}

/// A key the chained map can store: a mathematical model with a decidable
/// equality, and a hash that depends only on that model.
pub trait HashKey: Sized {
    /// The mathematical value this key stands for; two keys with equal
    /// models are the same key to the map.
    type Model;

    /// The model of this key.
    spec fn model(&self) -> Self::Model;

    /// The hash of this key.
    spec fn hash_spec(&self) -> u64;

    /// Keys with equal models hash alike.
    proof fn lemma_hash_respects_model(&self, other: &Self)
        requires
            self.model() == other.model(),
        ensures
            self.hash_spec() == other.hash_spec(),
    ;

    /// Compute the hash.
    fn hash_key(&self) -> (r: u64)
        ensures
            r == self.hash_spec(),
    ;

    /// Decide whether two keys have the same model.
    fn key_eq(&self, other: &Self) -> (r: bool)
        ensures
            r == (self.model() == other.model()),
    ;
}

/// The little-endian bytes of a 64-bit value.
pub open spec fn spec_u64_le_bytes(x: u64) -> Seq<u8> {
    seq![
        (x & 0xff) as u8,
        ((x >> 8) & 0xff) as u8,
        ((x >> 16) & 0xff) as u8,
        ((x >> 24) & 0xff) as u8,
        ((x >> 32) & 0xff) as u8,
        ((x >> 40) & 0xff) as u8,
        ((x >> 48) & 0xff) as u8,
        ((x >> 56) & 0xff) as u8,
    ]
}

/// Serialize a 64-bit value for hashing.
fn u64_le_bytes(x: u64) -> (r: std::vec::Vec<u8>)
    ensures
        r@ == spec_u64_le_bytes(x),
{
    let mut r: std::vec::Vec<u8> = std::vec::Vec::new();
    r.push((x & 0xff) as u8);
    r.push(((x >> 8) & 0xff) as u8);
    r.push(((x >> 16) & 0xff) as u8);
    r.push(((x >> 24) & 0xff) as u8);
    r.push(((x >> 32) & 0xff) as u8);
    r.push(((x >> 40) & 0xff) as u8);
    r.push(((x >> 48) & 0xff) as u8);
    r.push(((x >> 56) & 0xff) as u8);
    proof {
        assert(r@ =~= spec_u64_le_bytes(x));
    }
    r
}

impl HashKey for u64 {
    type Model = u64;

    open spec fn model(&self) -> u64 {
        *self
    }

    open spec fn hash_spec(&self) -> u64 {
        spec_hash_bytes(spec_u64_le_bytes(*self))
    }

    proof fn lemma_hash_respects_model(&self, other: &Self) {
    }

    fn hash_key(&self) -> (r: u64) {
        let bytes = u64_le_bytes(*self);
        hash_bytes(bytes.as_slice())
    }

    fn key_eq(&self, other: &Self) -> (r: bool) {
        *self == *other
    }
}

impl HashKey for i32 {
    type Model = i32;

    open spec fn model(&self) -> i32 {
        *self
    }

    open spec fn hash_spec(&self) -> u64 {
        spec_hash_bytes(spec_u64_le_bytes(*self as u64))
    }

    proof fn lemma_hash_respects_model(&self, other: &Self) {
    }

    fn hash_key(&self) -> (r: u64) {
        let bytes = u64_le_bytes(*self as u64);
        hash_bytes(bytes.as_slice())
    }

    fn key_eq(&self, other: &Self) -> (r: bool) {
        *self == *other
    }
}

impl HashKey for usize {
    type Model = usize;

    open spec fn model(&self) -> usize {
        *self
    }

    open spec fn hash_spec(&self) -> u64 {
        spec_hash_bytes(spec_u64_le_bytes(*self as u64))
    }

    proof fn lemma_hash_respects_model(&self, other: &Self) {
    }

    fn hash_key(&self) -> (r: u64) {
        let bytes = u64_le_bytes(*self as u64);
        hash_bytes(bytes.as_slice())
    }

    fn key_eq(&self, other: &Self) -> (r: bool) {
        *self == *other
    }
}

impl HashKey for String {
    type Model = Seq<char>;

    open spec fn model(&self) -> Seq<char> {
        self@
    }

    open spec fn hash_spec(&self) -> u64 {
        spec_hash_bytes(vstd::utf8::encode_utf8(self@))
    }

    proof fn lemma_hash_respects_model(&self, other: &Self) {
    }

    fn hash_key(&self) -> (r: u64) {
        hash_bytes(self.as_str().as_bytes())
    }

    fn key_eq(&self, other: &Self) -> (r: bool) {
        self.eq(other)
    }
}

} // verus!
