use vstd::prelude::*;
use std::collections::hash_map::DefaultHasher;
use std::hash::Hasher;
use vstd::std_specs::hash::DefaultHasherAdditionalSpecFns;

verus! {

/// A key type usable by the table: it carries an abstract value (its view),
/// an executable equality that decides equality of abstract values, and an
/// executable hash whose result is a function of the key alone, so that the
/// bucket chosen for a key can be recomputed consistently at every access.
pub trait TableKey: View + Sized {
    /// The hash of a key, as a mathematical function of the key.
    spec fn key_hash(self) -> u64;

    /// Two keys with the same abstract value hash alike, so a lookup by an
    /// equal key lands in the bucket where the entry was stored.
    proof fn lemma_key_hash_congruent(a: Self, b: Self)
        requires
            a@ == b@,
        ensures
            a.key_hash() == b.key_hash(),
    ;

    /// Computes the hash of the key.
    fn hash_code(&self) -> (h: u64)
        ensures
            h == self.key_hash(),
    ;

    /// Decides equality of abstract values.
    fn key_eq(&self, other: &Self) -> (b: bool)
        ensures
            b == (self@ == other@),
    ;
}

impl TableKey for u64 {
    open spec fn key_hash(self) -> u64 {
        DefaultHasher::spec_finish(seq![vstd::bytes::spec_u64_to_le_bytes(self)])
    }

    proof fn lemma_key_hash_congruent(a: Self, b: Self) {
    }

    fn hash_code(&self) -> (h: u64) {
        let mut hasher = DefaultHasher::new();
        let bytes = vstd::bytes::u64_to_le_bytes(*self);
        hasher.write(bytes.as_slice());
        hasher.finish()
    }

    fn key_eq(&self, other: &Self) -> (b: bool) {
        *self == *other
    }
}

impl TableKey for String {
    open spec fn key_hash(self) -> u64 {
        DefaultHasher::spec_finish(seq![vstd::utf8::encode_utf8(self@)])
    }

    proof fn lemma_key_hash_congruent(a: Self, b: Self) {
    }

    fn hash_code(&self) -> (h: u64) {
        let mut hasher = DefaultHasher::new();
        hasher.write(self.as_str().as_bytes());
        hasher.finish()
    }

    fn key_eq(&self, other: &Self) -> (b: bool) {
        *self == *other
    }
}

} // verus!
