//! Hash builders and hash spreading.
//!
//! A map is parameterized by a hash builder, so that a key type's hash can be
//! overridden per map.  The builder's output is then *spread* — the high bits
//! are folded into the low bits and the top bit is masked off — before it is
//! used to pick a bin.
use vstd::prelude::*;
use crate::key::Key;

verus! {

/// Mask that clears the top bit of a spread hash; the classical table design
/// reserves that bit for marker entries.
pub const HASH_BITS: u64 = 0x7fff_ffff_ffff_ffff;

/// The spread of a raw hash: high bits xor-folded into the low bits, top bit
/// cleared.
pub open spec fn spread_spec(h: u64) -> u64 {
    (h ^ (h >> 32)) & HASH_BITS
}

/// Executable hash spreading, exactly `spread_spec`.
pub fn spread(h: u64) -> (r: u64)
    ensures
        r == spread_spec(h),
{
    (h ^ (h >> 32)) & HASH_BITS
}

/// A per-map hash policy for keys of type `K`.  The hash is a function of the
/// key's view alone, so equal keys always land in the same bin.
pub trait HashBuilder<K: Key>: Sized {
    /// The hash this builder assigns to a key with the given view.
    spec fn hash_of(&self, k: <K as View>::V) -> u64;

    /// Executable hash, exactly `hash_of` of the key's view.
    fn hash_one(&self, key: &K) -> (h: u64)
        ensures
            h == self.hash_of(key@),
    ;

    /// Produce an equal builder, so that a cloned map hashes as the
    /// original does.
    fn dup_builder(&self) -> (r: Self)
        ensures
            r == *self,
    ;
}

/// The default policy: each key type's own `hash_code`.
#[derive(Debug)]
pub struct DefaultHashBuilder;

impl<K: Key> HashBuilder<K> for DefaultHashBuilder {
    open spec fn hash_of(&self, k: <K as View>::V) -> u64 {
        K::hash_spec(k)
    }

    fn hash_one(&self, key: &K) -> (h: u64) {
        key.hash_code()
    }

    fn dup_builder(&self) -> (r: Self) {
        DefaultHashBuilder
    }
}

/// An adversarial policy that sends every key to hash zero, and therefore
/// every entry to a single bin.  Useful for exercising chain positions
/// (head, middle, tail) in tests.
#[derive(Debug)]
pub struct ZeroHashBuilder;

impl<K: Key> HashBuilder<K> for ZeroHashBuilder {
    open spec fn hash_of(&self, k: <K as View>::V) -> u64 {
        0
    }

    fn hash_one(&self, key: &K) -> (h: u64) {
        0
    }

    fn dup_builder(&self) -> (r: Self) {
        ZeroHashBuilder
    }
}

} // verus!
