//! Key and value abstractions.
//!
//! The map compares keys and values through small traits whose methods carry
//! contracts stated over each type's mathematical view.  `ValEq` supplies
//! view-level equality and duplication; `Key` adds a per-type hash code.
//! Users may plug in further key types by implementing these traits.
use vstd::prelude::*;

verus! {

/// A type whose executable equality decides equality of views, and which can
/// be duplicated view-for-view.  Needed for keys, and for values wherever two
/// maps are compared entry by entry or a map is cloned.
pub trait ValEq: View + Sized {
    /// Executable equality test, exactly equality of the views.
    fn val_eq(&self, other: &Self) -> (r: bool)
        ensures
            r == (self@ == other@),
    ;

    /// Produce a value with the same view.
    fn dup(&self) -> (r: Self)
        ensures
            r@ == self@,
    ;
}

/// A hashable key.  The hash code is a function of the view alone, so equal
/// keys always hash alike.
pub trait Key: ValEq {
    /// The hash of a key with this view.
    spec fn hash_spec(k: <Self as View>::V) -> u64;

    /// Executable hash, exactly `hash_spec` of the view.
    fn hash_code(&self) -> (h: u64)
        ensures
            h == Self::hash_spec(self@),
    ;
}

impl ValEq for usize {
    fn val_eq(&self, other: &Self) -> (r: bool) {
        *self == *other
    }

    fn dup(&self) -> (r: Self) {
        *self
    }
}

impl Key for usize {
    open spec fn hash_spec(k: usize) -> u64 {
        k as u64
    }

    fn hash_code(&self) -> (h: u64) {
        *self as u64
    }
}

impl ValEq for u64 {
    fn val_eq(&self, other: &Self) -> (r: bool) {
        *self == *other
    }

    fn dup(&self) -> (r: Self) {
        *self
    }
}

impl Key for u64 {
    open spec fn hash_spec(k: u64) -> u64 {
        k
    }

    fn hash_code(&self) -> (h: u64) {
        *self
    }
}

impl ValEq for u32 {
    fn val_eq(&self, other: &Self) -> (r: bool) {
        *self == *other
    }

    fn dup(&self) -> (r: Self) {
        *self
    }
}

impl Key for u32 {
    open spec fn hash_spec(k: u32) -> u64 {
        k as u64
    }

    fn hash_code(&self) -> (h: u64) {
        *self as u64
    }
}

impl ValEq for i32 {
    fn val_eq(&self, other: &Self) -> (r: bool) {
        *self == *other
    }

    fn dup(&self) -> (r: Self) {
        *self
    }
}

impl Key for i32 {
    open spec fn hash_spec(k: i32) -> u64 {
        k as u64
    }

    fn hash_code(&self) -> (h: u64) {
        *self as u64
    }
}

impl ValEq for i64 {
    fn val_eq(&self, other: &Self) -> (r: bool) {
        *self == *other
    }

    fn dup(&self) -> (r: Self) {
        *self
    }
}

impl Key for i64 {
    open spec fn hash_spec(k: i64) -> u64 {
        k as u64
    }

    fn hash_code(&self) -> (h: u64) {
        *self as u64
    }
}

/// Relies on `str::eq` from std: string slices compare equal exactly when
/// their character sequences are equal.
pub assume_specification[ <str as PartialEq<str>>::eq ](a: &str, b: &str) -> (r: bool)
    ensures
        r == (a@ == b@),
;

/// One step of the polynomial string hash; the accumulator stays below `2^32`
/// so the arithmetic never overflows a `u64`.
pub open spec fn str_hash_step(h: u64, c: char) -> u64 {
    ((31 * h + (c as u64)) % 0x1_0000_0000) as u64
}

/// Polynomial hash of a character sequence.
pub open spec fn str_hash(s: Seq<char>) -> u64
    decreases s.len(),
{
    if s.len() == 0 {
        0
    } else {
        str_hash_step(str_hash(s.drop_last()), s.last())
    }
}

impl ValEq for &'static str {
    fn val_eq(&self, other: &Self) -> (r: bool) {
        <str as PartialEq<str>>::eq(*self, *other)
    }

    fn dup(&self) -> (r: Self) {
        *self
    }
}

impl Key for &'static str {
    open spec fn hash_spec(k: Seq<char>) -> u64 {
        str_hash(k)
    }

    fn hash_code(&self) -> (h: u64) {
        hash_chars(*self)
    }
}

/// Executable polynomial hash over the characters of a string slice.
fn hash_chars(s: &str) -> (h: u64)
    ensures
        h == str_hash(s@),
{
    let n = s.unicode_len();
    let mut h: u64 = 0;
    let mut i: usize = 0;
    while i < n
        invariant
            n == s@.len(),
            0 <= i <= n,
            h == str_hash(s@.take(i as int)),
            h < 0x1_0000_0000,
        decreases n - i,
    {
        let c = s.get_char(i);
        proof {
            assert(s@.take(i + 1).drop_last() =~= s@.take(i as int));
            assert(s@.take(i + 1).last() == s@[i as int]);
        }
        h = (31 * h + (c as u64)) % 0x1_0000_0000;
        i = i + 1;
    }
    proof {
        assert(s@.take(n as int) =~= s@);
    }
    h
}

} // verus!
