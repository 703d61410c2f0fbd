//! What the table asks of a key: a hash to file it under, equality to
//! recognise it, and a strict total order to keep crowded bins sorted.

use vstd::prelude::*;

verus! {

/// A type whose values can be stored as keys.
///
/// Equality of keys is plain value equality. The order given by
/// [`Key::spec_lt`] has to be a strict total order; the three lemmas are the
/// proof of that for each implementing type.
///
/// The integer types hash to themselves, a negative number to itself plus
/// 2^64; their order is the order of the numbers.
pub trait Key: Sized {
    /// The hash under which the key is filed.
    spec fn spec_hash(&self) -> u64;

    /// Whether `self` sorts strictly before `other`.
    spec fn spec_lt(&self, other: &Self) -> bool;

    /// No key sorts before itself.
    proof fn lemma_lt_irreflexive(a: &Self)
        ensures
            !a.spec_lt(a),
    ;

    /// The order is transitive.
    proof fn lemma_lt_transitive(a: &Self, b: &Self, c: &Self)
        requires
            a.spec_lt(b),
            b.spec_lt(c),
        ensures
            a.spec_lt(c),
    ;

    /// Any two different keys are ordered one way or the other.
    proof fn lemma_lt_connected(a: &Self, b: &Self)
        ensures
            a.spec_lt(b) || b.spec_lt(a) || *a == *b,
    ;

    /// Computes the hash.
    fn hash(&self) -> (h: u64)
        ensures
            h == self.spec_hash(),
    ;

    /// Tests two keys for equality.
    fn key_eq(&self, other: &Self) -> (r: bool)
        ensures
            r == (*self == *other),
    ;

    /// Tests whether `self` sorts strictly before `other`.
    fn key_lt(&self, other: &Self) -> (r: bool)
        ensures
            r == self.spec_lt(other),
    ;
}

impl Key for u64 {
    open spec fn spec_hash(&self) -> u64 {
        *self
    }

    open spec fn spec_lt(&self, other: &Self) -> bool {
        *self < *other
    }

    proof fn lemma_lt_irreflexive(a: &Self) {
    }

    proof fn lemma_lt_transitive(a: &Self, b: &Self, c: &Self) {
    }

    proof fn lemma_lt_connected(a: &Self, b: &Self) {
    }

    fn hash(&self) -> (h: u64) {
        *self
    }

    fn key_eq(&self, other: &Self) -> (r: bool) {
        *self == *other
    }

    fn key_lt(&self, other: &Self) -> (r: bool) {
        *self < *other
    }
}

impl Key for i64 {
    open spec fn spec_hash(&self) -> u64 {
        *self as u64
    }

    open spec fn spec_lt(&self, other: &Self) -> bool {
        *self < *other
    }

    proof fn lemma_lt_irreflexive(a: &Self) {
    }

    proof fn lemma_lt_transitive(a: &Self, b: &Self, c: &Self) {
    }

    proof fn lemma_lt_connected(a: &Self, b: &Self) {
    }

    fn hash(&self) -> (h: u64) {
        *self as u64
    }

    fn key_eq(&self, other: &Self) -> (r: bool) {
        *self == *other
    }

    fn key_lt(&self, other: &Self) -> (r: bool) {
        *self < *other
    }
}

impl Key for u32 {
    open spec fn spec_hash(&self) -> u64 {
        *self as u64
    }

    open spec fn spec_lt(&self, other: &Self) -> bool {
        *self < *other
    }

    proof fn lemma_lt_irreflexive(a: &Self) {
    }

    proof fn lemma_lt_transitive(a: &Self, b: &Self, c: &Self) {
    }

    proof fn lemma_lt_connected(a: &Self, b: &Self) {
    }

    fn hash(&self) -> (h: u64) {
        *self as u64
    }

    fn key_eq(&self, other: &Self) -> (r: bool) {
        *self == *other
    }

    fn key_lt(&self, other: &Self) -> (r: bool) {
        *self < *other
    }
}

impl Key for usize {
    open spec fn spec_hash(&self) -> u64 {
        *self as u64
    }

    open spec fn spec_lt(&self, other: &Self) -> bool {
        *self < *other
    }

    proof fn lemma_lt_irreflexive(a: &Self) {
    }

    proof fn lemma_lt_transitive(a: &Self, b: &Self, c: &Self) {
    }

    proof fn lemma_lt_connected(a: &Self, b: &Self) {
    }

    fn hash(&self) -> (h: u64) {
        *self as u64
    }

    fn key_eq(&self, other: &Self) -> (r: bool) {
        *self == *other
    }

    fn key_lt(&self, other: &Self) -> (r: bool) {
        *self < *other
    }
}

impl Key for i32 {
    open spec fn spec_hash(&self) -> u64 {
        *self as u64
    }

    open spec fn spec_lt(&self, other: &Self) -> bool {
        *self < *other
    }

    proof fn lemma_lt_irreflexive(a: &Self) {
    }

    proof fn lemma_lt_transitive(a: &Self, b: &Self, c: &Self) {
    }

    proof fn lemma_lt_connected(a: &Self, b: &Self) {
    }

    fn hash(&self) -> (h: u64) {
        *self as u64
    }

    fn key_eq(&self, other: &Self) -> (r: bool) {
        *self == *other
    }

    fn key_lt(&self, other: &Self) -> (r: bool) {
        *self < *other
    }
}

/// A key that brings its own hash: `hash` says where it is filed, `id` tells
/// keys with the same hash apart.
#[derive(Clone, Copy, Debug)]
pub struct Prehashed {
    pub hash: u64,
    pub id: u64,
}

impl Key for Prehashed {
    open spec fn spec_hash(&self) -> u64 {
        self.hash
    }

    open spec fn spec_lt(&self, other: &Self) -> bool {
        self.hash < other.hash || (self.hash == other.hash && self.id < other.id)
    }

    proof fn lemma_lt_irreflexive(a: &Self) {
    }

    proof fn lemma_lt_transitive(a: &Self, b: &Self, c: &Self) {
    }

    proof fn lemma_lt_connected(a: &Self, b: &Self) {
    }

    fn hash(&self) -> (h: u64) {
        self.hash
    }

    fn key_eq(&self, other: &Self) -> (r: bool) {
        self.hash == other.hash && self.id == other.id
    }

    fn key_lt(&self, other: &Self) -> (r: bool) {
        self.hash < other.hash || (self.hash == other.hash && self.id < other.id)
    }
}

} // verus!
