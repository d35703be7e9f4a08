//! The element and key types that `std`'s hash and tree collections are
//! known to handle as mathematical sets and maps.
use vstd::prelude::*;
use vstd::laws_cmp::obeys_cmp;
use vstd::std_specs::hash::obeys_key_model;
use std::hash::Hash;

verus! {

/// A type whose hashing and equality make a `HashSet` or `HashMap` keyed by
/// it behave as the mathematical set or map of its view.
pub trait HashKey: Eq + Hash + Sized {
    /// Hashing is deterministic and `==` is equality of values.
    proof fn lemma_hash_key()
        ensures
            obeys_key_model::<Self>(),
    ;
}

/// A type whose ordering makes a `BTreeSet` of it behave as the mathematical
/// set of its view.
pub trait OrderedKey: Ord + Sized {
    /// The ordering is a total order that agrees with equality of values.
    proof fn lemma_ordered_key()
        ensures
            obeys_cmp::<Self>(),
    ;
}

impl HashKey for bool {
    proof fn lemma_hash_key() {
        broadcast use vstd::std_specs::hash::group_hash_axioms;

    }
}

impl HashKey for u8 {
    proof fn lemma_hash_key() {
        broadcast use vstd::std_specs::hash::group_hash_axioms;

    }
}

impl HashKey for u16 {
    proof fn lemma_hash_key() {
        broadcast use vstd::std_specs::hash::group_hash_axioms;

    }
}

impl HashKey for u32 {
    proof fn lemma_hash_key() {
        broadcast use vstd::std_specs::hash::group_hash_axioms;

    }
}

impl HashKey for u64 {
    proof fn lemma_hash_key() {
        broadcast use vstd::std_specs::hash::group_hash_axioms;

    }
}

impl HashKey for u128 {
    proof fn lemma_hash_key() {
        broadcast use vstd::std_specs::hash::group_hash_axioms;

    }
}

impl HashKey for usize {
    proof fn lemma_hash_key() {
        broadcast use vstd::std_specs::hash::group_hash_axioms;

    }
}

impl HashKey for i8 {
    proof fn lemma_hash_key() {
        broadcast use vstd::std_specs::hash::group_hash_axioms;

    }
}

impl HashKey for i16 {
    proof fn lemma_hash_key() {
        broadcast use vstd::std_specs::hash::group_hash_axioms;

    }
}

impl HashKey for i32 {
    proof fn lemma_hash_key() {
        broadcast use vstd::std_specs::hash::group_hash_axioms;

    }
}

impl HashKey for i64 {
    proof fn lemma_hash_key() {
        broadcast use vstd::std_specs::hash::group_hash_axioms;

    }
}

impl HashKey for i128 {
    proof fn lemma_hash_key() {
        broadcast use vstd::std_specs::hash::group_hash_axioms;

    }
}

impl HashKey for isize {
    proof fn lemma_hash_key() {
        broadcast use vstd::std_specs::hash::group_hash_axioms;

    }
}

impl OrderedKey for u8 {
    proof fn lemma_ordered_key() {
        broadcast use vstd::laws_cmp::group_laws_cmp;

    }
}

impl OrderedKey for u16 {
    proof fn lemma_ordered_key() {
        broadcast use vstd::laws_cmp::group_laws_cmp;

    }
}

impl OrderedKey for u32 {
    proof fn lemma_ordered_key() {
        broadcast use vstd::laws_cmp::group_laws_cmp;

    }
}

impl OrderedKey for u64 {
    proof fn lemma_ordered_key() {
        broadcast use vstd::laws_cmp::group_laws_cmp;

    }
}

impl OrderedKey for u128 {
    proof fn lemma_ordered_key() {
        broadcast use vstd::laws_cmp::group_laws_cmp;

    }
}

impl OrderedKey for usize {
    proof fn lemma_ordered_key() {
        broadcast use vstd::laws_cmp::group_laws_cmp;

    }
}

impl OrderedKey for i8 {
    proof fn lemma_ordered_key() {
        broadcast use vstd::laws_cmp::group_laws_cmp;

    }
}

impl OrderedKey for i16 {
    proof fn lemma_ordered_key() {
        broadcast use vstd::laws_cmp::group_laws_cmp;

    }
}

impl OrderedKey for i32 {
    proof fn lemma_ordered_key() {
        broadcast use vstd::laws_cmp::group_laws_cmp;

    }
}

impl OrderedKey for i64 {
    proof fn lemma_ordered_key() {
        broadcast use vstd::laws_cmp::group_laws_cmp;

    }
}

impl OrderedKey for i128 {
    proof fn lemma_ordered_key() {
        broadcast use vstd::laws_cmp::group_laws_cmp;

    }
}

impl OrderedKey for isize {
    proof fn lemma_ordered_key() {
        broadcast use vstd::laws_cmp::group_laws_cmp;

    }
}

} // verus!
