//! Scorers to use by hand where the scorer of a type is not what is wanted:
//! plain equality, equality of variants, and the share of elements that two
//! collections do not have in common.
use vstd::prelude::*;
use vstd::std_specs::cmp::PartialEqSpec;
use vstd::std_specs::hash::{obeys_key_model, spec_hash_keys_iter};
use vstd::std_specs::iter::IteratorSpec;
use std::collections::HashSet;
use crate::keys::HashKey;
use crate::unordered::{
    absent_from, lemma_sum_along_filtered, lemma_walk_without_repeats, only_where, sum_along,
    sum_over,
};

verus! {

/// A fraction of two counts.
#[derive(Clone, Copy, Debug, PartialEq, Eq)]
pub struct Ratio {
    /// How many elements differ.
    pub numerator: u128,
    /// Out of how many; never zero.
    pub denominator: u128,
}

/// Returns 0 if the two values are equal, 1 otherwise.
pub fn eq<T: PartialEq>(a: &T, b: &T) -> (score: u64)
    ensures
        score <= 1,
        T::obeys_eq_spec() ==> (score == 0 <==> a.eq_spec(b)),
{
    if a == b {
        0
    } else {
        1
    }
}

/// Asks `std::mem::discriminant` for the variant of each of the two values
/// and compares the two answers. Nothing is claimed of the result: for a type
/// that is no enum, `std` leaves it unspecified.
#[verifier::external_body]
fn same_variant<T>(a: &T, b: &T) -> (same: bool) {
    std::mem::discriminant(a) == std::mem::discriminant(b)
}

/// The score for two values of which it is known whether they are of the same variant.
pub fn variant_score(same: bool) -> (score: u64)
    ensures
        score == if same { 0u64 } else { 1u64 },
{
    if same {
        0
    } else {
        1
    }
}

/// Returns 0 if the two values are of the same variant of their enum, 1 otherwise.
pub fn discriminant<T>(a: &T, b: &T) -> (score: u64)
    ensures
        score <= 1,
{
    variant_score(same_variant(a, b))
}

/// The elements that exactly one of the two sets holds.
pub open spec fn symmetric_difference<T>(a: Set<T>, b: Set<T>) -> Set<T> {
    a.difference(b).union(b.difference(a))
}

/// The term that counts an element as one.
pub open spec fn one<T>() -> spec_fn(T) -> nat {
    |x: T| 1nat
}

/// Counting every element of a finite set as one gives its size.
pub proof fn lemma_sum_over_ones<T>(s: Set<T>)
    requires
        s.finite(),
    ensures
        sum_over(s, one::<T>()) == s.len(),
    decreases s.len(),
{
    let step = crate::unordered::adding(one::<T>());
    assert(vstd::set::fold::is_fun_commutative(step));
    if s.len() == 0 {
        assert(s =~= Set::<T>::empty());
        vstd::set::fold::lemma_fold_empty(0nat, step);
    } else {
        let x = s.choose();
        let rest = s.remove(x);
        lemma_sum_over_ones(rest);
        assert(rest.insert(x) =~= s);
        vstd::set::fold::lemma_fold_insert(rest, 0nat, step, x);
    }
}

/// Gathers the distinct items of a slice.
fn distinct<T: HashKey + Copy>(items: &[T]) -> (set: HashSet<T>)
    ensures
        set@ == items@.to_set(),
{
    broadcast use vstd::std_specs::hash::group_hash_axioms;

    proof {
        T::lemma_hash_key();
    }
    let mut set: HashSet<T> = HashSet::new();
    let mut i: usize = 0;
    while i < items.len()
        invariant
            i <= items.len(),
            obeys_key_model::<T>(),
            set@ == items@.take(i as int).to_set(),
        decreases items.len() - i,
    {
        set.insert(items[i]);
        proof {
            let before = items@.take(i as int);
            let after = items@.take(i + 1);
            let added = items@[i as int];
            assert forall|x: T| after.contains(x) <==> (before.contains(x) || x == added) by {
                if after.contains(x) {
                    let k = choose|k: int| 0 <= k < after.len() && after[k] == x;
                    if k < i {
                        assert(before[k] == x);
                    }
                }
                if before.contains(x) {
                    let k = choose|k: int| 0 <= k < before.len() && before[k] == x;
                    assert(after[k] == x);
                }
                if x == added {
                    assert(after[i as int] == x);
                }
            }
            assert(set@ =~= after.to_set());
        }
        i += 1;
    }
    assert(items@.take(items.len() as int) =~= items@);
    set
}

/// Counts the elements of `a` that `b` lacks.
fn count_beyond<T: HashKey>(a: &HashSet<T>, b: &HashSet<T>) -> (count: usize)
    ensures
        count == a@.difference(b@).len(),
{
    broadcast use vstd::std_specs::hash::group_hash_axioms;

    proof {
        T::lemma_hash_key();
    }
    let ghost term = only_where(absent_from(b@), one::<T>());
    let ghost order = spec_hash_keys_iter(a).remaining().unref();
    let size = a.len();
    let mut count: usize = 0;
    let ghost mut done: int = 0;
    for x in walk: a.iter()
        invariant
            term == only_where(absent_from(b@), one::<T>()),
            obeys_key_model::<T>(),
            order == walk.seq().unref(),
            done == walk.index(),
            count <= done <= order.len() == size,
            count == sum_along(order.take(done), term),
    {
        proof {
            assert(order.take(done + 1).drop_last() =~= order.take(done));
            done = done + 1;
        }
        if !b.contains(x) {
            count += 1;
        }
    }
    proof {
        assert(order.take(done) =~= order);
        lemma_walk_without_repeats(spec_hash_keys_iter(a).remaining());
        lemma_sum_along_filtered(order, absent_from(b@), one::<T>());
        assert(order.to_set().filter(absent_from(b@)) =~= a@.difference(b@));
        vstd::set_lib::lemma_len_difference(a@, b@);
        vstd::set_lib::lemma_len_subset(a@.difference(b@), a@);
        lemma_sum_over_ones(a@.difference(b@));
    }
    count
}

/// Compares two collections as sets of items: the number of distinct items
/// that only one of them holds, over the number of distinct items that they
/// hold between them. Two empty collections give zero over one.
pub fn set<T: HashKey + Copy>(a: &[T], b: &[T]) -> (ratio: Ratio)
    ensures
        ratio.numerator <= ratio.denominator,
        ratio.denominator > 0,
        a.len() == 0 && b.len() == 0 ==> ratio.numerator == 0 && ratio.denominator == 1,
        a.len() > 0 || b.len() > 0 ==> {
            &&& ratio.numerator == symmetric_difference(a@.to_set(), b@.to_set()).len()
            &&& ratio.denominator == a@.to_set().union(b@.to_set()).len()
        },
{
    broadcast use vstd::std_specs::hash::group_hash_axioms;

    let set_a = distinct(a);
    let set_b = distinct(b);
    if a.len() == 0 && b.len() == 0 {
        return Ratio { numerator: 0, denominator: 1 };
    }
    let only_a = count_beyond(&set_a, &set_b);
    let only_b = count_beyond(&set_b, &set_a);
    let size_a = set_a.len();
    proof {
        T::lemma_hash_key();
        let sa = set_a@;
        let sb = set_b@;
        vstd::set_lib::lemma_len_difference(sa, sb);
        vstd::set_lib::lemma_len_difference(sb, sa);
        vstd::set_lib::lemma_len_subset(sa.difference(sb), sa);
        vstd::set_lib::lemma_len_subset(sb.difference(sa), sb);
        assert(sa.difference(sb).disjoint(sb.difference(sa)));
        vstd::set_lib::lemma_set_disjoint_lens(sa.difference(sb), sb.difference(sa));
        assert(sa.disjoint(sb.difference(sa)));
        vstd::set_lib::lemma_set_disjoint_lens(sa, sb.difference(sa));
        assert(sa.union(sb.difference(sa)) =~= sa.union(sb));
        if a.len() > 0 {
            assert(sa.contains(a[0]));
        } else {
            assert(sb.contains(b[0]));
        }
        assert(sa.union(sb).len() > 0) by {
            let witness = if a.len() > 0 {
                a[0]
            } else {
                b[0]
            };
            assert(sa.union(sb).contains(witness));
            vstd::set_lib::lemma_set_empty_equivalency_len(sa.union(sb));
        }
    }
    Ratio {
        numerator: only_a as u128 + only_b as u128,
        denominator: size_a as u128 + only_b as u128,
    }
}

} // verus!
