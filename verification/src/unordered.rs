//! Scorers of unordered and keyed collections: each side is charged the
//! missing cost of what the other side lacks, and values under a common key
//! are compared with each other.
use vstd::prelude::*;
use vstd::std_specs::btree::spec_btree_keys_iter;
use vstd::std_specs::hash::{obeys_key_model, spec_hash_keys_iter, spec_keys_iter};
use vstd::std_specs::iter::IteratorSpec;
use std::collections::{BTreeSet, HashMap, HashSet};
use crate::{DiffScore, SymmetricScore};
use crate::keys::{HashKey, OrderedKey};
use crate::score::{add_scores, saturate, DEFAULT_MISSING_SCORE};

verus! {

/// The step of a sum: adds the term of one more element.
pub open spec fn adding<T>(term: spec_fn(T) -> nat) -> spec_fn(nat, T) -> nat {
    |total: nat, x: T| total + term(x)
}

/// The sum of `term` over the elements of a finite set.
pub open spec fn sum_over<T>(s: Set<T>, term: spec_fn(T) -> nat) -> nat {
    s.fold(0nat, adding(term))
}

/// The sum of `term` over the elements of a sequence.
pub open spec fn sum_along<T>(order: Seq<T>, term: spec_fn(T) -> nat) -> nat
    decreases order.len(),
{
    if order.len() == 0 {
        0
    } else {
        sum_along(order.drop_last(), term) + term(order.last())
    }
}

/// The term that counts only for the elements that `keep` accepts.
pub open spec fn only_where<T>(keep: spec_fn(T) -> bool, term: spec_fn(T) -> nat) -> spec_fn(
    T,
) -> nat {
    |x: T|
        if keep(x) {
            term(x)
        } else {
            0
        }
}

/// The elements that `s` lacks.
pub open spec fn absent_from<T>(s: Set<T>) -> spec_fn(T) -> bool {
    |x: T| !s.contains(x)
}

/// The missing cost of an element.
pub open spec fn missing_term<T: DiffScore>() -> spec_fn(T) -> nat {
    |x: T| x.missing_model()
}

/// The exact diff score of two unordered collections: the missing cost of
/// every element that only one of them holds.
pub open spec fn unordered_model<T: DiffScore>(a: Set<T>, b: Set<T>) -> nat {
    sum_over(a.difference(b), missing_term::<T>()) + sum_over(
        b.difference(a),
        missing_term::<T>(),
    )
}

/// The elements that `s` holds.
pub open spec fn present_in<T>(s: Set<T>) -> spec_fn(T) -> bool {
    |x: T| s.contains(x)
}

/// The diff score between the values that two maps hold under a key.
pub open spec fn shared_term<K, T: DiffScore>(a: Map<K, T>, b: Map<K, T>) -> spec_fn(K) -> nat {
    |k: K| a[k].diff_model(&b[k])
}

/// The missing cost of the value that a map holds under a key.
pub open spec fn lone_term<K, T: DiffScore>(a: Map<K, T>) -> spec_fn(K) -> nat {
    |k: K| a[k].missing_model()
}

/// The exact diff score of two keyed collections: the diff score between the
/// two values under every key that both hold, and the missing cost of the
/// value under every key that only one of them holds.
pub open spec fn keyed_model<K, T: DiffScore>(a: Map<K, T>, b: Map<K, T>) -> nat {
    sum_over(a.dom().intersect(b.dom()), shared_term(a, b)) + sum_over(
        a.dom().difference(b.dom()),
        lone_term(a),
    ) + sum_over(b.dom().difference(a.dom()), lone_term(b))
}

/// Two terms that agree on every element of a finite set have the same sum over it.
pub proof fn lemma_sum_over_agrees<T>(s: Set<T>, term1: spec_fn(T) -> nat, term2: spec_fn(T) -> nat)
    requires
        s.finite(),
        forall|x: T| s.contains(x) ==> #[trigger] term1(x) == term2(x),
    ensures
        sum_over(s, term1) == sum_over(s, term2),
    decreases s.len(),
{
    assert(vstd::set::fold::is_fun_commutative(adding(term1)));
    assert(vstd::set::fold::is_fun_commutative(adding(term2)));
    if s.len() == 0 {
        assert(s =~= Set::<T>::empty());
        vstd::set::fold::lemma_fold_empty(0nat, adding(term1));
        vstd::set::fold::lemma_fold_empty(0nat, adding(term2));
    } else {
        let x = s.choose();
        let rest = s.remove(x);
        lemma_sum_over_agrees(rest, term1, term2);
        assert(rest.insert(x) =~= s);
        vstd::set::fold::lemma_fold_insert(rest, 0nat, adding(term1), x);
        vstd::set::fold::lemma_fold_insert(rest, 0nat, adding(term2), x);
        assert(term1(x) == term2(x));
    }
}

/// A term that is zero on every element of a finite set sums to zero over it.
pub proof fn lemma_sum_over_nothing<T>(s: Set<T>, term: spec_fn(T) -> nat)
    requires
        s.finite(),
        forall|x: T| s.contains(x) ==> #[trigger] term(x) == 0,
    ensures
        sum_over(s, term) == 0,
    decreases s.len(),
{
    assert(vstd::set::fold::is_fun_commutative(adding(term)));
    if s.len() == 0 {
        assert(s =~= Set::<T>::empty());
        vstd::set::fold::lemma_fold_empty(0nat, adding(term));
    } else {
        let x = s.choose();
        let rest = s.remove(x);
        lemma_sum_over_nothing(rest, term);
        assert(rest.insert(x) =~= s);
        vstd::set::fold::lemma_fold_insert(rest, 0nat, adding(term), x);
        assert(term(x) == 0);
    }
}

/// A walk that does not come to the same place twice does not come to the same value twice.
pub proof fn lemma_walk_without_repeats<T>(refs: Seq<&T>)
    requires
        refs.no_duplicates(),
    ensures
        refs.unref().no_duplicates(),
{
    let order = refs.unref();
    assert forall|i: int, j: int|
        0 <= i < order.len() && 0 <= j < order.len() && i != j implies order[i] != order[j] by {
        assert(refs[i] != refs[j]);
    }
}

/// Walking a set in any order, without repeating an element, and adding up
/// the terms of the elements that `keep` accepts gives the sum over the
/// accepted part of the set.
pub proof fn lemma_sum_along_filtered<T>(
    order: Seq<T>,
    keep: spec_fn(T) -> bool,
    term: spec_fn(T) -> nat,
)
    requires
        order.no_duplicates(),
    ensures
        sum_along(order, only_where(keep, term)) == sum_over(order.to_set().filter(keep), term),
    decreases order.len(),
{
    let step = adding(term);
    assert(vstd::set::fold::is_fun_commutative(step));
    if order.len() == 0 {
        assert(order.to_set().filter(keep) =~= Set::<T>::empty());
        vstd::set::fold::lemma_fold_empty(0nat, step);
    } else {
        let rest = order.drop_last();
        let x = order.last();
        lemma_sum_along_filtered(rest, keep, term);
        let kept = rest.to_set().filter(keep);
        vstd::seq_lib::seq_to_set_is_finite(rest);
        assert(kept.finite()) by {
            vstd::set_lib::lemma_len_intersect(rest.to_set(), Set::new(keep));
        }
        assert(!rest.contains(x)) by {
            if rest.contains(x) {
                let k = choose|k: int| 0 <= k < rest.len() && rest[k] == x;
                assert(order[k] == order[order.len() - 1]);
            }
        }
        assert forall|y: T| order.contains(y) <==> (rest.contains(y) || y == x) by {
            if order.contains(y) {
                let k = choose|k: int| 0 <= k < order.len() && order[k] == y;
                if k < order.len() - 1 {
                    assert(rest[k] == y);
                }
            }
            if rest.contains(y) {
                let k = choose|k: int| 0 <= k < rest.len() && rest[k] == y;
                assert(order[k] == y);
            }
            if y == x {
                assert(order[order.len() - 1] == y);
            }
        }
        if keep(x) {
            assert(order.to_set().filter(keep) =~= kept.insert(x));
            vstd::set::fold::lemma_fold_insert(kept, 0nat, step, x);
        } else {
            assert(order.to_set().filter(keep) =~= kept);
        }
    }
}

/// Adds up the missing cost of the elements of `a` that `b` lacks.
fn missing_beyond<T: DiffScore + HashKey>(a: &HashSet<T>, b: &HashSet<T>) -> (score: u64)
    ensures
        score == saturate(sum_over(a@.difference(b@), missing_term::<T>())),
{
    broadcast use vstd::std_specs::hash::group_hash_axioms;

    proof {
        T::lemma_hash_key();
    }
    let ghost term = only_where(absent_from(b@), missing_term::<T>());
    let ghost order = spec_hash_keys_iter(a).remaining().unref();
    let mut total: u64 = 0;
    let ghost mut exact: nat = 0;
    let ghost mut done: int = 0;
    for x in walk: a.iter()
        invariant
            term == only_where(absent_from(b@), missing_term::<T>()),
            obeys_key_model::<T>(),
            order == walk.seq().unref(),
            done == walk.index(),
            total == saturate(exact),
            exact == sum_along(order.take(done), term),
    {
        proof {
            assert(order.take(done + 1).drop_last() =~= order.take(done));
            done = done + 1;
        }
        if !b.contains(x) {
            total = add_scores(total, x.missing_score());
            proof {
                exact = exact + x.missing_model();
            }
        }
    }
    proof {
        assert(order.take(done) =~= order);
        lemma_walk_without_repeats(spec_hash_keys_iter(a).remaining());
        lemma_sum_along_filtered(order, absent_from(b@), missing_term::<T>());
        assert(order.to_set().filter(absent_from(b@)) =~= a@.difference(b@));
    }
    total
}

impl<T: DiffScore + HashKey> DiffScore for HashSet<T> {
    open spec fn diff_model(&self, other: &Self) -> nat {
        unordered_model(self@, other@)
    }

    open spec fn missing_model(&self) -> nat {
        DEFAULT_MISSING_SCORE as nat
    }

    proof fn lemma_identity(&self) {
        assert(self@.difference(self@) =~= Set::<T>::empty());
        vstd::set::fold::lemma_fold_empty(0nat, adding(missing_term::<T>()));
    }

    fn diff_score(&self, other: &Self) -> (score: u64) {
        add_scores(missing_beyond(self, other), missing_beyond(other, self))
    }

    fn missing_score(&self) -> (score: u64) {
        DEFAULT_MISSING_SCORE
    }
}

/// Adds up the missing cost of the elements of `a` that `b` lacks.
fn missing_beyond_sorted<T: DiffScore + OrderedKey>(a: &BTreeSet<T>, b: &BTreeSet<T>) -> (score:
    u64)
    ensures
        score == saturate(sum_over(a@.difference(b@), missing_term::<T>())),
{
    broadcast use vstd::std_specs::btree::group_btree_axioms;

    proof {
        T::lemma_ordered_key();
    }
    let ghost term = only_where(absent_from(b@), missing_term::<T>());
    let ghost order = spec_btree_keys_iter(a).remaining().unref();
    let mut total: u64 = 0;
    let ghost mut exact: nat = 0;
    let ghost mut done: int = 0;
    for x in walk: a.iter()
        invariant
            term == only_where(absent_from(b@), missing_term::<T>()),
            order == walk.seq().unref(),
            done == walk.index(),
            total == saturate(exact),
            exact == sum_along(order.take(done), term),
    {
        proof {
            T::lemma_ordered_key();
            assert(order.take(done + 1).drop_last() =~= order.take(done));
            done = done + 1;
        }
        if !b.contains(x) {
            total = add_scores(total, x.missing_score());
            proof {
                exact = exact + x.missing_model();
            }
        }
    }
    proof {
        assert(order.take(done) =~= order);
        lemma_walk_without_repeats(spec_btree_keys_iter(a).remaining());
        lemma_sum_along_filtered(order, absent_from(b@), missing_term::<T>());
        assert(order.to_set().filter(absent_from(b@)) =~= a@.difference(b@));
    }
    total
}

impl<T: DiffScore + OrderedKey> DiffScore for BTreeSet<T> {
    open spec fn diff_model(&self, other: &Self) -> nat {
        unordered_model(self@, other@)
    }

    open spec fn missing_model(&self) -> nat {
        DEFAULT_MISSING_SCORE as nat
    }

    proof fn lemma_identity(&self) {
        assert(self@.difference(self@) =~= Set::<T>::empty());
        vstd::set::fold::lemma_fold_empty(0nat, adding(missing_term::<T>()));
    }

    fn diff_score(&self, other: &Self) -> (score: u64) {
        add_scores(missing_beyond_sorted(self, other), missing_beyond_sorted(other, self))
    }

    fn missing_score(&self) -> (score: u64) {
        DEFAULT_MISSING_SCORE
    }
}

/// Walks the keys of `a`: adds up the diff score under every key that `b`
/// holds too, and the missing cost under every key that `b` lacks.
fn keyed_first_side<K: HashKey, T: DiffScore>(a: &HashMap<K, T>, b: &HashMap<K, T>) -> (score:
    u64)
    ensures
        score == saturate(
            sum_over(a@.dom().intersect(b@.dom()), shared_term(a@, b@)) + sum_over(
                a@.dom().difference(b@.dom()),
                lone_term(a@),
            ),
        ),
{
    broadcast use vstd::std_specs::hash::group_hash_axioms;

    proof {
        K::lemma_hash_key();
    }
    let ghost shared = only_where(present_in(b@.dom()), shared_term(a@, b@));
    let ghost lone = only_where(absent_from(b@.dom()), lone_term(a@));
    let ghost order = spec_keys_iter(a).remaining().unref();
    let mut total: u64 = 0;
    let ghost mut exact: nat = 0;
    let ghost mut done: int = 0;
    for key in walk: a.keys()
        invariant
            shared == only_where(present_in(b@.dom()), shared_term(a@, b@)),
            lone == only_where(absent_from(b@.dom()), lone_term(a@)),
            obeys_key_model::<K>(),
            order == walk.seq().unref(),
            order.to_set() == a@.dom(),
            done == walk.index(),
            total == saturate(exact),
            exact == sum_along(order.take(done), shared) + sum_along(order.take(done), lone),
    {
        proof {
            assert(order.take(done + 1).drop_last() =~= order.take(done));
            assert(order.contains(order[done]));
            assert(a@.dom().contains(*key));
            done = done + 1;
        }
        match (a.get(key), b.get(key)) {
            (Some(mine), Some(theirs)) => {
                total = add_scores(total, mine.diff_score(theirs));
                proof {
                    exact = exact + mine.diff_model(theirs);
                }
            },
            (Some(mine), None) => {
                total = add_scores(total, mine.missing_score());
                proof {
                    exact = exact + mine.missing_model();
                }
            },
            (None, _) => {},
        }
    }
    proof {
        assert(order.take(done) =~= order);
        lemma_walk_without_repeats(spec_keys_iter(a).remaining());
        lemma_sum_along_filtered(order, present_in(b@.dom()), shared_term(a@, b@));
        lemma_sum_along_filtered(order, absent_from(b@.dom()), lone_term(a@));
        assert(order.to_set().filter(present_in(b@.dom())) =~= a@.dom().intersect(b@.dom()));
        assert(order.to_set().filter(absent_from(b@.dom())) =~= a@.dom().difference(b@.dom()));
    }
    total
}

/// Walks the keys of `b` and adds up the missing cost under every key that `a` lacks.
fn keyed_other_side<K: HashKey, T: DiffScore>(b: &HashMap<K, T>, a: &HashMap<K, T>) -> (score:
    u64)
    ensures
        score == saturate(sum_over(b@.dom().difference(a@.dom()), lone_term(b@))),
{
    broadcast use vstd::std_specs::hash::group_hash_axioms;

    proof {
        K::lemma_hash_key();
    }
    let ghost lone = only_where(absent_from(a@.dom()), lone_term(b@));
    let ghost order = spec_keys_iter(b).remaining().unref();
    let mut total: u64 = 0;
    let ghost mut exact: nat = 0;
    let ghost mut done: int = 0;
    for key in walk: b.keys()
        invariant
            lone == only_where(absent_from(a@.dom()), lone_term(b@)),
            obeys_key_model::<K>(),
            order == walk.seq().unref(),
            order.to_set() == b@.dom(),
            done == walk.index(),
            total == saturate(exact),
            exact == sum_along(order.take(done), lone),
    {
        proof {
            assert(order.take(done + 1).drop_last() =~= order.take(done));
            assert(order.contains(order[done]));
            assert(b@.dom().contains(*key));
            done = done + 1;
        }
        if !a.contains_key(key) {
            if let Some(mine) = b.get(key) {
                total = add_scores(total, mine.missing_score());
                proof {
                    exact = exact + mine.missing_model();
                }
            }
        }
    }
    proof {
        assert(order.take(done) =~= order);
        lemma_walk_without_repeats(spec_keys_iter(b).remaining());
        lemma_sum_along_filtered(order, absent_from(a@.dom()), lone_term(b@));
        assert(order.to_set().filter(absent_from(a@.dom())) =~= b@.dom().difference(a@.dom()));
    }
    total
}

impl<K: HashKey, T: DiffScore> DiffScore for HashMap<K, T> {
    open spec fn diff_model(&self, other: &Self) -> nat {
        keyed_model(self@, other@)
    }

    open spec fn missing_model(&self) -> nat {
        DEFAULT_MISSING_SCORE as nat
    }

    proof fn lemma_identity(&self) {
        broadcast use vstd::std_specs::hash::group_hash_axioms;

        let keys = self@.dom();
        assert(keys.intersect(keys) =~= keys);
        assert(keys.difference(keys) =~= Set::<K>::empty());
        vstd::set::fold::lemma_fold_empty(0nat, adding(lone_term(self@)));
        assert forall|k: K| keys.contains(k) implies #[trigger] shared_term(self@, self@)(k)
            == 0 by {
            self@[k].lemma_identity();
        }
        lemma_sum_over_nothing(keys, shared_term(self@, self@));
    }

    fn diff_score(&self, other: &Self) -> (score: u64) {
        add_scores(keyed_first_side(self, other), keyed_other_side(other, self))
    }

    fn missing_score(&self) -> (score: u64) {
        DEFAULT_MISSING_SCORE
    }
}

impl<T: DiffScore + HashKey> SymmetricScore for HashSet<T> {
    proof fn lemma_symmetric(&self, other: &Self) {
    }
}

impl<T: DiffScore + OrderedKey> SymmetricScore for BTreeSet<T> {
    proof fn lemma_symmetric(&self, other: &Self) {
    }
}

impl<K: HashKey, T: SymmetricScore> SymmetricScore for HashMap<K, T> {
    proof fn lemma_symmetric(&self, other: &Self) {
        broadcast use vstd::std_specs::hash::group_hash_axioms;

        let both = self@.dom().intersect(other@.dom());
        assert(other@.dom().intersect(self@.dom()) =~= both);
        vstd::set_lib::lemma_len_intersect(self@.dom(), other@.dom());
        assert forall|k: K| both.contains(k) implies #[trigger] shared_term(self@, other@)(k)
            == shared_term(other@, self@)(k) by {
            self@[k].lemma_symmetric(&other@[k]);
        }
        lemma_sum_over_agrees(both, shared_term(self@, other@), shared_term(other@, self@));
    }
}

} // verus!
