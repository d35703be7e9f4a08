//! Scoring of dynamically typed tree values: null, booleans, numbers, text,
//! arrays and objects with text keys.
//!
//! Two values of the same kind are compared by the scorer of that kind. Two
//! values of different kinds score one, whatever they hold.
use vstd::prelude::*;
use vstd::hash_map::StringHashMap;
use vstd::utf8::encode_utf8;
use crate::DiffScore;
use crate::impls::{equality_model, magnitude_model, signed_magnitude};
use crate::impls_iter::{
    item_costs, lemma_text_identity, missing_costs, text_diff_score, text_model, unit_scores,
    DEFAULT_MATCH_WINDOW, DEFAULT_ORDER_PENALTY,
};
use crate::ordered::{
    align, band_end_of, band_start_of, is_banded, ordered_model, table_costs, table_holds,
};
use crate::ordered_laws::{
    lemma_ordered_identity, lemma_ordered_model_clamped, lemma_penalty_keeps_own_place,
    lemma_table_stands_for,
};
use crate::score::{add_scores, exact_scores, saturate, DEFAULT_MISSING_SCORE};
use crate::unordered::{
    absent_from, keyed_model, lemma_sum_along_filtered, lone_term, only_where, present_in,
    shared_term, sum_along,
};

verus! {

/// A tree value.
///
/// An object is a list of entries. Where a key occurs more than once in it,
/// its first entry counts and the later ones are ignored.
#[derive(Debug)]
pub enum Tree {
    /// The null value.
    Null,
    /// A boolean.
    Bool(bool),
    /// A whole number.
    Number(i128),
    /// A text.
    Text(String),
    /// An ordered list of values.
    Array(Vec<Tree>),
    /// Values under text keys.
    Object(Vec<(String, Tree)>),
}

/// The sum of the first `n` terms.
pub open spec fn sum_to(term: spec_fn(int) -> nat, n: int) -> nat
    decreases n,
{
    if n <= 0 {
        0
    } else {
        sum_to(term, n - 1) + term(n - 1)
    }
}

/// The position of the first of the first `n` entries that has the given key.
pub open spec fn position_upto(entries: Seq<(String, Tree)>, key: Seq<char>, n: int) -> Option<
    int,
>
    decreases n,
{
    if n <= 0 {
        None
    } else {
        match position_upto(entries, key, n - 1) {
            Some(at) => Some(at),
            None => if entries[n - 1].0@ == key {
                Some(n - 1)
            } else {
                None
            },
        }
    }
}

/// The position of the entry of an object that has the given key.
pub open spec fn position_of(entries: Seq<(String, Tree)>, key: Seq<char>) -> Option<int> {
    position_upto(entries, key, entries.len() as int)
}

/// Whether entry `i` counts: no earlier entry has its key.
pub open spec fn counts(entries: Seq<(String, Tree)>, i: int) -> bool {
    position_upto(entries, entries[i].0@, i) is None
}

/// The missing cost of every item of an array of the given length.
pub open spec fn item_missing_costs(len: nat) -> Seq<nat> {
    Seq::new(len, |i: int| 1nat)
}

/// The exact diff score of two tree values.
pub open spec fn tree_model(a: Tree, b: Tree) -> nat
    decreases a, 0nat,
{
    match (a, b) {
        (Tree::Null, Tree::Null) => 0,
        (Tree::Bool(x), Tree::Bool(y)) => equality_model(x, y),
        (Tree::Number(x), Tree::Number(y)) => magnitude_model(x as int, y as int),
        (Tree::Text(x), Tree::Text(y)) => text_model(encode_utf8(x@), encode_utf8(y@)),
        (Tree::Array(xs), Tree::Array(ys)) => ordered_model(
            array_costs(xs, ys),
            item_missing_costs(xs.len() as nat),
            item_missing_costs(ys.len() as nat),
            DEFAULT_MATCH_WINDOW as nat,
            DEFAULT_ORDER_PENALTY as nat,
        ),
        (Tree::Object(xs), Tree::Object(ys)) => sum_to(own_entry_term(xs, ys), xs.len() as int)
            + sum_to(other_entry_term(ys@, xs@), ys.len() as int),
        _ => 1,
    }
}

/// The diff score of every pair made of an item of `xs` and an item of `ys`.
pub open spec fn array_costs(xs: Vec<Tree>, ys: Vec<Tree>) -> spec_fn(int, int) -> nat
    decreases xs, 1nat,
{
    |i: int, j: int|
        if 0 <= i < xs.len() && 0 <= j < ys.len() {
            tree_model(xs[i], ys[j])
        } else {
            0
        }
}

/// What entry `i` of the object `xs` adds to the score against the object
/// `ys`: the diff score between the two values where `ys` has an entry of the
/// same key, one where it has none, nothing where entry `i` does not count.
pub open spec fn own_entry_term(xs: Vec<(String, Tree)>, ys: Vec<(String, Tree)>) -> spec_fn(
    int,
) -> nat
    decreases xs, 1nat,
{
    |i: int|
        if 0 <= i < xs.len() && counts(xs@, i) {
            match position_of(ys@, xs[i].0@) {
                Some(j) => if 0 <= j < ys.len() {
                    tree_model(xs[i].1, ys[j].1)
                } else {
                    0
                },
                None => 1,
            }
        } else {
            0
        }
}

/// What entry `j` of the object `ys` adds to the score against the object
/// `xs`, after the entries of `xs` have been scored: one where `xs` has no
/// entry of the same key, nothing else.
pub open spec fn other_entry_term(ys: Seq<(String, Tree)>, xs: Seq<(String, Tree)>) -> spec_fn(
    int,
) -> nat {
    |j: int|
        if 0 <= j < ys.len() && counts(ys, j) && position_of(xs, ys[j].0@) is None {
            1
        } else {
            0
        }
}

/// An entry that is found among the first entries is found among more of them, at the same place.
pub proof fn lemma_position_stable(entries: Seq<(String, Tree)>, key: Seq<char>, m: int, n: int)
    requires
        m <= n,
        position_upto(entries, key, m) is Some,
    ensures
        position_upto(entries, key, n) == position_upto(entries, key, m),
    decreases n - m,
{
    if m < n {
        lemma_position_stable(entries, key, m, n - 1);
    }
}

/// The position that is found is that of the first entry with the key, and
/// no position is found only where no entry has the key.
pub proof fn lemma_position_is_first(entries: Seq<(String, Tree)>, key: Seq<char>, n: int)
    requires
        n <= entries.len(),
    ensures
        match position_upto(entries, key, n) {
            Some(at) => 0 <= at < n && entries[at].0@ == key && position_upto(entries, key, at)
                is None,
            None => forall|k: int| 0 <= k < n ==> (#[trigger] entries[k]).0@ != key,
        },
    decreases n,
{
    if n > 0 {
        lemma_position_is_first(entries, key, n - 1);
    }
}

/// An entry that counts is the entry that its own key finds.
pub proof fn lemma_counted_entry_is_found(entries: Seq<(String, Tree)>, i: int)
    requires
        0 <= i < entries.len(),
        counts(entries, i),
    ensures
        position_of(entries, entries[i].0@) == Some(i),
{
    let key = entries[i].0@;
    assert(position_upto(entries, key, i + 1) == Some(i));
    lemma_position_stable(entries, key, i + 1, entries.len() as int);
}

/// A sum of terms that are all zero is zero.
pub proof fn lemma_sum_to_nothing(term: spec_fn(int) -> nat, n: int)
    requires
        forall|i: int| 0 <= i < n ==> #[trigger] term(i) == 0,
    ensures
        sum_to(term, n) == 0,
    decreases n,
{
    if n > 0 {
        lemma_sum_to_nothing(term, n - 1);
    }
}

/// A tree value does not differ from itself.
pub proof fn lemma_tree_identity(a: Tree)
    ensures
        tree_model(a, a) == 0,
    decreases a,
{
    match a {
        Tree::Text(x) => {
            lemma_text_identity(encode_utf8(x@));
        },
        Tree::Array(xs) => {
            let costs = array_costs(xs, xs);
            let missing = item_missing_costs(xs.len() as nat);
            assert forall|k: int| 0 <= k < missing.len() implies #[trigger] costs(k, k) == 0 by {
                lemma_tree_identity(xs[k]);
            }
            lemma_penalty_keeps_own_place(
                costs,
                missing,
                DEFAULT_MATCH_WINDOW as nat,
                DEFAULT_ORDER_PENALTY as nat,
            );
            lemma_ordered_identity(
                costs,
                missing,
                DEFAULT_MATCH_WINDOW as nat,
                DEFAULT_ORDER_PENALTY as nat,
            );
        },
        Tree::Object(xs) => {
            let own = own_entry_term(xs, xs);
            let other = other_entry_term(xs@, xs@);
            assert forall|i: int| 0 <= i < xs.len() implies #[trigger] own(i) == 0 by {
                if counts(xs@, i) {
                    lemma_counted_entry_is_found(xs@, i);
                    lemma_tree_identity(xs[i].1);
                }
            }
            assert forall|j: int| 0 <= j < xs.len() implies #[trigger] other(j) == 0 by {
                if counts(xs@, j) {
                    lemma_counted_entry_is_found(xs@, j);
                }
            }
            lemma_sum_to_nothing(own, xs.len() as int);
            lemma_sum_to_nothing(other, xs.len() as int);
        },
        _ => {},
    }
}

/// The entries of an object as a map from keys to values.
pub open spec fn object_map(entries: Seq<(String, Tree)>) -> Map<Seq<char>, Tree> {
    Map::new(
        |key: Seq<char>| position_of(entries, key) is Some,
        |key: Seq<char>| entries[position_of(entries, key).unwrap()].1,
    )
}

/// The keys of the entries that count among the first `n`, in order.
pub open spec fn counted_keys(entries: Seq<(String, Tree)>, n: int) -> Seq<Seq<char>>
    decreases n,
{
    if n <= 0 {
        Seq::empty()
    } else if counts(entries, n - 1) {
        counted_keys(entries, n - 1).push(entries[n - 1].0@)
    } else {
        counted_keys(entries, n - 1)
    }
}

/// The keys of the entries that count are the keys that are found, each once.
proof fn lemma_counted_keys(entries: Seq<(String, Tree)>, n: int)
    requires
        n <= entries.len(),
    ensures
        counted_keys(entries, n).no_duplicates(),
        forall|key: Seq<char>| #[trigger]
            counted_keys(entries, n).contains(key) <==> position_upto(entries, key, n) is Some,
    decreases n,
{
    if n > 0 {
        lemma_counted_keys(entries, n - 1);
        let before = counted_keys(entries, n - 1);
        let here = entries[n - 1].0@;
        let after = counted_keys(entries, n);
        if counts(entries, n - 1) {
            assert(!before.contains(here));
            assert forall|key: Seq<char>| #[trigger]
                after.contains(key) <==> position_upto(entries, key, n) is Some by {
                if after.contains(key) {
                    let k = choose|k: int| 0 <= k < after.len() && after[k] == key;
                    if k < before.len() {
                        assert(before[k] == key);
                        assert(before.contains(key));
                    }
                }
                if position_upto(entries, key, n) is Some {
                    if position_upto(entries, key, n - 1) is Some {
                        assert(before.contains(key));
                        let k = choose|k: int| 0 <= k < before.len() && before[k] == key;
                        assert(after[k] == key);
                    } else {
                        assert(after[after.len() - 1] == key);
                    }
                }
            }
        } else {
            assert forall|key: Seq<char>| #[trigger]
                after.contains(key) <==> position_upto(entries, key, n) is Some by {
                if key == here {
                    assert(position_upto(entries, key, n - 1) is Some);
                }
            }
        }
    }
}

/// What an entry that counts adds to the score, as a term of its key.
spec fn key_term(xs: Vec<(String, Tree)>, ys: Vec<(String, Tree)>) -> spec_fn(Seq<char>) -> nat {
    |key: Seq<char>|
        if present_in(object_map(ys@).dom())(key) {
            shared_term(object_map(xs@), object_map(ys@))(key)
        } else {
            lone_term(object_map(xs@))(key)
        }
}

/// The terms of the entries of `xs` that count, added up by entry and by key.
proof fn lemma_own_entries_by_key(xs: Vec<(String, Tree)>, ys: Vec<(String, Tree)>, n: int)
    requires
        n <= xs.len(),
    ensures
        sum_to(own_entry_term(xs, ys), n) == sum_along(counted_keys(xs@, n), key_term(xs, ys)),
    decreases n,
{
    if n > 0 {
        lemma_own_entries_by_key(xs, ys, n - 1);
        if counts(xs@, n - 1) {
            let key = xs[n - 1].0@;
            let keys = counted_keys(xs@, n);
            assert(keys.drop_last() =~= counted_keys(xs@, n - 1));
            assert(keys.last() == key);
            lemma_counted_entry_is_found(xs@, n - 1);
            lemma_position_is_first(ys@, key, ys.len() as int);
        }
    }
}

/// The terms of the entries of `ys` that count, added up by entry and by key.
proof fn lemma_other_entries_by_key(ys: Seq<(String, Tree)>, xs: Seq<(String, Tree)>, n: int)
    requires
        n <= ys.len(),
    ensures
        sum_to(other_entry_term(ys, xs), n) == sum_along(
            counted_keys(ys, n),
            only_where(absent_from(object_map(xs).dom()), lone_term(object_map(ys))),
        ),
    decreases n,
{
    if n > 0 {
        lemma_other_entries_by_key(ys, xs, n - 1);
        if counts(ys, n - 1) {
            let keys = counted_keys(ys, n);
            assert(keys.drop_last() =~= counted_keys(ys, n - 1));
            assert(keys.last() == ys[n - 1].0@);
            lemma_counted_entry_is_found(ys, n - 1);
        }
    }
}

/// A sum of terms that are given by cases is the sum of the two cases.
proof fn lemma_sum_along_split<T>(
    order: Seq<T>,
    keep: spec_fn(T) -> bool,
    inside: spec_fn(T) -> nat,
    outside: spec_fn(T) -> nat,
    either: spec_fn(T) -> nat,
)
    requires
        forall|x: T| #[trigger] either(x) == if keep(x) { inside(x) } else { outside(x) },
    ensures
        sum_along(order, either) == sum_along(order, only_where(keep, inside)) + sum_along(
            order,
            only_where(|x: T| !keep(x), outside),
        ),
    decreases order.len(),
{
    if order.len() > 0 {
        lemma_sum_along_split(order.drop_last(), keep, inside, outside, either);
    }
}

/// Two objects score as the two maps that their entries make: the values
/// under a common key are compared, and every key that only one of them
/// has costs the missing cost of its value.
pub proof fn lemma_objects_score_as_maps(xs: Vec<(String, Tree)>, ys: Vec<(String, Tree)>)
    ensures
        tree_model(Tree::Object(xs), Tree::Object(ys)) == keyed_model(
            object_map(xs@),
            object_map(ys@),
        ),
{
    let a = object_map(xs@);
    let b = object_map(ys@);
    let keys_a = counted_keys(xs@, xs.len() as int);
    let keys_b = counted_keys(ys@, ys.len() as int);
    lemma_counted_keys(xs@, xs.len() as int);
    lemma_counted_keys(ys@, ys.len() as int);
    assert(keys_a.to_set() =~= a.dom());
    assert(keys_b.to_set() =~= b.dom());
    lemma_own_entries_by_key(xs, ys, xs.len() as int);
    lemma_other_entries_by_key(ys@, xs@, ys.len() as int);
    let present = present_in(b.dom());
    let absent = |key: Seq<char>| !present(key);
    lemma_sum_along_split(keys_a, present, shared_term(a, b), lone_term(a), key_term(xs, ys));
    lemma_sum_along_filtered(keys_a, present, shared_term(a, b));
    lemma_sum_along_filtered(keys_a, absent, lone_term(a));
    lemma_sum_along_filtered(keys_b, absent_from(a.dom()), lone_term(b));
    assert(keys_a.to_set().filter(present) =~= a.dom().intersect(b.dom()));
    assert(keys_a.to_set().filter(absent) =~= a.dom().difference(b.dom()));
    assert(keys_b.to_set().filter(absent_from(a.dom())) =~= b.dom().difference(a.dom()));
}

/// Two arrays score as two vectors of tree values.
pub proof fn lemma_arrays_score_as_vectors(xs: Vec<Tree>, ys: Vec<Tree>)
    ensures
        tree_model(Tree::Array(xs), Tree::Array(ys)) == xs.diff_model(&ys),
{
    assert(array_costs(xs, ys) =~= item_costs(xs@, ys@));
    assert(item_missing_costs(xs.len() as nat) =~= missing_costs(xs@));
    assert(item_missing_costs(ys.len() as nat) =~= missing_costs(ys@));
}

/// Notes, for every key of the entries, the position of the first entry that has it.
fn index_entries(entries: &Vec<(String, Tree)>) -> (index: StringHashMap<usize>)
    ensures
        forall|key: Seq<char>| #[trigger]
            index@.contains_key(key) <==> position_of(entries@, key) is Some,
        forall|key: Seq<char>|
            index@.contains_key(key) ==> (#[trigger] index@[key]) as int == position_of(
                entries@,
                key,
            ).unwrap(),
{
    let mut index: StringHashMap<usize> = StringHashMap::new();
    let mut i: usize = 0;
    while i < entries.len()
        invariant
            i <= entries.len(),
            forall|key: Seq<char>| #[trigger]
                index@.contains_key(key) <==> position_upto(entries@, key, i as int) is Some,
            forall|key: Seq<char>|
                index@.contains_key(key) ==> (#[trigger] index@[key]) as int == position_upto(
                    entries@,
                    key,
                    i as int,
                ).unwrap(),
        decreases entries.len() - i,
    {
        let key = &entries[i].0;
        if !index.contains_key(key.as_str()) {
            index.insert(key.clone(), i);
        }
        i += 1;
    }
    index
}

/// Computes the diff score of two tree values.
pub fn tree_score(a: &Tree, b: &Tree) -> (score: u64)
    ensures
        score == saturate(tree_model(*a, *b)),
    decreases *a, 0nat,
{
    match (a, b) {
        (Tree::Null, Tree::Null) => 0,
        (Tree::Bool(x), Tree::Bool(y)) => if *x == *y {
            0
        } else {
            1
        },
        (Tree::Number(x), Tree::Number(y)) => signed_magnitude(*x, *y),
        (Tree::Text(x), Tree::Text(y)) => text_diff_score(
            x.as_str().as_bytes(),
            y.as_str().as_bytes(),
        ),
        (Tree::Array(xs), Tree::Array(ys)) => array_score(xs, ys),
        (Tree::Object(xs), Tree::Object(ys)) => object_score(xs, ys),
        (_, _) => 1,
    }
}

/// Computes the diff score of two arrays by windowed alignment of their items.
fn array_score(xs: &Vec<Tree>, ys: &Vec<Tree>) -> (score: u64)
    ensures
        score == saturate(
            ordered_model(
                array_costs(*xs, *ys),
                item_missing_costs(xs.len() as nat),
                item_missing_costs(ys.len() as nat),
                DEFAULT_MATCH_WINDOW as nat,
                DEFAULT_ORDER_PENALTY as nat,
            ),
        ),
    decreases *xs, 1nat,
{
    let window = DEFAULT_MATCH_WINDOW;
    let ghost costs = array_costs(*xs, *ys);
    let mut table: Vec<Vec<u64>> = Vec::new();
    let mut i: usize = 0;
    while i < xs.len()
        invariant
            i <= xs.len(),
            window == DEFAULT_MATCH_WINDOW,
            costs == array_costs(*xs, *ys),
            is_banded(table@, i as int, ys.len() as int, window as int),
            table_holds(table@, costs, ys.len() as int, window as int),
        decreases xs.len() - i,
    {
        let start = band_start_of(i, ys.len(), window);
        let end = band_end_of(i, ys.len(), window);
        let mut row: Vec<u64> = Vec::new();
        let mut j: usize = start;
        while j < end
            invariant
                start <= j <= end <= ys.len(),
                i < xs.len(),
                costs == array_costs(*xs, *ys),
                row.len() == j - start,
                forall|k: int|
                    start <= k < j ==> #[trigger] row[k - start] == saturate(costs(i as int, k)),
            decreases end - j,
        {
            row.push(tree_score(&xs[i], &ys[j]));
            j += 1;
        }
        table.push(row);
        i += 1;
    }
    let missing_a = unit_scores(xs.len());
    let missing_b = unit_scores(ys.len());
    let score = align(&table, &missing_a, &missing_b, window, DEFAULT_ORDER_PENALTY);
    proof {
        lemma_table_stands_for(
            table@,
            costs,
            xs.len() as nat,
            ys.len() as nat,
            window as nat,
        );
        lemma_ordered_model_clamped(
            table_costs(table@, ys.len() as int, window as int),
            costs,
            exact_scores(missing_a@),
            item_missing_costs(xs.len() as nat),
            exact_scores(missing_b@),
            item_missing_costs(ys.len() as nat),
            window as nat,
            DEFAULT_ORDER_PENALTY as nat,
        );
    }
    score
}

/// Computes the diff score of two objects: the values under a common key are
/// compared, and every key that only one object has costs one.
fn object_score(xs: &Vec<(String, Tree)>, ys: &Vec<(String, Tree)>) -> (score: u64)
    ensures
        score == saturate(
            sum_to(own_entry_term(*xs, *ys), xs.len() as int) + sum_to(
                other_entry_term(ys@, xs@),
                ys.len() as int,
            ),
        ),
    decreases *xs, 1nat,
{
    let ghost own = own_entry_term(*xs, *ys);
    let ghost other = other_entry_term(ys@, xs@);
    let index_x = index_entries(xs);
    let index_y = index_entries(ys);
    let mut total: u64 = 0;
    let ghost mut exact: nat = 0;
    let mut i: usize = 0;
    while i < xs.len()
        invariant
            i <= xs.len(),
            own == own_entry_term(*xs, *ys),
            forall|key: Seq<char>| #[trigger]
                index_x@.contains_key(key) <==> position_of(xs@, key) is Some,
            forall|key: Seq<char>|
                index_x@.contains_key(key) ==> (#[trigger] index_x@[key]) as int == position_of(
                    xs@,
                    key,
                ).unwrap(),
            forall|key: Seq<char>| #[trigger]
                index_y@.contains_key(key) <==> position_of(ys@, key) is Some,
            forall|key: Seq<char>|
                index_y@.contains_key(key) ==> (#[trigger] index_y@[key]) as int == position_of(
                    ys@,
                    key,
                ).unwrap(),
            total == saturate(exact),
            exact == sum_to(own, i as int),
        decreases xs.len() - i,
    {
        let key = xs[i].0.as_str();
        proof {
            lemma_position_is_first(xs@, key@, xs.len() as int);
            lemma_position_is_first(ys@, key@, ys.len() as int);
            if counts(xs@, i as int) {
                lemma_counted_entry_is_found(xs@, i as int);
            }
        }
        let first = index_x.get(key);
        if first == Some(&i) {
            match index_y.get(key) {
                Some(j) => {
                    total = add_scores(total, tree_score(&xs[i].1, &ys[*j].1));
                    proof {
                        exact = exact + tree_model(xs[i as int].1, ys[*j as int].1);
                    }
                },
                None => {
                    total = add_scores(total, 1);
                    proof {
                        exact = exact + 1;
                    }
                },
            }
        }
        i += 1;
    }
    let ghost before = exact;
    let mut j: usize = 0;
    while j < ys.len()
        invariant
            j <= ys.len(),
            other == other_entry_term(ys@, xs@),
            forall|key: Seq<char>| #[trigger]
                index_x@.contains_key(key) <==> position_of(xs@, key) is Some,
            forall|key: Seq<char>| #[trigger]
                index_y@.contains_key(key) <==> position_of(ys@, key) is Some,
            forall|key: Seq<char>|
                index_y@.contains_key(key) ==> (#[trigger] index_y@[key]) as int == position_of(
                    ys@,
                    key,
                ).unwrap(),
            total == saturate(exact),
            exact == before + sum_to(other, j as int),
        decreases ys.len() - j,
    {
        let key = ys[j].0.as_str();
        proof {
            lemma_position_is_first(ys@, key@, ys.len() as int);
            if counts(ys@, j as int) {
                lemma_counted_entry_is_found(ys@, j as int);
            }
        }
        let first = index_y.get(key);
        if first == Some(&j) && !index_x.contains_key(key) {
            total = add_scores(total, 1);
            proof {
                exact = exact + 1;
            }
        }
        j += 1;
    }
    total
}

impl DiffScore for Tree {
    open spec fn diff_model(&self, other: &Self) -> nat {
        tree_model(*self, *other)
    }

    open spec fn missing_model(&self) -> nat {
        DEFAULT_MISSING_SCORE as nat
    }

    proof fn lemma_identity(&self) {
        lemma_tree_identity(*self);
    }

    fn diff_score(&self, other: &Self) -> (score: u64) {
        tree_score(self, other)
    }

    fn missing_score(&self) -> (score: u64) {
        DEFAULT_MISSING_SCORE
    }
}

} // verus!
