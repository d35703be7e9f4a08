//! Scorers of ordered collections and of text, by windowed alignment of
//! their items.
use vstd::prelude::*;
use vstd::string::StringSliceAdditionalSpecFns;
use vstd::utf8::encode_utf8;
use crate::DiffScore;
use crate::impls::equality_model;
use crate::ordered::{
    align, band_end_of, band_start_of, is_banded, ordered_model, table_costs, table_holds,
};
use crate::ordered_laws::{
    costs_clamp_alike, keeps_own_place, lemma_ordered_against_nothing, lemma_ordered_identity,
    lemma_ordered_identity_exactly, lemma_ordered_model_clamped, lemma_penalty_keeps_own_place,
    lemma_table_stands_for, scores_clamp_alike, total_to,
};
use crate::score::{exact_scores, saturate, DEFAULT_MISSING_SCORE};

verus! {

/// How far apart two items may stand and still be paired, unless the caller says otherwise.
pub const DEFAULT_MATCH_WINDOW: usize = 5;

/// What each position of drift between two paired items costs, unless the caller says otherwise.
pub const DEFAULT_ORDER_PENALTY: u64 = 1;

/// The diff score of every pair made of an item of `a` and an item of `b`.
pub open spec fn item_costs<T: DiffScore>(a: Seq<T>, b: Seq<T>) -> spec_fn(int, int) -> nat {
    |i: int, j: int|
        if 0 <= i < a.len() && 0 <= j < b.len() {
            a[i].diff_model(&b[j])
        } else {
            0
        }
}

/// The missing cost of every item.
pub open spec fn missing_costs<T: DiffScore>(items: Seq<T>) -> Seq<nat> {
    Seq::new(items.len(), |i: int| items[i].missing_model())
}

/// The exact diff score of two ordered collections of scorable items.
pub open spec fn ordered_items_model<T: DiffScore>(
    a: Seq<T>,
    b: Seq<T>,
    window: nat,
    penalty: nat,
) -> nat {
    ordered_model(item_costs(a, b), missing_costs(a), missing_costs(b), window, penalty)
}

/// Computes the missing cost of every item.
fn missing_scores<T: DiffScore>(items: &[T]) -> (scores: Vec<u64>)
    ensures
        scores.len() == items.len(),
        forall|i: int|
            0 <= i < items.len() ==> #[trigger] scores[i] == saturate(items[i].missing_model()),
{
    let mut scores: Vec<u64> = Vec::new();
    let mut i: usize = 0;
    while i < items.len()
        invariant
            i <= items.len(),
            scores.len() == i,
            forall|k: int|
                0 <= k < i ==> #[trigger] scores[k] == saturate(items[k].missing_model()),
        decreases items.len() - i,
    {
        scores.push(items[i].missing_score());
        i += 1;
    }
    scores
}

/// Computes the diff score of `item` against the items of `b` from `start` up to `end`.
fn cost_row<T: DiffScore>(item: &T, b: &[T], start: usize, end: usize) -> (row: Vec<u64>)
    requires
        start <= end <= b.len(),
    ensures
        row.len() == end - start,
        forall|j: int|
            start <= j < end ==> #[trigger] row[j - start] == saturate(item.diff_model(&b[j])),
{
    let mut row: Vec<u64> = Vec::new();
    let mut j: usize = start;
    while j < end
        invariant
            start <= j <= end <= b.len(),
            row.len() == j - start,
            forall|k: int|
                start <= k < j ==> #[trigger] row[k - start] == saturate(item.diff_model(&b[k])),
        decreases end - j,
    {
        row.push(item.diff_score(&b[j]));
        j += 1;
    }
    row
}

/// Computes the diff score of every item of `a` against the items of `b` within its window.
fn cost_table<T: DiffScore>(a: &[T], b: &[T], window: usize) -> (table: Vec<Vec<u64>>)
    ensures
        is_banded(table@, a.len() as int, b.len() as int, window as int),
        costs_clamp_alike(
            table_costs(table@, b.len() as int, window as int),
            item_costs(a@, b@),
            a.len() as nat,
            b.len() as nat,
            window as nat,
        ),
{
    let mut table: Vec<Vec<u64>> = Vec::new();
    let mut i: usize = 0;
    while i < a.len()
        invariant
            i <= a.len(),
            is_banded(table@, i as int, b.len() as int, window as int),
            table_holds(table@, item_costs(a@, b@), b.len() as int, window as int),
        decreases a.len() - i,
    {
        let start = band_start_of(i, b.len(), window);
        let end = band_end_of(i, b.len(), window);
        let row = cost_row(&a[i], b, start, end);
        table.push(row);
        i += 1;
    }
    proof {
        lemma_table_stands_for(
            table@,
            item_costs(a@, b@),
            a.len() as nat,
            b.len() as nat,
            window as nat,
        );
    }
    table
}

/// Computes the diff score of two ordered collections by windowed alignment:
/// `window` is how far apart two paired items may stand, `order_penalty` what
/// each position of drift between them costs.
pub fn diff_score_ordered<T: DiffScore>(
    a: &[T],
    b: &[T],
    window: usize,
    order_penalty: u64,
) -> (score: u64)
    ensures
        score == saturate(
            ordered_items_model(a@, b@, window as nat, order_penalty as nat),
        ),
{
    let missing_a = missing_scores(a);
    let missing_b = missing_scores(b);
    let table = cost_table(a, b, window);
    let score = align(&table, &missing_a, &missing_b, window, order_penalty);
    proof {
        assert(scores_clamp_alike(exact_scores(missing_a@), missing_costs(a@)));
        assert(scores_clamp_alike(exact_scores(missing_b@), missing_costs(b@)));
        lemma_ordered_model_clamped(
            table_costs(table@, b.len() as int, window as int),
            item_costs(a@, b@),
            exact_scores(missing_a@),
            missing_costs(a@),
            exact_scores(missing_b@),
            missing_costs(b@),
            window as nat,
            order_penalty as nat,
        );
    }
    score
}

/// An ordered collection aligned with itself scores zero if and only if
/// every item keeps its own place. Every item does as soon as the order
/// penalty is at least one.
pub proof fn lemma_ordered_items_identity<T: DiffScore>(items: Seq<T>, window: nat, penalty: nat)
    ensures
        ordered_items_model(items, items, window, penalty) == 0 <==> keeps_own_place(
            item_costs(items, items),
            missing_costs(items),
            window,
            penalty,
        ),
        penalty >= 1 ==> ordered_items_model(items, items, window, penalty) == 0,
{
    let costs = item_costs(items, items);
    assert forall|k: int| 0 <= k < items.len() implies #[trigger] costs(k, k) == 0 by {
        items[k].lemma_identity();
    }
    lemma_ordered_identity_exactly(costs, missing_costs(items), window, penalty);
    if penalty >= 1 {
        lemma_penalty_keeps_own_place(costs, missing_costs(items), window, penalty);
    }
}

impl<T: DiffScore> DiffScore for Vec<T> {
    open spec fn diff_model(&self, other: &Self) -> nat {
        ordered_items_model(
            self@,
            other@,
            DEFAULT_MATCH_WINDOW as nat,
            DEFAULT_ORDER_PENALTY as nat,
        )
    }

    open spec fn missing_model(&self) -> nat {
        DEFAULT_MISSING_SCORE as nat
    }

    proof fn lemma_identity(&self) {
        lemma_ordered_items_identity(
            self@,
            DEFAULT_MATCH_WINDOW as nat,
            DEFAULT_ORDER_PENALTY as nat,
        );
    }

    fn diff_score(&self, other: &Self) -> (score: u64) {
        diff_score_ordered(
            self.as_slice(),
            other.as_slice(),
            DEFAULT_MATCH_WINDOW,
            DEFAULT_ORDER_PENALTY,
        )
    }

    fn missing_score(&self) -> (score: u64) {
        DEFAULT_MISSING_SCORE
    }
}

impl<T: DiffScore> DiffScore for &[T] {
    open spec fn diff_model(&self, other: &Self) -> nat {
        ordered_items_model(
            self@,
            other@,
            DEFAULT_MATCH_WINDOW as nat,
            DEFAULT_ORDER_PENALTY as nat,
        )
    }

    open spec fn missing_model(&self) -> nat {
        DEFAULT_MISSING_SCORE as nat
    }

    proof fn lemma_identity(&self) {
        lemma_ordered_items_identity(
            self@,
            DEFAULT_MATCH_WINDOW as nat,
            DEFAULT_ORDER_PENALTY as nat,
        );
    }

    fn diff_score(&self, other: &Self) -> (score: u64) {
        diff_score_ordered(*self, *other, DEFAULT_MATCH_WINDOW, DEFAULT_ORDER_PENALTY)
    }

    fn missing_score(&self) -> (score: u64) {
        DEFAULT_MISSING_SCORE
    }
}

/// The diff score of every pair of code units: zero for equal ones, one otherwise.
pub open spec fn unit_costs(a: Seq<u8>, b: Seq<u8>) -> spec_fn(int, int) -> nat {
    |i: int, j: int|
        if 0 <= i < a.len() && 0 <= j < b.len() {
            equality_model(a[i], b[j])
        } else {
            0
        }
}

/// The exact diff score of two texts, given as their code units: an alignment
/// in which a unit pairs at no cost with an equal one and costs one when missing.
pub open spec fn text_model(a: Seq<u8>, b: Seq<u8>) -> nat {
    ordered_model(
        unit_costs(a, b),
        Seq::new(a.len(), |i: int| 1nat),
        Seq::new(b.len(), |j: int| 1nat),
        DEFAULT_MATCH_WINDOW as nat,
        DEFAULT_ORDER_PENALTY as nat,
    )
}

/// The missing costs of `len` items that cost one each.
pub(crate) fn unit_scores(len: usize) -> (scores: Vec<u64>)
    ensures
        scores.len() == len,
        exact_scores(scores@) == Seq::new(len as nat, |i: int| 1nat),
{
    let mut scores: Vec<u64> = Vec::new();
    let mut i: usize = 0;
    while i < len
        invariant
            i <= len,
            scores.len() == i,
            forall|k: int| 0 <= k < i ==> scores[k] == 1,
        decreases len - i,
    {
        scores.push(1);
        i += 1;
    }
    assert(exact_scores(scores@) =~= Seq::new(len as nat, |i: int| 1nat));
    scores
}

/// Compares every code unit of `a` with the code units of `b` within its window.
fn unit_table(a: &[u8], b: &[u8], window: usize) -> (table: Vec<Vec<u64>>)
    ensures
        is_banded(table@, a.len() as int, b.len() as int, window as int),
        costs_clamp_alike(
            table_costs(table@, b.len() as int, window as int),
            unit_costs(a@, b@),
            a.len() as nat,
            b.len() as nat,
            window as nat,
        ),
{
    let mut table: Vec<Vec<u64>> = Vec::new();
    let mut i: usize = 0;
    while i < a.len()
        invariant
            i <= a.len(),
            is_banded(table@, i as int, b.len() as int, window as int),
            table_holds(table@, unit_costs(a@, b@), b.len() as int, window as int),
        decreases a.len() - i,
    {
        let start = band_start_of(i, b.len(), window);
        let end = band_end_of(i, b.len(), window);
        let mut row: Vec<u64> = Vec::new();
        let mut j: usize = start;
        while j < end
            invariant
                start <= j <= end <= b.len(),
                i < a.len(),
                row.len() == j - start,
                forall|k: int|
                    start <= k < j ==> #[trigger] row[k - start] == equality_model(
                        a[i as int],
                        b[k],
                    ),
            decreases end - j,
        {
            let cost: u64 = if a[i] == b[j] {
                0
            } else {
                1
            };
            row.push(cost);
            j += 1;
        }
        table.push(row);
        i += 1;
    }
    proof {
        lemma_table_stands_for(
            table@,
            unit_costs(a@, b@),
            a.len() as nat,
            b.len() as nat,
            window as nat,
        );
    }
    table
}

/// Computes the diff score of two texts, given as their code units.
pub fn text_diff_score(a: &[u8], b: &[u8]) -> (score: u64)
    ensures
        score == saturate(text_model(a@, b@)),
{
    let missing_a = unit_scores(a.len());
    let missing_b = unit_scores(b.len());
    let table = unit_table(a, b, DEFAULT_MATCH_WINDOW);
    let score = align(&table, &missing_a, &missing_b, DEFAULT_MATCH_WINDOW, DEFAULT_ORDER_PENALTY);
    proof {
        lemma_ordered_model_clamped(
            table_costs(table@, b.len() as int, DEFAULT_MATCH_WINDOW as int),
            unit_costs(a@, b@),
            exact_scores(missing_a@),
            Seq::new(a.len() as nat, |i: int| 1nat),
            exact_scores(missing_b@),
            Seq::new(b.len() as nat, |j: int| 1nat),
            DEFAULT_MATCH_WINDOW as nat,
            DEFAULT_ORDER_PENALTY as nat,
        );
    }
    score
}

/// A text does not differ from itself.
pub proof fn lemma_text_identity(a: Seq<u8>)
    ensures
        text_model(a, a) == 0,
{
    let missing = Seq::new(a.len(), |i: int| 1nat);
    lemma_penalty_keeps_own_place(
        unit_costs(a, a),
        missing,
        DEFAULT_MATCH_WINDOW as nat,
        DEFAULT_ORDER_PENALTY as nat,
    );
    lemma_ordered_identity(
        unit_costs(a, a),
        missing,
        DEFAULT_MATCH_WINDOW as nat,
        DEFAULT_ORDER_PENALTY as nat,
    );
}

/// The missing cost of a text, the number of its code units, is what the text
/// scores against the empty text.
pub proof fn lemma_text_missing_is_length(a: Seq<u8>)
    ensures
        text_model(a, Seq::empty()) == a.len(),
{
    let missing = Seq::new(a.len(), |i: int| 1nat);
    assert(Seq::new(0, |j: int| 1nat) =~= Seq::<nat>::empty());
    lemma_ordered_against_nothing(
        unit_costs(a, Seq::empty()),
        missing,
        DEFAULT_MATCH_WINDOW as nat,
        DEFAULT_ORDER_PENALTY as nat,
    );
    lemma_total_of_ones(missing, missing.len() as int);
}

/// Scores of one each add up to their number.
proof fn lemma_total_of_ones(scores: Seq<nat>, n: int)
    requires
        0 <= n <= scores.len(),
        forall|i: int| 0 <= i < n ==> scores[i] == 1,
    ensures
        total_to(scores, n) == n,
    decreases n,
{
    if n > 0 {
        lemma_total_of_ones(scores, n - 1);
    }
}

impl DiffScore for &str {
    open spec fn diff_model(&self, other: &Self) -> nat {
        text_model(self.spec_bytes(), other.spec_bytes())
    }

    open spec fn missing_model(&self) -> nat {
        self.spec_bytes().len()
    }

    proof fn lemma_identity(&self) {
        lemma_text_identity(self.spec_bytes());
    }

    fn diff_score(&self, other: &Self) -> (score: u64) {
        text_diff_score(self.as_bytes(), other.as_bytes())
    }

    fn missing_score(&self) -> (score: u64) {
        self.as_bytes().len() as u64
    }
}

impl DiffScore for String {
    open spec fn diff_model(&self, other: &Self) -> nat {
        text_model(encode_utf8(self@), encode_utf8(other@))
    }

    open spec fn missing_model(&self) -> nat {
        encode_utf8(self@).len()
    }

    proof fn lemma_identity(&self) {
        lemma_text_identity(encode_utf8(self@));
    }

    fn diff_score(&self, other: &Self) -> (score: u64) {
        text_diff_score(self.as_str().as_bytes(), other.as_str().as_bytes())
    }

    fn missing_score(&self) -> (score: u64) {
        self.as_str().as_bytes().len() as u64
    }
}

} // verus!
