use diff_score::config::{ConfigurationError, WindowConfig};
use diff_score::impls_iter::{
    diff_score_ordered, text_diff_score, DEFAULT_MATCH_WINDOW, DEFAULT_ORDER_PENALTY,
};
use diff_score::ordered::{align, band_end_of, band_start_of};
use diff_score::DiffScore;

fn texts(items: &[&str]) -> Vec<String> {
    items.iter().map(|s| s.to_string()).collect()
}

#[test]
fn equal_sequences_score_zero() {
    assert_eq!(vec![1u64, 2, 3].diff_score(&vec![1, 2, 3]), 0);
    assert_eq!(Vec::<u64>::new().diff_score(&Vec::new()), 0);
    assert_eq!(texts(&["a", "", "abc", ""]).diff_score(&texts(&["a", "", "abc", ""])), 0);
    let long: Vec<u32> = (0..200).collect();
    assert_eq!(long.diff_score(&long), 0);
}

#[test]
fn a_last_item_off_by_its_missing_cost_is_charged_on_both_sides() {
    // 3 against 4 costs 1, which is not below the missing cost of 3: both stay unpaired.
    assert_eq!(vec![1u64, 2, 3].diff_score(&vec![1, 2, 4]), 2);
    assert_eq!(vec![1u64, 2, 4].diff_score(&vec![1, 2, 3]), 2);
    assert_eq!(diff_score_ordered(&[1u64, 2, 3], &[1, 2, 4], 5, 1), 2);
}

#[test]
fn an_item_pairs_where_that_is_cheaper_than_missing() {
    // The missing cost of a text is its length, so near texts pair.
    assert_eq!(texts(&["hello", "world"]).diff_score(&texts(&["hallo", "world"])), 2);
    assert_eq!(vec![vec![1u64, 2], vec![3]].diff_score(&vec![vec![1, 2], vec![4]]), 2);
    assert_eq!(vec![vec![1u64, 2, 3]].diff_score(&vec![vec![1, 2, 3], vec![7]]), 1);
}

#[test]
fn drift_costs_the_order_penalty_for_each_position() {
    let a = texts(&["alpha", "beta"]);
    let b = texts(&["beta", "alpha"]);
    assert_eq!(a.diff_score(&b), 2);
    assert_eq!(b.diff_score(&a), 2);
    let short = texts(&["lorem ipsum", "dolor"]);
    let long = texts(&["x", "lorem ipsum", "dolor"]);
    assert_eq!(short.diff_score(&long), 3);
    assert_eq!(long.diff_score(&short), 3);
    assert_eq!(diff_score_ordered(&short, &long, 5, 3), 7);
    assert_eq!(diff_score_ordered(&short, &long, 5, 0), 1);
    assert_eq!(diff_score_ordered(&short, &long, 5, 100), 33);
}

#[test]
fn a_window_of_zero_pairs_items_at_the_same_position_only() {
    let short = texts(&["lorem ipsum", "dolor"]);
    let long = texts(&["x", "lorem ipsum", "dolor"]);
    assert_eq!(diff_score_ordered(&short, &long, 0, 1), 33);
    assert_eq!(diff_score_ordered(&[true, false, true], &[true, true, true], 0, 0), 2);
    assert_eq!(diff_score_ordered(&[true, false], &[false, true], 0, 0), 4);
    assert_eq!(diff_score_ordered(&[true, false], &[false, true], 1, 0), 0);
}

#[test]
fn items_beyond_the_window_do_not_pair() {
    let mut a = texts(&["target"]);
    let mut b = texts(&[]);
    for _ in 0..5 {
        a.push(".".to_string());
        b.push(".".to_string());
    }
    b.push("target".to_string());
    // Five positions apart: within the default window.
    assert_eq!(a.diff_score(&b), 7);
    a.push(".".to_string());
    b.insert(0, ".".to_string());
    // Six positions apart: out of reach.
    assert_eq!(a.diff_score(&b), 14);
    // Within a window of six the pairing costs as much as the missing text, and is not made.
    assert_eq!(diff_score_ordered(&a, &b, 6, 1), 14);
    assert_eq!(diff_score_ordered(&a, &b, usize::MAX, 0), 0);
}

#[test]
fn the_alignment_is_greedy_and_depends_on_the_order_of_the_operands() {
    let two = texts(&["abcd", "abcx"]);
    let one = texts(&["abcx"]);
    assert_eq!(two.diff_score(&one), 6);
    assert_eq!(one.diff_score(&two), 5);
}

#[test]
fn among_equally_cheap_candidates_the_first_one_is_taken() {
    // "5" is as far from "4" as from "6"; without order penalty the first is paired.
    let a = vec![vec![5u64, 0, 0]];
    let b = vec![vec![4u64, 0, 0], vec![6, 0, 0]];
    // pairing costs 2 with either (5 and 4 stay unpaired); the other one is missing: 1.
    assert_eq!(diff_score_ordered(&a, &b, 5, 0), 3);
    let b = vec![vec![6u64, 0, 0, 0, 0], vec![5, 0, 0]];
    // here the second candidate is strictly cheaper and is taken.
    assert_eq!(diff_score_ordered(&a, &b, 5, 0), 1);
    // with an order penalty of one it costs 1, which is not below the missing cost.
    assert_eq!(diff_score_ordered(&a, &b, 5, 1), 3);
}

#[test]
fn an_empty_side_leaves_everything_missing() {
    assert_eq!(Vec::<u64>::new().diff_score(&vec![1, 2]), 2);
    assert_eq!(vec![1u64, 2].diff_score(&Vec::new()), 2);
    assert_eq!(texts(&["abc", "de"]).diff_score(&Vec::new()), 5);
    assert_eq!(Vec::new().diff_score(&texts(&["abc", "de"])), 5);
}

#[test]
fn a_missing_sequence_costs_one() {
    assert_eq!(vec![1u64, 2, 3].missing_score(), 1);
    assert_eq!(Vec::<u64>::new().missing_score(), 1);
    let items = [1u64, 2, 3];
    assert_eq!((&items[..]).missing_score(), 1);
}

#[test]
fn slices_score_as_vectors() {
    let a = [1u64, 2, 3];
    let b = [1u64, 5, 3, 9];
    assert_eq!((&a[..]).diff_score(&&b[..]), vec![1u64, 2, 3].diff_score(&vec![1, 5, 3, 9]));
    assert_eq!((&a[..]).diff_score(&&b[..]), 3);
}

#[test]
fn text_is_aligned_by_code_units() {
    assert_eq!("hello".diff_score(&"hello"), 0);
    assert_eq!("hello".diff_score(&"hello world!"), 7);
    assert_eq!("hello world!".diff_score(&"hello"), 7);
    assert_eq!("kitten".diff_score(&"sitting"), 5);
    assert_eq!("abc".diff_score(&"xabc"), 7);
    assert_eq!("".diff_score(&""), 0);
    assert_eq!("".diff_score(&"abc"), 3);
    assert_eq!("hello".to_string().diff_score(&"hallo".to_string()), 2);
    assert_eq!(text_diff_score(b"hello", b"hallo"), 2);
    assert_eq!(text_diff_score(&[0, 255], &[255, 0]), 4);
}

#[test]
fn text_counts_code_units_not_characters() {
    assert_eq!("\u{e9}lan".diff_score(&"elan"), 9);
    assert_eq!("\u{e9}".missing_score(), 2);
    assert_eq!("\u{e9}".diff_score(&"\u{e8}"), 2);
}

#[test]
fn a_missing_text_costs_its_length() {
    assert_eq!("".missing_score(), 0);
    assert_eq!("hello".missing_score(), 5);
    assert_eq!("hello world!".to_string().missing_score(), 12);
    let long = "x".repeat(1000);
    assert_eq!(long.missing_score(), 1000);
}

#[test]
fn empty_texts_among_the_items_cost_nothing() {
    assert_eq!(texts(&["", ""]).diff_score(&texts(&[""])), 0);
    assert_eq!(texts(&[""]).diff_score(&texts(&["", ""])), 0);
}

#[test]
fn huge_scores_are_clamped() {
    let a = vec![0u64, 0, 0];
    let b = vec![u64::MAX, u64::MAX, u64::MAX];
    assert_eq!(a.diff_score(&b), 6);
    let far = vec![vec![0u64]];
    let away = vec![vec![u64::MAX]];
    assert_eq!(far.diff_score(&away), 2);
    // A table may hold any costs: sums beyond 64 bits stay at the top.
    let table = vec![vec![u64::MAX - 1], vec![u64::MAX - 1]];
    let missing = vec![u64::MAX, u64::MAX];
    assert_eq!(align(&table, &missing, &missing, 0, 0), u64::MAX);
    let table = vec![vec![7]];
    assert_eq!(align(&table, &vec![u64::MAX], &vec![3], 0, u64::MAX), 7);
    let table = vec![vec![7, 7]];
    assert_eq!(align(&table, &vec![u64::MAX], &vec![3, 4], 1, u64::MAX), 7 + 4);
    let table = vec![vec![u64::MAX, 7]];
    assert_eq!(align(&table, &vec![u64::MAX], &vec![3, 4], 1, 2), 9 + 3);
}

#[test]
fn alignment_on_a_table_of_costs() {
    // two items against three, window 1: rows hold the costs of positions 0..2 and 0..3
    let table = vec![vec![4, 0], vec![9, 9, 1]];
    assert_eq!(band_start_of(0, 3, 1), 0);
    assert_eq!(band_end_of(0, 3, 1), 2);
    assert_eq!(band_start_of(1, 3, 1), 0);
    assert_eq!(band_end_of(1, 3, 1), 3);
    let missing_a = vec![5, 5];
    let missing_b = vec![2, 2, 2];
    // item 0: costs 4 at 0, 0 + 1 at 1: pairs with 1. item 1: 9 + 1 at 0, 1 + 1 at 2: pairs with 2.
    assert_eq!(align(&table, &missing_a, &missing_b, 1, 1), 1 + 2 + 2);
    // without order penalty: 0 and 1, and position 0 is left.
    assert_eq!(align(&table, &missing_a, &missing_b, 1, 0), 0 + 1 + 2);
    // with a steep one nothing but position 0 for item 0 is cheap enough.
    assert_eq!(align(&table, &missing_a, &missing_b, 1, 10), 4 + 5 + 2 + 2);
}

#[test]
fn bands_are_clipped_to_the_other_collection() {
    assert_eq!(band_start_of(0, 10, 5), 0);
    assert_eq!(band_end_of(0, 10, 5), 6);
    assert_eq!(band_start_of(7, 10, 5), 2);
    assert_eq!(band_end_of(7, 10, 5), 10);
    assert_eq!(band_start_of(20, 10, 5), 10);
    assert_eq!(band_end_of(20, 10, 5), 10);
    assert_eq!(band_start_of(3, 0, 5), 0);
    assert_eq!(band_end_of(3, 0, 5), 0);
    assert_eq!(band_start_of(usize::MAX, 10, usize::MAX), 0);
    assert_eq!(band_end_of(usize::MAX, 10, usize::MAX), 10);
    assert_eq!(band_end_of(4, 10, 0), 5);
    assert_eq!(band_start_of(4, 10, 0), 4);
}

#[test]
fn the_default_window() {
    assert_eq!(DEFAULT_MATCH_WINDOW, 5);
    assert_eq!(DEFAULT_ORDER_PENALTY, 1);
    let config = WindowConfig::default();
    assert_eq!(config.match_window(), 5);
    assert_eq!(config.order_penalty(), 1);
    let a = texts(&["alpha", "beta"]);
    let b = texts(&["beta", "alpha"]);
    assert_eq!(config.diff_score(&a, &b), a.diff_score(&b));
}

#[test]
fn a_window_with_its_own_reach_and_penalty() {
    let config = WindowConfig::new(0, 7).unwrap();
    assert_eq!(config.match_window(), 0);
    assert_eq!(config.order_penalty(), 7);
    let a = texts(&["alpha", "beta"]);
    let b = texts(&["beta", "alpha"]);
    assert_eq!(config.diff_score(&a, &b), 18);
    let free = WindowConfig::new(1, 0).unwrap();
    assert_eq!(free.diff_score(&a, &b), 0);
}

#[test]
fn a_negative_order_penalty_is_refused() {
    assert!(matches!(WindowConfig::new(5, -1), Err(ConfigurationError::NegativeOrderPenalty)));
    assert!(matches!(
        WindowConfig::new(0, i64::MIN),
        Err(ConfigurationError::NegativeOrderPenalty)
    ));
    assert!(WindowConfig::new(5, 0).is_ok());
    assert!(WindowConfig::new(usize::MAX, i64::MAX).is_ok());
}

#[test]
fn a_free_pairing_with_an_earlier_free_item_breaks_identity() {
    // Two items, both at distance zero from each other; the first costs nothing when missing,
    // the second costs five. With an order penalty of zero the second pairs with the first
    // position, which comes first among the cheapest, and its own position is left over.
    let table = vec![vec![0, 0], vec![0, 0]];
    let missing = vec![0, 5];
    assert_eq!(align(&table, &missing, &missing, 1, 0), 5);
    // As soon as drift costs something, every item keeps its own place.
    assert_eq!(align(&table, &missing, &missing, 1, 1), 0);
    // And so it does where only its own position is in reach.
    let table = vec![vec![0], vec![0]];
    assert_eq!(align(&table, &missing, &missing, 0, 0), 0);
}
