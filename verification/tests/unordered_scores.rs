use diff_score::with::{discriminant, eq, variant_score, Ratio};

fn share<T: diff_score::keys::HashKey + Copy>(a: &[T], b: &[T]) -> Ratio {
    diff_score::with::set(a, b)
}
use diff_score::DiffScore;
use std::collections::{BTreeSet, HashMap, HashSet};

fn hash_set(items: &[u64]) -> HashSet<u64> {
    items.iter().copied().collect()
}

fn tree_set(items: &[i32]) -> BTreeSet<i32> {
    items.iter().copied().collect()
}

fn map(entries: &[(u8, u64)]) -> HashMap<u8, u64> {
    entries.iter().copied().collect()
}

#[test]
fn sets_are_charged_for_what_only_one_side_holds() {
    // {a, b} against {a, c}
    assert_eq!(hash_set(&[1, 2]).diff_score(&hash_set(&[1, 3])), 2);
    assert_eq!(hash_set(&[1, 3]).diff_score(&hash_set(&[1, 2])), 2);
    assert_eq!(hash_set(&[1, 2]).diff_score(&hash_set(&[1, 2])), 0);
    assert_eq!(hash_set(&[1, 2]).diff_score(&hash_set(&[2, 1])), 0);
    assert_eq!(hash_set(&[]).diff_score(&hash_set(&[])), 0);
    assert_eq!(hash_set(&[]).diff_score(&hash_set(&[4, 5, 6])), 3);
    assert_eq!(hash_set(&[4, 5, 6]).diff_score(&hash_set(&[])), 3);
    assert_eq!(hash_set(&[1, 2, 3]).diff_score(&hash_set(&[4, 5])), 5);
}

#[test]
fn sets_give_no_credit_for_near_elements() {
    assert_eq!(hash_set(&[100]).diff_score(&hash_set(&[101])), 2);
    assert_eq!(tree_set(&[100]).diff_score(&tree_set(&[101])), 2);
}

#[test]
fn sorted_sets_score_as_hash_sets() {
    assert_eq!(tree_set(&[1, 2]).diff_score(&tree_set(&[1, 3])), 2);
    assert_eq!(tree_set(&[-1, 0, 1]).diff_score(&tree_set(&[1, 0, -1])), 0);
    assert_eq!(tree_set(&[]).diff_score(&tree_set(&[7])), 1);
    assert_eq!(tree_set(&[7, 8, 9]).diff_score(&tree_set(&[9])), 2);
    assert_eq!(tree_set(&[7]).missing_score(), 1);
}

#[test]
fn large_sets() {
    let evens: HashSet<u64> = (0..2000).filter(|n| n % 2 == 0).collect();
    let thirds: HashSet<u64> = (0..2000).filter(|n| n % 3 == 0).collect();
    // 1000 evens, 667 multiples of three, 334 of both
    assert_eq!(evens.diff_score(&thirds), (1000 - 334) + (667 - 334));
    assert_eq!(thirds.diff_score(&evens), (1000 - 334) + (667 - 334));
    assert_eq!(evens.diff_score(&evens), 0);
}

#[test]
fn maps_compare_the_values_under_common_keys() {
    assert_eq!(map(&[(1, 10)]).diff_score(&map(&[(1, 10)])), 0);
    assert_eq!(map(&[(1, 10)]).diff_score(&map(&[(1, 14)])), 4);
    assert_eq!(map(&[(1, 10), (2, 5)]).diff_score(&map(&[(2, 7), (1, 14)])), 6);
    assert_eq!(map(&[(1, 0)]).diff_score(&map(&[(1, u64::MAX)])), u64::MAX);
    assert_eq!(map(&[(1, 0), (2, 0)]).diff_score(&map(&[(1, u64::MAX), (2, 9)])), u64::MAX);
}

#[test]
fn maps_are_charged_for_the_keys_that_only_one_side_holds() {
    // {"x": 1} against {"x": 1, "y": 2}
    assert_eq!(map(&[(b'x', 1)]).diff_score(&map(&[(b'x', 1), (b'y', 2)])), 1);
    assert_eq!(map(&[(b'x', 1), (b'y', 2)]).diff_score(&map(&[(b'x', 1)])), 1);
    assert_eq!(map(&[]).diff_score(&map(&[(1, 1), (2, 2)])), 2);
    assert_eq!(map(&[(1, 1), (2, 2)]).diff_score(&map(&[(3, 1), (4, 2)])), 4);
    assert_eq!(map(&[(1, 1), (2, 2)]).diff_score(&map(&[(2, 5), (3, 9)])), 1 + 3 + 1);
    assert_eq!(map(&[]).diff_score(&map(&[])), 0);
    assert_eq!(map(&[(1, 1)]).missing_score(), 1);
}

#[test]
fn maps_charge_the_missing_cost_of_the_lone_value() {
    let mut a: HashMap<u32, String> = HashMap::new();
    let mut b: HashMap<u32, String> = HashMap::new();
    a.insert(1, "hello".to_string());
    a.insert(2, "left only".to_string());
    b.insert(1, "hallo".to_string());
    b.insert(3, "right".to_string());
    assert_eq!(a.diff_score(&b), 2 + 9 + 5);
    assert_eq!(b.diff_score(&a), 2 + 9 + 5);
}

#[test]
fn nested_collections() {
    let mut a: HashMap<u8, Vec<u64>> = HashMap::new();
    let mut b: HashMap<u8, Vec<u64>> = HashMap::new();
    a.insert(1, vec![1, 2, 3]);
    b.insert(1, vec![1, 2, 3, 4]);
    a.insert(2, vec![]);
    assert_eq!(a.diff_score(&b), 1 + 1);
    let left = vec![hash_set(&[1, 2]), hash_set(&[3])];
    let right = vec![hash_set(&[1, 2]), hash_set(&[3, 4, 5])];
    // the second pair would cost 2, which is not below the missing cost of a set
    assert_eq!(left.diff_score(&right), 2);
}

#[test]
fn the_share_of_elements_not_in_common() {
    let cases: [(&[u64], &[u64], u128, u128); 9] = [
        (&[], &[], 0, 1),
        (&[1], &[1], 0, 1),
        (&[1], &[2], 2, 2),
        (&[1], &[1, 2], 1, 2),
        (&[1, 2], &[1, 3], 2, 3),
        (&[1, 2], &[1, 2], 0, 2),
        (&[1, 2], &[3, 4], 4, 4),
        (&[1, 2], &[1, 2, 3], 1, 3),
        (&[1, 2, 3], &[1, 2, 4], 2, 4),
    ];
    for (a, b, numerator, denominator) in cases.iter() {
        let expected = Ratio { numerator: *numerator, denominator: *denominator };
        assert_eq!(share(a, b), expected);
        assert_eq!(share(b, a), expected);
    }
}

#[test]
fn the_share_as_a_fraction() {
    let as_fraction = |r: Ratio| r.numerator as f64 / r.denominator as f64;
    assert_eq!(as_fraction(share(&[1u64, 2], &[1, 3])), 2. / 3.);
    assert_eq!(as_fraction(share(&[1u64], &[1, 2])), 0.5);
    assert_eq!(as_fraction(share(&[1u64, 2], &[3, 4])), 1.0);
    assert_eq!(as_fraction(share::<u64>(&[], &[])), 0.0);
    assert_eq!(as_fraction(share(&[1u64, 2], &[1, 2, 3])), 1. / 3.);
}

#[test]
fn the_share_counts_distinct_elements() {
    assert_eq!(share(&[1u8, 1, 1], &[1]), Ratio { numerator: 0, denominator: 1 });
    assert_eq!(share(&[1u8, 1, 2, 2], &[2, 3, 3]), Ratio { numerator: 2, denominator: 3 });
    assert_eq!(share(&[true, false], &[false]), Ratio { numerator: 1, denominator: 2 });
    assert_eq!(share::<i64>(&[], &[5, 5]), Ratio { numerator: 1, denominator: 1 });
}

#[test]
fn plain_equality() {
    assert_eq!(eq(&3u64, &3u64), 0);
    assert_eq!(eq(&3u64, &7u64), 1);
    assert_eq!(eq(&"hello", &"hello"), 0);
    assert_eq!(eq(&"hello", &"hello world!"), 1);
    assert_eq!(eq(&vec![1, 2, 3], &vec![1, 2, 4]), 1);
    assert_eq!(eq(&Some('a'), &None), 1);
}

#[derive(Debug)]
enum Shape {
    Dot,
    Circle(u32),
    Rect { width: u32, height: u32 },
}

#[test]
fn equality_of_variants() {
    assert_eq!(discriminant(&Shape::Dot, &Shape::Dot), 0);
    assert_eq!(discriminant(&Shape::Circle(1), &Shape::Circle(900)), 0);
    assert_eq!(
        discriminant(
            &Shape::Rect { width: 1, height: 2 },
            &Shape::Rect { width: 3, height: 4 }
        ),
        0
    );
    assert_eq!(discriminant(&Shape::Dot, &Shape::Circle(0)), 1);
    assert_eq!(discriminant(&Shape::Circle(5), &Shape::Rect { width: 5, height: 5 }), 1);
    assert_eq!(discriminant(&Some(1), &Some(2)), 0);
    assert_eq!(discriminant(&Some(1), &None), 1);
    assert_eq!(variant_score(true), 0);
    assert_eq!(variant_score(false), 1);
}
