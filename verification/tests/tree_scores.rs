use diff_score::tree::{tree_score, Tree};
use diff_score::DiffScore;

fn text(s: &str) -> Tree {
    Tree::Text(s.to_string())
}

fn numbers(items: &[i128]) -> Tree {
    Tree::Array(items.iter().map(|n| Tree::Number(*n)).collect())
}

fn object(entries: Vec<(&str, Tree)>) -> Tree {
    Tree::Object(entries.into_iter().map(|(k, v)| (k.to_string(), v)).collect())
}

#[test]
fn values_of_different_kinds_score_one() {
    assert_eq!(Tree::Number(1).diff_score(&text("1")), 1);
    assert_eq!(text("1").diff_score(&Tree::Number(1)), 1);
    assert_eq!(Tree::Null.diff_score(&Tree::Bool(false)), 1);
    assert_eq!(Tree::Null.diff_score(&Tree::Number(0)), 1);
    assert_eq!(Tree::Bool(true).diff_score(&Tree::Number(1)), 1);
    assert_eq!(numbers(&[]).diff_score(&object(vec![])), 1);
    assert_eq!(numbers(&[1, 2, 3, 4, 5]).diff_score(&text("12345")), 1);
    assert_eq!(text("a very long text indeed").diff_score(&Tree::Null), 1);
    assert_eq!(
        object(vec![("a", Tree::Null), ("b", Tree::Null), ("c", Tree::Null)])
            .diff_score(&numbers(&[1_000_000])),
        1
    );
}

#[test]
fn null_and_booleans() {
    assert_eq!(Tree::Null.diff_score(&Tree::Null), 0);
    assert_eq!(Tree::Bool(true).diff_score(&Tree::Bool(true)), 0);
    assert_eq!(Tree::Bool(true).diff_score(&Tree::Bool(false)), 1);
    assert_eq!(Tree::Bool(false).diff_score(&Tree::Bool(true)), 1);
}

#[test]
fn numbers_score_their_distance() {
    assert_eq!(Tree::Number(3).diff_score(&Tree::Number(7)), 4);
    assert_eq!(Tree::Number(7).diff_score(&Tree::Number(3)), 4);
    assert_eq!(Tree::Number(3).diff_score(&Tree::Number(3)), 0);
    assert_eq!(Tree::Number(-3).diff_score(&Tree::Number(3)), 6);
    assert_eq!(
        Tree::Number(i64::MIN as i128).diff_score(&Tree::Number(u64::MAX as i128)),
        u64::MAX
    );
    assert_eq!(Tree::Number(0).diff_score(&Tree::Number(u64::MAX as i128)), u64::MAX);
    assert_eq!(Tree::Number(1).diff_score(&Tree::Number(u64::MAX as i128)), u64::MAX - 1);
}

#[test]
fn text_values_are_aligned_by_code_units() {
    assert_eq!(text("hello").diff_score(&text("hello")), 0);
    assert_eq!(text("hello").diff_score(&text("hallo")), 2);
    assert_eq!(text("hello").diff_score(&text("hello world!")), 7);
    assert_eq!(text("").diff_score(&text("abc")), 3);
}

#[test]
fn arrays_are_aligned_by_position() {
    assert_eq!(numbers(&[1, 2, 3]).diff_score(&numbers(&[1, 2, 3])), 0);
    assert_eq!(numbers(&[1, 2, 3]).diff_score(&numbers(&[1, 2, 4])), 2);
    assert_eq!(numbers(&[1, 2, 3]).diff_score(&numbers(&[1, 2, 3, 4])), 1);
    assert_eq!(numbers(&[]).diff_score(&numbers(&[1, 2])), 2);
    assert_eq!(numbers(&[1, 2]).diff_score(&numbers(&[])), 2);
    assert_eq!(numbers(&[]).diff_score(&numbers(&[])), 0);
    let mixed = Tree::Array(vec![Tree::Null, Tree::Bool(true), text("x")]);
    let other = Tree::Array(vec![Tree::Null, Tree::Number(1), text("x")]);
    assert_eq!(mixed.diff_score(&other), 2);
}

#[test]
fn a_missing_value_costs_one_whatever_it_holds() {
    assert_eq!(Tree::Null.missing_score(), 1);
    assert_eq!(text("a long text").missing_score(), 1);
    assert_eq!(numbers(&[1, 2, 3]).missing_score(), 1);
    // so a text in an array pairs only with an equal one
    let a = Tree::Array(vec![text("hello")]);
    let b = Tree::Array(vec![text("hallo")]);
    assert_eq!(a.diff_score(&b), 2);
}

#[test]
fn objects_compare_the_values_under_common_keys() {
    let a = object(vec![("x", Tree::Number(1))]);
    let b = object(vec![("x", Tree::Number(1)), ("y", Tree::Number(2))]);
    assert_eq!(a.diff_score(&b), 1);
    assert_eq!(b.diff_score(&a), 1);
    assert_eq!(a.diff_score(&a), 0);
    assert_eq!(b.diff_score(&b), 0);
    let c = object(vec![("y", Tree::Number(12)), ("x", Tree::Number(4))]);
    assert_eq!(b.diff_score(&c), 3 + 10);
    assert_eq!(c.diff_score(&b), 3 + 10);
    assert_eq!(a.diff_score(&c), 3 + 1);
    assert_eq!(object(vec![]).diff_score(&object(vec![])), 0);
    assert_eq!(object(vec![]).diff_score(&c), 2);
}

#[test]
fn the_order_of_the_entries_does_not_matter() {
    let a = object(vec![("a", Tree::Number(1)), ("b", text("two")), ("c", Tree::Null)]);
    let b = object(vec![("c", Tree::Null), ("a", Tree::Number(1)), ("b", text("two"))]);
    assert_eq!(a.diff_score(&b), 0);
    assert_eq!(b.diff_score(&a), 0);
}

#[test]
fn values_under_a_common_key_may_differ_in_kind() {
    let a = object(vec![("k", Tree::Number(1))]);
    let b = object(vec![("k", text("1"))]);
    assert_eq!(a.diff_score(&b), 1);
    let c = object(vec![("k", numbers(&[1, 2, 3]))]);
    let d = object(vec![("k", numbers(&[1, 2, 3, 4, 5]))]);
    assert_eq!(c.diff_score(&d), 2);
}

#[test]
fn the_first_entry_of_a_key_counts() {
    let twice = object(vec![("k", Tree::Number(1)), ("k", Tree::Number(50))]);
    let once = object(vec![("k", Tree::Number(1))]);
    let later = object(vec![("k", Tree::Number(50))]);
    assert_eq!(twice.diff_score(&twice), 0);
    assert_eq!(twice.diff_score(&once), 0);
    assert_eq!(once.diff_score(&twice), 0);
    assert_eq!(twice.diff_score(&later), 49);
    assert_eq!(later.diff_score(&twice), 49);
    assert_eq!(twice.diff_score(&object(vec![])), 1);
    assert_eq!(object(vec![]).diff_score(&twice), 1);
}

#[test]
fn keys_are_told_apart_exactly() {
    let a = object(vec![("a", Tree::Null), ("ab", Tree::Null), ("", Tree::Null)]);
    let b = object(vec![("", Tree::Null), ("b", Tree::Null), ("a", Tree::Bool(true))]);
    // "a" holds values of different kinds; "ab" and "b" have no counterpart
    assert_eq!(a.diff_score(&b), 1 + 1 + 1);
    assert_eq!(b.diff_score(&a), 1 + 1 + 1);
    let upper = object(vec![("Key", Tree::Number(1))]);
    let lower = object(vec![("key", Tree::Number(1))]);
    assert_eq!(upper.diff_score(&lower), 2);
}

#[test]
fn large_objects() {
    let entries = |from: i128, to: i128, shift: i128| {
        Tree::Object((from..to).map(|n| (format!("key{n}"), Tree::Number(n + shift))).collect())
    };
    let a = entries(0, 3000, 0);
    let b = entries(1000, 4000, 2);
    // 2000 common keys whose values are 2 apart, 1000 keys on each side alone
    assert_eq!(a.diff_score(&b), 2000 * 2 + 1000 + 1000);
    assert_eq!(b.diff_score(&a), 2000 * 2 + 1000 + 1000);
    assert_eq!(a.diff_score(&a), 0);
}

#[test]
fn nested_values() {
    let a = object(vec![
        ("name", text("widget")),
        ("tags", Tree::Array(vec![text("a"), text("b")])),
        ("size", object(vec![("w", Tree::Number(10)), ("h", Tree::Number(20))])),
        ("stock", Tree::Null),
    ]);
    let b = object(vec![
        ("name", text("gadget")),
        ("tags", Tree::Array(vec![text("a"), text("b"), text("c")])),
        ("size", object(vec![("w", Tree::Number(10)), ("h", Tree::Number(25))])),
        ("price", Tree::Number(5)),
    ]);
    // name: 2 units differ on each side. tags: one more item. size: h moves by 5.
    // stock and price: one each.
    assert_eq!(a.diff_score(&b), 4 + 1 + 5 + 1 + 1);
    assert_eq!(b.diff_score(&a), 4 + 1 + 5 + 1 + 1);
    assert_eq!(a.diff_score(&a), 0);
    assert_eq!(tree_score(&a, &b), a.diff_score(&b));
}

#[test]
fn deep_values() {
    let mut a = Tree::Number(0);
    let mut b = Tree::Number(3);
    for _ in 0..50 {
        a = object(vec![("next", a)]);
        b = object(vec![("next", b)]);
    }
    assert_eq!(a.diff_score(&b), 3);
    assert_eq!(a.diff_score(&a), 0);
    let mut a = Tree::Number(0);
    let mut b = Tree::Number(3);
    for _ in 0..50 {
        a = Tree::Array(vec![a]);
        b = Tree::Array(vec![b]);
    }
    // inside an array a pair that costs as much as a missing item is not made
    assert_eq!(a.diff_score(&b), 2);
}
