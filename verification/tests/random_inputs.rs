use diff_score::impls_iter::diff_score_ordered;
use diff_score::ordered::{align, band_end_of, band_start_of};
use diff_score::DiffScore;
use std::collections::{HashMap, HashSet};

/// A small generator of repeatable pseudo-random numbers.
struct Numbers(u64);

impl Numbers {
    fn next(&mut self) -> u64 {
        self.0 = self.0.wrapping_mul(6364136223846793005).wrapping_add(1442695040888963407);
        self.0 >> 33
    }

    fn below(&mut self, bound: u64) -> u64 {
        self.next() % bound
    }

    /// Mostly small numbers, now and then a huge one.
    fn cost(&mut self) -> u64 {
        match self.below(20) {
            0 => u64::MAX - self.below(3),
            1 => u64::MAX / 2 + self.below(3),
            _ => self.below(6),
        }
    }
}

/// The alignment, step by step, on exact numbers.
fn exact_alignment(
    costs: &dyn Fn(usize, usize) -> u128,
    missing_a: &[u128],
    missing_b: &[u128],
    window: usize,
    penalty: u128,
) -> u128 {
    let mut used = vec![false; missing_b.len()];
    let mut total: u128 = 0;
    for i in 0..missing_a.len() {
        let mut best = missing_a[i];
        let mut pick = None;
        for j in 0..missing_b.len() {
            let drift = if j >= i { j - i } else { i - j };
            if drift > window || used[j] {
                continue;
            }
            let cost = costs(i, j) + penalty * drift as u128;
            if cost < best {
                best = cost;
                pick = Some(j);
            }
        }
        if let Some(j) = pick {
            used[j] = true;
        }
        total += best;
    }
    for j in 0..missing_b.len() {
        if !used[j] {
            total += missing_b[j];
        }
    }
    total
}

fn clamp(exact: u128) -> u64 {
    if exact >= u64::MAX as u128 {
        u64::MAX
    } else {
        exact as u64
    }
}

#[test]
fn alignment_on_random_tables() {
    let mut numbers = Numbers(1);
    for _ in 0..2000 {
        let len_a = numbers.below(7) as usize;
        let len_b = numbers.below(7) as usize;
        let window = match numbers.below(5) {
            0 => usize::MAX,
            n => (n - 1) as usize,
        };
        let penalty = match numbers.below(6) {
            0 => u64::MAX,
            n => n - 1,
        };
        let full: Vec<Vec<u64>> =
            (0..len_a).map(|_| (0..len_b).map(|_| numbers.cost()).collect()).collect();
        let missing_a: Vec<u64> = (0..len_a).map(|_| numbers.cost()).collect();
        let missing_b: Vec<u64> = (0..len_b).map(|_| numbers.cost()).collect();
        let table: Vec<Vec<u64>> = (0..len_a)
            .map(|i| {
                let start = band_start_of(i, len_b, window);
                let end = band_end_of(i, len_b, window);
                full[i][start..end].to_vec()
            })
            .collect();
        let exact_a: Vec<u128> = missing_a.iter().map(|m| *m as u128).collect();
        let exact_b: Vec<u128> = missing_b.iter().map(|m| *m as u128).collect();
        let expected = exact_alignment(
            &|i, j| full[i][j] as u128,
            &exact_a,
            &exact_b,
            window,
            penalty as u128,
        );
        assert_eq!(
            align(&table, &missing_a, &missing_b, window, penalty),
            clamp(expected),
            "table {full:?}, missing {missing_a:?} and {missing_b:?}, window {window}, \
             penalty {penalty}"
        );
    }
}

#[test]
fn alignment_of_random_texts() {
    let mut numbers = Numbers(2);
    let word = |numbers: &mut Numbers| -> String {
        let len = numbers.below(4);
        (0..len).map(|_| (b'a' + numbers.below(2) as u8) as char).collect()
    };
    for _ in 0..1000 {
        let a: Vec<String> = (0..numbers.below(6)).map(|_| word(&mut numbers)).collect();
        let b: Vec<String> = (0..numbers.below(6)).map(|_| word(&mut numbers)).collect();
        let window = numbers.below(4) as usize;
        let penalty = numbers.below(3);
        let unit = |x: &[u8], y: &[u8]| {
            exact_alignment(
                &|i, j| if x[i] == y[j] { 0 } else { 1 },
                &vec![1; x.len()],
                &vec![1; y.len()],
                5,
                1,
            )
        };
        let missing_a: Vec<u128> = a.iter().map(|s| s.len() as u128).collect();
        let missing_b: Vec<u128> = b.iter().map(|s| s.len() as u128).collect();
        let expected = exact_alignment(
            &|i, j| unit(a[i].as_bytes(), b[j].as_bytes()),
            &missing_a,
            &missing_b,
            window,
            penalty as u128,
        );
        assert_eq!(
            diff_score_ordered(&a, &b, window, penalty),
            clamp(expected),
            "{a:?} against {b:?}, window {window}, penalty {penalty}"
        );
        // a collection never differs from itself
        assert_eq!(diff_score_ordered(&a, &a, window, penalty), 0);
    }
}

#[test]
fn random_sets_and_maps() {
    let mut numbers = Numbers(3);
    for _ in 0..500 {
        let a: HashMap<u8, u64> =
            (0..numbers.below(8)).map(|_| (numbers.below(10) as u8, numbers.below(50))).collect();
        let b: HashMap<u8, u64> =
            (0..numbers.below(8)).map(|_| (numbers.below(10) as u8, numbers.below(50))).collect();
        let mut expected = 0;
        for (key, value) in a.iter() {
            expected += match b.get(key) {
                Some(other) => value.abs_diff(*other),
                None => 1,
            };
        }
        for key in b.keys() {
            if !a.contains_key(key) {
                expected += 1;
            }
        }
        assert_eq!(a.diff_score(&b), expected);
        assert_eq!(b.diff_score(&a), expected);
        assert_eq!(a.diff_score(&a), 0);
        let keys_a: HashSet<u8> = a.keys().copied().collect();
        let keys_b: HashSet<u8> = b.keys().copied().collect();
        let apart = keys_a.symmetric_difference(&keys_b).count() as u64;
        assert_eq!(keys_a.diff_score(&keys_b), apart);
        assert_eq!(keys_b.diff_score(&keys_a), apart);
        let in_a: Vec<u8> = keys_a.iter().copied().collect();
        let in_b: Vec<u8> = keys_b.iter().copied().collect();
        let share = diff_score::with::set(&in_a, &in_b);
        let all = keys_a.union(&keys_b).count() as u128;
        assert_eq!(share.numerator, if all == 0 { 0 } else { apart as u128 });
        assert_eq!(share.denominator, if all == 0 { 1 } else { all });
    }
}
