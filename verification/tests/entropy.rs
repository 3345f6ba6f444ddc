// Shannon entropy computed from the library's frequency tables: the table
// supplies exact counts, the floating-point sum is done here.

use entropy::FrequencyTable;
use entropy::Symbol;

fn entropy_of(table: &FrequencyTable) -> f64 {
    let total = table.total() as f64;
    let mut sum = 0.0_f64;
    for (_, count) in table.entries() {
        let p = count as f64 / total;
        sum += p * p.log2();
    }
    if sum == 0.0 {
        0.0
    } else {
        -sum
    }
}

fn entropy<T: Symbol, I: Iterator<Item = T>>(xs: I) -> f64 {
    let symbols: Vec<T> = xs.collect();
    entropy_of(&FrequencyTable::tally(&symbols))
}

#[test]
fn test_ints() {
    let test1 = vec![1, 2, 1, 2, 1, 2];
    assert_eq!(entropy(test1.into_iter()), 1.0);
}

#[test]
fn test_string1() {
    let test2 = "banana";
    assert_eq!(format!("{:.3}", entropy(test2.chars())), "1.459");
}

#[test]
fn test_string2() {
    let test3 = "nanana";
    assert_eq!(format!("{:.3}", entropy(test3.chars())), "1.000");
}

#[test]
fn single_repeated_symbol_has_zero_entropy() {
    for len in 1..40usize {
        let xs = vec![7u64; len];
        assert_eq!(entropy(xs.into_iter()), 0.0);
    }
    assert_eq!(entropy([u64::MAX].into_iter()), 0.0);
    assert_eq!(entropy("zzzzzzz".chars()), 0.0);
}

#[test]
fn two_equally_likely_symbols_have_one_bit() {
    let h = entropy([1, 2, 1, 2, 1, 2].into_iter());
    assert!((h - 1.0).abs() < 1e-9);
}

#[test]
fn entropy_ignores_order() {
    let a = entropy([1, 1, 2, 3, 3, 3, 9].into_iter());
    let b = entropy([3, 9, 1, 3, 2, 1, 3].into_iter());
    let c = entropy([9, 3, 3, 3, 2, 1, 1].into_iter());
    assert!((a - b).abs() < 1e-9);
    assert!((a - c).abs() < 1e-9);
}

#[test]
fn entropy_is_never_negative() {
    let inputs: Vec<Vec<u64>> = vec![
        vec![0],
        vec![0, 0, 0, 1],
        vec![5, 4, 3, 2, 1],
        "the quick brown fox jumps over the lazy dog".chars().map(|c| c.code()).collect(),
    ];
    for xs in inputs {
        assert!(entropy(xs.into_iter()) >= 0.0);
    }
}

#[test]
fn entropy_is_at_most_log2_of_distinct_symbols() {
    let inputs: Vec<Vec<u64>> = vec![
        vec![0],
        vec![0, 0, 0, 1],
        vec![1, 2, 2, 3, 3, 3],
        "mississippi".chars().map(|c| c.code()).collect(),
    ];
    for xs in inputs {
        let k = FrequencyTable::tally(&xs).distinct() as f64;
        assert!(entropy(xs.into_iter()) <= k.log2() + 1e-9);
    }
}

#[test]
fn uniform_distribution_reaches_the_upper_bound() {
    assert_eq!(entropy([10, 20, 30, 40].into_iter()), 2.0);
    assert_eq!(
        entropy([1, 2, 3, 4, 5, 6, 7, 8, 8, 7, 6, 5, 4, 3, 2, 1].into_iter()),
        3.0
    );
}

#[test]
fn quarter_and_three_quarters() {
    // -(0.25 * log2(0.25) + 0.75 * log2(0.75)) = 0.811278...
    let h = entropy([1, 1, 1, 2].into_iter());
    assert_eq!(format!("{:.4}", h), "0.8113");
}

#[test]
fn empty_input_has_zero_entropy() {
    let h = entropy(Vec::<u8>::new().into_iter());
    assert_eq!(h, 0.0);
    assert!(h.is_sign_positive());
}

#[test]
fn bytes_and_characters_agree_on_ascii() {
    let from_bytes = entropy_of(&FrequencyTable::tally("banana".as_bytes()));
    let from_chars = entropy("banana".chars());
    assert!((from_bytes - from_chars).abs() < 1e-9);
}
