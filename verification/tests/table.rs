use entropy::FrequencyTable;
use entropy::Symbol;

fn sorted_entries(table: &FrequencyTable) -> Vec<(u64, u64)> {
    let mut pairs = table.entries();
    pairs.sort();
    pairs
}

#[test]
fn new_table_is_empty() {
    let table = FrequencyTable::new();
    assert!(table.is_empty());
    assert_eq!(table.total(), 0);
    assert_eq!(table.distinct(), 0);
    assert_eq!(table.count(0), 0);
    assert_eq!(table.entries(), vec![]);
}

#[test]
fn tally_of_nothing_is_empty() {
    let table = FrequencyTable::tally(&Vec::<u64>::new());
    assert!(table.is_empty());
    assert_eq!(table.total(), 0);
    assert_eq!(table.entries(), vec![]);
}

#[test]
fn record_counts_each_occurrence() {
    let mut table = FrequencyTable::new();
    table.record(5);
    assert_eq!(table.count(5), 1);
    assert_eq!(table.total(), 1);
    assert!(!table.is_empty());
    table.record(5);
    table.record(9);
    assert_eq!(table.count(5), 2);
    assert_eq!(table.count(9), 1);
    assert_eq!(table.count(6), 0);
    assert_eq!(table.total(), 3);
    assert_eq!(table.distinct(), 2);
    assert_eq!(sorted_entries(&table), vec![(5, 2), (9, 1)]);
}

#[test]
fn tally_counts_a_slice() {
    let table = FrequencyTable::tally(&[1u64, 2, 1, 2, 1, 2]);
    assert_eq!(table.total(), 6);
    assert_eq!(table.distinct(), 2);
    assert_eq!(table.count(1), 3);
    assert_eq!(table.count(2), 3);
    assert_eq!(table.count(3), 0);
    assert_eq!(sorted_entries(&table), vec![(1, 3), (2, 3)]);
}

#[test]
fn tally_agrees_with_recording_one_by_one() {
    let symbols = [4u64, 8, 15, 16, 23, 42, 4, 4, 42];
    let mut stepwise = FrequencyTable::new();
    for s in symbols {
        stepwise.record(s);
    }
    let at_once = FrequencyTable::tally(&symbols);
    assert_eq!(sorted_entries(&stepwise), sorted_entries(&at_once));
    assert_eq!(stepwise.total(), at_once.total());
}

#[test]
fn tally_counts_bytes_by_value() {
    let table = FrequencyTable::tally(b"banana");
    assert_eq!(table.total(), 6);
    assert_eq!(table.distinct(), 3);
    assert_eq!(
        sorted_entries(&table),
        vec![(b'a' as u64, 3), (b'b' as u64, 1), (b'n' as u64, 2)]
    );
}

#[test]
fn tally_keeps_all_byte_values_apart() {
    let mut bytes: Vec<u8> = (0..=255u8).collect();
    bytes.extend(0..=255u8);
    let table = FrequencyTable::tally(&bytes);
    assert_eq!(table.total(), 512);
    assert_eq!(table.distinct(), 256);
    assert_eq!(table.count(0), 2);
    assert_eq!(table.count(255), 2);
    assert_eq!(table.count(256), 0);
}

#[test]
fn constant_input_has_one_entry_with_the_whole_count() {
    for len in 1..20usize {
        let table = FrequencyTable::tally(&vec![3u64; len]);
        assert_eq!(table.entries(), vec![(3, len as u64)]);
        assert_eq!(table.distinct(), 1);
    }
}

#[test]
fn rearranged_input_gives_the_same_table() {
    let a = FrequencyTable::tally(&[1u64, 1, 2, 3, 3, 3, 9]);
    let b = FrequencyTable::tally(&[3u64, 9, 1, 3, 2, 1, 3]);
    assert_eq!(sorted_entries(&a), sorted_entries(&b));
    assert_eq!(sorted_entries(&a), vec![(1, 2), (2, 1), (3, 3), (9, 1)]);
}

#[test]
fn counts_add_up_to_the_total() {
    let symbols: Vec<char> = "mississippi".chars().collect();
    let table = FrequencyTable::tally(&symbols);
    let sum: u64 = table.entries().iter().map(|p| p.1).sum();
    assert_eq!(sum, table.total());
    assert_eq!(sum, 11);
}

#[test]
fn every_count_is_between_one_and_the_total() {
    let table = FrequencyTable::tally(&[0, 0, 0, 1, u64::MAX]);
    let entries = table.entries();
    assert_eq!(entries.len(), table.distinct());
    assert!(entries.len() as u64 <= table.total());
    for (symbol, count) in entries {
        assert!(1 <= count && count <= table.total());
        assert_eq!(count, table.count(symbol));
    }
}

#[test]
fn entries_list_each_symbol_once() {
    let table = FrequencyTable::tally(&[2u64, 7, 2, 7, 2, 1]);
    let mut symbols: Vec<u64> = table.entries().iter().map(|p| p.0).collect();
    symbols.sort();
    assert_eq!(symbols, vec![1, 2, 7]);
}

#[test]
fn tally_counts_characters_by_code_point() {
    let symbols: Vec<char> = "banana".chars().collect();
    let table = FrequencyTable::tally(&symbols);
    assert_eq!(sorted_entries(&table), vec![(97, 3), (98, 1), (110, 2)]);
    assert_eq!(table.count('n'.code()), 2);
    assert_eq!(table.count('x'.code()), 0);
}

#[test]
fn tally_counts_signed_numbers() {
    let table = FrequencyTable::tally(&[-1, 1, -1, 0, i32::MIN]);
    assert_eq!(table.total(), 5);
    assert_eq!(table.distinct(), 4);
    assert_eq!(table.count((-1).code()), 2);
    assert_eq!(table.count(1.code()), 1);
    assert_eq!(table.count(i32::MIN.code()), 1);
    assert_eq!(table.count(i32::MAX.code()), 0);
}

#[test]
fn codes_of_unsigned_numbers_are_their_values() {
    assert_eq!(0u8.code(), 0);
    assert_eq!(255u8.code(), 255);
    assert_eq!(65535u16.code(), 65535);
    assert_eq!(u32::MAX.code(), 4294967295);
    assert_eq!(u64::MAX.code(), u64::MAX);
    assert_eq!(12345u64.code(), 12345);
}

#[test]
fn codes_of_signed_numbers_count_from_the_minimum() {
    assert_eq!(i32::MIN.code(), 0);
    assert_eq!((-1i32).code(), 2147483647);
    assert_eq!(0i32.code(), 2147483648);
    assert_eq!(i32::MAX.code(), 4294967295);
    assert_eq!(i64::MIN.code(), 0);
    assert_eq!(0i64.code(), 9223372036854775808);
    assert_eq!(i64::MAX.code(), u64::MAX);
}

#[test]
fn codes_of_characters_are_their_code_points() {
    assert_eq!('a'.code(), 97);
    assert_eq!('\0'.code(), 0);
    assert_eq!('\u{e9}'.code(), 233);
    assert_eq!(char::MAX.code(), 0x10FFFF);
}

#[test]
fn different_symbols_have_different_codes() {
    assert_ne!((-1i32).code(), 1i32.code());
    assert_ne!('a'.code(), 'A'.code());
    assert_ne!(0u8.code(), 1u8.code());
    assert_ne!(i64::MIN.code(), i64::MAX.code());
}

fn power(base: u128, exponent: u64) -> u128 {
    let mut result: u128 = 1;
    for _ in 0..exponent {
        result *= base;
    }
    result
}

fn product_of_self_powers(table: &FrequencyTable) -> u128 {
    let mut product: u128 = 1;
    for (_, count) in table.entries() {
        product *= power(count as u128, count);
    }
    product
}

#[test]
fn self_powers_lie_between_the_exact_bounds() {
    let inputs: Vec<Vec<u64>> = vec![
        vec![1, 1, 1, 2],
        vec![1, 2, 1, 2, 1, 2],
        vec![5],
        vec![1, 2, 3, 4, 5, 6, 7, 8, 9, 9, 9, 9],
        "mississippi".chars().map(|c| c.code()).collect(),
    ];
    for xs in inputs {
        let table = FrequencyTable::tally(&xs);
        let n = table.total();
        let k = table.distinct() as u128;
        let product = product_of_self_powers(&table);
        assert!(product >= 1);
        assert!(product <= power(n as u128, n));
        assert!(power(n as u128, n) <= power(k, n) * product);
    }
}

#[test]
fn self_powers_of_a_known_table() {
    // Counts 3 and 1: 3^3 * 1^1 = 27, between 4^4 / 2^4 = 16 and 4^4 = 256.
    let table = FrequencyTable::tally(&[1u64, 1, 1, 2]);
    assert_eq!(product_of_self_powers(&table), 27);
    assert_eq!(power(table.total() as u128, table.total()), 256);
    assert_eq!(power(table.distinct() as u128, table.total()), 16);
}

#[test]
fn uniform_table_meets_the_upper_bound_exactly() {
    let table = FrequencyTable::tally(&[10u64, 20, 30, 40, 40, 30, 20, 10]);
    let n = table.total();
    let k = table.distinct() as u128;
    assert_eq!(n, 8);
    assert_eq!(k, 4);
    assert_eq!(table.total(), table.distinct() as u64 * 2);
    assert_eq!(power(n as u128, n), power(k, n) * product_of_self_powers(&table));
}

#[test]
fn self_powers_do_not_depend_on_the_order() {
    let a = FrequencyTable::tally(&[1u64, 1, 2, 3, 3, 3, 9]);
    let b = FrequencyTable::tally(&[3u64, 9, 1, 3, 2, 1, 3]);
    assert_eq!(product_of_self_powers(&a), 4 * 27);
    assert_eq!(product_of_self_powers(&b), 4 * 27);
}

#[test]
fn self_powers_of_a_constant_input() {
    let table = FrequencyTable::tally(&[6u64; 5]);
    assert_eq!(product_of_self_powers(&table), 3125);
    assert_eq!(power(table.total() as u128, table.total()), 3125);
}
