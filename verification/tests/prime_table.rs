use ji_performer::prime_table::{PrimeTable, DEFAULT_PRIME_COUNT, MAX_PRIME_COUNT};

#[test]
fn table_lists_the_first_primes_in_order() {
    let t = PrimeTable::new(10).unwrap();
    assert_eq!(t.len(), 10);
    let expected: [u64; 10] = [2, 3, 5, 7, 11, 13, 17, 19, 23, 29];
    for i in 0..10 {
        assert_eq!(t.prime(i), expected[i]);
    }
}

#[test]
fn default_table_ends_with_the_thousandth_prime() {
    let t = PrimeTable::new(DEFAULT_PRIME_COUNT).unwrap();
    assert_eq!(t.len(), 1000);
    assert_eq!(t.prime(999), 7919);
}

#[test]
fn table_size_is_bounded() {
    assert!(PrimeTable::new(0).is_none());
    assert!(PrimeTable::new(MAX_PRIME_COUNT + 1).is_none());
    assert!(PrimeTable::new(1).is_some());
}

#[test]
fn index_of_finds_each_prime_and_nothing_else() {
    let t = PrimeTable::new(6).unwrap();
    assert_eq!(t.index_of(2), Some(0));
    assert_eq!(t.index_of(3), Some(1));
    assert_eq!(t.index_of(13), Some(5));
    assert_eq!(t.index_of(1), None);
    assert_eq!(t.index_of(4), None);
    assert_eq!(t.index_of(17), None);
    assert_eq!(t.index_of(u128::MAX), None);
    // 2^64 + 3 is 3 when cut to 64 bits, and is not in the table.
    assert_eq!(t.index_of(18_446_744_073_709_551_619), None);
}
