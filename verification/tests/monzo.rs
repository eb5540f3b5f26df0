use ji_performer::factor::{ilog2, FACTOR_LIMIT};
use ji_performer::interval::Interval;
use ji_performer::monzo::{shift_octaves, JIRatio};
use ji_performer::prime_table::PrimeTable;

fn iv(num: i128, den: i128) -> Interval {
    Interval::new(num, den).unwrap()
}

fn table() -> PrimeTable {
    PrimeTable::new(1000).unwrap()
}

#[test]
fn monzo_of_a_major_third() {
    let t = table();
    assert_eq!(iv(5, 4).monzo(&t, false), Some(vec![-2, 0, 1]));
    assert_eq!(iv(5, 4).monzo(&t, true), Some(vec![0, 0, 1]));
}

#[test]
fn monzo_of_a_fifth() {
    let t = table();
    assert_eq!(iv(3, 2).monzo(&t, false), Some(vec![-1, 1]));
    assert_eq!(iv(3, 2).monzo(&t, true), Some(vec![0, 1]));
}

#[test]
fn monzo_counts_repeated_factors() {
    let t = table();
    // 81/80 = 3^4 / (2^4 * 5)
    assert_eq!(iv(81, 80).monzo(&t, false), Some(vec![-4, 4, -1]));
    // octaves: 4 * 1 for the threes, -1 * 2 for the five
    assert_eq!(iv(81, 80).monzo(&t, true), Some(vec![-2, 4, -1]));
}

#[test]
fn monzo_of_a_power_of_two_has_one_entry() {
    let t = table();
    assert_eq!(iv(4, 1).monzo(&t, true), Some(vec![2]));
    assert_eq!(iv(1, 8).monzo(&t, true), Some(vec![-3]));
}

#[test]
fn monzo_of_the_unison_is_empty() {
    let t = table();
    assert_eq!(Interval::unison().monzo(&t, true), Some(vec![]));
    assert_eq!(Interval::unison().monzo(&t, false), Some(vec![]));
}

#[test]
fn monzo_of_large_terms() {
    let t = table();
    assert_eq!(iv(1 << 78, 1).monzo(&t, false), Some(vec![78]));
    assert_eq!(iv(1 << 80, 1).monzo(&t, false), Some(vec![80]));
    assert_eq!(iv(1, 1 << 100).monzo(&t, true), Some(vec![-100]));
    // 3^53 / 2^84
    let r = iv(19_383_245_667_680_019_896_796_723, 1 << 84);
    assert_eq!(r.monzo(&t, false), Some(vec![-84, 53]));
    assert_eq!(r.monzo(&t, true), Some(vec![-31, 53]));
    // The ninth power of 7919, the largest prime of the table
    let mut power: i128 = 1;
    for _ in 0..9 {
        power *= 7919;
    }
    let m = iv(power, 1).monzo(&t, false).unwrap();
    assert_eq!(m.len(), 1000);
    assert_eq!(m[999], 9);
}

#[test]
fn a_composite_that_passes_for_a_prime_is_not_taken_for_one() {
    let t = table();
    // 399165290221 * 798330580441 passes the test to the bases 2 to 37.
    assert_eq!(iv(FACTOR_LIMIT as i128, 1).monzo(&t, false), None);
    assert_eq!(iv(3, FACTOR_LIMIT as i128).monzo(&t, true), None);
    assert_eq!(iv(FACTOR_LIMIT as i128 * 4, 1).monzo(&t, false), None);
}

#[test]
fn monzo_of_the_sentinel_is_undefined() {
    assert_eq!(Interval::keep().monzo(&table(), true), None);
}

#[test]
fn monzo_reaches_the_highest_prime_used() {
    let t = table();
    let m = iv(13, 11).monzo(&t, false).unwrap();
    assert_eq!(m, vec![0, 0, 0, 0, -1, 1]);
    // 13 holds 3 octaves, 11 holds 3 as well
    assert_eq!(iv(13, 11).monzo(&t, true), Some(vec![0, 0, 0, 0, -1, 1]));
    assert_eq!(iv(13, 8).monzo(&t, true), Some(vec![0, 0, 0, 0, 0, 1]));
}

#[test]
fn monzo_needs_every_prime_in_the_table() {
    let small = PrimeTable::new(3).unwrap();
    assert_eq!(iv(5, 4).monzo(&small, false), Some(vec![-2, 0, 1]));
    assert_eq!(iv(7, 4).monzo(&small, false), None);
    assert_eq!(iv(4, 7).monzo(&small, false), None);
    let t = table();
    let last = iv(7919, 1).monzo(&t, false).unwrap();
    assert_eq!(last.len(), 1000);
    assert_eq!(last[999], 1);
    assert_eq!(iv(7927, 1).monzo(&t, false), None);
}

#[test]
fn monzo_of_a_ratio_beyond_32_bits() {
    let t = table();
    // 3^21 / 2^33
    let m = iv(10_460_353_203, 8_589_934_592).monzo(&t, false).unwrap();
    assert_eq!(m, vec![-33, 21]);
    let r = iv(10_460_353_203, 8_589_934_592).monzo(&t, true).unwrap();
    assert_eq!(r, vec![-12, 21]);
}

#[test]
fn octaves_are_added_at_index_zero() {
    assert_eq!(shift_octaves(&vec![0, 0, 1], 2), vec![2, 0, 1]);
    assert_eq!(shift_octaves(&vec![-1, 1], -3), vec![-4, 1]);
}

#[test]
fn octaves_become_the_only_entry_of_an_empty_monzo() {
    assert_eq!(shift_octaves(&Vec::new(), 2), vec![2]);
    assert_eq!(shift_octaves(&Vec::new(), -1), vec![-1]);
}

#[test]
fn unison_moved_by_octaves_holds_the_octaves() {
    let t = table();
    let unison = Interval::unison().monzo(&t, true).unwrap();
    for n in [-6, -1, 0, 2, 5] {
        let moved = shift_octaves(&unison, n);
        assert_eq!(moved[0], n);
        assert_eq!(moved, vec![n]);
    }
}

#[test]
fn ilog2_is_the_whole_part_of_the_logarithm() {
    assert_eq!(ilog2(0), 0);
    assert_eq!(ilog2(1), 0);
    assert_eq!(ilog2(2), 1);
    assert_eq!(ilog2(3), 1);
    assert_eq!(ilog2(5), 2);
    assert_eq!(ilog2(7), 2);
    assert_eq!(ilog2(11), 3);
    assert_eq!(ilog2(7919), 12);
    assert_eq!(ilog2(u64::MAX), 63);
}

/// The fraction that a monzo with plain exponents stands for.
fn ratio_of(monzo: &[i32], table: &PrimeTable) -> Interval {
    let (mut num, mut den) = (1i128, 1i128);
    for (i, e) in monzo.iter().enumerate() {
        let p = table.prime(i) as i128;
        if *e > 0 {
            num *= p.pow(*e as u32);
        } else {
            den *= p.pow((-*e) as u32);
        }
    }
    Interval::new(num, den).unwrap()
}

#[test]
fn a_monzo_multiplies_back_to_its_ratio() {
    let t = table();
    let ratios: [(i128, i128); 8] = [
        (1, 1),
        (5, 4),
        (3, 2),
        (81, 80),
        (65, 64),
        (1024, 1215),
        (17_558_238_973_952, 10_787_124_214_053),
        (7919, 7907),
    ];
    for (n, d) in ratios {
        let r = iv(n, d);
        let plain = r.monzo(&t, false).unwrap();
        assert_eq!(ratio_of(&plain, &t), r);
    }
}

#[test]
fn a_monzo_has_the_size_of_its_ratio() {
    let t = table();
    let ratios: [(i128, i128); 6] = [
        (5, 4),
        (3, 2),
        (81, 80),
        (13, 11),
        (17_558_238_973_952, 10_787_124_214_053),
        (7919, 7907),
    ];
    for (n, d) in ratios {
        let r = iv(n, d);
        let cents = (n as f64 / d as f64).log2() * 1200.0;
        let reduced = r.monzo(&t, true).unwrap();
        // Entry zero counts whole octaves; each other prime adds what it
        // holds beyond its whole octaves.
        let mut octaves = reduced[0] as f64;
        for i in 1..reduced.len() {
            let p = t.prime(i);
            octaves += reduced[i] as f64 * ((p as f64).log2() - ilog2(p) as f64);
        }
        assert!((octaves * 1200.0 - cents).abs() < 1e-9);
    }
}
