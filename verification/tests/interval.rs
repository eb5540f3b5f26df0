use ji_performer::interval::Interval;

fn iv(num: i128, den: i128) -> Interval {
    Interval::new(num, den).unwrap()
}

#[test]
fn new_brings_a_fraction_to_lowest_terms() {
    let r = iv(4, 6);
    assert_eq!(r.numerator(), 2);
    assert_eq!(r.denominator(), 3);
}

#[test]
fn new_refuses_a_zero_denominator() {
    assert!(Interval::new(1, 0).is_none());
}

#[test]
fn new_refuses_negative_parts() {
    assert!(Interval::new(-1, 2).is_none());
    assert!(Interval::new(1, -2).is_none());
    assert!(Interval::new(-1, -2).is_none());
}

#[test]
fn zero_is_no_pitch_ratio() {
    assert!(Interval::new(0, 5).is_none());
    assert!(Interval::new(0, 1).is_none());
}

#[test]
fn the_sentinel_is_set_apart() {
    let keep = Interval::keep();
    assert!(keep.is_sentinel());
    assert_eq!(keep, Interval::keep());
    assert!(!iv(1, 5).is_sentinel());
    assert!(!Interval::unison().is_sentinel());
}

#[test]
fn unison_is_one_over_one() {
    let u = Interval::unison();
    assert_eq!((u.numerator(), u.denominator()), (1, 1));
    assert!(!u.is_sentinel());
}

#[test]
fn multiply_gives_the_product_in_lowest_terms() {
    let p = iv(2, 3).multiply(&iv(3, 4)).unwrap();
    assert_eq!((p.numerator(), p.denominator()), (1, 2));
    let q = iv(5, 4).multiply(&iv(13, 8)).unwrap();
    assert_eq!((q.numerator(), q.denominator()), (65, 32));
}

#[test]
fn multiply_by_the_sentinel_is_the_sentinel() {
    let p = iv(5, 4).multiply(&Interval::keep()).unwrap();
    assert!(p.is_sentinel());
    let q = Interval::keep().multiply(&iv(5, 4)).unwrap();
    assert!(q.is_sentinel());
}

#[test]
fn multiply_holds_ratios_beyond_32_bits() {
    let a = iv(4_294_967_311, 4_294_967_296);
    let b = iv(4_294_967_296, 4_294_967_291);
    let p = a.multiply(&b).unwrap();
    assert_eq!((p.numerator(), p.denominator()), (4_294_967_311, 4_294_967_291));
}

#[test]
fn multiply_reports_what_cannot_be_held() {
    let big = iv(i128::MAX, 1);
    assert!(big.multiply(&iv(2, 1)).is_none());
    let small = iv(1, i128::MAX);
    assert!(small.multiply(&iv(1, 2)).is_none());
    // The product in lowest terms fits although the plain products do not.
    let p = big.multiply(&small).unwrap();
    assert_eq!((p.numerator(), p.denominator()), (1, 1));
}

#[test]
fn divide_gives_the_quotient_in_lowest_terms() {
    let q = iv(1, 2).divide(&iv(2, 3)).unwrap();
    assert_eq!((q.numerator(), q.denominator()), (3, 4));
}

#[test]
fn divide_by_the_sentinel_is_refused() {
    assert!(iv(1, 2).divide(&Interval::keep()).is_none());
}

#[test]
fn divide_reports_what_cannot_be_held() {
    assert!(iv(1, i128::MAX).divide(&iv(2, 1)).is_none());
}

#[test]
fn halve_lowers_by_an_octave() {
    let h = iv(15, 8).halve().unwrap();
    assert_eq!((h.numerator(), h.denominator()), (15, 16));
    let g = iv(4, 3).halve().unwrap();
    assert_eq!((g.numerator(), g.denominator()), (2, 3));
    assert!(Interval::keep().halve().unwrap().is_sentinel());
    assert!(iv(1, i128::MAX).halve().is_none());
}

#[test]
fn less_than_compares_by_value() {
    assert!(iv(5, 4).less_than(&iv(4, 3)));
    assert!(!iv(4, 3).less_than(&iv(5, 4)));
    assert!(!iv(3, 2).less_than(&iv(3, 2)));
    assert!(Interval::keep().less_than(&iv(1, 1000)));
    assert!(iv(i128::MAX - 1, i128::MAX).less_than(&iv(1, 1)));
}

#[test]
fn equals_compares_by_value() {
    assert!(iv(6, 4).equals(&iv(3, 2)));
    assert!(!iv(3, 2).equals(&iv(4, 3)));
    assert!(Interval::keep().equals(&Interval::keep()));
    assert!(!Interval::keep().equals(&iv(1, 7)));
}
