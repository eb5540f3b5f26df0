use ji_performer::interval::Interval;
use ji_performer::prime_table::PrimeTable;
use ji_performer::tuner::{
    semitone_name, td, transpose, try_td, ScheduleError, Tuner, TuningData, TuningError,
};

fn iv(num: i128, den: i128) -> Interval {
    Interval::new(num, den).unwrap()
}

fn table() -> PrimeTable {
    PrimeTable::new(1000).unwrap()
}

/// The size of an interval in microcents.
fn cents(r: &Interval) -> i64 {
    if r.is_sentinel() {
        return 0;
    }
    let value = r.numerator() as f64 / r.denominator() as f64;
    (value.log2() * 1200.0 * 1e6).round() as i64
}

fn cents_of(tuning: &[Interval; 12]) -> [i64; 12] {
    let mut out = [0i64; 12];
    for c in 0..12 {
        out[c] = cents(&tuning[c]);
    }
    out
}

/// A harmonic scale, written from its root upwards.
fn scale() -> [Interval; 12] {
    [
        iv(1, 1),
        iv(17, 16),
        iv(9, 8),
        iv(19, 16),
        iv(5, 4),
        iv(4, 3),
        iv(11, 8),
        iv(3, 2),
        iv(13, 8),
        iv(5, 3),
        iv(7, 4),
        iv(15, 8),
    ]
}

/// The scale on C#, a major third above A.
fn on_c_sharp(time: u64) -> TuningData {
    entry(time, 4, iv(5, 4), scale())
}

fn entry(time: u64, root: u8, offset: Interval, tuning: [Interval; 12]) -> TuningData {
    let absolute = transpose(root, &offset, &tuning).unwrap();
    try_td(time, root, offset, tuning, cents_of(&absolute), &table()).unwrap()
}

/// A tuning that changes one class and keeps the others.
fn only(time: u64, class: usize, ratio: Interval) -> TuningData {
    let mut tuning = [Interval::keep(); 12];
    tuning[class] = ratio;
    TuningData::try_new(tuning, cents_of(&tuning), time, &table()).unwrap()
}

#[test]
fn transpose_moves_the_root_and_drops_an_octave_on_wrapping() {
    let out = transpose(4, &iv(5, 4), &scale()).unwrap();
    let expected = [
        iv(65, 64),
        iv(25, 24),
        iv(35, 32),
        iv(75, 64),
        iv(5, 4),
        iv(85, 64),
        iv(45, 32),
        iv(95, 64),
        iv(25, 16),
        iv(5, 3),
        iv(55, 32),
        iv(15, 8),
    ];
    assert_eq!(out, expected);
}

#[test]
fn transpose_from_a_keeps_the_order() {
    let out = transpose(0, &Interval::unison(), &scale()).unwrap();
    assert_eq!(out, scale());
}

#[test]
fn transpose_from_the_last_class_wraps_all_but_one() {
    let out = transpose(11, &Interval::unison(), &scale()).unwrap();
    assert_eq!(out[11], iv(1, 1));
    assert_eq!(out[0], iv(17, 32));
    assert_eq!(out[10], iv(15, 16));
}

#[test]
fn transpose_keeps_sentinels() {
    let mut tuning = [Interval::keep(); 12];
    tuning[7] = iv(3, 2);
    tuning[9] = iv(5, 3);
    let out = transpose(4, &iv(5, 4), &tuning).unwrap();
    for c in 0..12 {
        match c {
            11 => assert_eq!(out[c], iv(15, 8)),
            1 => assert_eq!(out[c], iv(25, 24)),
            _ => assert!(out[c].is_sentinel()),
        }
    }
}

#[test]
fn transpose_reports_the_class_that_cannot_be_held() {
    let mut tuning = scale();
    tuning[3] = iv(i128::MAX, 1);
    assert_eq!(
        transpose(4, &iv(5, 4), &tuning),
        Err(TuningError::RatioOverflow { class: 7 })
    );
    // The half cannot be held although the product can.
    let mut wrapped = scale();
    wrapped[10] = iv(1, i128::MAX);
    assert_eq!(
        transpose(4, &Interval::unison(), &wrapped),
        Err(TuningError::RatioOverflow { class: 2 })
    );
    assert_eq!(
        try_td(0, 4, iv(5, 4), tuning, [0; 12], &table()).err(),
        Some(TuningError::RatioOverflow { class: 7 })
    );
}

#[test]
fn td_derives_monzos_bends_and_messages() {
    let data = on_c_sharp(18_448_000);
    assert_eq!(data.time, 18_448_000);
    assert_eq!(data.tuning[4], iv(5, 4));
    assert_eq!(data.tuning[0], iv(65, 64));
    assert_eq!(data.monzos[4], Some(vec![0, 0, 1]));
    assert_eq!(data.monzos[0], Some(vec![-1, 0, 1, 0, 0, 1]));
    assert_eq!(data.monzos[1], Some(vec![0, -1, 2]));
    let bends: [i16; 12] = [549, -600, -918, -520, -280, -178, -200, -331, -560, -320, -1277, -240];
    let data_bytes: [(u8, u8); 12] = [
        (37, 68),
        (40, 59),
        (106, 56),
        (120, 59),
        (104, 61),
        (78, 62),
        (56, 62),
        (53, 61),
        (80, 59),
        (64, 61),
        (3, 54),
        (16, 62),
    ];
    for c in 0..12 {
        assert_eq!(data.pitch_bends[c], Some(bends[c]));
        assert_eq!(
            data.midi_messages[c],
            Some(vec![0xE0 + c as u8, data_bytes[c].0, data_bytes[c].1])
        );
    }
}

#[test]
fn a_sentinel_has_nothing_derived() {
    let data = only(5_000_000, 7, iv(3, 2));
    for c in 0..12 {
        if c == 7 {
            assert_eq!(data.monzos[c], Some(vec![0, 1]));
            assert_eq!(data.pitch_bends[c], Some(40));
            assert_eq!(data.midi_messages[c], Some(vec![0xE7, 40, 0x40]));
        } else {
            assert!(data.tuning[c].is_sentinel());
            assert_eq!(data.monzos[c], None);
            assert_eq!(data.pitch_bends[c], None);
            assert_eq!(data.midi_messages[c], None);
        }
    }
}

#[test]
fn a_bend_at_the_edge_of_the_range_is_built() {
    // An octave on F: 1200 cents, 400 above the tempered place.
    let mut tuning = [Interval::keep(); 12];
    tuning[8] = iv(2, 1);
    let mut sizes = [0i64; 12];
    sizes[8] = 1_200_000_000;
    let data = TuningData::try_new(tuning, sizes, 0, &table()).unwrap();
    assert_eq!(data.pitch_bends[8], Some(8191));
    // A unison on C#: 400 below.
    let mut low = [Interval::keep(); 12];
    low[4] = iv(1, 1);
    let data = TuningData::try_new(low, [0; 12], 0, &table()).unwrap();
    assert_eq!(data.pitch_bends[4], Some(-8192));
}

#[test]
fn a_tuning_beyond_the_bend_range_is_refused() {
    let mut tuning = [Interval::keep(); 12];
    tuning[8] = iv(2, 1);
    let mut sizes = [0i64; 12];
    sizes[8] = 1_200_000_040;
    assert_eq!(
        TuningData::try_new(tuning, sizes, 0, &table()).err(),
        Some(TuningError::BendOutOfRange { class: 8 })
    );
    // A fifth where the tempered place is A.
    let mut wrong = scale();
    wrong[0] = iv(3, 2);
    wrong[2] = iv(3, 1);
    assert_eq!(
        TuningData::try_new(wrong, cents_of(&wrong), 0, &table()).err(),
        Some(TuningError::BendOutOfRange { class: 0 })
    );
}

#[test]
fn a_prime_beyond_the_table_is_refused_first() {
    let small = PrimeTable::new(4).unwrap();
    let mut tuning = scale();
    // Class 0 is out of the bend's reach, class 6 needs the prime 11.
    tuning[0] = iv(3, 2);
    assert_eq!(
        TuningData::try_new(tuning, cents_of(&tuning), 0, &small).err(),
        Some(TuningError::PrimeOutOfTable { class: 1 })
    );
    let mut tuning = scale();
    tuning[1] = iv(16, 15);
    tuning[3] = iv(6, 5);
    tuning[8] = iv(8, 5);
    assert_eq!(
        TuningData::try_new(tuning, cents_of(&tuning), 0, &small).err(),
        Some(TuningError::PrimeOutOfTable { class: 6 })
    );
}

#[test]
fn a_ratio_of_large_terms_is_tuned() {
    // 3^53 / 2^84 is a Pythagorean comma of sorts: about 3.6 cents.
    let mut tuning = [Interval::keep(); 12];
    tuning[0] = iv(19_383_245_667_680_019_896_796_723, 1 << 84);
    let data = TuningData::try_new(tuning, cents_of(&tuning), 0, &table()).unwrap();
    assert_eq!(data.monzos[0], Some(vec![-31, 53]));
    assert_eq!(data.pitch_bends[0], Some(74));
}

#[test]
fn descents_lists_the_classes_that_fall() {
    let data = TuningData::try_new(scale(), cents_of(&scale()), 0, &table()).unwrap();
    assert_eq!(data.descents(), Vec::<usize>::new());
    let mut tuning = scale();
    tuning[5] = iv(6, 5);
    tuning[9] = iv(8, 5);
    let data = TuningData::try_new(tuning, cents_of(&tuning), 0, &table()).unwrap();
    assert_eq!(data.descents(), vec![5, 9]);
}

#[test]
fn descents_looks_past_sentinels() {
    let mut tuning = [Interval::keep(); 12];
    tuning[2] = iv(5, 4);
    tuning[6] = iv(6, 5);
    tuning[7] = iv(3, 2);
    let data = TuningData::try_new(tuning, cents_of(&tuning), 0, &table()).unwrap();
    assert_eq!(data.descents(), vec![6]);
    // A scale that is moved to another root still ascends from A.
    assert_eq!(on_c_sharp(0).descents(), Vec::<usize>::new());
}

#[test]
fn an_empty_schedule_is_refused() {
    assert_eq!(Tuner::try_new(Vec::new()).err(), Some(ScheduleError::Empty));
}

#[test]
fn a_first_tuning_with_a_sentinel_is_refused() {
    let list = vec![only(0, 7, iv(3, 2)), on_c_sharp(5_000_000)];
    assert_eq!(Tuner::try_new(list).err(), Some(ScheduleError::SentinelInFirst));
}

#[test]
fn a_schedule_in_order_stays_as_it_is() {
    let tuner =
        Tuner::try_new(vec![on_c_sharp(0), only(5_000_000, 7, iv(3, 2)), only(8_000_000, 7, iv(40, 27))])
            .unwrap();
    assert_eq!(tuner.len(), 3);
    assert_eq!(tuner.first_disorder(), None);
    assert_eq!(tuner.current(), None);
    assert_eq!(tuner.index(0).time, 0);
    assert_eq!(tuner.index(1).time, 5_000_000);
    assert_eq!(tuner.index(2).time, 8_000_000);
}

#[test]
fn the_earliest_tuning_must_tune_every_class() {
    // The first given is whole, the earliest is not.
    let list = vec![on_c_sharp(5_000_000), only(0, 3, iv(6, 5))];
    assert_eq!(Tuner::try_new(list).err(), Some(ScheduleError::SentinelInFirst));
    // The first given holds sentinels, the earliest is whole.
    let list = vec![only(5_000_000, 3, iv(6, 5)), on_c_sharp(0)];
    let tuner = Tuner::try_new(list).unwrap();
    assert_eq!(tuner.first_disorder(), Some(1));
    for c in 0..12 {
        assert!(!tuner.index(0).tuning[c].is_sentinel());
    }
    assert!(tuner.index(1).tuning[0].is_sentinel());
}

#[test]
fn a_schedule_out_of_order_is_sorted() {
    let tuner = Tuner::try_new(vec![
        only(3_000_000, 1, iv(16, 15)),
        only(8_000_000, 7, iv(40, 27)),
        only(5_000_000, 7, iv(3, 2)),
        on_c_sharp(0),
    ])
    .unwrap();
    assert_eq!(tuner.first_disorder(), Some(2));
    let times: Vec<u64> = (0..4).map(|i| tuner.index(i).time).collect();
    assert_eq!(times, vec![0, 3_000_000, 5_000_000, 8_000_000]);
    assert_eq!(tuner.index(2).tuning[7], iv(3, 2));
}

#[test]
fn entries_of_one_time_keep_their_order() {
    let tuner = Tuner::try_new(vec![
        only(5_000_000, 1, iv(16, 15)),
        on_c_sharp(1_000_000),
        only(5_000_000, 3, iv(6, 5)),
        only(1_000_000, 4, iv(5, 4)),
        only(5_000_000, 2, iv(9, 8)),
    ])
    .unwrap();
    assert_eq!(tuner.first_disorder(), Some(1));
    assert_eq!(tuner.index(0).tuning[0], iv(65, 64));
    assert_eq!(tuner.index(1).tuning[4], iv(5, 4));
    assert!(tuner.index(1).tuning[0].is_sentinel());
    assert_eq!(tuner.index(2).tuning[1], iv(16, 15));
    assert_eq!(tuner.index(3).tuning[3], iv(6, 5));
    assert_eq!(tuner.index(4).tuning[2], iv(9, 8));
}

#[test]
fn update_hands_out_each_entry_when_its_time_has_come() {
    let mut tuner =
        Tuner::try_new(vec![on_c_sharp(0), only(5_000_000, 7, iv(3, 2)), only(8_000_000, 7, iv(40, 27))])
            .unwrap();
    assert_eq!(tuner.update(0).map(|e| e.time), Some(0));
    assert_eq!(tuner.current(), Some(0));
    assert!(tuner.update(4_999_000).is_none());
    assert_eq!(tuner.current(), Some(0));
    assert_eq!(tuner.update(5_000_000).map(|e| e.time), Some(5_000_000));
    assert_eq!(tuner.current(), Some(1));
    assert_eq!(tuner.update(100_000_000).map(|e| e.time), Some(8_000_000));
    assert_eq!(tuner.current(), Some(2));
    assert!(tuner.update(100_000_000).is_none());
    assert!(tuner.update(200_000_000).is_none());
    assert_eq!(tuner.current(), Some(2));
}

#[test]
fn update_before_the_first_entry_brings_nothing() {
    let mut tuner = Tuner::try_new(vec![on_c_sharp(1_000_000), only(5_000_000, 7, iv(3, 2))]).unwrap();
    assert!(tuner.update(0).is_none());
    assert!(tuner.update(999_999).is_none());
    assert_eq!(tuner.current(), None);
    assert_eq!(tuner.update(1_000_000).map(|e| e.time), Some(1_000_000));
}

#[test]
fn update_takes_one_step_at_a_call() {
    let mut tuner =
        Tuner::try_new(vec![on_c_sharp(0), only(5_000_000, 7, iv(3, 2)), only(8_000_000, 7, iv(40, 27))])
            .unwrap();
    assert_eq!(tuner.update(9_000_000).map(|e| e.time), Some(0));
    assert_eq!(tuner.update(9_000_000).map(|e| e.time), Some(5_000_000));
    assert_eq!(tuner.update(9_000_000).map(|e| e.time), Some(8_000_000));
    assert!(tuner.update(9_000_000).is_none());
}

#[test]
fn update_with_the_same_time_again_brings_nothing() {
    let mut tuner = Tuner::try_new(vec![on_c_sharp(0), only(5_000_000, 7, iv(3, 2))]).unwrap();
    assert!(tuner.update(0).is_some());
    assert!(tuner.update(0).is_none());
    assert!(tuner.update(0).is_none());
    assert!(tuner.update(5_000_000).is_some());
    assert!(tuner.update(5_000_000).is_none());
}

#[test]
fn accepts_time_tells_when_time_has_gone_back() {
    let mut tuner =
        Tuner::try_new(vec![on_c_sharp(1_000_000), only(5_000_000, 7, iv(3, 2)), only(8_000_000, 7, iv(40, 27))])
            .unwrap();
    assert!(tuner.accepts_time(0));
    assert!(tuner.update(2_000_000).is_some());
    assert!(tuner.accepts_time(1_000_000));
    assert!(!tuner.accepts_time(999_999));
    assert!(tuner.update(5_000_000).is_some());
    assert!(!tuner.accepts_time(4_999_999));
    assert!(tuner.update(8_000_000).is_some());
    // At the last entry too, time must not go back behind it.
    assert!(!tuner.accepts_time(7_999_999));
    assert!(!tuner.accepts_time(0));
    assert!(tuner.accepts_time(8_000_000));
}

#[test]
fn classes_are_named_from_a() {
    let names: Vec<&str> = (0..12).map(semitone_name).collect();
    assert_eq!(names, vec!["A", "Bb", "B", "C", "C#", "D", "Eb", "E", "F", "F#", "G", "G#"]);
}

#[test]
fn the_strict_forms_build_what_the_telling_forms_build() {
    let absolute = transpose(4, &iv(5, 4), &scale()).unwrap();
    let sizes = cents_of(&absolute);
    let strict = td(18_448_000, 4, iv(5, 4), scale(), sizes, &table());
    let telling = try_td(18_448_000, 4, iv(5, 4), scale(), sizes, &table()).unwrap();
    assert_eq!(strict.tuning, telling.tuning);
    assert_eq!(strict.time, telling.time);
    assert_eq!(strict.monzos, telling.monzos);
    assert_eq!(strict.pitch_bends, telling.pitch_bends);
    assert_eq!(strict.midi_messages, telling.midi_messages);
    let direct = TuningData::new(absolute, sizes, 18_448_000, &table());
    assert_eq!(direct.monzos, telling.monzos);
    assert_eq!(direct.midi_messages, telling.midi_messages);
    let tuner = Tuner::new(vec![only(25_000_000, 3, iv(6, 5)), strict]);
    assert_eq!(tuner.len(), 2);
    assert_eq!(tuner.first_disorder(), Some(1));
    assert_eq!(tuner.current(), None);
    assert_eq!(tuner.index(0).time, 18_448_000);
    assert_eq!(tuner.index(1).time, 25_000_000);
}
