use ji_performer::interval::Interval;
use ji_performer::playback::{
    reset, Pace, Phase, PlaybackConfig, PlaybackError, Player, TrackEvent,
};
use ji_performer::prime_table::PrimeTable;
use ji_performer::tuner::{Tuner, TuningData};
use ji_performer::visualizer::VisualizerMessage;

fn iv(num: i128, den: i128) -> Interval {
    Interval::new(num, den).unwrap()
}

fn cents(r: &Interval) -> i64 {
    if r.is_sentinel() {
        return 0;
    }
    let value = r.numerator() as f64 / r.denominator() as f64;
    (value.log2() * 1200.0 * 1e6).round() as i64
}

fn tuning_at(time: u64, tuning: [Interval; 12]) -> TuningData {
    let mut sizes = [0i64; 12];
    for c in 0..12 {
        sizes[c] = cents(&tuning[c]);
    }
    TuningData::try_new(tuning, sizes, time, &PrimeTable::new(1000).unwrap()).unwrap()
}

/// A five-limit scale from A.
fn scale() -> [Interval; 12] {
    [
        iv(1, 1),
        iv(16, 15),
        iv(9, 8),
        iv(6, 5),
        iv(5, 4),
        iv(4, 3),
        iv(45, 32),
        iv(3, 2),
        iv(8, 5),
        iv(5, 3),
        iv(9, 5),
        iv(15, 8),
    ]
}

fn only(time: u64, class: usize, ratio: Interval) -> TuningData {
    let mut tuning = [Interval::keep(); 12];
    tuning[class] = ratio;
    tuning_at(time, tuning)
}

fn config(ticks_per_quarter: u16) -> PlaybackConfig {
    PlaybackConfig {
        ticks_per_quarter,
        start_from: 0,
        speed_num: 1,
        speed_den: 1,
        activate_midi: true,
        activate_visualizer: true,
    }
}

fn player(config: PlaybackConfig, entries: Vec<TuningData>) -> Player {
    Player::new(config, Tuner::try_new(entries).unwrap()).unwrap()
}

#[test]
fn a_new_player_has_not_started() {
    let p = player(config(480), vec![tuning_at(0, scale())]);
    assert_eq!(p.phase(), Phase::NotStarted);
    assert_eq!(p.tick(), 0);
    assert_eq!(p.tempo(), 500_000);
    assert_eq!(p.expected_time(), 0);
    for c in 0..12 {
        assert_eq!(p.tuning(c), Interval::unison());
        assert_eq!(p.monzo(c), &Vec::<i32>::new());
        assert_eq!(p.bend(c), 0);
    }
    assert_eq!(p.tuner().current(), None);
}

#[test]
fn a_player_needs_a_sound_configuration_and_a_fresh_schedule() {
    let tuner = Tuner::try_new(vec![tuning_at(0, scale())]).unwrap();
    assert!(Player::new(config(0), tuner).is_none());
    let tuner = Tuner::try_new(vec![tuning_at(0, scale())]).unwrap();
    let mut stopped = config(480);
    stopped.speed_den = 0;
    assert!(Player::new(stopped, tuner).is_none());
    let mut used = Tuner::try_new(vec![tuning_at(0, scale())]).unwrap();
    assert!(used.update(0).is_some());
    assert!(Player::new(config(480), used).is_none());
}

#[test]
fn four_ticks_at_120_bpm_with_four_ticks_per_quarter_are_half_a_second() {
    let mut p = player(config(4), vec![tuning_at(0, scale())]);
    p.step(0, TrackEvent::Tempo(500_000), false).unwrap();
    let before = p.expected_time();
    p.step(4, TrackEvent::NoteOn { key: 69, vel: 100 }, false).unwrap();
    assert_eq!(p.expected_time() - before, 500_000);
    assert_eq!(p.tick(), 4);
}

#[test]
fn a_tempo_change_counts_from_the_next_event_on() {
    let mut p = player(config(480), vec![tuning_at(0, scale())]);
    // 480 ticks at the default tempo, then the tempo halves the speed.
    p.step(480, TrackEvent::Tempo(1_000_000), false).unwrap();
    assert_eq!(p.expected_time(), 500_000);
    assert_eq!(p.tempo(), 1_000_000);
    p.step(480, TrackEvent::Other, false).unwrap();
    assert_eq!(p.expected_time(), 1_500_000);
    p.step(1, TrackEvent::Other, false).unwrap();
    // 1 / 480 of a second is 2083.33 microseconds.
    assert_eq!(p.expected_time(), 1_502_083);
    p.step(2, TrackEvent::Other, false).unwrap();
    assert_eq!(p.expected_time(), 1_506_250);
}

#[test]
fn playback_starts_with_the_first_channel_message() {
    let mut p = player(config(480), vec![tuning_at(0, scale())]);
    let d = p.step(0, TrackEvent::Tempo(500_000), false).unwrap();
    assert!(!d.started);
    assert_eq!(d.due, None);
    assert_eq!(p.phase(), Phase::NotStarted);
    let d = p.step(10, TrackEvent::Other, false).unwrap();
    assert!(!d.started);
    let d = p.step(470, TrackEvent::OtherMidi, false).unwrap();
    assert!(d.started);
    assert_eq!(d.due, Some(500_000));
    assert_eq!(p.phase(), Phase::Playing);
    let d = p.step(480, TrackEvent::NoteOn { key: 60, vel: 1 }, false).unwrap();
    assert!(!d.started);
    assert_eq!(d.due, Some(1_000_000));
}

#[test]
fn playback_waits_for_the_starting_time() {
    let mut late = config(480);
    late.start_from = 1_000_000;
    let mut p = player(late, vec![tuning_at(0, scale())]);
    let d = p.step(480, TrackEvent::NoteOn { key: 60, vel: 90 }, false).unwrap();
    assert!(!d.started);
    assert_eq!(d.due, None);
    // The bends of the first tuning go out, the note does not.
    assert_eq!(d.midi.len(), 12);
    assert!(d.visualizer.is_empty());
    let d = p.step(479, TrackEvent::NoteOff { key: 60, vel: 0 }, false).unwrap();
    assert!(d.midi.is_empty());
    assert!(d.visualizer.is_empty());
    let d = p.step(1, TrackEvent::NoteOn { key: 62, vel: 90 }, false).unwrap();
    assert!(d.started);
    assert_eq!(d.due, Some(1_000_000));
    assert_eq!(d.midi, vec![vec![0x95, 62, 90]]);
}

#[test]
fn a_controller_change_is_forwarded_before_the_start() {
    let mut late = config(480);
    late.start_from = 60_000_000;
    late.activate_midi = false;
    late.activate_visualizer = false;
    let mut p = player(late, vec![tuning_at(1_000_000, scale())]);
    let d = p.step(0, TrackEvent::Controller { controller: 64, value: 127 }, false).unwrap();
    assert!(!d.started);
    assert_eq!(d.midi, vec![vec![0xB0, 64, 127]]);
    assert_eq!(d.visualizer, vec![VisualizerMessage::CC { controller: 64, value: 127 }]);
}

#[test]
fn a_note_goes_to_the_channel_of_its_class() {
    let mut p = player(config(480), vec![tuning_at(0, scale())]);
    p.step(0, TrackEvent::OtherMidi, false).unwrap();
    // C5 is class 3, E4 is class 7, A0 is class 0.
    let d = p.step(0, TrackEvent::NoteOn { key: 72, vel: 100 }, false).unwrap();
    assert_eq!(d.midi, vec![vec![0x93, 72, 100]]);
    assert_eq!(
        d.visualizer,
        vec![VisualizerMessage::NoteOn { edosteps_from_a4: 3, velocity: 100, monzo: vec![0, 1, -1] }]
    );
    let d = p.step(0, TrackEvent::NoteOff { key: 64, vel: 5 }, false).unwrap();
    assert_eq!(d.midi, vec![vec![0x87, 64, 5]]);
    assert_eq!(d.visualizer, vec![VisualizerMessage::NoteOff { edosteps_from_a4: -5, velocity: 5 }]);
    let d = p.step(0, TrackEvent::NoteOn { key: 21, vel: 7 }, false).unwrap();
    assert_eq!(d.midi, vec![vec![0x90, 21, 7]]);
    assert_eq!(
        d.visualizer,
        vec![VisualizerMessage::NoteOn { edosteps_from_a4: -48, velocity: 7, monzo: vec![-4] }]
    );
}

#[test]
fn notes_go_only_where_they_are_switched_on() {
    let mut quiet = config(480);
    quiet.activate_midi = false;
    let mut p = player(quiet, vec![tuning_at(1_000_000, scale())]);
    let d = p.step(0, TrackEvent::NoteOn { key: 69, vel: 100 }, false).unwrap();
    assert!(d.started);
    assert!(d.midi.is_empty());
    assert_eq!(d.visualizer.len(), 1);
    let mut blind = config(480);
    blind.activate_visualizer = false;
    let mut p = player(blind, vec![tuning_at(1_000_000, scale())]);
    let d = p.step(0, TrackEvent::NoteOn { key: 69, vel: 100 }, false).unwrap();
    assert_eq!(d.midi, vec![vec![0x90, 69, 100]]);
    assert!(d.visualizer.is_empty());
}

#[test]
fn a_unison_two_octaves_up_is_the_monzo_two() {
    // Nothing is tuned yet: every class is at the unison.
    let mut p = player(config(480), vec![tuning_at(10_000_000, scale())]);
    let d = p.step(0, TrackEvent::NoteOn { key: 93, vel: 100 }, false).unwrap();
    assert_eq!(
        d.visualizer,
        vec![VisualizerMessage::NoteOn { edosteps_from_a4: 24, velocity: 100, monzo: vec![2] }]
    );
    let d = p.step(0, TrackEvent::NoteOn { key: 57, vel: 100 }, false).unwrap();
    assert_eq!(
        d.visualizer,
        vec![VisualizerMessage::NoteOn { edosteps_from_a4: -12, velocity: 100, monzo: vec![-1] }]
    );
    // G#4 is below A4, so it belongs to the octave under it.
    let d = p.step(0, TrackEvent::NoteOn { key: 68, vel: 100 }, false).unwrap();
    assert_eq!(
        d.visualizer,
        vec![VisualizerMessage::NoteOn { edosteps_from_a4: -1, velocity: 100, monzo: vec![-1] }]
    );
}

#[test]
fn a_tuning_that_falls_due_is_sent_before_the_event() {
    let mut p = player(config(480), vec![tuning_at(0, scale()), only(500_000, 7, iv(40, 27))]);
    let d = p.step(0, TrackEvent::NoteOn { key: 76, vel: 100 }, false).unwrap();
    assert_eq!(d.retuned, Some(0));
    assert_eq!(d.midi.len(), 13);
    for c in 0..12 {
        assert_eq!(Some(d.midi[c].clone()), p.tuner().index(0).midi_messages[c]);
        assert_eq!(d.midi[c][0], 0xE0 + c as u8);
    }
    assert_eq!(d.midi[12], vec![0x97, 76, 100]);
    assert_eq!(p.tuning(7), iv(3, 2));
    assert_eq!(p.monzo(7), &vec![0, 1]);
    assert_eq!(p.bend(7), 40);
    assert_eq!(
        d.visualizer,
        vec![VisualizerMessage::NoteOn { edosteps_from_a4: 7, velocity: 100, monzo: vec![0, 1] }]
    );
}

#[test]
fn a_sentinel_leaves_its_class_as_it_was() {
    let mut p = player(config(480), vec![tuning_at(0, scale()), only(500_000, 7, iv(40, 27))]);
    p.step(0, TrackEvent::OtherMidi, false).unwrap();
    let tuning: Vec<Interval> = (0..12).map(|c| p.tuning(c)).collect();
    let monzos: Vec<Vec<i32>> = (0..12).map(|c| p.monzo(c).clone()).collect();
    let bends: Vec<i16> = (0..12).map(|c| p.bend(c)).collect();
    let d = p.step(480, TrackEvent::Other, false).unwrap();
    assert_eq!(d.retuned, Some(1));
    // One bend goes out: that of the one class that is tuned anew.
    assert_eq!(d.midi.len(), 1);
    assert_eq!(d.midi[0][0], 0xE7);
    for c in 0..12 {
        if c == 7 {
            assert_eq!(p.tuning(c), iv(40, 27));
            assert_eq!(p.monzo(c), &vec![2, -3, 1]);
            assert_eq!(p.bend(c), -400);
        } else {
            assert_eq!(p.tuning(c), tuning[c]);
            assert_eq!(p.monzo(c), &monzos[c]);
            assert_eq!(p.bend(c), bends[c]);
        }
    }
}

#[test]
fn one_entry_falls_due_at_an_event() {
    let mut p = player(
        config(480),
        vec![tuning_at(0, scale()), only(100, 7, iv(40, 27)), only(200, 2, iv(10, 9))],
    );
    let d = p.step(480, TrackEvent::Other, false).unwrap();
    assert_eq!(d.retuned, Some(0));
    let d = p.step(0, TrackEvent::Other, false).unwrap();
    assert_eq!(d.retuned, Some(1));
    let d = p.step(0, TrackEvent::Other, false).unwrap();
    assert_eq!(d.retuned, Some(2));
    let d = p.step(0, TrackEvent::Other, false).unwrap();
    assert_eq!(d.retuned, None);
    assert!(d.midi.is_empty());
}

#[test]
fn cancelling_ends_playback_without_sending() {
    let mut p = player(config(480), vec![tuning_at(0, scale())]);
    p.step(0, TrackEvent::OtherMidi, false).unwrap();
    let d = p.step(480, TrackEvent::NoteOn { key: 69, vel: 100 }, true).unwrap();
    assert_eq!(p.phase(), Phase::Finished);
    assert!(!d.started);
    assert_eq!(d.due, None);
    assert!(d.midi.is_empty());
    assert!(d.visualizer.is_empty());
    assert_eq!(p.expected_time(), 500_000);
    // A finished player takes nothing more.
    let d = p.step(480, TrackEvent::Controller { controller: 64, value: 0 }, false).unwrap();
    assert!(d.midi.is_empty());
    assert!(d.visualizer.is_empty());
    assert_eq!(p.expected_time(), 500_000);
    assert_eq!(p.tick(), 480);
}

#[test]
fn cancelling_at_a_tuning_keeps_its_bends_back() {
    let mut p = player(config(480), vec![tuning_at(0, scale())]);
    let d = p.step(0, TrackEvent::OtherMidi, true).unwrap();
    assert!(d.midi.is_empty());
    assert_eq!(d.retuned, None);
    assert_eq!(p.phase(), Phase::Finished);
}

#[test]
fn finish_ends_playback() {
    let mut p = player(config(480), vec![tuning_at(0, scale())]);
    p.step(0, TrackEvent::OtherMidi, false).unwrap();
    p.finish();
    assert_eq!(p.phase(), Phase::Finished);
    assert_eq!(p.tuning(4), iv(5, 4));
}

#[test]
fn a_clock_out_of_range_is_reported_and_changes_nothing() {
    let mut p = player(config(1), vec![tuning_at(0, scale())]);
    p.step(0, TrackEvent::Tempo(u32::MAX), false).unwrap();
    p.step(u32::MAX, TrackEvent::Other, false).unwrap();
    let time = p.expected_time();
    let tick = p.tick();
    assert_eq!(time, (u32::MAX as u64) * (u32::MAX as u64));
    assert_eq!(
        p.step(u32::MAX, TrackEvent::Tempo(1), false).err(),
        Some(PlaybackError::ClockOverflow)
    );
    assert_eq!(p.expected_time(), time);
    assert_eq!(p.tick(), tick);
    assert_eq!(p.tempo(), u32::MAX);
    assert!(p.step(2, TrackEvent::Other, false).is_ok());
}

#[test]
fn pace_waits_for_an_event_that_is_not_due() {
    let mut p = player(config(480), vec![tuning_at(0, scale())]);
    p.step(480, TrackEvent::OtherMidi, false).unwrap();
    assert_eq!(p.pace(0), Pace::Wait(500_000));
    assert_eq!(p.pace(499_999), Pace::Wait(1));
    assert_eq!(p.pace(500_000), Pace::OnTime);
    assert_eq!(p.pace(501_000), Pace::OnTime);
    assert_eq!(p.pace(501_001), Pace::Late(1001));
}

#[test]
fn pace_counts_from_the_starting_time_at_the_playback_speed() {
    let mut fast = config(480);
    fast.start_from = 200_000;
    fast.speed_num = 3;
    fast.speed_den = 2;
    let mut p = player(fast, vec![tuning_at(0, scale())]);
    p.step(480, TrackEvent::OtherMidi, false).unwrap();
    // Due at 500 000; 100 000 elapsed are 150 000 of music, from 200 000 on.
    assert_eq!(p.pace(100_000), Pace::Wait(150_000));
    assert_eq!(p.pace(200_000), Pace::OnTime);
    assert_eq!(p.pace(200_001), Pace::OnTime);
    assert_eq!(p.pace(400_000), Pace::Late(300_000));
    assert_eq!(
        p.pace(u64::MAX),
        Pace::Late((u64::MAX as u128) * 3 / 2 + 200_000 - 500_000)
    );
}

#[test]
fn reset_brings_every_channel_to_rest() {
    let d = reset();
    assert!(!d.started);
    assert_eq!(d.due, None);
    assert_eq!(d.retuned, None);
    assert_eq!(d.midi.len(), 48);
    assert_eq!(d.midi[0], vec![0xB0, 121, 0]);
    assert_eq!(d.midi[1], vec![0xB0, 123, 0]);
    assert_eq!(d.midi[2], vec![0xE0, 0, 64]);
    assert_eq!(d.midi[45], vec![0xBF, 121, 0]);
    assert_eq!(d.midi[47], vec![0xEF, 0, 64]);
    assert_eq!(
        d.visualizer,
        vec![
            VisualizerMessage::CC { controller: 121, value: 0 },
            VisualizerMessage::CC { controller: 123, value: 0 },
        ]
    );
}
