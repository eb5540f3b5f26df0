use ji_performer::visualizer::VisualizerMessage;

#[test]
fn note_on_line() {
    let m = VisualizerMessage::NoteOn { edosteps_from_a4: -12, velocity: 64, monzo: vec![0, 1, -1] };
    assert_eq!(m.render(), "on:-12:64:0:1:-1");
}

#[test]
fn note_on_line_with_one_exponent() {
    let m = VisualizerMessage::NoteOn { edosteps_from_a4: 24, velocity: 127, monzo: vec![2] };
    assert_eq!(m.render(), "on:24:127:2");
}

#[test]
fn note_on_line_with_an_empty_monzo() {
    let m = VisualizerMessage::NoteOn { edosteps_from_a4: 0, velocity: 1, monzo: vec![] };
    assert_eq!(m.render(), "on:0:1:");
}

#[test]
fn note_off_line() {
    let m = VisualizerMessage::NoteOff { edosteps_from_a4: 5, velocity: 0 };
    assert_eq!(m.render(), "off:5:0");
    let n = VisualizerMessage::NoteOff { edosteps_from_a4: -69, velocity: 100 };
    assert_eq!(n.render(), "off:-69:100");
}

#[test]
fn controller_line() {
    let m = VisualizerMessage::CC { controller: 64, value: 127 };
    assert_eq!(m.render(), "cc:64:127");
    let n = VisualizerMessage::CC { controller: 121, value: 0 };
    assert_eq!(n.render(), "cc:121:0");
}

#[test]
fn numbers_are_written_in_full() {
    let m = VisualizerMessage::NoteOn {
        edosteps_from_a4: i32::MIN,
        velocity: 255,
        monzo: vec![i32::MAX, i32::MIN, 10, -10, 100],
    };
    assert_eq!(m.render(), "on:-2147483648:255:2147483647:-2147483648:10:-10:100");
}
