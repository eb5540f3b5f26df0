use ji_performer::midi::{
    control_change, note_off, note_on, pitch_bend_message, reset_messages, ChannelMessage,
};

#[test]
fn note_on_bytes() {
    assert_eq!(note_on(0, 69, 100), vec![0x90, 69, 100]);
    assert_eq!(note_on(11, 60, 1), vec![0x9B, 60, 1]);
}

#[test]
fn note_off_bytes() {
    assert_eq!(note_off(3, 72, 64), vec![0x83, 72, 64]);
}

#[test]
fn control_change_bytes() {
    assert_eq!(control_change(0, 64, 127), vec![0xB0, 64, 127]);
    assert_eq!(control_change(15, 121, 0), vec![0xBF, 121, 0]);
}

#[test]
fn pitch_bend_bytes() {
    assert_eq!(pitch_bend_message(0, 0), vec![0xE0, 0x00, 0x40]);
    assert_eq!(pitch_bend_message(7, 40), vec![0xE7, 40, 0x40]);
    assert_eq!(pitch_bend_message(4, -280), vec![0xE4, 0x68, 0x3D]);
    assert_eq!(pitch_bend_message(1, 8191), vec![0xE1, 0x7F, 0x7F]);
    assert_eq!(pitch_bend_message(1, -8192), vec![0xE1, 0x00, 0x00]);
}

#[test]
fn a_bend_out_of_range_is_clamped() {
    assert_eq!(pitch_bend_message(0, 8192), vec![0xE0, 0x7F, 0x7F]);
    assert_eq!(pitch_bend_message(0, i16::MAX), vec![0xE0, 0x7F, 0x7F]);
    assert_eq!(pitch_bend_message(0, i16::MIN), vec![0xE0, 0x00, 0x00]);
}

#[test]
fn data_and_channel_lose_their_top_bits() {
    assert_eq!(note_on(16, 128, 255), vec![0x90, 0, 127]);
    assert_eq!(note_on(0x1F, 200, 129), vec![0x9F, 72, 1]);
    assert_eq!(control_change(255, 255, 128), vec![0xBF, 127, 0]);
}

#[test]
fn encode_agrees_with_the_named_functions() {
    assert_eq!(ChannelMessage::NoteOn { key: 69, vel: 100 }.encode(2), note_on(2, 69, 100));
    assert_eq!(ChannelMessage::NoteOff { key: 69, vel: 0 }.encode(2), note_off(2, 69, 0));
    assert_eq!(
        ChannelMessage::Controller { controller: 1, value: 2 }.encode(2),
        control_change(2, 1, 2)
    );
    assert_eq!(ChannelMessage::PitchBend { bend: -1 }.encode(2), vec![0xE2, 0x7F, 0x3F]);
}

#[test]
fn reset_silences_every_channel() {
    let all = reset_messages();
    assert_eq!(all.len(), 48);
    for c in 0..16u8 {
        let at = 3 * c as usize;
        assert_eq!(all[at], vec![0xB0 + c, 121, 0]);
        assert_eq!(all[at + 1], vec![0xB0 + c, 123, 0]);
        assert_eq!(all[at + 2], vec![0xE0 + c, 0x00, 0x40]);
    }
}
