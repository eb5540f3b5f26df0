//! Channel voice messages in their wire form.

use midly::live::LiveEvent;
use midly::num::{u4, u7};
use midly::{MidiMessage, PitchBend};
use vstd::prelude::*;

verus! {

/// The highest output channel.
pub const MAX_CHANNEL: u8 = 15;

/// "Reset all controllers".
pub const CC_RESET_ALL_CONTROLLERS: u8 = 121;

/// "All notes off".
pub const CC_ALL_NOTES_OFF: u8 = 123;

/// A channel voice message, before it is addressed to a channel.
#[derive(Clone, Copy, Debug, PartialEq, Eq, Structural)]
pub enum ChannelMessage {
    NoteOff { key: u8, vel: u8 },
    NoteOn { key: u8, vel: u8 },
    Controller { controller: u8, value: u8 },
    /// A bend from -8192 (full bend down) over 0 (none) to 8191.
    PitchBend { bend: i16 },
}

impl ChannelMessage {
    /// The status byte on channel zero.
    pub open spec fn status(&self) -> int {
        match self {
            ChannelMessage::NoteOff { .. } => 0x80,
            ChannelMessage::NoteOn { .. } => 0x90,
            ChannelMessage::Controller { .. } => 0xB0,
            ChannelMessage::PitchBend { .. } => 0xE0,
        }
    }

    /// The two data bytes. Data above seven bits loses its top bit; a bend
    /// outside its range is clamped, then sent as 14 bits around 0x2000,
    /// low seven bits first.
    pub open spec fn data(&self) -> (int, int) {
        match self {
            ChannelMessage::NoteOff { key, vel } => ((*key % 128) as int, (*vel % 128) as int),
            ChannelMessage::NoteOn { key, vel } => ((*key % 128) as int, (*vel % 128) as int),
            ChannelMessage::Controller { controller, value } => ((*controller % 128) as int, (*value % 128) as int),
            ChannelMessage::PitchBend { bend } => {
                let raw = clamp_bend(*bend as int) + 0x2000;
                (raw % 128, raw / 128)
            },
        }
    }

    /// The three bytes of the message on `channel`; only the low four bits
    /// of the channel count.
    pub open spec fn wire(&self, channel: u8) -> Seq<u8> {
        seq![
            (self.status() + channel % 16) as u8,
            self.data().0 as u8,
            self.data().1 as u8,
        ]
    }

    /// The message on `channel` as the bytes to hand to a MIDI output.
    pub fn encode(&self, channel: u8) -> (raw: Vec<u8>)
        ensures
            raw@ == self.wire(channel),
    {
        write_live_event(self, channel)
    }
}

/// A bend value held to the range that fourteen bits around the centre allow.
pub open spec fn clamp_bend(bend: int) -> int {
    if bend < -0x2000 {
        -0x2000
    } else if bend > 0x1FFF {
        0x1FFF
    } else {
        bend
    }
}

/// `LiveEvent::write` of `midly`, on a channel voice message: the status
/// nibble joined with the channel, then the data bytes. `u4::new` and
/// `u7::new` mask their argument, `PitchBend::from_int` clamps it. Trusted,
/// not proved.
#[verifier::external_body]
fn write_live_event(message: &ChannelMessage, channel: u8) -> (raw: Vec<u8>)
    ensures
        raw@ == message.wire(channel),
{
    let message: MidiMessage = match *message {
        ChannelMessage::NoteOff { key, vel } => MidiMessage::NoteOff { key: u7::new(key), vel: u7::new(vel) },
        ChannelMessage::NoteOn { key, vel } => MidiMessage::NoteOn { key: u7::new(key), vel: u7::new(vel) },
        ChannelMessage::Controller { controller, value } => MidiMessage::Controller { controller: u7::new(controller), value: u7::new(value) },
        ChannelMessage::PitchBend { bend } => MidiMessage::PitchBend { bend: PitchBend::from_int(bend) },
    };
    let mut raw: Vec<u8> = Vec::new();
    let _ = LiveEvent::Midi { channel: u4::new(channel), message }.write(&mut raw);
    raw
}

/// The note-on message for `key` with velocity `vel` on `channel`.
pub fn note_on(channel: u8, key: u8, vel: u8) -> (raw: Vec<u8>)
    ensures
        raw@ == seq![(0x90 + channel % 16) as u8, key % 128, vel % 128],
{
    ChannelMessage::NoteOn { key, vel }.encode(channel)
}

/// The note-off message for `key` with velocity `vel` on `channel`.
pub fn note_off(channel: u8, key: u8, vel: u8) -> (raw: Vec<u8>)
    ensures
        raw@ == seq![(0x80 + channel % 16) as u8, key % 128, vel % 128],
{
    ChannelMessage::NoteOff { key, vel }.encode(channel)
}

/// The controller-change message that sets `controller` to `value` on
/// `channel`.
pub fn control_change(channel: u8, controller: u8, value: u8) -> (raw: Vec<u8>)
    ensures
        raw@ == seq![(0xB0 + channel % 16) as u8, controller % 128, value % 128],
{
    ChannelMessage::Controller { controller, value }.encode(channel)
}

/// The pitch-bend message for `bend` on `channel`.
pub fn pitch_bend_message(channel: u8, bend: i16) -> (raw: Vec<u8>)
    ensures
        raw@ == seq![
            (0xE0 + channel % 16) as u8,
            ((clamp_bend(bend as int) + 0x2000) % 128) as u8,
            ((clamp_bend(bend as int) + 0x2000) / 128) as u8,
        ],
{
    ChannelMessage::PitchBend { bend }.encode(channel)
}

/// What silences one channel: all controllers reset, all notes off, the
/// bend at its centre.
pub open spec fn channel_reset(channel: u8) -> Seq<Seq<u8>> {
    seq![
        seq![(0xB0 + channel) as u8, CC_RESET_ALL_CONTROLLERS, 0u8],
        seq![(0xB0 + channel) as u8, CC_ALL_NOTES_OFF, 0u8],
        seq![(0xE0 + channel) as u8, 0u8, 64u8],
    ]
}

/// The messages of the first `channels` channels' resets, channel by
/// channel.
pub open spec fn resets(channels: nat) -> Seq<Seq<u8>>
    decreases channels,
{
    if channels == 0 {
        Seq::empty()
    } else {
        resets((channels - 1) as nat) + channel_reset((channels - 1) as u8)
    }
}

/// The bytes of each message in a list.
pub open spec fn bytes_of(messages: Seq<Vec<u8>>) -> Seq<Seq<u8>> {
    messages.map_values(|m: Vec<u8>| m@)
}

/// The messages that bring every channel, from zero to the highest, back
/// to rest: for each one "reset all controllers", "all notes off" and
/// "pitch bend centre".
pub fn reset_messages() -> (out: Vec<Vec<u8>>)
    ensures
        bytes_of(out@) == resets(16),
        out@.len() == 48,
{
    let mut out: Vec<Vec<u8>> = Vec::new();
    let mut c: u8 = 0;
    while c <= MAX_CHANNEL
        invariant
            0 <= c <= 16,
            bytes_of(out@) == resets(c as nat),
            out@.len() == 3 * c,
        decreases 16 - c,
    {
        let ghost before = out@;
        out.push(control_change(c, CC_RESET_ALL_CONTROLLERS, 0));
        out.push(control_change(c, CC_ALL_NOTES_OFF, 0));
        out.push(pitch_bend_message(c, 0));
        proof {
            assert(bytes_of(out@) =~= bytes_of(before) + channel_reset(c));
        }
        c = c + 1;
    }
    out
}

} // verus!
