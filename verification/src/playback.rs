//! The playback scheduler.
//!
//! A [`Player`] is fed the events of a track one by one. For each it keeps
//! musical time, asks the schedule whether a tuning falls due, and says
//! what is to be sent to the MIDI output and to the visualizer, and when.
//! It never waits and never sends: whoever drives it does both.

use crate::interval::Interval;
use crate::midi::{
    bytes_of, reset_messages, resets, ChannelMessage, CC_ALL_NOTES_OFF, CC_RESET_ALL_CONTROLLERS,
};
use crate::monzo::{exponents, shift_octaves, shifted, Monzo, MAX_OCTAVES};
use crate::tuner::{advance, ascending, due, holds_sentinel, Tuner, TuningData};
use crate::visualizer::{VisualizerMessage, VisualizerMessageView};
use vstd::prelude::*;

verus! {

/// The key of A4, from which notes are counted.
pub const A4_KEY: u8 = 69;

/// The tempo before the track sets one: 120 quarter notes a minute, in
/// microseconds per quarter note.
pub const DEFAULT_TEMPO: u32 = 500_000;

/// How late an event may be, in microseconds, before it counts as late.
pub const LATE_TOLERANCE: u64 = 1000;

/// The channel of all controller changes.
pub const CONTROLLER_CHANNEL: u8 = 0;

/// What is fixed for a run of playback.
#[derive(Clone, Copy, Debug, PartialEq, Eq, Structural)]
pub struct PlaybackConfig {
    /// Ticks in a quarter note.
    pub ticks_per_quarter: u16,
    /// The musical time, in microseconds, at which playback starts.
    pub start_from: u64,
    /// The playback speed as a fraction: its numerator.
    pub speed_num: u32,
    /// The playback speed as a fraction: its denominator.
    pub speed_den: u32,
    /// Whether notes go to the MIDI output.
    pub activate_midi: bool,
    /// Whether notes go to the visualizer.
    pub activate_visualizer: bool,
}

impl PlaybackConfig {
    /// Neither the ticks in a quarter note nor the denominator of the
    /// speed is zero.
    pub open spec fn wf(&self) -> bool {
        self.ticks_per_quarter > 0 && self.speed_den > 0
    }
}

/// One event of a track.
#[derive(Clone, Copy, Debug, PartialEq, Eq, Structural)]
pub enum TrackEvent {
    NoteOn { key: u8, vel: u8 },
    NoteOff { key: u8, vel: u8 },
    Controller { controller: u8, value: u8 },
    /// Any other channel message.
    OtherMidi,
    /// A tempo change, in microseconds per quarter note.
    Tempo(u32),
    /// Any other event: text, markers, the end of the track.
    Other,
}

impl TrackEvent {
    /// The event is a channel message, not a meta event.
    pub open spec fn is_midi(&self) -> bool {
        match self {
            TrackEvent::Tempo(_) => false,
            TrackEvent::Other => false,
            _ => true,
        }
    }
}

/// Where playback stands.
#[derive(Clone, Copy, Debug, PartialEq, Eq, Structural)]
pub enum Phase {
    NotStarted,
    Playing,
    Finished,
}

/// Why an event cannot be taken.
#[derive(Clone, Copy, Debug, PartialEq, Eq, Structural)]
pub enum PlaybackError {
    /// The count of ticks or musical time has left the range of the clock.
    ClockOverflow,
}

/// The class, counted from A, of a key.
pub open spec fn class_of(key: u8) -> int {
    (key + 3) % 12
}

/// The channel of a key: its distance from A4 in semitones, modulo twelve.
pub open spec fn channel_of(key: u8) -> int {
    (key - A4_KEY) % 12
}

/// The whole octaves from A4 to a key, downwards negative.
pub open spec fn octaves_from_a4(key: u8) -> int {
    (key - A4_KEY) / 12
}

/// What playback holds for each class between two tunings.
#[verifier::ext_equal]
pub struct Cache {
    /// The ratio of each class.
    pub tuning: Seq<Interval>,
    /// The monzo of each class.
    pub monzos: Seq<Seq<int>>,
    /// The bend that was last sent to each class's channel.
    pub bends: Seq<int>,
}

impl Cache {
    /// The cache once `entry` is applied: a class that the entry tunes takes
    /// the entry's ratio, monzo and bend; a class for which the entry holds
    /// the sentinel stays as it is.
    pub open spec fn retuned(self, entry: TuningData) -> Cache {
        Cache {
            tuning: Seq::new(
                12,
                |c: int|
                    if entry.tuning@[c].sentinel() {
                        self.tuning[c]
                    } else {
                        entry.tuning@[c]
                    },
            ),
            monzos: Seq::new(
                12,
                |c: int|
                    match entry.monzos@[c] {
                        Some(m) => exponents(m@),
                        None => self.monzos[c],
                    },
            ),
            bends: Seq::new(
                12,
                |c: int|
                    match entry.pitch_bends@[c] {
                        Some(b) => b as int,
                        None => self.bends[c],
                    },
            ),
        }
    }

    /// Twelve ratios, twelve monzos that leave room for the octaves of a
    /// note, twelve bends.
    pub open spec fn wf(self) -> bool {
        &&& self.tuning.len() == 12
        &&& self.monzos.len() == 12
        &&& self.bends.len() == 12
        &&& forall|c: int| 0 <= c < 12 ==> (#[trigger] self.tuning[c]).wf()
        &&& forall|c: int|
            0 <= c < 12 && (#[trigger] self.monzos[c]).len() >= 1 ==> -MAX_OCTAVES
                <= self.monzos[c][0] <= MAX_OCTAVES
    }
}

/// The bend messages of an entry for the classes below `upto`, lowest class
/// first; a class for which the entry holds the sentinel has none.
pub open spec fn bend_messages(entry: TuningData, upto: int) -> Seq<Seq<u8>>
    decreases upto,
{
    if upto <= 0 {
        Seq::empty()
    } else {
        match entry.midi_messages@[upto - 1] {
            Some(raw) => bend_messages(entry, upto - 1).push(raw@),
            None => bend_messages(entry, upto - 1),
        }
    }
}

/// What an event sends to the MIDI output: a note on the channel of its
/// key, once playback has started and notes go there; a controller change
/// always, on the controller channel.
pub open spec fn event_midi(event: TrackEvent, playing: bool, config: PlaybackConfig) -> Seq<
    Seq<u8>,
> {
    match event {
        TrackEvent::NoteOn { key, vel } => if playing && config.activate_midi {
            seq![(ChannelMessage::NoteOn { key, vel }).wire(channel_of(key) as u8)]
        } else {
            Seq::empty()
        },
        TrackEvent::NoteOff { key, vel } => if playing && config.activate_midi {
            seq![(ChannelMessage::NoteOff { key, vel }).wire(channel_of(key) as u8)]
        } else {
            Seq::empty()
        },
        TrackEvent::Controller { controller, value } => seq![
            (ChannelMessage::Controller { controller, value }).wire(CONTROLLER_CHANNEL),
        ],
        _ => Seq::empty(),
    }
}

/// What an event tells the visualizer: a note with its distance from A4,
/// and for a note-on the monzo of its class moved by its octaves, once
/// playback has started and notes go there; a controller change always.
pub open spec fn event_visual(
    event: TrackEvent,
    playing: bool,
    config: PlaybackConfig,
    monzos: Seq<Seq<int>>,
) -> Seq<VisualizerMessageView> {
    match event {
        TrackEvent::NoteOn { key, vel } => if playing && config.activate_visualizer {
            seq![
                VisualizerMessageView::NoteOn {
                    edosteps_from_a4: key - A4_KEY,
                    velocity: vel as int,
                    monzo: shifted(monzos[class_of(key)], octaves_from_a4(key)),
                },
            ]
        } else {
            Seq::empty()
        },
        TrackEvent::NoteOff { key, vel } => if playing && config.activate_visualizer {
            seq![VisualizerMessageView::NoteOff { edosteps_from_a4: key - A4_KEY, velocity: vel as int }]
        } else {
            Seq::empty()
        },
        TrackEvent::Controller { controller, value } => seq![
            VisualizerMessageView::CC { controller: controller as int, value: value as int },
        ],
        _ => Seq::empty(),
    }
}

/// A player as plain mathematical values.
#[verifier::ext_equal]
pub struct PlayerView {
    pub config: PlaybackConfig,
    /// The schedule, in the order of time.
    pub entries: Seq<TuningData>,
    /// The index of the entry applied last, -1 before the first.
    pub position: int,
    /// Where the list that the schedule was made from was first out of
    /// order.
    pub disorder: Option<int>,
    pub phase: Phase,
    /// The ticks of all events taken.
    pub tick: int,
    /// The tempo in force, in microseconds per quarter note.
    pub tempo: int,
    /// Musical time in microseconds times the ticks in a quarter note: the
    /// sum, over all events taken, of the ticks of the event times the
    /// tempo that was in force before it.
    pub clock: int,
    pub cache: Cache,
}

impl PlayerView {
    /// Musical time in whole microseconds.
    pub open spec fn time(self) -> int {
        self.clock / (self.config.ticks_per_quarter as int)
    }

    /// The schedule is in order, the cache is whole, the clock is in range,
    /// and time has reached the entry that was applied last.
    pub open spec fn wf(self) -> bool {
        &&& self.config.wf()
        &&& self.entries.len() >= 1
        &&& forall|i: int| 0 <= i < self.entries.len() ==> (#[trigger] self.entries[i]).wf()
        &&& ascending(self.entries)
        &&& !holds_sentinel(self.entries[0])
        &&& -1 <= self.position < self.entries.len()
        &&& self.cache.wf()
        &&& 0 <= self.tick <= u64::MAX
        &&& 0 <= self.tempo <= u32::MAX
        &&& 0 <= self.clock <= u128::MAX
        &&& self.time() <= u64::MAX
        &&& self.position >= 0 ==> self.entries[self.position].time <= self.time()
    }
}

/// What is to be done for one event, as plain mathematical values.
#[verifier::ext_equal]
pub struct DispatchView {
    pub started: bool,
    pub due: Option<int>,
    pub retuned: Option<int>,
    pub midi: Seq<Seq<u8>>,
    pub visualizer: Seq<VisualizerMessageView>,
}

/// What is to be done for one event.
#[derive(Debug)]
pub struct Dispatch {
    /// Playback starts with this event: wall-clock time counts from now.
    pub started: bool,
    /// While playing, the musical time in microseconds at which the event
    /// is due; what follows is to be sent then and not before.
    pub due: Option<u64>,
    /// The index of the schedule entry that this event has brought into
    /// force.
    pub retuned: Option<usize>,
    /// The messages for the MIDI output, in the order to send them.
    pub midi: Vec<Vec<u8>>,
    /// The messages for the visualizer, in the order to send them.
    pub visualizer: Vec<VisualizerMessage>,
}

/// The views of the messages in a list.
pub open spec fn views_of(messages: Seq<VisualizerMessage>) -> Seq<VisualizerMessageView> {
    messages.map_values(|m: VisualizerMessage| m@)
}

impl View for Dispatch {
    type V = DispatchView;

    open spec fn view(&self) -> DispatchView {
        DispatchView {
            started: self.started,
            due: match self.due {
                Some(t) => Some(t as int),
                None => None,
            },
            retuned: match self.retuned {
                Some(j) => Some(j as int),
                None => None,
            },
            midi: bytes_of(self.midi@),
            visualizer: views_of(self.visualizer@),
        }
    }
}

/// Nothing to do.
pub open spec fn idle() -> DispatchView {
    DispatchView {
        started: false,
        due: None,
        retuned: None,
        midi: Seq::empty(),
        visualizer: Seq::empty(),
    }
}

/// One step of playback: the state after an event that comes `delta` ticks
/// after the one before, and what is to be done for it.
///
/// The ticks are added to musical time at the tempo in force. The schedule
/// is asked with the new time, and an entry that falls due is taken into the
/// cache. A request to cancel ends playback there and then. Otherwise
/// playback starts with the first channel message at or after the starting
/// time; the bends of a new entry are sent, then what the event itself asks
/// for; and a tempo change counts from the next event on. A finished player
/// stays as it is.
pub open spec fn step_spec(s: PlayerView, delta: u32, event: TrackEvent, cancelled: bool) -> Result<
    (PlayerView, DispatchView),
    PlaybackError,
> {
    let tick = s.tick + delta;
    let clock = s.clock + delta * s.tempo;
    let time = clock / (s.config.ticks_per_quarter as int);
    if s.phase == Phase::Finished {
        Ok((s, idle()))
    } else if tick > u64::MAX || clock > u128::MAX || time > u64::MAX {
        Err(PlaybackError::ClockOverflow)
    } else {
        let hit = due(s.entries, s.position, time as u64);
        let cache = match hit {
            Some(j) => s.cache.retuned(s.entries[j]),
            None => s.cache,
        };
        let moved = PlayerView {
            position: advance(s.entries, s.position, time as u64),
            tick,
            clock,
            cache,
            ..s
        };
        if cancelled {
            Ok((PlayerView { phase: Phase::Finished, ..moved }, idle()))
        } else {
            let started = s.phase == Phase::NotStarted && time >= s.config.start_from
                && event.is_midi();
            let playing = started || s.phase == Phase::Playing;
            Ok(
                (
                    PlayerView {
                        phase: if playing {
                            Phase::Playing
                        } else {
                            Phase::NotStarted
                        },
                        tempo: match event {
                            TrackEvent::Tempo(t) => t as int,
                            _ => s.tempo,
                        },
                        ..moved
                    },
                    DispatchView {
                        started,
                        due: if playing {
                            Some(time)
                        } else {
                            None
                        },
                        retuned: hit,
                        midi: (match hit {
                            Some(j) => bend_messages(s.entries[j], 12),
                            None => Seq::empty(),
                        }) + event_midi(event, playing, s.config),
                        visualizer: event_visual(event, playing, s.config, cache.monzos),
                    },
                ),
            )
        }
    }
}

/// The class of a key and its channel are one number.
pub proof fn law_class_is_channel(key: u8)
    ensures
        class_of(key) == channel_of(key),
        0 <= class_of(key) < 12,
{
}

/// A class for which a schedule entry holds the sentinel is left alone when
/// the entry comes into force: its ratio, its monzo and the bend last sent
/// stay what they were, and no bend message is sent for it.
pub proof fn law_sentinel_keeps_class(cache: Cache, entry: TuningData, class: int)
    requires
        entry.wf(),
        0 <= class < 12,
        entry.tuning@[class].sentinel(),
    ensures
        cache.retuned(entry).tuning[class] == cache.tuning[class],
        cache.retuned(entry).monzos[class] == cache.monzos[class],
        cache.retuned(entry).bends[class] == cache.bends[class],
        bend_messages(entry, class + 1) == bend_messages(entry, class),
{
}

/// The same of a whole step: where a step brings an entry into force that
/// holds the sentinel for a class, the class is after the step as it was
/// before.
pub proof fn law_step_keeps_sentinel_class(
    s: PlayerView,
    delta: u32,
    event: TrackEvent,
    cancelled: bool,
    class: int,
)
    requires
        s.wf(),
        0 <= class < 12,
        s.phase != Phase::Finished,
        step_spec(s, delta, event, cancelled) is Ok,
        due(
            s.entries,
            s.position,
            ((s.clock + delta * s.tempo) / (s.config.ticks_per_quarter as int)) as u64,
        ) matches Some(j) && s.entries[j].tuning@[class].sentinel(),
    ensures
        step_spec(s, delta, event, cancelled)->Ok_0.0.cache.tuning[class] == s.cache.tuning[class],
        step_spec(s, delta, event, cancelled)->Ok_0.0.cache.monzos[class] == s.cache.monzos[class],
        step_spec(s, delta, event, cancelled)->Ok_0.0.cache.bends[class] == s.cache.bends[class],
{
    let time = ((s.clock + delta * s.tempo) / (s.config.ticks_per_quarter as int)) as u64;
    let j = due(s.entries, s.position, time)->Some_0;
    assert(s.entries[j].wf());
    law_sentinel_keeps_class(s.cache, s.entries[j], class);
}

/// Musical time moves by the ticks of an event at the tempo that was in
/// force before it: a change of tempo counts from the next event on.
pub proof fn law_time_by_old_tempo(s: PlayerView, delta: u32, event: TrackEvent)
    requires
        s.wf(),
        s.phase != Phase::Finished,
        step_spec(s, delta, event, false) is Ok,
    ensures
        step_spec(s, delta, event, false)->Ok_0.0.clock == s.clock + delta * s.tempo,
        step_spec(s, delta, event, false)->Ok_0.0.tick == s.tick + delta,
        event matches TrackEvent::Tempo(t) ==> step_spec(s, delta, event, false)->Ok_0.0.tempo == t,
        !(event is Tempo) ==> step_spec(s, delta, event, false)->Ok_0.0.tempo == s.tempo,
{
}

/// The cache that three arrays hold.
pub open spec fn cache_of(tuning: [Interval; 12], monzos: [Monzo; 12], bends: [i16; 12]) -> Cache {
    Cache {
        tuning: tuning@,
        monzos: Seq::new(12, |c: int| exponents(monzos@[c]@)),
        bends: Seq::new(12, |c: int| bends@[c] as int),
    }
}

/// The cache before any tuning: every class at the unison, with the empty
/// monzo of the unison and no bend.
pub open spec fn fresh_cache(unison: Interval) -> Cache {
    Cache {
        tuning: Seq::new(12, |c: int| unison),
        monzos: Seq::new(12, |c: int| Seq::<int>::empty()),
        bends: Seq::new(12, |c: int| 0int),
    }
}

/// The monzo of the unison.
fn unison_monzo() -> (m: Monzo)
    ensures
        exponents(m@) == Seq::<int>::empty(),
{
    let m: Vec<i32> = Vec::new();
    assert(exponents(m@) =~= Seq::<int>::empty());
    m
}

/// A copy of a monzo.
fn copy_monzo(monzo: &Monzo) -> (r: Monzo)
    ensures
        r@ == monzo@,
{
    let mut r: Vec<i32> = Vec::new();
    let mut i: usize = 0;
    while i < monzo.len()
        invariant
            0 <= i <= monzo@.len(),
            r@ == monzo@.subrange(0, i as int),
        decreases monzo@.len() - i,
    {
        r.push(monzo[i]);
        assert(r@ =~= monzo@.subrange(0, i + 1));
        i = i + 1;
    }
    assert(r@ =~= monzo@);
    r
}

/// A copy of a message.
fn copy_bytes(raw: &Vec<u8>) -> (r: Vec<u8>)
    ensures
        r@ == raw@,
{
    let mut r: Vec<u8> = Vec::new();
    let mut i: usize = 0;
    while i < raw.len()
        invariant
            0 <= i <= raw@.len(),
            r@ == raw@.subrange(0, i as int),
        decreases raw@.len() - i,
    {
        r.push(raw[i]);
        assert(r@ =~= raw@.subrange(0, i + 1));
        i = i + 1;
    }
    assert(r@ =~= raw@);
    r
}

/// Takes a schedule entry into the cache.
fn apply_entry(
    entry: &TuningData,
    tuning: &mut [Interval; 12],
    monzos: &mut [Monzo; 12],
    bends: &mut [i16; 12],
)
    requires
        entry.wf(),
        cache_of(*old(tuning), *old(monzos), *old(bends)).wf(),
    ensures
        cache_of(*final(tuning), *final(monzos), *final(bends)) == cache_of(
            *old(tuning),
            *old(monzos),
            *old(bends),
        ).retuned(*entry),
        cache_of(*final(tuning), *final(monzos), *final(bends)).wf(),
{
    let ghost before = cache_of(*tuning, *monzos, *bends);
    let ghost want = before.retuned(*entry);
    let mut c: usize = 0;
    while c < 12
        invariant
            0 <= c <= 12,
            entry.wf(),
            before.wf(),
            want == before.retuned(*entry),
            forall|k: int| 0 <= k < c ==> (#[trigger] tuning@[k]) == want.tuning[k],
            forall|k: int| 0 <= k < c ==> exponents((#[trigger] monzos@[k])@) == want.monzos[k],
            forall|k: int| 0 <= k < c ==> (#[trigger] bends@[k]) == want.bends[k],
            forall|k: int| c <= k < 12 ==> (#[trigger] tuning@[k]) == before.tuning[k],
            forall|k: int| c <= k < 12 ==> exponents((#[trigger] monzos@[k])@) == before.monzos[k],
            forall|k: int| c <= k < 12 ==> (#[trigger] bends@[k]) == before.bends[k],
        decreases 12 - c,
    {
        assert(entry.tuning@[c as int].wf());
        assert(tuning@[c as int] == before.tuning[c as int]);
        assert(exponents(monzos@[c as int]@) == before.monzos[c as int]);
        assert(bends@[c as int] == before.bends[c as int]);
        if !entry.tuning[c].is_sentinel() {
            tuning[c] = entry.tuning[c];
            match &entry.monzos[c] {
                Some(m) => {
                    monzos[c] = copy_monzo(m);
                },
                None => {},
            }
            match entry.pitch_bends[c] {
                Some(b) => {
                    bends[c] = b;
                },
                None => {},
            }
        }
        c = c + 1;
    }
    proof {
        let after = cache_of(*tuning, *monzos, *bends);
        assert(after.tuning =~= want.tuning);
        assert(after.monzos =~= want.monzos);
        assert(after.bends =~= want.bends);
        assert forall|k: int| 0 <= k < 12 implies (#[trigger] after.tuning[k]).wf() by {
            assert(entry.tuning@[k].wf());
            assert(before.tuning[k].wf());
        }
        assert forall|k: int| 0 <= k < 12 && (#[trigger] after.monzos[k]).len() >= 1 implies -MAX_OCTAVES
            <= after.monzos[k][0] <= MAX_OCTAVES by {
            assert(entry.tuning@[k].wf());
            match entry.monzos@[k] {
                Some(m) => {
                    assert(exponents(m@)[0] == m@[0]);
                },
                None => {
                    assert(before.monzos[k] == after.monzos[k]);
                },
            }
        }
    }
}

/// The bend messages of an entry, lowest class first.
fn collect_bends(entry: &TuningData) -> (out: Vec<Vec<u8>>)
    ensures
        bytes_of(out@) == bend_messages(*entry, 12),
{
    let mut out: Vec<Vec<u8>> = Vec::new();
    let mut c: usize = 0;
    assert(bytes_of(out@) =~= bend_messages(*entry, 0));
    while c < 12
        invariant
            0 <= c <= 12,
            bytes_of(out@) == bend_messages(*entry, c as int),
        decreases 12 - c,
    {
        let ghost before = out@;
        match &entry.midi_messages[c] {
            Some(raw) => {
                out.push(copy_bytes(raw));
                assert(bytes_of(out@) =~= bytes_of(before).push(raw@));
            },
            None => {},
        }
        c = c + 1;
    }
    out
}

/// How an event stands against the wall clock.
#[derive(Clone, Copy, Debug, PartialEq, Eq, Structural)]
pub enum Pace {
    /// The event is due in so many microseconds: wait that long.
    Wait(u64),
    /// The event is due, and not late beyond the tolerance.
    OnTime,
    /// The event is late by so many microseconds. It is sent all the same.
    Late(u128),
}

/// The musical time that playback should have reached, `elapsed`
/// microseconds after it started: the elapsed time at the playback speed,
/// counted from the starting time.
pub open spec fn reached(elapsed: u64, config: PlaybackConfig) -> int {
    elapsed * config.speed_num / (config.speed_den as int) + config.start_from
}

/// An event due at `due` microseconds of musical time is waited for while
/// playback has not reached it, and is late once playback is past it by
/// more than the tolerance.
pub open spec fn pace_spec(due: int, elapsed: u64, config: PlaybackConfig) -> Pace {
    let now = reached(elapsed, config);
    if due > now {
        Pace::Wait((due - now) as u64)
    } else if now - due > LATE_TOLERANCE {
        Pace::Late((now - due) as u128)
    } else {
        Pace::OnTime
    }
}

/// What brings output and visualizer back to rest: the reset of every
/// channel for the MIDI output, and once "reset all controllers" and "all
/// notes off" for the visualizer, which knows no channels.
pub open spec fn reset_view() -> DispatchView {
    DispatchView {
        started: false,
        due: None,
        retuned: None,
        midi: resets(16),
        visualizer: seq![
            VisualizerMessageView::CC { controller: CC_RESET_ALL_CONTROLLERS as int, value: 0 },
            VisualizerMessageView::CC { controller: CC_ALL_NOTES_OFF as int, value: 0 },
        ],
    }
}

/// What is sent before the first event and after the last.
pub fn reset() -> (d: Dispatch)
    ensures
        d@ == reset_view(),
{
    let mut visualizer: Vec<VisualizerMessage> = Vec::new();
    visualizer.push(VisualizerMessage::CC { controller: CC_RESET_ALL_CONTROLLERS, value: 0 });
    visualizer.push(VisualizerMessage::CC { controller: CC_ALL_NOTES_OFF, value: 0 });
    let d = Dispatch {
        started: false,
        due: None,
        retuned: None,
        midi: reset_messages(),
        visualizer,
    };
    assert(d@ =~= reset_view());
    d
}

/// The state of playback: the schedule and the place reached in it,
/// musical time and tempo, and the tuning of each class.
pub struct Player {
    config: PlaybackConfig,
    tuner: Tuner,
    phase: Phase,
    tick: u64,
    tempo: u32,
    clock: u128,
    tuning: [Interval; 12],
    monzos: [Monzo; 12],
    bends: [i16; 12],
}

impl View for Player {
    type V = PlayerView;

    closed spec fn view(&self) -> PlayerView {
        PlayerView {
            config: self.config,
            entries: self.tuner.entries(),
            position: self.tuner.position(),
            disorder: self.tuner.disorder(),
            phase: self.phase,
            tick: self.tick as int,
            tempo: self.tempo as int,
            clock: self.clock as int,
            cache: cache_of(self.tuning, self.monzos, self.bends),
        }
    }
}

impl Player {
    /// The player's parts agree with each other, and its view is well
    /// formed.
    pub closed spec fn wf(&self) -> bool {
        self.tuner.wf() && self@.wf()
    }

    /// A player at the start of a track: nothing applied, no time passed,
    /// the default tempo, every class at the unison. `None` exactly when
    /// the configuration is not well formed or the schedule has been used.
    pub fn new(config: PlaybackConfig, tuner: Tuner) -> (r: Option<Player>)
        requires
            tuner.wf(),
        ensures
            r is Some <==> config.wf() && tuner.position() == -1,
            r matches Some(p) ==> {
                &&& p.wf()
                &&& p@.wf()
                &&& p@.config == config
                &&& p@.entries == tuner.entries()
                &&& p@.disorder == tuner.disorder()
                &&& p@.position == -1
                &&& p@.phase == Phase::NotStarted
                &&& p@.tick == 0
                &&& p@.tempo == DEFAULT_TEMPO
                &&& p@.clock == 0
                &&& exists|unison: Interval|
                    unison.num() == 1 && unison.den() == 1 && p@.cache == fresh_cache(unison)
            },
    {
        if config.ticks_per_quarter == 0 || config.speed_den == 0 || tuner.current().is_some() {
            return None;
        }
        let unison: Interval = Interval::unison();
        let tuning: [Interval; 12] = [unison; 12];
        let monzos: [Monzo; 12] = [
            unison_monzo(),
            unison_monzo(),
            unison_monzo(),
            unison_monzo(),
            unison_monzo(),
            unison_monzo(),
            unison_monzo(),
            unison_monzo(),
            unison_monzo(),
            unison_monzo(),
            unison_monzo(),
            unison_monzo(),
        ];
        let bends: [i16; 12] = [0; 12];
        let player = Player {
            config,
            tuner,
            phase: Phase::NotStarted,
            tick: 0,
            tempo: DEFAULT_TEMPO,
            clock: 0,
            tuning,
            monzos,
            bends,
        };
        proof {
            let cache = player@.cache;
            assert(cache.tuning =~= fresh_cache(unison).tuning);
            assert(cache.monzos =~= fresh_cache(unison).monzos);
            assert(cache.bends =~= fresh_cache(unison).bends);
            assert(cache =~= fresh_cache(unison));
            assert(0int / (config.ticks_per_quarter as int) == 0) by (nonlinear_arith)
                requires
                    config.ticks_per_quarter > 0,
            ;
        }
        Some(player)
    }
    /// Takes the next event of the track, which comes `delta` ticks after
    /// the one before, and says what is to be done for it. `cancelled` is
    /// the request to stop, as it stands when the event is taken.
    pub fn step(&mut self, delta: u32, event: TrackEvent, cancelled: bool) -> (r: Result<
        Dispatch,
        PlaybackError,
    >)
        requires
            old(self).wf(),
        ensures
            final(self).wf(),
            final(self)@.wf(),
            match step_spec(old(self)@, delta, event, cancelled) {
                Ok((state, out)) => final(self)@ == state && (r matches Ok(d) && d@ == out),
                Err(e) => final(self)@ == old(self)@ && r == Err::<Dispatch, PlaybackError>(e),
            },
    {
        let ghost s = self@;
        if self.phase == Phase::Finished {
            let d = Dispatch {
                started: false,
                due: None,
                retuned: None,
                midi: Vec::new(),
                visualizer: Vec::new(),
            };
            assert(d@ =~= idle());
            return Ok(d);
        }
        let tick: u64 = match self.tick.checked_add(delta as u64) {
            Some(t) => t,
            None => {
                return Err(PlaybackError::ClockOverflow);
            },
        };
        proof {
            assert(delta * self.tempo <= 0xFFFF_FFFF * 0xFFFF_FFFF) by (nonlinear_arith)
                requires
                    0 <= delta <= 0xFFFF_FFFF,
                    0 <= self.tempo <= 0xFFFF_FFFF,
            ;
        }
        let span: u128 = (delta as u128) * (self.tempo as u128);
        let clock: u128 = match self.clock.checked_add(span) {
            Some(c) => c,
            None => {
                return Err(PlaybackError::ClockOverflow);
            },
        };
        let wide: u128 = clock / (self.config.ticks_per_quarter as u128);
        if wide > u64::MAX as u128 {
            return Err(PlaybackError::ClockOverflow);
        }
        let time: u64 = wide as u64;
        proof {
            vstd::arithmetic::div_mod::lemma_div_is_ordered(
                s.clock,
                clock as int,
                self.config.ticks_per_quarter as int,
            );
        }
        self.tick = tick;
        self.clock = clock;
        let hit: Option<usize> = match self.tuner.update(time) {
            Some(_) => self.tuner.current(),
            None => None,
        };
        let mut midi: Vec<Vec<u8>> = Vec::new();
        if let Some(j) = hit {
            let entry: &TuningData = self.tuner.index(j);
            apply_entry(entry, &mut self.tuning, &mut self.monzos, &mut self.bends);
            if !cancelled {
                midi = collect_bends(entry);
            }
        }
        if cancelled {
            self.phase = Phase::Finished;
            let d = Dispatch {
                started: false,
                due: None,
                retuned: None,
                midi: Vec::new(),
                visualizer: Vec::new(),
            };
            proof {
                assert(d@ =~= idle());
                assert(self@ =~= step_spec(s, delta, event, cancelled)->Ok_0.0);
            }
            return Ok(d);
        }
        let is_midi: bool = match event {
            TrackEvent::Tempo(_) => false,
            TrackEvent::Other => false,
            _ => true,
        };
        let started: bool = self.phase == Phase::NotStarted && time >= self.config.start_from
            && is_midi;
        if started {
            self.phase = Phase::Playing;
        }
        let playing: bool = self.phase == Phase::Playing;
        let ghost bends_sent = bytes_of(midi@);
        let mut visualizer: Vec<VisualizerMessage> = Vec::new();
        match event {
            TrackEvent::NoteOn { key, vel } => {
                let class: usize = (key as usize + 3) % 12;
                assert(class == class_of(key) && class == channel_of(key));
                if playing && self.config.activate_midi {
                    midi.push((ChannelMessage::NoteOn { key, vel }).encode(class as u8));
                }
                if playing && self.config.activate_visualizer {
                    let steps: i32 = key as i32 - A4_KEY as i32;
                    let octaves: i32 = if key >= A4_KEY {
                        ((key - A4_KEY) / 12) as i32
                    } else {
                        -(((A4_KEY + 11 - key) / 12) as i32)
                    };
                    assert(octaves == octaves_from_a4(key));
                    proof {
                        let held = self.monzos@[class as int]@;
                        assert(self@.cache.monzos[class as int] == exponents(held));
                        if held.len() > 0 {
                            assert(exponents(held)[0] == held[0]);
                        }
                    }
                    let monzo: Monzo = shift_octaves(&self.monzos[class], octaves);
                    visualizer.push(
                        VisualizerMessage::NoteOn { edosteps_from_a4: steps, velocity: vel, monzo },
                    );
                }
            },
            TrackEvent::NoteOff { key, vel } => {
                let class: usize = (key as usize + 3) % 12;
                assert(class == channel_of(key));
                if playing && self.config.activate_midi {
                    midi.push((ChannelMessage::NoteOff { key, vel }).encode(class as u8));
                }
                if playing && self.config.activate_visualizer {
                    let steps: i32 = key as i32 - A4_KEY as i32;
                    visualizer.push(
                        VisualizerMessage::NoteOff { edosteps_from_a4: steps, velocity: vel },
                    );
                }
            },
            TrackEvent::Controller { controller, value } => {
                midi.push(
                    (ChannelMessage::Controller { controller, value }).encode(CONTROLLER_CHANNEL),
                );
                visualizer.push(VisualizerMessage::CC { controller, value });
            },
            TrackEvent::Tempo(tempo) => {
                self.tempo = tempo;
            },
            _ => {},
        }
        let d = Dispatch {
            started,
            due: if playing {
                Some(time)
            } else {
                None
            },
            retuned: hit,
            midi,
            visualizer,
        };
        proof {
            let want = step_spec(s, delta, event, cancelled)->Ok_0;
            assert(bytes_of(d.midi@) =~= bends_sent + event_midi(event, playing, s.config));
            assert(views_of(d.visualizer@) =~= event_visual(
                event,
                playing,
                s.config,
                self@.cache.monzos,
            ));
            assert(d@ =~= want.1);
            assert(self@ =~= want.0);
        }
        Ok(d)
    }

    /// Ends playback: the track has run out.
    pub fn finish(&mut self)
        requires
            old(self).wf(),
        ensures
            final(self).wf(),
            final(self)@ == (PlayerView { phase: Phase::Finished, ..old(self)@ }),
    {
        self.phase = Phase::Finished;
    }

    /// Where playback stands.
    pub fn phase(&self) -> (r: Phase)
        ensures
            r == self@.phase,
    {
        self.phase
    }

    /// Musical time, in whole microseconds.
    pub fn expected_time(&self) -> (r: u64)
        requires
            self.wf(),
        ensures
            r == self@.time(),
    {
        (self.clock / (self.config.ticks_per_quarter as u128)) as u64
    }

    /// The ticks of all events taken.
    pub fn tick(&self) -> (r: u64)
        ensures
            r == self@.tick,
    {
        self.tick
    }

    /// The tempo in force, in microseconds per quarter note.
    pub fn tempo(&self) -> (r: u32)
        ensures
            r == self@.tempo,
    {
        self.tempo
    }

    /// The ratio to which `class` is tuned.
    pub fn tuning(&self, class: usize) -> (r: Interval)
        requires
            class < 12,
        ensures
            r == self@.cache.tuning[class as int],
    {
        self.tuning[class]
    }

    /// The monzo of `class`.
    pub fn monzo(&self, class: usize) -> (r: &Monzo)
        requires
            class < 12,
        ensures
            exponents(r@) == self@.cache.monzos[class as int],
    {
        &self.monzos[class]
    }

    /// The bend that was last sent to the channel of `class`.
    pub fn bend(&self, class: usize) -> (r: i16)
        requires
            class < 12,
        ensures
            r == self@.cache.bends[class as int],
    {
        self.bends[class]
    }

    /// The schedule.
    pub fn tuner(&self) -> (r: &Tuner)
        ensures
            r.entries() == self@.entries,
            r.position() == self@.position,
            r.disorder() == self@.disorder,
    {
        &self.tuner
    }
    /// How the event that was taken last stands against the wall clock,
    /// `elapsed` microseconds after playback started.
    pub fn pace(&self, elapsed: u64) -> (r: Pace)
        requires
            self.wf(),
        ensures
            r == pace_spec(self@.time(), elapsed, self@.config),
    {
        let due: u128 = self.clock / (self.config.ticks_per_quarter as u128);
        proof {
            assert(elapsed * self.config.speed_num <= 0xFFFF_FFFF_FFFF_FFFF * 0xFFFF_FFFF)
                by (nonlinear_arith)
                requires
                    0 <= elapsed <= 0xFFFF_FFFF_FFFF_FFFF,
                    0 <= self.config.speed_num <= 0xFFFF_FFFF,
            ;
        }
        let scaled: u128 = (elapsed as u128) * (self.config.speed_num as u128);
        let reached: u128 = scaled / (self.config.speed_den as u128) + (
        self.config.start_from as u128);
        if due > reached {
            Pace::Wait((due - reached) as u64)
        } else if reached - due > LATE_TOLERANCE as u128 {
            Pace::Late(reached - due)
        } else {
            Pace::OnTime
        }
    }
}

} // verus!
