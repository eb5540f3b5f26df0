//! The schedule of tunings.
//!
//! Each of the twelve pitch classes, counted from A, has a channel of its
//! own and is tuned by the pitch bend of that channel. A [`TuningData`]
//! says how the twelve are tuned from a given time on; a [`Tuner`] holds
//! such entries in the order of their times and hands out each when its
//! time has come.

use crate::bend::{bend_of, in_range, offset_of, pitch_bend, PB_RANGE};
use crate::interval::{fits_as, representable, Interval};
use crate::midi::{pitch_bend_message, ChannelMessage};
use crate::monzo::{
    covered, exponents, lemma_monzo_bounds, monzo_of, JIRatio, Monzo, MAX_OCTAVES,
};
use crate::prime_table::PrimeTable;
use vstd::pervasive::unreached;
use vstd::prelude::*;

verus! {

/// The name of a pitch class, counted from A.
pub open spec fn name_of(class: int) -> Seq<char> {
    if class == 0 {
        seq!['A']
    } else if class == 1 {
        seq!['B', 'b']
    } else if class == 2 {
        seq!['B']
    } else if class == 3 {
        seq!['C']
    } else if class == 4 {
        seq!['C', '#']
    } else if class == 5 {
        seq!['D']
    } else if class == 6 {
        seq!['E', 'b']
    } else if class == 7 {
        seq!['E']
    } else if class == 8 {
        seq!['F']
    } else if class == 9 {
        seq!['F', '#']
    } else if class == 10 {
        seq!['G']
    } else {
        seq!['G', '#']
    }
}

/// The name of a pitch class: A, Bb, B, C, C#, D, Eb, E, F, F#, G, G#.
pub fn semitone_name(class: usize) -> (name: &'static str)
    requires
        class < 12,
    ensures
        name@ == name_of(class as int),
{
    proof {
        reveal_strlit("A");
        reveal_strlit("Bb");
        reveal_strlit("B");
        reveal_strlit("C");
        reveal_strlit("C#");
        reveal_strlit("D");
        reveal_strlit("Eb");
        reveal_strlit("E");
        reveal_strlit("F");
        reveal_strlit("F#");
        reveal_strlit("G");
        reveal_strlit("G#");
    }
    let name: &'static str = if class == 0 {
        "A"
    } else if class == 1 {
        "Bb"
    } else if class == 2 {
        "B"
    } else if class == 3 {
        "C"
    } else if class == 4 {
        "C#"
    } else if class == 5 {
        "D"
    } else if class == 6 {
        "Eb"
    } else if class == 7 {
        "E"
    } else if class == 8 {
        "F"
    } else if class == 9 {
        "F#"
    } else if class == 10 {
        "G"
    } else {
        "G#"
    };
    assert(name@ =~= name_of(class as int));
    name
}

/// Whether entry zero of a monzo counts the octaves that the primes above
/// two span: with it, 5/4 is `[0, 0, 1]` rather than `[-2, 0, 1]`.
pub const USE_OCT_RED_MONZOS: bool = true;

/// Why a tuning cannot be built.
#[derive(Clone, Copy, Debug, PartialEq, Eq, Structural)]
pub enum TuningError {
    /// The ratio of this class has a prime factor that the table lacks.
    PrimeOutOfTable { class: usize },
    /// The bend that this class needs is beyond the device's range.
    BendOutOfRange { class: usize },
    /// The ratio of this class, moved by the offset, cannot be held.
    RatioOverflow { class: usize },
}

/// The tuning of the twelve classes from `time` on.
#[derive(Clone, Debug)]
pub struct TuningData {
    /// The ratio of each class to the A below it. A sentinel leaves the
    /// class as it was tuned before.
    pub tuning: [Interval; 12],
    /// When the tuning begins, in microseconds.
    pub time: u64,
    /// The ratios as monzos; none for a sentinel.
    pub monzos: [Option<Monzo>; 12],
    /// The bend of each class's channel; none for a sentinel.
    pub pitch_bends: [Option<i16>; 12],
    /// The bend of each class's channel as the message to send; none for a
    /// sentinel.
    pub midi_messages: [Option<Vec<u8>>; 12],
}

/// The ratio is a pitch, and a prime factor of it is missing from the table.
pub open spec fn uncovered(iv: Interval, primes: Seq<int>) -> bool {
    !iv.sentinel() && !(covered(iv.num(), primes) && covered(iv.den(), primes))
}

/// The ratio is a pitch of `cents` microcents that the bend of its class
/// cannot reach.
pub open spec fn out_of_reach(iv: Interval, class: int, cents: int) -> bool {
    !iv.sentinel() && !in_range(offset_of(class, cents), PB_RANGE as int)
}

/// What is derived for one class: nothing for a sentinel; else the monzo of
/// the ratio, the bend for its size, and that bend as a message on the
/// channel of the class.
pub open spec fn class_derived(
    iv: Interval,
    class: int,
    cents: int,
    primes: Seq<int>,
    monzo: Option<Monzo>,
    bend: Option<i16>,
    message: Option<Vec<u8>>,
) -> bool {
    if iv.sentinel() {
        monzo is None && bend is None && message is None
    } else {
        &&& monzo matches Some(m) && exponents(m@) == monzo_of(iv, primes, USE_OCT_RED_MONZOS)
        &&& bend == Some(bend_of(offset_of(class, cents), PB_RANGE as int) as i16)
        &&& message matches Some(raw) && raw@ == (ChannelMessage::PitchBend {
            bend: bend_of(offset_of(class, cents), PB_RANGE as int) as i16,
        }).wire(class as u8)
    }
}

/// The outcome of building the tuning of `tuning` at `time`, where
/// `cents[c]` is the size of `tuning[c]` in microcents. A missing prime is
/// reported before a bend out of range, and each for the lowest class that
/// has it.
pub open spec fn built(
    tuning: Seq<Interval>,
    cents: Seq<i64>,
    time: u64,
    primes: Seq<int>,
    r: Result<TuningData, TuningError>,
) -> bool {
    match r {
        Err(TuningError::PrimeOutOfTable { class }) => {
            &&& class < 12
            &&& uncovered(tuning[class as int], primes)
            &&& forall|c: int| 0 <= c < class ==> !uncovered(#[trigger] tuning[c], primes)
        },
        Err(TuningError::BendOutOfRange { class }) => {
            &&& class < 12
            &&& forall|c: int| 0 <= c < 12 ==> !uncovered(#[trigger] tuning[c], primes)
            &&& out_of_reach(tuning[class as int], class as int, cents[class as int] as int)
            &&& forall|c: int| 0 <= c < class ==> !out_of_reach(#[trigger] tuning[c], c, cents[c] as int)
        },
        Err(TuningError::RatioOverflow { .. }) => false,
        Ok(data) => {
            &&& forall|c: int| 0 <= c < 12 ==> !uncovered(#[trigger] tuning[c], primes)
            &&& forall|c: int| 0 <= c < 12 ==> !out_of_reach(#[trigger] tuning[c], c, cents[c] as int)
            &&& data.tuning@ == tuning
            &&& data.time == time
            &&& forall|c: int|
                0 <= c < 12 ==> class_derived(
                    #[trigger] tuning[c],
                    c,
                    cents[c] as int,
                    primes,
                    data.monzos@[c],
                    data.pitch_bends@[c],
                    data.midi_messages@[c],
                )
        },
    }
}

/// The last class below `class` that is no sentinel, or -1.
pub open spec fn last_tuned(tuning: Seq<Interval>, class: int) -> int
    decreases class,
{
    if class <= 0 {
        -1
    } else if !tuning[class - 1].sentinel() {
        class - 1
    } else {
        last_tuned(tuning, class - 1)
    }
}

/// The class is tuned, and lower than the class tuned before it.
pub open spec fn is_descent(tuning: Seq<Interval>, class: int) -> bool {
    &&& !tuning[class].sentinel()
    &&& last_tuned(tuning, class) >= 0
    &&& tuning[class].smaller(&tuning[last_tuned(tuning, class)])
}

/// Where no prime of a tuned class is missing, building a tuning fails exactly when
/// the bend of some tuned class is beyond the range of the device, and then
/// with that error: a bend is never held to the range in silence.
pub proof fn law_bend_decides(
    tuning: Seq<Interval>,
    cents: Seq<i64>,
    time: u64,
    primes: Seq<int>,
    r: Result<TuningData, TuningError>,
)
    requires
        built(tuning, cents, time, primes, r),
        forall|c: int| 0 <= c < 12 ==> !uncovered(#[trigger] tuning[c], primes),
    ensures
        r is Err <==> exists|c: int|
            0 <= c < 12 && out_of_reach(#[trigger] tuning[c], c, cents[c] as int),
        r matches Err(e) ==> e is BendOutOfRange,
{
    match r {
        Err(TuningError::BendOutOfRange { class }) => {
            assert(out_of_reach(tuning[class as int], class as int, cents[class as int] as int));
        },
        _ => {},
    }
}

/// A tuning that was built from well-formed ratios is well formed.
proof fn lemma_built_is_wf(
    tuning: Seq<Interval>,
    cents: Seq<i64>,
    time: u64,
    table: &PrimeTable,
    data: TuningData,
)
    requires
        table.wf(),
        forall|c: int| 0 <= c < 12 ==> (#[trigger] tuning[c]).wf(),
        data.tuning@ == tuning,
        forall|c: int|
            0 <= c < 12 ==> class_derived(
                #[trigger] tuning[c],
                c,
                cents[c] as int,
                table@,
                data.monzos@[c],
                data.pitch_bends@[c],
                data.midi_messages@[c],
            ),
    ensures
        data.wf(),
{
    assert forall|c: int| 0 <= c < 12 implies {
        &&& (#[trigger] data.tuning@[c]).wf()
        &&& data.monzos@[c] is Some <==> !data.tuning@[c].sentinel()
        &&& data.pitch_bends@[c] is Some <==> !data.tuning@[c].sentinel()
        &&& data.midi_messages@[c] is Some <==> !data.tuning@[c].sentinel()
        &&& data.monzos@[c] matches Some(m) ==> (m@.len() >= 1 ==> -MAX_OCTAVES <= m@[0]
            <= MAX_OCTAVES)
        &&& data.midi_messages@[c] matches Some(raw) ==> data.pitch_bends@[c] matches Some(b)
            && raw@ == (ChannelMessage::PitchBend { bend: b }).wire(c as u8)
    } by {
        let iv = tuning[c];
        assert(iv.wf());
        assert(class_derived(
            iv,
            c,
            cents[c] as int,
            table@,
            data.monzos@[c],
            data.pitch_bends@[c],
            data.midi_messages@[c],
        ));
        if !iv.sentinel() {
            lemma_monzo_bounds(iv, table, USE_OCT_RED_MONZOS);
            let m = data.monzos@[c]->Some_0;
            let held = monzo_of(iv, table@, USE_OCT_RED_MONZOS);
            assert(exponents(m@) == held);
            assert(exponents(m@).len() == m@.len());
            if m@.len() >= 1 {
                assert(exponents(m@)[0] == m@[0]);
                assert(-MAX_OCTAVES <= held[0] <= MAX_OCTAVES);
            }
        }
    }
}

impl TuningData {
    /// What holds of every tuning that [`TuningData::new`] builds, whatever
    /// the table: the ratios are well formed; a class has a monzo, a bend
    /// and a message exactly when it is no sentinel; the message is the
    /// bend on the channel of the class; and the monzo leaves room for the
    /// octaves of a note.
    pub open spec fn wf(&self) -> bool {
        forall|c: int|
            0 <= c < 12 ==> {
                &&& (#[trigger] self.tuning@[c]).wf()
                &&& self.monzos@[c] is Some <==> !self.tuning@[c].sentinel()
                &&& self.pitch_bends@[c] is Some <==> !self.tuning@[c].sentinel()
                &&& self.midi_messages@[c] is Some <==> !self.tuning@[c].sentinel()
                &&& self.monzos@[c] matches Some(m) ==> (m@.len() >= 1 ==> -MAX_OCTAVES
                    <= m@[0] <= MAX_OCTAVES)
                &&& self.midi_messages@[c] matches Some(raw) ==> self.pitch_bends@[c] matches Some(
                    b,
                ) && raw@ == (ChannelMessage::PitchBend { bend: b }).wire(c as u8)
            }
    }

    /// The tuning of the twelve classes from `time` microseconds on.
    ///
    /// `tuning[c]` is the ratio of class `c` to the A below it, or the
    /// sentinel to leave the class as it is; `cents[c]` is the size of that
    /// ratio in microcents, and is not read for a sentinel. The monzos are
    /// taken over `primes`, the bends for a device with a range of
    /// [`PB_RANGE`] semitones.
    ///
    /// A tuning with a prime outside the table or with a bend out of range
    /// is a fault of the caller: it must not be handed in. Where the caller
    /// cannot know, [`TuningData::try_new`] tells.
    pub fn new(tuning: [Interval; 12], cents: [i64; 12], time: u64, primes: &PrimeTable) -> (data:
        TuningData)
        requires
            primes.wf(),
            forall|c: int| 0 <= c < 12 ==> (#[trigger] tuning@[c]).wf(),
            forall|c: int| 0 <= c < 12 ==> !uncovered(#[trigger] tuning@[c], primes@),
            forall|c: int|
                0 <= c < 12 ==> !out_of_reach(#[trigger] tuning@[c], c, cents@[c] as int),
        ensures
            built(tuning@, cents@, time, primes@, Ok(data)),
            data.wf(),
    {
        match Self::try_new(tuning, cents, time, primes) {
            Ok(data) => data,
            Err(e) => {
                proof {
                    match e {
                        TuningError::PrimeOutOfTable { class } => {
                            assert(!uncovered(tuning@[class as int], primes@));
                        },
                        TuningError::BendOutOfRange { class } => {
                            assert(!out_of_reach(
                                tuning@[class as int],
                                class as int,
                                cents@[class as int] as int,
                            ));
                        },
                        TuningError::RatioOverflow { .. } => {},
                    }
                }
                unreached()
            },
        }
    }

    /// The tuning of the twelve classes from `time` microseconds on, as
    /// [`TuningData::new`] builds it, or the reason why there is none: a
    /// prime factor that the table lacks, or a bend beyond the range of the
    /// device. A bend is never held to the range in silence.
    pub fn try_new(tuning: [Interval; 12], cents: [i64; 12], time: u64, primes: &PrimeTable) -> (r:
        Result<TuningData, TuningError>)
        requires
            primes.wf(),
            forall|c: int| 0 <= c < 12 ==> (#[trigger] tuning@[c]).wf(),
        ensures
            built(tuning@, cents@, time, primes@, r),
            r matches Ok(data) ==> data.wf(),
    {
        let mut monzos: [Option<Monzo>; 12] = [
            None,
            None,
            None,
            None,
            None,
            None,
            None,
            None,
            None,
            None,
            None,
            None,
        ];
        let mut i: usize = 0;
        while i < 12
            invariant
                0 <= i <= 12,
                primes.wf(),
                forall|c: int| 0 <= c < 12 ==> (#[trigger] tuning@[c]).wf(),
                forall|c: int| 0 <= c < i ==> !uncovered(#[trigger] tuning@[c], primes@),
                forall|c: int|
                    0 <= c < i ==> if (#[trigger] tuning@[c]).sentinel() {
                        monzos@[c] is None
                    } else {
                        monzos@[c] matches Some(m) && exponents(m@) == monzo_of(
                            tuning@[c],
                            primes@,
                            USE_OCT_RED_MONZOS,
                        )
                    },
                forall|c: int| i <= c < 12 ==> #[trigger] monzos@[c] is None,
            decreases 12 - i,
        {
            if !tuning[i].is_sentinel() {
                match tuning[i].monzo(primes, USE_OCT_RED_MONZOS) {
                    Some(m) => {
                        monzos[i] = Some(m);
                    },
                    None => {
                        return Err(TuningError::PrimeOutOfTable { class: i });
                    },
                }
            }
            i = i + 1;
        }
        let mut pitch_bends: [Option<i16>; 12] = [None; 12];
        let mut midi_messages: [Option<Vec<u8>>; 12] = [
            None,
            None,
            None,
            None,
            None,
            None,
            None,
            None,
            None,
            None,
            None,
            None,
        ];
        let mut i: usize = 0;
        while i < 12
            invariant
                0 <= i <= 12,
                forall|c: int| 0 <= c < 12 ==> !uncovered(#[trigger] tuning@[c], primes@),
                forall|c: int|
                    0 <= c < 12 ==> if (#[trigger] tuning@[c]).sentinel() {
                        monzos@[c] is None
                    } else {
                        monzos@[c] matches Some(m) && exponents(m@) == monzo_of(
                            tuning@[c],
                            primes@,
                            USE_OCT_RED_MONZOS,
                        )
                    },
                forall|c: int|
                    0 <= c < i ==> !out_of_reach(#[trigger] tuning@[c], c, cents@[c] as int),
                forall|c: int|
                    0 <= c < i ==> if (#[trigger] tuning@[c]).sentinel() {
                        pitch_bends@[c] is None && midi_messages@[c] is None
                    } else {
                        &&& pitch_bends@[c] == Some(
                            bend_of(offset_of(c, cents@[c] as int), PB_RANGE as int) as i16,
                        )
                        &&& midi_messages@[c] matches Some(raw) && raw@ == (
                        ChannelMessage::PitchBend {
                            bend: bend_of(offset_of(c, cents@[c] as int), PB_RANGE as int) as i16,
                        }).wire(c as u8)
                    },
                forall|c: int|
                    i <= c < 12 ==> #[trigger] pitch_bends@[c] is None && midi_messages@[c] is None,
            decreases 12 - i,
        {
            if !tuning[i].is_sentinel() {
                match pitch_bend(i, cents[i], PB_RANGE) {
                    Some(b) => {
                        pitch_bends[i] = Some(b);
                        midi_messages[i] = Some(pitch_bend_message(i as u8, b));
                    },
                    None => {
                        return Err(TuningError::BendOutOfRange { class: i });
                    },
                }
            }
            i = i + 1;
        }
        let data = TuningData { tuning, time, monzos, pitch_bends, midi_messages };
        proof {
            lemma_built_is_wf(tuning@, cents@, time, primes, data);
        }
        Ok(data)
    }

    /// The classes whose pitch lies below that of the class tuned before
    /// them, in ascending order. The ratios of a tuning are meant to ascend
    /// with the classes, so that a class listed here hints at a slip of the
    /// pen; it is no fault of the tuning.
    pub fn descents(&self) -> (out: Vec<usize>)
        requires
            self.wf(),
        ensures
            forall|k: int| 0 <= k < out@.len() ==> is_descent(self.tuning@, #[trigger] out@[k] as int),
            forall|k: int, l: int| 0 <= k < l < out@.len() ==> #[trigger] out@[k] < #[trigger] out@[l],
            forall|c: int| 0 <= c < 12 && is_descent(self.tuning@, c) ==> out@.contains(c as usize),
    {
        let mut out: Vec<usize> = Vec::new();
        let mut prev: Option<usize> = None;
        let mut i: usize = 0;
        while i < 12
            invariant
                0 <= i <= 12,
                self.wf(),
                match prev {
                    Some(j) => j == last_tuned(self.tuning@, i as int),
                    None => last_tuned(self.tuning@, i as int) == -1,
                },
                -1 <= last_tuned(self.tuning@, i as int) < i,
                forall|k: int|
                    0 <= k < out@.len() ==> out@[k] < i && is_descent(
                        self.tuning@,
                        #[trigger] out@[k] as int,
                    ),
                forall|k: int, l: int|
                    0 <= k < l < out@.len() ==> #[trigger] out@[k] < #[trigger] out@[l],
                forall|c: int|
                    0 <= c < i && is_descent(self.tuning@, c) ==> out@.contains(c as usize),
            decreases 12 - i,
        {
            let ghost before = out@;
            if !self.tuning[i].is_sentinel() {
                if let Some(j) = prev {
                    assert(self.tuning@[j as int].wf());
                    if self.tuning[i].less_than(&self.tuning[j]) {
                        out.push(i);
                    }
                }
                prev = Some(i);
            }
            proof {
                assert forall|c: int| 0 <= c < i + 1 && is_descent(self.tuning@, c) implies out@.contains(
                    c as usize,
                ) by {
                    if c < i {
                        let k = choose|k: int| 0 <= k < before.len() && before[k] == c as usize;
                        assert(out@[k] == c as usize);
                    } else {
                        assert(out@[out@.len() - 1] == i);
                    }
                }
            }
            i = i + 1;
        }
        out
    }
}

/// `out` is `a` moved by `offset`, and an octave lower where the class has
/// wrapped past the twelfth semitone.
pub open spec fn is_moved(out: Interval, a: Interval, offset: Interval, wrapped: bool) -> bool {
    &&& out.wf()
    &&& out.num() * (a.den() * offset.den() * (if wrapped {
        2int
    } else {
        1int
    })) == a.num() * offset.num() * out.den()
}

/// `a` moved by `offset` can be held, and its half too where it is needed.
pub open spec fn movable(a: Interval, offset: Interval, wrapped: bool) -> bool {
    &&& representable(a.num() * offset.num(), a.den() * offset.den())
    &&& wrapped ==> representable(a.num() * offset.num(), a.den() * offset.den() * 2)
}

/// The outcome of moving a tuning that is written from `root` upwards to
/// the classes counted from A: entry `i` goes to class `(i + root) mod 12`,
/// times `offset`, and an octave down from the twelfth semitone on. The
/// first entry that cannot be held is reported, under its class.
pub open spec fn transposed(
    tuning: Seq<Interval>,
    offset: Interval,
    root: int,
    r: Result<[Interval; 12], TuningError>,
) -> bool {
    match r {
        Ok(out) => forall|i: int|
            0 <= i < 12 ==> movable(#[trigger] tuning[i], offset, i + root >= 12) && is_moved(
                out@[(i + root) % 12],
                tuning[i],
                offset,
                i + root >= 12,
            ),
        Err(TuningError::RatioOverflow { class }) => exists|i: int|
            {
                &&& 0 <= i < 12
                &&& class == (i + root) % 12
                &&& !movable(#[trigger] tuning[i], offset, i + root >= 12)
                &&& forall|j: int| 0 <= j < i ==> movable(#[trigger] tuning[j], offset, j + root >= 12)
            },
        Err(_) => false,
    }
}

/// A fraction that can be held can be held however it is written.
proof fn lemma_representable_equal(n1: int, d1: int, n2: int, d2: int)
    requires
        d1 > 0,
        d2 > 0,
        n1 * d2 == n2 * d1,
        representable(n1, d1),
    ensures
        representable(n2, d2),
{
    let (p, q) = choose|p: int, q: int| #[trigger] fits_as(p, q, n1, d1);
    assert(p * d2 == n2 * q) by (nonlinear_arith)
        requires
            p * d1 == n1 * q,
            n1 * d2 == n2 * d1,
            d1 > 0,
    ;
    assert(fits_as(p, q, n2, d2));
}

/// The half of a product, from the product and its half.
proof fn lemma_moved_half(q: Interval, p: Interval, a: Interval, offset: Interval)
    requires
        p.wf(),
        a.wf(),
        offset.wf(),
        p.num() * (a.den() * offset.den()) == (a.num() * offset.num()) * p.den(),
        q.num() * (p.den() * 2) == p.num() * q.den(),
    ensures
        q.num() * (a.den() * offset.den() * 2) == a.num() * offset.num() * q.den(),
{
    let (qn, qd, pn, pd) = (q.num(), q.den(), p.num(), p.den());
    let d = a.den() * offset.den();
    let n = a.num() * offset.num();
    assert(qn * (d * 2) == n * qd) by (nonlinear_arith)
        requires
            pn * d == n * pd,
            qn * (pd * 2) == pn * qd,
            pd > 0,
    ;
}

/// Moves a tuning that is written from `root` upwards to the classes
/// counted from A.
///
/// Entry `i` of `tuning` belongs to class `(i + root) mod 12` and is
/// multiplied by `offset`. The entries ascend from the root, so an entry
/// that wraps past the twelfth semitone is lowered by an octave. A sentinel
/// stays a sentinel.
pub fn transpose(root: u8, offset: &Interval, tuning: &[Interval; 12]) -> (r: Result<
    [Interval; 12],
    TuningError,
>)
    requires
        root < 12,
        offset.wf(),
        forall|i: int| 0 <= i < 12 ==> (#[trigger] tuning@[i]).wf(),
    ensures
        transposed(tuning@, *offset, root as int, r),
{
    let mut out: [Interval; 12] = [Interval::keep(); 12];
    let mut i: usize = 0;
    while i < 12
        invariant
            0 <= i <= 12,
            root < 12,
            offset.wf(),
            forall|j: int| 0 <= j < 12 ==> (#[trigger] tuning@[j]).wf(),
            forall|j: int|
                0 <= j < i ==> movable(#[trigger] tuning@[j], *offset, j + root >= 12) && is_moved(
                    out@[(j + root) % 12],
                    tuning@[j],
                    *offset,
                    j + root >= 12,
                ),
        decreases 12 - i,
    {
        let semitone: usize = i + root as usize;
        let a: Interval = tuning[i];
        let ghost n = a.num() * offset.num();
        let ghost d = a.den() * offset.den();
        proof {
            assert(d > 0) by (nonlinear_arith)
                requires
                    d == a.den() * offset.den(),
                    a.den() > 0,
                    offset.den() > 0,
            ;
        }
        let p: Interval = match a.multiply(offset) {
            Some(p) => p,
            None => {
                return Err(TuningError::RatioOverflow { class: semitone % 12 });
            },
        };
        proof {
            let (pn, pd) = (p.num(), p.den());
            assert(pn * (d * 2) == n * (pd * 2) && n * (pd * 2) == pn * (d * 2)) by (nonlinear_arith)
                requires
                    pn * d == n * pd,
            ;
        }
        let moved: Interval = if semitone >= 12 {
            match p.halve() {
                Some(q) => {
                    proof {
                        lemma_representable_equal(p.num(), p.den() * 2, n, d * 2);
                        lemma_moved_half(q, p, a, *offset);
                    }
                    q
                },
                None => {
                    proof {
                        if representable(n, d * 2) {
                            lemma_representable_equal(n, d * 2, p.num(), p.den() * 2);
                        }
                    }
                    return Err(TuningError::RatioOverflow { class: semitone % 12 });
                },
            }
        } else {
            p
        };
        let ghost before = out@;
        out[semitone % 12] = moved;
        proof {
            assert forall|j: int| 0 <= j < i + 1 implies movable(
                #[trigger] tuning@[j],
                *offset,
                j + root >= 12,
            ) && is_moved(out@[(j + root) % 12], tuning@[j], *offset, j + root >= 12) by {
                if j < i {
                    assert(out@[(j + root) % 12] == before[(j + root) % 12]);
                }
            }
        }
        i = i + 1;
    }
    Ok(out)
}

/// The tuning, from `time` microseconds on, that is written from `root`
/// upwards and moved by `offset`.
///
/// `root` is the class, counted from A, of the first entry of `tuning`;
/// `offset` moves every entry, 1/1 for none. `cents[c]` is the size in
/// microcents of what class `c` is tuned to in the end: of
/// [`transpose`]`(root, offset, tuning)[c]`.
///
/// A tuning that cannot be moved, or that comes out with a prime outside
/// the table or with a bend out of range, is a fault of the caller: it must
/// not be handed in. Where the caller cannot know, [`try_td`] tells.
pub fn td(
    time: u64,
    root: u8,
    offset: Interval,
    tuning: [Interval; 12],
    cents: [i64; 12],
    primes: &PrimeTable,
) -> (data: TuningData)
    requires
        root < 12,
        offset.wf(),
        primes.wf(),
        forall|i: int| 0 <= i < 12 ==> (#[trigger] tuning@[i]).wf(),
        forall|moved: Result<[Interval; 12], TuningError>|
            #[trigger] transposed(tuning@, offset, root as int, moved) ==> (moved matches Ok(
                absolute,
            ) && (forall|c: int| 0 <= c < 12 ==> !uncovered(#[trigger] absolute@[c], primes@))
                && (forall|c: int|
                0 <= c < 12 ==> !out_of_reach(#[trigger] absolute@[c], c, cents@[c] as int))),
    ensures
        exists|absolute: [Interval; 12]|
            #[trigger] transposed(tuning@, offset, root as int, Ok(absolute)) && built(
                absolute@,
                cents@,
                time,
                primes@,
                Ok(data),
            ),
        data.wf(),
{
    match try_td(time, root, offset, tuning, cents, primes) {
        Ok(data) => {
            proof {
                let moved = choose|moved: Result<[Interval; 12], TuningError>|
                    transposed(tuning@, offset, root as int, moved) && match moved {
                        Ok(absolute) => built(
                            absolute@,
                            cents@,
                            time,
                            primes@,
                            Ok::<TuningData, TuningError>(data),
                        ),
                        Err(e) => Ok::<TuningData, TuningError>(data) == Err::<
                            TuningData,
                            TuningError,
                        >(e),
                    };
                let absolute = moved->Ok_0;
                assert(transposed(tuning@, offset, root as int, Ok(absolute)));
            }
            data
        },
        Err(e) => {
            proof {
                let r = Err::<TuningData, TuningError>(e);
                let moved = choose|moved: Result<[Interval; 12], TuningError>|
                    transposed(tuning@, offset, root as int, moved) && match moved {
                        Ok(absolute) => built(absolute@, cents@, time, primes@, r),
                        Err(e) => r == Err::<TuningData, TuningError>(e),
                    };
                let absolute = moved->Ok_0;
                match e {
                    TuningError::PrimeOutOfTable { class } => {
                        assert(!uncovered(absolute@[class as int], primes@));
                    },
                    TuningError::BendOutOfRange { class } => {
                        assert(!out_of_reach(
                            absolute@[class as int],
                            class as int,
                            cents@[class as int] as int,
                        ));
                    },
                    TuningError::RatioOverflow { .. } => {},
                }
            }
            unreached()
        },
    }
}

/// The tuning that [`td`] builds, or the reason why there is none: the
/// first entry that cannot be moved, a prime factor that the table lacks,
/// or a bend beyond the range of the device.
pub fn try_td(
    time: u64,
    root: u8,
    offset: Interval,
    tuning: [Interval; 12],
    cents: [i64; 12],
    primes: &PrimeTable,
) -> (r: Result<TuningData, TuningError>)
    requires
        root < 12,
        offset.wf(),
        primes.wf(),
        forall|i: int| 0 <= i < 12 ==> (#[trigger] tuning@[i]).wf(),
    ensures
        exists|moved: Result<[Interval; 12], TuningError>|
            transposed(tuning@, offset, root as int, moved) && match moved {
                Ok(absolute) => built(absolute@, cents@, time, primes@, r),
                Err(e) => r == Err::<TuningData, TuningError>(e),
            },
        r matches Ok(data) ==> data.wf(),
{
    let moved: Result<[Interval; 12], TuningError> = transpose(root, &offset, &tuning);
    match moved {
        Ok(absolute) => {
            proof {
                assert forall|c: int| 0 <= c < 12 implies (#[trigger] absolute@[c]).wf() by {
                    let i = (c + 12 - root) % 12;
                    assert((i + root) % 12 == c);
                    assert(is_moved(absolute@[(i + root) % 12], tuning@[i], offset, i + root >= 12));
                }
            }
            TuningData::try_new(absolute, cents, time, primes)
        },
        Err(e) => Err(e),
    }
}

/// The tuning leaves some class as it was.
pub open spec fn holds_sentinel(data: TuningData) -> bool {
    exists|c: int| 0 <= c < 12 && (#[trigger] data.tuning@[c]).sentinel()
}

/// Why a schedule cannot be built.
#[derive(Clone, Copy, Debug, PartialEq, Eq, Structural)]
pub enum ScheduleError {
    /// There is no tuning at all.
    Empty,
    /// The earliest tuning leaves a class as it was, and nothing was
    /// before.
    SentinelInFirst,
}

/// The index of the first entry that is not earlier than `time`, where the
/// entries before it are; the length where all are earlier.
pub open spec fn slot_for(s: Seq<TuningData>, time: u64) -> int
    decreases s.len(),
{
    if s.len() == 0 || s[0].time >= time {
        0
    } else {
        1 + slot_for(s.drop_first(), time)
    }
}

/// The entries in the order of their times; entries of one time stay in
/// the order in which they came.
pub open spec fn sort_by_time(s: Seq<TuningData>) -> Seq<TuningData>
    decreases s.len(),
{
    if s.len() == 0 {
        s
    } else {
        let rest = sort_by_time(s.drop_first());
        rest.insert(slot_for(rest, s[0].time), s[0])
    }
}

/// No entry is earlier than the one before it.
pub open spec fn ascending(s: Seq<TuningData>) -> bool {
    forall|i: int, j: int| 0 <= i <= j < s.len() ==> (#[trigger] s[i]).time <= (#[trigger] s[j]).time
}

/// The first entry that is earlier than the one before it, if there is one.
pub open spec fn first_disorder(s: Seq<TuningData>) -> Option<int> {
    if exists|i: int| is_first_disorder(s, i) {
        Some(choose|i: int| is_first_disorder(s, i))
    } else {
        None
    }
}

/// Entry `i` is earlier than the one before it, and no entry before `i` is.
pub open spec fn is_first_disorder(s: Seq<TuningData>, i: int) -> bool {
    &&& 1 <= i < s.len()
    &&& s[i].time < s[i - 1].time
    &&& forall|j: int| 1 <= j < i ==> (#[trigger] s[j]).time >= s[j - 1].time
}

/// The entry that falls due at `time` when the last one applied is at
/// `position` (-1 for none): the next one, once its time is reached.
pub open spec fn due(entries: Seq<TuningData>, position: int, time: u64) -> Option<int> {
    if 0 <= position + 1 < entries.len() && time >= entries[position + 1].time {
        Some(position + 1)
    } else {
        None
    }
}

/// The position after a query at `time`.
pub open spec fn advance(entries: Seq<TuningData>, position: int, time: u64) -> int {
    match due(entries, position, time) {
        Some(next) => next,
        None => position,
    }
}

proof fn lemma_slot_for(s: Seq<TuningData>, time: u64, k: int)
    requires
        0 <= k <= s.len(),
        forall|i: int| 0 <= i < k ==> (#[trigger] s[i]).time < time,
        k < s.len() ==> s[k].time >= time,
    ensures
        slot_for(s, time) == k,
    decreases k,
{
    if k > 0 {
        let rest = s.drop_first();
        assert(s[0].time < time);
        assert forall|i: int| 0 <= i < k - 1 implies (#[trigger] rest[i]).time < time by {
            assert(rest[i] == s[i + 1]);
        }
        if k - 1 < rest.len() {
            assert(rest[k - 1] == s[k]);
        }
        lemma_slot_for(rest, time, k - 1);
    }
}

/// The slot for a time is an index, the entries before it are earlier and
/// the entry at it is not.
proof fn lemma_slot_bounds(s: Seq<TuningData>, time: u64)
    ensures
        0 <= slot_for(s, time) <= s.len(),
        forall|i: int| 0 <= i < slot_for(s, time) ==> (#[trigger] s[i]).time < time,
        slot_for(s, time) < s.len() ==> s[slot_for(s, time)].time >= time,
    decreases s.len(),
{
    if !(s.len() == 0 || s[0].time >= time) {
        let rest = s.drop_first();
        lemma_slot_bounds(rest, time);
        assert forall|i: int| 0 <= i < slot_for(s, time) implies (#[trigger] s[i]).time < time by {
            if i > 0 {
                assert(rest[i - 1] == s[i]);
            }
        }
        if slot_for(s, time) < s.len() {
            assert(rest[slot_for(rest, time)] == s[slot_for(s, time)]);
        }
    }
}

/// An entry put into an ascending list behind the entries that are earlier
/// than it, and before one that is not, leaves the list ascending.
proof fn lemma_insert_keeps_ascending(s: Seq<TuningData>, k: int, x: TuningData)
    requires
        ascending(s),
        0 <= k <= s.len(),
        forall|i: int| 0 <= i < k ==> (#[trigger] s[i]).time < x.time,
        k < s.len() ==> s[k].time >= x.time,
    ensures
        ascending(s.insert(k, x)),
{
    let out = s.insert(k, x);
    assert forall|i: int, j: int| 0 <= i <= j < out.len() implies (#[trigger] out[i]).time <= (
    #[trigger] out[j]).time by {
        if i < k && j > k {
            assert(s[i].time <= s[j - 1].time);
        } else if i < k && j < k {
            assert(s[i].time <= s[j].time);
        } else if i > k {
            assert(s[i - 1].time <= s[j - 1].time);
        } else if i == k && j > k {
            assert(s[k].time <= s[j - 1].time);
        }
    }
}

/// Sorting keeps every entry, as often as it came, and puts the entries in
/// ascending order of time.
pub proof fn law_sort_orders_and_keeps(s: Seq<TuningData>)
    ensures
        ascending(sort_by_time(s)),
        sort_by_time(s).to_multiset() == s.to_multiset(),
        sort_by_time(s).len() == s.len(),
    decreases s.len(),
{
    broadcast use vstd::seq_lib::group_to_multiset_ensures;

    if s.len() == 0 {
    } else {
        let rest = sort_by_time(s.drop_first());
        let x = s[0];
        let k = slot_for(rest, x.time);
        law_sort_orders_and_keeps(s.drop_first());
        lemma_slot_bounds(rest, x.time);
        let out = rest.insert(k, x);
        lemma_insert_keeps_ascending(rest, k, x);
        assert(s =~= seq![x] + s.drop_first());
        vstd::seq_lib::lemma_multiset_commutative(seq![x], s.drop_first());
        assert(seq![x] =~= Seq::<TuningData>::empty().push(x));
        assert(seq![x].to_multiset() =~= vstd::multiset::Multiset::<TuningData>::empty().insert(x));
        assert(out.to_multiset() =~= s.to_multiset());
    }
}

/// A list in ascending order of time is its own sorting.
pub proof fn law_sort_leaves_order(s: Seq<TuningData>)
    requires
        ascending(s),
    ensures
        sort_by_time(s) == s,
    decreases s.len(),
{
    if s.len() > 0 {
        let rest = s.drop_first();
        assert forall|i: int, j: int| 0 <= i <= j < rest.len() implies (#[trigger] rest[i]).time <= (
        #[trigger] rest[j]).time by {
            assert(rest[i] == s[i + 1] && rest[j] == s[j + 1]);
        }
        law_sort_leaves_order(rest);
        if rest.len() > 0 {
            assert(rest[0] == s[1]);
            assert(s[0].time <= s[1].time);
        }
        assert(slot_for(rest, s[0].time) == 0);
        assert(rest.insert(0, s[0]) =~= s);
    }
}

/// The position never moves back, and an entry is handed out once. A query
/// that brings no entry into force leaves the position where it is, so that
/// the same query again brings none either. A query that brings an entry
/// into force moves the position to it, by one; whatever a later query
/// brings lies behind it; and the same query again brings nothing unless
/// the time has reached the entry that follows.
pub proof fn law_update_once(entries: Seq<TuningData>, position: int, time: u64, later: u64)
    requires
        -1 <= position < entries.len(),
    ensures
        position <= advance(entries, position, time) <= position + 1,
        advance(entries, position, time) < entries.len(),
        due(entries, position, time) is None ==> advance(entries, position, time) == position
            && due(entries, advance(entries, position, time), time) is None,
        due(entries, position, time) matches Some(j) ==> {
            &&& j == position + 1
            &&& advance(entries, position, time) == j
            &&& due(entries, j, later) matches Some(k) ==> k == j + 1
            &&& (j + 1 < entries.len() ==> time < entries[j + 1].time) ==> due(entries, j, time)
                is None
        },
{
}

/// The tunings of a piece in the order of their times, and the place that
/// playback has reached in them.
pub struct Tuner {
    /// The last entry that was applied.
    cursor: Option<usize>,
    /// The entries, in ascending order of time.
    tunings: Vec<TuningData>,
    /// The first entry that was handed over out of order.
    disorder: Option<usize>,
}

impl Tuner {
    /// The entries in the order of their times.
    pub closed spec fn entries(&self) -> Seq<TuningData> {
        self.tunings@
    }

    /// The index of the last entry that was applied, -1 before the first.
    pub closed spec fn position(&self) -> int {
        match self.cursor {
            Some(c) => c as int,
            None => -1,
        }
    }

    /// The index, in the list that the schedule was made from, of the first
    /// entry that was earlier than the one before it.
    pub closed spec fn disorder(&self) -> Option<int> {
        match self.disorder {
            Some(i) => Some(i as int),
            None => None,
        }
    }

    /// There is an entry, every entry is well formed, the times ascend, the
    /// first entry tunes every class, and the position is -1 or an index.
    pub open spec fn wf(&self) -> bool {
        &&& self.entries().len() >= 1
        &&& forall|i: int| 0 <= i < self.entries().len() ==> (#[trigger] self.entries()[i]).wf()
        &&& ascending(self.entries())
        &&& !holds_sentinel(self.entries()[0])
        &&& -1 <= self.position() < self.entries().len()
    }

    /// Time has not gone back behind the entry that was applied last.
    pub open spec fn accepts(&self, time: u64) -> bool {
        self.position() < 0 || time >= self.entries()[self.position()].time
    }

    /// The schedule of `tunings`, with nothing applied yet.
    ///
    /// Tunings that are out of order are put in the order of their times,
    /// and [`Tuner::first_disorder`] tells where. An empty list, and a list
    /// whose earliest tuning holds a sentinel, are faults of the caller:
    /// they must not be handed in. Where the caller cannot know,
    /// [`Tuner::try_new`] tells.
    pub fn new(tunings: Vec<TuningData>) -> (tuner: Tuner)
        requires
            forall|i: int| 0 <= i < tunings@.len() ==> (#[trigger] tunings@[i]).wf(),
            tunings@.len() > 0,
            !holds_sentinel(sort_by_time(tunings@)[0]),
        ensures
            tuner.wf(),
            tuner.position() == -1,
            tuner.entries() == sort_by_time(tunings@),
            tuner.disorder() == first_disorder(tunings@),
    {
        match Self::try_new(tunings) {
            Ok(tuner) => tuner,
            Err(_) => unreached(),
        }
    }

    /// The schedule that [`Tuner::new`] builds, or the reason why there is
    /// none: an empty list is refused, and so is a list whose earliest
    /// tuning holds a sentinel, for nothing comes before it that a class
    /// could keep.
    pub fn try_new(tunings: Vec<TuningData>) -> (r: Result<Tuner, ScheduleError>)
        requires
            forall|i: int| 0 <= i < tunings@.len() ==> (#[trigger] tunings@[i]).wf(),
        ensures
            match r {
                Err(ScheduleError::Empty) => tunings@.len() == 0,
                Err(ScheduleError::SentinelInFirst) => tunings@.len() > 0 && holds_sentinel(
                    sort_by_time(tunings@)[0],
                ),
                Ok(tuner) => {
                    &&& tunings@.len() > 0
                    &&& !holds_sentinel(sort_by_time(tunings@)[0])
                    &&& tuner.wf()
                    &&& tuner.position() == -1
                    &&& tuner.entries() == sort_by_time(tunings@)
                    &&& tuner.disorder() == first_disorder(tunings@)
                },
            },
    {
        if tunings.len() == 0 {
            return Err(ScheduleError::Empty);
        }
        let mut disorder: Option<usize> = None;
        let mut i: usize = 1;
        while i < tunings.len()
            invariant_except_break
                1 <= i <= tunings@.len(),
                disorder is None,
                forall|j: int| 1 <= j < i ==> (#[trigger] tunings@[j]).time >= tunings@[j - 1].time,
            ensures
                match disorder {
                    Some(i) => is_first_disorder(tunings@, i as int),
                    None => forall|j: int|
                        1 <= j < tunings@.len() ==> (#[trigger] tunings@[j]).time >= tunings@[j
                            - 1].time,
                },
            decreases tunings@.len() - i,
        {
            if tunings[i].time < tunings[i - 1].time {
                disorder = Some(i);
                break ;
            }
            i = i + 1;
        }
        proof {
            match disorder {
                Some(i) => {
                    let w = choose|w: int| is_first_disorder(tunings@, w);
                    if w < i {
                        assert(tunings@[w].time >= tunings@[w - 1].time);
                    } else if i < w {
                        assert(tunings@[i as int].time >= tunings@[i - 1].time);
                    }
                },
                None => {
                    if exists|w: int| is_first_disorder(tunings@, w) {
                        let w = choose|w: int| is_first_disorder(tunings@, w);
                        assert(tunings@[w].time >= tunings@[w - 1].time);
                    }
                },
            }
        }
        let ghost input = tunings@;
        let mut rest: Vec<TuningData> = tunings;
        let mut sorted: Vec<TuningData> = Vec::new();
        proof {
            assert(input.subrange(input.len() as int, input.len() as int) =~= Seq::<
                TuningData,
            >::empty());
        }
        while rest.len() > 0
            invariant
                rest@ =~= input.subrange(0, rest@.len() as int),
                rest@.len() <= input.len(),
                sorted@ == sort_by_time(input.subrange(rest@.len() as int, input.len() as int)),
                sorted@.len() == input.len() - rest@.len(),
                forall|i: int| 0 <= i < input.len() ==> (#[trigger] input[i]).wf(),
                forall|i: int| 0 <= i < sorted@.len() ==> (#[trigger] sorted@[i]).wf(),
                ascending(sorted@),
            decreases rest@.len(),
        {
            let ghost tail = input.subrange(rest@.len() as int, input.len() as int);
            let x: TuningData = match rest.pop() {
                Some(x) => x,
                None => {
                    assert(false);
                    return Err(ScheduleError::Empty);
                },
            };
            let mut k: usize = 0;
            while k < sorted.len() && sorted[k].time < x.time
                invariant
                    0 <= k <= sorted@.len(),
                    forall|i: int| 0 <= i < k ==> (#[trigger] sorted@[i]).time < x.time,
                decreases sorted@.len() - k,
            {
                k = k + 1;
            }
            proof {
                lemma_slot_for(sorted@, x.time, k as int);
                let longer = input.subrange(rest@.len() as int, input.len() as int);
                assert(longer.drop_first() =~= tail);
                assert(longer[0] == x);
                assert(x.wf());
            }
            let ghost before = sorted@;
            sorted.insert(k, x);
            proof {
                lemma_insert_keeps_ascending(before, k as int, x);
                assert forall|i: int| 0 <= i < sorted@.len() implies (#[trigger] sorted@[i]).wf() by {
                    if i < k {
                        assert(sorted@[i] == before[i]);
                    } else if i > k {
                        assert(sorted@[i] == before[i - 1]);
                    }
                }
            }
        }
        proof {
            assert(input.subrange(0, input.len() as int) =~= input);
        }
        let mut c: usize = 0;
        while c < 12
            invariant
                0 <= c <= 12,
                input == tunings@,
                input.len() > 0,
                sorted@.len() > 0,
                sorted@ == sort_by_time(input),
                forall|k: int| 0 <= k < c ==> !(#[trigger] sorted@[0].tuning@[k]).sentinel(),
            decreases 12 - c,
        {
            if sorted[0].tuning[c].is_sentinel() {
                assert(sorted@[0].tuning@[c as int].sentinel());
                return Err(ScheduleError::SentinelInFirst);
            }
            c = c + 1;
        }
        Ok(Tuner { cursor: None, tunings: sorted, disorder })
    }

    /// The entry that falls due at `time` microseconds, if one does.
    ///
    /// Before anything was applied, this is the first entry, once its time
    /// has come. After that it is the entry behind the one applied last,
    /// once its time has come: one step at a call, however far `time` has
    /// run. Time must not run backwards.
    pub fn update(&mut self, time: u64) -> (r: Option<&TuningData>)
        requires
            old(self).wf(),
            old(self).accepts(time),
        ensures
            final(self).wf(),
            final(self).entries() == old(self).entries(),
            final(self).disorder() == old(self).disorder(),
            final(self).position() == advance(old(self).entries(), old(self).position(), time),
            match due(old(self).entries(), old(self).position(), time) {
                Some(next) => r == Some(&old(self).entries()[next]),
                None => r is None,
            },
    {
        let len: usize = self.tunings.len();
        let next: usize = match self.cursor {
            Some(c) => c + 1,
            None => 0,
        };
        if next < len && time >= self.tunings[next].time {
            self.cursor = Some(next);
            return Some(&self.tunings[next]);
        }
        None
    }

    /// The number of entries.
    pub fn len(&self) -> (n: usize)
        ensures
            n == self.entries().len(),
    {
        self.tunings.len()
    }

    /// The entry at `index`, in the order of time.
    pub fn index(&self, index: usize) -> (entry: &TuningData)
        requires
            index < self.entries().len(),
        ensures
            *entry == self.entries()[index as int],
    {
        &self.tunings[index]
    }

    /// The index of the entry that was applied last.
    pub fn current(&self) -> (r: Option<usize>)
        ensures
            match r {
                Some(c) => c == self.position(),
                None => self.position() == -1,
            },
    {
        self.cursor
    }

    /// The index, in the list that the schedule was made from, of the first
    /// entry that was earlier than the one before it; `None` where the list
    /// was in order.
    pub fn first_disorder(&self) -> (r: Option<usize>)
        ensures
            match r {
                Some(i) => self.disorder() == Some(i as int),
                None => self.disorder() is None,
            },
    {
        self.disorder
    }

    /// Whether a query at `time` keeps to the order of time.
    pub fn accepts_time(&self, time: u64) -> (r: bool)
        requires
            self.wf(),
        ensures
            r == self.accepts(time),
    {
        match self.cursor {
            None => true,
            Some(c) => time >= self.tunings[c].time,
        }
    }
}

} // verus!
