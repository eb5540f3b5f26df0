//! From the size of an interval in cents to the pitch bend of its channel.
//!
//! Sizes are whole numbers of microcents, so nothing here rounds: a size is
//! in range or it is not.

use vstd::prelude::*;

verus! {

/// The bend range of the output device, in semitones up and down.
pub const PB_RANGE: u16 = 4;

/// The size of the equal-tempered interval from A to the class, in
/// microcents: a hundred cents, which are a hundred million microcents, for
/// each semitone.
pub open spec fn reference_of(class: int) -> int {
    100_000_000 * class
}

/// How far a class tuned to `cents` microcents lies from its
/// equal-tempered place.
pub open spec fn offset_of(class: int, cents: int) -> int {
    cents - reference_of(class)
}

/// The offset, in microcents, that a full bend reaches.
pub open spec fn full_bend(range: int) -> int {
    100_000_000 * range
}

/// The offset divided by a hundred cents and by the range lies in [-1, 1].
pub open spec fn in_range(offset: int, range: int) -> bool {
    -full_bend(range) <= offset <= full_bend(range)
}

/// Division that drops the fraction, towards zero.
pub open spec fn trunc_div(a: int, b: int) -> int {
    if a >= 0 {
        a / b
    } else {
        -((-a) / b)
    }
}

/// The bend for an offset: the offset as a fraction of the full bend, in
/// steps of 1/8192, the fraction dropped, and held to what fourteen bits
/// allow. A range of zero bends nothing.
pub open spec fn bend_of(offset: int, range: int) -> int {
    if range <= 0 {
        0
    } else {
        let steps = trunc_div(offset * 8192, full_bend(range));
        if steps > 8191 {
            8191
        } else if steps < -8192 {
            -8192
        } else {
            steps
        }
    }
}

/// The bend that tunes `class` to an interval of `cents` microcents on a
/// device whose bend reaches `range` semitones. `None` exactly when the
/// interval is out of the device's reach.
pub fn pitch_bend(class: usize, cents: i64, range: u16) -> (r: Option<i16>)
    ensures
        r is Some <==> in_range(offset_of(class as int, cents as int), range as int),
        r matches Some(b) ==> b == bend_of(offset_of(class as int, cents as int), range as int),
{
    let offset: i128 = cents as i128 - 100_000_000i128 * (class as i128);
    let full: i128 = 100_000_000i128 * (range as i128);
    if offset < -full || offset > full {
        return None;
    }
    if range == 0 {
        return Some(0);
    }
    let negative: bool = offset < 0;
    let magnitude: u128 = if negative {
        (-offset) as u128
    } else {
        offset as u128
    };
    let steps: u128 = magnitude * 8192 / (full as u128);
    proof {
        let m = magnitude as int;
        let f = full as int;
        assert(m * 8192 / f <= 8192) by (nonlinear_arith)
            requires
                0 <= m <= f,
                f > 0,
        ;
        if negative {
            assert((-offset) * 8192 == -(offset * 8192)) by (nonlinear_arith);
            assert(offset * 8192 < 0) by (nonlinear_arith)
                requires
                    offset < 0,
            ;
        } else {
            assert(offset * 8192 >= 0) by (nonlinear_arith)
                requires
                    offset >= 0,
            ;
        }
    }
    let bend: i16 = if negative {
        -(steps as i16)
    } else if steps > 8191 {
        8191
    } else {
        steps as i16
    };
    Some(bend)
}

} // verus!
