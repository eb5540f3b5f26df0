//! What the visualizer is told, and how it is written on the wire.

use crate::monzo::{exponents, Monzo};
use vstd::prelude::*;
use vstd::string::StringExecFns;

verus! {

/// One message to the lattice visualizer.
#[derive(Clone, Debug, PartialEq, Eq)]
pub enum VisualizerMessage {
    NoteOn {
        /// Semitones of twelve-tone equal temperament from A4 to the note.
        edosteps_from_a4: i32,
        /// Note velocity.
        velocity: u8,
        /// The ratio of the note to A4.
        monzo: Monzo,
    },
    NoteOff { edosteps_from_a4: i32, velocity: u8 },
    CC { controller: u8, value: u8 },
}

/// A message as plain mathematical values.
pub enum VisualizerMessageView {
    NoteOn { edosteps_from_a4: int, velocity: int, monzo: Seq<int> },
    NoteOff { edosteps_from_a4: int, velocity: int },
    CC { controller: int, value: int },
}

impl View for VisualizerMessage {
    type V = VisualizerMessageView;

    open spec fn view(&self) -> VisualizerMessageView {
        match self {
            VisualizerMessage::NoteOn {
                edosteps_from_a4,
                velocity,
                monzo,
            } => VisualizerMessageView::NoteOn {
                edosteps_from_a4: *edosteps_from_a4 as int,
                velocity: *velocity as int,
                monzo: exponents(monzo@),
            },
            VisualizerMessage::NoteOff {
                edosteps_from_a4,
                velocity,
            } => VisualizerMessageView::NoteOff {
                edosteps_from_a4: *edosteps_from_a4 as int,
                velocity: *velocity as int,
            },
            VisualizerMessage::CC { controller, value } => VisualizerMessageView::CC {
                controller: *controller as int,
                value: *value as int,
            },
        }
    }
}

impl VisualizerMessageView {
    /// The line that carries the message: its kind, then its fields in
    /// decimal, with colons between, and for a note-on the exponents of
    /// the monzo at the end.
    pub open spec fn text(self) -> Seq<char> {
        match self {
            VisualizerMessageView::NoteOn { edosteps_from_a4, velocity, monzo } => seq![
                'o',
                'n',
                ':',
            ] + decimal(edosteps_from_a4) + seq![':'] + decimal(velocity) + seq![':'] + joined(
                monzo,
            ),
            VisualizerMessageView::NoteOff { edosteps_from_a4, velocity } => seq![
                'o',
                'f',
                'f',
                ':',
            ] + decimal(edosteps_from_a4) + seq![':'] + decimal(velocity),
            VisualizerMessageView::CC { controller, value } => seq!['c', 'c', ':'] + decimal(
                controller,
            ) + seq![':'] + decimal(value),
        }
    }
}

/// The character of a decimal digit.
pub open spec fn digit(d: int) -> char {
    if d == 0 {
        '0'
    } else if d == 1 {
        '1'
    } else if d == 2 {
        '2'
    } else if d == 3 {
        '3'
    } else if d == 4 {
        '4'
    } else if d == 5 {
        '5'
    } else if d == 6 {
        '6'
    } else if d == 7 {
        '7'
    } else if d == 8 {
        '8'
    } else {
        '9'
    }
}

/// A natural number in decimal digits, without leading zeros.
pub open spec fn decimal_nat(n: nat) -> Seq<char>
    decreases n,
{
    if n < 10 {
        seq![digit(n as int)]
    } else {
        decimal_nat(n / 10).push(digit((n % 10) as int))
    }
}

/// An integer in decimal digits, with a minus sign where it is negative.
pub open spec fn decimal(n: int) -> Seq<char> {
    if n < 0 {
        seq!['-'] + decimal_nat((-n) as nat)
    } else {
        decimal_nat(n as nat)
    }
}

/// The numbers in decimal, with a colon between each two.
pub open spec fn joined(m: Seq<int>) -> Seq<char>
    decreases m.len(),
{
    if m.len() == 0 {
        Seq::empty()
    } else if m.len() == 1 {
        decimal(m[0])
    } else {
        joined(m.drop_last()) + seq![':'] + decimal(m.last())
    }
}

impl VisualizerMessage {
    /// The message as the line of text to send.
    pub fn render(&self) -> (line: String)
        ensures
            line@ == self@.text(),
    {
        let mut line: String = String::new();
        match self {
            VisualizerMessage::NoteOn { edosteps_from_a4, velocity, monzo } => {
                proof {
                    reveal_strlit("on:");
                    reveal_strlit(":");
                }
                line.append("on:");
                push_decimal(&mut line, *edosteps_from_a4 as i64);
                line.append(":");
                push_decimal(&mut line, *velocity as i64);
                line.append(":");
                let ghost head = line@;
                let mut i: usize = 0;
                while i < monzo.len()
                    invariant
                        0 <= i <= monzo@.len(),
                        line@ == head + joined(exponents(monzo@).subrange(0, i as int)),
                    decreases monzo@.len() - i,
                {
                    let ghost done = exponents(monzo@).subrange(0, i as int);
                    let ghost more = exponents(monzo@).subrange(0, i + 1);
                    proof {
                        reveal_strlit(":");
                        assert(more.drop_last() =~= done);
                        assert(more.last() == monzo@[i as int]);
                    }
                    if i > 0 {
                        line.append(":");
                    }
                    push_decimal(&mut line, monzo[i] as i64);
                    proof {
                        if i == 0 {
                            assert(done =~= Seq::<int>::empty());
                            assert(line@ =~= head + joined(more));
                        } else {
                            assert(line@ =~= head + joined(more));
                        }
                    }
                    i = i + 1;
                }
                proof {
                    assert(exponents(monzo@).subrange(0, monzo@.len() as int) =~= exponents(monzo@));
                    assert(line@ =~= self@.text());
                }
            },
            VisualizerMessage::NoteOff { edosteps_from_a4, velocity } => {
                proof {
                    reveal_strlit("off:");
                    reveal_strlit(":");
                }
                line.append("off:");
                push_decimal(&mut line, *edosteps_from_a4 as i64);
                line.append(":");
                push_decimal(&mut line, *velocity as i64);
                proof {
                    assert(line@ =~= self@.text());
                }
            },
            VisualizerMessage::CC { controller, value } => {
                proof {
                    reveal_strlit("cc:");
                    reveal_strlit(":");
                }
                line.append("cc:");
                push_decimal(&mut line, *controller as i64);
                line.append(":");
                push_decimal(&mut line, *value as i64);
                proof {
                    assert(line@ =~= self@.text());
                }
            },
        }
        line
    }
}

/// The text of one decimal digit.
fn digit_str(d: u64) -> (s: &'static str)
    requires
        d < 10,
    ensures
        s@ == seq![digit(d as int)],
{
    proof {
        reveal_strlit("0");
        reveal_strlit("1");
        reveal_strlit("2");
        reveal_strlit("3");
        reveal_strlit("4");
        reveal_strlit("5");
        reveal_strlit("6");
        reveal_strlit("7");
        reveal_strlit("8");
        reveal_strlit("9");
    }
    let s: &'static str = if d == 0 {
        "0"
    } else if d == 1 {
        "1"
    } else if d == 2 {
        "2"
    } else if d == 3 {
        "3"
    } else if d == 4 {
        "4"
    } else if d == 5 {
        "5"
    } else if d == 6 {
        "6"
    } else if d == 7 {
        "7"
    } else if d == 8 {
        "8"
    } else {
        "9"
    };
    assert(s@ =~= seq![digit(d as int)]);
    s
}

/// Appends a natural number in decimal.
fn push_decimal_nat(line: &mut String, n: u64)
    ensures
        final(line)@ == old(line)@ + decimal_nat(n as nat),
    decreases n,
{
    if n >= 10 {
        push_decimal_nat(line, n / 10);
    }
    line.append(digit_str(n % 10));
    proof {
        if n >= 10 {
            assert(line@ =~= old(line)@ + decimal_nat(n as nat));
        } else {
            assert(line@ =~= old(line)@ + decimal_nat(n as nat));
        }
    }
}

/// Appends an integer in decimal.
fn push_decimal(line: &mut String, n: i64)
    requires
        n > i64::MIN,
    ensures
        final(line)@ == old(line)@ + decimal(n as int),
{
    if n < 0 {
        proof {
            reveal_strlit("-");
        }
        line.append("-");
        push_decimal_nat(line, (-n) as u64);
        proof {
            assert(line@ =~= old(line)@ + decimal(n as int));
        }
    } else {
        push_decimal_nat(line, n as u64);
    }
}

} // verus!
