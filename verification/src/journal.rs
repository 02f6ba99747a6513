//! What a run writes down about its passes, so that a crash leaves evidence.
//!
//! A pass says when it starts and when it stops. The question a crash report
//! has to answer is whether two passes were running at once, and that is only
//! visible if both ends of each are recorded and the overlap is counted rather
//! than inferred from timestamps. This module decides the lines; the caller
//! times the pass and hands them to its logger.
use vstd::prelude::*;

use crate::text::{chars_of, concat, decimal, decimal_of, string_of};

verus! {

/// How loudly a line is logged.
#[derive(Debug, Clone, Copy, PartialEq, Eq)]
pub enum Level {
    Info,
    Warn,
    Error,
}

/// One line for the log.
#[derive(Debug, Clone, PartialEq, Eq)]
pub struct Line {
    pub level: Level,
    pub text: String,
}

/// The passes in flight.
pub struct Journal {
    live: usize,
}

/// The line a pass opens with: a warning naming how many others are already
/// running when it overlaps them.
pub open spec fn start_line(live: nat, name: Seq<char>) -> (Level, Seq<char>) {
    if live > 0 {
        (Level::Warn, name + " starts while "@ + decimal(live) + " already running"@)
    } else {
        (Level::Info, name + " starts"@)
    }
}

/// The line a pass closes with: how it ended and how long it took, or an
/// error when it ended without an outcome, which only a panic or a dropped
/// future reaches.
pub open spec fn end_line(name: Seq<char>, outcome: Option<Seq<char>>, seconds: Seq<char>) -> (Level, Seq<char>) {
    match outcome {
        Some(o) => (Level::Info, name + " "@ + o + " after "@ + seconds + "s"@),
        None => (Level::Error, name + " ended without an outcome after "@ + seconds + "s"@),
    }
}

/// A line as the contracts see it.
pub open spec fn line_view(l: Line) -> (Level, Seq<char>) {
    (l.level, l.text@)
}

/// What a finished pass reports, outcome first.
pub open spec fn describe_text<T>(result: Result<T, String>) -> Seq<char> {
    match result {
        Ok(_) => "finished"@,
        Err(e) => "failed: "@ + e@,
    }
}

fn text_of(parts: &Vec<Vec<char>>) -> (r: String)
    ensures
        r@ == parts@.fold_left(Seq::<char>::empty(), |acc: Seq<char>, p: Vec<char>| acc + p@),
{
    let mut out: Vec<char> = Vec::new();
    let mut i: usize = 0;
    while i < parts.len()
        invariant
            i <= parts@.len(),
            out@ == parts@.take(i as int).fold_left(Seq::<char>::empty(), |acc: Seq<char>, p: Vec<char>| acc + p@),
        decreases parts@.len() - i,
    {
        out = concat(&out, &parts[i]);
        proof {
            assert(parts@.take(i + 1).drop_last() =~= parts@.take(i as int));
        }
        i = i + 1;
    }
    proof {
        assert(parts@.take(parts@.len() as int) =~= parts@);
    }
    string_of(&out)
}

impl Journal {
    /// How many passes are in flight.
    pub closed spec fn live(&self) -> nat {
        self.live as nat
    }

    /// How many passes are in flight.
    pub fn in_flight(&self) -> (r: usize)
        ensures
            r == self.live(),
    {
        self.live
    }

    pub fn new() -> (r: Journal)
        ensures
            r.live() == 0,
    {
        Journal { live: 0 }
    }

    /// A pass starts: it is counted, and its line says whether it overlaps
    /// others.
    pub fn start(&mut self, name: &str) -> (r: Line)
        requires
            old(self).live() < usize::MAX,
        ensures
            final(self).live() == old(self).live() + 1,
            line_view(r) == start_line(old(self).live(), name@),
    {
        let others = self.live;
        self.live = self.live + 1;
        let mut parts: Vec<Vec<char>> = Vec::new();
        parts.push(chars_of(name));
        if others > 0 {
            parts.push(chars_of(" starts while "));
            parts.push(decimal_of(others as u64));
            parts.push(chars_of(" already running"));
            let text = text_of(&parts);
            proof {
                reveal_with_fuel(Seq::fold_left, 5);
            }
            Line { level: Level::Warn, text }
        } else {
            parts.push(chars_of(" starts"));
            let text = text_of(&parts);
            proof {
                reveal_with_fuel(Seq::fold_left, 3);
            }
            Line { level: Level::Info, text }
        }
    }

    /// A pass ends, with its outcome if it reached one and its duration as
    /// the caller rendered it. The lines say how it ended and, while others
    /// are still in flight, how many.
    pub fn end(&mut self, name: &str, outcome: Option<&str>, seconds: &str) -> (r: Vec<Line>)
        requires
            old(self).live() >= 1,
        ensures
            final(self).live() == old(self).live() - 1,
            r@.len() == if final(self).live() > 0 { 2int } else { 1int },
            line_view(r@[0]) == end_line(
                name@,
                match outcome {
                    Some(o) => Some(o@),
                    None => None,
                },
                seconds@,
            ),
            final(self).live() > 0 ==> line_view(r@[1]) == (Level::Info, "still running: "@ + decimal(final(self).live())),
    {
        self.live = self.live - 1;
        let mut parts: Vec<Vec<char>> = Vec::new();
        parts.push(chars_of(name));
        let level = match outcome {
            Some(outcome) => {
                parts.push(chars_of(" "));
                parts.push(chars_of(outcome));
                parts.push(chars_of(" after "));
                Level::Info
            },
            None => {
                parts.push(chars_of(" ended without an outcome after "));
                Level::Error
            },
        };
        parts.push(chars_of(seconds));
        parts.push(chars_of("s"));
        let text = text_of(&parts);
        proof {
            reveal_with_fuel(Seq::fold_left, 7);
        }
        let mut lines: Vec<Line> = Vec::new();
        lines.push(Line { level, text });
        if self.live > 0 {
            let mut parts: Vec<Vec<char>> = Vec::new();
            parts.push(chars_of("still running: "));
            parts.push(decimal_of(self.live as u64));
            let text = text_of(&parts);
            proof {
                reveal_with_fuel(Seq::fold_left, 3);
            }
            lines.push(Line { level: Level::Info, text });
        }
        lines
    }
}

/// The outcome a pass records: the error text, because a failure that reached
/// the window is worth reading here too, and the window shows it once.
pub fn describe<T>(result: &Result<T, String>) -> (r: String)
    ensures
        r@ == describe_text(*result),
{
    match result {
        Ok(_) => string_of(&chars_of("finished")),
        Err(error) => string_of(&concat(&chars_of("failed: "), &chars_of(error.as_str()))),
    }
}

} // verus!
