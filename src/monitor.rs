//! The state kept from one poll to the next, and the checks made before the
//! first poll.
use vstd::prelude::*;
use crate::sample::Sample;
use crate::display::{Line, lines_for, plain_line, shows};
use crate::text::{decimal_milli, parse_milli};

verus! {

/// Why collecting a sample failed.
#[derive(Clone, Copy, Debug, PartialEq, Eq, Structural)]
pub enum CollectorError {
    /// A sensor tool could not be started or exited with a failure.
    ProcessFailed,
    /// The sensor tool's output was not valid JSON.
    ParseFailed,
}

/// Why a polling interval was refused.
#[derive(Clone, Copy, Debug, PartialEq, Eq, Structural)]
pub enum IntervalError {
    /// The interval is below one second.
    TooShort,
}

/// The interval in milliseconds that `text` asks for, one second where it is
/// no number.
pub open spec fn interval_millis(text: Seq<char>) -> int {
    match decimal_milli(text) {
        Some(v) => v,
        None => 1000,
    }
}

/// The polling interval in milliseconds that the argument `text` gives: its
/// value in seconds, one second where it is no number, refused below one
/// second.
pub fn parse_interval(text: &str) -> (r: Result<u64, IntervalError>)
    ensures
        interval_millis(text@) < 1000 ==> r == Err::<u64, IntervalError>(IntervalError::TooShort),
        interval_millis(text@) >= 1000 ==> r == Ok::<u64, IntervalError>(interval_millis(text@) as u64),
{
    let m = match parse_milli(text) {
        Some(v) => v,
        None => 1000,
    };
    if m < 1000 {
        Err(IntervalError::TooShort)
    } else {
        Ok(m as u64)
    }
}

/// The monitor between polls: whether changes are shown, and the sample kept
/// from the last poll for that.
pub struct Monitor {
    pub delta_mode: bool,
    pub previous: Sample,
}

impl Monitor {
    pub open spec fn wf(&self) -> bool {
        self.previous.wf()
    }

    /// A monitor before its first poll: nothing kept yet.
    pub fn new(delta_mode: bool) -> (r: Monitor)
        ensures
            r.wf(),
            r.delta_mode == delta_mode,
            r.previous@.len() == 0,
    {
        Monitor { delta_mode, previous: Sample::new() }
    }

    /// Takes the sample of a poll: returns the lines that show it, with the
    /// change since the kept sample where changes are shown and one is kept,
    /// and keeps the new sample where changes are shown.
    pub fn step(&mut self, current: Sample) -> (r: Vec<Line>)
        requires
            old(self).wf(),
            current.wf(),
        ensures
            final(self).wf(),
            final(self).delta_mode == old(self).delta_mode,
            final(self).previous@ == if old(self).delta_mode {
                current@
            } else {
                old(self).previous@
            },
            r.len() == current@.len(),
            forall|j: int|
                0 <= j < r.len() ==> shows(
                    #[trigger] r@[j],
                    current@[j],
                    old(self).previous@,
                    old(self).delta_mode && old(self).previous@.len() > 0,
                ),
            forall|j: int| 0 <= j < r.len() ==> plain_line(#[trigger] r@[j]),
    {
        let lines = lines_for(&current, &self.previous, self.delta_mode);
        if self.delta_mode {
            self.previous = current;
        }
        lines
    }
}

} // verus!
