//! When counters of scrolling and drawing are written out: about twice a second,
//! while there is something to tell.
use vstd::prelude::*;

verus! {

/// How long a window of counters lasts, in milliseconds.
pub const WINDOW_MS: u64 = 500;

/// What is counted in a window and makes it worth writing out.
#[derive(Clone, Copy, Debug, PartialEq, Eq)]
pub struct ScrollCounts {
    pub events: u64,
    pub subline_paints: u64,
    pub line_snaps: u64,
    pub peek_fetches: u64,
    pub paint_calls: u64,
}

/// What is due for the window that began at `last_ms`, where 0 stands for none.
#[derive(Clone, Copy, Debug, PartialEq, Eq, Structural)]
pub enum StatsStep {
    /// The first window begins.
    Begin,
    /// The window goes on.
    Wait,
    /// The window, which lasted so many milliseconds, ends, and the next begins.
    End(u64),
}

/// What is due at `now_ms` for the window that began at `last_ms`.
pub fn stats_step(now_ms: u64, last_ms: u64) -> (r: StatsStep)
    ensures
        r == if last_ms == 0 {
            StatsStep::Begin
        } else if now_ms - last_ms < WINDOW_MS {
            StatsStep::Wait
        } else {
            StatsStep::End((now_ms - last_ms) as u64)
        },
        r is End <==> last_ms != 0 && now_ms >= last_ms + 500,
        r matches StatsStep::End(lasted) ==> last_ms + lasted == now_ms,
{
    if last_ms == 0 {
        StatsStep::Begin
    } else if now_ms < last_ms || now_ms - last_ms < WINDOW_MS {
        StatsStep::Wait
    } else {
        StatsStep::End(now_ms - last_ms)
    }
}

impl ScrollCounts {
    /// Whether anything was counted.
    pub fn any(self) -> (r: bool)
        ensures
            r == (self.events != 0 || self.subline_paints != 0 || self.line_snaps != 0
                || self.peek_fetches != 0 || self.paint_calls != 0),
    {
        self.events != 0 || self.subline_paints != 0 || self.line_snaps != 0 || self.peek_fetches
            != 0 || self.paint_calls != 0
    }
}

} // verus!
