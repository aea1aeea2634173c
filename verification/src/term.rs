//! When a progress line is redrawn, and how a progress bar is laid out.
//!
//! Times are nanoseconds on a clock that the caller reads; the caller does
//! the drawing.
use vstd::prelude::*;

use crate::fmt::{ilog10, log10_floor};

verus! {

/// Redraw interval of the status line: 20 ms (50 per second).
pub const TICK: u64 = 20_000_000;

/// Redraw interval of the progress bar: 1/60 s.
pub const BAR_TICK: u64 = 1_000_000_000 / 60;

/// Whether a redraw is due at `now`, the last one having been at `last`
/// (never, for `None`).
pub open spec fn due(last: Option<u64>, now: u64, tick: u64) -> bool {
    match last {
        None => true,
        Some(t) => now >= t && now - t >= tick,
    }
}

/// A status line that is redrawn at most once a tick.
pub struct Progress {
    /// The redraw interval.
    pub tick: u64,
    /// When it was last redrawn.
    pub last: Option<u64>,
}

impl Progress {
    /// A status line redrawn at most once every `tick` nanoseconds; its
    /// first update is drawn at once.
    pub fn new(tick: u64) -> (p: Progress)
        ensures
            p.tick == tick,
            p.last is None,
    {
        Progress { tick, last: None }
    }

    /// Takes an update at `now` and says whether to draw it (a tick or more
    /// after the last drawing, or the first time).
    pub fn update(&mut self, now: u64) -> (draw: bool)
        ensures
            draw == due(old(self).last, now, old(self).tick),
            final(self).tick == old(self).tick,
            final(self).last == if draw {
                Some(now)
            } else {
                old(self).last
            },
    {
        let draw = match self.last {
            None => true,
            Some(t) => now >= t && now - t >= self.tick,
        };
        if draw {
            self.last = Some(now);
        }
        draw
    }
}

/// The glyphs that draw the partly filled cell of a bar.
#[derive(Clone, Copy, PartialEq, Eq, Structural, Debug)]
pub enum BarGlyphs {
    /// Eighth blocks (U+2589 to U+258F, a left block `rem` eighths wide
    /// being U+2590 less `rem`): 8 steps per cell.
    Eighths,
    /// Shades (U+2591 to U+2593): 4 steps per cell.
    Shades,
}

/// Steps per cell.
pub open spec fn steps(g: BarGlyphs) -> nat {
    match g {
        BarGlyphs::Eighths => 8,
        BarGlyphs::Shades => 4,
    }
}

/// Cells of a bar.
pub const BAR_WIDTH: usize = 50;

/// How a bar at `cur` of `max` is drawn.
#[derive(Clone, Copy, PartialEq, Eq, Structural, Debug)]
pub struct BarLayout {
    /// Cells drawn full.
    pub filled: usize,
    /// Steps of the partly filled cell (0: none).
    pub rem: usize,
    /// Cells after the full ones (the partly filled one among them).
    pub empty: usize,
    /// The last byte of the UTF-8 encoding of the partly filled cell's
    /// glyph (the first two are `E2 96`).
    pub glyph: u8,
    /// Whether the count has reached the maximum.
    pub done: bool,
    /// The percentage shown.
    pub pct: usize,
    /// The width of the count, the digits of the maximum.
    pub pad: usize,
}

/// `max`, but at least 1.
pub open spec fn floor1(max: usize) -> nat {
    if max < 1 {
        1
    } else {
        max as nat
    }
}

/// `cur`, but at most `floor1(max)`.
pub open spec fn clamped(cur: usize, max: usize) -> nat {
    if cur as nat > floor1(max) {
        floor1(max)
    } else {
        cur as nat
    }
}

/// The layout of a bar at `cur` of `max`.
pub open spec fn bar_layout_of(cur: usize, max: usize, g: BarGlyphs) -> BarLayout {
    let m = floor1(max) as int;
    let c = clamped(cur, max) as int;
    let k = steps(g) as int;
    let n = k * 50 * c / m;
    let rem = n % k;
    BarLayout {
        filled: (n / k) as usize,
        rem: rem as usize,
        empty: (50 - n / k) as usize,
        glyph: match g {
            BarGlyphs::Eighths => (0x90 - rem) as u8,
            BarGlyphs::Shades => (0x90 + rem) as u8,
        },
        done: c == m,
        pct: (100 * c / m) as usize,
        pad: (log10_floor(m as nat) + 1) as usize,
    }
}

/// Lays out a bar at `cur` of `max`: the count is held to the maximum, and
/// a maximum of 0 is taken as 1.
pub fn bar_layout(cur: usize, max: usize, g: BarGlyphs) -> (b: BarLayout)
    requires
        steps(g) * BAR_WIDTH * clamped(cur, max) <= usize::MAX,
    ensures
        b == bar_layout_of(cur, max, g),
        b.filled + b.empty == BAR_WIDTH,
        b.rem < steps(g),
        b.pct <= 100,
        b.pct == 100 <==> b.done,
{
    let n_steps: usize = match g {
        BarGlyphs::Eighths => 8,
        BarGlyphs::Shades => 4,
    };
    let max1 = if max < 1 {
        1
    } else {
        max
    };
    let cur1 = if cur > max1 {
        max1
    } else {
        cur
    };
    proof {
        let (c, m, k) = (cur1 as int, max1 as int, n_steps as int);
        assert(k * 50 * c <= k * 50 * m) by (nonlinear_arith)
            requires
                0 <= c <= m,
                k >= 0,
        ;
        assert(k * 50 * c / m <= k * 50) by (nonlinear_arith)
            requires
                0 <= k * 50 * c <= k * 50 * m,
                m >= 1,
        ;
        assert(100 * c / m <= 100) by (nonlinear_arith)
            requires
                c <= m,
                m >= 1,
        ;
        assert(100 * c / m == 100 ==> c == m) by (nonlinear_arith)
            requires
                0 <= c <= m,
                m >= 1,
        ;
        assert(c == m ==> 100 * c / m == 100) by (nonlinear_arith)
            requires
                m >= 1,
        ;
        assert(100 * c <= k * 50 * c) by (nonlinear_arith)
            requires
                k >= 4,
                c >= 0,
        ;
        assert((k * 50 * c / m) / k <= 50) by (nonlinear_arith)
            requires
                k * 50 * c / m <= k * 50,
                k >= 4,
        ;
    }
    let n = n_steps * BAR_WIDTH * cur1 / max1;
    let filled = n / n_steps;
    let rem = n % n_steps;
    let empty = BAR_WIDTH - filled;
    let glyph: u8 = match g {
        BarGlyphs::Eighths => 0x90 - rem as u8,
        BarGlyphs::Shades => 0x90 + rem as u8,
    };
    let done = cur1 == max1;
    let pct = 100 * cur1 / max1;
    let pad = ilog10(max1 as u64) as usize + 1;
    BarLayout { filled, rem, empty, glyph, done, pct, pad }
}

/// A bar showing how far a count has come to a maximum.
pub struct ProgressBar {
    /// The count.
    pub cur: usize,
    /// The maximum.
    pub max: usize,
    /// When it was last redrawn.
    pub last: Option<u64>,
}

impl ProgressBar {
    /// A bar at 0 of `max`, not yet drawn.
    pub fn new(max: usize) -> (b: ProgressBar)
        ensures
            b.cur == 0,
            b.max == max,
            b.last is None,
    {
        ProgressBar { cur: 0, max, last: None }
    }

    /// Moves the count to `n` at `now` and says whether to redraw (a tick or
    /// more after the last drawing, or the first time).
    pub fn update(&mut self, n: usize, now: u64) -> (draw: bool)
        ensures
            final(self).cur == n,
            final(self).max == old(self).max,
            draw == due(old(self).last, now, BAR_TICK),
            final(self).last == if draw {
                Some(now)
            } else {
                old(self).last
            },
    {
        self.cur = n;
        let draw = match self.last {
            None => true,
            Some(t) => now >= t && now - t >= BAR_TICK,
        };
        if draw {
            self.last = Some(now);
        }
        draw
    }

    /// How the bar is drawn now.
    pub fn render(&self, g: BarGlyphs) -> (b: BarLayout)
        requires
            steps(g) * BAR_WIDTH * clamped(self.cur, self.max) <= usize::MAX,
        ensures
            b == bar_layout_of(self.cur, self.max, g),
    {
        bar_layout(self.cur, self.max, g)
    }
}

/// The console-mode flag that makes a console interpret ANSI escape
/// sequences (virtual-terminal processing).
pub const VIRTUAL_TERMINAL_PROCESSING: u32 = 4;

/// The console mode that turns ANSI escape sequences on: `mode` with the
/// virtual-terminal flag set and every other flag kept.
pub fn enable(mode: u32) -> (r: u32)
    ensures
        r == mode | VIRTUAL_TERMINAL_PROCESSING,
{
    mode | VIRTUAL_TERMINAL_PROCESSING
}

} // verus!
