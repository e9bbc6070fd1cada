//! Per-side open-position counters.
//!
//! `PositionManager` is a derived cache used by strategies: it counts the
//! long and short positions they have opened and enforces a per-side cap.
//! The broker's open-trade ledger stays the source of truth.

use vstd::prelude::*;

verus! {

/// Counts currently open long and short positions and enforces a cap per side.
#[derive(Debug, Clone)]
pub struct PositionManager {
    pub max_positions: usize,
    pub open_longs: usize,
    pub open_shorts: usize,
}

impl PositionManager {
    pub fn new(max_positions: usize) -> (r: Self)
        ensures
            r.max_positions == max_positions,
            r.open_longs == 0,
            r.open_shorts == 0,
    {
        PositionManager { max_positions, open_longs: 0, open_shorts: 0 }
    }

    /// True when one more long position may be opened.
    pub fn can_open_long(&self) -> (r: bool)
        ensures
            r == (self.open_longs < self.max_positions),
    {
        self.open_longs < self.max_positions
    }

    /// True when one more short position may be opened.
    pub fn can_open_short(&self) -> (r: bool)
        ensures
            r == (self.open_shorts < self.max_positions),
    {
        self.open_shorts < self.max_positions
    }

    /// Counts a newly opened position on the side given by the sign of `size`
    /// (a non-positive size counts as short).
    pub fn register_position(&mut self, size: i64)
        requires
            old(self).open_longs < usize::MAX,
            old(self).open_shorts < usize::MAX,
        ensures
            final(self).max_positions == old(self).max_positions,
            size > 0 ==> final(self).open_longs == old(self).open_longs + 1
                && final(self).open_shorts == old(self).open_shorts,
            size <= 0 ==> final(self).open_shorts == old(self).open_shorts + 1
                && final(self).open_longs == old(self).open_longs,
    {
        if size > 0 {
            self.open_longs = self.open_longs + 1;
        } else {
            self.open_shorts = self.open_shorts + 1;
        }
    }

    /// Removes one position from the side given by the sign of `size`;
    /// an already-empty side stays at zero.
    pub fn close_position(&mut self, size: i64)
        ensures
            final(self).max_positions == old(self).max_positions,
            size > 0 ==> final(self).open_longs
                == if old(self).open_longs > 0 { (old(self).open_longs - 1) as usize } else { 0usize }
                && final(self).open_shorts == old(self).open_shorts,
            size <= 0 ==> final(self).open_shorts
                == if old(self).open_shorts > 0 { (old(self).open_shorts - 1) as usize } else { 0usize }
                && final(self).open_longs == old(self).open_longs,
    {
        if size > 0 {
            if self.open_longs > 0 {
                self.open_longs = self.open_longs - 1;
            }
        } else {
            if self.open_shorts > 0 {
                self.open_shorts = self.open_shorts - 1;
            }
        }
    }

    /// Total number of open positions on both sides.
    pub fn total_positions(&self) -> (r: usize)
        requires
            self.open_longs + self.open_shorts <= usize::MAX,
        ensures
            r == self.open_longs + self.open_shorts,
    {
        self.open_longs + self.open_shorts
    }

    /// Clears both counters.
    pub fn reset(&mut self)
        ensures
            final(self).max_positions == old(self).max_positions,
            final(self).open_longs == 0,
            final(self).open_shorts == 0,
    {
        self.open_longs = 0;
        self.open_shorts = 0;
    }
}

} // verus!
