//! Per-player outcome counters: wins, losses and splits, incremented
//! once per enumerated board completion.

use vstd::prelude::*;

verus! {

/// A player's running tally over all enumerated board completions.
/// Exactly one of the three counters is incremented per completion.
#[derive(Copy, Clone, Debug, PartialEq, Eq, Structural)]
pub struct WinLoseSplit {
    pub wins: i32,
    pub losses: i32,
    pub splits: i32,
}

impl WinLoseSplit {
    /// A zeroed tally, made per player before an enumeration starts.
    pub fn new() -> (r: WinLoseSplit)
        ensures
            r.wins == 0,
            r.losses == 0,
            r.splits == 0,
    {
        WinLoseSplit { wins: 0, losses: 0, splits: 0 }
    }

    /// The number of completions observed: the three counters' sum.
    pub fn total(&self) -> (r: i32)
        requires
            self.wins >= 0,
            self.losses >= 0,
            self.splits >= 0,
            self.wins + self.losses + self.splits <= i32::MAX,
        ensures
            r == self.wins + self.losses + self.splits,
    {
        self.wins + self.losses + self.splits
    }
}

} // verus!
