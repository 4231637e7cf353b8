//! How a peer's score is kept.

use vstd::prelude::*;

verus! {

/// One more than the greatest `u64`.
pub open spec fn u64_modulus() -> int {
    0x1_0000_0000_0000_0000
}

/// `total` changed by `change`, modulo two to the power of 64.
pub open spec fn wrapping_change(total: u64, change: i64) -> int {
    (total + change) % u64_modulus()
}

/// Changes `total` by `change`, wrapping around at the ends of the `u64` range.
pub fn change_wrapping(total: u64, change: i64) -> (r: u64)
    ensures
        r == wrapping_change(total, change),
{
    #[verifier::truncate]
    let amount: u64 = change as u64;
    assert(change < 0 ==> amount == change + 0x1_0000_0000_0000_0000) by (bit_vector)
        requires
            amount == change as u64,
    ;
    total.wrapping_add(amount)
}

/// A peer's score, and how often it was set or changed.
#[derive(Clone, Copy, Debug, PartialEq, Eq, Structural)]
pub struct ScoreCounter {
    pub score: u64,
    pub times: u64,
}

impl ScoreCounter {
    /// Starts at the given score.
    pub fn new(score: u64) -> (r: ScoreCounter)
        ensures
            r == (ScoreCounter { score, times: 1 }),
    {
        ScoreCounter { score, times: 1 }
    }

    /// The counter after a change of the score by `change`.
    pub open spec fn changed_by(self, change: i64) -> ScoreCounter {
        ScoreCounter {
            score: wrapping_change(self.score, change) as u64,
            times: wrapping_change(self.times, 1) as u64,
        }
    }

    /// Changes the score by `change`. Score and count wrap around at the ends of the `u64` range.
    pub fn inc_by(&mut self, change: i64)
        ensures
            *final(self) == old(self).changed_by(change),
    {
        self.score = change_wrapping(self.score, change);
        self.times = change_wrapping(self.times, 1);
    }

    /// The score.
    pub fn score(&self) -> (r: u64)
        ensures
            r == self.score,
    {
        self.score
    }

    /// The score per change, rounded down, or zero where the count has wrapped around to zero.
    pub open spec fn spec_avg(self) -> u64 {
        if self.times == 0 {
            0
        } else {
            self.score / self.times
        }
    }

    /// The score per change, rounded down, or zero where the count has wrapped around to zero.
    pub fn avg(&self) -> (r: u64)
        ensures
            r == self.spec_avg(),
    {
        if self.times == 0 {
            0
        } else {
            self.score / self.times
        }
    }
}

impl Default for ScoreCounter {
    /// Starts at one.
    fn default() -> (r: ScoreCounter)
        ensures
            r == (ScoreCounter { score: 1, times: 1 }),
    {
        ScoreCounter::new(1)
    }
}

} // verus!
