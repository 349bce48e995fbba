//! Scores as bit patterns.
//!
//! A distance or similarity is a binary64 floating-point number. Here it is
//! held as its 64-bit pattern, and two scores are compared by the place of
//! their patterns in the IEEE-754 total order. On numbers that are not NaN this
//! order agrees with the numeric one, except that it puts `-0.0` just below
//! `+0.0`.

use vstd::prelude::*;

verus! {

/// The pattern whose only set bit is the sign bit.
pub const SIGN_BIT: u64 = 0x8000_0000_0000_0000;

/// The bit pattern of a binary64 number.
#[derive(Clone, Copy, Debug, PartialEq, Eq, Structural)]
pub struct Score {
    pub bits: u64,
}

impl Score {
    /// The place of the score in the total order. Patterns with a clear sign
    /// bit take the places `0, 1, 2, ...` by rising magnitude; patterns with
    /// the sign bit set take the places `-1, -2, -3, ...` by rising magnitude.
    pub open spec fn rank(&self) -> int {
        if self.bits < SIGN_BIT {
            self.bits as int
        } else {
            -1 - (self.bits - SIGN_BIT)
        }
    }

    /// The score with the given bit pattern.
    pub fn from_bits(bits: u64) -> (score: Score)
        ensures
            score.bits == bits,
    {
        Score { bits }
    }

    /// The place of the score in the total order, as a machine integer.
    pub fn key(&self) -> (key: i64)
        ensures
            key == self.rank(),
    {
        if self.bits < SIGN_BIT {
            self.bits as i64
        } else {
            let magnitude: u64 = self.bits - SIGN_BIT;
            -1 - (magnitude as i64)
        }
    }

    /// Whether a pair with this score is ranked strictly ahead of one with
    /// the other: above it where higher is better, below it where lower is.
    pub open spec fn ahead_of(&self, other: &Score, higher_is_better: bool) -> bool {
        if higher_is_better {
            self.rank() > other.rank()
        } else {
            self.rank() < other.rank()
        }
    }

    /// Compares two scores for the ranking in the given direction.
    pub fn is_ahead_of(&self, other: &Score, higher_is_better: bool) -> (ahead: bool)
        ensures
            ahead == self.ahead_of(other, higher_is_better),
    {
        if higher_is_better {
            self.key() > other.key()
        } else {
            self.key() < other.key()
        }
    }
}

/// Different patterns take different places, so the order of the places is a
/// total order of the scores: of two different scores one is ahead of the
/// other, whichever direction is better.
pub proof fn lemma_rank_total(a: Score, b: Score, higher_is_better: bool)
    ensures
        a.rank() == b.rank() <==> a == b,
        a != b ==> (a.ahead_of(&b, higher_is_better) != b.ahead_of(&a, higher_is_better)),
        a == b ==> !a.ahead_of(&b, higher_is_better),
        a.ahead_of(&b, higher_is_better) == b.ahead_of(&a, !higher_is_better),
{
}

/// Among patterns of one sign the order of the places is that of the
/// magnitudes, turned round where the sign bit is set; and every pattern with
/// the sign bit set stands below every pattern without.
pub proof fn lemma_rank_by_sign(a: Score, b: Score)
    ensures
        a.bits < SIGN_BIT && b.bits < SIGN_BIT ==> (a.rank() < b.rank() <==> a.bits < b.bits),
        a.bits >= SIGN_BIT && b.bits >= SIGN_BIT ==> (a.rank() < b.rank() <==> a.bits > b.bits),
        a.bits >= SIGN_BIT && b.bits < SIGN_BIT ==> a.rank() < b.rank(),
{
}

} // verus!
