//! Scoring parameters and the score of a single alignment column.

use vstd::prelude::*;

verus! {

/// The three scores of the alignment model. A gap costs the same whether it
/// stands in the first or in the second sequence.
#[derive(Clone, Copy, Debug, PartialEq, Eq, Structural)]
pub struct Scoring {
    pub match_score: i32,
    pub mismatch_score: i32,
    pub gap_score: i32,
}


impl Scoring {
    /// Score of aligning symbol `x` against symbol `y`.
    pub open spec fn pair_score(self, x: u8, y: u8) -> int {
        if x == y {
            self.match_score as int
        } else {
            self.mismatch_score as int
        }
    }

    /// Score of a column that holds a gap.
    pub open spec fn gap(self) -> int {
        self.gap_score as int
    }

    pub fn new(match_score: i32, mismatch_score: i32, gap_score: i32) -> (s: Scoring)
        ensures
            s == (Scoring { match_score, mismatch_score, gap_score }),
    {
        Scoring { match_score, mismatch_score, gap_score }
    }

    /// Score of aligning `x` against `y`: the match score when they are the
    /// same symbol, the mismatch score otherwise.
    pub fn score_pair(&self, x: u8, y: u8) -> (s: i32)
        ensures
            s == self.pair_score(x, y),
    {
        if x == y {
            self.match_score
        } else {
            self.mismatch_score
        }
    }
}

impl Default for Scoring {
    /// The usual scores for nucleotide sequences: 5 for a match, -3 for a
    /// mismatch and -4 for a gap.
    fn default() -> (s: Scoring)
        ensures
            s.match_score == 5,
            s.mismatch_score == -3,
            s.gap_score == -4,
    {
        Scoring { match_score: 5, mismatch_score: -3, gap_score: -4 }
    }
}

} // verus!
