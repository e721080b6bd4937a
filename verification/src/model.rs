//! The mathematical model of the scoring grid.
//!
//! A grid over sequences `a` (length m) and `b` (length n) has n + 1 rows
//! and m + 1 columns. The cell in row `i` and column `j` stands for the
//! alignments of the first `j` symbols of `a` with the first `i` symbols of
//! `b`. A cell is reached from its upper neighbour by a deletion, from its
//! left neighbour by an insertion and from its diagonal neighbour by a match
//! or a mismatch.

use vstd::prelude::*;
use crate::scoring::Scoring;

verus! {

/// A cell as a value: its score and the set of neighbours from which that
/// score is reached.
pub struct CellView {
    pub score: int,
    pub predecessors: Set<(int, int)>,
}

/// A grid as a value: the inputs it was built from and its table of cells.
pub struct GridView {
    pub a: Seq<u8>,
    pub b: Seq<u8>,
    pub scoring: Scoring,
    pub cells: Seq<Seq<CellView>>,
}

/// The best of the candidate scores that apply at `(i, j)`: the deletion
/// candidate needs a row above, the insertion candidate a column to the left,
/// and the diagonal candidate both. At the origin no candidate applies and
/// the score is 0.
pub open spec fn best_candidate(i: int, j: int, deletion: int, insertion: int, diagonal: int) -> int {
    if i > 0 && j > 0 {
        if deletion >= insertion && deletion >= diagonal {
            deletion
        } else if insertion >= diagonal {
            insertion
        } else {
            diagonal
        }
    } else if i > 0 {
        deletion
    } else if j > 0 {
        insertion
    } else {
        0
    }
}

/// Whether the neighbour `p` of `(i, j)` gives a candidate that applies and
/// equals `best`.
pub open spec fn is_tied_predecessor(
    i: int,
    j: int,
    deletion: int,
    insertion: int,
    diagonal: int,
    best: int,
    p: (int, int),
) -> bool {
    ||| i > 0 && p == (i - 1, j) && deletion == best
    ||| j > 0 && p == (i, j - 1) && insertion == best
    ||| i > 0 && j > 0 && p == (i - 1, j - 1) && diagonal == best
}

/// The neighbours of `(i, j)` whose candidate applies and equals `best`.
pub open spec fn tied_predecessors(
    i: int,
    j: int,
    deletion: int,
    insertion: int,
    diagonal: int,
    best: int,
) -> Set<(int, int)> {
    Set::new(|p: (int, int)| is_tied_predecessor(i, j, deletion, insertion, diagonal, best, p))
}

/// The score that the recurrence gives to cell `(i, j)` of the grid over `a`
/// and `b`.
pub open spec fn optimal_score(a: Seq<u8>, b: Seq<u8>, s: Scoring, i: int, j: int) -> int
    decreases i, j,
{
    if i > 0 && j > 0 {
        best_candidate(
            i,
            j,
            optimal_score(a, b, s, i - 1, j) + s.gap(),
            optimal_score(a, b, s, i, j - 1) + s.gap(),
            optimal_score(a, b, s, i - 1, j - 1) + s.pair_score(a[j - 1], b[i - 1]),
        )
    } else if i > 0 {
        optimal_score(a, b, s, i - 1, j) + s.gap()
    } else if j > 0 {
        optimal_score(a, b, s, i, j - 1) + s.gap()
    } else {
        0
    }
}

/// The neighbours of `(i, j)` through which the recurrence reaches
/// `optimal_score` at `(i, j)`.
pub open spec fn optimal_predecessors(a: Seq<u8>, b: Seq<u8>, s: Scoring, i: int, j: int) -> Set<
    (int, int),
> {
    tied_predecessors(
        i,
        j,
        optimal_score(a, b, s, i - 1, j) + s.gap(),
        optimal_score(a, b, s, i, j - 1) + s.gap(),
        optimal_score(a, b, s, i - 1, j - 1) + s.pair_score(a[j - 1], b[i - 1]),
        optimal_score(a, b, s, i, j),
    )
}

impl GridView {
    pub open spec fn rows(self) -> int {
        self.b.len() as int + 1
    }

    pub open spec fn cols(self) -> int {
        self.a.len() as int + 1
    }

    pub open spec fn in_range(self, i: int, j: int) -> bool {
        0 <= i < self.rows() && 0 <= j < self.cols()
    }

    /// The table has one row for each prefix of `b` and one column for each
    /// prefix of `a`.
    pub open spec fn shaped(self) -> bool {
        &&& self.cells.len() == self.rows()
        &&& forall|i: int| 0 <= i < self.rows() ==> (#[trigger] self.cells[i]).len() == self.cols()
    }

    pub open spec fn score(self, i: int, j: int) -> int {
        self.cells[i][j].score
    }

    pub open spec fn predecessors(self, i: int, j: int) -> Set<(int, int)> {
        self.cells[i][j].predecessors
    }

    /// Score of reaching `(i, j)` from above: the second sequence advances
    /// alone.
    pub open spec fn deletion_candidate(self, i: int, j: int) -> int {
        self.score(i - 1, j) + self.scoring.gap()
    }

    /// Score of reaching `(i, j)` from the left: the first sequence advances
    /// alone.
    pub open spec fn insertion_candidate(self, i: int, j: int) -> int {
        self.score(i, j - 1) + self.scoring.gap()
    }

    /// Score of reaching `(i, j)` along the diagonal: both sequences advance.
    pub open spec fn diagonal_candidate(self, i: int, j: int) -> int {
        self.score(i - 1, j - 1) + self.scoring.pair_score(self.a[j - 1], self.b[i - 1])
    }

    /// The cell at `(i, j)` holds the best of its applicable candidates, and
    /// as predecessors exactly the neighbours whose candidate reaches it.
    pub open spec fn cell_filled(self, i: int, j: int) -> bool {
        &&& self.score(i, j) == best_candidate(
            i,
            j,
            self.deletion_candidate(i, j),
            self.insertion_candidate(i, j),
            self.diagonal_candidate(i, j),
        )
        &&& self.predecessors(i, j) == tied_predecessors(
            i,
            j,
            self.deletion_candidate(i, j),
            self.insertion_candidate(i, j),
            self.diagonal_candidate(i, j),
            self.score(i, j),
        )
    }

    /// Every cell of the table follows from its neighbours.
    pub open spec fn filled(self) -> bool {
        &&& self.shaped()
        &&& forall|i: int, j: int| self.in_range(i, j) ==> #[trigger] self.cell_filled(i, j)
    }

    /// Every cell of the table holds what the recurrence gives.
    pub open spec fn optimal(self) -> bool {
        &&& self.shaped()
        &&& forall|i: int, j: int|
            self.in_range(i, j) ==> {
                &&& #[trigger] self.score(i, j) == optimal_score(self.a, self.b, self.scoring, i, j)
                &&& self.predecessors(i, j) == optimal_predecessors(
                    self.a,
                    self.b,
                    self.scoring,
                    i,
                    j,
                )
            }
    }
}

/// The recurrence at `(i, j)` is the best candidate over the recurrence at
/// the neighbours.
pub proof fn lemma_optimal_score_unfold(a: Seq<u8>, b: Seq<u8>, s: Scoring, i: int, j: int)
    requires
        0 <= i,
        0 <= j,
    ensures
        optimal_score(a, b, s, i, j) == best_candidate(
            i,
            j,
            optimal_score(a, b, s, i - 1, j) + s.gap(),
            optimal_score(a, b, s, i, j - 1) + s.gap(),
            optimal_score(a, b, s, i - 1, j - 1) + s.pair_score(a[j - 1], b[i - 1]),
        ),
{
}

/// No score of the recurrence lies further from 0 than the number of steps
/// to its cell times the largest step.
pub proof fn lemma_optimal_score_bounded(a: Seq<u8>, b: Seq<u8>, s: Scoring, i: int, j: int)
    requires
        0 <= i,
        0 <= j,
    ensures
        -(i + j) * 0x8000_0000 <= optimal_score(a, b, s, i, j) <= (i + j) * 0x8000_0000,
    decreases i, j,
{
    if i > 0 {
        lemma_optimal_score_bounded(a, b, s, i - 1, j);
    }
    if j > 0 {
        lemma_optimal_score_bounded(a, b, s, i, j - 1);
    }
    if i > 0 && j > 0 {
        lemma_optimal_score_bounded(a, b, s, i - 1, j - 1);
    }
}

/// In a filled table every score is the one that the recurrence gives.
pub proof fn lemma_filled_score(g: GridView, i: int, j: int)
    requires
        g.filled(),
        g.in_range(i, j),
    ensures
        g.score(i, j) == optimal_score(g.a, g.b, g.scoring, i, j),
    decreases i, j,
{
    assert(g.cell_filled(i, j));
    if i > 0 {
        lemma_filled_score(g, i - 1, j);
    }
    if j > 0 {
        lemma_filled_score(g, i, j - 1);
    }
    if i > 0 && j > 0 {
        lemma_filled_score(g, i - 1, j - 1);
    }
}

/// A table in which every cell follows from its neighbours is the table of
/// the recurrence.
pub proof fn lemma_filled_is_optimal(g: GridView)
    requires
        g.filled(),
    ensures
        g.optimal(),
{
    assert forall|i: int, j: int| g.in_range(i, j) implies {
        &&& #[trigger] g.score(i, j) == optimal_score(g.a, g.b, g.scoring, i, j)
        &&& g.predecessors(i, j) == optimal_predecessors(g.a, g.b, g.scoring, i, j)
    } by {
        assert(g.cell_filled(i, j));
        lemma_filled_score(g, i, j);
        if i > 0 {
            lemma_filled_score(g, i - 1, j);
        }
        if j > 0 {
            lemma_filled_score(g, i, j - 1);
        }
        if i > 0 && j > 0 {
            lemma_filled_score(g, i - 1, j - 1);
        }
        assert(g.predecessors(i, j) =~= optimal_predecessors(g.a, g.b, g.scoring, i, j));
    }
}

/// In the table of the recurrence every cell follows from its neighbours.
pub proof fn lemma_optimal_is_filled(g: GridView)
    requires
        g.optimal(),
    ensures
        g.filled(),
{
    assert forall|i: int, j: int| g.in_range(i, j) implies #[trigger] g.cell_filled(i, j) by {
        lemma_optimal_score_unfold(g.a, g.b, g.scoring, i, j);
        assert(g.score(i, j) == optimal_score(g.a, g.b, g.scoring, i, j));
        if i > 0 {
            assert(g.score(i - 1, j) == optimal_score(g.a, g.b, g.scoring, i - 1, j));
        }
        if j > 0 {
            assert(g.score(i, j - 1) == optimal_score(g.a, g.b, g.scoring, i, j - 1));
        }
        if i > 0 && j > 0 {
            assert(g.score(i - 1, j - 1) == optimal_score(g.a, g.b, g.scoring, i - 1, j - 1));
        }
        assert(g.predecessors(i, j) =~= tied_predecessors(
            i,
            j,
            g.deletion_candidate(i, j),
            g.insertion_candidate(i, j),
            g.diagonal_candidate(i, j),
            g.score(i, j),
        ));
    }
}

} // verus!
