//! What holds of every filled grid and of every alignment read off it.

use vstd::prelude::*;
use crate::backtrace::{is_step, is_trace, step_source, traces};
use crate::model::{best_candidate, lemma_filled_is_optimal, GridView};
use crate::path::{
    best_alignments, column_fits, is_best_alignment, is_best_score, strip_gaps, Action,
    AlignmentPathView,
};

verus! {

/// The score of a cell is the maximum of its applicable candidates: it is no
/// less than any of them, and away from the origin it is one of them.
pub proof fn lemma_best_candidate_is_maximum(
    i: int,
    j: int,
    deletion: int,
    insertion: int,
    diagonal: int,
)
    requires
        0 <= i,
        0 <= j,
    ensures
        i > 0 ==> best_candidate(i, j, deletion, insertion, diagonal) >= deletion,
        j > 0 ==> best_candidate(i, j, deletion, insertion, diagonal) >= insertion,
        i > 0 && j > 0 ==> best_candidate(i, j, deletion, insertion, diagonal) >= diagonal,
        i == 0 && j == 0 ==> best_candidate(i, j, deletion, insertion, diagonal) == 0,
        i > 0 || j > 0 ==> {
            ||| i > 0 && best_candidate(i, j, deletion, insertion, diagonal) == deletion
            ||| j > 0 && best_candidate(i, j, deletion, insertion, diagonal) == insertion
            ||| i > 0 && j > 0 && best_candidate(i, j, deletion, insertion, diagonal) == diagonal
        },
{
}

/// Two filled grids over the same sequences and the same scoring are the
/// same grid: the inputs determine every score and every set of
/// predecessors.
pub proof fn lemma_filled_grid_is_unique(g1: GridView, g2: GridView)
    requires
        g1.filled(),
        g2.filled(),
        g1.a == g2.a,
        g1.b == g2.b,
        g1.scoring == g2.scoring,
    ensures
        g1 == g2,
{
    lemma_filled_is_optimal(g1);
    lemma_filled_is_optimal(g2);
    assert forall|i: int| 0 <= i < g1.cells.len() implies g1.cells[i] == g2.cells[i] by {
        assert(g1.cells[i].len() == g1.cols());
        assert(g2.cells[i].len() == g2.cols());
        assert forall|j: int| 0 <= j < g1.cells[i].len() implies g1.cells[i][j]
            == g2.cells[i][j] by {
            assert(g1.in_range(i, j));
            assert(g1.score(i, j) == g2.score(i, j));
            assert(g1.predecessors(i, j) == g2.predecessors(i, j));
        }
        assert(g1.cells[i] =~= g2.cells[i]);
    }
    assert(g1.cells =~= g2.cells);
}

/// Every predecessor of a cell of a filled grid is a cell of the grid, next
/// to it and nearer to the origin.
pub proof fn lemma_predecessor_is_neighbour(g: GridView, i: int, j: int, p: (int, int))
    requires
        g.filled(),
        g.in_range(i, j),
        g.predecessors(i, j).contains(p),
    ensures
        g.in_range(p.0, p.1),
        p == (i - 1, j) || p == (i, j - 1) || p == (i - 1, j - 1),
{
    assert(g.cell_filled(i, j));
}

/// In every alignment read off a filled grid the three tracks have one
/// length, and each action agrees with its column: a match or a mismatch
/// where neither track has a gap, a deletion where the first track has the
/// gap, an insertion where the second has it.
pub proof fn lemma_trace_is_well_formed(g: GridView, i: int, j: int, p: AlignmentPathView)
    requires
        g.filled(),
        g.in_range(i, j),
        is_trace(g, i, j, p),
    ensures
        p.well_formed(),
    decreases p.actions.len(),
{
    if p.actions.len() > 0 {
        let from = step_source(p.actions.last(), i, j);
        lemma_predecessor_is_neighbour(g, i, j, from);
        let q = p.drop_last();
        lemma_trace_is_well_formed(g, from.0, from.1, q);
        assert forall|k: int| 0 <= k < p.actions.len() implies column_fits(
            p.a_track[k],
            p.b_track[k],
            #[trigger] p.actions[k],
        ) by {
            if k < q.actions.len() {
                assert(column_fits(q.a_track[k], q.b_track[k], q.actions[k]));
            }
        }
    }
}

/// Every alignment read off a filled grid at `(i, j)` spells, its gaps left
/// out, the first `j` symbols of the first sequence on its first track and
/// the first `i` symbols of the second sequence on its second track.
pub proof fn lemma_trace_spells_prefixes(g: GridView, i: int, j: int, p: AlignmentPathView)
    requires
        g.filled(),
        g.in_range(i, j),
        is_trace(g, i, j, p),
    ensures
        strip_gaps(p.a_track) == g.a.take(j),
        strip_gaps(p.b_track) == g.b.take(i),
    decreases p.actions.len(),
{
    if p.actions.len() == 0 {
        assert(g.a.take(0) =~= Seq::<u8>::empty());
        assert(g.b.take(0) =~= Seq::<u8>::empty());
    } else {
        let from = step_source(p.actions.last(), i, j);
        lemma_predecessor_is_neighbour(g, i, j, from);
        lemma_trace_spells_prefixes(g, from.0, from.1, p.drop_last());
        if from.1 < j {
            assert(g.a.take(j - 1).push(g.a[j - 1]) =~= g.a.take(j));
        }
        if from.0 < i {
            assert(g.b.take(i - 1).push(g.b[i - 1]) =~= g.b.take(i));
        }
    }
}

/// The column scores of every alignment read off a filled grid at `(i, j)`
/// add up to the score of that cell.
pub proof fn lemma_trace_score(g: GridView, i: int, j: int, p: AlignmentPathView)
    requires
        g.filled(),
        g.in_range(i, j),
        is_trace(g, i, j, p),
    ensures
        g.scoring.path_score(p.actions) == g.score(i, j),
    decreases p.actions.len(),
{
    assert(g.cell_filled(i, j));
    if p.actions.len() > 0 {
        let from = step_source(p.actions.last(), i, j);
        lemma_predecessor_is_neighbour(g, i, j, from);
        lemma_trace_score(g, from.0, from.1, p.drop_last());
    }
}

/// An alignment read off a filled grid at `(i, j)` is an alignment of the
/// first `j` symbols of the first sequence with the first `i` symbols of the
/// second, and its score is the score of the cell.
pub proof fn lemma_trace_is_alignment(g: GridView, i: int, j: int, p: AlignmentPathView)
    requires
        g.filled(),
        g.in_range(i, j),
        is_trace(g, i, j, p),
    ensures
        p.aligns(g.a.take(j), g.b.take(i)),
        g.scoring.path_score(p.actions) == g.score(i, j),
{
    lemma_trace_is_well_formed(g, i, j, p);
    lemma_trace_spells_prefixes(g, i, j, p);
    lemma_trace_score(g, i, j, p);
}

/// A sequence that ends in `c` and is the first `k` symbols of `t` is the
/// first `k - 1` symbols of `t` followed by `t[k - 1]`.
proof fn lemma_push_is_take(s: Seq<u8>, c: u8, t: Seq<u8>, k: int)
    requires
        0 <= k <= t.len(),
        s.push(c) == t.take(k),
    ensures
        k > 0,
        c == t[k - 1],
        s == t.take(k - 1),
{
    assert(s.push(c).len() == k);
    assert(s.push(c)[k - 1] == c);
    assert forall|n: int| 0 <= n < k - 1 implies s[n] == t.take(k - 1)[n] by {
        assert(s.push(c)[n] == s[n]);
    }
    assert(s =~= t.take(k - 1));
}

/// No alignment of the first `j` symbols of the first sequence with the
/// first `i` symbols of the second scores more than the cell `(i, j)` of a
/// filled grid, and one that scores as much is read off the grid: it follows
/// the predecessors from the origin to `(i, j)`.
pub proof fn lemma_cell_score_is_optimal(g: GridView, i: int, j: int, p: AlignmentPathView)
    requires
        g.filled(),
        g.in_range(i, j),
        p.aligns(g.a.take(j), g.b.take(i)),
    ensures
        g.scoring.path_score(p.actions) <= g.score(i, j),
        g.scoring.path_score(p.actions) == g.score(i, j) ==> is_trace(g, i, j, p),
    decreases p.actions.len(),
{
    assert(g.cell_filled(i, j));
    if p.actions.len() == 0 {
        assert(strip_gaps(p.a_track).len() == 0);
        assert(strip_gaps(p.b_track).len() == 0);
    } else {
        let q = p.drop_last();
        let k = p.actions.len() - 1;
        let x = p.a_track.last();
        let y = p.b_track.last();
        let action = p.actions.last();
        assert(column_fits(p.a_track[k], p.b_track[k], p.actions[k]));
        assert forall|n: int| 0 <= n < q.actions.len() implies column_fits(
            q.a_track[n],
            q.b_track[n],
            #[trigger] q.actions[n],
        ) by {
            assert(column_fits(p.a_track[n], p.b_track[n], p.actions[n]));
        }
        if x is Some {
            lemma_push_is_take(strip_gaps(q.a_track), x->0, g.a, j);
        }
        if y is Some {
            lemma_push_is_take(strip_gaps(q.b_track), y->0, g.b, i);
        }
        let from = step_source(action, i, j);
        lemma_cell_score_is_optimal(g, from.0, from.1, q);
        assert(g.cell_filled(from.0, from.1));
        lemma_best_candidate_is_maximum(
            i,
            j,
            g.deletion_candidate(i, j),
            g.insertion_candidate(i, j),
            g.diagonal_candidate(i, j),
        );
        assert(is_step(g, i, j, x, y, action));
    }
}

/// Some alignment is read off a filled grid at each of its cells.
pub proof fn lemma_trace_exists(g: GridView, i: int, j: int) -> (p: AlignmentPathView)
    requires
        g.filled(),
        g.in_range(i, j),
    ensures
        is_trace(g, i, j, p),
    decreases i + j,
{
    assert(g.cell_filled(i, j));
    if i == 0 && j == 0 {
        AlignmentPathView::empty()
    } else {
        lemma_best_candidate_is_maximum(
            i,
            j,
            g.deletion_candidate(i, j),
            g.insertion_candidate(i, j),
            g.diagonal_candidate(i, j),
        );
        let (x, y, action) = if i > 0 && g.score(i, j) == g.deletion_candidate(i, j) {
            (None, Some(g.b[i - 1]), Action::Deletion)
        } else if j > 0 && g.score(i, j) == g.insertion_candidate(i, j) {
            (Some(g.a[j - 1]), None, Action::Insertion)
        } else if g.a[j - 1] == g.b[i - 1] {
            (Some(g.a[j - 1]), Some(g.b[i - 1]), Action::Match)
        } else {
            (Some(g.a[j - 1]), Some(g.b[i - 1]), Action::Mismatch)
        };
        let from = step_source(action, i, j);
        let q = lemma_trace_exists(g, from.0, from.1);
        let p = q.push(x, y, action);
        assert(p.drop_last().a_track =~= q.a_track);
        assert(p.drop_last().b_track =~= q.b_track);
        assert(p.drop_last().actions =~= q.actions);
        p
    }
}

/// The score of cell `(i, j)` of a filled grid is the best score of any
/// alignment of the first `j` symbols of the first sequence with the first
/// `i` symbols of the second, and the alignments read off the grid at
/// `(i, j)` are exactly those that reach it.
pub proof fn lemma_traces_are_the_best_alignments(g: GridView, i: int, j: int)
    requires
        g.filled(),
        g.in_range(i, j),
    ensures
        traces(g, i, j) == best_alignments(g.scoring, g.a.take(j), g.b.take(i)),
        forall|p: AlignmentPathView|
            is_best_alignment(g.scoring, g.a.take(j), g.b.take(i), p)
                ==> #[trigger] g.scoring.path_score(p.actions) == g.score(i, j),
{
    let x = g.a.take(j);
    let y = g.b.take(i);
    let witness = lemma_trace_exists(g, i, j);
    lemma_trace_is_alignment(g, i, j, witness);
    assert forall|p: AlignmentPathView| is_trace(g, i, j, p) implies is_best_alignment(
        g.scoring,
        x,
        y,
        p,
    ) by {
        lemma_trace_is_alignment(g, i, j, p);
        assert forall|q: AlignmentPathView| q.aligns(x, y) implies #[trigger] g.scoring.path_score(
            q.actions,
        ) <= g.scoring.path_score(p.actions) by {
            lemma_cell_score_is_optimal(g, i, j, q);
        }
    }
    assert forall|p: AlignmentPathView| is_best_alignment(g.scoring, x, y, p) implies is_trace(
        g,
        i,
        j,
        p,
    ) && #[trigger] g.scoring.path_score(p.actions) == g.score(i, j) by {
        assert(g.scoring.path_score(witness.actions) <= g.scoring.path_score(p.actions));
        lemma_cell_score_is_optimal(g, i, j, p);
    }
    assert(traces(g, i, j) =~= best_alignments(g.scoring, x, y));
}

/// The score of cell `(i, j)` of a filled grid is the best score that an
/// alignment of the first `j` symbols of the first sequence with the first
/// `i` symbols of the second reaches.
pub proof fn lemma_cell_score_is_best(g: GridView, i: int, j: int)
    requires
        g.filled(),
        g.in_range(i, j),
    ensures
        is_best_score(g.scoring, g.a.take(j), g.b.take(i), g.score(i, j)),
{
    let witness = lemma_trace_exists(g, i, j);
    lemma_trace_is_alignment(g, i, j, witness);
    assert forall|q: AlignmentPathView|
        q.aligns(g.a.take(j), g.b.take(i)) implies #[trigger] g.scoring.path_score(q.actions)
        <= g.score(i, j) by {
        lemma_cell_score_is_optimal(g, i, j, q);
    }
}

} // verus!
