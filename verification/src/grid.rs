//! The scoring grid: its cells, its construction and its accessors.

use vstd::prelude::*;
use vstd::slice::slice_to_vec;
use crate::model::{
    lemma_optimal_is_filled, lemma_optimal_score_bounded, lemma_optimal_score_unfold,
    optimal_predecessors, optimal_score, CellView, GridView,
};
use crate::laws::lemma_cell_score_is_best;
use crate::path::is_best_score;
use crate::scoring::Scoring;

verus! {

/// One cell of the grid: the best score of any alignment that ends here, and
/// every neighbour from which an alignment of that score arrives.
///
/// A score has 128 bits: the scores of a column have 32, and an alignment has
/// fewer than 2^65 columns, so no sum of them overflows.
#[derive(Clone, Debug, PartialEq, Eq)]
pub struct Cell {
    pub score: i128,
    pub predecessors: Vec<(usize, usize)>,
}

/// The coordinates of a cell as mathematical integers.
pub open spec fn coords(p: (usize, usize)) -> (int, int) {
    (p.0 as int, p.1 as int)
}

/// The cells that a list of coordinates names.
pub open spec fn coord_set(ps: Seq<(usize, usize)>) -> Set<(int, int)> {
    Set::new(|p: (int, int)| exists|k: int| 0 <= k < ps.len() && coords(#[trigger] ps[k]) == p)
}

impl View for Cell {
    type V = CellView;

    open spec fn view(&self) -> CellView {
        CellView { score: self.score as int, predecessors: coord_set(self.predecessors@) }
    }
}

/// The scoring grid of two sequences. It is filled when it is built and
/// never changes afterwards.
#[derive(Debug)]
pub struct Grid {
    seq_a: Vec<u8>,
    seq_b: Vec<u8>,
    scoring: Scoring,
    cells: Vec<Vec<Cell>>,
}

/// The cell `c` holds what the recurrence gives at `(i, j)`, and lists each
/// predecessor once.
spec fn cell_correct(a: Seq<u8>, b: Seq<u8>, s: Scoring, i: int, j: int, c: Cell) -> bool {
    &&& c.score == optimal_score(a, b, s, i, j)
    &&& coord_set(c.predecessors@) == optimal_predecessors(a, b, s, i, j)
    &&& c.predecessors@.no_duplicates()
}

/// Every cell of row `i` holds what the recurrence gives.
spec fn row_correct(a: Seq<u8>, b: Seq<u8>, s: Scoring, i: int, row: Seq<Cell>) -> bool {
    &&& row.len() == a.len() + 1
    &&& forall|j: int| 0 <= j < row.len() ==> cell_correct(a, b, s, i, j, #[trigger] row[j])
}

impl View for Grid {
    type V = GridView;

    closed spec fn view(&self) -> GridView {
        GridView {
            a: self.seq_a@,
            b: self.seq_b@,
            scoring: self.scoring,
            cells: Seq::new(
                self.cells@.len(),
                |i: int| Seq::new(self.cells@[i]@.len(), |j: int| self.cells@[i]@[j]@),
            ),
        }
    }
}

impl Grid {
    #[verifier::type_invariant]
    closed spec fn inv(&self) -> bool {
        &&& self.cells@.len() == self.seq_b@.len() + 1
        &&& forall|i: int|
            0 <= i < self.cells@.len() ==> row_correct(
                self.seq_a@,
                self.seq_b@,
                self.scoring,
                i,
                (#[trigger] self.cells@[i])@,
            )
    }

    /// What the representation invariant means for the grid as a value.
    proof fn lemma_inv_filled(&self)
        requires
            self.inv(),
        ensures
            self@.filled(),
            self@.rows() == self.cells@.len(),
            forall|i: int|
                0 <= i < self@.rows() ==> (#[trigger] self.cells@[i])@.len() == self@.cols(),
            forall|i: int, j: int|
                self@.in_range(i, j) ==> {
                    &&& (#[trigger] self.cells@[i]@[j])@ == self@.cells[i][j]
                    &&& self.cells@[i]@[j].predecessors@.no_duplicates()
                },
    {
        self.lemma_inv_optimal();
        lemma_optimal_is_filled(self@);
        assert forall|i: int| 0 <= i < self@.rows() implies (#[trigger] self.cells@[i])@.len()
            == self@.cols() by {
            assert(row_correct(self@.a, self@.b, self@.scoring, i, self.cells@[i]@));
        }
        assert forall|i: int, j: int| self@.in_range(i, j) implies {
            &&& (#[trigger] self.cells@[i]@[j])@ == self@.cells[i][j]
            &&& self.cells@[i]@[j].predecessors@.no_duplicates()
        } by {
            assert(row_correct(self@.a, self@.b, self@.scoring, i, self.cells@[i]@));
            assert(cell_correct(self@.a, self@.b, self@.scoring, i, j, self.cells@[i]@[j]));
        }
    }

    proof fn lemma_inv_optimal(&self)
        requires
            self.inv(),
        ensures
            self@.optimal(),
    {
        let g = self@;
        assert forall|i: int| 0 <= i < g.rows() implies (#[trigger] g.cells[i]).len()
            == g.cols() by {
            assert(row_correct(g.a, g.b, g.scoring, i, self.cells@[i]@));
        }
        assert forall|i: int, j: int| g.in_range(i, j) implies {
            &&& #[trigger] g.score(i, j) == optimal_score(g.a, g.b, g.scoring, i, j)
            &&& g.predecessors(i, j) == optimal_predecessors(g.a, g.b, g.scoring, i, j)
        } by {
            assert(row_correct(g.a, g.b, g.scoring, i, self.cells@[i]@));
            assert(cell_correct(g.a, g.b, g.scoring, i, j, self.cells@[i]@[j]));
        }
    }
}

/// Adding a coordinate to a list adds the cell it names to the set.
proof fn lemma_coord_set_push(ps: Seq<(usize, usize)>, p: (usize, usize))
    ensures
        coord_set(ps.push(p)) == coord_set(ps).insert(coords(p)),
{
    let next = ps.push(p);
    assert forall|q: (int, int)| coord_set(next).contains(q) implies coord_set(ps).insert(
        coords(p),
    ).contains(q) by {
        let k = choose|k: int| 0 <= k < next.len() && coords(#[trigger] next[k]) == q;
        if k < ps.len() {
            assert(ps[k] == next[k]);
        }
    }
    assert forall|q: (int, int)| coord_set(ps).insert(coords(p)).contains(q) implies coord_set(
        next,
    ).contains(q) by {
        if q == coords(p) {
            assert(next[ps.len() as int] == p);
        } else {
            let k = choose|k: int| 0 <= k < ps.len() && coords(#[trigger] ps[k]) == q;
            assert(next[k] == ps[k]);
        }
    }
    assert(coord_set(next) =~= coord_set(ps).insert(coords(p)));
}

/// An empty list names no cell.
proof fn lemma_coord_set_empty()
    ensures
        coord_set(Seq::<(usize, usize)>::empty()) == Set::<(int, int)>::empty(),
{
    assert(coord_set(Seq::<(usize, usize)>::empty()) =~= Set::<(int, int)>::empty());
}

/// A list that holds one coordinate.
fn single(p: (usize, usize)) -> (ps: Vec<(usize, usize)>)
    ensures
        ps@ == seq![p],
        coord_set(ps@) == Set::<(int, int)>::empty().insert(coords(p)),
{
    let mut ps: Vec<(usize, usize)> = Vec::new();
    proof {
        lemma_coord_set_empty();
        lemma_coord_set_push(ps@, p);
    }
    ps.push(p);
    assert(ps@ =~= seq![p]);
    ps
}

/// Computes the cell at `(i, j)` from its finished neighbours: the row above
/// is the last of `above`, and `row` holds the cells to the left.
fn fill_cell(
    seq_a: &[u8],
    seq_b: &[u8],
    scoring: Scoring,
    above: &Vec<Vec<Cell>>,
    row: &Vec<Cell>,
    i: usize,
    j: usize,
) -> (cell: Cell)
    requires
        i <= seq_b@.len(),
        j <= seq_a@.len(),
        above@.len() == i,
        row@.len() == j,
        i > 0 ==> row_correct(seq_a@, seq_b@, scoring, i - 1, above@[i - 1]@),
        j > 0 ==> cell_correct(seq_a@, seq_b@, scoring, i as int, j - 1, row@[j - 1]),
    ensures
        cell_correct(seq_a@, seq_b@, scoring, i as int, j as int, cell),
{
    let ghost a = seq_a@;
    let ghost b = seq_b@;
    proof {
        lemma_optimal_score_unfold(a, b, scoring, i as int, j as int);
        lemma_coord_set_empty();
        if i > 0 {
            lemma_optimal_score_bounded(a, b, scoring, i - 1, j as int);
            assert(cell_correct(a, b, scoring, i - 1, j as int, above@[i - 1]@[j as int]));
        }
        if j > 0 {
            lemma_optimal_score_bounded(a, b, scoring, i as int, j - 1);
        }
        if i > 0 && j > 0 {
            lemma_optimal_score_bounded(a, b, scoring, i - 1, j - 1);
            assert(cell_correct(a, b, scoring, i - 1, j - 1, above@[i - 1]@[j - 1]));
        }
    }
    let gap: i128 = scoring.gap_score as i128;
    let mut score: i128 = 0;
    let mut predecessors: Vec<(usize, usize)> = Vec::new();
    if i > 0 {
        score = above[i - 1][j].score + gap;
        predecessors = single((i - 1, j));
    }
    if j > 0 {
        let candidate: i128 = row[j - 1].score + gap;
        if i == 0 || candidate > score {
            score = candidate;
            predecessors = single((i, j - 1));
        } else if candidate == score {
            proof {
                lemma_coord_set_push(predecessors@, (i, (j - 1) as usize));
            }
            predecessors.push((i, j - 1));
        }
    }
    if i > 0 && j > 0 {
        let step: i128 = scoring.score_pair(seq_a[j - 1], seq_b[i - 1]) as i128;
        let candidate: i128 = above[i - 1][j - 1].score + step;
        if candidate > score {
            score = candidate;
            predecessors = single((i - 1, j - 1));
        } else if candidate == score {
            proof {
                lemma_coord_set_push(predecessors@, ((i - 1) as usize, (j - 1) as usize));
            }
            predecessors.push((i - 1, j - 1));
        }
    }
    assert(coord_set(predecessors@) =~= optimal_predecessors(a, b, scoring, i as int, j as int));
    Cell { score, predecessors }
}

/// Computes row `i` of the grid from the rows above it.
fn fill_row(seq_a: &[u8], seq_b: &[u8], scoring: Scoring, above: &Vec<Vec<Cell>>, i: usize) -> (row:
    Vec<Cell>)
    requires
        i <= seq_b@.len(),
        above@.len() == i,
        i > 0 ==> row_correct(seq_a@, seq_b@, scoring, i - 1, above@[i - 1]@),
    ensures
        row_correct(seq_a@, seq_b@, scoring, i as int, row@),
{
    let mut row: Vec<Cell> = Vec::new();
    while row.len() <= seq_a.len()
        invariant
            i <= seq_b@.len(),
            above@.len() == i,
            i > 0 ==> row_correct(seq_a@, seq_b@, scoring, i - 1, above@[i - 1]@),
            row@.len() <= seq_a@.len() + 1,
            forall|j: int|
                0 <= j < row@.len() ==> cell_correct(
                    seq_a@,
                    seq_b@,
                    scoring,
                    i as int,
                    j,
                    #[trigger] row@[j],
                ),
        decreases seq_a@.len() + 1 - row@.len(),
    {
        let j: usize = row.len();
        let cell = fill_cell(seq_a, seq_b, scoring, above, &row, i, j);
        row.push(cell);
    }
    row
}

/// Builds the scoring grid of `seq_a` and `seq_b`.
///
/// The grid has one row for each prefix of `seq_b` and one column for each
/// prefix of `seq_a`. Every cell holds the best of its applicable candidate
/// scores and exactly the neighbours that reach it, so the whole table is the
/// one that the recurrence gives.
pub fn build_grid(seq_a: &[u8], seq_b: &[u8], scoring: Scoring) -> (grid: Grid)
    ensures
        grid@.a == seq_a@,
        grid@.b == seq_b@,
        grid@.scoring == scoring,
        grid@.filled(),
{
    let mut cells: Vec<Vec<Cell>> = Vec::new();
    while cells.len() <= seq_b.len()
        invariant
            cells@.len() <= seq_b@.len() + 1,
            forall|i: int|
                0 <= i < cells@.len() ==> row_correct(
                    seq_a@,
                    seq_b@,
                    scoring,
                    i,
                    (#[trigger] cells@[i])@,
                ),
        decreases seq_b@.len() + 1 - cells@.len(),
    {
        let i: usize = cells.len();
        let row = fill_row(seq_a, seq_b, scoring, &cells, i);
        cells.push(row);
    }
    let grid = Grid { seq_a: slice_to_vec(seq_a), seq_b: slice_to_vec(seq_b), scoring, cells };
    proof {
        grid.lemma_inv_filled();
    }
    grid
}

/// The score of the whole alignment: that of the last cell of the grid,
/// which is the best score that an alignment of the two sequences reaches.
pub fn final_score(grid: &Grid) -> (score: i128)
    ensures
        grid@.filled(),
        score == grid@.score(grid@.b.len() as int, grid@.a.len() as int),
        is_best_score(grid@.scoring, grid@.a, grid@.b, score as int),
{
    proof {
        use_type_invariant(grid);
        grid.lemma_inv_filled();
        lemma_cell_score_is_best(grid@, grid@.b.len() as int, grid@.a.len() as int);
        assert(grid@.a.take(grid@.a.len() as int) =~= grid@.a);
        assert(grid@.b.take(grid@.b.len() as int) =~= grid@.b);
    }
    let i: usize = grid.seq_b.len();
    let j: usize = grid.seq_a.len();
    grid.cells[i][j].score
}

impl Grid {
    /// Number of rows: one for each prefix of the second sequence.
    pub fn rows(&self) -> (n: usize)
        ensures
            n == self@.rows(),
    {
        proof {
            use_type_invariant(self);
            self.lemma_inv_filled();
        }
        self.cells.len()
    }

    /// Number of columns: one for each prefix of the first sequence.
    pub fn cols(&self) -> (n: usize)
        ensures
            n == self@.cols(),
    {
        proof {
            use_type_invariant(self);
            self.lemma_inv_filled();
        }
        self.cells[0].len()
    }

    /// The first sequence.
    pub fn seq_a(&self) -> (a: &Vec<u8>)
        ensures
            a@ == self@.a,
    {
        &self.seq_a
    }

    /// The second sequence.
    pub fn seq_b(&self) -> (b: &Vec<u8>)
        ensures
            b@ == self@.b,
    {
        &self.seq_b
    }

    /// The scoring that the grid was built with.
    pub fn scoring(&self) -> (s: Scoring)
        ensures
            s == self@.scoring,
    {
        self.scoring
    }

    /// The cell in row `i` and column `j`. Its list of predecessors names
    /// each of them once.
    pub fn cell(&self, i: usize, j: usize) -> (c: &Cell)
        requires
            self@.in_range(i as int, j as int),
        ensures
            c@ == self@.cells[i as int][j as int],
            c.predecessors@.no_duplicates(),
            self@.filled(),
    {
        proof {
            use_type_invariant(self);
            self.lemma_inv_filled();
        }
        &self.cells[i][j]
    }
}

} // verus!
