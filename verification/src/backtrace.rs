//! Recovery of every optimal alignment from a filled grid.
//!
//! An alignment is read off the grid backwards: from a cell to one of its
//! predecessors, and so on to the origin. Where a cell has several
//! predecessors, each of them gives alignments of its own.

use vstd::prelude::*;
use crate::grid::{coord_set, coords, Grid};
use crate::laws::{lemma_trace_is_alignment, lemma_traces_are_the_best_alignments};
use crate::model::GridView;
use crate::path::{best_alignments, Action, AlignmentPath, AlignmentPathView};

verus! {

/// The cell from which a column with `action` leads to `(i, j)`.
pub open spec fn step_source(action: Action, i: int, j: int) -> (int, int) {
    match action {
        Action::Match => (i - 1, j - 1),
        Action::Mismatch => (i - 1, j - 1),
        Action::Deletion => (i - 1, j),
        Action::Insertion => (i, j - 1),
    }
}

/// The column `(x, y, action)` is the one that leads to `(i, j)` by `action`:
/// along the diagonal it holds the last symbols of both prefixes, and is a
/// match when they are the same; from above it holds a gap and the last
/// symbol of the second prefix; from the left the last symbol of the first
/// prefix and a gap.
pub open spec fn is_step(g: GridView, i: int, j: int, x: Option<u8>, y: Option<u8>, action: Action) -> bool {
    match action {
        Action::Match => i > 0 && j > 0 && x == Some(g.a[j - 1]) && y == Some(g.b[i - 1]) && g.a[j
            - 1] == g.b[i - 1],
        Action::Mismatch => i > 0 && j > 0 && x == Some(g.a[j - 1]) && y == Some(g.b[i - 1])
            && g.a[j - 1] != g.b[i - 1],
        Action::Deletion => i > 0 && x is None && y == Some(g.b[i - 1]),
        Action::Insertion => j > 0 && x == Some(g.a[j - 1]) && y is None,
    }
}

/// The alignment `p` follows the predecessors of the grid from the origin to
/// `(i, j)`: it is empty at the origin, and elsewhere its last column leads
/// to `(i, j)` from one of the predecessors of that cell, which the rest of
/// it reaches in the same way.
pub open spec fn is_trace(g: GridView, i: int, j: int, p: AlignmentPathView) -> bool
    decreases p.actions.len(),
{
    &&& p.a_track.len() == p.actions.len()
    &&& p.b_track.len() == p.actions.len()
    &&& if p.actions.len() == 0 {
        i == 0 && j == 0
    } else {
        let from = step_source(p.actions.last(), i, j);
        &&& is_step(g, i, j, p.a_track.last(), p.b_track.last(), p.actions.last())
        &&& g.predecessors(i, j).contains(from)
        &&& is_trace(g, from.0, from.1, p.drop_last())
    }
}

/// Every alignment that follows the predecessors from the origin to `(i, j)`.
pub open spec fn traces(g: GridView, i: int, j: int) -> Set<AlignmentPathView> {
    Set::new(|p: AlignmentPathView| is_trace(g, i, j, p))
}

/// The alignments that a list holds.
pub open spec fn path_set(paths: Seq<AlignmentPath>) -> Set<AlignmentPathView> {
    Set::new(|p: AlignmentPathView| exists|k: int| 0 <= k < paths.len() && (#[trigger] paths[k])@ == p)
}

/// No alignment stands twice in the list.
pub open spec fn distinct(paths: Seq<AlignmentPath>) -> bool {
    forall|k1: int, k2: int|
        0 <= k1 < k2 < paths.len() ==> (#[trigger] paths[k1])@ != (#[trigger] paths[k2])@
}

/// The alignment `p` follows the predecessors to `(i, j)` and arrives there
/// from one of the first `t` cells of `preds`.
spec fn arrives(g: GridView, i: int, j: int, preds: Seq<(usize, usize)>, t: int, p: AlignmentPathView) -> bool {
    &&& is_trace(g, i, j, p)
    &&& p.actions.len() > 0
    &&& exists|u: int|
        0 <= u < t && coords(#[trigger] preds[u]) == step_source(p.actions.last(), i, j)
}

/// A trace to a predecessor of `(i, j)`, extended by the column that leads
/// from there to `(i, j)`, is a trace to `(i, j)`.
proof fn lemma_extend_trace(
    g: GridView,
    i: int,
    j: int,
    q: AlignmentPathView,
    x: Option<u8>,
    y: Option<u8>,
    action: Action,
)
    requires
        is_step(g, i, j, x, y, action),
        g.predecessors(i, j).contains(step_source(action, i, j)),
        is_trace(g, step_source(action, i, j).0, step_source(action, i, j).1, q),
    ensures
        is_trace(g, i, j, q.push(x, y, action)),
        q.push(x, y, action).drop_last() == q,
{
    let p = q.push(x, y, action);
    assert(p.drop_last().a_track =~= q.a_track);
    assert(p.drop_last().b_track =~= q.b_track);
    assert(p.drop_last().actions =~= q.actions);
}

/// A trace of at least one column is its beginning, extended by its last
/// column.
proof fn lemma_trace_last(g: GridView, i: int, j: int, p: AlignmentPathView)
    requires
        is_trace(g, i, j, p),
        p.actions.len() > 0,
    ensures
        p == p.drop_last().push(p.a_track.last(), p.b_track.last(), p.actions.last()),
{
    let q = p.drop_last().push(p.a_track.last(), p.b_track.last(), p.actions.last());
    assert(q.a_track =~= p.a_track);
    assert(q.b_track =~= p.b_track);
    assert(q.actions =~= p.actions);
}

/// A list that holds the alignments read off a filled grid at `(i, j)` holds
/// the best alignments of the two prefixes, each with the score of the cell.
proof fn lemma_listed_traces(g: GridView, i: int, j: int, paths: Seq<AlignmentPath>)
    requires
        g.filled(),
        g.in_range(i, j),
        path_set(paths) == traces(g, i, j),
    ensures
        path_set(paths) == best_alignments(g.scoring, g.a.take(j), g.b.take(i)),
        forall|k: int|
            0 <= k < paths.len() ==> {
                &&& (#[trigger] paths[k])@.aligns(g.a.take(j), g.b.take(i))
                &&& g.scoring.path_score(paths[k]@.actions) == g.score(i, j)
            },
{
    lemma_traces_are_the_best_alignments(g, i, j);
    assert forall|k: int| 0 <= k < paths.len() implies {
        &&& (#[trigger] paths[k])@.aligns(g.a.take(j), g.b.take(i))
        &&& g.scoring.path_score(paths[k]@.actions) == g.score(i, j)
    } by {
        assert(path_set(paths).contains(paths[k]@));
        lemma_trace_is_alignment(g, i, j, paths[k]@);
    }
}

/// Appends to `results` each alignment of `prefixes`, extended by one column.
fn extend_all(
    results: &mut Vec<AlignmentPath>,
    prefixes: &Vec<AlignmentPath>,
    x: Option<u8>,
    y: Option<u8>,
    action: Action,
)
    ensures
        final(results)@.len() == old(results)@.len() + prefixes@.len(),
        forall|k: int| 0 <= k < old(results)@.len() ==> final(results)@[k] == old(results)@[k],
        forall|k: int|
            0 <= k < prefixes@.len() ==> (#[trigger] final(results)@[old(results)@.len() + k])@
                == prefixes@[k]@.push(x, y, action),
{
    let ghost before = results@;
    let mut k: usize = 0;
    while k < prefixes.len()
        invariant
            k <= prefixes@.len(),
            results@.len() == before.len() + k,
            forall|q: int| 0 <= q < before.len() ==> results@[q] == before[q],
            forall|q: int|
                0 <= q < k ==> (#[trigger] results@[before.len() + q])@ == prefixes@[q]@.push(
                    x,
                    y,
                    action,
                ),
        decreases prefixes@.len() - k,
    {
        let p = prefixes[k].extended(x, y, action);
        results.push(p);
        k += 1;
    }
}

/// Every optimal alignment of the first `j` symbols of the first sequence
/// with the first `i` symbols of the second.
///
/// The result holds, each once, exactly the alignments that follow the
/// predecessors of the grid from the origin to `(i, j)`. These are the
/// alignments of the two prefixes that no other outscores, and the score of
/// each is the score of the cell. The cell must lie in the grid.
pub fn backtrace(grid: &Grid, i: usize, j: usize) -> (paths: Vec<AlignmentPath>)
    requires
        grid@.in_range(i as int, j as int),
    ensures
        grid@.filled(),
        path_set(paths@) == traces(grid@, i as int, j as int),
        path_set(paths@) == best_alignments(
            grid@.scoring,
            grid@.a.take(j as int),
            grid@.b.take(i as int),
        ),
        distinct(paths@),
        forall|k: int|
            0 <= k < paths@.len() ==> {
                &&& (#[trigger] paths@[k])@.aligns(grid@.a.take(j as int), grid@.b.take(i as int))
                &&& grid@.scoring.path_score(paths@[k]@.actions) == grid@.score(i as int, j as int)
            },
    decreases i + j,
{
    let ghost g = grid@;
    let mut results: Vec<AlignmentPath> = Vec::new();
    let cell = grid.cell(i, j);
    assert(g.cell_filled(i as int, j as int));
    if i == 0 && j == 0 {
        results.push(AlignmentPath::new());
        proof {
            let only = AlignmentPathView::empty();
            assert(results@[0]@ == only);
            assert forall|p: AlignmentPathView| is_trace(g, 0, 0, p) implies p == only by {
                if p.actions.len() > 0 {
                    assert(!g.predecessors(0, 0).contains(step_source(p.actions.last(), 0, 0)));
                }
                assert(p.a_track =~= only.a_track);
                assert(p.b_track =~= only.b_track);
                assert(p.actions =~= only.actions);
            }
            assert(path_set(results@) =~= traces(g, 0, 0));
            lemma_listed_traces(g, 0, 0, results@);
        }
        return results;
    }
    let preds = &cell.predecessors;
    let seq_a = grid.seq_a();
    let seq_b = grid.seq_b();
    let mut t: usize = 0;
    while t < preds.len()
        invariant
            t <= preds@.len(),
            g == grid@,
            g.filled(),
            g.in_range(i as int, j as int),
            seq_a@ == g.a,
            seq_b@ == g.b,
            coord_set(preds@) == g.predecessors(i as int, j as int),
            preds@.no_duplicates(),
            distinct(results@),
            forall|p: AlignmentPathView|
                #![trigger path_set(results@).contains(p)]
                #![trigger arrives(g, i as int, j as int, preds@, t as int, p)]
                path_set(results@).contains(p) <==> arrives(g, i as int, j as int, preds@, t as int, p),
        decreases preds@.len() - t,
    {
        let from = preds[t];
        let pi: usize = from.0;
        let pj: usize = from.1;
        proof {
            assert(coord_set(preds@).contains(coords(preds@[t as int])));
            assert(g.cell_filled(i as int, j as int));
        }
        let x: Option<u8>;
        let y: Option<u8>;
        let action: Action;
        if pi < i && pj < j {
            x = Some(seq_a[pj]);
            y = Some(seq_b[pi]);
            action = if seq_a[pj] == seq_b[pi] {
                Action::Match
            } else {
                Action::Mismatch
            };
        } else if pi < i {
            x = None;
            y = Some(seq_b[pi]);
            action = Action::Deletion;
        } else {
            x = Some(seq_a[pj]);
            y = None;
            action = Action::Insertion;
        }
        assert(is_step(g, i as int, j as int, x, y, action));
        assert(step_source(action, i as int, j as int) == coords(from));
        let prefixes = backtrace(grid, pi, pj);
        let ghost before = results@;
        extend_all(&mut results, &prefixes, x, y, action);
        proof {
            let after = results@;
            // Each alignment of the list arrives from one of the first t + 1
            // predecessors.
            assert forall|p: AlignmentPathView| path_set(after).contains(p) implies arrives(
                g,
                i as int,
                j as int,
                preds@,
                t + 1,
                p,
            ) by {
                let k = choose|k: int| 0 <= k < after.len() && (#[trigger] after[k])@ == p;
                if k < before.len() {
                    assert(before[k]@ == p);
                    assert(path_set(before).contains(p));
                    assert(arrives(g, i as int, j as int, preds@, t as int, p));
                    let u = choose|u: int|
                        0 <= u < t && coords(#[trigger] preds@[u]) == step_source(
                            p.actions.last(),
                            i as int,
                            j as int,
                        );
                    assert(0 <= u < t + 1);
                } else {
                    let q = k - before.len();
                    assert(after[before.len() + q]@ == prefixes@[q]@.push(x, y, action));
                    assert(path_set(prefixes@).contains(prefixes@[q]@));
                    assert(traces(g, pi as int, pj as int).contains(prefixes@[q]@));
                    lemma_extend_trace(g, i as int, j as int, prefixes@[q]@, x, y, action);
                    assert(coords(preds@[t as int]) == step_source(
                        p.actions.last(),
                        i as int,
                        j as int,
                    ));
                }
            }
            // Each alignment that arrives from one of them is in the list.
            assert forall|p: AlignmentPathView|
                arrives(g, i as int, j as int, preds@, t + 1, p) implies path_set(after).contains(
                p,
            ) by {
                let u = choose|u: int|
                    0 <= u < t + 1 && coords(#[trigger] preds@[u]) == step_source(
                        p.actions.last(),
                        i as int,
                        j as int,
                    );
                if u < t {
                    assert(arrives(g, i as int, j as int, preds@, t as int, p));
                    assert(path_set(before).contains(p));
                    let k = choose|k: int| 0 <= k < before.len() && (#[trigger] before[k])@ == p;
                    assert(after[k] == before[k]);
                } else {
                    lemma_trace_last(g, i as int, j as int, p);
                    assert(traces(g, pi as int, pj as int).contains(p.drop_last()));
                    assert(path_set(prefixes@).contains(p.drop_last()));
                    let q = choose|q: int|
                        0 <= q < prefixes@.len() && (#[trigger] prefixes@[q])@ == p.drop_last();
                    assert(after[before.len() + q]@ == prefixes@[q]@.push(x, y, action));
                    assert(p.actions.last() == action);
                }
            }
            // No alignment stands twice in the list.
            assert forall|k1: int, k2: int| 0 <= k1 < k2 < after.len() implies (#[trigger] after[k1])@
                != (#[trigger] after[k2])@ by {
                if k2 < before.len() {
                    assert(after[k1] == before[k1]);
                    assert(after[k2] == before[k2]);
                } else {
                    let q2 = k2 - before.len();
                    assert(after[before.len() + q2]@ == prefixes@[q2]@.push(x, y, action));
                    assert(path_set(prefixes@).contains(prefixes@[q2]@));
                    lemma_extend_trace(g, i as int, j as int, prefixes@[q2]@, x, y, action);
                    if k1 < before.len() {
                        assert(after[k1] == before[k1]);
                        assert(path_set(before).contains(before[k1]@));
                        assert(arrives(g, i as int, j as int, preds@, t as int, before[k1]@));
                    } else {
                        let q1 = k1 - before.len();
                        assert(after[before.len() + q1]@ == prefixes@[q1]@.push(x, y, action));
                        assert(path_set(prefixes@).contains(prefixes@[q1]@));
                        lemma_extend_trace(g, i as int, j as int, prefixes@[q1]@, x, y, action);
                        assert(prefixes@[q1]@ != prefixes@[q2]@);
                    }
                }
            }
        }
        t += 1;
    }
    proof {
        assert forall|p: AlignmentPathView| is_trace(g, i as int, j as int, p) implies arrives(
            g,
            i as int,
            j as int,
            preds@,
            t as int,
            p,
        ) by {
            let from = step_source(p.actions.last(), i as int, j as int);
            assert(coord_set(preds@).contains(from));
        }
        assert(path_set(results@) =~= traces(g, i as int, j as int));
        lemma_listed_traces(g, i as int, j as int, results@);
    }
    results
}

} // verus!
