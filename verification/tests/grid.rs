use global_alignment::grid::{build_grid, final_score, Grid};
use global_alignment::scoring::Scoring;

fn scores_of(grid: &Grid) -> Vec<Vec<i128>> {
    let mut table: Vec<Vec<i128>> = Vec::new();
    for i in 0..grid.rows() {
        let mut row: Vec<i128> = Vec::new();
        for j in 0..grid.cols() {
            row.push(grid.cell(i, j).score);
        }
        table.push(row);
    }
    table
}

fn sorted_predecessors(grid: &Grid, i: usize, j: usize) -> Vec<(usize, usize)> {
    let mut ps: Vec<(usize, usize)> = grid.cell(i, j).predecessors.clone();
    ps.sort();
    ps
}

/// Recomputes every cell from its neighbours and compares.
fn check_every_cell(seq_a: &[u8], seq_b: &[u8], scoring: Scoring) {
    let grid = build_grid(seq_a, seq_b, scoring);
    assert_eq!(grid.rows(), seq_b.len() + 1);
    assert_eq!(grid.cols(), seq_a.len() + 1);
    for i in 0..grid.rows() {
        for j in 0..grid.cols() {
            let mut candidates: Vec<(i128, (usize, usize))> = Vec::new();
            if i > 0 {
                candidates.push((grid.cell(i - 1, j).score + scoring.gap_score as i128, (i - 1, j)));
            }
            if j > 0 {
                candidates.push((grid.cell(i, j - 1).score + scoring.gap_score as i128, (i, j - 1)));
            }
            if i > 0 && j > 0 {
                let step: i32 = if seq_a[j - 1] == seq_b[i - 1] {
                    scoring.match_score
                } else {
                    scoring.mismatch_score
                };
                candidates.push((grid.cell(i - 1, j - 1).score + step as i128, (i - 1, j - 1)));
            }
            let cell = grid.cell(i, j);
            if candidates.is_empty() {
                assert_eq!(cell.score, 0);
                assert!(cell.predecessors.is_empty());
            } else {
                let best: i128 = candidates.iter().map(|c| c.0).max().unwrap();
                assert_eq!(cell.score, best, "score at ({}, {})", i, j);
                let mut expected: Vec<(usize, usize)> =
                    candidates.iter().filter(|c| c.0 == best).map(|c| c.1).collect();
                expected.sort();
                assert_eq!(sorted_predecessors(&grid, i, j), expected, "predecessors at ({}, {})", i, j);
            }
        }
    }
}

#[test]
fn origin_has_score_zero_and_no_predecessor() {
    let grid = build_grid(b"CGTGAA", b"GACTTAC", Scoring::default());
    assert_eq!(grid.cell(0, 0).score, 0);
    assert!(grid.cell(0, 0).predecessors.is_empty());
}

#[test]
fn grid_has_one_row_per_prefix_of_b_and_one_column_per_prefix_of_a() {
    let grid = build_grid(b"CGTGAA", b"GACTTAC", Scoring::default());
    assert_eq!(grid.rows(), 8);
    assert_eq!(grid.cols(), 7);
    assert_eq!(grid.seq_a().as_slice(), b"CGTGAA");
    assert_eq!(grid.seq_b().as_slice(), b"GACTTAC");
    assert_eq!(grid.scoring(), Scoring::new(5, -3, -4));
}

#[test]
fn nucleotide_grid_scores() {
    let grid = build_grid(b"CGTGAA", b"GACTTAC", Scoring::new(5, -3, -4));
    let expected: Vec<Vec<i128>> = vec![
        vec![0, -4, -8, -12, -16, -20, -24],
        vec![-4, -3, 1, -3, -7, -11, -15],
        vec![-8, -7, -3, -2, -6, -2, -6],
        vec![-12, -3, -7, -6, -5, -6, -5],
        vec![-16, -7, -6, -2, -6, -8, -9],
        vec![-20, -11, -10, -1, -5, -9, -11],
        vec![-24, -15, -14, -5, -4, 0, -4],
        vec![-28, -19, -18, -9, -8, -4, -3],
    ];
    assert_eq!(scores_of(&grid), expected);
}

#[test]
fn nucleotide_final_score() {
    let grid = build_grid(b"CGTGAA", b"GACTTAC", Scoring::new(5, -3, -4));
    assert_eq!(final_score(&grid), -3);
    assert_eq!(final_score(&grid), grid.cell(7, 6).score);
}

#[test]
fn final_score_of_empty_sequences_is_zero() {
    let grid = build_grid(b"", b"", Scoring::default());
    assert_eq!(grid.rows(), 1);
    assert_eq!(grid.cols(), 1);
    assert_eq!(final_score(&grid), 0);
}

#[test]
fn first_row_and_first_column_are_multiples_of_the_gap() {
    let grid = build_grid(b"ACGT", b"TGC", Scoring::new(5, -3, -4));
    for j in 0..5usize {
        assert_eq!(grid.cell(0, j).score, -4 * j as i128);
        if j > 0 {
            assert_eq!(grid.cell(0, j).predecessors, vec![(0, j - 1)]);
        }
    }
    for i in 0..4usize {
        assert_eq!(grid.cell(i, 0).score, -4 * i as i128);
        if i > 0 {
            assert_eq!(grid.cell(i, 0).predecessors, vec![(i - 1, 0)]);
        }
    }
}

#[test]
fn empty_first_sequence_gives_one_column() {
    let grid = build_grid(b"", b"ACGT", Scoring::new(5, -3, -4));
    assert_eq!(grid.rows(), 5);
    assert_eq!(grid.cols(), 1);
    assert_eq!(scores_of(&grid), vec![vec![0i128], vec![-4], vec![-8], vec![-12], vec![-16]]);
    assert_eq!(final_score(&grid), 4 * -4);
}

#[test]
fn empty_second_sequence_gives_one_row() {
    let grid = build_grid(b"ACGT", b"", Scoring::new(5, -3, -4));
    assert_eq!(grid.rows(), 1);
    assert_eq!(grid.cols(), 5);
    assert_eq!(scores_of(&grid), vec![vec![0i128, -4, -8, -12, -16]]);
    assert_eq!(final_score(&grid), -16);
}

#[test]
fn single_match_and_single_mismatch() {
    let same = build_grid(b"A", b"A", Scoring::new(5, -3, -4));
    assert_eq!(final_score(&same), 5);
    assert_eq!(same.cell(1, 1).predecessors, vec![(0, 0)]);
    let other = build_grid(b"A", b"C", Scoring::new(5, -3, -4));
    assert_eq!(final_score(&other), -3);
    assert_eq!(other.cell(1, 1).predecessors, vec![(0, 0)]);
}

#[test]
fn tied_candidates_are_all_kept() {
    let grid = build_grid(b"AC", b"AC", Scoring::new(-6, -3, -3));
    assert_eq!(scores_of(&grid), vec![vec![0i128, -3, -6], vec![-3, -6, -6], vec![-6, -6, -9]]);
    assert_eq!(sorted_predecessors(&grid, 1, 1), vec![(0, 0), (0, 1), (1, 0)]);
    assert_eq!(sorted_predecessors(&grid, 1, 2), vec![(0, 1)]);
    assert_eq!(sorted_predecessors(&grid, 2, 1), vec![(1, 0)]);
    assert_eq!(sorted_predecessors(&grid, 2, 2), vec![(1, 2), (2, 1)]);
}

#[test]
fn untied_candidates_leave_one_predecessor() {
    let grid = build_grid(b"AC", b"AC", Scoring::new(5, -3, -3));
    assert_eq!(scores_of(&grid), vec![vec![0i128, -3, -6], vec![-3, 5, 2], vec![-6, 2, 10]]);
    assert_eq!(sorted_predecessors(&grid, 1, 1), vec![(0, 0)]);
    assert_eq!(sorted_predecessors(&grid, 1, 2), vec![(1, 1)]);
    assert_eq!(sorted_predecessors(&grid, 2, 1), vec![(1, 1)]);
    assert_eq!(sorted_predecessors(&grid, 2, 2), vec![(1, 1)]);
}

#[test]
fn no_predecessor_is_listed_twice() {
    let grid = build_grid(b"AAAA", b"AAA", Scoring::new(-2, -2, -1));
    for i in 0..grid.rows() {
        for j in 0..grid.cols() {
            let ps = sorted_predecessors(&grid, i, j);
            for k in 1..ps.len() {
                assert_ne!(ps[k - 1], ps[k]);
            }
        }
    }
}

#[test]
fn every_cell_is_the_best_of_its_candidates() {
    check_every_cell(b"CGTGAA", b"GACTTAC", Scoring::new(5, -3, -4));
    check_every_cell(b"GATTACA", b"GCATGCU", Scoring::new(1, -1, -1));
    check_every_cell(b"AC", b"AC", Scoring::new(-6, -3, -3));
    check_every_cell(b"AAAA", b"AAA", Scoring::new(-2, -2, -1));
    check_every_cell(b"", b"ACGT", Scoring::new(5, -3, -4));
    check_every_cell(b"ACGT", b"", Scoring::new(5, -3, -4));
    check_every_cell(b"", b"", Scoring::new(5, -3, -4));
    check_every_cell(b"ABC", b"XYZ", Scoring::new(0, 0, 0));
    check_every_cell(b"ABAB", b"BABA", Scoring::new(3, 4, 5));
}

#[test]
fn building_twice_gives_the_same_grid() {
    let first = build_grid(b"GATTACA", b"GCATGCU", Scoring::new(1, -1, -1));
    let second = build_grid(b"GATTACA", b"GCATGCU", Scoring::new(1, -1, -1));
    assert_eq!(first.rows(), second.rows());
    assert_eq!(first.cols(), second.cols());
    for i in 0..first.rows() {
        for j in 0..first.cols() {
            assert_eq!(first.cell(i, j).score, second.cell(i, j).score);
            assert_eq!(sorted_predecessors(&first, i, j), sorted_predecessors(&second, i, j));
        }
    }
}

#[test]
fn extreme_scores_do_not_overflow() {
    let low = build_grid(b"AAAA", b"CCCC", Scoring::new(i32::MIN, i32::MIN, i32::MIN));
    assert_eq!(final_score(&low), 4 * (i32::MIN as i128));
    let high = build_grid(b"AAAA", b"AAAA", Scoring::new(i32::MAX, i32::MAX, i32::MAX));
    assert_eq!(final_score(&high), 8 * (i32::MAX as i128));
}

#[test]
fn symbols_may_be_any_byte() {
    let grid = build_grid(&[0u8, 255, b'-'], &[0u8, b'-'], Scoring::new(2, -1, -1));
    assert_eq!(final_score(&grid), 3);
}

#[test]
fn default_scoring_is_five_minus_three_minus_four() {
    let scoring = Scoring::default();
    assert_eq!(scoring.match_score, 5);
    assert_eq!(scoring.mismatch_score, -3);
    assert_eq!(scoring.gap_score, -4);
}

#[test]
fn pair_score_is_match_or_mismatch() {
    let scoring = Scoring::new(7, -2, -9);
    assert_eq!(scoring.score_pair(b'A', b'A'), 7);
    assert_eq!(scoring.score_pair(b'A', b'C'), -2);
    assert_eq!(scoring.score_pair(0, 0), 7);
    assert_eq!(scoring.score_pair(0, 255), -2);
}
