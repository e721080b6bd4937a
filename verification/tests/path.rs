use global_alignment::path::{symbols_of, Action, AlignmentPath};
use global_alignment::render::{action_text, track_text, GAP};
use global_alignment::scoring::Scoring;

#[test]
fn new_alignment_has_no_column() {
    let p = AlignmentPath::new();
    assert!(p.a_track.is_empty());
    assert!(p.b_track.is_empty());
    assert!(p.actions.is_empty());
    assert_eq!(p.score(&Scoring::default()), 0);
}

#[test]
fn extended_adds_one_column_to_a_copy() {
    let p = AlignmentPath::new().extended(Some(b'A'), Some(b'A'), Action::Match);
    let q = p.extended(None, Some(b'C'), Action::Deletion);
    assert_eq!(p.a_track, vec![Some(b'A')]);
    assert_eq!(p.b_track, vec![Some(b'A')]);
    assert_eq!(p.actions, vec![Action::Match]);
    assert_eq!(q.a_track, vec![Some(b'A'), None]);
    assert_eq!(q.b_track, vec![Some(b'A'), Some(b'C')]);
    assert_eq!(q.actions, vec![Action::Match, Action::Deletion]);
}

#[test]
fn score_adds_the_column_scores() {
    let scoring = Scoring::new(5, -3, -4);
    let p = AlignmentPath {
        a_track: vec![None, Some(b'C'), Some(b'G'), Some(b'T')],
        b_track: vec![Some(b'G'), Some(b'C'), Some(b'A'), None],
        actions: vec![Action::Deletion, Action::Match, Action::Mismatch, Action::Insertion],
    };
    assert_eq!(p.score(&scoring), -4 + 5 - 3 - 4);
    assert_eq!(p.score(&Scoring::new(1, 10, 100)), 211);
}

#[test]
fn score_of_a_long_alignment_with_extreme_scores() {
    let p = AlignmentPath {
        a_track: vec![Some(b'A'); 1000],
        b_track: vec![Some(b'A'); 1000],
        actions: vec![Action::Match; 1000],
    };
    assert_eq!(p.score(&Scoring::new(i32::MAX, 0, 0)), 1000 * (i32::MAX as i128));
    assert_eq!(p.score(&Scoring::new(i32::MIN, 0, 0)), 1000 * (i32::MIN as i128));
}

#[test]
fn action_scores() {
    let scoring = Scoring::new(7, -2, -9);
    assert_eq!(scoring.score_action(Action::Match), 7);
    assert_eq!(scoring.score_action(Action::Mismatch), -2);
    assert_eq!(scoring.score_action(Action::Deletion), -9);
    assert_eq!(scoring.score_action(Action::Insertion), -9);
}

#[test]
fn symbols_of_leaves_the_gaps_out() {
    assert_eq!(symbols_of(&vec![None, Some(b'C'), None, None, Some(b'G')]), b"CG".to_vec());
    assert_eq!(symbols_of(&vec![None, None]), Vec::<u8>::new());
    assert_eq!(symbols_of(&vec![]), Vec::<u8>::new());
    assert_eq!(symbols_of(&vec![Some(b'-'), None, Some(0)]), vec![b'-', 0]);
}

#[test]
fn action_letters() {
    assert_eq!(Action::Match.letter(), 'Y');
    assert_eq!(Action::Mismatch.letter(), 'N');
    assert_eq!(Action::Deletion.letter(), 'D');
    assert_eq!(Action::Insertion.letter(), 'I');
}

#[test]
fn track_text_writes_a_gap_character_for_each_gap() {
    assert_eq!(GAP, '-');
    assert_eq!(track_text(&vec![None, Some(b'C'), Some(b'G'), None]), vec!['-', 'C', 'G', '-']);
    assert_eq!(track_text(&vec![]), Vec::<char>::new());
    assert_eq!(track_text(&vec![Some(0xe9)]), vec!['\u{e9}']);
}

#[test]
fn action_text_writes_one_letter_for_each_action() {
    let actions = vec![Action::Deletion, Action::Match, Action::Mismatch, Action::Insertion];
    assert_eq!(action_text(&actions), vec!['D', 'Y', 'N', 'I']);
    assert_eq!(action_text(&vec![]), Vec::<char>::new());
}
