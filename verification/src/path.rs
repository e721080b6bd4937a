//! Alignments as three parallel tracks.
//!
//! Column `k` of an alignment holds a symbol of the first sequence or a gap,
//! a symbol of the second sequence or a gap, and the action that the column
//! stands for. A gap is `None`, so a track can hold every byte as a symbol.

use vstd::prelude::*;
use crate::scoring::Scoring;

verus! {

/// What one column of an alignment does.
#[derive(Clone, Copy, Debug, PartialEq, Eq, Structural)]
pub enum Action {
    /// Both sequences advance over the same symbol.
    Match,
    /// Both sequences advance over different symbols.
    Mismatch,
    /// Only the second sequence advances; the first track holds a gap.
    Deletion,
    /// Only the first sequence advances; the second track holds a gap.
    Insertion,
}

/// One alignment of two sequences.
#[derive(Clone, Debug, PartialEq, Eq)]
pub struct AlignmentPath {
    pub a_track: Vec<Option<u8>>,
    pub b_track: Vec<Option<u8>>,
    pub actions: Vec<Action>,
}

/// An alignment as a value.
pub struct AlignmentPathView {
    pub a_track: Seq<Option<u8>>,
    pub b_track: Seq<Option<u8>>,
    pub actions: Seq<Action>,
}

impl View for AlignmentPath {
    type V = AlignmentPathView;

    open spec fn view(&self) -> AlignmentPathView {
        AlignmentPathView { a_track: self.a_track@, b_track: self.b_track@, actions: self.actions@ }
    }
}

/// The symbols of a track in order, its gaps left out.
pub open spec fn strip_gaps(track: Seq<Option<u8>>) -> Seq<u8>
    decreases track.len(),
{
    if track.len() == 0 {
        Seq::empty()
    } else {
        match track.last() {
            Some(x) => strip_gaps(track.drop_last()).push(x),
            None => strip_gaps(track.drop_last()),
        }
    }
}

/// The action agrees with what the two tracks hold in its column: a match or
/// a mismatch stands where neither track has a gap, according to whether the
/// symbols are the same; a deletion where the first track has the gap; an
/// insertion where the second has it.
pub open spec fn column_fits(x: Option<u8>, y: Option<u8>, action: Action) -> bool {
    match action {
        Action::Match => x is Some && y is Some && x == y,
        Action::Mismatch => x is Some && y is Some && x != y,
        Action::Deletion => x is None && y is Some,
        Action::Insertion => x is Some && y is None,
    }
}

impl Scoring {
    /// Score of one column, by its action.
    pub open spec fn action_score(self, action: Action) -> int {
        match action {
            Action::Match => self.match_score as int,
            Action::Mismatch => self.mismatch_score as int,
            Action::Deletion => self.gap_score as int,
            Action::Insertion => self.gap_score as int,
        }
    }

    /// Sum of the column scores of an action track.
    pub open spec fn path_score(self, actions: Seq<Action>) -> int
        decreases actions.len(),
    {
        if actions.len() == 0 {
            0
        } else {
            self.path_score(actions.drop_last()) + self.action_score(actions.last())
        }
    }

    /// Score of one column, by its action.
    pub fn score_action(&self, action: Action) -> (s: i32)
        ensures
            s == self.action_score(action),
    {
        match action {
            Action::Match => self.match_score,
            Action::Mismatch => self.mismatch_score,
            Action::Deletion => self.gap_score,
            Action::Insertion => self.gap_score,
        }
    }
}

impl AlignmentPathView {
    pub open spec fn empty() -> AlignmentPathView {
        AlignmentPathView { a_track: Seq::empty(), b_track: Seq::empty(), actions: Seq::empty() }
    }

    /// The alignment with one more column at its end.
    pub open spec fn push(self, x: Option<u8>, y: Option<u8>, action: Action) -> AlignmentPathView {
        AlignmentPathView {
            a_track: self.a_track.push(x),
            b_track: self.b_track.push(y),
            actions: self.actions.push(action),
        }
    }

    /// The alignment without its last column.
    pub open spec fn drop_last(self) -> AlignmentPathView {
        AlignmentPathView {
            a_track: self.a_track.drop_last(),
            b_track: self.b_track.drop_last(),
            actions: self.actions.drop_last(),
        }
    }

    /// The three tracks have one length, and each action agrees with its
    /// column.
    pub open spec fn well_formed(self) -> bool {
        &&& self.a_track.len() == self.actions.len()
        &&& self.b_track.len() == self.actions.len()
        &&& forall|k: int|
            0 <= k < self.actions.len() ==> column_fits(
                self.a_track[k],
                self.b_track[k],
                #[trigger] self.actions[k],
            )
    }

    /// The alignment is one of `x` with `y`: it is well formed, its first
    /// track spells `x` and its second track spells `y`.
    pub open spec fn aligns(self, x: Seq<u8>, y: Seq<u8>) -> bool {
        &&& self.well_formed()
        &&& strip_gaps(self.a_track) == x
        &&& strip_gaps(self.b_track) == y
    }
}

/// The alignment `p` is one of `x` with `y`, and no alignment of `x` with
/// `y` scores more.
pub open spec fn is_best_alignment(s: Scoring, x: Seq<u8>, y: Seq<u8>, p: AlignmentPathView) -> bool {
    &&& p.aligns(x, y)
    &&& forall|q: AlignmentPathView|
        q.aligns(x, y) ==> #[trigger] s.path_score(q.actions) <= s.path_score(p.actions)
}

/// Every alignment of `x` with `y` that no other outscores.
pub open spec fn best_alignments(s: Scoring, x: Seq<u8>, y: Seq<u8>) -> Set<AlignmentPathView> {
    Set::new(|p: AlignmentPathView| is_best_alignment(s, x, y, p))
}

/// The score `v` is the best that an alignment of `x` with `y` reaches: some
/// alignment reaches it and none scores more.
pub open spec fn is_best_score(s: Scoring, x: Seq<u8>, y: Seq<u8>, v: int) -> bool {
    &&& exists|p: AlignmentPathView| p.aligns(x, y) && #[trigger] s.path_score(p.actions) == v
    &&& forall|q: AlignmentPathView| q.aligns(x, y) ==> #[trigger] s.path_score(q.actions) <= v
}

/// A copy of `items` with `last` added at its end.
fn with_last<T: Copy>(items: &Vec<T>, last: T) -> (r: Vec<T>)
    ensures
        r@ == items@.push(last),
{
    let mut r: Vec<T> = Vec::new();
    let mut k: usize = 0;
    while k < items.len()
        invariant
            k <= items@.len(),
            r@ == items@.take(k as int),
        decreases items@.len() - k,
    {
        r.push(items[k]);
        assert(items@.take(k as int).push(items@[k as int]) =~= items@.take(k + 1));
        k += 1;
    }
    r.push(last);
    assert(items@.take(items@.len() as int) =~= items@);
    r
}

impl AlignmentPath {
    /// The alignment of two empty sequences: no column.
    pub fn new() -> (p: AlignmentPath)
        ensures
            p@ == AlignmentPathView::empty(),
    {
        AlignmentPath { a_track: Vec::new(), b_track: Vec::new(), actions: Vec::new() }
    }

    /// A copy of this alignment with one more column at its end.
    pub fn extended(&self, x: Option<u8>, y: Option<u8>, action: Action) -> (p: AlignmentPath)
        ensures
            p@ == self@.push(x, y, action),
    {
        AlignmentPath {
            a_track: with_last(&self.a_track, x),
            b_track: with_last(&self.b_track, y),
            actions: with_last(&self.actions, action),
        }
    }

    /// Sum of the column scores of this alignment.
    pub fn score(&self, scoring: &Scoring) -> (total: i128)
        ensures
            total == scoring.path_score(self@.actions),
    {
        let mut total: i128 = 0;
        let mut k: usize = 0;
        while k < self.actions.len()
            invariant
                k <= self.actions@.len(),
                total == scoring.path_score(self.actions@.take(k as int)),
                -k * 0x8000_0000 <= total <= k * 0x8000_0000,
            decreases self.actions@.len() - k,
        {
            assert(self.actions@.take(k + 1).drop_last() =~= self.actions@.take(k as int));
            total = total + scoring.score_action(self.actions[k]) as i128;
            k += 1;
        }
        assert(self.actions@.take(k as int) =~= self.actions@);
        total
    }
}

/// The symbols of a track in order, its gaps left out.
pub fn symbols_of(track: &Vec<Option<u8>>) -> (symbols: Vec<u8>)
    ensures
        symbols@ == strip_gaps(track@),
{
    let mut symbols: Vec<u8> = Vec::new();
    let mut k: usize = 0;
    while k < track.len()
        invariant
            k <= track@.len(),
            symbols@ == strip_gaps(track@.take(k as int)),
        decreases track@.len() - k,
    {
        assert(track@.take(k + 1).drop_last() =~= track@.take(k as int));
        match track[k] {
            Some(x) => {
                symbols.push(x);
            },
            None => {},
        }
        k += 1;
    }
    assert(track@.take(k as int) =~= track@);
    symbols
}

} // verus!
