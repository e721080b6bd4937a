//! Alignments as text: one character for each column of a track.

use vstd::prelude::*;
use crate::path::Action;

verus! {

/// The character that stands for a gap.
pub const GAP: char = '-';

/// The character of one column of a symbol track: the symbol itself, or the
/// gap character. A symbol that is the byte of the gap character reads like
/// a gap.
pub open spec fn symbol_char(x: Option<u8>) -> char {
    match x {
        Some(b) => b as char,
        None => '-',
    }
}

/// The letter of an action: `Y` for a match, `N` for a mismatch, `D` for a
/// deletion, `I` for an insertion.
pub open spec fn action_letter(action: Action) -> char {
    match action {
        Action::Match => 'Y',
        Action::Mismatch => 'N',
        Action::Deletion => 'D',
        Action::Insertion => 'I',
    }
}

impl Action {
    /// The letter of this action.
    pub fn letter(self) -> (c: char)
        ensures
            c == action_letter(self),
    {
        match self {
            Action::Match => 'Y',
            Action::Mismatch => 'N',
            Action::Deletion => 'D',
            Action::Insertion => 'I',
        }
    }
}

/// The characters of a symbol track, column by column.
pub fn track_text(track: &Vec<Option<u8>>) -> (text: Vec<char>)
    ensures
        text@ == track@.map_values(|x: Option<u8>| symbol_char(x)),
{
    let mut text: Vec<char> = Vec::new();
    let mut k: usize = 0;
    while k < track.len()
        invariant
            k <= track@.len(),
            text@ == track@.take(k as int).map_values(|x: Option<u8>| symbol_char(x)),
        decreases track@.len() - k,
    {
        let c: char = match track[k] {
            Some(b) => b as char,
            None => GAP,
        };
        text.push(c);
        assert(text@ =~= track@.take(k + 1).map_values(|x: Option<u8>| symbol_char(x)));
        k += 1;
    }
    assert(track@.take(k as int) =~= track@);
    text
}

/// The letters of an action track, column by column.
pub fn action_text(actions: &Vec<Action>) -> (text: Vec<char>)
    ensures
        text@ == actions@.map_values(|a: Action| action_letter(a)),
{
    let mut text: Vec<char> = Vec::new();
    let mut k: usize = 0;
    while k < actions.len()
        invariant
            k <= actions@.len(),
            text@ == actions@.take(k as int).map_values(|a: Action| action_letter(a)),
        decreases actions@.len() - k,
    {
        text.push(actions[k].letter());
        assert(text@ =~= actions@.take(k + 1).map_values(|a: Action| action_letter(a)));
        k += 1;
    }
    assert(actions@.take(k as int) =~= actions@);
    text
}

} // verus!
