//! A puzzle as its answer list gives it: the letters and the ledger.

use crate::codec::{ledger_of, read_words, split, split_lines};
use crate::ledger::FoundLedger;
use crate::letters::{deduce, Deduction};
use crate::text::{texts, to_chars, to_strings, to_words};
use vstd::prelude::*;

verus! {

/// What an answer list yields.
pub struct Puzzle {
    /// What the words say of the puzzle's letters.
    pub deduction: Deduction,
    /// The words with their flags. It holds every word of the list, also
    /// one with a letter that is not of the puzzle, and it is there whatever
    /// became of the letters.
    pub ledger: FoundLedger,
}

/// The letters and the ledger of the answer list `words`. Empty words count
/// for nothing; a marker at the end of a word says that the word is found.
pub fn get_letters(words: &Vec<String>) -> (r: Puzzle)
    ensures
        r.deduction.describes(texts(words@)),
        r.ledger.wf(),
        r.ledger@ == ledger_of(texts(words@)),
{
    let lists = to_words(words);
    let deduction = deduce(&lists);
    let ledger = read_words(&lists);
    Puzzle { deduction, ledger }
}

/// The lines of `text`: the answer list that a save text holds.
pub fn lines(text: &str) -> (r: Vec<String>)
    ensures
        texts(r@) == split_lines(text@),
{
    let chars = to_chars(text);
    let pieces = split(&chars);
    to_strings(&pieces)
}

} // verus!
