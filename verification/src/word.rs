//! A single word, held as owned text.

use vstd::prelude::*;

verus! {

/// One word of the dictionary, as text.
#[derive(Debug, Clone, PartialEq, Eq)]
pub struct Word(String);

impl View for Word {
    type V = Seq<char>;

    closed spec fn view(&self) -> Seq<char> {
        self.0@
    }
}

impl Word {
    /// Wraps the text as a word.
    pub fn new(s: String) -> (w: Word)
        ensures
            w@ == s@,
    {
        Word(s)
    }

    /// The word's text.
    pub fn value(&self) -> (r: &String)
        ensures
            r@ == self@,
    {
        &self.0
    }
}

} // verus!
