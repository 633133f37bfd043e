//! The letter-boxed puzzle: four sides of three letters each. The search
//! is not implemented yet and yields no words.

use vstd::prelude::*;

verus! {

/// The four sides of the box, three letters each.
#[derive(Debug)]
pub struct LetterBoxed {
    top: [u8; 3],
    right: [u8; 3],
    bottom: [u8; 3],
    left: [u8; 3],
}

impl LetterBoxed {
    /// The top side's letters.
    pub closed spec fn spec_top(&self) -> Seq<u8> {
        self.top@
    }

    /// The right side's letters.
    pub closed spec fn spec_right(&self) -> Seq<u8> {
        self.right@
    }

    /// The bottom side's letters.
    pub closed spec fn spec_bottom(&self) -> Seq<u8> {
        self.bottom@
    }

    /// The left side's letters.
    pub closed spec fn spec_left(&self) -> Seq<u8> {
        self.left@
    }

    /// A puzzle from its four sides.
    pub fn new(top: [u8; 3], right: [u8; 3], bottom: [u8; 3], left: [u8; 3]) -> (g: LetterBoxed)
        ensures
            g.spec_top() == top@,
            g.spec_right() == right@,
            g.spec_bottom() == bottom@,
            g.spec_left() == left@,
    {
        LetterBoxed { top, right, bottom, left }
    }

    /// The solutions found: none, until the solver exists.
    pub fn search(&self) -> (r: Vec<String>)
        ensures
            r@.len() == 0,
    {
        Vec::new()
    }
}

} // verus!
