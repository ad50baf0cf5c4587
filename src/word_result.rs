use vstd::prelude::*;

verus! {

/// A scored word: its letters, its points, the cells it uses and the swaps it
/// makes. Rows and columns here count from 1.
pub struct WordResult {
    word: String,
    points: usize,
    spaces: Vec<Space>,
    swaps: Vec<Swap>,
}

/// A swapped cell: the letter on the board, the letter used instead, and the
/// cell's row and column counted from 1.
#[derive(Clone, Copy, PartialEq, Eq, Structural, Debug)]
pub struct Swap {
    pub original_char: char,
    pub new_char: char,
    pub row: usize,
    pub col: usize,
}

/// A cell of a word: the letter it contributes and its row and column
/// counted from 1.
#[derive(Clone, Copy, PartialEq, Eq, Structural, Debug)]
pub struct Space {
    pub character: char,
    pub row: usize,
    pub col: usize,
}

impl WordResult {
    pub closed spec fn spec_word(&self) -> Seq<char> {
        self.word@
    }

    pub closed spec fn spec_points(&self) -> nat {
        self.points as nat
    }

    pub closed spec fn spec_spaces(&self) -> Seq<Space> {
        self.spaces@
    }

    pub closed spec fn spec_swaps(&self) -> Seq<Swap> {
        self.swaps@
    }

    pub fn new(word: String, points: usize, swaps: Vec<Swap>, spaces: Vec<Space>) -> (r: WordResult)
        ensures
            r.spec_word() == word@,
            r.spec_points() == points,
            r.spec_swaps() == swaps@,
            r.spec_spaces() == spaces@,
    {
        WordResult { word, points, spaces, swaps }
    }

    pub fn word(&self) -> (r: &str)
        ensures
            r@ == self.spec_word(),
    {
        self.word.as_str()
    }

    pub fn points(&self) -> (r: usize)
        ensures
            r == self.spec_points(),
    {
        self.points
    }

    pub fn spaces(&self) -> (r: &Vec<Space>)
        ensures
            r@ == self.spec_spaces(),
    {
        &self.spaces
    }

    pub fn swaps(&self) -> (r: &Vec<Swap>)
        ensures
            r@ == self.spec_swaps(),
    {
        &self.swaps
    }
}

impl Swap {
    pub fn new(original_char: char, new_char: char, row: usize, col: usize) -> (r: Swap)
        ensures
            r == (Swap { original_char, new_char, row, col }),
    {
        Swap { original_char, new_char, row, col }
    }
}

impl Space {
    pub fn new(character: char, row: usize, col: usize) -> (r: Space)
        ensures
            r == (Space { character, row, col }),
    {
        Space { character, row, col }
    }

    pub fn row(&self) -> (r: usize)
        ensures
            r == self.row,
    {
        self.row
    }

    pub fn col(&self) -> (r: usize)
        ensures
            r == self.col,
    {
        self.col
    }
}

} // verus!
