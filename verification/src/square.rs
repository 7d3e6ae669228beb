//! The squares of the board, its columns and its rows.

use crate::bitboard::BitBoard;
use vstd::prelude::*;

verus! {

/// A column of the board, from `A` on the left to `I` on the right.
#[derive(Clone, Copy, Debug, PartialEq, Eq, PartialOrd, Ord, Hash, Structural)]
pub enum File {
    A,
    B,
    C,
    D,
    E,
    F,
    G,
    H,
    I,
}

impl View for File {
    type V = int;

    /// The column's number, `0` for `A` up to `8` for `I`.
    open spec fn view(&self) -> int {
        match self {
            File::A => 0,
            File::B => 1,
            File::C => 2,
            File::D => 3,
            File::E => 4,
            File::F => 5,
            File::G => 6,
            File::H => 7,
            File::I => 8,
        }
    }
}

impl File {
    /// How many columns the board has.
    pub const NUM: usize = 9;

    /// Every column, in ascending order.
    pub const ALL: [File; 9] = [
        File::A,
        File::B,
        File::C,
        File::D,
        File::E,
        File::F,
        File::G,
        File::H,
        File::I,
    ];

    /// The column with the given number, if there is one.
    pub fn try_index(index: usize) -> (r: Option<File>)
        ensures
            r is Some <==> index < 9,
            r matches Some(file) ==> file@ == index,
    {
        match index {
            0 => Some(File::A),
            1 => Some(File::B),
            2 => Some(File::C),
            3 => Some(File::D),
            4 => Some(File::E),
            5 => Some(File::F),
            6 => Some(File::G),
            7 => Some(File::H),
            8 => Some(File::I),
            _ => None,
        }
    }

    /// The column with the given number.
    pub fn index(index: usize) -> (r: File)
        requires
            index < 9,
        ensures
            r@ == index,
    {
        match File::try_index(index) {
            Some(file) => file,
            None => File::A,
        }
    }

    /// The column's number.
    pub fn to_index(self) -> (r: usize)
        ensures
            r == self@,
            r < 9,
    {
        match self {
            File::A => 0,
            File::B => 1,
            File::C => 2,
            File::D => 3,
            File::E => 4,
            File::F => 5,
            File::G => 6,
            File::H => 7,
            File::I => 8,
        }
    }
}

/// A row of the board, from `First` at the bottom to `Tenth` at the top.
#[derive(Clone, Copy, Debug, PartialEq, Eq, PartialOrd, Ord, Hash, Structural)]
pub enum Rank {
    First,
    Second,
    Third,
    Fourth,
    Fifth,
    Sixth,
    Seventh,
    Eighth,
    Nineth,
    Tenth,
}

impl View for Rank {
    type V = int;

    /// The row's number, `0` for `First` up to `9` for `Tenth`.
    open spec fn view(&self) -> int {
        match self {
            Rank::First => 0,
            Rank::Second => 1,
            Rank::Third => 2,
            Rank::Fourth => 3,
            Rank::Fifth => 4,
            Rank::Sixth => 5,
            Rank::Seventh => 6,
            Rank::Eighth => 7,
            Rank::Nineth => 8,
            Rank::Tenth => 9,
        }
    }
}

impl Rank {
    /// How many rows the board has.
    pub const NUM: usize = 10;

    /// Every row, in ascending order.
    pub const ALL: [Rank; 10] = [
        Rank::First,
        Rank::Second,
        Rank::Third,
        Rank::Fourth,
        Rank::Fifth,
        Rank::Sixth,
        Rank::Seventh,
        Rank::Eighth,
        Rank::Nineth,
        Rank::Tenth,
    ];

    /// The row with the given number, if there is one.
    pub fn try_index(index: usize) -> (r: Option<Rank>)
        ensures
            r is Some <==> index < 10,
            r matches Some(rank) ==> rank@ == index,
    {
        match index {
            0 => Some(Rank::First),
            1 => Some(Rank::Second),
            2 => Some(Rank::Third),
            3 => Some(Rank::Fourth),
            4 => Some(Rank::Fifth),
            5 => Some(Rank::Sixth),
            6 => Some(Rank::Seventh),
            7 => Some(Rank::Eighth),
            8 => Some(Rank::Nineth),
            9 => Some(Rank::Tenth),
            _ => None,
        }
    }

    /// The row with the given number.
    pub fn index(index: usize) -> (r: Rank)
        requires
            index < 10,
        ensures
            r@ == index,
    {
        match Rank::try_index(index) {
            Some(rank) => rank,
            None => Rank::First,
        }
    }

    /// The row's number.
    pub fn to_index(self) -> (r: usize)
        ensures
            r == self@,
            r < 10,
    {
        match self {
            Rank::First => 0,
            Rank::Second => 1,
            Rank::Third => 2,
            Rank::Fourth => 3,
            Rank::Fifth => 4,
            Rank::Sixth => 5,
            Rank::Seventh => 6,
            Rank::Eighth => 7,
            Rank::Nineth => 8,
            Rank::Tenth => 9,
        }
    }
}

/// Whether column `file` and row `rank` name a cell of the 9 by 10 board.
pub open spec fn on_board(file: int, rank: int) -> bool {
    0 <= file < 9 && 0 <= rank < 10
}

/// The number of the cell in column `file` and row `rank`: cells are counted
/// row by row, starting at the bottom left.
pub open spec fn cell(file: int, rank: int) -> int {
    file + 9 * rank
}

/// The cell reached from `from` by moving `df` columns and `dr` rows, if it
/// lies on the board.
pub open spec fn shifted(from: int, df: int, dr: int) -> Option<int> {
    if on_board(from % 9 + df, from / 9 + dr) {
        Some(cell(from % 9 + df, from / 9 + dr))
    } else {
        None
    }
}

/// One cell of the board. Its view is the cell's number, from `0` to `89`.
#[derive(Clone, Copy, Debug, PartialEq, Eq, PartialOrd, Ord, Hash, Structural)]
pub struct Square {
    idx: u8,
}

impl View for Square {
    type V = int;

    closed spec fn view(&self) -> int {
        self.idx as int
    }
}

impl Square {
    /// How many cells the board has.
    pub const NUM: usize = 90;

    /// Every square holds the number of a cell of the board.
    #[verifier::type_invariant]
    pub open spec fn in_range(self) -> bool {
        0 <= self@ < 90
    }

    /// Squares are told apart by their numbers.
    pub proof fn lemma_same_number(self, other: Square)
        ensures
            self@ == other@ <==> self == other,
    {
    }

    /// The square in the given column and row.
    pub fn new(file: File, rank: Rank) -> (r: Square)
        ensures
            r@ == cell(file@, rank@),
    {
        Square::index(file.to_index() + rank.to_index() * 9)
    }

    /// The square with the given number, if there is one.
    pub fn try_index(index: usize) -> (r: Option<Square>)
        ensures
            r is Some <==> index < 90,
            r matches Some(square) ==> square@ == index,
    {
        if index < 90 {
            Some(Square { idx: index as u8 })
        } else {
            None
        }
    }

    /// The square with the given number.
    pub fn index(index: usize) -> (r: Square)
        requires
            index < 90,
        ensures
            r@ == index,
    {
        Square { idx: index as u8 }
    }

    /// The square's number.
    pub fn to_index(self) -> (r: usize)
        ensures
            r == self@,
            r < 90,
    {
        proof {
            use_type_invariant(&self);
        }
        self.idx as usize
    }

    /// Every square, in ascending order.
    pub fn all() -> (r: Vec<Square>)
        ensures
            r.len() == 90,
            forall|i: int| 0 <= i < 90 ==> #[trigger] r[i]@ == i,
    {
        let mut squares: Vec<Square> = Vec::new();
        let mut index: usize = 0;
        while index < 90
            invariant
                index <= 90,
                squares.len() == index,
                forall|i: int| 0 <= i < index ==> #[trigger] squares[i]@ == i,
            decreases 90 - index,
        {
            squares.push(Square::index(index));
            index = index + 1;
        }
        squares
    }

    /// The column the square stands in.
    pub fn file(self) -> (r: File)
        ensures
            r@ == self@ % 9,
    {
        File::index(self.to_index() % 9)
    }

    /// The row the square stands in.
    pub fn rank(self) -> (r: Rank)
        ensures
            r@ == self@ / 9,
    {
        Rank::index(self.to_index() / 9)
    }

    /// The board that holds this square and no other.
    pub fn bitboard(self) -> (r: BitBoard)
        ensures
            r.0 == 1u128 << (self@ as u128),
            r.wf(),
            r@ == set![self@],
    {
        let index = self.to_index();
        proof {
            crate::bitboard::lemma_single_square(index as int);
        }
        BitBoard(1u128 << index)
    }

    /// The square `file_offset` columns and `rank_offset` rows away, or `None`
    /// where that leaves the board.
    pub fn try_offset(self, file_offset: i8, rank_offset: i8) -> (r: Option<Square>)
        ensures
            match r {
                Some(square) => shifted(self@, file_offset as int, rank_offset as int) == Some(
                    square@,
                ),
                None => shifted(self@, file_offset as int, rank_offset as int) is None,
            },
    {
        let index = self.to_index();
        let file: i16 = (index % 9) as i16 + file_offset as i16;
        let rank: i16 = (index / 9) as i16 + rank_offset as i16;
        if 0 <= file && file < 9 && 0 <= rank && rank < 10 {
            Some(Square { idx: (file + 9 * rank) as u8 })
        } else {
            None
        }
    }
}

/// The numbers of the given squares, in the same order.
pub open spec fn numbers(squares: Seq<Square>) -> Seq<int> {
    squares.map_values(|square: Square| square@)
}

} // verus!
