//! Magic tables for the pieces of a board of nine columns and ten rows.
//!
//! For a piece and a square, the squares that the piece can go to depend on
//! which of a few squares around it are occupied. A magic table answers the
//! question with one multiplication: the occupied squares that matter are
//! multiplied by a number chosen so that the top bits of the product tell
//! apart all cases that need different answers, and those bits index a table
//! of answers made beforehand. This library holds the board and its squares,
//! the rules of the pieces, the search for such numbers, and the proof that
//! the tables it makes give the right answers.

use vstd::prelude::*;

pub mod aggregate;
pub mod bitboard;
pub mod bits;
pub mod cannon;
pub mod generate;
pub mod king;
pub mod knight;
pub mod lines;
pub mod ray;
pub mod rng;
pub mod rook;
pub mod square;
pub mod subsets;

use crate::cannon::CannonAttack;
use crate::king::{palace_masks, straight_steps, King, BLACK_PALACE, RED_PALACE};
use crate::knight::{
    LameLeaper, BISHOP_DELTAS, BISHOP_LAMELS, BISHOP_START_RANGE, KNIGHT_DELTAS, KNIGHT_LAMELS,
};
use crate::rook::{Slider, SLIDER_ONE_STEP};
use crate::bitboard::BitBoard;
use crate::square::{numbers, Square};

verus! {

/// The rook: it slides along rows and columns, from every square.
pub fn rook() -> (r: Slider)
    ensures
        r.deltas() == SLIDER_ONE_STEP@,
        numbers(r.start_squares()) == Seq::new(90, |i: int| i),
{
    let all = Square::all();
    assert(numbers(all@) =~= Seq::new(90, |i: int| i));
    Slider::new(SLIDER_ONE_STEP, all)
}

/// The cannon as it captures: along rows and columns, over exactly one piece.
pub fn cannon() -> (r: CannonAttack)
    ensures
        r.deltas() == SLIDER_ONE_STEP@,
{
    CannonAttack::new()
}

/// The knight: its eight jumps, each held up by a piece beside the knight,
/// from every square.
pub fn knight() -> (r: LameLeaper<8>)
    ensures
        r.deltas() == KNIGHT_DELTAS@,
        r.lamels() == KNIGHT_LAMELS@,
        numbers(r.start_squares()) == Seq::new(90, |i: int| i),
{
    let all = Square::all();
    assert(numbers(all@) =~= Seq::new(90, |i: int| i));
    LameLeaper::new(KNIGHT_DELTAS, KNIGHT_LAMELS, all)
}

/// The bishop: its four jumps, each held up by a piece on the square it
/// jumps over, from the fourteen squares it can stand on.
pub fn bishop() -> (r: LameLeaper<4>)
    ensures
        r.deltas() == BISHOP_DELTAS@,
        r.lamels() == BISHOP_LAMELS@,
        numbers(r.start_squares()) == BISHOP_START_RANGE@.map_values(|index: usize| index as int),
{
    let mut start_range: Vec<Square> = Vec::new();
    let mut n: usize = 0;
    while n < 14
        invariant
            n <= 14,
            start_range.len() == n,
            forall|i: int| 0 <= i < n ==> #[trigger] start_range[i]@ == BISHOP_START_RANGE[i],
        decreases 14 - n,
    {
        start_range.push(Square::index(BISHOP_START_RANGE[n]));
        n = n + 1;
    }
    assert(numbers(start_range@) =~= BISHOP_START_RANGE@.map_values(|index: usize| index as int));
    LameLeaper::new(BISHOP_DELTAS, BISHOP_LAMELS, start_range)
}

/// The king: one step within its palace, and the flight at the other king.
pub fn king() -> (r: King)
    ensures
        r.steps().deltas() == straight_steps(),
        r.steps().masks() == palace_masks(),
        r.steps().start_board() == BitBoard(RED_PALACE | BLACK_PALACE),
{
    King::new()
}

} // verus!
