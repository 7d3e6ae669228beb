//! Rows and columns as numbers: what stands on a line of the board, packed
//! into the low bits of a word.

use crate::bitboard::BitBoard;
use crate::square::Square;
use vstd::arithmetic::power2::{lemma2_to64, lemma_pow2_pos, lemma_pow2_unfold, pow2};
use vstd::prelude::*;

verus! {

/// What stands on a line of the board, as a number: the line starts at the
/// cell `first` and goes on by `step`, and where its `j`-th cell is occupied
/// the number has its bit `j` set. Only the first `length` cells count.
pub open spec fn line_word(occupied: Set<int>, first: int, step: int, length: nat) -> nat
    decreases length,
{
    if length == 0 {
        0
    } else {
        line_word(occupied, first, step, (length - 1) as nat) + if occupied.contains(
            first + (length - 1) * step,
        ) {
            pow2((length - 1) as nat)
        } else {
            0
        }
    }
}

/// The number of a line of `length` cells has no more than `length` bits.
pub proof fn lemma_line_word_bound(occupied: Set<int>, first: int, step: int, length: nat)
    ensures
        line_word(occupied, first, step, length) < pow2(length),
    decreases length,
{
    if length == 0 {
        lemma2_to64();
    } else {
        lemma_line_word_bound(occupied, first, step, (length - 1) as nat);
        lemma_pow2_unfold(length);
    }
}

/// Boards with the same cells of a line occupied give the line the same
/// number, and the other way round.
pub proof fn lemma_line_word_tells(
    a: Set<int>,
    b: Set<int>,
    first: int,
    step: int,
    length: nat,
)
    ensures
        line_word(a, first, step, length) == line_word(b, first, step, length) <==> forall|j: int|
            0 <= j < length ==> a.contains(first + j * step) == b.contains(
                #[trigger] (first + j * step),
            ),
    decreases length,
{
    if length > 0 {
        let shorter = (length - 1) as nat;
        lemma_line_word_tells(a, b, first, step, shorter);
        lemma_line_word_bound(a, first, step, shorter);
        lemma_line_word_bound(b, first, step, shorter);
        lemma_pow2_pos(shorter);
        let last = first + shorter * step;
        if line_word(a, first, step, length) == line_word(b, first, step, length) {
            assert(a.contains(last) == b.contains(last));
            assert forall|j: int| 0 <= j < length implies a.contains(first + j * step)
                == b.contains(#[trigger] (first + j * step)) by {
                if j == shorter {
                    assert(first + j * step == last);
                }
            }
        }
        if forall|j: int|
            0 <= j < length ==> a.contains(first + j * step) == b.contains(
                #[trigger] (first + j * step),
            ) {
            assert(a.contains(last) == b.contains(last)) by {
                assert(a.contains(first + shorter * step) == b.contains(first + shorter * step));
            }
        }
    }
}

/// The number of a line of the board: see `line_word`.
pub fn line_index(blockers: BitBoard, first: usize, step: usize, length: usize) -> (r: usize)
    requires
        length < usize::BITS,
        length > 0 ==> first + (length - 1) * step < 90,
    ensures
        r == line_word(blockers@, first as int, step as int, length as nat),
        r < pow2(length as nat),
{
    let mut word: usize = 0;
    let mut weight: usize = 1;
    let mut cell: usize = first;
    let mut j: usize = 0;
    proof {
        lemma2_to64();
    }
    while j < length
        invariant
            j <= length,
            length < usize::BITS,
            length > 0 ==> first + (length - 1) * step < 90,
            j < length ==> cell == first + j * step,
            weight == pow2(j as nat),
            word == line_word(blockers@, first as int, step as int, j as nat),
            word < weight,
        decreases length - j,
    {
        proof {
            vstd::bits::lemma_usize_pow2_no_overflow((j + 1) as nat);
            lemma_pow2_unfold((j + 1) as nat);
            assert((j + 1) * step == j * step + step) by (nonlinear_arith);
            assert(j * step <= (length - 1) * step) by (nonlinear_arith)
                requires
                    j <= length - 1,
            ;
            assert(j + 1 < length ==> (j + 1) * step <= (length - 1) * step) by (nonlinear_arith);
        }
        if blockers.has(Square::index(cell)) {
            word = word + weight;
        }
        weight = weight * 2;
        if j + 1 < length {
            cell = cell + step;
        }
        j = j + 1;
    }
    word
}

/// A board on which the line has the number `word`: the cells of the line
/// whose bit is set in `word`, and no others.
pub fn line_board(word: usize, first: usize, step: usize, length: usize) -> (r: BitBoard)
    requires
        length < usize::BITS,
        step >= 1,
        length > 0 ==> first + (length - 1) * step < 90,
        word < pow2(length as nat),
    ensures
        r.wf(),
        line_word(r@, first as int, step as int, length as nat) == word,
        forall|c: int|
            r@.contains(c) ==> exists|j: int| 0 <= j < length && c == #[trigger] (first + j * step),
{
    let mut board = BitBoard::empty();
    let mut rest: usize = word;
    let mut cell: usize = first;
    let mut j: usize = 0;
    proof {
        lemma2_to64();
    }
    while j < length
        invariant
            j <= length,
            length < usize::BITS,
            step >= 1,
            length > 0 ==> first + (length - 1) * step < 90,
            word < pow2(length as nat),
            j < length ==> cell == first + j * step,
            board.wf(),
            forall|c: int| board@.contains(c) ==> c < first + j * step,
            forall|c: int|
                board@.contains(c) ==> exists|i: int|
                    0 <= i < j && c == #[trigger] (first + i * step),
            word == line_word(board@, first as int, step as int, j as nat) + rest * pow2(j as nat),
        decreases length - j,
    {
        let ghost before = board@;
        let ghost scale = pow2(j as nat) as int;
        let ghost half = (rest / 2) as int;
        proof {
            lemma_pow2_unfold((j + 1) as nat);
            assert((j + 1) * step == j * step + step) by (nonlinear_arith);
            assert(j * step <= (length - 1) * step) by (nonlinear_arith)
                requires
                    j <= length - 1,
            ;
            assert(j + 1 < length ==> (j + 1) * step <= (length - 1) * step) by (nonlinear_arith);
            assert(rest * scale == (rest % 2) * scale + half * (2 * scale)) by (nonlinear_arith)
                requires
                    rest == 2 * half + rest % 2,
            ;
        }
        if rest % 2 == 1 {
            board = board | Square::index(cell).bitboard();
        }
        proof {
            assert forall|i: int| 0 <= i < j implies before.contains(first + i * step)
                == board@.contains(#[trigger] (first + i * step)) by {
                assert(i * step < j * step) by (nonlinear_arith)
                    requires
                        0 <= i < j,
                        step >= 1,
                ;
            }
            lemma_line_word_tells(before, board@, first as int, step as int, j as nat);
            assert(!before.contains(first + j * step));
            assert forall|c: int| board@.contains(c) implies exists|i: int|
                0 <= i < j + 1 && c == #[trigger] (first + i * step) by {
                if before.contains(c) {
                    let i = choose|i: int| 0 <= i < j && c == #[trigger] (first + i * step);
                    assert(0 <= i < j + 1 && c == first + i * step);
                } else {
                    assert(c == first + j * step);
                }
            }
            assert(board@.contains(first + j * step) == (rest % 2 == 1));
            assert(line_word(before, first as int, step as int, j as nat) == line_word(
                board@,
                first as int,
                step as int,
                j as nat,
            ));
            let bit = (rest % 2) as int;
            assert(bit * scale == if bit == 1 {
                scale
            } else {
                0
            }) by (nonlinear_arith)
                requires
                    bit == 0 || bit == 1,
            ;
            assert(((j + 1) as nat - 1) * step == j * step);
            assert(line_word(board@, first as int, step as int, (j + 1) as nat) == line_word(
                before,
                first as int,
                step as int,
                j as nat,
            ) + (rest % 2) * scale);
            assert(pow2((j + 1) as nat) == 2 * scale);
        }
        rest = rest / 2;
        if j + 1 < length {
            cell = cell + step;
        }
        j = j + 1;
    }
    proof {
        lemma_line_word_bound(board@, first as int, step as int, length as nat);
        lemma_pow2_pos(length as nat);
        let scale = pow2(length as nat) as int;
        assert(rest == 0) by (nonlinear_arith)
            requires
                rest >= 0,
                scale > 0,
                rest * scale < scale,
        ;
    }
    board
}

} // verus!
