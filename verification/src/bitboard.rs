//! Sets of squares, held in one word of 128 bits.

use crate::bits::{
    bit_at, lemma_bit_ops, lemma_bits_extensional, lemma_nonzero_has_bit, lemma_one_hot,
    lemma_popcount_counts, one_hot, popcount, set_bits,
};
use crate::square::{cell, numbers, Square};
use vstd::arithmetic::power2::{lemma2_to64, lemma_pow2_adds, lemma_pow2_unfold, pow2};
use vstd::prelude::*;
use vstd::set_lib::{lemma_int_range, lemma_len_subset, set_int_range};
use vstd::std_specs::ops::{BitAndSpec, BitOrSpec, BitXorSpec, NotSpec};

verus! {

/// The two sides of the game.
#[derive(Clone, Copy, Debug, PartialEq, Eq, Structural)]
pub enum Color {
    Red,
    Black,
}

/// The word in which the bits of all 90 squares are set.
pub const FULL_BITS: u128 = 0x3ff_ffff_ffff_ffff_ffff_ffff;

/// The numbers of all squares of the board.
pub open spec fn all_squares() -> Set<int> {
    Set::new(|i: int| 0 <= i < 90)
}

/// The members of `cells` below `bound`, in ascending order.
pub open spec fn ascending_below(cells: Set<int>, bound: nat) -> Seq<int>
    decreases bound,
{
    if bound == 0 {
        Seq::empty()
    } else if cells.contains(bound - 1) {
        ascending_below(cells, (bound - 1) as nat).push(bound - 1)
    } else {
        ascending_below(cells, (bound - 1) as nat)
    }
}

/// The squares of `cells`, in ascending order.
pub open spec fn ascending(cells: Set<int>) -> Seq<int> {
    ascending_below(cells, 90)
}

/// Where `cells` has no member from `from` up to `to`, the members below `to`
/// are those below `from`.
proof fn lemma_ascending_skip(cells: Set<int>, from: nat, to: nat)
    requires
        from <= to,
        forall|k: int| from <= k < to ==> !cells.contains(k),
    ensures
        ascending_below(cells, to) == ascending_below(cells, from),
    decreases to - from,
{
    if from < to {
        lemma_ascending_skip(cells, from, (to - 1) as nat);
    }
}

/// A set of squares, held as a word in which bit `i` stands for square `i`.
/// Its view is the set of the numbers of the squares it holds.
#[derive(Clone, Copy, Debug, PartialEq, Eq, PartialOrd, Ord, Hash, Structural)]
pub struct BitBoard(pub u128);

impl View for BitBoard {
    type V = Set<int>;

    open spec fn view(&self) -> Set<int> {
        Set::new(|i: int| 0 <= i < 90 && bit_at(self.0, i))
    }
}

/// Which words set no bit beyond those of the 90 squares, and which bits the
/// full word sets.
proof fn lemma_wf_words(a: u128, b: u128, k: int)
    ensures
        (a <= FULL_BITS || b <= FULL_BITS) ==> a & b <= FULL_BITS,
        (a <= FULL_BITS && b <= FULL_BITS) ==> a | b <= FULL_BITS && a ^ b <= FULL_BITS,
        !a & FULL_BITS <= FULL_BITS,
        0 <= k < 90 ==> one_hot(k) <= FULL_BITS,
        a <= FULL_BITS && 90 <= k < 128 ==> !bit_at(a, k),
        0 <= k < 90 ==> bit_at(FULL_BITS, k),
{
    let ku = if 0 <= k < 128 {
        k as u128
    } else {
        0u128
    };
    let full = FULL_BITS;
    assert({
        &&& ((a <= full || b <= full) ==> a & b <= full)
        &&& ((a <= full && b <= full) ==> a | b <= full && a ^ b <= full)
        &&& !a & full <= full
        &&& (ku < 90 ==> (1u128 << ku) <= full)
        &&& (a <= full && 90 <= ku ==> !((a >> ku) & 1 == 1))
        &&& (ku < 90 ==> (full >> ku) & 1 == 1)
    }) by (bit_vector)
        requires
            full == 0x3ff_ffff_ffff_ffff_ffff_ffffu128,
            ku < 128,
    ;
}

/// The board of one square holds that square and no other.
pub proof fn lemma_single_square(k: int)
    requires
        0 <= k < 90,
    ensures
        BitBoard(one_hot(k)).wf(),
        BitBoard(one_hot(k))@ == set![k],
{
    let b = BitBoard(one_hot(k));
    lemma_wf_words(0, 0, k);
    assert forall|i: int| b@.contains(i) == set![k].contains(i) by {
        lemma_one_hot(0, k, i);
    }
    assert(b@ =~= set![k]);
}

impl BitBoard {
    /// No bit is set beyond those of the 90 squares.
    pub open spec fn wf(self) -> bool {
        self.0 <= FULL_BITS
    }

    /// The board without any square.
    pub fn empty() -> (r: BitBoard)
        ensures
            r.0 == 0,
            r.wf(),
            r@ == Set::<int>::empty(),
    {
        let r = BitBoard(0);
        proof {
            assert forall|i: int| !r@.contains(i) by {
                if 0 <= i < 128 {
                    lemma_bit_ops(0, 0, i);
                }
            }
            assert(r@ =~= Set::<int>::empty());
        }
        r
    }

    /// The board of all 90 squares.
    pub fn full() -> (r: BitBoard)
        ensures
            r.0 == FULL_BITS,
            r.wf(),
            r@ == all_squares(),
    {
        let r = BitBoard(FULL_BITS);
        proof {
            assert forall|i: int| r@.contains(i) == all_squares().contains(i) by {
                lemma_wf_words(0, 0, i);
            }
            assert(r@ =~= all_squares());
        }
        r
    }

    /// The board drawn by `rows`, given from the top row down as the board is
    /// usually drawn: `rows[0]` is the tenth row and `rows[9]` the first, and
    /// each row runs from column `A` to column `I`.
    pub fn from_rows(rows: [[bool; 9]; 10]) -> (r: BitBoard)
        ensures
            r.wf(),
            forall|file: int, rank: int|
                0 <= file < 9 && 0 <= rank < 10 ==> r@.contains(#[trigger] cell(file, rank))
                    == rows[9 - rank][file],
    {
        let mut board = BitBoard::empty();
        let mut index: usize = 0;
        while index < 90
            invariant
                index <= 90,
                board.wf(),
                forall|i: int|
                    board@.contains(i) == (0 <= i < index && rows[9 - i / 9][i % 9]),
            decreases 90 - index,
        {
            if rows[9 - index / 9][index % 9] {
                board = board | Square::index(index).bitboard();
            }
            index = index + 1;
        }
        proof {
            assert forall|file: int, rank: int| 0 <= file < 9 && 0 <= rank < 10 implies board@.contains(
                #[trigger] cell(file, rank),
            ) == rows[9 - rank][file] by {
                let i = cell(file, rank);
                assert(i / 9 == rank && i % 9 == file);
            }
        }
        board
    }

    /// The board as it is usually drawn, from the top row down: the inverse of
    /// `from_rows`.
    pub fn to_rows(self) -> (r: [[bool; 9]; 10])
        ensures
            forall|file: int, rank: int|
                0 <= file < 9 && 0 <= rank < 10 ==> r[9 - rank][file] == self@.contains(
                    #[trigger] cell(file, rank),
                ),
    {
        let mut rows = [[false;9];10];
        let mut top: usize = 0;
        while top < 10
            invariant
                top <= 10,
                forall|line: int, file: int|
                    0 <= line < top && 0 <= file < 9 ==> rows[line][file] == self@.contains(
                        #[trigger] cell(file, 9 - line),
                    ),
            decreases 10 - top,
        {
            let mut row = [false;9];
            let mut file: usize = 0;
            while file < 9
                invariant
                    top < 10,
                    file <= 9,
                    forall|f: int|
                        0 <= f < file ==> row[f] == self@.contains(#[trigger] cell(f, 9 - top)),
                decreases 9 - file,
            {
                row[file] = self.has(Square::index(file + 9 * (9 - top)));
                file = file + 1;
            }
            rows[top] = row;
            top = top + 1;
        }
        proof {
            assert forall|file: int, rank: int| 0 <= file < 9 && 0 <= rank < 10 implies rows[9
                - rank][file] == self@.contains(#[trigger] cell(file, rank)) by {
                assert(rows[9 - rank][file] == self@.contains(cell(file, 9 - (9 - rank))));
            }
        }
        rows
    }

    /// A well formed board holds as many squares as its word has set bits.
    pub proof fn lemma_count(self)
        requires
            self.wf(),
        ensures
            self@.finite(),
            self@.len() == popcount(self.0 as nat),
            self@.len() <= 90,
    {
        lemma_popcount_counts(self.0);
        assert forall|i: int| self@.contains(i) == set_bits(self.0).contains(i) by {
            lemma_wf_words(self.0, 0, i);
        }
        assert(self@ =~= set_bits(self.0));
        lemma_int_range(0, 90);
        assert(self@.subset_of(set_int_range(0, 90)));
        lemma_len_subset(self@, set_int_range(0, 90));
    }

    /// How many bits of the word are set: for a well formed board, the number
    /// of squares it holds.
    pub fn popcnt(self) -> (r: u32)
        ensures
            r == popcount(self.0 as nat),
            r <= 128,
            self.wf() ==> r == self@.len() && r <= 90,
    {
        let mut rest: u128 = self.0;
        let mut count: u32 = 0;
        proof {
            lemma_pow2_128();
            lemma_popcount_bound(self.0 as nat, 128);
            if self.wf() {
                self.lemma_count();
            }
        }
        while rest != 0
            invariant
                count + popcount(rest as nat) == popcount(self.0 as nat),
                popcount(self.0 as nat) <= 128,
            decreases rest,
        {
            let low = rest & 1;
            let high = rest >> 1;
            assert(low == rest % 2 && high == rest / 2) by (bit_vector)
                requires
                    low == rest & 1,
                    high == rest >> 1,
            ;
            count = count + low as u32;
            rest = high;
        }
        count
    }

    /// Whether the board holds the square.
    pub fn has(self, square: Square) -> (r: bool)
        ensures
            r == self@.contains(square@),
    {
        let single = square.bitboard();
        proof {
            use_type_invariant(&square);
            lemma_one_hot(self.0, square@, square@);
        }
        !(self & single).is_empty()
    }

    /// Whether no bit of the word is set: for a well formed board, whether it
    /// holds no square.
    pub fn is_empty(self) -> (r: bool)
        ensures
            r == (self.0 == 0),
            self.wf() ==> r == (self@ == Set::<int>::empty()),
    {
        proof {
            if self.0 == 0 {
                assert forall|i: int| !self@.contains(i) by {
                    if 0 <= i < 128 {
                        lemma_bit_ops(0, 0, i);
                    }
                }
                assert(self@ =~= Set::<int>::empty());
            } else {
                let i = lemma_nonzero_has_bit(self.0);
                lemma_wf_words(self.0, 0, i);
                assert(self.wf() ==> self@.contains(i));
            }
        }
        self.0 == 0
    }

    /// The lowest square that the board holds, if it holds any.
    pub fn next_square(self) -> (r: Option<Square>)
        ensures
            match r {
                Some(square) => self@.contains(square@) && forall|i: int|
                    self@.contains(i) ==> square@ <= i,
                None => self@ == Set::<int>::empty(),
            },
    {
        let mut index: usize = 0;
        while index < 90
            invariant
                index <= 90,
                forall|i: int| 0 <= i < index ==> !bit_at(self.0, i),
            decreases 90 - index,
        {
            if (self.0 >> index) & 1 == 1 {
                assert(bit_at(self.0, index as int));
                return Some(Square::index(index));
            }
            index = index + 1;
        }
        assert(self@ =~= Set::<int>::empty());
        None
    }

    /// An iterator over the squares of the board, lowest first.
    pub fn into_iter(self) -> (r: BitBoardIter)
        ensures
            r@ == self@,
    {
        BitBoardIter(self)
    }

    /// The squares of the board, lowest first: every square of the board
    /// once, and nothing else.
    pub fn squares(self) -> (r: Vec<Square>)
        ensures
            numbers(r@) == ascending(self@),
            forall|i: int, j: int| 0 <= i < j < r.len() ==> r[i]@ < r[j]@,
            forall|k: int| self@.contains(k) <==> exists|i: int| 0 <= i < r.len() && r[i]@ == k,
            numbers(r@).no_duplicates(),
            numbers(r@).to_set() == self@,
    {
        let mut iter = self.into_iter();
        let mut squares: Vec<Square> = Vec::new();
        let ghost mut floor: nat = 0;
        assert(numbers(squares@) =~= ascending_below(self@, 0));
        loop
            invariant
                0 <= floor <= 90,
                numbers(squares@) == ascending_below(self@, floor),
                forall|i: int, j: int| 0 <= i < j < squares.len() ==> squares[i]@ < squares[j]@,
                forall|i: int| 0 <= i < squares.len() ==> squares[i]@ < floor,
                forall|k: int| iter@.contains(k) ==> floor <= k,
                forall|k: int|
                    self@.contains(k) <==> iter@.contains(k) || exists|i: int|
                        0 <= i < squares.len() && squares[i]@ == k,
            decreases 90 - floor,
        {
            let ghost before = squares@;
            match iter.next() {
                Some(square) => {
                    proof {
                        use_type_invariant(&square);
                    }
                    squares.push(square);
                    proof {
                        assert forall|k: int| floor <= k < square@ implies !self@.contains(k) by {
                            if self@.contains(k) {
                                let i = choose|i: int| 0 <= i < before.len() && before[i]@ == k;
                                assert(before[i]@ < floor);
                            }
                        }
                        lemma_ascending_skip(self@, floor, square@ as nat);
                        assert(self@.contains(square@));
                        assert(numbers(squares@) =~= numbers(before).push(square@));
                        floor = (square@ + 1) as nat;
                        assert forall|k: int|
                            self@.contains(k) <==> iter@.contains(k) || exists|i: int|
                                0 <= i < squares.len() && squares[i]@ == k by {
                            if k == square@ {
                                assert(squares[squares.len() - 1]@ == k);
                            }
                            if exists|i: int| 0 <= i < before.len() && before[i]@ == k {
                                let i = choose|i: int| 0 <= i < before.len() && before[i]@ == k;
                                assert(squares[i]@ == k);
                            }
                        }
                    }
                },
                None => {
                    proof {
                        assert forall|k: int| floor <= k < 90 implies !self@.contains(k) by {
                            if self@.contains(k) {
                                let i = choose|i: int| 0 <= i < before.len() && before[i]@ == k;
                                assert(before[i]@ < floor);
                            }
                        }
                        lemma_ascending_skip(self@, floor, 90);
                        let listed = numbers(squares@);
                        assert forall|k: int| listed.to_set().contains(k) == self@.contains(
                            k,
                        ) by {
                            if listed.contains(k) {
                                let i = choose|i: int| 0 <= i < listed.len() && listed[i] == k;
                                assert(squares[i]@ == k);
                            }
                            if self@.contains(k) {
                                let i = choose|i: int| 0 <= i < before.len() && before[i]@ == k;
                                assert(listed[i] == k);
                            }
                        }
                        assert(listed.to_set() =~= self@);
                    }
                    return squares;
                },
            }
        }
    }
}

/// What is left of a walk over the squares of a board. Its view is the set of
/// the squares still to come.
pub struct BitBoardIter(BitBoard);

impl View for BitBoardIter {
    type V = Set<int>;

    closed spec fn view(&self) -> Set<int> {
        self.0@
    }
}

impl BitBoardIter {
    /// Takes the lowest square that is left, if any is.
    pub fn next(&mut self) -> (r: Option<Square>)
        ensures
            match r {
                Some(square) => {
                    &&& old(self)@.contains(square@)
                    &&& forall|i: int| old(self)@.contains(i) ==> square@ <= i
                    &&& final(self)@ == old(self)@.remove(square@)
                },
                None => old(self)@ == Set::<int>::empty() && final(self)@ == old(self)@,
            },
    {
        let square = self.0.next_square();
        if let Some(found) = square {
            let rest = self.0 ^ found.bitboard();
            assert(rest@ =~= self.0@.remove(found@));
            self.0 = rest;
        }
        square
    }
}

/// An upper bound on the number of set bits of a word below `2^n`.
proof fn lemma_popcount_bound(x: nat, n: nat)
    requires
        x < pow2(n),
    ensures
        popcount(x) <= n,
    decreases n,
{
    if x != 0 {
        if n == 0 {
            lemma2_to64();
        } else {
            lemma_pow2_unfold(n);
            lemma_popcount_bound(x / 2, (n - 1) as nat);
        }
    }
}

/// `2^128`, written out.
proof fn lemma_pow2_128()
    ensures
        pow2(128) == 0x1_0000_0000_0000_0000_0000_0000_0000_0000,
{
    lemma2_to64();
    lemma_pow2_adds(64, 64);
}

impl core::ops::BitAnd for BitBoard {
    type Output = BitBoard;

    /// The squares that both boards hold.
    fn bitand(self, other: BitBoard) -> (r: BitBoard)
        ensures
            r@ == self@.intersect(other@),
            self.wf() || other.wf() ==> r.wf(),
    {
        let r = BitBoard(self.0 & other.0);
        proof {
            lemma_wf_words(self.0, other.0, 0);
            assert forall|i: int| r@.contains(i) == self@.intersect(other@).contains(i) by {
                if 0 <= i < 90 {
                    lemma_bit_ops(self.0, other.0, i);
                }
            }
            assert(r@ =~= self@.intersect(other@));
        }
        r
    }
}

impl vstd::std_specs::ops::BitAndSpecImpl for BitBoard {
    open spec fn obeys_bitand_spec() -> bool {
        true
    }

    open spec fn bitand_req(self, other: BitBoard) -> bool {
        true
    }

    open spec fn bitand_spec(self, other: BitBoard) -> BitBoard {
        BitBoard(self.0 & other.0)
    }
}

impl core::ops::BitOr for BitBoard {
    type Output = BitBoard;

    /// The squares that either board holds.
    fn bitor(self, other: BitBoard) -> (r: BitBoard)
        ensures
            r@ == self@.union(other@),
            self.wf() && other.wf() ==> r.wf(),
    {
        let r = BitBoard(self.0 | other.0);
        proof {
            lemma_wf_words(self.0, other.0, 0);
            assert forall|i: int| r@.contains(i) == self@.union(other@).contains(i) by {
                if 0 <= i < 90 {
                    lemma_bit_ops(self.0, other.0, i);
                }
            }
            assert(r@ =~= self@.union(other@));
        }
        r
    }
}

impl vstd::std_specs::ops::BitOrSpecImpl for BitBoard {
    open spec fn obeys_bitor_spec() -> bool {
        true
    }

    open spec fn bitor_req(self, other: BitBoard) -> bool {
        true
    }

    open spec fn bitor_spec(self, other: BitBoard) -> BitBoard {
        BitBoard(self.0 | other.0)
    }
}

impl core::ops::BitXor for BitBoard {
    type Output = BitBoard;

    /// The squares that exactly one of the two boards holds.
    fn bitxor(self, other: BitBoard) -> (r: BitBoard)
        ensures
            forall|i: int| r@.contains(i) == (self@.contains(i) != other@.contains(i)),
            self.wf() && other.wf() ==> r.wf(),
    {
        let r = BitBoard(self.0 ^ other.0);
        proof {
            lemma_wf_words(self.0, other.0, 0);
            assert forall|i: int| r@.contains(i) == (self@.contains(i) != other@.contains(i)) by {
                if 0 <= i < 90 {
                    lemma_bit_ops(self.0, other.0, i);
                }
            }
        }
        r
    }
}

impl vstd::std_specs::ops::BitXorSpecImpl for BitBoard {
    open spec fn obeys_bitxor_spec() -> bool {
        true
    }

    open spec fn bitxor_req(self, other: BitBoard) -> bool {
        true
    }

    open spec fn bitxor_spec(self, other: BitBoard) -> BitBoard {
        BitBoard(self.0 ^ other.0)
    }
}

impl core::ops::Not for BitBoard {
    type Output = BitBoard;

    /// The squares of the board that this one does not hold.
    fn not(self) -> (r: BitBoard)
        ensures
            r@ == all_squares().difference(self@),
            r.wf(),
    {
        let r = BitBoard(!self.0 & FULL_BITS);
        proof {
            lemma_wf_words(self.0, 0, 0);
            assert forall|i: int| r@.contains(i) == all_squares().difference(self@).contains(i) by {
                if 0 <= i < 90 {
                    lemma_bit_ops(self.0, 0, i);
                    lemma_bit_ops(!self.0, FULL_BITS, i);
                    lemma_wf_words(0, 0, i);
                }
            }
            assert(r@ =~= all_squares().difference(self@));
        }
        r
    }
}

impl vstd::std_specs::ops::NotSpecImpl for BitBoard {
    open spec fn obeys_not_spec() -> bool {
        true
    }

    open spec fn not_req(self) -> bool {
        true
    }

    open spec fn not_spec(self) -> BitBoard {
        BitBoard(!self.0 & FULL_BITS)
    }
}

impl core::ops::BitAndAssign for BitBoard {
    fn bitand_assign(&mut self, other: BitBoard)
        ensures
            *final(self) == old(self).bitand_spec(other),
    {
        self.0 = self.0 & other.0;
    }
}

impl core::ops::BitOrAssign for BitBoard {
    fn bitor_assign(&mut self, other: BitBoard)
        ensures
            *final(self) == old(self).bitor_spec(other),
    {
        self.0 = self.0 | other.0;
    }
}

impl core::ops::BitXorAssign for BitBoard {
    fn bitxor_assign(&mut self, other: BitBoard)
        ensures
            *final(self) == old(self).bitxor_spec(other),
    {
        self.0 = self.0 ^ other.0;
    }
}

impl Default for BitBoard {
    fn default() -> (r: BitBoard)
        ensures
            r.0 == 0,
    {
        BitBoard(0)
    }
}

} // verus!

verus! {

/// The well formed board that holds exactly the squares of `cells`.
pub open spec fn board_of(cells: Set<int>) -> BitBoard {
    choose|board: BitBoard| board.wf() && board@ == cells
}

/// A well formed board is the board of its squares.
pub proof fn lemma_board_of(board: BitBoard)
    requires
        board.wf(),
    ensures
        board_of(board@) == board,
{
    lemma_same_squares(board_of(board@), board);
}

/// Well formed boards that hold the same squares are the same board.
pub proof fn lemma_same_squares(a: BitBoard, b: BitBoard)
    requires
        a.wf(),
        b.wf(),
        a@ == b@,
    ensures
        a == b,
{
    assert forall|i: int| 0 <= i < 128 implies bit_at(a.0, i) == bit_at(b.0, i) by {
        if i < 90 {
            assert(a@.contains(i) == bit_at(a.0, i));
            assert(b@.contains(i) == bit_at(b.0, i));
        } else {
            lemma_wf_words(a.0, 0, i);
            lemma_wf_words(b.0, 0, i);
        }
    }
    lemma_bits_extensional(a.0, b.0);
}

/// A board and its complement share no square: `a & !a` is the empty board.
pub proof fn lemma_complement_disjoint(a: BitBoard)
    ensures
        a.bitand_spec(a.not_spec()) == BitBoard(0),
{
    let x = a.0;
    assert(x & (!x & 0x3ff_ffff_ffff_ffff_ffff_ffffu128) == 0) by (bit_vector);
}

/// A board and its complement make up the whole board: `a | !a` is the full
/// board.
pub proof fn lemma_complement_covers(a: BitBoard)
    requires
        a.wf(),
    ensures
        a.bitor_spec(a.not_spec()) == BitBoard(FULL_BITS),
{
    let x = a.0;
    assert(x | (!x & 0x3ff_ffff_ffff_ffff_ffff_ffffu128) == 0x3ff_ffff_ffff_ffff_ffff_ffffu128)
        by (bit_vector)
        requires
            x <= 0x3ff_ffff_ffff_ffff_ffff_ffffu128,
    ;
}

} // verus!
