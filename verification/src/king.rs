//! Pieces that go one step and are held to a part of the board: the king,
//! the advisor and the pawn.

use crate::bitboard::{ascending, BitBoard};
use crate::generate::ChessMove;
use crate::ray::{
    clear_before, inside_ray, lemma_slide_relevant, ray_cell, ray_inside, ray_on_board, slide,
    slides_to,
};
use crate::square::{shifted, Square};
use vstd::prelude::*;

verus! {

/// The nine squares in which the red king and its advisors stay.
pub const RED_PALACE: u128 = 0xE0_7038;

/// The nine squares in which the black king and its advisors stay.
pub const BLACK_PALACE: u128 = 0x70_381C_0000_0000_0000_0000;

/// The squares on which a red pawn can stand.
pub const RED_PAWN: u128 = 0x3FF_FFFF_FFFF_F55A_A800_0000;

/// The squares on which a black pawn can stand.
pub const BLACK_PAWN: u128 = 0x556A_BFFF_FFFF_FFFF;

/// Two neighbouring rows, the first and the second of the board.
pub const TWO_ROWS: u128 = 0x3_FFFF;

/// For a piece in row `rank`, the palace it may not leave: the red one on
/// the three lowest rows, the black one on the three highest, none between.
pub open spec fn palace_mask(rank: int) -> BitBoard {
    if rank < 3 {
        BitBoard(RED_PALACE)
    } else if rank >= 7 {
        BitBoard(BLACK_PALACE)
    } else {
        BitBoard(0)
    }
}

/// The ten masks of a piece that stays in its palace, one for each row.
pub open spec fn palace_masks() -> Seq<BitBoard> {
    Seq::new(10, |rank: int| palace_mask(rank))
}

/// One step to the right, up, to the left and down.
pub open spec fn straight_steps() -> Seq<(i8, i8)> {
    seq![(1i8, 0i8), (0i8, 1i8), (-1i8, 0i8), (0i8, -1i8)]
}

/// One step along each of the four diagonals.
pub open spec fn diagonal_steps() -> Seq<(i8, i8)> {
    seq![(1i8, 1i8), (1i8, -1i8), (-1i8, 1i8), (-1i8, -1i8)]
}

/// How a pawn moves: the first and the last of its rows, how many rows below
/// its own the two rows of its mask begin (`0` for a pawn that goes up the
/// board, `1` for one that goes down), the squares it can stand on, and the
/// squares it can go to from its last row.
#[derive(Clone, Copy, Debug)]
pub struct Pawn {
    pub begin: usize,
    pub end: usize,
    pub offset: usize,
    pub range: BitBoard,
    pub end_mask: BitBoard,
}

impl Pawn {
    /// The first of the rows whose mask is made of two neighbouring rows.
    pub open spec fn low(self) -> int {
        if self.begin <= self.end + self.offset {
            self.begin as int
        } else {
            self.end + self.offset
        }
    }

    /// The row after the last whose mask is made of two neighbouring rows.
    pub open spec fn high(self) -> int {
        if self.end >= self.begin + self.offset {
            self.end as int
        } else {
            self.begin + self.offset
        }
    }

    /// The rows lie on the board, and no mask begins below the first row.
    pub open spec fn wf(self) -> bool {
        &&& self.end < 10
        &&& self.begin + self.offset <= usize::MAX
        &&& self.end + self.offset <= usize::MAX
        &&& self.low() < self.high() ==> self.offset <= self.low() && self.high() <= 10
    }

    /// The mask of a pawn in row `rank`: the row it goes to and the row
    /// beside it, as far as the pawn can stand there; in its last row the
    /// given mask; elsewhere nothing.
    pub open spec fn mask(self, rank: int) -> BitBoard {
        if rank == self.end {
            self.end_mask
        } else if self.low() <= rank < self.high() {
            BitBoard((TWO_ROWS << ((9 * (rank - self.offset)) as u128)) & self.range.0)
        } else {
            BitBoard(0)
        }
    }
}

/// A piece that goes one step at a time and is held to a part of the board
/// that depends on its row.
pub struct ToNeighbour {
    deltas: Vec<(i8, i8)>,
    masks: [BitBoard; 10],
    start_range: BitBoard,
}

impl ToNeighbour {
    /// The steps of the piece, as columns and rows.
    pub closed spec fn deltas(&self) -> Seq<(i8, i8)> {
        self.deltas@
    }

    /// For each row, the squares that the piece may go to from that row.
    pub closed spec fn masks(&self) -> Seq<BitBoard> {
        self.masks@
    }

    /// The squares that the piece moves from.
    pub closed spec fn start_board(&self) -> BitBoard {
        self.start_range
    }

    /// The ten masks of a piece that stays in its palace.
    fn in_palace() -> (r: [BitBoard; 10])
        ensures
            r@ == palace_masks(),
    {
        let mut masks = [BitBoard(0);10];
        let mut rank: usize = 0;
        while rank < 10
            invariant
                rank <= 10,
                forall|i: int| 0 <= i < rank ==> masks[i] == palace_mask(i),
            decreases 10 - rank,
        {
            if rank < 3 {
                masks[rank] = BitBoard(RED_PALACE);
            } else if rank >= 7 {
                masks[rank] = BitBoard(BLACK_PALACE);
            } else {
                masks[rank] = BitBoard(0);
            }
            rank = rank + 1;
        }
        assert(masks@ =~= palace_masks());
        masks
    }

    /// The steps of a king, held to the two palaces.
    pub fn king_to_neighbour() -> (r: ToNeighbour)
        ensures
            r.deltas() == straight_steps(),
            r.masks() == palace_masks(),
            r.start_board() == BitBoard(RED_PALACE | BLACK_PALACE),
    {
        ToNeighbour {
            deltas: vec![(1, 0), (0, 1), (-1, 0), (0, -1)],
            start_range: BitBoard(RED_PALACE) | BitBoard(BLACK_PALACE),
            masks: ToNeighbour::in_palace(),
        }
    }

    /// The steps of a king, held to the two palaces.
    pub fn king() -> (r: ToNeighbour)
        ensures
            r.deltas() == straight_steps(),
            r.masks() == palace_masks(),
            r.start_board() == BitBoard(RED_PALACE | BLACK_PALACE),
    {
        ToNeighbour::king_to_neighbour()
    }

    /// The steps of an advisor, held to the two palaces.
    pub fn advisor() -> (r: ToNeighbour)
        ensures
            r.deltas() == diagonal_steps(),
            r.masks() == palace_masks(),
            r.start_board() == BitBoard(RED_PALACE | BLACK_PALACE),
    {
        ToNeighbour {
            deltas: vec![(1, 1), (1, -1), (-1, 1), (-1, -1)],
            start_range: BitBoard(RED_PALACE) | BitBoard(BLACK_PALACE),
            masks: ToNeighbour::in_palace(),
        }
    }

    /// The steps of a pawn as `info` describes it.
    pub fn pawn(info: Pawn) -> (r: ToNeighbour)
        requires
            info.wf(),
        ensures
            r.deltas() == straight_steps(),
            r.masks() == Seq::new(10, |rank: int| info.mask(rank)),
            r.start_board() == info.range,
    {
        let m: u128 = TWO_ROWS;
        let mut masks = [BitBoard(0);10];
        let begin = info.begin;
        let end = info.end;
        let offset = info.offset;
        let low = if begin <= end + offset {
            begin
        } else {
            end + offset
        };
        let high = if end >= begin + offset {
            end
        } else {
            begin + offset
        };
        let mut i: usize = low;
        while i < high
            invariant
                info.wf(),
                low == info.low(),
                high == info.high(),
                offset == info.offset,
                m == TWO_ROWS,
                low <= i,
                low < high ==> i <= high,
                low >= high ==> i == low,
                forall|rank: int|
                    0 <= rank < 10 ==> masks[rank] == if low <= rank < i {
                        BitBoard((TWO_ROWS << ((9 * (rank - offset)) as u128)) & info.range.0)
                    } else {
                        BitBoard(0)
                    },
            decreases high - i,
        {
            masks[i] = BitBoard(m << (9 * (i - offset))) & info.range;
            i = i + 1;
        }
        masks[end] = info.end_mask;
        assert(masks@ =~= Seq::new(10, |rank: int| info.mask(rank)));
        ToNeighbour {
            deltas: vec![(1, 0), (0, 1), (-1, 0), (0, -1)],
            start_range: info.range,
            masks,
        }
    }
}

impl ChessMove for ToNeighbour {
    /// The cells one step away that the mask of the origin's row lets
    /// through.
    open spec fn destinations(&self, origin: int, occupied: Set<int>) -> Set<int> {
        Set::new(
            |t: int|
                self.masks()[origin / 9]@.contains(t) && exists|i: int|
                    0 <= i < self.deltas().len() && shifted(
                        origin,
                        (#[trigger] self.deltas()[i]).0 as int,
                        self.deltas()[i].1 as int,
                    ) == Some(t),
        )
    }

    /// Nothing stands in the way of a single step.
    open spec fn relevant(&self, origin: int) -> Set<int> {
        Set::empty()
    }

    /// The squares of the start board, in ascending order.
    open spec fn origins(&self) -> Seq<int> {
        ascending(self.start_board()@)
    }

    fn moves(&self, square: Square, blockers: BitBoard) -> (r: BitBoard) {
        let mut moves = BitBoard::empty();
        let mut n: usize = 0;
        while n < self.deltas.len()
            invariant
                n <= self.deltas.len(),
                moves.wf(),
                forall|t: int|
                    moves@.contains(t) <==> exists|i: int|
                        0 <= i < n && shifted(
                            square@,
                            (#[trigger] self.deltas()[i]).0 as int,
                            self.deltas()[i].1 as int,
                        ) == Some(t),
            decreases self.deltas.len() - n,
        {
            let ghost before = moves@;
            let (df, dr) = self.deltas[n];
            if let Some(dst) = square.try_offset(df, dr) {
                moves = moves | dst.bitboard();
            }
            proof {
                let delta = self.deltas()[n as int];
                assert forall|t: int|
                    moves@.contains(t) <==> exists|i: int|
                        0 <= i < n + 1 && shifted(
                            square@,
                            (#[trigger] self.deltas()[i]).0 as int,
                            self.deltas()[i].1 as int,
                        ) == Some(t) by {
                    if moves@.contains(t) && !before.contains(t) {
                        assert(shifted(square@, delta.0 as int, delta.1 as int) == Some(t));
                    }
                    if before.contains(t) {
                        let i = choose|i: int|
                            0 <= i < n && shifted(
                                square@,
                                (#[trigger] self.deltas()[i]).0 as int,
                                self.deltas()[i].1 as int,
                            ) == Some(t);
                        assert(0 <= i < n + 1);
                    }
                }
            }
            n = n + 1;
        }
        let rank = square.rank().to_index();
        let r = moves & self.masks[rank];
        assert(r@ =~= self.destinations(square@, blockers@));
        r
    }

    fn relevant_blockers(&self, square: Square) -> (r: BitBoard) {
        BitBoard::empty()
    }

    fn start_range(&self) -> (r: Vec<Square>) {
        self.start_range.squares()
    }

    proof fn lemma_relevant(&self, origin: int, occupied: Set<int>) {
        assert(self.destinations(origin, occupied) =~= self.destinations(
            origin,
            occupied.intersect(self.relevant(origin)),
        ));
    }
}

/// Whether the cell `origin` lies in the black palace.
pub open spec fn in_black_palace(origin: int) -> bool {
    BitBoard(BLACK_PALACE)@.contains(origin)
}

/// The direction, in rows, in which a king on `origin` looks for the other
/// king: down from the black palace, up from anywhere else.
pub open spec fn facing_step(origin: int) -> int {
    if in_black_palace(origin) {
        -1
    } else {
        1
    }
}

/// The palace in which a king on `origin` looks for the other king.
pub open spec fn other_palace(origin: int) -> BitBoard {
    if in_black_palace(origin) {
        BitBoard(RED_PALACE)
    } else {
        BitBoard(BLACK_PALACE)
    }
}

/// `target` is a cell of the other palace in the column of `origin` with
/// nothing between the two: a king on `target` would face the king on
/// `origin`, which may take it.
pub open spec fn flies_to(origin: int, occupied: Set<int>, target: int) -> bool {
    other_palace(origin)@.contains(target) && slides_to(
        origin,
        0,
        facing_step(origin),
        occupied,
        target,
    )
}

/// The direction, in rows, in which the squares lie that matter to a king on
/// `origin`: down from the three highest rows, up from the others.
pub open spec fn scan_step(origin: int) -> int {
    if origin / 9 >= 7 {
        -1
    } else {
        1
    }
}

/// A king: it steps within its palace, and takes the other king where the
/// two face each other along a column.
pub struct King {
    to_neighbour: ToNeighbour,
}

impl King {
    /// The king's steps are held to the palaces.
    #[verifier::type_invariant]
    spec fn in_palaces(self) -> bool {
        self.to_neighbour.masks() == palace_masks()
    }

    /// How the king steps.
    pub closed spec fn steps(&self) -> ToNeighbour {
        self.to_neighbour
    }

    /// The king's rule.
    pub fn new() -> (r: King)
        ensures
            r.steps().deltas() == straight_steps(),
            r.steps().masks() == palace_masks(),
            r.steps().start_board() == BitBoard(RED_PALACE | BLACK_PALACE),
    {
        King { to_neighbour: ToNeighbour::king_to_neighbour() }
    }
}

impl ChessMove for King {
    /// The cells that the king steps to and those that, facing the other
    /// king, it flies to.
    open spec fn destinations(&self, origin: int, occupied: Set<int>) -> Set<int> {
        Set::new(
            |t: int|
                self.steps().destinations(origin, occupied).contains(t) || flies_to(
                    origin,
                    occupied,
                    t,
                ),
        )
    }

    /// The cells of the king's column towards the other side of the board,
    /// but the last.
    open spec fn relevant(&self, origin: int) -> Set<int> {
        Set::new(|t: int| inside_ray(origin, 0, scan_step(origin), t))
    }

    open spec fn origins(&self) -> Seq<int> {
        self.steps().origins()
    }

    fn moves(&self, square: Square, blockers: BitBoard) -> (r: BitBoard) {
        let stepped = self.to_neighbour.moves(square, blockers);
        let (another, delta) = if BitBoard(BLACK_PALACE).has(square) {
            (BitBoard(RED_PALACE), -1i8)
        } else {
            (BitBoard(BLACK_PALACE), 1i8)
        };
        let flying = slide(square, 0, delta, blockers) & another;
        let r = stepped ^ flying;
        proof {
            use_type_invariant(self);
            use_type_invariant(&square);
            let origin = square@;
            assert forall|t: int| !(stepped@.contains(t) && flying@.contains(t)) by {
                if stepped@.contains(t) && flying@.contains(t) {
                    lemma_palaces(origin);
                    lemma_palaces(t);
                    assert(palace_masks()[origin / 9]@.contains(t));
                    let k = choose|k: int|
                        1 <= k && #[trigger] ray_on_board(origin, 0, delta as int, k) && t
                            == ray_cell(origin, 0, delta as int, k) && clear_before(
                            origin,
                            0,
                            delta as int,
                            blockers@,
                            k,
                        );
                    assert(k * 0 == 0) by (nonlinear_arith);
                    assert(t % 9 == origin % 9);
                }
            }
            assert(r@ =~= self.destinations(origin, blockers@));
        }
        r
    }

    fn relevant_blockers(&self, square: Square) -> (r: BitBoard) {
        let delta = if square.rank().to_index() >= 7 {
            -1i8
        } else {
            1i8
        };
        let mask = self.to_neighbour.relevant_blockers(square) | ray_inside(square, 0, delta);
        assert(mask@ =~= self.relevant(square@));
        mask
    }

    fn start_range(&self) -> (r: Vec<Square>) {
        self.to_neighbour.start_range()
    }

    proof fn lemma_relevant(&self, origin: int, occupied: Set<int>) {
        let keep = self.relevant(origin);
        let kept = occupied.intersect(keep);
        let steps = self.steps();
        assert(steps.destinations(origin, occupied) =~= steps.destinations(origin, kept));
        assert forall|t: int| flies_to(origin, occupied, t) == flies_to(origin, kept, t) by {
            lemma_palaces(origin);
            if 0 <= t < 90 {
                lemma_palaces(t);
            }
            if facing_step(origin) == scan_step(origin) {
                lemma_slide_relevant(origin, 0, facing_step(origin), occupied, keep, t);
            } else {
                assert(!in_black_palace(origin) && origin / 9 >= 7);
                assert forall|k: int| 1 <= k implies ray_cell(origin, 0, 1, k) % 9 == origin
                    % 9 || !#[trigger] ray_on_board(origin, 0, 1, k) by {
                    assert(k * 0 == 0) by (nonlinear_arith);
                }
                assert(!slides_to(origin, 0, 1, occupied, t) || !other_palace(origin)@.contains(t));
                assert(!slides_to(origin, 0, 1, kept, t) || !other_palace(origin)@.contains(t));
            }
        }
        assert(self.destinations(origin, occupied) =~= self.destinations(origin, kept));
    }
}

/// The cells of the two palaces: columns `D` to `F` of the three lowest rows
/// and of the three highest.
proof fn lemma_palaces(c: int)
    requires
        0 <= c < 90,
    ensures
        BitBoard(RED_PALACE)@.contains(c) == (3 <= c % 9 <= 5 && c / 9 <= 2),
        in_black_palace(c) == (3 <= c % 9 <= 5 && c / 9 >= 7),
        !BitBoard(0)@.contains(c),
{
    let cu = c as u128;
    assert({
        &&& ((0xE0_7038u128 >> cu) & 1 == 1) == (cu == 3 || cu == 4 || cu == 5 || cu == 12 || cu
            == 13 || cu == 14 || cu == 21 || cu == 22 || cu == 23)
        &&& ((0x70_381C_0000_0000_0000_0000u128 >> cu) & 1 == 1) == (cu == 66 || cu == 67 || cu
            == 68 || cu == 75 || cu == 76 || cu == 77 || cu == 84 || cu == 85 || cu == 86)
        &&& (0u128 >> cu) & 1 != 1
    }) by (bit_vector)
        requires
            cu < 90,
    ;
}

} // verus!
