//! Pieces that jump unless a piece stands on the eye of the jump: the knight
//! and the bishop.

use crate::bitboard::BitBoard;
use crate::generate::ChessMove;
use crate::square::{numbers, shifted, Square};
use vstd::prelude::*;

verus! {

/// The eight jumps of a knight, as columns and rows.
pub const KNIGHT_DELTAS: [(i8, i8); 8] = [
    (2, 1),
    (2, -1),
    (1, 2),
    (-1, 2),
    (-2, 1),
    (-2, -1),
    (1, -2),
    (-1, -2),
];

/// For each jump of a knight, the step to the square that must be free.
pub const KNIGHT_LAMELS: [(i8, i8); 8] = [
    (1, 0),
    (1, 0),
    (0, 1),
    (0, 1),
    (-1, 0),
    (-1, 0),
    (0, -1),
    (0, -1),
];

/// The four jumps of a bishop, as columns and rows.
pub const BISHOP_DELTAS: [(i8, i8); 4] = [(2, 2), (2, -2), (-2, 2), (-2, -2)];

/// For each jump of a bishop, the step to the square that must be free.
pub const BISHOP_LAMELS: [(i8, i8); 4] = [(1, 1), (1, -1), (-1, 1), (-1, -1)];

/// The numbers of the fourteen squares that a bishop can stand on.
pub const BISHOP_START_RANGE: [usize; 14] = [2, 6, 18, 22, 26, 38, 42, 47, 51, 63, 67, 71, 83, 87];

/// A jump of `delta` from `origin` ends on `target`, and the square that
/// `lamel` leads to from `origin`, the eye of the jump, is on the board and
/// free.
pub open spec fn jumps_to(
    origin: int,
    lamel: (i8, i8),
    delta: (i8, i8),
    occupied: Set<int>,
    target: int,
) -> bool {
    &&& shifted(origin, delta.0 as int, delta.1 as int) == Some(target)
    &&& shifted(origin, lamel.0 as int, lamel.1 as int) matches Some(eye) && !occupied.contains(eye)
}

/// A piece that jumps, each of its `N` jumps being held up by a piece on the
/// eye of that jump.
pub struct LameLeaper<const N: usize> {
    deltas: [(i8, i8); N],
    lamels: [(i8, i8); N],
    start_range: Vec<Square>,
}

impl<const N: usize> LameLeaper<N> {
    /// The jumps, as columns and rows.
    pub closed spec fn deltas(&self) -> Seq<(i8, i8)> {
        self.deltas@
    }

    /// For each jump, the step to its eye.
    pub closed spec fn lamels(&self) -> Seq<(i8, i8)> {
        self.lamels@
    }

    /// The squares that the piece moves from.
    pub closed spec fn start_squares(&self) -> Seq<Square> {
        self.start_range@
    }

    /// A leaper with the jumps `deltas`, the eye of each given by the entry of
    /// `lamels` at the same place, that moves from the squares of
    /// `start_range`.
    pub fn new(deltas: [(i8, i8); N], lamels: [(i8, i8); N], start_range: Vec<Square>) -> (r:
        LameLeaper<N>)
        ensures
            r.deltas() == deltas@,
            r.lamels() == lamels@,
            r.start_squares() == start_range@,
    {
        LameLeaper { deltas, lamels, start_range }
    }
}

impl<const N: usize> ChessMove for LameLeaper<N> {
    /// The cells where a jump ends whose eye is on the board and free.
    open spec fn destinations(&self, origin: int, occupied: Set<int>) -> Set<int> {
        Set::new(
            |t: int|
                exists|i: int|
                    0 <= i < N && #[trigger] jumps_to(
                        origin,
                        self.lamels()[i],
                        self.deltas()[i],
                        occupied,
                        t,
                    ),
        )
    }

    /// The eyes of all jumps, as far as they are on the board.
    open spec fn relevant(&self, origin: int) -> Set<int> {
        Set::new(
            |t: int|
                exists|i: int|
                    0 <= i < N && shifted(
                        origin,
                        (#[trigger] self.lamels()[i]).0 as int,
                        self.lamels()[i].1 as int,
                    ) == Some(t),
        )
    }

    open spec fn origins(&self) -> Seq<int> {
        numbers(self.start_squares())
    }

    fn moves(&self, square: Square, blockers: BitBoard) -> (r: BitBoard) {
        let mut moves = BitBoard::empty();
        let mut n: usize = 0;
        while n < N
            invariant
                n <= N,
                moves.wf(),
                forall|t: int|
                    moves@.contains(t) <==> exists|i: int|
                        0 <= i < n && #[trigger] jumps_to(
                            square@,
                            self.lamels()[i],
                            self.deltas()[i],
                            blockers@,
                            t,
                        ),
            decreases N - n,
        {
            let ghost before = moves@;
            let eye = square.try_offset(self.lamels[n].0, self.lamels[n].1);
            let dst = square.try_offset(self.deltas[n].0, self.deltas[n].1);
            if let (Some(lamel), Some(dst)) = (eye, dst) {
                if !blockers.has(lamel) {
                    moves = moves | dst.bitboard();
                }
            }
            proof {
                let lamel = self.lamels()[n as int];
                let delta = self.deltas()[n as int];
                assert forall|t: int|
                    moves@.contains(t) <==> exists|i: int|
                        0 <= i < n + 1 && #[trigger] jumps_to(
                            square@,
                            self.lamels()[i],
                            self.deltas()[i],
                            blockers@,
                            t,
                        ) by {
                    if moves@.contains(t) && !before.contains(t) {
                        assert(jumps_to(square@, lamel, delta, blockers@, t));
                    }
                    if before.contains(t) {
                        let i = choose|i: int|
                            0 <= i < n && #[trigger] jumps_to(
                                square@,
                                self.lamels()[i],
                                self.deltas()[i],
                                blockers@,
                                t,
                            );
                        assert(0 <= i < n + 1);
                    }
                }
            }
            n = n + 1;
        }
        assert(moves@ =~= self.destinations(square@, blockers@));
        moves
    }

    fn relevant_blockers(&self, square: Square) -> (r: BitBoard) {
        let mut blockers = BitBoard::empty();
        let mut n: usize = 0;
        while n < N
            invariant
                n <= N,
                blockers.wf(),
                forall|t: int|
                    blockers@.contains(t) <==> exists|i: int|
                        0 <= i < n && shifted(
                            square@,
                            (#[trigger] self.lamels()[i]).0 as int,
                            self.lamels()[i].1 as int,
                        ) == Some(t),
            decreases N - n,
        {
            let ghost before = blockers@;
            if let Some(lamel) = square.try_offset(self.lamels[n].0, self.lamels[n].1) {
                blockers = blockers | lamel.bitboard();
            }
            proof {
                let lamel = self.lamels()[n as int];
                assert forall|t: int|
                    blockers@.contains(t) <==> exists|i: int|
                        0 <= i < n + 1 && shifted(
                            square@,
                            (#[trigger] self.lamels()[i]).0 as int,
                            self.lamels()[i].1 as int,
                        ) == Some(t) by {
                    if blockers@.contains(t) && !before.contains(t) {
                        assert(shifted(square@, lamel.0 as int, lamel.1 as int) == Some(t));
                    }
                    if before.contains(t) {
                        let i = choose|i: int|
                            0 <= i < n && shifted(
                                square@,
                                (#[trigger] self.lamels()[i]).0 as int,
                                self.lamels()[i].1 as int,
                            ) == Some(t);
                        assert(0 <= i < n + 1);
                    }
                }
            }
            n = n + 1;
        }
        assert(blockers@ =~= self.relevant(square@));
        blockers
    }

    fn start_range(&self) -> (r: Vec<Square>) {
        self.start_range.clone()
    }

    proof fn lemma_relevant(&self, origin: int, occupied: Set<int>) {
        let keep = self.relevant(origin);
        let kept = occupied.intersect(keep);
        assert forall|t: int|
            self.destinations(origin, occupied).contains(t) == self.destinations(
                origin,
                kept,
            ).contains(t) by {
            assert forall|i: int| 0 <= i < N implies #[trigger] jumps_to(
                origin,
                self.lamels()[i],
                self.deltas()[i],
                occupied,
                t,
            ) == jumps_to(origin, self.lamels()[i], self.deltas()[i], kept, t) by {
                let lamel = self.lamels()[i];
                if let Some(eye) = shifted(origin, lamel.0 as int, lamel.1 as int) {
                    assert(keep.contains(eye));
                }
            }
            if self.destinations(origin, occupied).contains(t) {
                let i = choose|i: int|
                    0 <= i < N && #[trigger] jumps_to(
                        origin,
                        self.lamels()[i],
                        self.deltas()[i],
                        occupied,
                        t,
                    );
                assert(jumps_to(origin, self.lamels()[i], self.deltas()[i], kept, t));
            }
            if self.destinations(origin, kept).contains(t) {
                let i = choose|i: int|
                    0 <= i < N && #[trigger] jumps_to(
                        origin,
                        self.lamels()[i],
                        self.deltas()[i],
                        kept,
                        t,
                    );
                assert(jumps_to(origin, self.lamels()[i], self.deltas()[i], occupied, t));
            }
        }
        assert(self.destinations(origin, occupied) =~= self.destinations(origin, kept));
    }
}

} // verus!
