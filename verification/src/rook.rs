//! Pieces that slide along rays, such as the rook.

use crate::bitboard::BitBoard;
use crate::generate::ChessMove;
use crate::ray::{inside_ray, lemma_slide_relevant, ray_inside, slide, slides_to};
use crate::square::{numbers, Square};
use vstd::prelude::*;

verus! {

/// One step to the right, up, to the left and down.
pub const SLIDER_ONE_STEP: [(i8, i8); 4] = [(1, 0), (0, 1), (-1, 0), (0, -1)];

/// Whether a step of `delta` leaves the square it starts from.
pub open spec fn is_step(delta: (i8, i8)) -> bool {
    delta.0 != 0 || delta.1 != 0
}

/// A piece that slides along four rays until something stands in its way.
pub struct Slider {
    deltas: [(i8, i8); 4],
    start_range: Vec<Square>,
}

impl Slider {
    /// Every one of the four steps moves.
    #[verifier::type_invariant]
    spec fn steps_move(self) -> bool {
        forall|i: int| 0 <= i < 4 ==> is_step(#[trigger] self.deltas[i])
    }

    /// The step of each of the four rays, as columns and rows.
    pub closed spec fn deltas(&self) -> Seq<(i8, i8)> {
        self.deltas@
    }

    /// The squares that the piece moves from.
    pub closed spec fn start_squares(&self) -> Seq<Square> {
        self.start_range@
    }

    /// A slider along the rays of the four `deltas`, none of which may stand
    /// still, that moves from the squares of `start_range`.
    pub fn new(deltas: [(i8, i8); 4], start_range: Vec<Square>) -> (r: Slider)
        requires
            forall|i: int| 0 <= i < 4 ==> is_step(#[trigger] deltas[i]),
        ensures
            r.deltas() == deltas@,
            r.start_squares() == start_range@,
    {
        Slider { deltas, start_range }
    }
}

impl ChessMove for Slider {
    /// The cells of the four rays up to the first occupied one on each.
    open spec fn destinations(&self, origin: int, occupied: Set<int>) -> Set<int> {
        Set::new(
            |t: int|
                exists|i: int|
                    0 <= i < 4 && #[trigger] slides_to(
                        origin,
                        self.deltas()[i].0 as int,
                        self.deltas()[i].1 as int,
                        occupied,
                        t,
                    ),
        )
    }

    /// The cells of the four rays but the last of each.
    open spec fn relevant(&self, origin: int) -> Set<int> {
        Set::new(
            |t: int|
                exists|i: int|
                    0 <= i < 4 && #[trigger] inside_ray(
                        origin,
                        self.deltas()[i].0 as int,
                        self.deltas()[i].1 as int,
                        t,
                    ),
        )
    }

    open spec fn origins(&self) -> Seq<int> {
        numbers(self.start_squares())
    }

    fn moves(&self, square: Square, blockers: BitBoard) -> (r: BitBoard) {
        proof {
            use_type_invariant(self);
        }
        let mut moves = BitBoard::empty();
        let mut n: usize = 0;
        while n < 4
            invariant
                n <= 4,
                moves.wf(),
                forall|i: int| 0 <= i < 4 ==> is_step(#[trigger] self.deltas[i]),
                forall|t: int|
                    moves@.contains(t) <==> exists|i: int|
                        0 <= i < n && #[trigger] slides_to(
                            square@,
                            self.deltas()[i].0 as int,
                            self.deltas()[i].1 as int,
                            blockers@,
                            t,
                        ),
            decreases 4 - n,
        {
            let (df, dr) = self.deltas[n];
            assert(is_step(self.deltas[n as int]));
            let ghost before = moves@;
            let part = slide(square, df, dr, blockers);
            moves = moves | part;
            proof {
                let x = self.deltas()[n as int].0 as int;
                let y = self.deltas()[n as int].1 as int;
                assert forall|t: int|
                    moves@.contains(t) <==> exists|i: int|
                        0 <= i < n + 1 && #[trigger] slides_to(
                            square@,
                            self.deltas()[i].0 as int,
                            self.deltas()[i].1 as int,
                            blockers@,
                            t,
                        ) by {
                    if part@.contains(t) {
                        assert(slides_to(square@, x, y, blockers@, t));
                    }
                    if before.contains(t) {
                        let i = choose|i: int|
                            0 <= i < n && #[trigger] slides_to(
                                square@,
                                self.deltas()[i].0 as int,
                                self.deltas()[i].1 as int,
                                blockers@,
                                t,
                            );
                        assert(0 <= i < n + 1);
                    }
                }
            }
            n = n + 1;
        }
        assert(moves@ =~= self.destinations(square@, blockers@));
        moves
    }

    fn relevant_blockers(&self, square: Square) -> (r: BitBoard) {
        proof {
            use_type_invariant(self);
        }
        let mut blockers = BitBoard::empty();
        let mut n: usize = 0;
        while n < 4
            invariant
                n <= 4,
                blockers.wf(),
                forall|i: int| 0 <= i < 4 ==> is_step(#[trigger] self.deltas[i]),
                forall|t: int|
                    blockers@.contains(t) <==> exists|i: int|
                        0 <= i < n && #[trigger] inside_ray(
                            square@,
                            self.deltas()[i].0 as int,
                            self.deltas()[i].1 as int,
                            t,
                        ),
            decreases 4 - n,
        {
            let (df, dr) = self.deltas[n];
            assert(is_step(self.deltas[n as int]));
            let ghost before = blockers@;
            let part = ray_inside(square, df, dr);
            blockers = blockers | part;
            proof {
                let x = self.deltas()[n as int].0 as int;
                let y = self.deltas()[n as int].1 as int;
                assert forall|t: int|
                    blockers@.contains(t) <==> exists|i: int|
                        0 <= i < n + 1 && #[trigger] inside_ray(
                            square@,
                            self.deltas()[i].0 as int,
                            self.deltas()[i].1 as int,
                            t,
                        ) by {
                    if part@.contains(t) {
                        assert(inside_ray(square@, x, y, t));
                    }
                    if before.contains(t) {
                        let i = choose|i: int|
                            0 <= i < n && #[trigger] inside_ray(
                                square@,
                                self.deltas()[i].0 as int,
                                self.deltas()[i].1 as int,
                                t,
                            );
                        assert(0 <= i < n + 1);
                    }
                }
            }
            n = n + 1;
        }
        assert(blockers@ =~= self.relevant(square@));
        blockers
    }

    fn start_range(&self) -> (r: Vec<Square>) {
        self.start_range.clone()
    }

    proof fn lemma_relevant(&self, origin: int, occupied: Set<int>) {
        let keep = self.relevant(origin);
        let kept = occupied.intersect(keep);
        assert forall|t: int|
            self.destinations(origin, occupied).contains(t) == self.destinations(
                origin,
                kept,
            ).contains(t) by {
            assert forall|i: int| 0 <= i < 4 implies #[trigger] slides_to(
                origin,
                self.deltas()[i].0 as int,
                self.deltas()[i].1 as int,
                occupied,
                t,
            ) == slides_to(
                origin,
                self.deltas()[i].0 as int,
                self.deltas()[i].1 as int,
                kept,
                t,
            ) by {
                let x = self.deltas()[i].0 as int;
                let y = self.deltas()[i].1 as int;
                assert forall|c: int| inside_ray(origin, x, y, c) implies keep.contains(c) by {
                    assert(inside_ray(
                        origin,
                        self.deltas()[i].0 as int,
                        self.deltas()[i].1 as int,
                        c,
                    ));
                }
                lemma_slide_relevant(origin, x, y, occupied, keep, t);
            }
            if self.destinations(origin, occupied).contains(t) {
                let i = choose|i: int|
                    0 <= i < 4 && #[trigger] slides_to(
                        origin,
                        self.deltas()[i].0 as int,
                        self.deltas()[i].1 as int,
                        occupied,
                        t,
                    );
                assert(slides_to(
                    origin,
                    self.deltas()[i].0 as int,
                    self.deltas()[i].1 as int,
                    kept,
                    t,
                ));
            }
            if self.destinations(origin, kept).contains(t) {
                let i = choose|i: int|
                    0 <= i < 4 && #[trigger] slides_to(
                        origin,
                        self.deltas()[i].0 as int,
                        self.deltas()[i].1 as int,
                        kept,
                        t,
                    );
                assert(slides_to(
                    origin,
                    self.deltas()[i].0 as int,
                    self.deltas()[i].1 as int,
                    occupied,
                    t,
                ));
            }
        }
        assert(self.destinations(origin, occupied) =~= self.destinations(origin, kept));
    }
}

} // verus!
