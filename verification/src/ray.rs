//! Rays: the squares that lie in one direction from a square, and how a
//! piece slides or leaps along them.

use crate::bitboard::BitBoard;
use crate::square::{cell, on_board, shifted, Square};
use core::ops::Not;
use vstd::prelude::*;

verus! {

/// Whether `k` steps of `df` columns and `dr` rows from the cell `origin`
/// end on the board.
pub open spec fn ray_on_board(origin: int, df: int, dr: int, k: int) -> bool {
    on_board(origin % 9 + k * df, origin / 9 + k * dr)
}

/// The cell that `k` steps of `df` columns and `dr` rows from `origin` end on.
pub open spec fn ray_cell(origin: int, df: int, dr: int, k: int) -> int {
    cell(origin % 9 + k * df, origin / 9 + k * dr)
}

/// No cell of the ray strictly between its `lo`-th and its `hi`-th is occupied.
pub open spec fn clear_between(
    origin: int,
    df: int,
    dr: int,
    occupied: Set<int>,
    lo: int,
    hi: int,
) -> bool {
    forall|j: int| lo < j < hi ==> !occupied.contains(#[trigger] ray_cell(origin, df, dr, j))
}

/// No cell of the ray before its `k`-th, the origin left aside, is occupied.
pub open spec fn clear_before(origin: int, df: int, dr: int, occupied: Set<int>, k: int) -> bool {
    clear_between(origin, df, dr, occupied, 0, k)
}

/// `target` lies on the ray from `origin`, and nothing stands between the two:
/// a piece that slides along the ray gets there.
pub open spec fn slides_to(origin: int, df: int, dr: int, occupied: Set<int>, target: int) -> bool {
    exists|k: int|
        1 <= k && #[trigger] ray_on_board(origin, df, dr, k) && target == ray_cell(
            origin,
            df,
            dr,
            k,
        ) && clear_before(origin, df, dr, occupied, k)
}

/// `target` lies on the ray from `origin`.
pub open spec fn on_ray(origin: int, df: int, dr: int, target: int) -> bool {
    exists|k: int|
        1 <= k && #[trigger] ray_on_board(origin, df, dr, k) && target == ray_cell(
            origin,
            df,
            dr,
            k,
        )
}

/// `target` lies on the ray from `origin`, and the ray goes on beyond it.
pub open spec fn inside_ray(origin: int, df: int, dr: int, target: int) -> bool {
    exists|k: int|
        1 <= k && #[trigger] ray_on_board(origin, df, dr, k + 1) && target == ray_cell(
            origin,
            df,
            dr,
            k,
        )
}

/// The `screen`-th cell of the ray is the first occupied one after the
/// origin, and the `k`-th cell is the next occupied one after it.
pub open spec fn hops(
    origin: int,
    df: int,
    dr: int,
    occupied: Set<int>,
    screen: int,
    k: int,
) -> bool {
    &&& 1 <= screen < k
    &&& ray_on_board(origin, df, dr, k)
    &&& occupied.contains(ray_cell(origin, df, dr, screen))
    &&& occupied.contains(ray_cell(origin, df, dr, k))
    &&& clear_between(origin, df, dr, occupied, 0, screen)
    &&& clear_between(origin, df, dr, occupied, screen, k)
}

/// `target` is the second occupied cell on the ray from `origin`: a piece that
/// must jump over exactly one other to capture lands there.
pub open spec fn leaps_to(origin: int, df: int, dr: int, occupied: Set<int>, target: int) -> bool {
    exists|screen: int, k: int| #[trigger]
        hops(origin, df, dr, occupied, screen, k) && target == ray_cell(origin, df, dr, k)
}

/// The ray starts at its origin.
pub proof fn lemma_ray_start(origin: int, df: int, dr: int)
    requires
        0 <= origin < 90,
    ensures
        ray_on_board(origin, df, dr, 0),
        ray_cell(origin, df, dr, 0) == origin,
{
}

/// One step from the `k`-th cell of a ray leads to its next cell, or off the
/// board where the ray ends.
pub proof fn lemma_ray_step(origin: int, df: int, dr: int, k: int)
    requires
        ray_on_board(origin, df, dr, k),
    ensures
        shifted(ray_cell(origin, df, dr, k), df, dr) == if ray_on_board(origin, df, dr, k + 1) {
            Some(ray_cell(origin, df, dr, k + 1))
        } else {
            None
        },
{
    assert((k + 1) * df == k * df + df) by (nonlinear_arith);
    assert((k + 1) * dr == k * dr + dr) by (nonlinear_arith);
}

/// A ray does not leave the board and come back: between two of its cells on
/// the board, every cell is on the board.
pub proof fn lemma_ray_convex(origin: int, df: int, dr: int, j: int, k: int)
    requires
        0 <= origin < 90,
        0 <= j <= k,
        ray_on_board(origin, df, dr, k),
    ensures
        ray_on_board(origin, df, dr, j),
{
    let f = origin % 9;
    let r = origin / 9;
    assert(0 <= f + j * df < 9) by (nonlinear_arith)
        requires
            0 <= f < 9,
            0 <= j <= k,
            0 <= f + k * df < 9,
    ;
    assert(0 <= r + j * dr < 10) by (nonlinear_arith)
        requires
            0 <= r < 10,
            0 <= j <= k,
            0 <= r + k * dr < 10,
    ;
}

/// A ray that moves at all has left the board after nine steps, and never
/// comes by the same cell twice.
pub proof fn lemma_ray_moves(origin: int, df: int, dr: int, j: int, k: int)
    requires
        0 <= origin < 90,
        df != 0 || dr != 0,
        0 <= j < k,
        ray_on_board(origin, df, dr, k),
    ensures
        k <= 9,
        ray_cell(origin, df, dr, j) != ray_cell(origin, df, dr, k),
{
    let f = origin % 9;
    let r = origin / 9;
    lemma_ray_convex(origin, df, dr, j, k);
    assert(k <= 9 && (j * df != k * df || j * dr != k * dr)) by (nonlinear_arith)
        requires
            0 <= f < 9,
            0 <= r < 10,
            df != 0 || dr != 0,
            0 <= j < k,
            0 <= f + k * df < 9,
            0 <= r + k * dr < 10,
    ;
}

/// Where a piece slides to depends only on what stands on the cells of the
/// ray short of its last: cells outside `keep`, which holds all of those, may
/// be emptied.
pub proof fn lemma_slide_relevant(
    origin: int,
    df: int,
    dr: int,
    occupied: Set<int>,
    keep: Set<int>,
    target: int,
)
    requires
        0 <= origin < 90,
        forall|c: int| inside_ray(origin, df, dr, c) ==> keep.contains(c),
    ensures
        slides_to(origin, df, dr, occupied, target) == slides_to(
            origin,
            df,
            dr,
            occupied.intersect(keep),
            target,
        ),
{
    let kept = occupied.intersect(keep);
    assert forall|k: int| 1 <= k && ray_on_board(origin, df, dr, k) implies clear_before(
        origin,
        df,
        dr,
        occupied,
        k,
    ) == clear_before(origin, df, dr, kept, k) by {
        assert forall|j: int| 1 <= j < k implies occupied.contains(
            #[trigger] ray_cell(origin, df, dr, j),
        ) == kept.contains(ray_cell(origin, df, dr, j)) by {
            lemma_ray_convex(origin, df, dr, j + 1, k);
            assert(inside_ray(origin, df, dr, ray_cell(origin, df, dr, j)));
        }
    }
    if slides_to(origin, df, dr, occupied, target) {
        let k = choose|k: int|
            1 <= k && #[trigger] ray_on_board(origin, df, dr, k) && target == ray_cell(
                origin,
                df,
                dr,
                k,
            ) && clear_before(origin, df, dr, occupied, k);
        assert(clear_before(origin, df, dr, kept, k));
    }
    if slides_to(origin, df, dr, kept, target) {
        let k = choose|k: int|
            1 <= k && #[trigger] ray_on_board(origin, df, dr, k) && target == ray_cell(
                origin,
                df,
                dr,
                k,
            ) && clear_before(origin, df, dr, kept, k);
        assert(clear_before(origin, df, dr, occupied, k));
    }
}

/// Where a piece leaps to depends only on what stands on the cells of the
/// ray: cells outside `keep`, which holds all of those, may be emptied.
pub proof fn lemma_leap_relevant(
    origin: int,
    df: int,
    dr: int,
    occupied: Set<int>,
    keep: Set<int>,
    target: int,
)
    requires
        0 <= origin < 90,
        forall|c: int| on_ray(origin, df, dr, c) ==> keep.contains(c),
    ensures
        leaps_to(origin, df, dr, occupied, target) == leaps_to(
            origin,
            df,
            dr,
            occupied.intersect(keep),
            target,
        ),
{
    let kept = occupied.intersect(keep);
    assert forall|screen: int, k: int|
        hops(origin, df, dr, occupied, screen, k) == #[trigger] hops(
            origin,
            df,
            dr,
            kept,
            screen,
            k,
        ) by {
        if 1 <= screen < k && ray_on_board(origin, df, dr, k) {
            assert forall|j: int| 1 <= j <= k implies occupied.contains(
                #[trigger] ray_cell(origin, df, dr, j),
            ) == kept.contains(ray_cell(origin, df, dr, j)) by {
                lemma_ray_convex(origin, df, dr, j, k);
                assert(on_ray(origin, df, dr, ray_cell(origin, df, dr, j)));
            }
            assert(occupied.contains(ray_cell(origin, df, dr, screen)) == kept.contains(
                ray_cell(origin, df, dr, screen),
            ));
            assert(occupied.contains(ray_cell(origin, df, dr, k)) == kept.contains(
                ray_cell(origin, df, dr, k),
            ));
        }
    }
    if leaps_to(origin, df, dr, occupied, target) {
        let (screen, k) = choose|screen: int, k: int| #[trigger]
            hops(origin, df, dr, occupied, screen, k) && target == ray_cell(origin, df, dr, k);
        assert(hops(origin, df, dr, kept, screen, k));
    }
    if leaps_to(origin, df, dr, kept, target) {
        let (screen, k) = choose|screen: int, k: int| #[trigger]
            hops(origin, df, dr, kept, screen, k) && target == ray_cell(origin, df, dr, k);
        assert(hops(origin, df, dr, occupied, screen, k));
    }
}

/// The squares that a piece sliding from `square` by steps of `df` columns
/// and `dr` rows comes by: every square of the ray up to the first occupied
/// one, that one included. Whether `square` itself is occupied plays no part.
pub fn slide(square: Square, df: i8, dr: i8, blockers: BitBoard) -> (r: BitBoard)
    requires
        df != 0 || dr != 0,
    ensures
        r.wf(),
        r@ == Set::new(|t: int| slides_to(square@, df as int, dr as int, blockers@, t)),
{
    let ghost origin = square@;
    let ghost x = df as int;
    let ghost y = dr as int;
    let ghost occupied = blockers@;
    let mut moves = BitBoard::empty();
    let mut ray = square;
    let ghost mut k: int = 0;
    proof {
        use_type_invariant(&square);
        lemma_ray_start(origin, x, y);
    }
    loop
        invariant_except_break
            clear_before(origin, x, y, occupied, k + 1),
        invariant
            0 <= origin < 90,
            x == df as int,
            y == dr as int,
            x != 0 || y != 0,
            occupied == blockers@,
            0 <= k <= 9,
            ray_on_board(origin, x, y, k),
            ray@ == ray_cell(origin, x, y, k),
            moves.wf(),
            forall|t: int|
                moves@.contains(t) <==> exists|j: int|
                    1 <= j <= k && t == #[trigger] ray_cell(origin, x, y, j),
        ensures
            clear_before(origin, x, y, occupied, k),
            (k >= 1 && occupied.contains(ray_cell(origin, x, y, k))) || !ray_on_board(
                origin,
                x,
                y,
                k + 1,
            ),
        decreases 10 - k,
    {
        proof {
            lemma_ray_step(origin, x, y, k);
        }
        match ray.try_offset(df, dr) {
            None => {
                break ;
            },
            Some(next) => {
                proof {
                    lemma_ray_moves(origin, x, y, 0, k + 1);
                }
                let ghost before = moves@;
                ray = next;
                moves = moves | ray.bitboard();
                proof {
                    k = k + 1;
                    assert forall|t: int|
                        moves@.contains(t) <==> exists|j: int|
                            1 <= j <= k && t == #[trigger] ray_cell(origin, x, y, j) by {
                        if before.contains(t) {
                            let j = choose|j: int|
                                1 <= j <= k - 1 && t == #[trigger] ray_cell(origin, x, y, j);
                            assert(1 <= j <= k && t == ray_cell(origin, x, y, j));
                        }
                    }
                }
                if blockers.has(ray) {
                    break ;
                }
            },
        }
    }
    proof {
        assert forall|t: int| moves@.contains(t) == slides_to(origin, x, y, occupied, t) by {
            if moves@.contains(t) {
                let j = choose|j: int| 1 <= j <= k && t == #[trigger] ray_cell(origin, x, y, j);
                lemma_ray_convex(origin, x, y, j, k);
                assert(ray_on_board(origin, x, y, j) && clear_before(origin, x, y, occupied, j));
            }
            if slides_to(origin, x, y, occupied, t) {
                let j = choose|j: int|
                    1 <= j && #[trigger] ray_on_board(origin, x, y, j) && t == ray_cell(
                        origin,
                        x,
                        y,
                        j,
                    ) && clear_before(origin, x, y, occupied, j);
                if j > k {
                    lemma_ray_convex(origin, x, y, k + 1, j);
                    assert(!occupied.contains(ray_cell(origin, x, y, k)));
                }
                assert(1 <= j <= k && t == ray_cell(origin, x, y, j));
            }
        }
        assert(moves@ =~= Set::new(|t: int| slides_to(origin, x, y, occupied, t)));
    }
    moves
}

/// Every square of the ray from `square` by steps of `df` columns and `dr`
/// rows, up to the edge of the board.
pub fn ray_squares(square: Square, df: i8, dr: i8) -> (r: BitBoard)
    requires
        df != 0 || dr != 0,
    ensures
        r.wf(),
        r@ == Set::new(|t: int| on_ray(square@, df as int, dr as int, t)),
{
    let r = slide(square, df, dr, BitBoard::empty());
    proof {
        let origin = square@;
        let x = df as int;
        let y = dr as int;
        let none = Set::<int>::empty();
        assert forall|t: int| slides_to(origin, x, y, none, t) == on_ray(origin, x, y, t) by {
            if on_ray(origin, x, y, t) {
                let k = choose|k: int|
                    1 <= k && #[trigger] ray_on_board(origin, x, y, k) && t == ray_cell(
                        origin,
                        x,
                        y,
                        k,
                    );
                assert(clear_before(origin, x, y, none, k));
            }
        }
        assert(r@ =~= Set::new(|t: int| on_ray(origin, x, y, t)));
    }
    r
}

/// The squares of the ray from `square` that have another square of the ray
/// behind them: all of the ray but its last square.
pub fn ray_inside(square: Square, df: i8, dr: i8) -> (r: BitBoard)
    requires
        df != 0 || dr != 0,
    ensures
        r.wf(),
        r@ == Set::new(|t: int| inside_ray(square@, df as int, dr as int, t)),
{
    let ghost origin = square@;
    let ghost x = df as int;
    let ghost y = dr as int;
    let mut inside = BitBoard::empty();
    let mut ray = square;
    let ghost mut k: int = 0;
    proof {
        use_type_invariant(&square);
        lemma_ray_start(origin, x, y);
    }
    loop
        invariant
            0 <= origin < 90,
            origin == square@,
            x == df as int,
            y == dr as int,
            x != 0 || y != 0,
            0 <= k <= 9,
            ray_on_board(origin, x, y, k),
            ray@ == ray_cell(origin, x, y, k),
            inside.wf(),
            forall|t: int|
                inside@.contains(t) <==> exists|j: int|
                    0 <= j < k && t == #[trigger] ray_cell(origin, x, y, j),
        ensures
            !ray_on_board(origin, x, y, k + 1),
        decreases 10 - k,
    {
        proof {
            lemma_ray_step(origin, x, y, k);
        }
        match ray.try_offset(df, dr) {
            None => {
                break ;
            },
            Some(next) => {
                proof {
                    lemma_ray_moves(origin, x, y, 0, k + 1);
                }
                let ghost before = inside@;
                inside = inside | ray.bitboard();
                ray = next;
                proof {
                    k = k + 1;
                    assert forall|t: int|
                        inside@.contains(t) <==> exists|j: int|
                            0 <= j < k && t == #[trigger] ray_cell(origin, x, y, j) by {
                        if before.contains(t) {
                            let j = choose|j: int|
                                0 <= j < k - 1 && t == #[trigger] ray_cell(origin, x, y, j);
                            assert(0 <= j < k && t == ray_cell(origin, x, y, j));
                        }
                    }
                }
            },
        }
    }
    let r = inside & square.bitboard().not();
    proof {
        assert forall|t: int| r@.contains(t) == inside_ray(origin, x, y, t) by {
            if r@.contains(t) {
                let j = choose|j: int| 0 <= j < k && t == #[trigger] ray_cell(origin, x, y, j);
                assert(j >= 1);
                assert(ray_on_board(origin, x, y, j + 1)) by {
                    lemma_ray_convex(origin, x, y, j + 1, k);
                }
            }
            if inside_ray(origin, x, y, t) {
                let j = choose|j: int|
                    1 <= j && #[trigger] ray_on_board(origin, x, y, j + 1) && t == ray_cell(
                        origin,
                        x,
                        y,
                        j,
                    );
                if j + 1 > k {
                    lemma_ray_convex(origin, x, y, k + 1, j + 1);
                }
                lemma_ray_convex(origin, x, y, j, j + 1);
                lemma_ray_moves(origin, x, y, 0, j);
                assert(0 <= j < k && t == ray_cell(origin, x, y, j));
                assert(inside@.contains(t));
                assert(0 <= t < 90);
            }
        }
        assert(r@ =~= Set::new(|t: int| inside_ray(origin, x, y, t)));
    }
    r
}

/// Where a piece that captures by jumping lands on the ray from `square`: on
/// the second occupied square of the ray, if there is one. Whether `square`
/// itself is occupied plays no part.
pub fn leap(square: Square, df: i8, dr: i8, blockers: BitBoard) -> (r: BitBoard)
    requires
        df != 0 || dr != 0,
    ensures
        r.wf(),
        r@ == Set::new(|t: int| leaps_to(square@, df as int, dr as int, blockers@, t)),
{
    let ghost origin = square@;
    let ghost x = df as int;
    let ghost y = dr as int;
    let ghost occupied = blockers@;
    let ghost wanted = Set::new(|t: int| leaps_to(origin, x, y, occupied, t));
    let mut ray = square;
    let ghost mut k: int = 0;
    proof {
        use_type_invariant(&square);
        lemma_ray_start(origin, x, y);
    }
    loop
        invariant_except_break
            clear_between(origin, x, y, occupied, 0, k + 1),
        invariant
            0 <= origin < 90,
            origin == square@,
            x == df as int,
            y == dr as int,
            x != 0 || y != 0,
            occupied == blockers@,
            wanted == Set::new(|t: int| leaps_to(origin, x, y, occupied, t)),
            0 <= k <= 9,
            ray_on_board(origin, x, y, k),
            ray@ == ray_cell(origin, x, y, k),
        ensures
            k >= 1,
            occupied.contains(ray_cell(origin, x, y, k)),
            clear_between(origin, x, y, occupied, 0, k),
        decreases 10 - k,
    {
        proof {
            lemma_ray_step(origin, x, y, k);
        }
        match ray.try_offset(df, dr) {
            None => {
                proof {
                    assert forall|t: int| !leaps_to(origin, x, y, occupied, t) by {
                        if leaps_to(origin, x, y, occupied, t) {
                            let (s, j) = choose|s: int, j: int| #[trigger]
                                hops(origin, x, y, occupied, s, j) && t == ray_cell(
                                    origin,
                                    x,
                                    y,
                                    j,
                                );
                            if s > k {
                                lemma_ray_convex(origin, x, y, k + 1, j);
                            }
                            assert(!occupied.contains(ray_cell(origin, x, y, s)));
                        }
                    }
                    assert(wanted =~= Set::<int>::empty());
                }
                return BitBoard::empty();
            },
            Some(next) => {
                proof {
                    lemma_ray_moves(origin, x, y, 0, k + 1);
                    k = k + 1;
                }
                ray = next;
                if blockers.has(ray) {
                    break ;
                }
            },
        }
    }
    let ghost screen = k;
    loop
        invariant
            0 <= origin < 90,
            origin == square@,
            x == df as int,
            y == dr as int,
            x != 0 || y != 0,
            occupied == blockers@,
            wanted == Set::new(|t: int| leaps_to(origin, x, y, occupied, t)),
            1 <= screen <= k <= 9,
            ray_on_board(origin, x, y, k),
            ray@ == ray_cell(origin, x, y, k),
            occupied.contains(ray_cell(origin, x, y, screen)),
            clear_between(origin, x, y, occupied, 0, screen),
            clear_between(origin, x, y, occupied, screen, k + 1),
        decreases 10 - k,
    {
        proof {
            lemma_ray_step(origin, x, y, k);
        }
        match ray.try_offset(df, dr) {
            None => {
                proof {
                    assert forall|t: int| !leaps_to(origin, x, y, occupied, t) by {
                        if leaps_to(origin, x, y, occupied, t) {
                            let (s, j) = choose|s: int, j: int| #[trigger]
                                hops(origin, x, y, occupied, s, j) && t == ray_cell(
                                    origin,
                                    x,
                                    y,
                                    j,
                                );
                            if j > k {
                                lemma_ray_convex(origin, x, y, k + 1, j);
                            }
                            if s < screen {
                                assert(!occupied.contains(ray_cell(origin, x, y, s)));
                            } else if s > screen {
                                assert(!occupied.contains(ray_cell(origin, x, y, screen)));
                            } else {
                                assert(!occupied.contains(ray_cell(origin, x, y, j)));
                            }
                        }
                    }
                    assert(wanted =~= Set::<int>::empty());
                }
                return BitBoard::empty();
            },
            Some(next) => {
                proof {
                    lemma_ray_moves(origin, x, y, 0, k + 1);
                    k = k + 1;
                }
                ray = next;
                if blockers.has(ray) {
                    proof {
                        assert(hops(origin, x, y, occupied, screen, k));
                        assert forall|t: int|
                            leaps_to(origin, x, y, occupied, t) implies t == ray@ by {
                            let (s, j) = choose|s: int, j: int| #[trigger]
                                hops(origin, x, y, occupied, s, j) && t == ray_cell(
                                    origin,
                                    x,
                                    y,
                                    j,
                                );
                            if s < screen {
                                assert(!occupied.contains(ray_cell(origin, x, y, s)));
                            } else if s > screen {
                                assert(!occupied.contains(ray_cell(origin, x, y, screen)));
                            } else if j < k {
                                assert(!occupied.contains(ray_cell(origin, x, y, j)));
                            } else if j > k {
                                assert(!occupied.contains(ray_cell(origin, x, y, k)));
                            }
                        }
                        assert(wanted =~= set![ray@]);
                    }
                    return ray.bitboard();
                }
            },
        }
    }
}

} // verus!
