//! The cannon as it captures: by walking its rays, or by looking up its row
//! and its column in tables.

use crate::bitboard::BitBoard;
use crate::generate::ChessMove;
use crate::lines::{lemma_line_word_bound, lemma_line_word_tells, line_board, line_index, line_word};
use crate::ray::{
    leap, leaps_to, lemma_leap_relevant, on_ray, ray_cell, ray_on_board, ray_squares,
};
use crate::rook::{is_step, SLIDER_ONE_STEP};
use crate::square::{numbers, Square};
use vstd::arithmetic::power2::{lemma2_to64, lemma_pow2_unfold, pow2};
use vstd::prelude::*;

verus! {

/// The cells on which a cannon on `origin` can capture while `occupied` is
/// taken: on each of the four rays along its row and its column, the second
/// occupied cell.
pub open spec fn cannon_targets(origin: int, occupied: Set<int>) -> Set<int> {
    Set::new(
        |t: int|
            exists|i: int|
                0 <= i < 4 && #[trigger] leaps_to(
                    origin,
                    SLIDER_ONE_STEP[i].0 as int,
                    SLIDER_ONE_STEP[i].1 as int,
                    occupied,
                    t,
                ),
    )
}

/// The cells that matter to a cannon on `origin`: every cell of its row and
/// its column but its own.
pub open spec fn cannon_rays(origin: int) -> Set<int> {
    Set::new(
        |t: int|
            exists|i: int|
                0 <= i < 4 && #[trigger] on_ray(
                    origin,
                    SLIDER_ONE_STEP[i].0 as int,
                    SLIDER_ONE_STEP[i].1 as int,
                    t,
                ),
    )
}

/// Where a cannon captures depends only on what stands in its row and its
/// column.
pub proof fn lemma_cannon_relevant(origin: int, occupied: Set<int>)
    requires
        0 <= origin < 90,
    ensures
        cannon_targets(origin, occupied) == cannon_targets(
            origin,
            occupied.intersect(cannon_rays(origin)),
        ),
{
    let keep = cannon_rays(origin);
    let kept = occupied.intersect(keep);
    assert forall|t: int|
        cannon_targets(origin, occupied).contains(t) == cannon_targets(origin, kept).contains(
            t,
        ) by {
        assert forall|i: int| 0 <= i < 4 implies #[trigger] leaps_to(
            origin,
            SLIDER_ONE_STEP[i].0 as int,
            SLIDER_ONE_STEP[i].1 as int,
            occupied,
            t,
        ) == leaps_to(
            origin,
            SLIDER_ONE_STEP[i].0 as int,
            SLIDER_ONE_STEP[i].1 as int,
            kept,
            t,
        ) by {
            let x = SLIDER_ONE_STEP[i].0 as int;
            let y = SLIDER_ONE_STEP[i].1 as int;
            assert forall|c: int| on_ray(origin, x, y, c) implies keep.contains(c) by {
                assert(on_ray(
                    origin,
                    SLIDER_ONE_STEP[i].0 as int,
                    SLIDER_ONE_STEP[i].1 as int,
                    c,
                ));
            }
            lemma_leap_relevant(origin, x, y, occupied, keep, t);
        }
        if cannon_targets(origin, occupied).contains(t) {
            let i = choose|i: int|
                0 <= i < 4 && #[trigger] leaps_to(
                    origin,
                    SLIDER_ONE_STEP[i].0 as int,
                    SLIDER_ONE_STEP[i].1 as int,
                    occupied,
                    t,
                );
            assert(leaps_to(
                origin,
                SLIDER_ONE_STEP[i].0 as int,
                SLIDER_ONE_STEP[i].1 as int,
                kept,
                t,
            ));
        }
        if cannon_targets(origin, kept).contains(t) {
            let i = choose|i: int|
                0 <= i < 4 && #[trigger] leaps_to(
                    origin,
                    SLIDER_ONE_STEP[i].0 as int,
                    SLIDER_ONE_STEP[i].1 as int,
                    kept,
                    t,
                );
            assert(leaps_to(
                origin,
                SLIDER_ONE_STEP[i].0 as int,
                SLIDER_ONE_STEP[i].1 as int,
                occupied,
                t,
            ));
        }
    }
    assert(cannon_targets(origin, occupied) =~= cannon_targets(origin, kept));
}

/// How a cannon captures: along a row or a column, by jumping over exactly
/// one piece and landing on the next. It walks the rays square by square.
pub struct CannonAttack {
    deltas: [(i8, i8); 4],
}

impl CannonAttack {
    /// The cannon's four steps are those of a slider along rows and columns.
    #[verifier::type_invariant]
    spec fn straight(self) -> bool {
        self.deltas@ == SLIDER_ONE_STEP@
    }

    /// The step of each of the four rays, as columns and rows.
    pub closed spec fn deltas(&self) -> Seq<(i8, i8)> {
        self.deltas@
    }

    /// The cannon's rule.
    pub fn new() -> (r: CannonAttack)
        ensures
            r.deltas() == SLIDER_ONE_STEP@,
    {
        CannonAttack { deltas: SLIDER_ONE_STEP }
    }
}

impl ChessMove for CannonAttack {
    open spec fn destinations(&self, origin: int, occupied: Set<int>) -> Set<int> {
        cannon_targets(origin, occupied)
    }

    open spec fn relevant(&self, origin: int) -> Set<int> {
        cannon_rays(origin)
    }

    /// The cannon moves from every cell.
    open spec fn origins(&self) -> Seq<int> {
        Seq::new(90, |i: int| i)
    }

    fn moves(&self, square: Square, blockers: BitBoard) -> (r: BitBoard) {
        proof {
            use_type_invariant(self);
        }
        let mut moves = BitBoard::empty();
        let mut n: usize = 0;
        while n < 4
            invariant
                n <= 4,
                moves.wf(),
                self.deltas@ == SLIDER_ONE_STEP@,
                forall|t: int|
                    moves@.contains(t) <==> exists|i: int|
                        0 <= i < n && #[trigger] leaps_to(
                            square@,
                            SLIDER_ONE_STEP[i].0 as int,
                            SLIDER_ONE_STEP[i].1 as int,
                            blockers@,
                            t,
                        ),
            decreases 4 - n,
        {
            let (df, dr) = self.deltas[n];
            assert(self.deltas@[n as int] == SLIDER_ONE_STEP[n as int]);
            assert(is_step(SLIDER_ONE_STEP[n as int]));
            let ghost before = moves@;
            let part = leap(square, df, dr, blockers);
            moves = moves | part;
            proof {
                let x = SLIDER_ONE_STEP[n as int].0 as int;
                let y = SLIDER_ONE_STEP[n as int].1 as int;
                assert forall|t: int|
                    moves@.contains(t) <==> exists|i: int|
                        0 <= i < n + 1 && #[trigger] leaps_to(
                            square@,
                            SLIDER_ONE_STEP[i].0 as int,
                            SLIDER_ONE_STEP[i].1 as int,
                            blockers@,
                            t,
                        ) by {
                    if part@.contains(t) {
                        assert(leaps_to(square@, x, y, blockers@, t));
                    }
                    if before.contains(t) {
                        let i = choose|i: int|
                            0 <= i < n && #[trigger] leaps_to(
                                square@,
                                SLIDER_ONE_STEP[i].0 as int,
                                SLIDER_ONE_STEP[i].1 as int,
                                blockers@,
                                t,
                            );
                        assert(0 <= i < n + 1);
                    }
                }
            }
            n = n + 1;
        }
        assert(moves@ =~= cannon_targets(square@, blockers@));
        moves
    }

    fn relevant_blockers(&self, square: Square) -> (r: BitBoard) {
        proof {
            use_type_invariant(self);
        }
        let mut blockers = BitBoard::empty();
        let mut n: usize = 0;
        while n < 4
            invariant
                n <= 4,
                blockers.wf(),
                self.deltas@ == SLIDER_ONE_STEP@,
                forall|t: int|
                    blockers@.contains(t) <==> exists|i: int|
                        0 <= i < n && #[trigger] on_ray(
                            square@,
                            SLIDER_ONE_STEP[i].0 as int,
                            SLIDER_ONE_STEP[i].1 as int,
                            t,
                        ),
            decreases 4 - n,
        {
            let (df, dr) = self.deltas[n];
            assert(self.deltas@[n as int] == SLIDER_ONE_STEP[n as int]);
            assert(is_step(SLIDER_ONE_STEP[n as int]));
            let ghost before = blockers@;
            let part = ray_squares(square, df, dr);
            blockers = blockers | part;
            proof {
                let x = SLIDER_ONE_STEP[n as int].0 as int;
                let y = SLIDER_ONE_STEP[n as int].1 as int;
                assert forall|t: int|
                    blockers@.contains(t) <==> exists|i: int|
                        0 <= i < n + 1 && #[trigger] on_ray(
                            square@,
                            SLIDER_ONE_STEP[i].0 as int,
                            SLIDER_ONE_STEP[i].1 as int,
                            t,
                        ) by {
                    if part@.contains(t) {
                        assert(on_ray(square@, x, y, t));
                    }
                    if before.contains(t) {
                        let i = choose|i: int|
                            0 <= i < n && #[trigger] on_ray(
                                square@,
                                SLIDER_ONE_STEP[i].0 as int,
                                SLIDER_ONE_STEP[i].1 as int,
                                t,
                            );
                        assert(0 <= i < n + 1);
                    }
                }
            }
            n = n + 1;
        }
        assert(blockers@ =~= cannon_rays(square@));
        blockers
    }

    fn start_range(&self) -> (r: Vec<Square>) {
        let r = Square::all();
        assert(numbers(r@) =~= self.origins());
        r
    }

    proof fn lemma_relevant(&self, origin: int, occupied: Set<int>) {
        lemma_cannon_relevant(origin, occupied);
    }
}

/// The cells that a cannon leaps to along one line through `origin`, in the
/// direction of `df` columns and `dr` rows and in the direction against it.
pub open spec fn line_leaps(origin: int, df: int, dr: int, occupied: Set<int>) -> Set<int> {
    Set::new(
        |t: int|
            leaps_to(origin, df, dr, occupied, t) || leaps_to(origin, -df, -dr, occupied, t),
    )
}

/// The place in the table of rows of what a cannon on `origin` does while
/// `occupied` is taken: it depends on the nine cells of the row alone.
pub open spec fn row_slot(origin: int, occupied: Set<int>) -> int {
    origin * 512 + line_word(occupied, 9 * (origin / 9), 1, 9)
}

/// The place in the table of columns of what a cannon on `origin` does while
/// `occupied` is taken: it depends on the ten cells of the column alone.
pub open spec fn column_slot(origin: int, occupied: Set<int>) -> int {
    origin * 1024 + line_word(occupied, origin % 9, 9, 10)
}

/// Every cell of the two rays along the line is one of the `length` cells
/// that start at `first` and go on by `step`.
pub open spec fn on_line(
    origin: int,
    df: int,
    dr: int,
    first: int,
    step: int,
    length: int,
) -> bool {
    forall|c: int|
        on_ray(origin, df, dr, c) || on_ray(origin, -df, -dr, c) ==> exists|j: int|
            0 <= j < length && c == #[trigger] (first + j * step)
}

/// The rays of a cannon along its row lie in that row, those along its
/// column in that column.
proof fn lemma_rays_on_lines(origin: int)
    requires
        0 <= origin < 90,
    ensures
        on_line(origin, 1, 0, 9 * (origin / 9), 1, 9),
        on_line(origin, 0, 1, origin % 9, 9, 10),
{
    let file = origin % 9;
    let rank = origin / 9;
    assert forall|c: int| on_ray(origin, 1, 0, c) || on_ray(origin, -1, 0, c) implies exists|
        j: int,
    | 0 <= j < 9 && c == #[trigger] (9 * rank + j * 1) by {
        let x = if on_ray(origin, 1, 0, c) {
            1int
        } else {
            -1int
        };
        let k = choose|k: int|
            1 <= k && #[trigger] ray_on_board(origin, x, 0, k) && c == ray_cell(origin, x, 0, k);
        assert(k * 0 == 0) by (nonlinear_arith);
        let j = file + k * x;
        assert(c == 9 * rank + j * 1);
    }
    assert forall|c: int| on_ray(origin, 0, 1, c) || on_ray(origin, 0, -1, c) implies exists|
        j: int,
    | 0 <= j < 10 && c == #[trigger] (file + j * 9) by {
        let y = if on_ray(origin, 0, 1, c) {
            1int
        } else {
            -1int
        };
        let k = choose|k: int|
            1 <= k && #[trigger] ray_on_board(origin, 0, y, k) && c == ray_cell(origin, 0, y, k);
        assert(k * 0 == 0) by (nonlinear_arith);
        let j = rank + k * y;
        assert(c == file + j * 9);
    }
}

/// Boards on which a line looks the same send a cannon on that line to the
/// same cells.
proof fn lemma_line_leaps_same(
    origin: int,
    df: int,
    dr: int,
    first: int,
    step: int,
    length: nat,
    a: Set<int>,
    b: Set<int>,
)
    requires
        0 <= origin < 90,
        on_line(origin, df, dr, first, step, length as int),
        line_word(a, first, step, length) == line_word(b, first, step, length),
    ensures
        line_leaps(origin, df, dr, a) == line_leaps(origin, df, dr, b),
{
    let keep = Set::new(|c: int| exists|j: int| 0 <= j < length && c == #[trigger] (first + j * step));
    lemma_line_word_tells(a, b, first, step, length);
    assert(a.intersect(keep) =~= b.intersect(keep)) by {
        assert forall|c: int| a.intersect(keep).contains(c) == b.intersect(keep).contains(c) by {
            if keep.contains(c) {
                let j = choose|j: int| 0 <= j < length && c == #[trigger] (first + j * step);
                assert(a.contains(first + j * step) == b.contains(first + j * step));
            }
        }
    }
    assert forall|t: int| line_leaps(origin, df, dr, a).contains(t) == line_leaps(
        origin,
        df,
        dr,
        b,
    ).contains(t) by {
        lemma_leap_relevant(origin, df, dr, a, keep, t);
        lemma_leap_relevant(origin, df, dr, b, keep, t);
        lemma_leap_relevant(origin, -df, -dr, a, keep, t);
        lemma_leap_relevant(origin, -df, -dr, b, keep, t);
    }
    assert(line_leaps(origin, df, dr, a) =~= line_leaps(origin, df, dr, b));
}

/// What the two tables of a cannon hold: for every square and every board,
/// the slot of the board in the table of rows holds the cells where a cannon
/// on that square lands along its row, and the slot of the board in the table
/// of columns those where it lands along its column. The tables have no other
/// slots.
pub open spec fn lines_filled(rows: Seq<BitBoard>, columns: Seq<BitBoard>) -> bool {
    &&& rows.len() == 90 * 512
    &&& columns.len() == 90 * 1024
    &&& forall|origin: int, board: BitBoard|
        0 <= origin < 90 ==> {
            let slot = #[trigger] row_slot(origin, board@);
            rows[slot].wf() && rows[slot]@ == line_leaps(origin, 1, 0, board@)
        }
    &&& forall|origin: int, board: BitBoard|
        0 <= origin < 90 ==> {
            let slot = #[trigger] column_slot(origin, board@);
            columns[slot].wf() && columns[slot]@ == line_leaps(origin, 0, 1, board@)
        }
}

/// How a cannon captures, looked up in two tables made beforehand: for each
/// square and each way its row can be occupied, where the cannon lands along
/// the row; and the same for its column.
pub struct CannonLines {
    rows: Vec<BitBoard>,
    columns: Vec<BitBoard>,
}

impl CannonLines {
    /// Both tables are filled: see `lines_filled`.
    #[verifier::type_invariant]
    spec fn filled(self) -> bool {
        lines_filled(self.rows@, self.columns@)
    }

    /// The table of rows: 512 slots for each square, one for each way in
    /// which the nine cells of its row can be occupied.
    pub closed spec fn rows(&self) -> Seq<BitBoard> {
        self.rows@
    }

    /// The table of columns: 1024 slots for each square, one for each way in
    /// which the ten cells of its column can be occupied.
    pub closed spec fn columns(&self) -> Seq<BitBoard> {
        self.columns@
    }

    /// Adds to `table` the part of `square`: for every way in which the line
    /// of `length` cells, from `first` on by `step`, can be occupied, where a
    /// cannon on `square` lands along that line.
    fn fill_line(
        table: &mut Vec<BitBoard>,
        square: Square,
        df: i8,
        dr: i8,
        first: usize,
        step: usize,
        length: usize,
    )
        requires
            (df == 1 && dr == 0) || (df == 0 && dr == 1),
            1 <= length <= 10,
            step >= 1,
            first + (length - 1) * step < 90,
            on_line(square@, df as int, dr as int, first as int, step as int, length as int),
            old(table).len() + pow2(length as nat) <= usize::MAX,
        ensures
            final(table).len() == old(table).len() + pow2(length as nat),
            forall|i: int| 0 <= i < old(table).len() ==> final(table)[i] == old(table)[i],
            forall|board: BitBoard|
                {
                    let slot = old(table).len() + #[trigger] line_word(
                        board@,
                        first as int,
                        step as int,
                        length as nat,
                    );
                    final(table)[slot].wf() && final(table)[slot]@ == line_leaps(
                        square@,
                        df as int,
                        dr as int,
                        board@,
                    )
                },
    {
        let ghost origin = square@;
        let ghost base = table.len();
        proof {
            use_type_invariant(&square);
            lemma2_to64();
        }
        let mut size: usize = 1;
        let mut n: usize = 0;
        while n < length
            invariant
                n <= length,
                length <= 10,
                size == pow2(n as nat),
            decreases length - n,
        {
            proof {
                lemma2_to64();
                lemma_pow2_unfold((n + 1) as nat);
            }
            size = size * 2;
            n = n + 1;
        }
        let mut word: usize = 0;
        while word < size
            invariant
                word <= size,
                0 <= origin < 90,
                origin == square@,
                (df == 1 && dr == 0) || (df == 0 && dr == 1),
                1 <= length <= 10,
                step >= 1,
                first + (length - 1) * step < 90,
                on_line(origin, df as int, dr as int, first as int, step as int, length as int),
                size == pow2(length as nat),
                base == old(table).len(),
                base + size <= usize::MAX,
                table.len() == base + word,
                forall|i: int| 0 <= i < base ==> table[i] == old(table)[i],
                forall|board: BitBoard|
                    {
                        let w = #[trigger] line_word(
                            board@,
                            first as int,
                            step as int,
                            length as nat,
                        );
                        w < word ==> table[base + w].wf() && table[base + w]@ == line_leaps(
                            origin,
                            df as int,
                            dr as int,
                            board@,
                        )
                    },
            decreases size - word,
        {
            let sample = line_board(word, first, step, length);
            let landing = leap(square, df, dr, sample) | leap(square, -df, -dr, sample);
            assert(landing@ =~= line_leaps(origin, df as int, dr as int, sample@));
            table.push(landing);
            proof {
                assert forall|board: BitBoard|
                    {
                        let w = #[trigger] line_word(
                            board@,
                            first as int,
                            step as int,
                            length as nat,
                        );
                        w < word + 1 ==> table[base + w].wf() && table[base + w]@ == line_leaps(
                            origin,
                            df as int,
                            dr as int,
                            board@,
                        )
                    } by {
                    let w = line_word(board@, first as int, step as int, length as nat);
                    if w == word {
                        lemma_line_leaps_same(
                            origin,
                            df as int,
                            dr as int,
                            first as int,
                            step as int,
                            length as nat,
                            board@,
                            sample@,
                        );
                    }
                }
            }
            word = word + 1;
        }
        proof {
            assert forall|board: BitBoard|
                {
                    let slot = base + #[trigger] line_word(
                        board@,
                        first as int,
                        step as int,
                        length as nat,
                    );
                    table[slot].wf() && table[slot]@ == line_leaps(
                        origin,
                        df as int,
                        dr as int,
                        board@,
                    )
                } by {
                lemma_line_word_bound(board@, first as int, step as int, length as nat);
            }
        }
    }

    /// The tables of the cannon, filled for every square by walking its rays
    /// on every way in which its row and its column can be occupied.
    pub fn new() -> (r: CannonLines)
        ensures
            lines_filled(r.rows(), r.columns()),
    {
        let mut rows: Vec<BitBoard> = Vec::new();
        let mut columns: Vec<BitBoard> = Vec::new();
        let mut n: usize = 0;
        proof {
            lemma2_to64();
        }
        while n < 90
            invariant
                n <= 90,
                pow2(9) == 512,
                pow2(10) == 1024,
                rows.len() == n * 512,
                columns.len() == n * 1024,
                forall|origin: int, board: BitBoard|
                    0 <= origin < n ==> {
                        let slot = #[trigger] row_slot(origin, board@);
                        rows[slot].wf() && rows[slot]@ == line_leaps(origin, 1, 0, board@)
                    },
                forall|origin: int, board: BitBoard|
                    0 <= origin < n ==> {
                        let slot = #[trigger] column_slot(origin, board@);
                        columns[slot].wf() && columns[slot]@ == line_leaps(origin, 0, 1, board@)
                    },
            decreases 90 - n,
        {
            let square = Square::index(n);
            let ghost old_rows = rows@;
            let ghost old_columns = columns@;
            proof {
                lemma_rays_on_lines(n as int);
            }
            CannonLines::fill_line(&mut rows, square, 1, 0, 9 * (n / 9), 1, 9);
            CannonLines::fill_line(&mut columns, square, 0, 1, n % 9, 9, 10);
            proof {
                assert forall|origin: int, board: BitBoard| 0 <= origin < n + 1 implies {
                    let slot = #[trigger] row_slot(origin, board@);
                    rows[slot].wf() && rows[slot]@ == line_leaps(origin, 1, 0, board@)
                } by {
                    lemma_line_word_bound(board@, 9 * (origin / 9), 1, 9);
                    if origin < n {
                        let slot = row_slot(origin, board@);
                        assert(slot < n * 512) by (nonlinear_arith)
                            requires
                                slot < origin * 512 + 512,
                                origin < n,
                        ;
                        assert(rows[slot] == old_rows[slot]);
                    } else {
                        assert(row_slot(origin, board@) == old_rows.len() + line_word(
                            board@,
                            (9 * (n / 9)) as int,
                            1,
                            9,
                        ));
                    }
                }
                assert forall|origin: int, board: BitBoard| 0 <= origin < n + 1 implies {
                    let slot = #[trigger] column_slot(origin, board@);
                    columns[slot].wf() && columns[slot]@ == line_leaps(origin, 0, 1, board@)
                } by {
                    lemma_line_word_bound(board@, origin % 9, 9, 10);
                    if origin < n {
                        let slot = column_slot(origin, board@);
                        assert(slot < n * 1024) by (nonlinear_arith)
                            requires
                                slot < origin * 1024 + 1024,
                                origin < n,
                        ;
                        assert(columns[slot] == old_columns[slot]);
                    } else {
                        assert(column_slot(origin, board@) == old_columns.len() + line_word(
                            board@,
                            (n % 9) as int,
                            9,
                            10,
                        ));
                    }
                }
            }
            n = n + 1;
        }
        CannonLines { rows, columns }
    }
}

impl ChessMove for CannonLines {
    open spec fn destinations(&self, origin: int, occupied: Set<int>) -> Set<int> {
        cannon_targets(origin, occupied)
    }

    open spec fn relevant(&self, origin: int) -> Set<int> {
        cannon_rays(origin)
    }

    /// The cannon moves from every cell.
    open spec fn origins(&self) -> Seq<int> {
        Seq::new(90, |i: int| i)
    }

    fn moves(&self, square: Square, blockers: BitBoard) -> (r: BitBoard) {
        proof {
            use_type_invariant(self);
            use_type_invariant(&square);
            lemma2_to64();
        }
        let index = square.to_index();
        let row = line_index(blockers, 9 * (index / 9), 1, 9);
        let column = line_index(blockers, index % 9, 9, 10);
        assert(index * 512 + row == row_slot(square@, blockers@));
        assert(index * 1024 + column == column_slot(square@, blockers@));
        let r = self.rows[index * 512 + row] | self.columns[index * 1024 + column];
        proof {
            let origin = square@;
            let occupied = blockers@;
            assert forall|t: int| r@.contains(t) == cannon_targets(origin, occupied).contains(
                t,
            ) by {
                assert(SLIDER_ONE_STEP[0] == (1i8, 0i8));
                assert(SLIDER_ONE_STEP[1] == (0i8, 1i8));
                assert(SLIDER_ONE_STEP[2] == (-1i8, 0i8));
                assert(SLIDER_ONE_STEP[3] == (0i8, -1i8));
                if leaps_to(origin, 1, 0, occupied, t) {
                    assert(leaps_to(
                        origin,
                        SLIDER_ONE_STEP[0].0 as int,
                        SLIDER_ONE_STEP[0].1 as int,
                        occupied,
                        t,
                    ));
                }
                if leaps_to(origin, 0, 1, occupied, t) {
                    assert(leaps_to(
                        origin,
                        SLIDER_ONE_STEP[1].0 as int,
                        SLIDER_ONE_STEP[1].1 as int,
                        occupied,
                        t,
                    ));
                }
                if leaps_to(origin, -1, 0, occupied, t) {
                    assert(leaps_to(
                        origin,
                        SLIDER_ONE_STEP[2].0 as int,
                        SLIDER_ONE_STEP[2].1 as int,
                        occupied,
                        t,
                    ));
                }
                if leaps_to(origin, 0, -1, occupied, t) {
                    assert(leaps_to(
                        origin,
                        SLIDER_ONE_STEP[3].0 as int,
                        SLIDER_ONE_STEP[3].1 as int,
                        occupied,
                        t,
                    ));
                }
            }
            assert(r@ =~= cannon_targets(origin, occupied));
        }
        r
    }

    fn relevant_blockers(&self, square: Square) -> (r: BitBoard) {
        CannonAttack::new().relevant_blockers(square)
    }

    fn start_range(&self) -> (r: Vec<Square>) {
        let r = Square::all();
        assert(numbers(r@) =~= self.origins());
        r
    }

    proof fn lemma_relevant(&self, origin: int, occupied: Set<int>) {
        lemma_cannon_relevant(origin, occupied);
    }
}

} // verus!
