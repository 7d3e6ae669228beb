//! The rules of the pieces as a trait, and the search for a hash of the
//! boards that matter to a piece on a square.

use crate::bitboard::{board_of, lemma_board_of, lemma_same_squares, BitBoard};
use crate::bits::{lemma_bit_ops, popcount};
use crate::rng::{lemma_state_after_add, output_u128, state_after, Rng};
use crate::square::{numbers, Square};
use crate::subsets::{is_subset, next_subset};
use vstd::arithmetic::power2::{lemma2_to64, lemma_pow2_adds, lemma_pow2_pos, pow2};
use vstd::prelude::*;

verus! {

/// A rule by which a piece moves: where it can go from a square, which
/// squares can stand in its way, and from which squares it moves at all.
pub trait ChessMove {
    /// The cells that the piece can go to from `origin` while the cells of
    /// `occupied` are taken.
    spec fn destinations(&self, origin: int, occupied: Set<int>) -> Set<int>;

    /// The cells around `origin` that the rule looks at.
    spec fn relevant(&self, origin: int) -> Set<int>;

    /// The cells that the piece moves from.
    spec fn origins(&self) -> Seq<int>;

    /// The squares that the piece can go to from `square` while `blockers`
    /// are taken.
    fn moves(&self, square: Square, blockers: BitBoard) -> (r: BitBoard)
        ensures
            r.wf(),
            r@ == self.destinations(square@, blockers@),
    ;

    /// The squares around `square` that the rule looks at.
    fn relevant_blockers(&self, square: Square) -> (r: BitBoard)
        ensures
            r.wf(),
            r@ == self.relevant(square@),
    ;

    /// The squares that the piece moves from.
    fn start_range(&self) -> (r: Vec<Square>)
        ensures
            numbers(r@) == self.origins(),
    ;

    /// Only the cells that the rule looks at bear on where the piece can go:
    /// what stands elsewhere may be taken off the board.
    proof fn lemma_relevant(&self, origin: int, occupied: Set<int>)
        requires
            0 <= origin < 90,
        ensures
            self.destinations(origin, occupied) == self.destinations(
                origin,
                occupied.intersect(self.relevant(origin)),
            ),
    ;
}

/// A hash for the subsets of `mask`: a subset is multiplied by `magic`, and
/// the top bits of the product, all but the lowest `shift`, are its slot.
#[derive(Clone, Copy, Debug)]
pub struct MagicEntry {
    pub mask: BitBoard,
    pub magic: u128,
    pub shift: u8,
}

impl MagicEntry {
    /// The slot has as many bits as the mask has squares.
    pub open spec fn wf(self) -> bool {
        popcount(self.mask.0 as nat) + self.shift == 128
    }

    /// How many bits a slot has.
    pub open spec fn index_bits(self) -> nat {
        (128 - self.shift) as nat
    }
}

/// What the search for one square has found: the multiplier, the shift, and
/// the length of the table.
#[derive(Clone, Copy, Debug)]
pub struct MagicEntryGen {
    pub square: Square,
    pub magic: u128,
    pub shift: u8,
    pub size: usize,
}

/// Two subsets of the mask with different destinations share a slot.
#[derive(Clone, Copy, Debug)]
pub struct TableFillError;

/// The slot of `blockers` under `entry`, before it is cut down to the
/// machine's word: what of `blockers` lies in the mask, times the magic
/// number, without the lowest `shift` bits of the product.
pub open spec fn magic_slot(entry: MagicEntry, blockers: BitBoard) -> u128 {
    let hash = (blockers.0 & entry.mask.0).wrapping_mul(entry.magic);
    if entry.shift >= 128 {
        0
    } else {
        hash >> entry.shift
    }
}

/// A slot has no more than `index_bits` bits.
pub proof fn lemma_slot_bound(entry: MagicEntry, blockers: BitBoard)
    requires
        entry.shift <= 128,
    ensures
        magic_slot(entry, blockers) < pow2(entry.index_bits()),
{
    let hash = (blockers.0 & entry.mask.0).wrapping_mul(entry.magic);
    let shift = entry.shift as nat;
    let bits = entry.index_bits();
    lemma_pow2_pos(bits);
    if entry.shift < 128 {
        vstd::bits::lemma_u128_shr_is_div(hash, entry.shift as u128);
        lemma_pow2_adds(shift, bits);
        lemma_pow2_adds(64, 64);
        lemma2_to64();
        lemma_pow2_pos(shift);
        let low = pow2(shift) as int;
        let high = pow2(bits) as int;
        assert(hash as int / low < high) by (nonlinear_arith)
            requires
                0 <= hash < low * high,
                low > 0,
        ;
    }
}

/// The place of `blockers` in the table of `entry`.
pub fn magic_index(entry: &MagicEntry, blockers: BitBoard) -> (index: usize)
    ensures
        index == #[verifier::truncate] (magic_slot(*entry, blockers) as usize),
        entry.shift <= 128 && entry.index_bits() < usize::BITS ==> index == magic_slot(
            *entry,
            blockers,
        ) && index < pow2(entry.index_bits()),
{
    let masked = blockers & entry.mask;
    let hash = masked.0.wrapping_mul(entry.magic);
    proof {
        if entry.shift <= 128 && entry.index_bits() < usize::BITS {
            lemma_slot_bound(*entry, blockers);
            vstd::bits::lemma_usize_pow2_no_overflow(entry.index_bits());
        }
    }
    if entry.shift >= 128 {
        0
    } else {
        #[verifier::truncate]
        ((hash >> entry.shift) as usize)
    }
}

/// The slot of `part` lies in `table` and holds the destinations from
/// `origin` while the squares of `part` are taken.
pub open spec fn fills<R: ChessMove>(
    rule: R,
    origin: int,
    entry: MagicEntry,
    table: Seq<BitBoard>,
    part: BitBoard,
) -> bool {
    let slot = magic_slot(entry, part) as int;
    slot < table.len() && table[slot].wf() && table[slot]@ == rule.destinations(origin, part@)
}

/// Looking up any subset of the mask in `table` gives the destinations that
/// the rule gives for that subset.
pub open spec fn serves<R: ChessMove>(
    rule: R,
    origin: int,
    entry: MagicEntry,
    table: Seq<BitBoard>,
) -> bool {
    forall|part: BitBoard| #[trigger]
        is_subset(part, entry.mask) ==> fills(rule, origin, entry, table, part)
}

/// Every slot of `table` that no subset of the mask is looked up in holds the
/// empty board.
pub open spec fn spare_slots_empty(entry: MagicEntry, table: Seq<BitBoard>) -> bool {
    forall|i: int|
        0 <= i < table.len() && (forall|part: BitBoard| #[trigger]
            is_subset(part, entry.mask) ==> magic_slot(entry, part) != i) ==> #[trigger] table[i]
            == BitBoard(0)
}

/// Two subsets of the mask share a slot though the rule sends the piece to
/// different squares for them.
pub open spec fn collide<R: ChessMove>(
    rule: R,
    origin: int,
    entry: MagicEntry,
    a: BitBoard,
    b: BitBoard,
) -> bool {
    &&& is_subset(a, entry.mask)
    &&& is_subset(b, entry.mask)
    &&& magic_slot(entry, a) == magic_slot(entry, b)
    &&& rule.destinations(origin, a@) != rule.destinations(origin, b@)
}

/// No two subsets of the mask collide: the hash can be used for a table.
pub open spec fn is_perfect<R: ChessMove>(rule: R, origin: int, entry: MagicEntry) -> bool {
    forall|a: BitBoard, b: BitBoard| !#[trigger] collide(rule, origin, entry, a, b)
}

/// A table that serves the subsets of the mask serves every board: whatever
/// stands on the board, looking it up gives the destinations of the piece.
pub proof fn lemma_serves_every_board<R: ChessMove>(
    rule: R,
    origin: int,
    entry: MagicEntry,
    table: Seq<BitBoard>,
    blockers: BitBoard,
)
    requires
        0 <= origin < 90,
        entry.mask@ == rule.relevant(origin),
        serves(rule, origin, entry, table),
    ensures
        fills(rule, origin, entry, table, blockers),
{
    let b = blockers.0;
    let m = entry.mask.0;
    let part = BitBoard(b & m);
    assert((b & m) & m == b & m) by (bit_vector);
    assert(is_subset(part, entry.mask));
    assert(magic_slot(entry, part) == magic_slot(entry, blockers));
    assert forall|i: int| part@.contains(i) == blockers@.intersect(entry.mask@).contains(i) by {
        if 0 <= i < 90 {
            lemma_bit_ops(b, m, i);
        }
    }
    assert(part@ =~= blockers@.intersect(entry.mask@));
    rule.lemma_relevant(origin, blockers@);
    assert(fills(rule, origin, entry, table, part));
}

/// Looks up where the piece `rule` can go from `square` while `blockers` are
/// taken, in a table that serves it: the answer is the one that the rule
/// gives, whatever stands on the board.
pub fn lookup<R: ChessMove>(
    rule: &R,
    square: Square,
    entry: &MagicEntry,
    table: &Vec<BitBoard>,
    blockers: BitBoard,
) -> (r: BitBoard)
    requires
        entry.mask@ == rule.relevant(square@),
        serves(*rule, square@, *entry, table@),
    ensures
        r.wf(),
        r@ == rule.destinations(square@, blockers@),
        r == table[magic_slot(*entry, blockers) as int],
{
    proof {
        use_type_invariant(&square);
        lemma_serves_every_board(*rule, square@, *entry, table@, blockers);
        assert(fills(*rule, square@, *entry, table@, blockers));
    }
    let index = magic_index(entry, blockers);
    assert(magic_slot(*entry, blockers) < table.len());
    assert(index == magic_slot(*entry, blockers));
    table[index]
}

/// Fills the table of `magic_entry` for the piece `slider` on `square`, going
/// through every subset of the mask. Fails where two subsets with different
/// destinations meet in one slot.
pub fn try_make_table<R: ChessMove>(slider: &R, square: Square, magic_entry: &MagicEntry) -> (r:
    Result<Vec<BitBoard>, TableFillError>)
    requires
        magic_entry.wf(),
        magic_entry.index_bits() < usize::BITS,
    ensures
        r is Ok <==> is_perfect(*slider, square@, *magic_entry),
        r matches Ok(table) ==> {
            &&& table.len() == pow2(magic_entry.index_bits())
            &&& serves(*slider, square@, *magic_entry, table@)
            &&& spare_slots_empty(*magic_entry, table@)
        },
{
    let ghost origin = square@;
    let ghost entry = *magic_entry;
    let mask = magic_entry.mask;
    let index_bits: u8 = 128 - magic_entry.shift;
    proof {
        vstd::bits::lemma_usize_pow2_no_overflow(index_bits as nat);
        vstd::bits::lemma_usize_shl_is_mul(1, index_bits as usize);
    }
    let size: usize = 1usize << (index_bits as usize);
    let mut table: Vec<BitBoard> = Vec::new();
    let mut filled: Vec<bool> = Vec::new();
    while table.len() < size
        invariant
            table.len() == filled.len(),
            table.len() <= size,
            forall|i: int| 0 <= i < table.len() ==> table[i] == BitBoard(0) && !filled[i],
        decreases size - table.len(),
    {
        table.push(BitBoard::empty());
        filled.push(false);
    }
    let mut blockers = BitBoard::empty();
    proof {
        let zero = mask.0;
        assert(0u128 & zero == 0u128) by (bit_vector);
    }
    loop
        invariant_except_break
            is_subset(blockers, mask),
            blockers.0 <= mask.0,
            forall|part: BitBoard| #[trigger]
                is_subset(part, mask) && part.0 < blockers.0 ==> fills(
                    *slider,
                    origin,
                    entry,
                    table@,
                    part,
                ) && filled[magic_slot(entry, part) as int],
            forall|i: int|
                0 <= i < size && #[trigger] filled[i] ==> exists|part: BitBoard| #[trigger]
                    is_subset(part, mask) && part.0 < blockers.0 && magic_slot(entry, part) == i,
        invariant
            origin == square@,
            entry == *magic_entry,
            mask == entry.mask,
            entry.wf(),
            entry.index_bits() < usize::BITS,
            size == pow2(entry.index_bits()),
            table.len() == size,
            filled.len() == size,
            forall|i: int| 0 <= i < size && !filled[i] ==> table[i] == BitBoard(0),
        ensures
            serves(*slider, origin, entry, table@),
            forall|i: int|
                0 <= i < size && #[trigger] filled[i] ==> exists|part: BitBoard| #[trigger]
                    is_subset(part, mask) && magic_slot(entry, part) == i,
        decreases mask.0 - blockers.0,
    {
        let ghost old_table = table@;
        let ghost old_filled = filled@;
        let moves = slider.moves(square, blockers);
        let index = magic_index(magic_entry, blockers);
        if !filled[index] {
            table.set(index, moves);
            filled.set(index, true);
        } else if table[index] != moves {
            proof {
                let part = choose|part: BitBoard| #[trigger]
                    is_subset(part, mask) && part.0 < blockers.0 && magic_slot(entry, part)
                        == index;
                assert(fills(*slider, origin, entry, table@, part));
                if slider.destinations(origin, part@) == slider.destinations(origin, blockers@) {
                    lemma_same_squares(table[index as int], moves);
                }
                assert(collide(*slider, origin, entry, part, blockers));
            }
            return Err(TableFillError);
        }
        let next = next_subset(mask, blockers);
        proof {
            assert(fills(*slider, origin, entry, table@, blockers));
            assert forall|part: BitBoard| #[trigger]
                is_subset(part, mask) && (next.0 == 0 || part.0 < next.0) implies fills(
                *slider,
                origin,
                entry,
                table@,
                part,
            ) && filled[magic_slot(entry, part) as int] by {
                if part.0 < blockers.0 {
                    assert(fills(*slider, origin, entry, old_table, part));
                    assert(old_filled[magic_slot(entry, part) as int]);
                } else {
                    assert(part.0 == blockers.0);
                }
            }
            assert forall|i: int| 0 <= i < size && #[trigger] filled[i] implies exists|
                part: BitBoard,
            | #[trigger]
                is_subset(part, mask) && (next.0 == 0 || part.0 < next.0) && magic_slot(
                    entry,
                    part,
                ) == i by {
                if old_filled[i] {
                    let part = choose|part: BitBoard| #[trigger]
                        is_subset(part, mask) && part.0 < blockers.0 && magic_slot(entry, part)
                            == i;
                    assert(is_subset(part, mask) && (next.0 == 0 || part.0 < next.0)
                        && magic_slot(entry, part) == i);
                } else {
                    assert(is_subset(blockers, mask) && (next.0 == 0 || blockers.0 < next.0)
                        && magic_slot(entry, blockers) == i);
                }
            }
        }
        if next.is_empty() {
            break ;
        }
        blockers = next;
    }
    proof {
        assert forall|a: BitBoard, b: BitBoard| !#[trigger] collide(
            *slider,
            origin,
            entry,
            a,
            b,
        ) by {
            if is_subset(a, mask) && is_subset(b, mask) {
                assert(fills(*slider, origin, entry, table@, a));
                assert(fills(*slider, origin, entry, table@, b));
            }
        }
        assert forall|i: int|
            0 <= i < table.len() && (forall|part: BitBoard| #[trigger]
                is_subset(part, entry.mask) ==> magic_slot(entry, part) != i) implies #[trigger] table[i]
            == BitBoard(0) by {
            if filled[i] {
                let part = choose|part: BitBoard| #[trigger]
                    is_subset(part, mask) && magic_slot(entry, part) == i;
                assert(is_subset(part, entry.mask));
            }
        }
    }
    Ok(table)
}

/// The multiplier that is tried when the generator is in `state`: three
/// draws of 128 bits, of which only the bits set in all three are kept.
pub open spec fn candidate(state: u128) -> u128 {
    output_u128(state) & output_u128(state_after(state, 2)) & output_u128(state_after(state, 4))
}

/// Draws the next multiplier to try. Few of its bits are set, which makes a
/// hash without collisions more likely.
pub fn draw_candidate(rng: &mut Rng) -> (magic: u128)
    ensures
        magic == candidate(old(rng)@),
        final(rng)@ == state_after(old(rng)@, 6),
{
    let first = rng.next_u128();
    let second = rng.next_u128();
    let third = rng.next_u128();
    proof {
        lemma_state_after_add(old(rng)@, 2, 2);
        lemma_state_after_add(old(rng)@, 4, 2);
    }
    first & second & third
}

/// The hash with the multiplier `magic` for the piece `rule` on `origin`: its
/// mask holds the cells that the rule looks at, and its slots have as many
/// bits as the mask has cells.
pub open spec fn entry_for<R: ChessMove>(rule: R, origin: int, magic: u128) -> MagicEntry {
    MagicEntry {
        mask: board_of(rule.relevant(origin)),
        magic,
        shift: (128 - rule.relevant(origin).len()) as u8,
    }
}

/// What a search of at most `tries` multipliers finds when the generator
/// starts in `state`: the first multiplier whose hash is perfect, with the
/// state in which it leaves the generator, or nothing.
pub open spec fn search<R: ChessMove>(rule: R, origin: int, state: u128, tries: nat) -> Option<
    (u128, u128),
>
    decreases tries,
{
    if tries == 0 {
        None
    } else if is_perfect(rule, origin, entry_for(rule, origin, candidate(state))) {
        Some((candidate(state), state_after(state, 6)))
    } else {
        search(rule, origin, state_after(state, 6), (tries - 1) as nat)
    }
}

/// A search that finds nothing has drawn every multiplier it was allowed.
pub proof fn lemma_search_fails<R: ChessMove>(rule: R, origin: int, state: u128, tries: nat)
    requires
        search(rule, origin, state, tries) is None,
    ensures
        forall|n: nat|
            n < tries ==> !is_perfect(
                rule,
                origin,
                entry_for(rule, origin, candidate(#[trigger] state_after(state, 6 * n))),
            ),
    decreases tries,
{
    if tries > 0 {
        let next = state_after(state, 6);
        lemma_search_fails(rule, origin, next, (tries - 1) as nat);
        assert forall|n: nat| n < tries implies !is_perfect(
            rule,
            origin,
            entry_for(rule, origin, candidate(#[trigger] state_after(state, 6 * n))),
        ) by {
            if n > 0 {
                lemma_state_after_add(state, 6, (6 * (n - 1)) as nat);
                assert(state_after(next, (6 * (n - 1)) as nat) == state_after(state, 6 * n));
            }
        }
    }
}

/// Tries one multiplier for the piece `slider` on `square`: where its hash is
/// perfect, gives what was found and the filled table of `2^index_bits`
/// slots.
pub fn try_candidate<R: ChessMove>(slider: &R, square: Square, index_bits: u8, magic: u128) -> (r:
    Option<(MagicEntryGen, Vec<BitBoard>)>)
    requires
        index_bits == slider.relevant(square@).len(),
        index_bits < usize::BITS,
    ensures
        r is Some <==> is_perfect(*slider, square@, entry_for(*slider, square@, magic)),
        r matches Some((found, table)) ==> {
            &&& found.square == square
            &&& found.magic == magic
            &&& found.shift == 128 - index_bits
            &&& found.size == table.len()
            &&& table.len() == pow2(index_bits as nat)
            &&& serves(*slider, square@, entry_for(*slider, square@, magic), table@)
            &&& spare_slots_empty(entry_for(*slider, square@, magic), table@)
        },
{
    let mask = slider.relevant_blockers(square);
    proof {
        lemma_board_of(mask);
        mask.lemma_count();
    }
    let shift: u8 = 128 - index_bits;
    let magic_entry = MagicEntry { mask, magic, shift };
    assert(magic_entry == entry_for(*slider, square@, magic));
    match try_make_table(slider, square, &magic_entry) {
        Ok(table) => {
            let found = MagicEntryGen { square, magic, shift, size: table.len() };
            Some((found, table))
        },
        Err(_) => None,
    }
}

/// Looks for a multiplier that hashes the subsets of the relevant blockers of
/// `square` into a table of `2^index_bits` slots without collision, and
/// fills that table. It tries the multipliers that `rng` gives, one after the
/// other, and gives up after `tries` of them.
pub fn find_magic<R: ChessMove>(
    slider: &R,
    square: Square,
    index_bits: u8,
    rng: &mut Rng,
    tries: usize,
) -> (r: Option<(MagicEntryGen, Vec<BitBoard>)>)
    requires
        index_bits == slider.relevant(square@).len(),
        index_bits < usize::BITS,
    ensures
        match search(*slider, square@, old(rng)@, tries as nat) {
            Some((magic, state)) => {
                &&& final(rng)@ == state
                &&& r matches Some((found, table))
                &&& found.square == square
                &&& found.magic == magic
                &&& found.shift == 128 - index_bits
                &&& found.size == table.len()
                &&& table.len() == pow2(index_bits as nat)
                &&& serves(*slider, square@, entry_for(*slider, square@, magic), table@)
                &&& spare_slots_empty(entry_for(*slider, square@, magic), table@)
            },
            None => r is None && final(rng)@ == state_after(old(rng)@, 6 * (tries as nat)),
        },
{
    let mut left: usize = tries;
    while left > 0
        invariant
            index_bits == slider.relevant(square@).len(),
            index_bits < usize::BITS,
            left <= tries,
            search(*slider, square@, old(rng)@, tries as nat) == search(
                *slider,
                square@,
                rng@,
                left as nat,
            ),
            rng@ == state_after(old(rng)@, 6 * ((tries - left) as nat)),
        decreases left,
    {
        let magic = draw_candidate(rng);
        proof {
            lemma_state_after_add(old(rng)@, 6 * ((tries - left) as nat), 6);
        }
        let found = try_candidate(slider, square, index_bits, magic);
        if found.is_some() {
            return found;
        }
        left = left - 1;
    }
    None
}

} // verus!
