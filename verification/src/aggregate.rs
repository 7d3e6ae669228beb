//! One table for all squares of a piece.

use crate::bitboard::BitBoard;
use crate::generate::{
    entry_for, find_magic, search, serves, spare_slots_empty, ChessMove, MagicEntryGen,
};
use crate::rng::{state_after, Rng};
use crate::square::{numbers, Square};
use vstd::arithmetic::power2::pow2;
use vstd::prelude::*;
use vstd::set_lib::{lemma_int_range, set_int_range};

verus! {

/// The hash of one square and the place of its table within the table of all
/// squares: the table of the square begins at `offset` and has `size` slots.
#[derive(Clone, Copy, Debug)]
pub struct MagicSegment {
    pub square: Square,
    pub magic: u128,
    pub shift: u8,
    pub offset: usize,
    pub size: usize,
}

/// The hashes of all squares of a piece, in ascending order of the squares,
/// and their tables, one after the other in the same order.
#[derive(Debug)]
pub struct MagicTable {
    pub entries: Vec<MagicSegment>,
    pub table: Vec<BitBoard>,
}

/// `order` lists the places `0..keys.len()`, each once, by ascending key, and
/// places with the same key by ascending place.
pub open spec fn sorts(order: Seq<int>, keys: Seq<int>) -> bool {
    &&& order.len() == keys.len()
    &&& forall|i: int| 0 <= i < order.len() ==> 0 <= #[trigger] order[i] < keys.len()
    &&& forall|i: int, j: int|
        0 <= i < j < order.len() ==> keys[order[i]] < keys[order[j]] || (keys[order[i]]
            == keys[order[j]] && order[i] < order[j])
    &&& forall|place: int| 0 <= place < keys.len() ==> #[trigger] order.contains(place)
}

/// An order that sorts `keys` takes every place exactly once: nothing is
/// left out and nothing comes twice. Where no key occurs twice, the keys come
/// in strictly ascending order.
pub proof fn lemma_sorts_each_once(order: Seq<int>, keys: Seq<int>)
    requires
        sorts(order, keys),
    ensures
        order.len() == keys.len(),
        order.no_duplicates(),
        order.to_set() == set_int_range(0, keys.len() as int),
        keys.no_duplicates() ==> forall|i: int, j: int|
            0 <= i < j < order.len() ==> keys[order[i]] < keys[order[j]],
{
    assert forall|p: int| order.to_set().contains(p) == set_int_range(
        0,
        keys.len() as int,
    ).contains(p) by {
        if 0 <= p < keys.len() {
            assert(order.contains(p));
        }
        if order.contains(p) {
            let i = choose|i: int| 0 <= i < order.len() && order[i] == p;
        }
    }
    assert(order.to_set() =~= set_int_range(0, keys.len() as int));
}

/// The squares of the given results, as numbers.
pub open spec fn squares_of(results: Seq<(MagicEntryGen, Vec<BitBoard>)>) -> Seq<int> {
    results.map_values(|result: (MagicEntryGen, Vec<BitBoard>)| result.0.square@)
}

/// `segment` stands for `result`: the same square, multiplier and shift, and
/// in `table`, from the segment's offset on, the slots of the result's table.
pub open spec fn holds(
    segment: MagicSegment,
    table: Seq<BitBoard>,
    result: (MagicEntryGen, Vec<BitBoard>),
) -> bool {
    &&& segment.square == result.0.square
    &&& segment.magic == result.0.magic
    &&& segment.shift == result.0.shift
    &&& segment.size == result.1.len()
    &&& segment.offset + segment.size <= table.len()
    &&& table.subrange(segment.offset as int, segment.offset + segment.size) == result.1@
}

/// The segments lie in `table` one after the other, without gaps, from the
/// first slot to the last.
pub open spec fn contiguous(entries: Seq<MagicSegment>, table: Seq<BitBoard>) -> bool {
    &&& entries.len() == 0 ==> table.len() == 0
    &&& entries.len() > 0 ==> entries[0].offset == 0 && entries.last().offset
        + entries.last().size == table.len()
    &&& forall|i: int|
        0 <= i < entries.len() - 1 ==> (#[trigger] entries[i]).offset + entries[i].size
            == entries[i + 1].offset
}

/// How often `key` occurs in `keys`.
pub open spec fn occurrences(keys: Seq<int>, key: int) -> nat
    decreases keys.len(),
{
    if keys.len() == 0 {
        0
    } else {
        occurrences(keys.drop_last(), key) + if keys.last() == key {
            1nat
        } else {
            0nat
        }
    }
}

/// A key occurs in a sequence no more often than the sequence is long, and
/// not at all where every entry differs from it.
proof fn lemma_occurrences_bound(keys: Seq<int>, key: int)
    ensures
        occurrences(keys, key) <= keys.len(),
        (forall|i: int| 0 <= i < keys.len() ==> keys[i] != key) ==> occurrences(keys, key) == 0,
    decreases keys.len(),
{
    if keys.len() > 0 {
        lemma_occurrences_bound(keys.drop_last(), key);
    }
}

/// For each square of the board, how often it occurs among `squares`.
fn tally(squares: &Vec<Square>) -> (r: [usize; 90])
    ensures
        forall|key: int| 0 <= key < 90 ==> r[key] == occurrences(numbers(squares@), key),
        forall|key: int| !(0 <= key < 90) ==> occurrences(numbers(squares@), key) == 0,
{
    let ghost keys = numbers(squares@);
    let mut counts = [0usize;90];
    let mut n: usize = 0;
    assert(keys.take(0) =~= Seq::<int>::empty());
    while n < squares.len()
        invariant
            n <= squares.len(),
            keys == numbers(squares@),
            forall|key: int|
                0 <= key < 90 ==> counts[key] == occurrences(keys.take(n as int), key),
            forall|i: int| 0 <= i < n ==> 0 <= #[trigger] keys[i] < 90,
        decreases squares.len() - n,
    {
        let index = squares[n].to_index();
        proof {
            assert(keys.take(n + 1).drop_last() =~= keys.take(n as int));
            assert(keys.take(n + 1).last() == index);
            lemma_occurrences_bound(keys.take(n as int), index as int);
        }
        counts[index] = counts[index] + 1;
        n = n + 1;
    }
    proof {
        assert(keys.take(n as int) =~= keys);
        assert forall|key: int| !(0 <= key < 90) implies occurrences(keys, key) == 0 by {
            lemma_occurrences_bound(keys, key);
        }
    }
    counts
}

/// Whether the results are those of the searches for `squares`: one result
/// for each time that a square is asked for, and none besides. This is what
/// holds when every search has handed in its result exactly once, in
/// whatever order.
pub fn one_result_each(results: &Vec<(MagicEntryGen, Vec<BitBoard>)>, squares: &Vec<Square>) -> (r:
    bool)
    ensures
        r == forall|key: int|
            occurrences(squares_of(results@), key) == occurrences(numbers(squares@), key),
{
    let mut found: Vec<Square> = Vec::new();
    let mut n: usize = 0;
    while n < results.len()
        invariant
            n <= results.len(),
            found.len() == n,
            forall|i: int| 0 <= i < n ==> #[trigger] found[i] == results[i].0.square,
        decreases results.len() - n,
    {
        found.push(results[n].0.square);
        n = n + 1;
    }
    assert(numbers(found@) =~= squares_of(results@));
    let have = tally(&found);
    let want = tally(squares);
    let ghost got = squares_of(results@);
    let ghost asked = numbers(squares@);
    let mut key: usize = 0;
    while key < 90
        invariant
            key <= 90,
            got == squares_of(results@),
            asked == numbers(squares@),
            forall|k: int| 0 <= k < 90 ==> have[k] == occurrences(got, k),
            forall|k: int| 0 <= k < 90 ==> want[k] == occurrences(asked, k),
            forall|k: int| !(0 <= k < 90) ==> occurrences(got, k) == 0,
            forall|k: int| !(0 <= k < 90) ==> occurrences(asked, k) == 0,
            forall|k: int| 0 <= k < key ==> occurrences(got, k) == occurrences(asked, k),
        decreases 90 - key,
    {
        if have[key] != want[key] {
            assert(occurrences(got, key as int) != occurrences(asked, key as int));
            return false;
        }
        key = key + 1;
    }
    true
}

/// Puts the results of the searches for the squares of one piece, which come
/// in any order, into one table: the hashes by ascending square, and the
/// tables one after the other in that order.
pub fn aggregate(results: &Vec<(MagicEntryGen, Vec<BitBoard>)>) -> (r: MagicTable)
    ensures
        r.entries.len() == results.len(),
        contiguous(r.entries@, r.table@),
        exists|order: Seq<int>| #[trigger]
            sorts(order, squares_of(results@)) && forall|i: int|
                0 <= i < order.len() ==> holds(#[trigger] r.entries[i], r.table@, results[order[i]]),
{
    let ghost keys = squares_of(results@);
    let ghost mut order: Seq<int> = Seq::empty();
    let mut entries: Vec<MagicSegment> = Vec::new();
    let mut table: Vec<BitBoard> = Vec::new();
    let mut key: usize = 0;
    while key < 90
        invariant
            key <= 90,
            keys == squares_of(results@),
            order.len() == entries.len(),
            contiguous(entries@, table@),
            forall|i: int| 0 <= i < order.len() ==> 0 <= #[trigger] order[i] < keys.len(),
            forall|i: int| 0 <= i < order.len() ==> keys[#[trigger] order[i]] < key,
            forall|i: int, j: int|
                0 <= i < j < order.len() ==> keys[order[i]] < keys[order[j]] || (keys[order[i]]
                    == keys[order[j]] && order[i] < order[j]),
            forall|place: int|
                0 <= place < keys.len() && 0 <= keys[place] < key ==> #[trigger] order.contains(
                    place,
                ),
            forall|i: int|
                0 <= i < order.len() ==> holds(#[trigger] entries[i], table@, results[order[i]]),
            key > 0 ==> forall|p: int| 0 <= p < keys.len() ==> 0 <= #[trigger] keys[p] < 90,
        decreases 90 - key,
    {
        let mut place: usize = 0;
        while place < results.len()
            invariant
                key < 90,
                place <= results.len(),
                keys == squares_of(results@),
                order.len() == entries.len(),
                contiguous(entries@, table@),
                forall|i: int| 0 <= i < order.len() ==> 0 <= #[trigger] order[i] < keys.len(),
                forall|i: int|
                    0 <= i < order.len() ==> keys[#[trigger] order[i]] < key || (keys[order[i]]
                        == key && order[i] < place),
                forall|i: int, j: int|
                    0 <= i < j < order.len() ==> keys[order[i]] < keys[order[j]] || (
                    keys[order[i]] == keys[order[j]] && order[i] < order[j]),
                forall|p: int|
                    0 <= p < keys.len() && (0 <= keys[p] < key || (keys[p] == key && p < place))
                        ==> #[trigger] order.contains(p),
                forall|i: int|
                    0 <= i < order.len() ==> holds(
                        #[trigger] entries[i],
                        table@,
                        results[order[i]],
                    ),
                forall|p: int| 0 <= p < place ==> 0 <= #[trigger] keys[p] < 90,
            decreases results.len() - place,
        {
            let found = &results[place].0;
            let slots = &results[place].1;
            if found.square.to_index() == key {
                let ghost old_entries = entries@;
                let ghost old_table = table@;
                let ghost old_order = order;
                let offset = table.len();
                let mut slot: usize = 0;
                while slot < slots.len()
                    invariant
                        slot <= slots.len(),
                        table.len() == offset + slot,
                        offset == old_table.len(),
                        table@.subrange(0, offset as int) == old_table,
                        table@.subrange(offset as int, offset + slot) == slots@.subrange(
                            0,
                            slot as int,
                        ),
                    decreases slots.len() - slot,
                {
                    let ghost before = table@;
                    table.push(slots[slot]);
                    proof {
                        assert(table@.subrange(0, offset as int) =~= before.subrange(
                            0,
                            offset as int,
                        ));
                        assert(table@.subrange(offset as int, offset + slot + 1)
                            =~= before.subrange(offset as int, offset + slot).push(
                            slots[slot as int],
                        ));
                        assert(slots@.subrange(0, slot + 1) =~= slots@.subrange(
                            0,
                            slot as int,
                        ).push(slots[slot as int]));
                    }
                    slot = slot + 1;
                }
                let segment = MagicSegment {
                    square: found.square,
                    magic: found.magic,
                    shift: found.shift,
                    offset,
                    size: slots.len(),
                };
                entries.push(segment);
                proof {
                    order = order.push(place as int);
                    assert(slots@.subrange(0, slots.len() as int) =~= slots@);
                    assert(keys[place as int] == key);
                    assert forall|i: int| 0 <= i < order.len() implies holds(
                        #[trigger] entries[i],
                        table@,
                        results[order[i]],
                    ) by {
                        if i < old_order.len() {
                            let s = old_entries[i];
                            assert(holds(s, old_table, results[old_order[i]]));
                            assert(table@.subrange(s.offset as int, s.offset + s.size)
                                =~= old_table.subrange(s.offset as int, s.offset + s.size)) by {
                                assert forall|x: int| 0 <= x < offset implies table@[x]
                                    == old_table[x] by {
                                    assert(table@.subrange(0, offset as int)[x] == old_table[x]);
                                }
                            }
                        }
                    }
                    assert forall|p: int|
                        0 <= p < keys.len() && (0 <= keys[p] < key || (keys[p] == key && p
                            < place + 1)) implies #[trigger] order.contains(p) by {
                        if p == place {
                            assert(order[order.len() - 1] == p);
                        } else {
                            assert(old_order.contains(p));
                            let i = choose|i: int| 0 <= i < old_order.len() && old_order[i] == p;
                            assert(order[i] == p);
                        }
                    }
                }
            }
            place = place + 1;
        }
        key = key + 1;
    }
    proof {
        assert(order.no_duplicates());
        order.unique_seq_to_set();
        lemma_int_range(0, keys.len() as int);
        assert(order.to_set() =~= set_int_range(0, keys.len() as int)) by {
            assert forall|p: int| order.to_set().contains(p) == set_int_range(
                0,
                keys.len() as int,
            ).contains(p) by {
                if 0 <= p < keys.len() {
                    assert(order.contains(p));
                }
                if order.contains(p) {
                    let i = choose|i: int| 0 <= i < order.len() && order[i] == p;
                }
            }
        }
        assert(sorts(order, keys));
    }
    MagicTable { entries, table }
}

/// What the searches for the cells of `origins`, one after the other with at
/// most `tries` multipliers each, find when the generator starts in `state`:
/// the multiplier of each cell, unless the search for one of them fails or
/// its table has more slots than the machine can count, and the state in
/// which the generator is left.
pub open spec fn searches<R: ChessMove>(
    rule: R,
    origins: Seq<int>,
    state: u128,
    tries: nat,
) -> (Option<Seq<u128>>, u128)
    decreases origins.len(),
{
    if origins.len() == 0 {
        (Some(Seq::empty()), state)
    } else {
        let (before, middle) = searches(rule, origins.drop_last(), state, tries);
        let origin = origins.last();
        match before {
            None => (None, middle),
            Some(magics) => if rule.relevant(origin).len() >= usize::BITS {
                (None, middle)
            } else {
                match search(rule, origin, middle, tries) {
                    Some((magic, after)) => (Some(magics.push(magic)), after),
                    None => (None, state_after(middle, 6 * tries)),
                }
            },
        }
    }
}

/// `segment` is the hash that was found for the cell `origin` with the
/// multiplier `magic`: looking up any subset of the relevant blockers in the
/// segment's part of `table` gives the destinations of the piece.
pub open spec fn answers<R: ChessMove>(
    rule: R,
    origin: int,
    magic: u128,
    segment: MagicSegment,
    table: Seq<BitBoard>,
) -> bool {
    let entry = entry_for(rule, origin, magic);
    let part = table.subrange(segment.offset as int, segment.offset + segment.size);
    &&& segment.square@ == origin
    &&& segment.magic == magic
    &&& segment.shift == entry.shift
    &&& segment.size == pow2(entry.index_bits())
    &&& segment.offset + segment.size <= table.len()
    &&& serves(rule, origin, entry, part)
    &&& spare_slots_empty(entry, part)
}

/// Finds a hash for every square that the piece `rule` moves from, with at
/// most `tries` multipliers for each, and puts them into one table. Gives
/// nothing where the search for a square fails, or where the table of a
/// square would have more slots than the machine can count.
pub fn generate<R: ChessMove>(rule: &R, rng: &mut Rng, tries: usize) -> (r: Option<MagicTable>)
    ensures
        final(rng)@ == searches(*rule, rule.origins(), old(rng)@, tries as nat).1,
        match searches(*rule, rule.origins(), old(rng)@, tries as nat).0 {
            Some(magics) => {
                &&& r matches Some(found)
                &&& found.entries.len() == rule.origins().len()
                &&& contiguous(found.entries@, found.table@)
                &&& exists|order: Seq<int>| #[trigger]
                    sorts(order, rule.origins()) && forall|i: int|
                        0 <= i < order.len() ==> answers(
                            *rule,
                            rule.origins()[order[i]],
                            magics[order[i]],
                            #[trigger] found.entries[i],
                            found.table@,
                        )
            },
            None => r is None,
        },
{
    let squares = rule.start_range();
    let ghost origins = rule.origins();
    let ghost start = rng@;
    let ghost mut magics: Seq<u128> = Seq::empty();
    let mut results: Vec<(MagicEntryGen, Vec<BitBoard>)> = Vec::new();
    let mut n: usize = 0;
    assert(origins.take(0) =~= Seq::<int>::empty());
    while n < squares.len()
        invariant
            n <= squares.len(),
            origins == rule.origins(),
            numbers(squares@) == origins,
            start == old(rng)@,
            results.len() == n,
            magics.len() == n,
            searches(*rule, origins.take(n as int), start, tries as nat) == (Some(magics), rng@),
            forall|i: int|
                0 <= i < n ==> {
                    let entry = entry_for(*rule, origins[i], magics[i]);
                    &&& (#[trigger] results[i]).0.square@ == origins[i]
                    &&& results[i].0.magic == magics[i]
                    &&& results[i].0.shift == entry.shift
                    &&& results[i].1.len() == pow2(entry.index_bits())
                    &&& serves(*rule, origins[i], entry, results[i].1@)
                    &&& spare_slots_empty(entry, results[i].1@)
                },
        decreases squares.len() - n,
    {
        let square = squares[n];
        let ghost state = rng@;
        let ghost prefix = origins.take(n as int);
        let ghost longer = origins.take(n + 1);
        proof {
            assert(longer.drop_last() =~= prefix);
            assert(longer.last() == origins[n as int]);
            assert(square@ == origins[n as int]);
        }
        let mask = rule.relevant_blockers(square);
        let index_bits = mask.popcnt();
        if index_bits >= usize::BITS {
            proof {
                lemma_searches_stay_failed(*rule, origins, n + 1, start, tries as nat);
            }
            return None;
        }
        match find_magic(rule, square, index_bits as u8, rng, tries) {
            None => {
                proof {
                    lemma_searches_stay_failed(*rule, origins, n + 1, start, tries as nat);
                }
                return None;
            },
            Some(result) => {
                proof {
                    magics = magics.push(result.0.magic);
                }
                results.push(result);
            },
        }
        n = n + 1;
    }
    assert(origins.take(n as int) =~= origins);
    let found = aggregate(&results);
    proof {
        let keys = squares_of(results@);
        assert(keys =~= origins);
        let order = choose|order: Seq<int>| #[trigger]
            sorts(order, keys) && forall|i: int|
                0 <= i < order.len() ==> holds(
                    #[trigger] found.entries[i],
                    found.table@,
                    results[order[i]],
                );
        assert forall|i: int| 0 <= i < order.len() implies answers(
            *rule,
            origins[order[i]],
            magics[order[i]],
            #[trigger] found.entries[i],
            found.table@,
        ) by {
            assert(holds(found.entries[i], found.table@, results[order[i]]));
        }
        assert(sorts(order, rule.origins()));
    }
    Some(found)
}

/// Once the searches for the first `n` cells have failed, those for all of
/// them fail, and leave the generator in the same state.
proof fn lemma_searches_stay_failed<R: ChessMove>(
    rule: R,
    origins: Seq<int>,
    n: int,
    state: u128,
    tries: nat,
)
    requires
        0 <= n <= origins.len(),
        searches(rule, origins.take(n), state, tries).0 is None,
    ensures
        searches(rule, origins, state, tries) == searches(rule, origins.take(n), state, tries),
    decreases origins.len() - n,
{
    if n < origins.len() {
        let longer = origins.take(n + 1);
        assert(longer.drop_last() =~= origins.take(n));
        lemma_searches_stay_failed(rule, origins, n + 1, state, tries);
    } else {
        assert(origins.take(n) =~= origins);
    }
}

} // verus!
