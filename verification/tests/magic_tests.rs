use xq::aggregate::{aggregate, generate, one_result_each};
use xq::bitboard::BitBoard;
use xq::generate::{
    draw_candidate, find_magic, lookup, magic_index, try_candidate, try_make_table, ChessMove,
    MagicEntry, MagicEntryGen,
};
use xq::king::ToNeighbour;
use xq::rng::{Rng, RNG_MULTIPLIER, RNG_SEED};
use xq::square::Square;
use xq::subsets::{blocker_subsets, next_subset};
use xq::{bishop, cannon, king, knight, rook};

fn check_table<R: ChessMove>(rule: &R, square: Square, entry: &MagicEntry, table: &[BitBoard]) {
    let bits = entry.mask.popcnt();
    assert_eq!(entry.shift as u32, 128 - bits);
    assert_eq!(table.len(), 1usize << bits);
    let mut used = vec![false; table.len()];
    let mut seen = 0usize;
    for part in blocker_subsets(entry.mask) {
        let index = magic_index(entry, part);
        assert_eq!(index as u128, part.0.wrapping_mul(entry.magic) >> entry.shift);
        assert_eq!(table[index], rule.moves(square, part));
        used[index] = true;
        seen += 1;
    }
    assert_eq!(seen, 1usize << bits);
    for (index, slot) in table.iter().enumerate() {
        if !used[index] {
            assert_eq!(*slot, BitBoard::empty());
        }
    }
}

fn search<R: ChessMove>(rule: &R, square: Square, rng: &mut Rng) -> (MagicEntryGen, Vec<BitBoard>) {
    let mask = rule.relevant_blockers(square);
    let bits = mask.popcnt() as u8;
    let (found, table) = find_magic(rule, square, bits, rng, 100_000).unwrap();
    assert_eq!(found.square, square);
    assert_eq!(found.shift, 128 - bits);
    assert_eq!(found.size, table.len());
    let entry = MagicEntry { mask, magic: found.magic, shift: found.shift };
    check_table(rule, square, &entry, &table);
    (found, table)
}

#[test]
fn generator_starts_from_its_seed() {
    assert_eq!(RNG_SEED, 0xE926E6210D9E3486 | 1);
    assert_eq!(RNG_MULTIPLIER, 0x2360ED051FC65DA44385DF649FCCF645);
    let mut rng = Rng::default();
    assert_eq!(rng.next_u64(), 0x671ceca412ff1c70);
    assert_eq!(rng.next_u64(), 0x340dd7460185f8a5);
    let mut same = Rng::from_state(RNG_SEED);
    assert_eq!(same.next_u64(), 0x671ceca412ff1c70);
}

#[test]
fn generator_draws_128_bits_in_two_steps() {
    let mut rng = Rng::default();
    assert_eq!(rng.next_u128(), 0x671ceca412ff1c70340dd7460185f8a5);
    let mut halves = Rng::default();
    let high = halves.next_u64() as u128;
    let low = halves.next_u64() as u128;
    let mut whole = Rng::default();
    assert_eq!(whole.next_u128(), (high << 64) | low);
    assert_eq!(whole.next_u128(), halves.next_u128());
}

#[test]
fn generator_follows_the_formula() {
    let mut state: u128 = 0x0123_4567_89AB_CDEF_FEDC_BA98_7654_3211;
    let mut rng = Rng::from_state(state);
    for _ in 0..200 {
        state = state.wrapping_mul(0x2360ED051FC65DA44385DF649FCCF645);
        let rot = (state >> 122) as u32;
        let xsl = (state >> 64) as u64 ^ state as u64;
        assert_eq!(rng.next_u64(), xsl.rotate_right(rot));
    }
}

#[test]
fn candidate_is_the_meet_of_three_draws() {
    let mut rng = Rng::default();
    assert_eq!(draw_candidate(&mut rng), 0x8420100a00300000410601844000);
    let mut three = Rng::default();
    let expected = three.next_u128() & three.next_u128() & three.next_u128();
    assert_eq!(expected, 0x8420100a00300000410601844000);
    assert_eq!(rng.next_u64(), three.next_u64());
}

#[test]
fn next_subset_walks_through_the_subsets() {
    let mask = BitBoard(0b101);
    let mut current = BitBoard::empty();
    let mut seen = Vec::new();
    loop {
        seen.push(current.0);
        current = next_subset(mask, current);
        if current.is_empty() {
            break;
        }
    }
    assert_eq!(seen, vec![0b000, 0b001, 0b100, 0b101]);
    assert_eq!(next_subset(mask, BitBoard(0b101)), BitBoard::empty());
    assert_eq!(next_subset(BitBoard::empty(), BitBoard::empty()), BitBoard::empty());
    assert_eq!(next_subset(BitBoard(0b110), BitBoard(0b010)), BitBoard(0b100));
}

#[test]
fn subsets_of_a_mask_are_all_there_once() {
    for mask in [
        BitBoard(0),
        BitBoard(1),
        BitBoard(0b101),
        BitBoard(0x2028080000000),
        BitBoard(0x100804020ee080402000),
        BitBoard((1u128 << 89) | (1u128 << 40) | 1),
    ] {
        let subsets = blocker_subsets(mask);
        assert_eq!(subsets.len(), 1usize << mask.popcnt());
        assert_eq!(subsets[0], BitBoard::empty());
        assert_eq!(*subsets.last().unwrap(), mask);
        for pair in subsets.windows(2) {
            assert!(pair[0].0 < pair[1].0);
        }
        for part in subsets.iter() {
            assert_eq!(*part & mask, *part);
        }
        assert_eq!(subsets.iter().filter(|part| part.is_empty()).count(), 1);
    }
}

#[test]
fn subsets_of_three_squares() {
    let subsets: Vec<u128> = blocker_subsets(BitBoard(0b10110)).iter().map(|b| b.0).collect();
    assert_eq!(
        subsets,
        vec![0b00000, 0b00010, 0b00100, 0b00110, 0b10000, 0b10010, 0b10100, 0b10110]
    );
}

#[test]
fn magic_index_takes_the_top_bits_of_the_product() {
    let entry = MagicEntry {
        mask: BitBoard(0xff),
        magic: 0x0100_0000_0000_0000_0000_0000_0000_000f,
        shift: 120,
    };
    assert_eq!(magic_index(&entry, BitBoard(0x1ab)), 0xab);
    assert_eq!(magic_index(&entry, BitBoard(0xab)), 0xab);
    assert_eq!(magic_index(&entry, BitBoard(0)), 0);
    assert_eq!(magic_index(&entry, BitBoard(0xf00)), 0);
    let wrapped = MagicEntry { mask: BitBoard(0b11), magic: u128::MAX, shift: 126 };
    assert_eq!(magic_index(&wrapped, BitBoard(0b01)), 3);
    assert_eq!(magic_index(&wrapped, BitBoard(0b10)), 3);
    assert_eq!(magic_index(&wrapped, BitBoard(0b11)), 3);
    assert_eq!(magic_index(&wrapped, BitBoard(0b00)), 0);
}

#[test]
fn magic_index_of_an_empty_mask_is_zero() {
    let entry = MagicEntry { mask: BitBoard::empty(), magic: u128::MAX, shift: 128 };
    assert_eq!(magic_index(&entry, BitBoard::full()), 0);
    assert_eq!(magic_index(&entry, BitBoard::empty()), 0);
    let beyond = MagicEntry { mask: BitBoard::full(), magic: 1, shift: 200 };
    assert_eq!(magic_index(&beyond, BitBoard::full()), 0);
}

#[test]
fn table_fill_fails_on_a_collision() {
    let square = Square::index(40);
    let mask = knight().relevant_blockers(square);
    let entry = MagicEntry { mask, magic: 0, shift: 124 };
    assert!(try_make_table(&knight(), square, &entry).is_err());
    let mask = rook().relevant_blockers(square);
    let entry = MagicEntry { mask, magic: 1, shift: 128 - 13 };
    assert!(try_make_table(&rook(), square, &entry).is_err());
}

#[test]
fn table_fill_tells_an_empty_destination_from_an_unused_slot() {
    // From the corner the cannon captures nothing unless two pieces stand on
    // one of its rays: the first subsets all give the empty board. A hash
    // that puts them into one slot with a subset that does capture collides.
    let square = Square::index(0);
    let mask = cannon().relevant_blockers(square);
    assert_eq!(mask.popcnt(), 17);
    let entry = MagicEntry { mask, magic: 0, shift: 128 - 17 };
    assert!(try_make_table(&cannon(), square, &entry).is_err());
}

#[test]
fn table_fill_succeeds_with_a_found_magic() {
    let square = Square::index(0);
    let mask = knight().relevant_blockers(square);
    assert_eq!(mask.popcnt(), 2);
    let entry = MagicEntry { mask, magic: 0x422002020052b008120a00000e000108, shift: 126 };
    let table = match try_make_table(&knight(), square, &entry) {
        Ok(table) => table,
        Err(_) => panic!("no table"),
    };
    assert_eq!(table.len(), 4);
    check_table(&knight(), square, &entry, &table);
}

#[test]
fn table_for_a_rule_without_blockers_has_one_slot() {
    let rule = ToNeighbour::advisor();
    let square = Square::index(13);
    let mask = rule.relevant_blockers(square);
    assert!(mask.is_empty());
    let entry = MagicEntry { mask, magic: 12345, shift: 128 };
    let table = match try_make_table(&rule, square, &entry) {
        Ok(table) => table,
        Err(_) => panic!("no table"),
    };
    assert_eq!(table, vec![BitBoard(0xa00028)]);
    assert_eq!(table[magic_index(&entry, BitBoard::full())], rule.moves(square, BitBoard::full()));
    let mut rng = Rng::default();
    let (found, table) = find_magic(&rule, square, 0, &mut rng, 1).unwrap();
    assert_eq!(found.shift, 128);
    assert_eq!(found.size, 1);
    assert_eq!(found.magic, 0x8420100a00300000410601844000);
    assert_eq!(table, vec![BitBoard(0xa00028)]);
}

#[test]
fn find_magic_takes_the_first_candidate_that_fits() {
    let mut rng = Rng::default();
    let (found, table) = search(&knight(), Square::index(0), &mut rng);
    assert_eq!(found.magic, 0x422002020052b008120a00000e000108);
    assert_eq!(found.shift, 126);
    assert_eq!(table.len(), 4);
    let (found, _) = search(&knight(), Square::index(40), &mut rng);
    assert_eq!(found.magic, 0x800101a0890810141230a29011000028);
    assert_eq!(found.shift, 124);
    let (found, _) = search(&knight(), Square::index(89), &mut rng);
    assert_eq!(found.magic, 0x1a00008000000000840141a041008001);
    let (found, _) = search(&bishop(), Square::index(2), &mut rng);
    assert_eq!(found.magic, 0xa40080e42000400000820008000524);
    let (found, _) = search(&bishop(), Square::index(22), &mut rng);
    assert_eq!(found.magic, 0x80020a10400010209810002000410430);
    let (found, table) = search(&king(), Square::index(4), &mut rng);
    assert_eq!(found.magic, 0x8228020800903871010200000088008);
    assert_eq!((found.shift, table.len()), (120, 256));
    let (found, table) = search(&king(), Square::index(13), &mut rng);
    assert_eq!(found.magic, 0x2822802001010208020000280800);
    assert_eq!((found.shift, table.len()), (121, 128));
    let (found, _) = search(&king(), Square::index(85), &mut rng);
    assert_eq!(found.magic, 0x1828184020120002210418130a000);
}

#[test]
fn find_magic_gives_up_after_its_tries() {
    let square = Square::index(0);
    let bits = knight().relevant_blockers(square).popcnt() as u8;
    let mut rng = Rng::default();
    assert!(find_magic(&knight(), square, bits, &mut rng, 0).is_none());
    let mut untouched = Rng::default();
    assert_eq!(rng.next_u64(), untouched.next_u64());
    let mut rng = Rng::default();
    assert!(find_magic(&knight(), square, bits, &mut rng, 10).is_none());
    let mut drawn = Rng::default();
    for _ in 0..10 {
        draw_candidate(&mut drawn);
    }
    assert_eq!(rng.next_u64(), drawn.next_u64());
    let mut rng = Rng::default();
    let found = find_magic(&knight(), square, bits, &mut rng, 11);
    assert_eq!(found.unwrap().0.magic, 0x422002020052b008120a00000e000108);
    let mut drawn = Rng::default();
    for _ in 0..11 {
        draw_candidate(&mut drawn);
    }
    assert_eq!(rng.next_u64(), drawn.next_u64());
}

#[test]
fn found_tables_answer_every_subset() {
    let mut rng = Rng::default();
    for square in knight().start_range() {
        search(&knight(), square, &mut rng);
    }
    for square in bishop().start_range() {
        search(&bishop(), square, &mut rng);
    }
}

#[test]
fn aggregate_orders_by_square_and_joins_the_tables() {
    let result = |square: usize, magic: u128, slots: Vec<u128>| {
        (
            MagicEntryGen { square: Square::index(square), magic, shift: 126, size: slots.len() },
            slots.into_iter().map(BitBoard).collect::<Vec<BitBoard>>(),
        )
    };
    let results = vec![
        result(40, 7, vec![1, 2, 3, 4]),
        result(3, 8, vec![5, 6]),
        result(89, 9, vec![]),
        result(0, 10, vec![7]),
        result(40, 11, vec![8, 9]),
    ];
    let joined = aggregate(&results);
    let seen: Vec<(usize, u128, u8, usize, usize)> = joined
        .entries
        .iter()
        .map(|e| (e.square.to_index(), e.magic, e.shift, e.offset, e.size))
        .collect();
    assert_eq!(
        seen,
        vec![
            (0, 10, 126, 0, 1),
            (3, 8, 126, 1, 2),
            (40, 7, 126, 3, 4),
            (40, 11, 126, 7, 2),
            (89, 9, 126, 9, 0),
        ]
    );
    let table: Vec<u128> = joined.table.iter().map(|b| b.0).collect();
    assert_eq!(table, vec![7, 5, 6, 1, 2, 3, 4, 8, 9]);
    let nothing = aggregate(&Vec::new());
    assert!(nothing.entries.is_empty());
    assert!(nothing.table.is_empty());
}

#[test]
fn generate_finds_one_hash_for_every_start_square() {
    let rule = bishop();
    let mut rng = Rng::default();
    let found = generate(&rule, &mut rng, 100_000).unwrap();
    let squares: Vec<usize> = found.entries.iter().map(|e| e.square.to_index()).collect();
    assert_eq!(squares, vec![2, 6, 18, 22, 26, 38, 42, 47, 51, 63, 67, 71, 83, 87]);
    let mut offset = 0;
    for entry in found.entries.iter() {
        assert_eq!(entry.offset, offset);
        let mask = rule.relevant_blockers(entry.square);
        assert_eq!(entry.size, 1usize << mask.popcnt());
        let hash = MagicEntry { mask, magic: entry.magic, shift: entry.shift };
        check_table(&rule, entry.square, &hash, &found.table[offset..offset + entry.size]);
        offset += entry.size;
    }
    assert_eq!(offset, found.table.len());
}

#[test]
fn generate_covers_the_whole_board_for_the_knight() {
    let rule = knight();
    let mut rng = Rng::default();
    let found = generate(&rule, &mut rng, 100_000).unwrap();
    assert_eq!(found.entries.len(), 90);
    for (index, entry) in found.entries.iter().enumerate() {
        assert_eq!(entry.square.to_index(), index);
        let mask = rule.relevant_blockers(entry.square);
        for part in blocker_subsets(mask) {
            let hash = MagicEntry { mask, magic: entry.magic, shift: entry.shift };
            assert_eq!(
                found.table[entry.offset + magic_index(&hash, part)],
                rule.moves(entry.square, part)
            );
        }
    }
}

#[test]
fn generate_gives_nothing_when_a_search_fails() {
    let rule = knight();
    let mut rng = Rng::default();
    assert!(generate(&rule, &mut rng, 1).is_none());
    let mut rng = Rng::default();
    assert!(generate(&rule, &mut rng, 0).is_none());
}

#[test]
fn lookup_answers_for_any_board() {
    let mut rng = Rng::default();
    let mut word: u128 = 0xB7E1_5162_8AED_2A6A_BF71_5880_9CF4_F3C7;
    for square in [0usize, 13, 40, 44, 76, 89] {
        let square = Square::index(square);
        let rule = knight();
        let (found, table) = search(&rule, square, &mut rng);
        let mask = rule.relevant_blockers(square);
        let entry = MagicEntry { mask, magic: found.magic, shift: found.shift };
        for _ in 0..200 {
            word = word.wrapping_mul(0x2360_ED05_1FC6_5DA4_4385_DF64_9FCC_F645) ^ (word >> 61);
            let blockers = BitBoard(word) & BitBoard::full();
            assert_eq!(lookup(&rule, square, &entry, &table, blockers), rule.moves(square, blockers));
        }
    }
    for square in king().start_range() {
        let rule = king();
        let (found, table) = search(&rule, square, &mut rng);
        let mask = rule.relevant_blockers(square);
        let entry = MagicEntry { mask, magic: found.magic, shift: found.shift };
        for _ in 0..50 {
            word = word.wrapping_mul(0x2360_ED05_1FC6_5DA4_4385_DF64_9FCC_F645) ^ (word >> 61);
            let blockers = BitBoard(word) & BitBoard::full();
            assert_eq!(lookup(&rule, square, &entry, &table, blockers), rule.moves(square, blockers));
        }
    }
}

#[test]
fn try_candidate_takes_or_leaves_one_multiplier() {
    let square = Square::index(0);
    let rule = knight();
    let bits = rule.relevant_blockers(square).popcnt() as u8;
    assert!(try_candidate(&rule, square, bits, 0).is_none());
    assert!(try_candidate(&rule, square, bits, 0x8420100a00300000410601844000).is_none());
    let (found, table) =
        try_candidate(&rule, square, bits, 0x422002020052b008120a00000e000108).unwrap();
    assert_eq!(found.square, square);
    assert_eq!(found.magic, 0x422002020052b008120a00000e000108);
    assert_eq!(found.shift, 126);
    assert_eq!(found.size, 4);
    let entry = MagicEntry { mask: rule.relevant_blockers(square), magic: found.magic, shift: 126 };
    check_table(&rule, square, &entry, &table);
}

#[test]
fn one_result_for_each_square_in_any_order() {
    let result = |square: usize| {
        (
            MagicEntryGen { square: Square::index(square), magic: 1, shift: 128, size: 1 },
            vec![BitBoard::empty()],
        )
    };
    let squares: Vec<Square> = [5usize, 17, 40, 89].iter().map(|i| Square::index(*i)).collect();
    let scrambled = vec![result(40), result(89), result(5), result(17)];
    assert!(one_result_each(&scrambled, &squares));
    let missing = vec![result(40), result(89), result(5)];
    assert!(!one_result_each(&missing, &squares));
    let twice = vec![result(40), result(89), result(5), result(17), result(5)];
    assert!(!one_result_each(&twice, &squares));
    let other = vec![result(40), result(89), result(5), result(18)];
    assert!(!one_result_each(&other, &squares));
    assert!(one_result_each(&Vec::new(), &Vec::new()));
    assert!(!one_result_each(&Vec::new(), &squares));
    let asked_twice: Vec<Square> = vec![Square::index(3), Square::index(3)];
    assert!(one_result_each(&vec![result(3), result(3)], &asked_twice));
    assert!(!one_result_each(&vec![result(3)], &asked_twice));
}

#[test]
fn searches_in_any_order_give_the_same_table() {
    let rule = bishop();
    let squares = rule.start_range();
    let mut rng = Rng::default();
    let mut results = Vec::new();
    for square in squares.iter().rev() {
        results.push(search(&rule, *square, &mut rng));
    }
    assert!(one_result_each(&results, &squares));
    let joined = aggregate(&results);
    assert_eq!(joined.entries.len(), squares.len());
    for (entry, square) in joined.entries.iter().zip(squares.iter()) {
        assert_eq!(entry.square, *square);
        let mask = rule.relevant_blockers(*square);
        let hash = MagicEntry { mask, magic: entry.magic, shift: entry.shift };
        check_table(
            &rule,
            *square,
            &hash,
            &joined.table[entry.offset..entry.offset + entry.size],
        );
    }
}
