use xq::bitboard::{BitBoard, FULL_BITS};
use xq::square::{File, Rank, Square};

fn board(rows: [&str; 10]) -> BitBoard {
    let mut cells = [[false; 9]; 10];
    for (r, row) in rows.iter().enumerate() {
        let marks: Vec<&str> = row.split_whitespace().collect();
        assert_eq!(marks.len(), 9);
        for (f, mark) in marks.iter().enumerate() {
            cells[r][f] = match *mark {
                "X" => true,
                "." => false,
                other => panic!("unexpected mark {}", other),
            };
        }
    }
    BitBoard::from_rows(cells)
}

fn samples() -> Vec<BitBoard> {
    vec![
        BitBoard(0),
        BitBoard(1),
        BitBoard(FULL_BITS),
        BitBoard(0x5540000AA8000000),
        BitBoard(0x20200000000000000000300),
        BitBoard(0x2AA_AAAA_AAAA_AAAA_AAAA_AAAA),
        BitBoard(1u128 << 89),
        BitBoard(0x1234_5678_9ABC_DEF0_1234),
    ]
}

#[test]
fn test_bitboard_macro0() {
    let board = board([
        ". . . . . . . . .",
        ". . . . . . . . .",
        ". . . . . . . . .",
        "X . X . X . X . X",
        ". . . . . . . . .",
        ". . . . . . . . .",
        "X . X . X . X . X",
        ". . . . . . . . .",
        ". . . . . . . . .",
        ". . . . . . . . .",
    ]);
    assert!(
        board.0 == 0x5540000AA8000000u128,
        "fail with board = {:?}",
        board
    );
}

#[test]
fn test_bitboard_macro1() {
    let board = board([
        ". . . . . . . . .",
        ". . . . . . . . .",
        ". . . . . . . . .",
        "X . X . . . X . .",
        ". . . . X . . . X",
        ". . . . . . . . .",
        "X . X . X . X . .",
        ". . . . . . . . .",
        ". . . . . . . . .",
        ". . . . . . . . .",
    ]);
    assert!(
        board.0 == 0x11620002A8000000u128,
        "fail with board = {:?}",
        board
    );
}

#[test]
fn test_bitboard_macro2() {
    let board = board([
        "X . . . . . . . X",
        ". . . . . . . . .",
        ". . . . . . . . .",
        ". . . . . . . . .",
        ". . . . . . . . .",
        ". . . . . . . . .",
        ". . . . . . . . .",
        ". . . . . . . . .",
        "X . . . . . . . .",
        ". . . . . . . . X",
    ]);
    assert!(
        board.0 == 0x20200000000000000000300u128,
        "fail with board = {:?}",
        board
    );
}

#[test]
fn empty_and_full() {
    assert_eq!(BitBoard::empty().0, 0);
    assert_eq!(BitBoard::full().0, (1u128 << 90) - 1);
    assert_eq!(FULL_BITS, (1u128 << 90) - 1);
    assert_eq!(BitBoard::default(), BitBoard::empty());
    assert!(BitBoard::empty().is_empty());
    assert!(!BitBoard::full().is_empty());
    assert_eq!(BitBoard::empty().popcnt(), 0);
    assert_eq!(BitBoard::full().popcnt(), 90);
}

#[test]
fn complement_is_disjoint_and_covers() {
    for a in samples() {
        assert_eq!(a & !a, BitBoard::empty());
        assert_eq!(a | !a, BitBoard::full());
        assert_eq!(!!a, a);
        assert!((!a).0 <= FULL_BITS);
    }
}

#[test]
fn complement_clears_the_bits_beyond_the_board() {
    assert_eq!(!BitBoard(0), BitBoard::full());
    assert_eq!(!BitBoard(u128::MAX), BitBoard::empty());
    assert_eq!(!BitBoard(1u128 << 100), BitBoard::full());
    assert_eq!(!BitBoard(1), BitBoard(FULL_BITS - 1));
}

#[test]
fn set_algebra_on_words() {
    let a = BitBoard(0b1100);
    let b = BitBoard(0b1010);
    assert_eq!(a & b, BitBoard(0b1000));
    assert_eq!(a | b, BitBoard(0b1110));
    assert_eq!(a ^ b, BitBoard(0b0110));
    let mut c = a;
    c &= b;
    assert_eq!(c, BitBoard(0b1000));
    let mut c = a;
    c |= b;
    assert_eq!(c, BitBoard(0b1110));
    let mut c = a;
    c ^= b;
    assert_eq!(c, BitBoard(0b0110));
}

#[test]
fn has_tells_the_squares_of_a_board() {
    let board = BitBoard(0x5540000AA8000000);
    let listed: Vec<usize> = vec![27, 29, 31, 33, 35, 54, 56, 58, 60, 62];
    for index in 0..90 {
        assert_eq!(
            board.has(Square::index(index)),
            listed.contains(&index),
            "square {}",
            index
        );
    }
    assert!(Square::new(File::E, Rank::Fourth).bitboard().has(Square::index(31)));
}

#[test]
fn popcnt_counts_set_bits() {
    assert_eq!(BitBoard(0x5540000AA8000000).popcnt(), 10);
    assert_eq!(BitBoard(1u128 << 89).popcnt(), 1);
    assert_eq!(BitBoard(u128::MAX).popcnt(), 128);
    assert_eq!(BitBoard(0x2AA_AAAA_AAAA_AAAA_AAAA_AAAA).popcnt(), 45);
    for a in samples() {
        assert_eq!(a.popcnt(), a.0.count_ones());
        assert_eq!(a.popcnt() as usize, a.squares().len());
    }
}

#[test]
fn next_square_is_the_lowest() {
    assert_eq!(BitBoard::empty().next_square(), None);
    assert_eq!(BitBoard(1).next_square(), Some(Square::index(0)));
    assert_eq!(BitBoard(0x5540000AA8000000).next_square(), Some(Square::index(27)));
    assert_eq!(BitBoard(1u128 << 89).next_square(), Some(Square::index(89)));
    assert_eq!(BitBoard(1u128 << 90).next_square(), None);
    assert_eq!(BitBoard((1u128 << 90) | (1u128 << 5)).next_square(), Some(Square::index(5)));
}

#[test]
fn iteration_is_ascending_and_exact() {
    for a in samples() {
        let squares = a.squares();
        for pair in squares.windows(2) {
            assert!(pair[0].to_index() < pair[1].to_index());
        }
        let mut rebuilt = BitBoard::empty();
        for square in squares.iter() {
            assert!(a.has(*square));
            rebuilt = rebuilt | square.bitboard();
        }
        assert_eq!(rebuilt, a);
    }
    let numbers: Vec<usize> = BitBoard(0x5540000AA8000000)
        .squares()
        .iter()
        .map(|s| s.to_index())
        .collect();
    assert_eq!(numbers, vec![27, 29, 31, 33, 35, 54, 56, 58, 60, 62]);
}

#[test]
fn iterator_hands_out_one_square_at_a_time() {
    let board = BitBoard(0b1010_0001);
    let mut iter = board.into_iter();
    assert_eq!(iter.next(), Some(Square::index(0)));
    assert_eq!(iter.next(), Some(Square::index(5)));
    assert_eq!(iter.next(), Some(Square::index(7)));
    assert_eq!(iter.next(), None);
    assert_eq!(iter.next(), None);
    let mut again = board.into_iter();
    assert_eq!(again.next(), Some(Square::index(0)));
}

#[test]
fn from_rows_puts_the_first_row_on_top() {
    let mut cells = [[false; 9]; 10];
    cells[0][0] = true;
    assert_eq!(BitBoard::from_rows(cells), Square::new(File::A, Rank::Tenth).bitboard());
    let mut cells = [[false; 9]; 10];
    cells[9][8] = true;
    assert_eq!(BitBoard::from_rows(cells), Square::new(File::I, Rank::First).bitboard());
    assert_eq!(BitBoard::from_rows([[true; 9]; 10]), BitBoard::full());
    assert_eq!(BitBoard::from_rows([[false; 9]; 10]), BitBoard::empty());
}

#[test]
fn to_rows_draws_the_board_from_the_top() {
    for a in samples() {
        let drawn = (a & BitBoard::full()).to_rows();
        assert_eq!(BitBoard::from_rows(drawn), a & BitBoard::full());
        for rank in 0..10 {
            for file in 0..9 {
                assert_eq!(drawn[9 - rank][file], a.has(Square::index(file + 9 * rank)));
            }
        }
    }
    let one = Square::new(File::D, Rank::Seventh).bitboard().to_rows();
    assert!(one[3][3]);
    assert_eq!(one.iter().flatten().filter(|mark| **mark).count(), 1);
}
