use xq::bitboard::BitBoard;
use xq::square::{File, Rank, Square};

fn board(rows: [&str; 10]) -> BitBoard {
    let mut cells = [[false; 9]; 10];
    for (r, row) in rows.iter().enumerate() {
        let marks: Vec<&str> = row.split_whitespace().collect();
        assert_eq!(marks.len(), 9);
        for (f, mark) in marks.iter().enumerate() {
            cells[r][f] = match *mark {
                "X" => true,
                "." => false,
                other => panic!("unexpected mark {}", other),
            };
        }
    }
    BitBoard::from_rows(cells)
}

#[test]
fn test_square_file() {
    let s1 = Square::new(File::A, Rank::First);
    let s2 = Square::new(File::E, Rank::Fifth);
    let s3 = Square::new(File::I, Rank::Tenth);
    assert!(s1.file() == File::A, "fail with file = {:?}!", s1.file());
    assert!(s2.file() == File::E, "fail with file = {:?}!", s2.file());
    assert!(s3.file() == File::I, "fail with file = {:?}!", s3.file());
}

#[test]
fn test_square_rank() {
    let s1 = Square::new(File::A, Rank::First);
    let s2 = Square::new(File::E, Rank::Fifth);
    let s3 = Square::new(File::I, Rank::Tenth);
    assert!(
        s1.rank() == Rank::First,
        "fail with rank = {:?}!",
        s1.rank()
    );
    assert!(
        s2.rank() == Rank::Fifth,
        "fail with rank = {:?}!",
        s2.rank()
    );
    assert!(s3.rank() == Rank::Tenth, "fail with rank = {:?}!", s3.rank());
}

#[test]
fn test_square_bitboard() {
    let board = board([
        ". . . . . . . . .",
        ". . . . . . . . .",
        ". . . . . . . . .",
        ". . . X . . . . .",
        ". . . . . . . . .",
        ". . . . . . . . .",
        ". . . . . . . . .",
        ". . . . . . . . .",
        ". . . . . . . . .",
        ". . . . . . . . .",
    ]);
    let square = Square::new(File::D, Rank::Seventh);
    assert!(
        square.bitboard() == board,
        "fail with square = {:?}!",
        square
    );
}

#[test]
fn test_square_try_offset0() {
    let square = Square::new(File::E, Rank::Third);
    let o1 = square.try_offset(-1, 0).unwrap();
    let o2 = square.try_offset(0, 1).unwrap();
    let o3 = square.try_offset(1, 2).unwrap();
    let o4 = square.try_offset(-2, 1).unwrap();
    assert!(o1 == Square::new(File::D, Rank::Third));
    assert!(o2 == Square::new(File::E, Rank::Fourth));
    assert!(o3 == Square::new(File::F, Rank::Fifth));
    assert!(o4 == Square::new(File::C, Rank::Fourth));
}

#[test]
fn test_square_try_offset1() {
    let square = Square::new(File::H, Rank::Nineth);
    let o1 = square.try_offset(2, 0);
    let o2 = square.try_offset(5, 0);
    let o3 = square.try_offset(0, 2);
    assert!(o1 == None);
    assert!(o2 == None);
    assert!(o3 == None);
}

#[test]
fn square_numbers_run_row_by_row() {
    assert_eq!(Square::new(File::A, Rank::First).to_index(), 0);
    assert_eq!(Square::new(File::I, Rank::First).to_index(), 8);
    assert_eq!(Square::new(File::A, Rank::Second).to_index(), 9);
    assert_eq!(Square::new(File::E, Rank::Fifth).to_index(), 40);
    assert_eq!(Square::new(File::I, Rank::Tenth).to_index(), 89);
    assert_eq!(Square::NUM, 90);
    assert_eq!(File::NUM, 9);
    assert_eq!(Rank::NUM, 10);
}

#[test]
fn square_index_round_trip() {
    for index in 0..90 {
        let square = Square::index(index);
        assert_eq!(square.to_index(), index);
        assert_eq!(Square::try_index(index), Some(square));
        assert_eq!(square.file().to_index(), index % 9);
        assert_eq!(square.rank().to_index(), index / 9);
        assert_eq!(Square::new(square.file(), square.rank()), square);
    }
    assert_eq!(Square::try_index(90), None);
    assert_eq!(Square::try_index(usize::MAX), None);
}

#[test]
fn square_all_is_ascending_and_complete() {
    let all = Square::all();
    assert_eq!(all.len(), 90);
    for (index, square) in all.iter().enumerate() {
        assert_eq!(square.to_index(), index);
    }
}

#[test]
fn file_and_rank_index_round_trip() {
    for index in 0..9 {
        assert_eq!(File::index(index).to_index(), index);
        assert_eq!(File::try_index(index), Some(File::ALL[index]));
    }
    for index in 0..10 {
        assert_eq!(Rank::index(index).to_index(), index);
        assert_eq!(Rank::try_index(index), Some(Rank::ALL[index]));
    }
    assert_eq!(File::try_index(9), None);
    assert_eq!(Rank::try_index(10), None);
    assert_eq!(File::ALL[0], File::A);
    assert_eq!(File::ALL[8], File::I);
    assert_eq!(Rank::ALL[0], Rank::First);
    assert_eq!(Rank::ALL[9], Rank::Tenth);
}

#[test]
fn try_offset_stays_on_the_board() {
    let corner = Square::new(File::A, Rank::First);
    assert_eq!(corner.try_offset(-1, 0), None);
    assert_eq!(corner.try_offset(0, -1), None);
    assert_eq!(corner.try_offset(8, 9), Some(Square::new(File::I, Rank::Tenth)));
    assert_eq!(corner.try_offset(9, 0), None);
    assert_eq!(corner.try_offset(0, 10), None);
    assert_eq!(corner.try_offset(0, 0), Some(corner));
    let far = Square::new(File::I, Rank::Tenth);
    assert_eq!(far.try_offset(-8, -9), Some(corner));
    assert_eq!(far.try_offset(1, 0), None);
    assert_eq!(far.try_offset(0, 1), None);
}

#[test]
fn try_offset_takes_every_offset() {
    let far = Square::new(File::I, Rank::Tenth);
    assert_eq!(far.try_offset(127, 127), None);
    assert_eq!(far.try_offset(-128, -128), None);
    assert_eq!(far.try_offset(127, -9), None);
    assert_eq!(far.try_offset(-8, 127), None);
    let corner = Square::new(File::A, Rank::First);
    assert_eq!(corner.try_offset(127, 0), None);
    assert_eq!(corner.try_offset(-128, 0), None);
}

#[test]
fn try_offset_does_not_wrap_around_a_row() {
    let right = Square::new(File::I, Rank::Third);
    assert_eq!(right.try_offset(1, 0), None);
    let left = Square::new(File::A, Rank::Third);
    assert_eq!(left.try_offset(-1, 0), None);
    assert_eq!(left.try_offset(-1, 1), None);
}
