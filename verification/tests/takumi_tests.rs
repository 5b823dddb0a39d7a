use tak_core::takumi::Board;

#[test]
fn test_empty() {
    let board = Board::empty(5);
    assert_eq!(board.size, 5);
}

#[test]
fn test_place() {
    let mut board = Board::try_from_pos_str("x5/x5/x5/x5/x5 1 25").unwrap();
    board.place(0, 0);
    board.place(1, 0);
    board.place(2, 1);
    board.place(3, 1);
    board.place(4, 2);
    board.place(5, 2);
    assert_eq!(board.ply_index, (25 - 1) * 2 + 6);
    assert_eq!(board.current_player, 0);
    assert_eq!(board.white_pieces, 19);
    assert_eq!(board.black_pieces, 19);
    assert_eq!(board.white_capstones, 0);
    assert_eq!(board.black_capstones, 0);
    assert_eq!(board.capstones, 0b110000);
    assert_eq!(board.walls, 0b001100);
    assert_eq!(board.occupied, 0b111111);
    assert_eq!(board.owner, 0b101010);
    assert_eq!(
        board.stack_heights,
        vec![1, 1, 1, 1, 1, 1, 0, 0, 0, 0, 0, 0, 0, 0, 0, 0, 0, 0, 0, 0, 0, 0, 0, 0, 0]
    );
    assert_eq!(
        board.stacks,
        vec![0, 1, 0, 1, 0, 1, 0, 0, 0, 0, 0, 0, 0, 0, 0, 0, 0, 0, 0, 0, 0, 0, 0, 0, 0]
    );
}

#[test]
fn test_unplace() {
    let mut board = Board::empty(5);
    board.place(0, 0);
    board.place(1, 0);
    board.place(2, 1);
    board.place(3, 1);
    board.place(4, 2);
    board.place(5, 2);
    board.unplace(5, 2);
    board.unplace(4, 2);
    board.unplace(3, 1);
    board.unplace(2, 1);
    board.unplace(1, 0);
    board.unplace(0, 0);
    assert_eq!(board, Board::empty(5));
}

#[test]
fn test_spread() {
    let mut board = Board::try_from_pos_str("x3/x3/x3 1 25").unwrap();
    board.place(0, 0);
    board.place(1, 0);

    board.spread(0, 0, 1, 0x1);
    assert_eq!(board.capstones, 0);
    assert_eq!(board.walls, 0);
    assert_eq!(board.occupied, 0b10);
    assert_eq!(board.stack_heights, vec![0, 2, 0, 0, 0, 0, 0, 0, 0]);
    assert_eq!(board.stacks, vec![0, 1, 0, 0, 0, 0, 0, 0, 0]);

    board.spread(1, 0, 2, 0x11);
    assert_eq!(board.occupied, 0b1100);
    assert_eq!(board.stack_heights, vec![0, 0, 1, 1, 0, 0, 0, 0, 0]);
    assert_eq!(board.stacks, vec![0, 0, 1, 0, 0, 0, 0, 0, 0]);
}

#[test]
fn test_unspread() {
    let mut board = Board::try_from_pos_str("1,2,2C,x2/x2,2S,x2/x5/x5/x5 2 3").unwrap();
    let clone = board.clone();

    board.spread(0, Board::DIR_RIGHT, 1, 0x1);
    assert_eq!(board.to_pos_str(), "x,21,2C,x2/x2,2S,x2/x5/x5/x5 1 4");

    board.spread(1, Board::DIR_DOWN, 2, 0x11);
    assert!(board.spread(2, Board::DIR_DOWN, 1, 0x1));

    assert_eq!(board.to_pos_str(), "x5/x,2,22C,x2/x,1,x3/x5/x5 1 5");
    assert_eq!(
        board,
        Board::try_from_pos_str("x5/x,2,22C,x2/x,1,x3/x5/x5 1 5").unwrap()
    );

    board.unspread(2, 2, 0x1, true);
    board.unspread(1, 2, 0x11, false);
    board.unspread(0, 0, 0x1, false);
    assert_eq!(board, clone);
}

#[test]
fn test_from_pos_str() {
    let board = Board::try_from_pos_str("x3/x3/x3 1 1");
    assert_eq!(board, Some(Board::empty(3)));

    let board = Board::try_from_pos_str("x,1121S,1/x2,11S/x3 2 3");
    assert_eq!(
        board,
        Some(Board {
            size: 3,
            result: None,
            ply_index: 5,
            current_player: 1,
            empty_positions: 6,
            white_pieces: 4,
            white_capstones: 0,
            black_pieces: 9,
            black_capstones: 0,
            occupied: 0b000100110,
            walls: 0b000100010,
            capstones: 0b000000000,
            owner: 0,
            stack_heights: vec![0, 4, 1, 0, 0, 2, 0, 0, 0],
            stacks: vec![0, 0b0100, 0, 0, 0, 0, 0, 0, 0]
        })
    );

    let board = Board::try_from_pos_str("x3,1121C,22C/x4,11S/x5/x5/x5 2 3").unwrap();
    assert_eq!(board.white_pieces, 21 - 4);
    assert_eq!(board.white_capstones, 1 - 1);
    assert_eq!(board.black_pieces, 21 - 2);
    assert_eq!(board.black_capstones, 1 - 1);
}

#[test]
fn test_to_pos_str() {
    let cases = [
        "x3/x3/x3 1 1",
        "x,1121S,1/x2,11S/x3 2 22",
        "x2,2C,1121C,1/x4,11S/x5/x5/x5 2 22",
        "x3,222S,1C/x4,21S/x5/x5/x5 2 3",
    ];
    for &case in &cases {
        let board = Board::try_from_pos_str(case).unwrap();
        assert_eq!(board.to_pos_str(), case);
    }
}

#[test]
fn test_invalid_from_pos_str() {
    assert!(Board::try_from_pos_str("x2,,x/x3/x3 1 1").is_none());
    assert!(Board::try_from_pos_str("x3/x3/x3 1").is_none());
    assert!(Board::try_from_pos_str("x3/x3/x3 1 1 1").is_none());
    assert!(Board::try_from_pos_str("x3/x3/x4 1 1").is_none());
    assert!(Board::try_from_pos_str("x,1121C,1/x2,11S/x3/x2 2 3").is_none());
    assert!(Board::try_from_pos_str("x,C,1/x3/x3 2 3").is_none());
    assert!(Board::try_from_pos_str("x,2,1,1/x3/x3 2 3").is_none());

    assert!(Board::try_from_pos_str("x3,2C,1S/x4,21C/x5/x5/x5 2 3").is_some());
    assert!(Board::try_from_pos_str("x3,2C,1C/x4,21C/x5/x5/x5 2 3").is_none());

    assert!(Board::try_from_pos_str("x3,222S,1C/x4,21S/x5/x5/x5 2 3").is_some());
    assert!(Board::try_from_pos_str("x3,222S,1C/x4,21C/x5/x5/x5 2 3").is_none());
}

#[test]
fn test_road_win() {
    let mut board = Board::try_from_pos_str("1,1,x/x3/x3 1 10").unwrap();
    assert_eq!(board.result, None);
    board.place(2, Board::VARIANT_FLAT);
    assert_eq!(board.result, Some(Board::PLAYER_WHITE));

    let mut board = Board::try_from_pos_str("1,1,x/x3/x3 1 10").unwrap();
    assert_eq!(board.result, None);
    board.place(2, Board::VARIANT_WALL);
    assert_eq!(board.result, None);

    let mut board = Board::try_from_pos_str("x,1,x/1,221,x/x,2121S,x 1 10").unwrap();
    assert_eq!(board.result, None);
    board.place(2, Board::VARIANT_FLAT);
    assert_eq!(board.result, Some(Board::PLAYER_WHITE));

    let mut board = Board::try_from_pos_str("1,1,x/2,2,x/x2,121 1 10").unwrap();
    assert_eq!(board.result, None);
    board.spread(8, Board::DIR_UP, 3, 0x12);
    assert_eq!(board.result, Some(Board::PLAYER_WHITE));

    let mut board = Board::try_from_pos_str("1,1S,x/2,2,x/x2,121 1 10").unwrap();
    assert_eq!(board.result, None);
    board.spread(8, Board::DIR_UP, 3, 0x12);
    assert_eq!(board.result, Some(Board::PLAYER_BLACK));
}

#[test]
fn test_flat_win() {
    let mut board = Board::try_from_pos_str("2,1,x/1,2,1/2,1,2 1 10").unwrap();
    assert_eq!(board.result, None);
    board.place(2, Board::VARIANT_FLAT);
    assert_eq!(board.result, Some(Board::PLAYER_WHITE));

    let mut board = Board::try_from_pos_str("2,1,x/1,2,1/2,1,2 2 10").unwrap();
    assert_eq!(board.result, None);
    board.place(2, Board::VARIANT_FLAT);
    assert_eq!(board.result, Some(Board::PLAYER_BLACK));

    let mut board = Board::try_from_pos_str("2S,1,x/1,2,1/2,1,2 2 10").unwrap();
    assert_eq!(board.result, None);
    board.place(2, Board::VARIANT_FLAT);
    assert_eq!(board.result, Some(2));

    let mut board = Board::try_from_pos_str("2S,1,x/1S,2S,1/2S,1,2 2 10").unwrap();
    assert_eq!(board.result, None);
    board.place(2, Board::VARIANT_FLAT);
    assert_eq!(board.result, Some(Board::PLAYER_WHITE));
}
