use tak_core::{
    TakBoard, TakCoord, TakDir, TakInvalidPlaceError, TakInvalidUndoPlaceError, TakPieceVariant, TakPlayer,
};
#[test]
fn test_can_place() {
    let board = TakBoard::try_from_partial_tps("1,2,12112/2C,1S,112S/x,111C,x").unwrap();
    let occupied_cases = vec![
        TakCoord::new(0, 2),
        TakCoord::new(1, 2),
        TakCoord::new(2, 2),
        TakCoord::new(0, 1),
        TakCoord::new(1, 1),
        TakCoord::new(2, 1),
        TakCoord::new(1, 0),
    ];
    let valid_cases = vec![TakCoord::new(0, 0), TakCoord::new(2, 0)];
    let invalid_cases = vec![
        TakCoord::new(3, 0),
        TakCoord::new(0, 3),
        TakCoord::new(4, 4),
        TakCoord::new(-1, 0),
        TakCoord::new(0, -1),
    ];
    let cases = [
        (occupied_cases, Err(TakInvalidPlaceError::PositionOccupied)),
        (valid_cases, Ok(())),
        (invalid_cases, Err(TakInvalidPlaceError::InvalidPosition)),
    ];
    for (cases, expected) in cases {
        for pos in cases {
            let result = board.can_place(pos);
            assert_eq!(result, expected);
        }
    }
}

#[test]
fn test_place_unchecked() {
    let mut board = TakBoard::try_from_partial_tps("x3/2C,1S,112S/x,111C,x").unwrap();
    assert_eq!(board.empty_spaces, 5);
    assert_eq!(board.id_counter, 8);
    board.do_place_unchecked(
        TakCoord::new(0, 2),
        TakPieceVariant::Capstone,
        TakPlayer::White,
    );
    assert_eq!(board.empty_spaces, 4);
    assert_eq!(board.id_counter, 9);
    assert_eq!(board.to_partial_tps(), "1C,x2/2C,1S,112S/x,111C,x");
    board.do_place_unchecked(TakCoord::new(1, 2), TakPieceVariant::Wall, TakPlayer::Black);
    board.do_place_unchecked(TakCoord::new(2, 2), TakPieceVariant::Flat, TakPlayer::White);

    assert_eq!(board.empty_spaces, 2);
    assert_eq!(board.id_counter, 11);
    assert_eq!(board.to_partial_tps(), "1C,2S,1/2C,1S,112S/x,111C,x");
}

#[test]
fn test_can_undo_place() {
    let mut board = TakBoard::try_from_partial_tps("x3/2C,1S,112S/x,111C,x").unwrap();
    let pos = TakCoord::new(0, 2);
    assert!(board
        .try_place(pos, TakPieceVariant::Capstone, TakPlayer::White)
        .is_ok());

    assert_eq!(
        board.can_undo_place(pos, TakPieceVariant::Wall, TakPlayer::White),
        Err(TakInvalidUndoPlaceError::NotAllowed)
    );
    assert_eq!(
        board.can_undo_place(pos, TakPieceVariant::Capstone, TakPlayer::Black),
        Err(TakInvalidUndoPlaceError::NotAllowed)
    );
    assert_eq!(
        board.can_undo_place(TakCoord::new(1, 1), TakPieceVariant::Wall, TakPlayer::White),
        Err(TakInvalidUndoPlaceError::NotAllowed)
    );

    assert!(board
        .can_undo_place(pos, TakPieceVariant::Capstone, TakPlayer::White)
        .is_ok());
    assert!(board
        .try_undo_place(pos, TakPieceVariant::Capstone, TakPlayer::White)
        .is_ok());
    assert!(board.can_place(pos).is_ok());
    assert_eq!(board.to_partial_tps(), "x3/2C,1S,112S/x,111C,x");

    assert_eq!(
        board.can_undo_place(pos, TakPieceVariant::Capstone, TakPlayer::White),
        Err(TakInvalidUndoPlaceError::PositionEmpty)
    );
}

#[test]
fn test_new_board_is_empty() {
    let board = TakBoard::new(5);
    for y in 0..5 {
        for x in 0..5 {
            let pos = TakCoord::new(x as i32, y as i32);
            assert!(board.can_place(pos).is_ok());
        }
    }
}

#[test]
fn test_place_piece() {
    let mut board = TakBoard::new(3);
    let pos = TakCoord::new(1, 1);
    assert!(board
        .try_place(pos, TakPieceVariant::Flat, TakPlayer::White)
        .is_ok());
    assert!(board.can_place(pos).is_err());
    assert!(board
        .try_place(pos, TakPieceVariant::Wall, TakPlayer::White)
        .is_err());
}

#[test]
fn test_can_move_simple() {
    let mut board = TakBoard::new(3);
    let pos = TakCoord::new(0, 0);
    assert!(board
        .try_place(pos, TakPieceVariant::Flat, TakPlayer::White)
        .is_ok());
    assert!(board.can_move(pos, TakDir::Right, 1, &[1]).is_ok());
    assert!(board.can_move(pos, TakDir::Up, 1, &[1]).is_ok());
    assert!(board.can_move(pos, TakDir::Down, 1, &[1]).is_err());
    assert!(board.can_move(pos, TakDir::Left, 1, &[1]).is_err());
}

#[test]
fn test_try_move_simple() {
    let mut board = TakBoard::new(3);
    let pos = TakCoord::new(0, 0);
    assert!(board
        .try_place(pos, TakPieceVariant::Flat, TakPlayer::White)
        .is_ok());
    assert!(board.try_move(pos, TakDir::Right, 1, &[1]).is_ok());
    let new_pos = TakCoord::new(1, 0);
    assert!(board.can_place(new_pos).is_err());
    assert!(board.try_move(new_pos, TakDir::Up, 1, &[1]).is_ok());
    let new_pos = TakCoord::new(1, 1);
    assert!(board.can_place(new_pos).is_err());
}

#[test]
fn test_to_tps_empty() {
    let board = TakBoard::new(3);
    assert_eq!(board.to_partial_tps(), "x3/x3/x3");
}

#[test]
fn test_from_tps_empty() {
    let board = TakBoard::try_from_partial_tps("x3/x3/x3").unwrap();
    assert_eq!(board.size, 3);
    for y in 0..3 {
        for x in 0..3 {
            let pos = TakCoord::new(x as i32, y as i32);
            assert!(board.can_place(pos).is_ok());
        }
    }
}

#[test]
fn test_to_tps_with_pieces() {
    let mut board = TakBoard::new(2);
    assert!(board
        .try_place(TakCoord::new(0, 0), TakPieceVariant::Flat, TakPlayer::White)
        .is_ok());
    assert!(board
        .try_place(TakCoord::new(1, 0), TakPieceVariant::Wall, TakPlayer::Black)
        .is_ok());
    assert_eq!(board.to_partial_tps(), "x2/1,2S");
}

#[test]
fn test_try_move_multiple() {
    let tps = "12211C,2S,x/x3/x3";
    let mut board = TakBoard::try_from_partial_tps(tps).unwrap();
    assert!(board
        .try_move(TakCoord::new(0, 2), TakDir::Down, 3, &[3])
        .is_ok());
    assert_eq!(board.to_partial_tps(), "12,2S,x/211C,x2/x3");
}

#[test]
fn test_try_move_multiple2() {
    let tps = "x,2S,x/21C,x2/x3";
    let mut board = TakBoard::try_from_partial_tps(tps).unwrap();
    assert!(board
        .try_move(TakCoord::new(0, 1), TakDir::Up, 2, &[2])
        .is_ok());
    assert_eq!(board.to_partial_tps(), "21C,2S,x/x3/x3");
}

#[test]
fn test_from_tps_with_pieces() {
    let mut board = TakBoard::new(3);
    let pos = TakCoord::new(0, 0);
    assert!(board
        .try_place(pos, TakPieceVariant::Flat, TakPlayer::White)
        .is_ok());
    assert!(board.try_move(pos, TakDir::Right, 1, &[1]).is_ok());
    let new_pos = TakCoord::new(1, 0);
    assert!(board.can_place(new_pos).is_err());
}

#[test]
fn test_try_move_over_wall_with_capstone() {
    let mut board = TakBoard::new(3);
    let pos = TakCoord::new(0, 0);
    assert!(board
        .try_place(pos, TakPieceVariant::Capstone, TakPlayer::White)
        .is_ok());
    let wall_pos = TakCoord::new(1, 0);
    assert!(board
        .try_place(wall_pos, TakPieceVariant::Wall, TakPlayer::Black)
        .is_ok());
    assert!(board.can_move(pos, TakDir::Right, 1, &[1]).is_ok());
    assert!(board.try_move(pos, TakDir::Right, 1, &[1]).is_ok());
}

#[test]
fn test_try_move_over_capstone_blocked() {
    let mut board = TakBoard::new(3);
    let pos = TakCoord::new(0, 0);
    assert!(board
        .try_place(pos, TakPieceVariant::Flat, TakPlayer::White)
        .is_ok());
    let cap_pos = TakCoord::new(1, 0);
    assert!(board
        .try_place(cap_pos, TakPieceVariant::Capstone, TakPlayer::Black)
        .is_ok());
    assert!(board.can_move(pos, TakDir::Right, 1, &[1]).is_err());
    assert!(board.try_move(pos, TakDir::Right, 1, &[1]).is_err());
}

#[test]
fn test_try_undo_place() {
    let mut board = TakBoard::try_from_partial_tps("x,1221C,x,21,2S/x5/x5/x5/x5").unwrap();
    assert!(board
        .try_place(TakCoord::new(2, 4), TakPieceVariant::Wall, TakPlayer::White)
        .is_ok());
    assert_eq!(board.to_partial_tps(), "x,1221C,1S,21,2S/x5/x5/x5/x5");
    assert!(board
        .try_undo_place(TakCoord::new(2, 4), TakPieceVariant::Wall, TakPlayer::White)
        .is_ok());
    assert_eq!(board.to_partial_tps(), "x,1221C,x,21,2S/x5/x5/x5/x5");
}

#[test]
fn test_try_undo_move() {
    let mut board = TakBoard::try_from_partial_tps("x,1221C,x,21,2S/x5/x5/x5/x5").unwrap();
    assert!(board
        .try_move(TakCoord::new(1, 4), TakDir::Right, 3, &[1, 1, 1])
        .is_ok());
    assert_eq!(board.to_partial_tps(), "x,1,2,212,21C/x5/x5/x5/x5");
    assert!(board
        .try_undo_move(TakCoord::new(1, 4), TakDir::Right, 3, &[1, 1, 1], true)
        .is_ok());
    assert_eq!(board.to_partial_tps(), "x,1221C,x,21,2S/x5/x5/x5/x5");
}

#[test]
fn test_find_shortest_path() {
    let board = TakBoard::try_from_partial_tps("1,1S,1,x/221C,2,221,1/1,1,1,1/x4").unwrap();
    let start = TakCoord::new(0, 3);
    let end = TakCoord::new(2, 3);
    let path = board.find_shortest_path(start, end);
    assert!(path.is_some());
    let path = path.unwrap();
    assert_eq!(
        path,
        vec![
            TakCoord::new(0, 3),
            TakCoord::new(0, 2),
            TakCoord::new(0, 1),
            TakCoord::new(1, 1),
            TakCoord::new(2, 1),
            TakCoord::new(2, 2),
            TakCoord::new(2, 3)
        ]
    );
}

#[test]
fn shortest_path_takes_the_fewest_steps() {
    let board = TakBoard::try_from_partial_tps("1,1,1/1,1,1/1,1,1").unwrap();
    let path = board
        .find_shortest_path(TakCoord::new(0, 0), TakCoord::new(2, 2))
        .unwrap();
    assert_eq!(path.len(), 5);
    assert_eq!(path[0], TakCoord::new(0, 0));
    assert_eq!(path[4], TakCoord::new(2, 2));
    let same = board
        .find_shortest_path(TakCoord::new(1, 1), TakCoord::new(1, 1))
        .unwrap();
    assert_eq!(same, vec![TakCoord::new(1, 1)]);
}
