use tak_core::{TakPlayer, TakTps};
#[test]
fn test_new_tps() {
    let tps = TakTps::new("x3/x3/x3".to_string(), 0);
    assert_eq!(tps.position, "x3/x3/x3");
    assert_eq!(tps.player, TakPlayer::White);
    assert_eq!(tps.move_index, 0);

    let tps = TakTps::new("x2/x2/x2".to_string(), 1);
    assert_eq!(tps.position, "x2/x2/x2");
    assert_eq!(tps.player, TakPlayer::Black);
    assert_eq!(tps.move_index, 0);

    let tps = TakTps::new("x4/x4/x4".to_string(), 18);
    assert_eq!(tps.position, "x4/x4/x4");
    assert_eq!(tps.player, TakPlayer::White);
    assert_eq!(tps.move_index, 9);
}

#[test]
fn test_tps_to_string() {
    let tps = TakTps::new("x3/x3/x3".to_string(), 0);
    assert_eq!(tps.to_string(), "x3/x3/x3 1 1");

    let tps = TakTps::new("x3/x2,112C/x3".to_string(), 8);
    assert_eq!(tps.to_string(), "x3/x2,112C/x3 1 5");
}

#[test]
fn test_tps_from_str() {
    let tps = TakTps::try_from_str("x3/x3/x3 1 1");
    assert_eq!(
        tps,
        Some(TakTps {
            position: "x3/x3/x3".to_string(),
            player: TakPlayer::White,
            move_index: 0
        })
    );

    let tps = TakTps::try_from_str("x3/x2,112C/x3 2 5");
    assert_eq!(
        tps,
        Some(TakTps {
            position: "x3/x2,112C/x3".to_string(),
            player: TakPlayer::Black,
            move_index: 4
        })
    );

    let invalid_tps = TakTps::try_from_str("x3/x2,112C/x3");
    assert!(invalid_tps.is_none());

    let invalid_tps = TakTps::try_from_str("x3/x2,112C/x3 1 a");
    assert!(invalid_tps.is_none());

    let invalid_tps = TakTps::try_from_str("x3/x2,112C/x3 a 1");
    assert!(invalid_tps.is_none());

    let invalid_tps = TakTps::try_from_str("x3/x2,112C/x3 1  ");
    assert!(invalid_tps.is_none());
}
