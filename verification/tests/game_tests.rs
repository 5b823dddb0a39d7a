use tak_core::{TakGame, TakGameState, TakPlayer, TakPtn, TakWinReason};

#[test]
fn test_from_ptn() {
    let ptn = r#"
[Site "PlayTak.com"]
[Event "Online Play"]
[Date "2025.06.26"]
[Time "19:32:14"]
[Player1 "Abyss"]
[Rating1 "2100"]
[Player2 "alion02"]
[Rating2 "2240"]
[Clock "15:0 +10"]
[Result "0-F"]
[Size "6"]
[Komi "2"]
[Flats "30"]
[Caps "1"]
[Opening "swap"]

1. a6 f1
2. d3 c4
3. d4 d5
4. c3 b3
5. c5 b4
6. c2 b2
7. c1 Cd2
8. b1 d1
9. c6 d2<
10. Cb5 d2
11. e3 e2
12. f3 a4
13. b5- a3
14. 2b4- a2
15. 3b3- a1
16. b1< b4
17. f2 2c2+
18. e5 e2+
19. a5 f4
20. e4 3c3>
21. c3 d6
22. c1> e6
23. f5 4d3+
24. 4b2+13 f6
25. 4b4> c2
26. Sd3 b2
27. e2 b5
28. b4 b1
29. b4+ b4
30. c1 b6
31. e2< d6<
32. c5+ b6>
33. Sb6 Sd6
34. b6> Sb6
35. 4c6- e1
36. c1+ d6<
37. d3> d6
38. 3e3-12 b6-
39. c1 b6
40. 5c4< c4 0-F
"#;
    let ptn = TakPtn::try_from_str(ptn).expect("Failed to parse PTN");
    let game = TakGame::try_from_ptn(ptn).expect("Failed to create game from PTN");
    assert_eq!(game.board.size, 6);
    assert_eq!(game.settings.komi.amount, 2);
    assert_eq!(game.settings.stones.stones, 30);
    assert_eq!(game.settings.stones.capstones, 1);
    assert_eq!(game.current_player, TakPlayer::White);
    assert_eq!(game.ply_index, 80);
    assert_eq!(
        game.game_state,
        TakGameState::Win(TakPlayer::Black, TakWinReason::Flat)
    );
    assert_eq!(
        game.to_tps().to_string(),
        "2,2,12S,2,2,2/1,212S,2121S,2,1,1/2,222221C,2,11112C,1,2/2,2,1,x2,1/2,2,21,21,1,1/21,2,1,21,221S,1 1 41"
    );
}
