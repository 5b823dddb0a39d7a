use tak_core::client_info::ClientInfo;
use tak_core::pubsub::PubSub;
use tak_core::forms::{formatted_time_mode, validate_password, validate_username, FormState};
use tak_core::takumi::Board;
use tak_core::takumi_movegen::{decode_spread_vec, Action};
use tak_core::takumi_search::{
    determine_time_to_use, TranspositionEntry, TranspositionNodeType, TranspositionTable,
};
use tak_core::topic::{topic_matches, TopicMatcher};
use tak_core::ui_state::TakUIState;
use tak_core::{
    TakAction, TakCoord, TakDir, TakGame, TakGameSettings, TakGameState, TakInvalidActionError,
    TakActionRecord, TakInvalidMoveError, TakInvalidPlaceError, TakKomi, TakPieceVariant, TakPlayer,
    TakTimeMode, TakTps,
};

fn s(x: &str) -> String {
    x.to_string()
}

fn new_game(size: usize) -> TakGame {
    let settings = TakGameSettings::new(size, None, TakKomi::new(0, false), None);
    TakGame::new(settings).expect("a game starts from standard settings")
}

fn place(x: i32, y: i32) -> TakAction {
    TakAction::PlacePiece {
        pos: TakCoord::new(x, y),
        variant: TakPieceVariant::Flat,
    }
}

#[test]
fn client_info_tracks_topics() {
    let mut c = ClientInfo::default();
    assert!(c.is_empty());
    assert_eq!(c.add_subscription(&s("s1"), &s("games/1")), Some(s("games/1")));
    assert_eq!(c.add_subscription(&s("s2"), &s("games/1")), None);
    assert_eq!(c.add_subscription(&s("s3"), &s("games/2")), Some(s("games/2")));
    let mut topics = c.all_topics();
    topics.sort();
    assert_eq!(topics, vec![s("games/1"), s("games/2")]);
    assert_eq!(c.remove_subscription(&s("s1")), None);
    assert_eq!(c.remove_subscription(&s("s2")), Some(s("games/1")));
    assert_eq!(c.remove_subscription(&s("s2")), None);
    assert_eq!(c.all_topics(), vec![s("games/2")]);
    assert_eq!(c.remove_subscription(&s("s3")), Some(s("games/2")));
    assert!(c.is_empty());
}

#[test]
fn client_info_limits_subscriptions() {
    let mut c = ClientInfo::default();
    for i in 0..500 {
        c.add_subscription(&format!("id{}", i), &s("t"));
    }
    assert_eq!(c.add_subscription(&s("extra"), &s("other")), None);
    assert_eq!(c.remove_subscription(&s("extra")), None);
    assert_eq!(c.all_topics(), vec![s("t")]);
}

#[test]
fn time_to_use_follows_the_clock() {
    let board = Board::empty(5);
    assert_eq!(determine_time_to_use(&board, 60_000, 500), 1_500);
    let later = Board::try_from_pos_str("x5/x5/x5/x5/x5 1 16").unwrap();
    assert_eq!(later.ply_index, 30);
    assert_eq!(determine_time_to_use(&later, 60_000, 0), 4_500);
    assert_eq!(determine_time_to_use(&later, 10_000_000, 0), 30_000);
}

#[test]
fn transposition_table_keeps_entries() {
    let mut tt = TranspositionTable::new(4);
    assert_eq!(tt.count(), 0);
    let entry = TranspositionEntry {
        zobrist: 5,
        score: 10,
        depth: 3,
        ply: 8,
        node_type: TranspositionNodeType::Exact,
        best_move: Some(Action::Place(2, 0)),
    };
    tt.maybe_insert(entry);
    assert_eq!(tt.count(), 1);
    assert_eq!(tt.get(5), Some(&entry));
    assert_eq!(tt.get(21), None);
    let shallower = TranspositionEntry { depth: 1, score: 99, ..entry };
    tt.maybe_insert(shallower);
    assert_eq!(tt.get(5).unwrap().score, 10);
    tt.clear();
    assert_eq!(tt.count(), 0);
    assert_eq!(tt.get(5), None);
}

#[test]
fn spread_encoding_decodes_drops() {
    assert_eq!(decode_spread_vec(0x121), vec![1, 2, 1]);
    assert_eq!(decode_spread_vec(0x3), vec![3]);
    assert_eq!(decode_spread_vec(0), Vec::<usize>::new());
}

#[test]
fn topics_match_filters() {
    assert!(topic_matches("games/+/moves", "games/12/moves"));
    assert!(topic_matches("games/#", "games"));
    assert!(topic_matches("games/#", "games/1/moves"));
    assert!(!topic_matches("games/+", "games/1/moves"));
    let mut m = TopicMatcher::new();
    m.insert(s("games/+"), 1);
    m.insert(s("rooms/#"), 2);
    assert_eq!(m.get("games/+"), Some(&1));
    assert!(m.has_match("rooms/a/b"));
    assert!(!m.has_match("users/a"));
    assert_eq!(m.remove("games/+"), Some(1));
    assert_eq!(m.get("games/+"), None);
}

#[test]
fn tps_round_trip() {
    let text = "x5/x5/x2,1,x2/x5/x5 2 3";
    let tps = TakTps::try_from_str(text).unwrap();
    assert_eq!(tps.to_string(), text);
}

#[test]
fn game_reports_each_error() {
    let mut game = new_game(5);
    assert_eq!(
        game.try_do_action(TakAction::PlacePiece {
            pos: TakCoord::new(0, 0),
            variant: TakPieceVariant::Wall
        }),
        Err(TakInvalidActionError::InvalidPlace(TakInvalidPlaceError::InvalidVariant))
    );
    assert_eq!(game.try_do_action(place(0, 0)), Ok(()));
    assert_eq!(
        game.try_do_action(place(0, 0)),
        Err(TakInvalidActionError::InvalidPlace(TakInvalidPlaceError::PositionOccupied))
    );
    assert_eq!(
        game.try_do_action(place(7, 0)),
        Err(TakInvalidActionError::InvalidPlace(TakInvalidPlaceError::InvalidPosition))
    );
    assert_eq!(
        game.try_do_action(TakAction::MovePiece {
            pos: TakCoord::new(0, 0),
            dir: TakDir::Right,
            take: 1,
            drops: vec![1]
        }),
        Err(TakInvalidActionError::InvalidMove(TakInvalidMoveError::NotAllowed))
    );
    assert_eq!(game.ply_index, 1);
    assert_eq!(game.game_state, TakGameState::Ongoing);
}

#[test]
fn ui_plays_a_move_square_by_square() {
    let mut ui = TakUIState::new(new_game(5));
    assert_eq!(ui.tiles.len(), 25);
    assert!(ui.pieces.is_empty());
    assert_eq!(ui.try_do_action(place(0, 0)), Ok(()));
    assert_eq!(ui.try_do_action(place(4, 4)), Ok(()));
    assert_eq!(ui.try_do_action(place(1, 0)), Ok(()));
    assert_eq!(ui.try_do_action(place(4, 3)), Ok(()));
    assert_eq!(ui.pieces.len(), 4);
    assert_eq!(ui.priority_pieces, vec![3]);
    assert_eq!(ui.get_visible_active_player(), TakPlayer::White);
    assert_eq!(ui.add_square_to_partial_move(TakCoord::new(1, 0)), None);
    assert!(ui.partial_move.is_some());
    assert_eq!(
        ui.add_square_to_partial_move(TakCoord::new(2, 0)),
        Some(Ok(()))
    );
    assert!(ui.partial_move.is_none());
    assert_eq!(ui.game().ply_index, 5);
    assert!(ui.game().board.try_get_stack(TakCoord::new(1, 0)).is_none());
    assert!(ui.game().board.try_get_stack(TakCoord::new(2, 0)).is_some());
    assert_eq!(ui.get_visible_active_player(), TakPlayer::Black);
}

#[test]
fn ui_reviews_earlier_plies() {
    let mut ui = TakUIState::new(new_game(5));
    assert_eq!(ui.try_do_action(place(0, 0)), Ok(()));
    assert_eq!(ui.try_do_action(place(4, 4)), Ok(()));
    assert_eq!(ui.try_do_action(place(2, 2)), Ok(()));
    assert!(!ui.is_review());
    ui.try_seek_ply_index(1);
    assert!(ui.is_review());
    assert_eq!(ui.preview_game().ply_index, 1);
    assert_eq!(ui.get_visible_active_player(), TakPlayer::Black);
    assert_eq!(ui.pieces.iter().filter(|(_, p)| !p.deleted).count(), 1);
    ui.try_seek_ply_index(2);
    assert_eq!(ui.preview_game().ply_index, 2);
    assert_eq!(ui.priority_pieces, vec![1]);
    ui.try_seek_ply_index(3);
    assert!(!ui.is_review());
}

#[test]
fn ui_reset_starts_over() {
    let mut ui = TakUIState::new(new_game(4));
    assert_eq!(ui.try_do_action(place(1, 1)), Ok(()));
    ui.reset();
    assert_eq!(ui.game().ply_index, 0);
    assert!(ui.priority_pieces.is_empty());
    assert!(ui.pieces.iter().all(|(_, p)| p.deleted));
}

#[test]
fn ptn_text_reads_back() {
    let r = TakActionRecord::MovePiece {
        pos: TakCoord::new(1, 3),
        dir: TakDir::Down,
        take: 3,
        drops: vec![1, 2],
        flattened: true,
    };
    let text = r.to_ptn();
    assert_eq!(text, "3b4-12*");
    assert_eq!(
        TakAction::from_ptn(6, &text),
        Some(TakAction::MovePiece {
            pos: TakCoord::new(1, 3),
            dir: TakDir::Down,
            take: 3,
            drops: vec![1, 2]
        })
    );
    let p = TakActionRecord::PlacePiece {
        pos: TakCoord::new(4, 0),
        variant: TakPieceVariant::Capstone,
        player: TakPlayer::White,
    };
    assert_eq!(p.to_ptn(), "Ce1");
    assert_eq!(
        TakAction::from_ptn(6, "Ce1"),
        Some(TakAction::PlacePiece {
            pos: TakCoord::new(4, 0),
            variant: TakPieceVariant::Capstone
        })
    );
}

#[test]
fn forms_check_fields() {
    assert!(validate_username("alion_02"));
    assert!(!validate_username("ab"));
    assert!(!validate_username("bad name"));
    assert!(validate_password("12345678"));
    assert!(!validate_password("1234567"));
    let mut form = FormState::new();
    assert!(!form.is_valid());
    form.invalid_username = false;
    form.invalid_password = false;
    assert!(form.is_valid());
    assert_eq!(formatted_time_mode(&None), "No time limit");
    assert_eq!(formatted_time_mode(&Some(TakTimeMode::new(900, 10))), "15:00 + 10s");
    assert_eq!(formatted_time_mode(&Some(TakTimeMode::new(65, 0))), "1:05");
}

#[test]
fn registry_follows_connections_and_subscriptions() {
    let mut ps = PubSub::new();
    assert!(!ps.subscribe(&s("u1"), &s("a"), &s("games/1")));
    ps.add_connection(&s("u1"), &s("c1"));
    assert!(ps.subscribe(&s("u1"), &s("a"), &s("games/1")));
    assert_eq!(ps.get_subscribers(&s("games/1")), vec![s("u1")]);
    ps.add_connection(&s("u2"), &s("c2"));
    assert!(ps.subscribe(&s("u2"), &s("b"), &s("games/1")));
    assert!(ps.subscribe(&s("u2"), &s("c"), &s("games/2")));
    assert_eq!(ps.get_subscribers(&s("games/1")), vec![s("u1"), s("u2")]);
    ps.unsubscribe(&s("u1"), &s("a"));
    assert_eq!(ps.get_subscribers(&s("games/1")), vec![s("u2")]);
    assert!(!ps.remove_connection(&s("u2"), &s("c9")));
    assert!(ps.remove_connection(&s("u2"), &s("c2")));
    assert!(ps.get_subscribers(&s("games/1")).is_empty());
    assert!(ps.get_subscribers(&s("games/2")).is_empty());
    assert!(!ps.remove_connection(&s("u2"), &s("c2")));
}

#[test]
fn handlers_collect_under_topics() {
    let mut m: TopicMatcher<Vec<i32>> = TopicMatcher::new();
    PubSub::add_handler(&mut m, "games/#", 1);
    PubSub::add_handler(&mut m, "games/#", 2);
    PubSub::add_handler(&mut m, "rooms", 3);
    assert_eq!(m.get("games/#"), Some(&vec![1, 2]));
    assert_eq!(m.get("rooms"), Some(&vec![3]));
    if let Some(v) = m.get_mut("rooms") {
        v.push(4);
    }
    assert_eq!(m.get("rooms"), Some(&vec![3, 4]));
    assert!(m.get_mut("users").is_none());
}

#[test]
fn ptn_header_reads_back_settings() {
    let settings = TakGameSettings::new(5, None, TakKomi::new(2, true), Some(TakTimeMode::new(300, 5)));
    let game = TakGame::new(settings.clone()).unwrap();
    let ptn = game.to_ptn();
    assert_eq!(ptn.get_settings(), Some(settings));
    let tps = TakTps::try_from_str("x3/x,1,x/x3 2 2").unwrap();
    let with_position =
        TakGameSettings::new_with_position(3, tps, None, TakKomi::new(0, false), None);
    let game = TakGame::new(with_position.clone()).unwrap();
    assert_eq!(game.to_ptn().get_settings(), Some(with_position));
}

#[test]
fn generated_placements_are_accepted() {
    let settings = TakGameSettings::new(4, None, TakKomi::new(0, false), None);
    let game = TakGame::new(settings).unwrap();
    let memo = tak_core::compute_partition_memo(8);
    let moves = tak_core::gen_moves(&game, &memo);
    assert_eq!(moves.len(), 16);
    for action in moves {
        let mut g = game.clone();
        assert!(g.try_do_action(action).is_ok());
    }
    let mut g = game.clone();
    let wall = TakAction::PlacePiece { pos: TakCoord::new(0, 0), variant: TakPieceVariant::Wall };
    assert!(g.try_do_action(wall).is_err());
}
