use tak_core::takumi::Board;
use tak_core::takumi_movegen::{compute_partition_memo, encode_spread_vec, gen_moves, spread_partitions, Action};
use tak_core::takumi_play::{perft, perft_safe};

const ENGINE_POSITION: &str = "x2,2,22,2C,1/21221S,1112,x,2211,1,2/x2,111S,x,11S,12S/11S,1S,2S,2,12S,1211C/x,12S,2,122S,x,212S/12,x2,1S,22222S,21121 2 31";

#[test]
fn test_perft() {
    let mut game = Board::try_from_pos_str(ENGINE_POSITION).unwrap();
    let results = perft(&mut game, 4);
    assert_eq!(results, 92392763);
}

#[test]
fn test_gen_place_moves_opening() {
    let mut game = Board::empty(3);
    let moves = gen_moves(&game)
        .into_iter()
        .filter_map(|action| match action {
            Action::Place(pos, variant) => Some((pos, variant)),
            _ => None,
        })
        .collect::<Vec<_>>();
    assert_eq!(moves.len(), 9);
    game.place(0, Board::VARIANT_FLAT);
    let moves = gen_moves(&game)
        .into_iter()
        .filter_map(|action| match action {
            Action::Place(pos, variant) => Some((pos, variant)),
            _ => None,
        })
        .collect::<Vec<_>>();
    assert_eq!(moves.len(), 8);

    for (pos, variant) in moves {
        let clone = game.clone();
        game.place(pos, variant);
        game.unplace(pos, variant);
        assert_eq!(clone, game);
    }
}

fn spreads_of(game: &Board) -> Vec<(usize, usize, u64, u64)> {
    gen_moves(game)
        .into_iter()
        .filter_map(|action| match action {
            Action::Spread(pos, dir, take, partition) => Some((pos, dir, take, partition)),
            _ => None,
        })
        .collect::<Vec<_>>()
}

#[test]
fn test_gen_spread_moves() {
    let mut game = Board::try_from_pos_str("112,x2/x3/x3 2 10").unwrap();
    let moves = spreads_of(&game);
    assert_eq!(moves.len(), 12);
    for (pos, dir, take, partition) in moves {
        let clone = game.clone();
        let smashed = game.spread(pos, dir, take, partition);
        game.unspread(pos, dir, partition, smashed);
        assert_eq!(clone, game);
    }
}

#[test]
fn test_gen_spread_moves_smash() {
    let mut game = Board::try_from_pos_str("112C,11S,x3/x5/1C,x4/x5/x5 2 10").unwrap();
    let moves = spreads_of(&game);
    assert_eq!(moves.len(), 4);
    for (pos, dir, take, partition) in moves {
        let clone = game.clone();
        let smashed = game.spread(pos, dir, take, partition);
        game.unspread(pos, dir, partition, smashed);
        assert_eq!(clone, game);
    }
}

#[test]
fn test_gen_spread_moves_tall_stacks() {
    let mut game = Board::try_from_pos_str("11222122C,x,11S,x2/x5/1C,x4/x5/x5 2 10").unwrap();
    let moves = spreads_of(&game);
    assert_eq!(moves.len(), 14);
    for (pos, dir, take, partition) in moves {
        let clone = game.clone();
        let smashed = game.spread(pos, dir, take, partition);
        game.unspread(pos, dir, partition, smashed);
        assert_eq!(clone, game);
    }
}

#[test]
fn perft_counts_small_depths() {
    let mut game = Board::empty(3);
    assert_eq!(perft(&mut game, 0), 1);
    assert_eq!(perft(&mut game, 1), 9);
    assert_eq!(perft(&mut game, 2), 72);
    assert_eq!(perft(&mut game, 3), 1200);
    assert_eq!(perft(&mut game, 4), 17792);
    assert_eq!(perft(&mut game, 5), 271812);
    assert_eq!(game, Board::empty(3));
}

#[test]
fn perft_safe_matches_perft() {
    let mut game = Board::try_from_pos_str(ENGINE_POSITION).unwrap();
    let before = game.clone();
    let a = perft_safe(&mut game, 2);
    let b = perft(&mut game, 2);
    assert_eq!(a, b);
    assert_eq!(game, before);
}

#[test]
fn make_then_unmake_restores() {
    let game = Board::try_from_pos_str(ENGINE_POSITION).unwrap();
    for action in gen_moves(&game) {
        let mut b = game.clone();
        assert!(b.can_make(&action));
        let smash = b.make(&action);
        b.unmake(&action, smash);
        assert_eq!(b, game);
    }
}

#[test]
fn drop_tables_match_the_computed_memo() {
    let memo = compute_partition_memo(8);
    assert_eq!(memo.len(), 9);
    for take in 1..=8usize {
        let flat: Vec<u64> = memo[take].iter().flatten().copied().collect();
        assert_eq!(flat, spread_partitions(take as u64));
    }
    assert_eq!(memo[3][2], vec![0x12, 0x21]);
}

#[test]
fn encoding_packs_drops() {
    assert_eq!(encode_spread_vec(vec![1, 2, 1]), 0x121);
    assert_eq!(encode_spread_vec(vec![]), 0);
}
