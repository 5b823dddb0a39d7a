//! A game of Tak: settings, the players' reserves, turns, win conditions and
//! the clock.
use vstd::prelude::*;

use crate::action::{TakAction, TakActionRecord};
use crate::board::{count_empty, opt_view, total_pieces, StackView, TakBoard, TakStack};
use crate::board_query::{board_flats, board_stones};
use crate::board_text::{board_tps, read_board};
use crate::coord::{on_board, step, TakCoord, TakDir};
use crate::moves::{move_cells, move_check, lemma_move_check_ok, step_in_board};
use crate::roads::{road_reach, spans};
use crate::time::{remaining_at, TakClock, TakTimeMode, TakTimestamp};
use crate::tps::{ply_player, TakTps};
use crate::ptn::{TakPtn, TakPtnAttr, turns_of, header_scan, header_settings};
use crate::action::{record_ptn, ptn_writable, action_spec, ptn_action};
use crate::{
    TakGameState, TakInvalidActionError, TakInvalidMoveError, TakInvalidPlaceError, TakPieceVariant,
    TakPlayer, TakWinReason,
};

verus! {

/// Komi: points added to Black's flat count, and whether Black also wins ties.
#[derive(Debug, Clone, Copy, PartialEq, Eq, Structural)]
pub struct TakKomi {
    pub amount: usize,
    pub tiebreak: bool,
}

/// Who wins a flat count of `white` against `black` under komi `k`.
pub open spec fn komi_winner(k: TakKomi, white: nat, black: nat) -> Option<TakPlayer> {
    let b = black + k.amount;
    if white > b {
        Some(TakPlayer::White)
    } else if b > white {
        Some(TakPlayer::Black)
    } else if k.tiebreak {
        Some(TakPlayer::Black)
    } else {
        None
    }
}

impl TakKomi {
    /// Komi of `amount`, with or without the tiebreak.
    pub fn new(amount: usize, tiebreak: bool) -> (r: Self)
        ensures
            r.amount == amount,
            r.tiebreak == tiebreak,
    {
        TakKomi { amount, tiebreak }
    }

    /// No komi.
    pub fn none() -> (r: Self)
        ensures
            r.amount == 0,
            !r.tiebreak,
    {
        TakKomi { amount: 0, tiebreak: false }
    }

    /// The winner of a flat count (White first), or `None` for a draw.
    pub fn determine_winner(&self, counts: [usize; 2]) -> (r: Option<TakPlayer>)
        requires
            counts@[1] + self.amount <= usize::MAX,
        ensures
            r == komi_winner(*self, counts@[0] as nat, counts@[1] as nat),
    {
        let white_score = counts[0];
        let black_score = counts[1] + self.amount;
        if white_score > black_score {
            Some(TakPlayer::White)
        } else if black_score > white_score {
            Some(TakPlayer::Black)
        } else if self.tiebreak {
            Some(TakPlayer::Black)
        } else {
            None
        }
    }
}

/// The pieces each player has at the start.
#[derive(Clone, Copy, Debug, PartialEq, Eq, Structural)]
pub struct TakStones {
    pub stones: usize,
    pub capstones: usize,
}

/// The standard reserves for a board size from 3 to 8: stones and capstones.
pub open spec fn standard_stones(size: int) -> (usize, usize) {
    if size == 3 {
        (10, 0)
    } else if size == 4 {
        (15, 0)
    } else if size == 5 {
        (21, 1)
    } else if size == 6 {
        (30, 1)
    } else if size == 7 {
        (40, 2)
    } else {
        (50, 2)
    }
}

impl TakStones {
    /// Reserves of `stones` stones and `capstones` capstones.
    pub fn new(stones: usize, capstones: usize) -> (r: Self)
        ensures
            r.stones == stones,
            r.capstones == capstones,
    {
        TakStones { stones, capstones }
    }

    /// The standard reserves for a board size from 3 to 8.
    pub fn from_size(size: usize) -> (r: Self)
        requires
            3 <= size <= 8,
        ensures
            (r.stones, r.capstones) == standard_stones(size as int),
    {
        let (stones, capstones) = if size == 3 {
            (10, 0)
        } else if size == 4 {
            (15, 0)
        } else if size == 5 {
            (21, 1)
        } else if size == 6 {
            (30, 1)
        } else if size == 7 {
            (40, 2)
        } else {
            (50, 2)
        };
        TakStones::new(stones, capstones)
    }
}

/// The settings of a game: board size, reserves, komi, time control and the
/// starting position.
#[derive(Debug, Clone, PartialEq)]
pub struct TakGameSettings {
    pub size: usize,
    pub stones: TakStones,
    pub komi: TakKomi,
    pub time_mode: Option<TakTimeMode>,
    pub start_position: TakTps,
}

/// The reserves given, or the standard ones for the size.
pub open spec fn stones_or_standard(stones: Option<TakStones>, size: int) -> TakStones {
    match stones {
        Some(s) => s,
        None => TakStones { stones: standard_stones(size).0, capstones: standard_stones(size).1 },
    }
}

/// A copy of a time control.
fn copy_time_mode(m: &Option<TakTimeMode>) -> (r: Option<TakTimeMode>)
    ensures
        r == *m,
{
    match m {
        Some(t) => Some(TakTimeMode { time: t.time, increment: t.increment }),
        None => None,
    }
}

impl TakTps {
    /// A copy of the position.
    pub fn duplicate(&self) -> (r: Self)
        ensures
            r == *self,
    {
        TakTps { position: self.position.clone(), player: self.player, move_index: self.move_index }
    }
}

impl TakGameSettings {
    /// Settings starting from the empty board; without reserves given, the
    /// standard ones for the size.
    pub fn new(size: usize, stones: Option<TakStones>, komi: TakKomi, time_mode: Option<TakTimeMode>) -> (r:
        Self)
        requires
            stones is Some || 3 <= size <= 8,
        ensures
            r.size == size,
            r.stones == stones_or_standard(stones, size as int),
            r.komi == komi,
            r.time_mode == time_mode,
            r.start_position.position@ == crate::tps::empty_rows(size as nat, size as nat),
            r.start_position.player == TakPlayer::White,
            r.start_position.move_index == 0,
    {
        let stones = match stones {
            Some(s) => s,
            None => TakStones::from_size(size),
        };
        TakGameSettings { size, stones, komi, time_mode, start_position: TakTps::new_empty(size) }
    }

    /// Settings starting from `start_position`; without reserves given, the
    /// standard ones for the size.
    pub fn new_with_position(
        size: usize,
        start_position: TakTps,
        stones: Option<TakStones>,
        komi: TakKomi,
        time_mode: Option<TakTimeMode>,
    ) -> (r: Self)
        requires
            stones is Some || 3 <= size <= 8,
        ensures
            r.size == size,
            r.stones == stones_or_standard(stones, size as int),
            r.komi == komi,
            r.time_mode == time_mode,
            r.start_position == start_position,
    {
        let stones = match stones {
            Some(s) => s,
            None => TakStones::from_size(size),
        };
        TakGameSettings { size, stones, komi, time_mode, start_position }
    }

    /// A copy of the settings.
    pub fn duplicate(&self) -> (r: Self)
        ensures
            r == *self,
    {
        TakGameSettings {
            size: self.size,
            stones: self.stones,
            komi: self.komi,
            time_mode: copy_time_mode(&self.time_mode),
            start_position: self.start_position.duplicate(),
        }
    }
}

/// The pieces a player has left to place.
#[derive(Clone, Copy, Debug, PartialEq, Eq, Structural)]
pub struct TakHand {
    pub stones: usize,
    pub capstones: usize,
}

/// Whether a hand has a piece for `variant`: a stone for flats and walls, a
/// capstone for capstones.
pub open spec fn hand_has(h: TakHand, variant: TakPieceVariant) -> bool {
    match variant {
        TakPieceVariant::Capstone => h.capstones > 0,
        _ => h.stones > 0,
    }
}

/// A hand with one piece for `variant` taken out.
pub open spec fn hand_taken(h: TakHand, variant: TakPieceVariant) -> TakHand {
    match variant {
        TakPieceVariant::Capstone => TakHand { capstones: (h.capstones - 1) as usize, ..h },
        _ => TakHand { stones: (h.stones - 1) as usize, ..h },
    }
}

impl TakHand {
    /// A hand of `stones` stones and `capstones` capstones.
    pub fn new(stones: usize, capstones: usize) -> (r: Self)
        ensures
            r.stones == stones,
            r.capstones == capstones,
    {
        TakHand { stones, capstones }
    }

    /// Takes a piece for `variant` out of the hand if there is one.
    pub fn try_take(&mut self, variant: TakPieceVariant) -> (r: bool)
        ensures
            r == hand_has(*old(self), variant),
            r ==> *final(self) == hand_taken(*old(self), variant),
            !r ==> *final(self) == *old(self),
    {
        match variant {
            TakPieceVariant::Capstone => {
                if self.capstones > 0 {
                    self.capstones = self.capstones - 1;
                    true
                } else {
                    false
                }
            },
            _ => {
                if self.stones > 0 {
                    self.stones = self.stones - 1;
                    true
                } else {
                    false
                }
            },
        }
    }

    /// Whether the hand has a piece for `variant`.
    pub fn can_take(&self, variant: TakPieceVariant) -> (r: bool)
        ensures
            r == hand_has(*self, variant),
    {
        match variant {
            TakPieceVariant::Capstone => self.capstones > 0,
            _ => self.stones > 0,
        }
    }

    /// Puts a piece for `variant` back into the hand.
    pub fn undo_take(&mut self, variant: TakPieceVariant)
        requires
            match variant {
                TakPieceVariant::Capstone => old(self).capstones < usize::MAX,
                _ => old(self).stones < usize::MAX,
            },
        ensures
            hand_taken(*final(self), variant) == *old(self),
            hand_has(*final(self), variant),
    {
        match variant {
            TakPieceVariant::Capstone => self.capstones = self.capstones + 1,
            _ => self.stones = self.stones + 1,
        }
    }

    /// Whether the hand holds no piece at all.
    pub fn is_empty(&self) -> (r: bool)
        ensures
            r == (self.stones == 0 && self.capstones == 0),
    {
        self.stones == 0 && self.capstones == 0
    }
}

/// A game: its settings, the board, whose turn it is, the plies played,
/// the actions played since the start position, the players' reserves
/// (White first), the state of the game and the clock.
#[derive(Debug, Clone, PartialEq)]
pub struct TakGame {
    pub settings: TakGameSettings,
    pub board: TakBoard,
    pub current_player: TakPlayer,
    pub ply_index: usize,
    pub action_history: Vec<TakActionRecord>,
    pub hands: [TakHand; 2],
    pub game_state: TakGameState,
    pub clock: Option<TakClock>,
}

/// Whether a road of `player` from one of `positions` joins opposite edges.
pub open spec fn road_from(b: TakBoard, positions: Seq<TakCoord>, player: TakPlayer) -> bool {
    exists|i: int, a: TakCoord, c: TakCoord|
        0 <= i < positions.len() && #[trigger] road_reach(b.cells(), b.size as int, player, positions[i], a)
            && #[trigger] road_reach(b.cells(), b.size as int, player, positions[i], c) && spans(
            a,
            c,
            b.size as int,
        )
}

/// The cells an action touched: the placed cell, or the start of a move and
/// each cell it dropped on.
pub open spec fn affected(r: TakActionRecord) -> Seq<TakCoord> {
    match r {
        TakActionRecord::PlacePiece { pos, .. } => seq![pos],
        TakActionRecord::MovePiece { pos, dir, drops, .. } => Seq::new(
            (drops@.len() + 1) as nat,
            |i: int| step(pos, dir, i),
        ),
    }
}

/// Whether a hand holds no piece.
pub open spec fn hand_empty(h: TakHand) -> bool {
    h.stones == 0 && h.capstones == 0
}

/// The state of the game after the player to move touched `positions`: a
/// road of the mover wins, else a road of the opponent; else, when the board
/// is full or a reserve is empty, the flat count decides with komi; else the
/// state stays.
pub open spec fn end_state(
    b: TakBoard,
    positions: Seq<TakCoord>,
    player: TakPlayer,
    hands: Seq<TakHand>,
    komi: TakKomi,
    prev: TakGameState,
) -> TakGameState {
    if road_from(b, positions, player) {
        TakGameState::Win(player, TakWinReason::Road)
    } else if road_from(b, positions, TakPlayer::opponent(player)) {
        TakGameState::Win(TakPlayer::opponent(player), TakWinReason::Road)
    } else if !(exists|i: int| 0 <= i < b.cells().len() && #[trigger] b.cells()[i] is None) || hand_empty(
        hands[0],
    ) || hand_empty(hands[1]) {
        let counts = board_flats(b.cells(), b.cells().len() as int);
        match komi_winner(komi, counts.0, counts.1) {
            Some(w) => TakGameState::Win(w, TakWinReason::Flat),
            None => TakGameState::Draw,
        }
    } else {
        prev
    }
}

/// Whether `g2` is `g` after the move ending with `record`: the record is
/// added, the ply counted, the turn passed and the state settled by `end_state`.
pub open spec fn ended(g: TakGame, g2: TakGame, record: TakActionRecord) -> bool {
    &&& g2.game_state == end_state(
        g.board,
        affected(record),
        g.current_player,
        g.hands@,
        g.settings.komi,
        g.game_state,
    )
    &&& g2.action_history@ == g.action_history@.push(record)
    &&& g2.ply_index == g.ply_index + 1
    &&& g2.current_player == TakPlayer::opponent(g.current_player)
    &&& g2.board == g.board
    &&& g2.hands == g.hands
    &&& g2.settings == g.settings
    &&& g2.clock == g.clock
}

/// Whose piece a placement puts down: the opponent's in the first two plies.
pub open spec fn placer(g: TakGame) -> TakPlayer {
    if g.ply_index < 2 {
        TakPlayer::opponent(g.current_player)
    } else {
        g.current_player
    }
}

/// What placing `variant` at `pos` checks: the game is on, the cell is free,
/// only flats in the first two plies, and the placer has the piece.
pub open spec fn place_result(g: TakGame, pos: TakCoord, variant: TakPieceVariant) -> Result<(), TakInvalidPlaceError> {
    if g.game_state != TakGameState::Ongoing {
        Err(TakInvalidPlaceError::NotAllowed)
    } else {
        match crate::board::place_check(g.board, pos) {
            Err(e) => Err(e),
            Ok(()) => if g.ply_index < 2 && variant != TakPieceVariant::Flat {
                Err(TakInvalidPlaceError::InvalidVariant)
            } else if !hand_has(g.hands@[TakPlayer::idx(placer(g))], variant) {
                Err(TakInvalidPlaceError::NotEnoughStones)
            } else {
                Ok(())
            },
        }
    }
}

/// What moving checks: the game is on, past the first two plies, and the
/// board allows the move (giving whether a wall is flattened).
pub open spec fn move_result(g: TakGame, pos: TakCoord, dir: TakDir, take: usize, drops: Seq<usize>) -> Result<bool, TakInvalidMoveError> {
    if g.game_state != TakGameState::Ongoing || g.ply_index < 2 {
        Err(TakInvalidMoveError::NotAllowed)
    } else {
        move_check(g.board, pos, dir, take as int, drops)
    }
}

/// The reserves after `player` took a piece for `variant`.
pub open spec fn hands_after(hands: Seq<TakHand>, player: TakPlayer, variant: TakPieceVariant) -> Seq<TakHand> {
    hands.update(TakPlayer::idx(player), hand_taken(hands[TakPlayer::idx(player)], variant))
}

/// Whether `g2` is `g` after a successful placement of `variant` at `pos`.
pub open spec fn placed(g: TakGame, g2: TakGame, pos: TakCoord, variant: TakPieceVariant) -> bool {
    let p = placer(g);
    let mid = TakGame {
        board: g2.board,
        hands: g2.hands,
        ..g
    };
    &&& g2.board.cells() == g.board.cells().update(
        crate::coord::cell_index(pos, g.board.size as int),
        Some(crate::board::placed_stack(variant, g.board.id_counter, p)),
    )
    &&& g2.board.size == g.board.size
    &&& g2.board.id_counter == g.board.id_counter + 1
    &&& g2.board.wf()
    &&& g2.hands@ == hands_after(g.hands@, p, variant)
    &&& ended(mid, g2, TakActionRecord::PlacePiece { pos, variant, player: p })
}

/// Whether `g2` is `g` after a successful move.
pub open spec fn moved(g: TakGame, g2: TakGame, pos: TakCoord, dir: TakDir, take: usize, drops: Seq<usize>, flattened: bool) -> bool {
    let mid = TakGame { board: g2.board, ..g };
    &&& g2.board.cells() == move_cells(g.board.cells(), g.board.size as int, pos, dir, take as int, drops)
    &&& g2.board.size == g.board.size
    &&& g2.board.id_counter == g.board.id_counter
    &&& g2.board.wf()
    &&& exists|d: Vec<usize>|
        d@ == drops && #[trigger] ended(
            mid,
            g2,
            TakActionRecord::MovePiece { pos, dir, take, drops: d, flattened },
        )
}

impl TakGame {
    /// The game is in a state its methods accept: a well-formed board.
    pub open spec fn wf(&self) -> bool {
        self.board.wf()
    }

    /// The last action played, if any.
    pub fn get_last_action(&self) -> (r: Option<&TakActionRecord>)
        ensures
            r == (if self.action_history@.len() > 0 {
                Some(&self.action_history@[self.action_history@.len() - 1])
            } else {
                None
            }),
    {
        if self.action_history.len() > 0 {
            Some(&self.action_history[self.action_history.len() - 1])
        } else {
            None
        }
    }

    /// Settles the state of the game after the move ending with `record`,
    /// records it and passes the turn.
    fn on_end_move(&mut self, record: TakActionRecord)
        requires
            old(self).wf(),
            old(self).ply_index < usize::MAX,
            old(self).settings.komi.amount + old(self).board.size * old(self).board.size <= usize::MAX,
            match record {
                TakActionRecord::PlacePiece { .. } => true,
                TakActionRecord::MovePiece { pos, dir, drops, .. } => forall|j: int|
                    0 <= j <= drops@.len() ==> #[trigger] crate::moves::ray_ok(
                        pos,
                        dir,
                        j,
                        old(self).board.size as int,
                    ),
            },
        ensures
            ended(*old(self), *final(self), record),
    {
        let mut positions: Vec<TakCoord> = Vec::new();
        match &record {
            TakActionRecord::PlacePiece { pos, .. } => {
                positions.push(*pos);
                assert(positions@ =~= affected(record));
            },
            TakActionRecord::MovePiece { pos, dir, drops, .. } => {
                positions.push(*pos);
                let mut current = *pos;
                proof {
                    crate::coord::lemma_step_zero(*pos, *dir);
                }
                for k in 0..drops.len()
                    invariant
                        positions@.len() == k + 1,
                        current == step(*pos, *dir, k as int),
                        forall|j: int| 0 <= j <= k ==> #[trigger] positions@[j] == step(*pos, *dir, j),
                        forall|j: int|
                            0 <= j <= drops@.len() ==> #[trigger] crate::moves::ray_ok(
                                *pos,
                                *dir,
                                j,
                                self.board.size as int,
                            ),
                        self.board.size < i32::MAX,
                {
                    proof {
                        assert(crate::moves::ray_ok(*pos, *dir, k as int, self.board.size as int));
                        assert(crate::moves::ray_ok(*pos, *dir, k + 1, self.board.size as int));
                        crate::coord::lemma_step_succ(*pos, *dir, k as int);
                    }
                    current = current.offset_dir(*dir);
                    positions.push(current);
                }
                assert(positions@ =~= affected(record));
            },
        }
        let player = self.current_player;
        let ghost g0 = *self;
        let road_mine = self.board.check_for_road(positions.as_slice(), player);
        if road_mine.is_some() {
            self.game_state = TakGameState::Win(player, TakWinReason::Road);
        } else {
            let road_theirs = self.board.check_for_road(positions.as_slice(), player.other());
            if road_theirs.is_some() {
                self.game_state = TakGameState::Win(player.other(), TakWinReason::Road);
            } else if !self.board.has_empty_space() || self.hands[0].is_empty() || self.hands[1].is_empty() {
                let counts = self.board.count_flats();
                proof {
                    crate::board_query::lemma_board_flats_bound(self.board.cells(), self.board.cells().len() as int);
                }
                match self.settings.komi.determine_winner(counts) {
                    Some(winner) => {
                        self.game_state = TakGameState::Win(winner, TakWinReason::Flat);
                    },
                    None => {
                        self.game_state = TakGameState::Draw;
                    },
                }
            }
        }
        self.action_history.push(record);
        self.ply_index = self.ply_index + 1;
        self.current_player = player.other();
    }
}

/// Whether `g1` is `g` after the clock was checked at `now` before an
/// action: when the player to move has no time left at `now`, the opponent
/// wins on time and the mover's time is set to 0.
pub open spec fn clock_checked(g: TakGame, g1: TakGame, now: TakTimestamp) -> bool {
    match g.clock {
        Some(c) => if remaining_at(c, g.current_player, now) == 0 {
            &&& g1.game_state == TakGameState::Win(TakPlayer::opponent(g.current_player), TakWinReason::Timeout)
            &&& g1.clock matches Some(c1) && c1.time_remaining_millis@ == c.time_remaining_millis@.update(
                TakPlayer::idx(g.current_player),
                0,
            ) && c1.increment_millis == c.increment_millis && c1.last_update_timestamp
                == c.last_update_timestamp
            &&& g1 == TakGame { game_state: g1.game_state, clock: g1.clock, ..g }
        } else {
            g1 == g
        },
        None => g1 == g,
    }
}

/// Whether clock `c2` is `c` after `player` moved at `now`: the time since
/// the last update is taken off, the increment added if time is left, and
/// `now` recorded.
pub open spec fn clock_ticked(c: Option<TakClock>, c2: Option<TakClock>, now: TakTimestamp, player: TakPlayer) -> bool {
    match c {
        None => c2 is None,
        Some(k) => c2 matches Some(k2) && k2.last_update_timestamp == Some(now) && k2.increment_millis
            == k.increment_millis && k2.time_remaining_millis@ == k.time_remaining_millis@.update(
            TakPlayer::idx(player),
            if remaining_at(k, player, now) > 0 {
                (remaining_at(k, player, now) + k.increment_millis) as u64
            } else {
                0u64
            },
        ),
    }
}

/// What an action does to a game when the clock reads `now`: the clock is
/// checked, then the placement or move is tried; on success the mover's
/// clock ticks. On failure the game is as after the clock check.
pub open spec fn action_outcome(
    g: TakGame,
    g2: TakGame,
    action: TakAction,
    now: TakTimestamp,
    r: Result<(), TakInvalidActionError>,
) -> bool {
    exists|g1: TakGame|
        #[trigger] clock_checked(g, g1, now) && {
            let done = TakGame { clock: g1.clock, ..g2 };
            match action {
                TakAction::PlacePiece { pos, variant } => match place_result(g1, pos, variant) {
                    Err(e) => r == Err::<(), TakInvalidActionError>(TakInvalidActionError::InvalidPlace(e))
                        && g2 == g1,
                    Ok(()) => r is Ok && placed(g1, done, pos, variant) && clock_ticked(
                        g1.clock,
                        g2.clock,
                        now,
                        g.current_player,
                    ),
                },
                TakAction::MovePiece { pos, dir, take, drops } => match move_result(
                    g1,
                    pos,
                    dir,
                    take,
                    drops@,
                ) {
                    Err(e) => r == Err::<(), TakInvalidActionError>(TakInvalidActionError::InvalidMove(e))
                        && g2 == g1,
                    Ok(f) => r is Ok && moved(g1, done, pos, dir, take, drops@, f) && clock_ticked(
                        g1.clock,
                        g2.clock,
                        now,
                        g.current_player,
                    ),
                },
            }
        }
}

/// The limits an action needs: the ply count, the piece counter, komi plus
/// the number of cells, and the mover's time plus the increment fit.
pub open spec fn action_fits(g: TakGame) -> bool {
    &&& g.ply_index < usize::MAX
    &&& g.board.id_counter < usize::MAX
    &&& g.settings.komi.amount + g.board.size * g.board.size <= usize::MAX
    &&& g.clock matches Some(c) ==> c.time_remaining_millis@[TakPlayer::idx(g.current_player)]
        + c.increment_millis <= u64::MAX
}

impl TakGame {
    /// Places `variant` at `pos` for the player whose piece it is (the
    /// opponent's in the first two plies) and ends the move.
    fn try_place(&mut self, pos: TakCoord, variant: TakPieceVariant) -> (r: Result<(), TakInvalidPlaceError>)
        requires
            old(self).wf(),
            action_fits(*old(self)),
        ensures
            r == place_result(*old(self), pos, variant),
            r is Ok ==> placed(*old(self), *final(self), pos, variant),
            r is Err ==> *final(self) == *old(self),
    {
        if self.game_state != TakGameState::Ongoing {
            return Err(TakInvalidPlaceError::NotAllowed);
        }
        self.board.can_place(pos)?;
        let player = if self.ply_index < 2 {
            if variant != TakPieceVariant::Flat {
                return Err(TakInvalidPlaceError::InvalidVariant);
            }
            self.current_player.other()
        } else {
            self.current_player
        };
        let i = player.index();
        let mut hand = self.hands[i];
        if !hand.try_take(variant) {
            return Err(TakInvalidPlaceError::NotEnoughStones);
        }
        let ghost g0 = *self;
        self.hands[i] = hand;
        proof {
            crate::coord::lemma_index_bounds_pub(pos, self.board.size as int);
            crate::board::lemma_count_empty_pos(self.board.cells(), crate::coord::cell_index(pos, self.board.size as int));
            assert(self.hands@ =~= hands_after(g0.hands@, player, variant));
        }
        self.board.do_place_unchecked(pos, variant, player);
        let record = TakActionRecord::PlacePiece { pos, variant, player };
        let ghost mid = *self;
        self.on_end_move(record);
        proof {
            assert(mid == TakGame { board: self.board, hands: self.hands, ..*old(self) });
        }
        Ok(())
    }

    /// Moves `take` pieces from `pos` in direction `dir` with the given drops
    /// and ends the move.
    fn try_move(&mut self, pos: TakCoord, dir: TakDir, take: usize, drops: &[usize]) -> (r: Result<(), TakInvalidMoveError>)
        requires
            old(self).wf(),
            action_fits(*old(self)),
        ensures
            match move_result(*old(self), pos, dir, take, drops@) {
                Ok(f) => r is Ok && moved(*old(self), *final(self), pos, dir, take, drops@, f),
                Err(e) => r == Err::<(), TakInvalidMoveError>(e) && *final(self) == *old(self),
            },
    {
        if self.game_state != TakGameState::Ongoing {
            return Err(TakInvalidMoveError::NotAllowed);
        }
        if self.ply_index < 2 {
            return Err(TakInvalidMoveError::NotAllowed);
        }
        proof {
            if move_check(self.board, pos, dir, take as int, drops@) is Ok {
                lemma_move_check_ok(self.board, pos, dir, take as int, drops@);
            }
        }
        let ghost b0 = self.board;
        let flattened = self.board.try_move(pos, dir, take, drops)?;
        let mut d: Vec<usize> = Vec::new();
        for i in 0..drops.len()
            invariant
                d@ == drops@.take(i as int),
        {
            d.push(drops[i]);
            assert(drops@.take(i as int).push(drops@[i as int]) =~= drops@.take(i + 1));
        }
        assert(drops@.take(drops@.len() as int) =~= drops@);
        proof {
            assert forall|j: int| 0 <= j <= drops@.len() implies #[trigger] crate::moves::ray_ok(
                pos,
                dir,
                j,
                self.board.size as int,
            ) by {
                if j == 0 {
                    crate::coord::lemma_step_zero(pos, dir);
                } else {
                    assert(step_in_board(b0, pos, dir, j));
                }
            }
        }
        let record = TakActionRecord::MovePiece { pos, dir, take, drops: d, flattened };
        let ghost mid = *self;
        self.on_end_move(record);
        proof {
            assert(mid == TakGame { board: self.board, ..*old(self) });
            assert(ended(mid, *self, record));
        }
        Ok(())
    }

    /// Plays `action` with the clock reading `now`: checks the clock, tries
    /// the placement or move, and on success ticks the mover's clock.
    pub fn try_do_action_at(&mut self, action: TakAction, now: TakTimestamp) -> (r: Result<(), TakInvalidActionError>)
        requires
            old(self).wf(),
            action_fits(*old(self)),
        ensures
            action_outcome(*old(self), *final(self), action, now, r),
            final(self).wf(),
    {
        let current_player = self.current_player;
        let ghost g0 = *self;
        let timed_out = match &self.clock {
            Some(clock) => clock.get_time_remaining_at(current_player, now) == 0,
            None => false,
        };
        if timed_out {
            self.game_state = TakGameState::Win(current_player.other(), TakWinReason::Timeout);
            match &mut self.clock {
                Some(clock) => clock.set_time_remaining(current_player, 0),
                None => {},
            }
        }
        let ghost g1 = *self;
        assert(clock_checked(g0, g1, now));
        let r = match action {
            TakAction::PlacePiece { pos, variant } => match self.try_place(pos, variant) {
                Ok(()) => Ok(()),
                Err(e) => Err(TakInvalidActionError::InvalidPlace(e)),
            },
            TakAction::MovePiece { pos, dir, take, drops } => match self.try_move(pos, dir, take, drops.as_slice()) {
                Ok(()) => Ok(()),
                Err(e) => Err(TakInvalidActionError::InvalidMove(e)),
            },
        };
        if r.is_err() {
            return r;
        }
        let ghost g_done = *self;
        match &mut self.clock {
            Some(clock) => clock.update(now, current_player),
            None => {},
        }
        proof {
            assert(g_done == TakGame { clock: g1.clock, ..*self });
        }
        r
    }

    /// Plays `action`, reading the system clock when the game has a clock.
    pub fn try_do_action(&mut self, action: TakAction) -> (r: Result<(), TakInvalidActionError>)
        requires
            old(self).wf(),
            action_fits(*old(self)),
        ensures
            exists|now: TakTimestamp| action_outcome(*old(self), *final(self), action, now, r),
            final(self).wf(),
    {
        let now = if self.clock.is_some() {
            TakTimestamp::now()
        } else {
            TakTimestamp { millis: 0 }
        };
        self.try_do_action_at(action, now)
    }
}

/// What checking for a timeout at `now` does: if the player to move has no
/// time left at `now`, the opponent wins on time and the mover's time is set
/// to 0; else if the opponent's recorded time is 0, the mover wins on time.
/// Gives whether the game ended. Nothing happens to a finished game or one
/// without a clock.
pub open spec fn timeout_outcome(g: TakGame, g2: TakGame, now: TakTimestamp, r: bool) -> bool {
    if g.game_state != TakGameState::Ongoing {
        !r && g2 == g
    } else {
        match g.clock {
            None => !r && g2 == g,
            Some(c) => if remaining_at(c, g.current_player, now) == 0 {
                &&& r
                &&& g2.game_state == TakGameState::Win(
                    TakPlayer::opponent(g.current_player),
                    TakWinReason::Timeout,
                )
                &&& g2.clock matches Some(c2) && c2.time_remaining_millis@ == c.time_remaining_millis@.update(
                    TakPlayer::idx(g.current_player),
                    0,
                ) && c2.increment_millis == c.increment_millis && c2.last_update_timestamp
                    == c.last_update_timestamp
                &&& g2 == TakGame { game_state: g2.game_state, clock: g2.clock, ..g }
            } else if c.time_remaining_millis@[TakPlayer::idx(TakPlayer::opponent(g.current_player))] == 0 {
                &&& r
                &&& g2 == TakGame {
                    game_state: TakGameState::Win(g.current_player, TakWinReason::Timeout),
                    ..g
                }
            } else {
                !r && g2 == g
            },
        }
    }
}

/// What setting `player`'s time left to `t` does: nothing without a clock;
/// with one, the time is set and a timeout is checked at some reading of
/// the clock.
pub open spec fn time_set(g: TakGame, g2: TakGame, player: TakPlayer, t: u64) -> bool {
    match g.clock {
        None => g2 == g,
        Some(c) => exists|g1: TakGame, now: TakTimestamp, out: bool|
            g1.clock matches Some(c1) && c1.time_remaining_millis@ == c.time_remaining_millis@.update(
                TakPlayer::idx(player),
                t,
            ) && c1.increment_millis == c.increment_millis && c1.last_update_timestamp
                == c.last_update_timestamp && g1 == TakGame { clock: g1.clock, ..g }
                && #[trigger] timeout_outcome(g1, g2, now, out),
    }
}

/// The ply index a TPS position stands for.
pub open spec fn tps_ply(t: TakTps) -> int {
    t.move_index * 2 + if t.player == TakPlayer::White {
        0int
    } else {
        1int
    }
}

/// The board a settings' start position reads as, when it is a consistent
/// board of the settings' size: every stack holds a piece and the piece
/// count fits.
pub open spec fn start_board(s: TakGameSettings) -> Option<(Seq<Option<StackView>>, nat)> {
    match read_board(s.start_position.position@) {
        Some((w, cells, count)) => if w == s.size && count <= usize::MAX && count == total_pieces(cells)
            && (forall|i: int| 0 <= i < cells.len() ==> (#[trigger] cells[i] matches Some(st) ==> st.1.len() > 0)) {
            Some((cells, count))
        } else {
            None
        },
        None => None,
    }
}

/// Whether a game can start from the settings: a size from 3 to 8, a
/// consistent start board, and no more pieces of either player on it than
/// the reserves hold.
pub open spec fn settings_ok(s: TakGameSettings) -> bool {
    &&& 3 <= s.size <= 8
    &&& start_board(s) matches Some((cells, count)) && {
        let w = board_stones(cells, TakPlayer::White, cells.len() as int);
        let b = board_stones(cells, TakPlayer::Black, cells.len() as int);
        w.0 <= s.stones.stones && w.1 <= s.stones.capstones && b.0 <= s.stones.stones && b.1
            <= s.stones.capstones
    }
}

/// The limits starting a game needs: the ply index and the clock's
/// milliseconds fit.
pub open spec fn settings_fit(s: TakGameSettings) -> bool {
    &&& s.start_position.move_index * 2 + 1 <= usize::MAX
    &&& s.time_mode matches Some(m) ==> m.time * 1000 <= u64::MAX && m.increment * 1000 <= u64::MAX
}

/// Whether `g` is the game that starts from settings `s`.
pub open spec fn started(s: TakGameSettings, g: TakGame) -> bool {
    let cells = start_board(s).unwrap().0;
    let w = board_stones(cells, TakPlayer::White, cells.len() as int);
    let b = board_stones(cells, TakPlayer::Black, cells.len() as int);
    &&& g.settings == s
    &&& g.board.cells() == cells
    &&& g.board.size == s.size
    &&& g.board.wf()
    &&& g.current_player == s.start_position.player
    &&& g.ply_index == tps_ply(s.start_position)
    &&& g.action_history@.len() == 0
    &&& g.hands@ == seq![
        TakHand { stones: (s.stones.stones - w.0) as usize, capstones: (s.stones.capstones - w.1) as usize },
        TakHand { stones: (s.stones.stones - b.0) as usize, capstones: (s.stones.capstones - b.1) as usize },
    ]
    &&& g.game_state == TakGameState::Ongoing
    &&& match s.time_mode {
        Some(m) => g.clock matches Some(c) && c.time_remaining_millis@ == seq![
            (m.time * 1000) as u64,
            (m.time * 1000) as u64,
        ] && c.increment_millis == m.increment * 1000 && c.last_update_timestamp is None,
        None => g.clock is None,
    }
}

impl TakGame {
    /// A game starting from the settings: `None` unless the size is from 3
    /// to 8, the start position reads as a consistent board of that size, and
    /// neither player has more pieces on it than the reserves hold.
    pub fn new(settings: TakGameSettings) -> (r: Option<Self>)
        requires
            settings_fit(settings),
        ensures
            r is Some <==> settings_ok(settings),
            r matches Some(g) ==> started(settings, g),
    {
        let size = settings.size;
        if size < 3 || size > 8 {
            return None;
        }
        let board = match TakBoard::try_from_partial_tps(settings.start_position.position.as_str()) {
            Some(b) => b,
            None => {
                proof {
                    if read_board(settings.start_position.position@) is Some {
                        crate::board_text::lemma_read_board_len(settings.start_position.position@);
                        let w = read_board(settings.start_position.position@).unwrap().0;
                        if w <= 8 {
                            assert(w * w <= 64) by (nonlinear_arith)
                                requires
                                    w <= 8,
                            ;
                        }
                    }
                }
                return None;
            },
        };
        if board.size != size {
            return None;
        }
        if !board.is_well_formed() {
            proof {
                if settings_ok(settings) {
                    assert(board.id_counter == total_pieces(board.cells()));
                    assert(board.wf());
                }
            }
            return None;
        }
        let white_stones = board.count_stones(TakPlayer::White);
        let black_stones = board.count_stones(TakPlayer::Black);
        if white_stones.0 > settings.stones.stones || white_stones.1 > settings.stones.capstones
            || black_stones.0 > settings.stones.stones || black_stones.1 > settings.stones.capstones {
            return None;
        }
        let hands = [
            TakHand::new(settings.stones.stones - white_stones.0, settings.stones.capstones - white_stones.1),
            TakHand::new(settings.stones.stones - black_stones.0, settings.stones.capstones - black_stones.1),
        ];
        let clock = match &settings.time_mode {
            Some(mode) => Some(TakClock::new(mode)),
            None => None,
        };
        let current_player = settings.start_position.player;
        let ply_index = settings.start_position.get_ply_index();
        let g = TakGame {
            board,
            current_player,
            ply_index,
            action_history: Vec::new(),
            hands,
            game_state: TakGameState::Ongoing,
            clock,
            settings,
        };
        assert(g.hands@ =~= seq![hands[0], hands[1]]);
        Some(g)
    }

    /// Checks for a timeout with the clock reading `now`; gives whether the
    /// game ended.
    pub fn check_timeout_at(&mut self, now: TakTimestamp) -> (r: bool)
        ensures
            timeout_outcome(*old(self), *final(self), now, r),
    {
        if self.game_state != TakGameState::Ongoing {
            return false;
        }
        let current = self.current_player;
        let ghost g0 = *self;
        let (out_now, out_other) = match &self.clock {
            Some(clock) => (
                clock.get_time_remaining_at(current, now) == 0,
                clock.get_time_remaining(current.other(), false) == 0,
            ),
            None => (false, false),
        };
        if out_now {
            self.game_state = TakGameState::Win(current.other(), TakWinReason::Timeout);
            match &mut self.clock {
                Some(clock) => clock.set_time_remaining(current, 0),
                None => {},
            }
            return true;
        } else if out_other {
            self.game_state = TakGameState::Win(current, TakWinReason::Timeout);
            return true;
        }
        false
    }

    /// Checks for a timeout by the system clock; gives whether the game ended.
    pub fn check_timeout(&mut self) -> (r: bool)
        ensures
            exists|now: TakTimestamp| timeout_outcome(*old(self), *final(self), now, r),
    {
        let now = if self.clock.is_some() && self.game_state == TakGameState::Ongoing {
            TakTimestamp::now()
        } else {
            TakTimestamp { millis: 0 }
        };
        self.check_timeout_at(now)
    }

    /// Ends an ongoing game with `winner` winning on time: first checks for a
    /// timeout; if the game is still on, `winner` wins and the opponent's time
    /// is set to 0.
    pub fn abort(&mut self, winner: TakPlayer)
        ensures
            exists|g1: TakGame, now: TakTimestamp, t: bool|
                #[trigger] timeout_outcome(*old(self), g1, now, t) && if g1.game_state != TakGameState::Ongoing {
                    *final(self) == g1
                } else {
                    &&& final(self).game_state == TakGameState::Win(winner, TakWinReason::Timeout)
                    &&& match g1.clock {
                        Some(c) => final(self).clock matches Some(c2) && c2.time_remaining_millis@
                            == c.time_remaining_millis@.update(TakPlayer::idx(TakPlayer::opponent(winner)), 0)
                            && c2.increment_millis == c.increment_millis && c2.last_update_timestamp
                            == c.last_update_timestamp,
                        None => final(self).clock is None,
                    }
                    &&& *final(self) == TakGame {
                        game_state: final(self).game_state,
                        clock: final(self).clock,
                        ..g1
                    }
                },
    {
        self.check_timeout();
        if self.game_state != TakGameState::Ongoing {
            return;
        }
        self.game_state = TakGameState::Win(winner, TakWinReason::Timeout);
        match &mut self.clock {
            Some(clock) => clock.set_time_remaining(winner.other(), 0),
            None => {},
        }
    }

    /// Sets `player`'s time left when the game has a clock, then checks for a timeout.
    pub fn set_time_remaining(&mut self, player: TakPlayer, time_remaining: u64)
        ensures
            time_set(*old(self), *final(self), player, time_remaining),
    {
        let has_clock = match &mut self.clock {
            Some(clock) => {
                clock.set_time_remaining(player, time_remaining);
                true
            },
            None => false,
        };
        if has_clock {
            let ghost g1 = *self;
            self.check_timeout();
        }
    }

    /// `player`'s time left, when the game has a clock: as of the last
    /// update, or with `apply_elapsed` as of now by the system clock.
    pub fn get_time_remaining(&self, player: TakPlayer, apply_elapsed: bool) -> (r: Option<u64>)
        ensures
            match self.clock {
                None => r is None,
                Some(c) => r matches Some(t) && (!apply_elapsed ==> t == c.time_remaining_millis@[TakPlayer::idx(player)])
                    && (apply_elapsed ==> exists|now: TakTimestamp| t == remaining_at(c, player, now)),
            },
    {
        match &self.clock {
            Some(clock) => Some(clock.get_time_remaining(player, apply_elapsed)),
            None => None,
        }
    }

    /// Starts the game over from its settings.
    pub fn reset(&mut self)
        requires
            settings_ok(old(self).settings),
            settings_fit(old(self).settings),
        ensures
            started(old(self).settings, *final(self)),
    {
        let settings = self.settings.duplicate();
        match TakGame::new(settings) {
            Some(g) => {
                *self = g;
            },
            None => {},
        }
    }

    /// The position in TPS: the board and the ply.
    pub fn to_tps(&self) -> (r: TakTps)
        requires
            self.wf(),
        ensures
            r.position@ == board_tps(self.board),
            r.player == ply_player(self.ply_index as nat),
            r.move_index == self.ply_index / 2,
    {
        TakTps::new(self.board.to_partial_tps(), self.ply_index)
    }
}

/// Whether every position in the action history can be written in PTN.
pub open spec fn history_writable(h: Seq<TakActionRecord>) -> bool {
    forall|i: int|
        0 <= i < h.len() ==> match #[trigger] h[i] {
            TakActionRecord::PlacePiece { pos, .. } => ptn_writable(pos),
            TakActionRecord::MovePiece { pos, .. } => ptn_writable(pos),
        }
}

/// The header a game's PTN starts with: size, komi, flats and capstones,
/// then the clock when there is one, then the start position unless it is
/// the empty board.
pub open spec fn header_ok(g: TakGame, attrs: Seq<TakPtnAttr>) -> bool {
    let t = g.settings.start_position;
    let empty_start = t.position@ == crate::tps::empty_rows(g.board.size as nat, g.board.size as nat) && t.player
        == TakPlayer::White && t.move_index == 0;
    let base = seq![
        TakPtnAttr::Size(g.board.size),
        TakPtnAttr::Komi(g.settings.komi.amount, g.settings.komi.tiebreak),
        TakPtnAttr::Flats(g.settings.stones.stones),
        TakPtnAttr::Caps(g.settings.stones.capstones),
    ];
    let with_clock = match g.settings.time_mode {
        Some(m) => base.push(TakPtnAttr::Clock(m.time, m.increment)),
        None => base,
    };
    if empty_start {
        attrs == with_clock
    } else {
        attrs.len() == with_clock.len() + 1 && attrs.take(with_clock.len() as int) == with_clock
            && attrs.last() == TakPtnAttr::TPS(t)
    }
}

impl TakGame {
    /// Whether the limits an action needs hold.
    pub fn fits(&self) -> (r: bool)
        ensures
            r == action_fits(*self),
    {
        if self.ply_index == usize::MAX || self.board.id_counter == usize::MAX {
            return false;
        }
        let sz = self.board.size;
        if sz > 0 && sz > usize::MAX / sz {
            proof {
                assert(sz * sz > usize::MAX) by (nonlinear_arith)
                    requires
                        sz > 0,
                        sz > usize::MAX / sz,
                ;
            }
            return false;
        }
        proof {
            if sz > 0 {
                assert(sz * sz <= usize::MAX) by (nonlinear_arith)
                    requires
                        sz > 0,
                        sz <= usize::MAX / sz,
                ;
            }
        }
        if self.settings.komi.amount > usize::MAX - sz * sz {
            return false;
        }
        match &self.clock {
            Some(c) => c.time_remaining_millis[self.current_player.index()] <= u64::MAX - c.increment_millis,
            None => true,
        }
    }

    /// The PTN of a game with the first `n` actions of its history and the
    /// state `state`.
    fn ptn_with(&self, n: usize, state: TakGameState) -> (r: TakPtn)
        requires
            n <= self.action_history@.len(),
            history_writable(self.action_history@),
            self.settings.start_position.move_index / 2 + self.action_history@.len() + 1 <= usize::MAX,
        ensures
            header_ok(*self, r.attributes@),
            crate::ptn::turns_view(r.turns@) == turns_of(
                self.action_history@.take(n as int).map_values(|a: TakActionRecord| record_ptn(a)),
                self.settings.start_position.move_index as nat,
            ),
            r.game_state == state,
    {
        let mut turns: Vec<String> = Vec::new();
        for k in 0..n
            invariant
                n <= self.action_history@.len(),
                history_writable(self.action_history@),
                turns@.len() == k,
                forall|j: int| 0 <= j < k ==> #[trigger] turns@[j]@ == record_ptn(self.action_history@[j]),
        {
            let t = self.action_history[k].to_ptn();
            turns.push(t);
        }
        proof {
            assert(turns@.map_values(|t: String| t@) =~= self.action_history@.take(n as int).map_values(
                |a: TakActionRecord| record_ptn(a),
            ));
        }
        let mut attributes: Vec<TakPtnAttr> = Vec::new();
        attributes.push(TakPtnAttr::Size(self.board.size));
        attributes.push(TakPtnAttr::Komi(self.settings.komi.amount, self.settings.komi.tiebreak));
        attributes.push(TakPtnAttr::Flats(self.settings.stones.stones));
        attributes.push(TakPtnAttr::Caps(self.settings.stones.capstones));
        match &self.settings.time_mode {
            Some(m) => attributes.push(TakPtnAttr::Clock(m.time, m.increment)),
            None => {},
        }
        let ghost with_clock = attributes@;
        proof {
            let base = seq![
                TakPtnAttr::Size(self.board.size),
                TakPtnAttr::Komi(self.settings.komi.amount, self.settings.komi.tiebreak),
                TakPtnAttr::Flats(self.settings.stones.stones),
                TakPtnAttr::Caps(self.settings.stones.capstones),
            ];
            match self.settings.time_mode {
                Some(m) => assert(with_clock =~= base.push(TakPtnAttr::Clock(m.time, m.increment))),
                None => assert(with_clock =~= base),
            }
        }
        let empty = TakTps::new_empty(self.board.size);
        let pc = crate::text::str_chars(self.settings.start_position.position.as_str());
        let ec = crate::text::str_chars(empty.position.as_str());
        let same = crate::text::chars_eq(pc.as_slice(), ec.as_slice()) && self.settings.start_position.player
            == TakPlayer::White && self.settings.start_position.move_index == 0;
        if !same {
            attributes.push(TakPtnAttr::TPS(self.settings.start_position.duplicate()));
            assert(attributes@.take(with_clock.len() as int) =~= with_clock);
        }
        let mut ptn = TakPtn::new(turns, self.settings.start_position.move_index, state);
        ptn.attributes = attributes;
        ptn
    }

    /// The game in PTN: its header, the actions played and its state.
    pub fn to_ptn(&self) -> (r: TakPtn)
        requires
            history_writable(self.action_history@),
            self.settings.start_position.move_index / 2 + self.action_history@.len() + 1 <= usize::MAX,
        ensures
            header_ok(*self, r.attributes@),
            crate::ptn::turns_view(r.turns@) == turns_of(
                self.action_history@.map_values(|a: TakActionRecord| record_ptn(a)),
                self.settings.start_position.move_index as nat,
            ),
            r.game_state == self.game_state,
    {
        let r = self.ptn_with(self.action_history.len(), self.game_state);
        assert(self.action_history@.take(self.action_history@.len() as int) =~= self.action_history@);
        r
    }
}

/// Whether `g2` is `g` after playing `acts` in order, each one succeeding,
/// whatever the clock read at each.
pub open spec fn replayed(g: TakGame, acts: Seq<TakAction>, g2: TakGame) -> bool
    decreases acts.len(),
{
    if acts.len() == 0 {
        g2 == g
    } else {
        exists|g1: TakGame, now: TakTimestamp, r: Result<(), TakInvalidActionError>|
            r is Ok && #[trigger] action_outcome(g, g1, acts[0], now, r) && replayed(g1, acts.drop_first(), g2)
    }
}

/// Playing one more action after a replay extends the replay.
pub proof fn lemma_replayed_push(
    g: TakGame,
    acts: Seq<TakAction>,
    gm: TakGame,
    a: TakAction,
    g2: TakGame,
    now: TakTimestamp,
    r: Result<(), TakInvalidActionError>,
)
    requires
        replayed(g, acts, gm),
        r is Ok,
        action_outcome(gm, g2, a, now, r),
    ensures
        replayed(g, acts.push(a), g2),
    decreases acts.len(),
{
    if acts.len() == 0 {
        assert(acts.push(a).drop_first() =~= Seq::<TakAction>::empty());
        assert(gm == g);
        assert(replayed(g2, acts.push(a).drop_first(), g2));
        assert(action_outcome(g, g2, acts.push(a)[0], now, r));
    } else {
        let (g1, n1, r1) = choose|g1: TakGame, now: TakTimestamp, r: Result<(), TakInvalidActionError>|
            r is Ok && #[trigger] action_outcome(g, g1, acts[0], now, r) && replayed(g1, acts.drop_first(), gm);
        lemma_replayed_push(g1, acts.drop_first(), gm, a, g2, now, r);
        assert(acts.push(a).drop_first() =~= acts.drop_first().push(a));
        assert(replayed(g1, acts.push(a).drop_first(), g2));
        assert(action_outcome(g, g1, acts.push(a)[0], n1, r1));
    }
}

/// The move texts of the turns, in order, when only the first turn lacks
/// White's move and only the last lacks Black's.
pub open spec fn move_texts(tv: Seq<(usize, Option<Seq<char>>, Option<Seq<char>>)>, k: int) -> Option<Seq<Seq<char>>>
    decreases k,
{
    if k <= 0 {
        Some(Seq::empty())
    } else {
        match move_texts(tv, k - 1) {
            None => None,
            Some(prev) => {
                let t = tv[k - 1];
                let i = k - 1;
                let w = match t.1 {
                    Some(x) => Some(prev.push(x)),
                    None => if i != 0 {
                        None
                    } else {
                        Some(prev)
                    },
                };
                match w {
                    None => None,
                    Some(p2) => match t.2 {
                        Some(x) => Some(p2.push(x)),
                        None => if i != tv.len() - 1 {
                            None
                        } else {
                            Some(p2)
                        },
                    },
                }
            },
        }
    }
}

/// Whether `acts` are the actions the texts stand for on a board of `size`.
pub open spec fn actions_read(size: int, texts: Seq<Seq<char>>, acts: Seq<TakAction>) -> bool {
    acts.len() == texts.len() && forall|j: int|
        0 <= j < texts.len() ==> ptn_action(size, #[trigger] texts[j]) == Some(action_spec(acts[j]))
}

/// What the header of a PTN needs to start a game without exceeding a
/// limit: a size from 3 to 8 when size and komi are given, a start move that
/// fits, and a clock whose milliseconds fit.
pub open spec fn header_fits(attrs: Seq<TakPtnAttr>) -> bool {
    let h = header_scan(attrs, attrs.len() as int);
    &&& h.0 is Some && h.1 is Some ==> 3 <= h.0.unwrap() <= 8
    &&& h.5 matches Some(t) ==> t.move_index * 2 + 1 <= usize::MAX
    &&& h.4 matches Some((t, i)) ==> t * 1000 <= u64::MAX && i * 1000 <= u64::MAX
}

/// Whether `g` is the game a PTN replays to: a game started from some
/// settings, with the actions its move texts stand for played in order, and
/// the PTN's result (one on time taken as given).
pub open spec fn replays_ptn(ptn: TakPtn, g: TakGame) -> bool {
    exists|st: TakGameSettings, g0: TakGame, texts: Seq<Seq<char>>, acts: Seq<TakAction>, gend: TakGame|
        #![trigger started(st, g0), actions_read(st.size as int, texts, acts), replayed(g0, acts, gend)]
        started(st, g0) && move_texts(crate::ptn::turns_view(ptn.turns@), ptn.turns@.len() as int) == Some(texts)
            && actions_read(st.size as int, texts, acts) && replayed(g0, acts, gend) && (
        if ptn.game_state matches TakGameState::Win(_, TakWinReason::Timeout) {
            g == TakGame { game_state: ptn.game_state, ..gend }
        } else {
            g == gend && gend.game_state == ptn.game_state
        })
}

/// Whether a move text of turn `i` does not read as an action on a board of
/// `size`.
pub open spec fn text_unread(size: int, tv: Seq<(usize, Option<Seq<char>>, Option<Seq<char>>)>, i: int) -> bool {
    ||| tv[i].1 matches Some(w) && ptn_action(size, w) is None
    ||| tv[i].2 matches Some(b) && ptn_action(size, b) is None
}

/// Whether a replay of `acts` from `g0` gets stuck at the action at `k`:
/// the first `k` actions play to `gk`, and there the action would exceed a
/// limit or is refused.
pub open spec fn replay_stuck(g0: TakGame, acts: Seq<TakAction>, k: int, gk: TakGame) -> bool {
    &&& 0 <= k < acts.len()
    &&& replayed(g0, acts.take(k), gk)
    &&& !action_fits(gk) || exists|g2: TakGame, now: TakTimestamp, e: TakInvalidActionError|
        #[trigger] action_outcome(gk, g2, acts[k], now, Err(e))
}

/// Whether replaying a PTN is refused: the header gives no size or komi, no
/// game starts from its settings, a turn lacks a move where it may not, a
/// move text does not read, the replay gets stuck at an action, or the
/// replay ends in a state other than the PTN's result (one on time is taken
/// as given).
pub open spec fn ptn_refused(ptn: TakPtn) -> bool {
    let attrs = ptn.attributes@;
    let h = header_scan(attrs, attrs.len() as int);
    let tv = crate::ptn::turns_view(ptn.turns@);
    let n = ptn.turns@.len() as int;
    ||| h.0 is None || h.1 is None
    ||| move_texts(tv, n) is None
    ||| exists|st: TakGameSettings| #[trigger] header_settings(attrs, st) && !settings_ok(st)
    ||| exists|st: TakGameSettings, i: int|
        #[trigger] header_settings(attrs, st) && 0 <= i < n && #[trigger] text_unread(st.size as int, tv, i)
    ||| exists|st: TakGameSettings, g0: TakGame, texts: Seq<Seq<char>>, acts: Seq<TakAction>, k: int, gk: TakGame|
        #![trigger started(st, g0), actions_read(st.size as int, texts, acts), replay_stuck(g0, acts, k, gk)]
        header_settings(attrs, st) && started(st, g0) && move_texts(tv, n) == Some(texts) && actions_read(
            st.size as int,
            texts,
            acts,
        ) && replay_stuck(g0, acts, k, gk)
    ||| exists|st: TakGameSettings, g0: TakGame, texts: Seq<Seq<char>>, acts: Seq<TakAction>, gend: TakGame|
        #![trigger started(st, g0), actions_read(st.size as int, texts, acts), replayed(g0, acts, gend)]
        header_settings(attrs, st) && started(st, g0) && move_texts(tv, n) == Some(texts) && actions_read(
            st.size as int,
            texts,
            acts,
        ) && replayed(g0, acts, gend) && !(ptn.game_state matches TakGameState::Win(_, TakWinReason::Timeout))
            && gend.game_state != ptn.game_state
}

impl TakGame {
    /// Replays a PTN: starts a game from its header and plays its turns in
    /// order. `None` when the header gives no settings or no game starts from
    /// them, a turn lacks a move where it may not, a move does not read or is
    /// refused, a limit of an action would be exceeded, or the result differs
    /// from the game's state (a result on time is taken as given).
    pub fn try_from_ptn(ptn: TakPtn) -> (r: Option<Self>)
        requires
            header_fits(ptn.attributes@),
        ensures
            r matches Some(g) ==> replays_ptn(ptn, g) && g.wf(),
            header_scan(ptn.attributes@, ptn.attributes@.len() as int).0 is None ==> r is None,
            header_scan(ptn.attributes@, ptn.attributes@.len() as int).1 is None ==> r is None,
            move_texts(crate::ptn::turns_view(ptn.turns@), ptn.turns@.len() as int) is None ==> r is None,
            r is None ==> ptn_refused(ptn),
    {
        let settings = match ptn.get_settings() {
            Some(s) => s,
            None => {
                return None;
            },
        };
        let ghost st = settings;
        let mut game = match TakGame::new(settings) {
            Some(g) => g,
            None => {
                assert(header_settings(ptn.attributes@, st) && !settings_ok(st));
                return None;
            },
        };
        let ghost g0 = game;
        let size = game.board.size as i32;
        let ghost tv = crate::ptn::turns_view(ptn.turns@);
        let n = ptn.turns.len();
        let mut actions: Vec<TakAction> = Vec::new();
        let ghost mut texts: Seq<Seq<char>> = Seq::empty();
        for i in 0..n
            invariant
                n == ptn.turns@.len(),
                tv == crate::ptn::turns_view(ptn.turns@),
                3 <= size <= 8,
                size == st.size,
                header_settings(ptn.attributes@, st),
                move_texts(tv, i as int) == Some(texts),
                actions_read(size as int, texts, actions@),
        {
            let t = &ptn.turns[i];
            assert(tv[i as int] == crate::ptn::turn_view(*t));
            match &t.1 {
                Some(w) => match TakAction::from_ptn(size, w.as_str()) {
                    Some(a) => {
                        proof {
                            texts = texts.push(w@);
                        }
                        actions.push(a);
                    },
                    None => {
                        assert(tv[i as int].1 == Some(w@));
                        assert(text_unread(st.size as int, tv, i as int));
                        return None;
                    },
                },
                None => {
                    if i != 0 {
                        proof {
                            lemma_move_texts_none(tv, i + 1, n as int);
                        }
                        return None;
                    }
                },
            }
            match &t.2 {
                Some(b) => match TakAction::from_ptn(size, b.as_str()) {
                    Some(a) => {
                        proof {
                            texts = texts.push(b@);
                        }
                        actions.push(a);
                    },
                    None => {
                        assert(tv[i as int].2 == Some(b@));
                        assert(text_unread(st.size as int, tv, i as int));
                        return None;
                    },
                },
                None => {
                    if i != n - 1 {
                        proof {
                            lemma_move_texts_none(tv, i + 1, n as int);
                        }
                        return None;
                    }
                },
            }
        }
        let ghost acts = actions@;
        let m = actions.len();
        for k in 0..m
            invariant
                m == acts.len(),
                actions@ == acts.skip(k as int),
                game.wf(),
                replayed(g0, acts.take(k as int), game),
                header_settings(ptn.attributes@, st),
                started(st, g0),
                size == st.size,
                move_texts(tv, n as int) == Some(texts),
                actions_read(size as int, texts, acts),
                tv == crate::ptn::turns_view(ptn.turns@),
                n == ptn.turns@.len(),
        {
            if !game.fits() {
                assert(replay_stuck(g0, acts, k as int, game));
                return None;
            }
            let a = actions.remove(0);
            assert(a == acts[k as int]);
            let ghost gm = game;
            let res = game.try_do_action(a);
            if res.is_err() {
                proof {
                    let now = choose|now: TakTimestamp| action_outcome(gm, game, acts[k as int], now, res);
                    assert(action_outcome(gm, game, acts[k as int], now, Err(res->Err_0)));
                    assert(replay_stuck(g0, acts, k as int, gm));
                }
                return None;
            }
            proof {
                let now = choose|now: TakTimestamp| action_outcome(gm, game, acts[k as int], now, res);
                lemma_replayed_push(g0, acts.take(k as int), gm, acts[k as int], game, now, res);
                assert(acts.take(k as int).push(acts[k as int]) =~= acts.take(k + 1));
                assert(acts.skip(k as int).drop_first() =~= acts.skip(k + 1));
            }
        }
        assert(acts.take(m as int) =~= acts);
        let ghost gend = game;
        let timeout = match ptn.game_state {
            TakGameState::Win(_, TakWinReason::Timeout) => true,
            _ => false,
        };
        if timeout {
            game.game_state = ptn.game_state;
        } else if ptn.game_state != game.game_state {
            assert(replayed(g0, acts, gend));
            return None;
        }
        Some(game)
    }
}

/// Once a turn lacks a move where it may not, the texts do not read.
proof fn lemma_move_texts_none(tv: Seq<(usize, Option<Seq<char>>, Option<Seq<char>>)>, k: int, j: int)
    requires
        0 <= k <= j,
        move_texts(tv, k) is None,
    ensures
        move_texts(tv, j) is None,
    decreases j - k,
{
    if k < j {
        lemma_move_texts_none(tv, k, j - 1);
    }
}

/// The header a game writes reads back to the game's settings.
pub proof fn law_header_round_trip(g: TakGame, attrs: Seq<TakPtnAttr>)
    requires
        header_ok(g, attrs),
        g.board.size == g.settings.size,
    ensures
        header_settings(attrs, g.settings),
{
    lemma_header_scan(g, attrs);
}

/// The header of a game's PTN gives its size, komi, reserves, clock and
/// start position.
proof fn lemma_header_scan(g: TakGame, attrs: Seq<TakPtnAttr>)
    requires
        header_ok(g, attrs),
    ensures
        header_scan(attrs, attrs.len() as int).0 == Some(g.board.size),
        header_scan(attrs, attrs.len() as int).1 is Some,
        header_scan(attrs, attrs.len() as int).1 == Some((g.settings.komi.amount, g.settings.komi.tiebreak)),
        header_scan(attrs, attrs.len() as int).2 == Some(g.settings.stones.stones),
        header_scan(attrs, attrs.len() as int).3 == Some(g.settings.stones.capstones),
        header_scan(attrs, attrs.len() as int).5 is None ==> g.settings.start_position.position@
            == crate::tps::empty_rows(g.board.size as nat, g.board.size as nat) && g.settings.start_position.player
            == TakPlayer::White && g.settings.start_position.move_index == 0,
        header_scan(attrs, attrs.len() as int).4 == (match g.settings.time_mode {
            Some(m) => Some((m.time, m.increment)),
            None => None::<(usize, usize)>,
        }),
        header_scan(attrs, attrs.len() as int).5 matches Some(t) ==> t == g.settings.start_position,
{
    let t = g.settings.start_position;
    let base = seq![
        TakPtnAttr::Size(g.board.size),
        TakPtnAttr::Komi(g.settings.komi.amount, g.settings.komi.tiebreak),
        TakPtnAttr::Flats(g.settings.stones.stones),
        TakPtnAttr::Caps(g.settings.stones.capstones),
    ];
    let wc = match g.settings.time_mode {
        Some(m) => base.push(TakPtnAttr::Clock(m.time, m.increment)),
        None => base,
    };
    assert forall|i: int| 0 <= i < wc.len() implies attrs[i] == wc[i] by {
        if attrs.len() != wc.len() {
            assert(attrs.take(wc.len() as int)[i] == attrs[i]);
        }
    }
    assert(attrs[0] == TakPtnAttr::Size(g.board.size));
    let sz = g.board.size;
    let km = (g.settings.komi.amount, g.settings.komi.tiebreak);
    let fl = g.settings.stones.stones;
    let cp = g.settings.stones.capstones;
    assert(header_scan(attrs, 0) == (None::<usize>, None::<(usize, bool)>, None::<usize>, None::<usize>, None::<(usize, usize)>, None::<TakTps>));
    assert(header_scan(attrs, 1) == (Some(sz), None::<(usize, bool)>, None::<usize>, None::<usize>, None::<(usize, usize)>, None::<TakTps>));
    assert(attrs[1] == TakPtnAttr::Komi(km.0, km.1));
    assert(header_scan(attrs, 2) == (Some(sz), Some(km), None::<usize>, None::<usize>, None::<(usize, usize)>, None::<TakTps>));
    assert(attrs[2] == TakPtnAttr::Flats(fl));
    assert(header_scan(attrs, 3) == (Some(sz), Some(km), Some(fl), None::<usize>, None::<(usize, usize)>, None::<TakTps>));
    assert(attrs[3] == TakPtnAttr::Caps(cp));
    assert(header_scan(attrs, 4) == (Some(sz), Some(km), Some(fl), Some(cp), None::<(usize, usize)>, None::<TakTps>));
    match g.settings.time_mode {
        Some(m) => {
            assert(attrs[4] == TakPtnAttr::Clock(m.time, m.increment));
            assert(header_scan(attrs, 5) == (Some(sz), Some(km), Some(fl), Some(cp), Some((m.time, m.increment)), None::<TakTps>));
        },
        None => {},
    }
    if attrs.len() > wc.len() {
        assert(attrs[wc.len() as int] == TakPtnAttr::TPS(t));
        let h = header_scan(attrs, wc.len() as int);
        assert(header_scan(attrs, attrs.len() as int) == (h.0, h.1, h.2, h.3, h.4, Some(t)));
    }
}

/// Whether `g2` is `g` as it stood at ply `ply_index`: the game a PTN
/// replays whose header is that of `g` and whose turns are the first
/// `ply_index` actions of `g`, with the state of `g` at its current ply and
/// ongoing before it.
pub open spec fn seeks(g: TakGame, ply_index: usize, g2: TakGame) -> bool {
    exists|p: TakPtn| #[trigger] replays_ptn(p, g2) && seek_ptn(g, ply_index, p)
}

/// Whether `p` is the PTN of `g` up to ply `ply_index`: the header of `g`,
/// the first `ply_index` actions of `g` as its turns, and the state of `g`
/// at its current ply or ongoing before it.
pub open spec fn seek_ptn(g: TakGame, ply_index: usize, p: TakPtn) -> bool {
    &&& header_ok(g, p.attributes@)
    &&& crate::ptn::turns_view(p.turns@) == turns_of(
        g.action_history@.take(
            if ply_index < g.action_history@.len() {
                ply_index as int
            } else {
                g.action_history@.len() as int
            },
        ).map_values(|a: TakActionRecord| record_ptn(a)),
        g.settings.start_position.move_index as nat,
    )
    &&& p.game_state == (if ply_index < g.ply_index {
        TakGameState::Ongoing
    } else {
        g.game_state
    })
}

impl TakGame {
    /// The game as it stood at ply `ply_index`, replayed from the start with
    /// the actions played before it; `None` past the current ply or when
    /// the replay fails. The game's state is kept at the current ply and
    /// reset to ongoing before it.
    pub fn seek_ply_index(&self, ply_index: usize) -> (r: Option<Self>)
        requires
            3 <= self.board.size <= 8,
            settings_fit(self.settings),
            history_writable(self.action_history@),
            self.settings.start_position.move_index / 2 + self.action_history@.len() + 1 <= usize::MAX,
        ensures
            ply_index > self.ply_index ==> r is None,
            r matches Some(g) ==> g.wf(),
            r matches Some(g) ==> seeks(*self, ply_index, g),
            ply_index <= self.ply_index && r is None ==> exists|p: TakPtn|
                #[trigger] seek_ptn(*self, ply_index, p) && ptn_refused(p),
    {
        if ply_index > self.ply_index {
            return None;
        }
        let state = if ply_index < self.ply_index {
            TakGameState::Ongoing
        } else {
            self.game_state
        };
        let n = if ply_index < self.action_history.len() {
            ply_index
        } else {
            self.action_history.len()
        };
        let ptn = self.ptn_with(n, state);
        let ghost p = ptn;
        proof {
            lemma_header_scan(*self, ptn.attributes@);
        }
        let r = TakGame::try_from_ptn(ptn);
        proof {
            assert(seek_ptn(*self, ply_index, p));
            if r is Some {
                assert(replays_ptn(p, r.unwrap()));
            }
        }
        r
    }
}

/// The name of a player as it is printed.
pub open spec fn player_name(p: TakPlayer) -> Seq<char> {
    match p {
        TakPlayer::White => "White"@,
        TakPlayer::Black => "Black"@,
    }
}

/// The message for a player's stone count that does not add up.
pub open spec fn stone_message(p: TakPlayer, on_board: nat, in_hand: nat, total: nat) -> Seq<char> {
    "Invalid stone count for "@ + player_name(p) + ": "@ + decimal_of(on_board) + " in board, "@ + decimal_of(in_hand)
        + " in hand, should be "@ + decimal_of(total)
}

/// The decimal text of a number.
pub open spec fn decimal_of(n: nat) -> Seq<char> {
    crate::text::decimal(n)
}

/// Whether a player's pieces on the board and in hand add up to the reserves.
pub open spec fn stones_add_up(g: TakGame, p: TakPlayer) -> bool {
    let c = board_stones(g.board.cells(), p, g.board.cells().len() as int);
    let h = g.hands@[TakPlayer::idx(p)];
    c.0 + h.stones == g.settings.stones.stones && c.1 + h.capstones == g.settings.stones.capstones
}

/// What `validate` reports for a game: the board's report first, then
/// whether the player to move matches the ply, whether each player's pieces
/// add up to the reserves, and whether the history is no longer than the
/// plies.
pub open spec fn game_validation(g: TakGame) -> Result<(), Seq<char>> {
    match crate::board_query::validation(g.board) {
        Err(m) => Err(m),
        Ok(()) => if TakPlayer::idx(g.current_player) != g.ply_index % 2 {
            Err(
                "Current player "@ + player_name(g.current_player) + " does not match ply index "@ + decimal_of(
                    g.ply_index as nat,
                ),
            )
        } else if !stones_add_up(g, TakPlayer::White) {
            let c = board_stones(g.board.cells(), TakPlayer::White, g.board.cells().len() as int);
            Err(stone_message(TakPlayer::White, c.0, g.hands@[0].stones as nat, g.settings.stones.stones as nat))
        } else if !stones_add_up(g, TakPlayer::Black) {
            let c = board_stones(g.board.cells(), TakPlayer::Black, g.board.cells().len() as int);
            Err(stone_message(TakPlayer::Black, c.0, g.hands@[1].stones as nat, g.settings.stones.stones as nat))
        } else if g.action_history@.len() > g.ply_index {
            Err(
                "Action history length "@ + decimal_of(g.action_history@.len()) + " exceeds turn index "@
                    + decimal_of(g.ply_index as nat),
            )
        } else {
            Ok(())
        },
    }
}

/// The printed name of a player.
fn player_str(p: TakPlayer) -> (r: &'static str)
    ensures
        r@ == player_name(p),
{
    match p {
        TakPlayer::White => "White",
        TakPlayer::Black => "Black",
    }
}

/// Whether `a + b == c`, in mathematical integers.
fn sum_is(a: usize, b: usize, c: usize) -> (r: bool)
    ensures
        r == (a + b == c),
{
    match a.checked_add(b) {
        Some(s) => s == c,
        None => false,
    }
}

impl TakGame {
    /// Checks that the game is consistent: the board validates, the player to
    /// move matches the ply, each player's pieces add up to the reserves, and
    /// the history is no longer than the plies. The error names the first
    /// problem found.
    pub fn validate(&self) -> (r: Result<(), String>)
        requires
            self.wf(),
        ensures
            match r {
                Ok(()) => game_validation(*self) is Ok,
                Err(m) => game_validation(*self) == Err::<(), Seq<char>>(m@),
            },
    {
        let _n = self.board.board.len();
        match self.board.validate() {
            Ok(()) => {},
            Err(m) => {
                return Err(m);
            },
        }
        if self.current_player.index() != self.ply_index % 2 {
            let mut m = String::new();
            crate::text::push_str(&mut m, "Current player ");
            crate::text::push_str(&mut m, player_str(self.current_player));
            crate::text::push_str(&mut m, " does not match ply index ");
            crate::text::push_decimal(&mut m, self.ply_index);
            return Err(m);
        }
        let stones = self.settings.stones;
        let w = self.board.count_stones(TakPlayer::White);
        if !sum_is(w.0, self.hands[0].stones, stones.stones) || !sum_is(w.1, self.hands[0].capstones, stones.capstones) {
            let mut m = String::new();
            crate::text::push_str(&mut m, "Invalid stone count for ");
            crate::text::push_str(&mut m, player_str(TakPlayer::White));
            crate::text::push_str(&mut m, ": ");
            crate::text::push_decimal(&mut m, w.0);
            crate::text::push_str(&mut m, " in board, ");
            crate::text::push_decimal(&mut m, self.hands[0].stones);
            crate::text::push_str(&mut m, " in hand, should be ");
            crate::text::push_decimal(&mut m, stones.stones);
            return Err(m);
        }
        let b = self.board.count_stones(TakPlayer::Black);
        if !sum_is(b.0, self.hands[1].stones, stones.stones) || !sum_is(b.1, self.hands[1].capstones, stones.capstones) {
            let mut m = String::new();
            crate::text::push_str(&mut m, "Invalid stone count for ");
            crate::text::push_str(&mut m, player_str(TakPlayer::Black));
            crate::text::push_str(&mut m, ": ");
            crate::text::push_decimal(&mut m, b.0);
            crate::text::push_str(&mut m, " in board, ");
            crate::text::push_decimal(&mut m, self.hands[1].stones);
            crate::text::push_str(&mut m, " in hand, should be ");
            crate::text::push_decimal(&mut m, stones.stones);
            return Err(m);
        }
        if self.action_history.len() > self.ply_index {
            let mut m = String::new();
            crate::text::push_str(&mut m, "Action history length ");
            crate::text::push_decimal(&mut m, self.action_history.len());
            crate::text::push_str(&mut m, " exceeds turn index ");
            crate::text::push_decimal(&mut m, self.ply_index);
            return Err(m);
        }
        Ok(())
    }
}


/// What an action record is: whether it is a move, its cell, the variant
/// and owner of a placed piece, and the direction, count, drops and
/// flattening of a move.
pub open spec fn record_view(r: TakActionRecord) -> (bool, TakCoord, TakPieceVariant, TakPlayer, TakDir, usize, Seq<usize>, bool) {
    match r {
        TakActionRecord::PlacePiece { pos, variant, player } => (
            false,
            pos,
            variant,
            player,
            TakDir::Up,
            0,
            Seq::empty(),
            false,
        ),
        TakActionRecord::MovePiece { pos, dir, take, drops, flattened } => (
            true,
            pos,
            TakPieceVariant::Flat,
            TakPlayer::White,
            dir,
            take,
            drops@,
            flattened,
        ),
    }
}

/// What a game is, through the views of its parts.
pub open spec fn game_view(g: TakGame) -> (
    TakGameSettings,
    usize,
    Seq<Option<StackView>>,
    usize,
    usize,
    TakPlayer,
    usize,
    Seq<(bool, TakCoord, TakPieceVariant, TakPlayer, TakDir, usize, Seq<usize>, bool)>,
    [TakHand; 2],
    TakGameState,
    Option<TakClock>,
) {
    (
        g.settings,
        g.board.size,
        g.board.cells(),
        g.board.id_counter,
        g.board.empty_spaces,
        g.current_player,
        g.ply_index,
        g.action_history@.map_values(|r: TakActionRecord| record_view(r)),
        g.hands,
        g.game_state,
        g.clock,
    )
}

/// A copy of an action record.
pub fn copy_record(r: &TakActionRecord) -> (c: TakActionRecord)
    ensures
        record_view(c) == record_view(*r),
{
    match r {
        TakActionRecord::PlacePiece { pos, variant, player } => TakActionRecord::PlacePiece {
            pos: *pos,
            variant: *variant,
            player: *player,
        },
        TakActionRecord::MovePiece { pos, dir, take, drops, flattened } => {
            let mut d: Vec<usize> = Vec::new();
            for i in 0..drops.len()
                invariant
                    d@ == drops@.take(i as int),
            {
                d.push(drops[i]);
                assert(d@ =~= drops@.take(i + 1));
            }
            assert(d@ =~= drops@);
            TakActionRecord::MovePiece { pos: *pos, dir: *dir, take: *take, drops: d, flattened: *flattened }
        },
    }
}

impl TakGame {
    /// A copy of the game.
    pub fn duplicate(&self) -> (r: Self)
        ensures
            game_view(r) == game_view(*self),
    {
        let mut cells: Vec<Option<TakStack>> = Vec::new();
        for i in 0..self.board.board.len()
            invariant
                cells@.len() == i,
                cells@.map_values(|o: Option<TakStack>| opt_view(o)) == self.board.cells().take(i as int),
        {
            let c = match &self.board.board[i] {
                Some(s) => Some(crate::board_query::copy_stack(s)),
                None => None,
            };
            assert(opt_view(c) == self.board.cells()[i as int]);
            cells.push(c);
            assert(cells@[i as int] == c);
            assert(cells@.map_values(|o: Option<TakStack>| opt_view(o)) =~= self.board.cells().take(i + 1));
        }
        assert(self.board.cells().take(self.board.board@.len() as int) =~= self.board.cells());
        let board = TakBoard {
            size: self.board.size,
            board: cells,
            id_counter: self.board.id_counter,
            empty_spaces: self.board.empty_spaces,
        };
        let mut history: Vec<TakActionRecord> = Vec::new();
        for i in 0..self.action_history.len()
            invariant
                history@.len() == i,
                history@.map_values(|r: TakActionRecord| record_view(r)) == self.action_history@.map_values(
                    |r: TakActionRecord| record_view(r),
                ).take(i as int),
        {
            let c = copy_record(&self.action_history[i]);
            history.push(c);
            assert(history@[i as int] == c);
            assert(history@.map_values(|r: TakActionRecord| record_view(r)) =~= self.action_history@.map_values(
                |r: TakActionRecord| record_view(r),
            ).take(i + 1));
        }
        assert(self.action_history@.map_values(|r: TakActionRecord| record_view(r)).take(
            self.action_history@.len() as int,
        ) =~= self.action_history@.map_values(|r: TakActionRecord| record_view(r)));
        let r = TakGame {
            settings: self.settings.duplicate(),
            board,
            current_player: self.current_player,
            ply_index: self.ply_index,
            action_history: history,
            hands: self.hands,
            game_state: self.game_state,
            clock: self.clock,
        };
        assert(r.board.cells() =~= self.board.cells());
        r
    }
}

/// A player wins the flat count only with strictly more points than the
/// other, komi counting for Black; with equal points Black wins with the
/// tiebreak and nobody without it.
pub proof fn law_flat_count_winner(k: TakKomi, white: nat, black: nat)
    ensures
        komi_winner(k, white, black) == Some(TakPlayer::White) <==> white > black + k.amount,
        komi_winner(k, white, black) == Some(TakPlayer::Black) <==> black + k.amount > white || (black + k.amount
            == white && k.tiebreak),
        komi_winner(k, white, black) is None <==> black + k.amount == white && !k.tiebreak,
{
}

/// After an action, a road of either player joining opposite edges through
/// the placed cell, the cell a move starts from or any cell it dropped on
/// ends the game as a road win; a road of the player who moved makes that
/// player the winner.
pub proof fn law_road_through_touched_cell_wins(
    g: TakGame,
    g2: TakGame,
    record: TakActionRecord,
    cell: TakCoord,
    q: TakPlayer,
    a: TakCoord,
    c: TakCoord,
)
    requires
        ended(g, g2, record),
        match record {
            TakActionRecord::PlacePiece { pos, .. } => cell == pos,
            TakActionRecord::MovePiece { pos, dir, drops, .. } => exists|i: int|
                0 <= i <= drops@.len() && cell == #[trigger] step(pos, dir, i),
        },
        road_reach(g.board.cells(), g.board.size as int, q, cell, a),
        road_reach(g.board.cells(), g.board.size as int, q, cell, c),
        spans(a, c, g.board.size as int),
    ensures
        q == g.current_player ==> g2.game_state == TakGameState::Win(g.current_player, TakWinReason::Road),
        g2.game_state == TakGameState::Win(g.current_player, TakWinReason::Road) || g2.game_state
            == TakGameState::Win(TakPlayer::opponent(g.current_player), TakWinReason::Road),
{
    let ps = affected(record);
    let k: int = match record {
        TakActionRecord::PlacePiece { .. } => 0,
        TakActionRecord::MovePiece { pos, dir, drops, .. } => choose|i: int|
            0 <= i <= drops@.len() && cell == #[trigger] step(pos, dir, i),
    };
    assert(0 <= k < ps.len() && ps[k] == cell);
    let b = g.board;
    assert(road_reach(b.cells(), b.size as int, q, ps[k], a) && road_reach(b.cells(), b.size as int, q, ps[k], c));
    assert(road_from(b, ps, q));
    if q != g.current_player {
        assert(q == TakPlayer::opponent(g.current_player)) by {
            match q {
                TakPlayer::White => {},
                TakPlayer::Black => {},
            }
            match g.current_player {
                TakPlayer::White => {},
                TakPlayer::Black => {},
            }
        }
    }
}

/// Whether a road of `q` joining opposite edges runs through `cell`.
pub open spec fn road_through(b: TakBoard, q: TakPlayer, cell: TakCoord) -> bool {
    exists|a: TakCoord, c: TakCoord|
        #[trigger] road_reach(b.cells(), b.size as int, q, cell, a) && #[trigger] road_reach(
            b.cells(),
            b.size as int,
            q,
            cell,
            c,
        ) && spans(a, c, b.size as int)
}

/// An action ends an ongoing game as a road win of `q` only through a road
/// of `q` that runs through the placed cell, the cell a move starts from or
/// a cell it dropped on.
pub proof fn law_road_win_needs_touched_road(g: TakGame, g2: TakGame, record: TakActionRecord, q: TakPlayer)
    requires
        ended(g, g2, record),
        g.game_state == TakGameState::Ongoing,
        g2.game_state == TakGameState::Win(q, TakWinReason::Road),
    ensures
        match record {
            TakActionRecord::PlacePiece { pos, .. } => road_through(g.board, q, pos),
            TakActionRecord::MovePiece { pos, dir, drops, .. } => exists|i: int|
                0 <= i <= drops@.len() && road_through(g.board, q, #[trigger] step(pos, dir, i)),
        },
{
    let b = g.board;
    let ps = affected(record);
    assert(road_from(b, ps, q)) by {
        if !road_from(b, ps, g.current_player) && !road_from(b, ps, TakPlayer::opponent(g.current_player)) {
            let counts = board_flats(b.cells(), b.cells().len() as int);
            match komi_winner(g.settings.komi, counts.0, counts.1) {
                Some(w) => {},
                None => {},
            }
        } else if !road_from(b, ps, g.current_player) {
            assert(q == TakPlayer::opponent(g.current_player));
        }
    }
    let (i, a, c) = choose|i: int, a: TakCoord, c: TakCoord|
        0 <= i < ps.len() && #[trigger] road_reach(b.cells(), b.size as int, q, ps[i], a) && #[trigger] road_reach(
            b.cells(),
            b.size as int,
            q,
            ps[i],
            c,
        ) && spans(a, c, b.size as int);
    assert(road_through(b, q, ps[i]));
    match record {
        TakActionRecord::PlacePiece { pos, .. } => {},
        TakActionRecord::MovePiece { pos, dir, drops, .. } => {
            assert(ps[i] == step(pos, dir, i));
        },
    }
}

} // verus!
