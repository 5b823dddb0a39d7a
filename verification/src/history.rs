//! A finished game kept for later: its settings, the actions played and the
//! result, and the game replayed from them.
use vstd::prelude::*;

use crate::action::{action_spec, TakAction, TakActionRecord};
use crate::game::{replay_stuck, replayed, settings_fit, settings_ok, started, TakGame, TakGameSettings};
use crate::TakGameState;

verus! {

/// A game record: settings, the actions played, and the result.
#[derive(Debug, Clone, PartialEq)]
pub struct GameRecord {
    settings: TakGameSettings,
    actions: Vec<TakActionRecord>,
    result: TakGameState,
}

/// The action a played action repeats.
pub open spec fn replay_action(r: TakActionRecord) -> crate::action::ActionSpec {
    match r {
        TakActionRecord::PlacePiece { pos, variant, .. } => (pos, Ok(variant)),
        TakActionRecord::MovePiece { pos, dir, take, drops, .. } => (pos, Err((dir, take, drops@))),
    }
}

/// The action that repeats a played one.
fn to_action(r: &TakActionRecord) -> (a: TakAction)
    ensures
        action_spec(a) == replay_action(*r),
{
    match r {
        TakActionRecord::PlacePiece { pos, variant, .. } => TakAction::PlacePiece { pos: *pos, variant: *variant },
        TakActionRecord::MovePiece { pos, dir, take, drops, .. } => {
            let d = drops.clone();
            assert(d@ =~= drops@);
            TakAction::MovePiece { pos: *pos, dir: *dir, take: *take, drops: d }
        },
    }
}

/// Whether `acts` repeat the first `acts.len()` played actions of `records`.
pub open spec fn repeats(acts: Seq<TakAction>, records: Seq<TakActionRecord>) -> bool {
    acts.len() <= records.len() && forall|i: int|
        0 <= i < acts.len() ==> action_spec(#[trigger] acts[i]) == replay_action(records[i])
}

/// Whether replaying a record is refused: no game starts from its
/// settings, the replay gets stuck at an action, or it ends in a state that
/// differs from the result, other than an ongoing game recorded as
/// canceled.
pub open spec fn record_refused(st: TakGameSettings, records: Seq<TakActionRecord>, result: TakGameState) -> bool {
    ||| !settings_ok(st)
    ||| exists|g0: TakGame, acts: Seq<TakAction>, k: int, gk: TakGame|
        #![trigger started(st, g0), replay_stuck(g0, acts, k, gk)]
        started(st, g0) && repeats(acts, records) && replay_stuck(g0, acts, k, gk)
    ||| exists|g0: TakGame, acts: Seq<TakAction>, gend: TakGame|
        #![trigger started(st, g0), replayed(g0, acts, gend)]
        started(st, g0) && repeats(acts, records) && acts.len() == records.len() && replayed(g0, acts, gend)
            && gend.game_state != result && !(gend.game_state == TakGameState::Ongoing && result
            == TakGameState::Canceled)
}

impl GameRecord {
    /// The settings of the record.
    pub closed spec fn settings_of(&self) -> TakGameSettings {
        self.settings
    }

    /// The actions of the record.
    pub closed spec fn actions_of(&self) -> Seq<TakActionRecord> {
        self.actions@
    }

    /// The result of the record.
    pub closed spec fn result_of(&self) -> TakGameState {
        self.result
    }

    /// The record of a game: its settings, its action history and its state.
    pub fn from_game(game: TakGame) -> (r: Self)
        ensures
            r.settings_of() == game.settings,
            r.actions_of() == game.action_history@,
            r.result_of() == game.game_state,
    {
        GameRecord { settings: game.settings, actions: game.action_history, result: game.game_state }
    }

    /// The game the record replays to: a game started from the settings with
    /// the actions played in order, its state set to the result when the
    /// replay left it ongoing and the record says it was canceled. `None`
    /// when no game starts from the settings, an action is refused or a limit
    /// of an action would be exceeded, or the state differs from the result
    /// otherwise.
    pub fn to_game(&self) -> (r: Option<TakGame>)
        requires
            settings_fit(self.settings_of()),
        ensures
            !settings_ok(self.settings_of()) ==> r is None,
            r matches Some(g) ==> exists|g0: TakGame, acts: Seq<TakAction>, gend: TakGame|
                #![trigger started(self.settings_of(), g0), replayed(g0, acts, gend)]
                started(self.settings_of(), g0) && acts.len() == self.actions_of().len() && (forall|i: int|
                    0 <= i < acts.len() ==> action_spec(#[trigger] acts[i]) == replay_action(self.actions_of()[i]))
                    && replayed(g0, acts, gend) && (g == gend && gend.game_state == self.result_of() || (
                gend.game_state == TakGameState::Ongoing && self.result_of() == TakGameState::Canceled && g
                    == TakGame { game_state: TakGameState::Canceled, ..gend })),
            r is None ==> record_refused(self.settings_of(), self.actions_of(), self.result_of()),
    {
        let mut game = match TakGame::new(self.settings.duplicate()) {
            Some(g) => g,
            None => {
                return None;
            },
        };
        let ghost g0 = game;
        let ghost st = self.settings;
        let ghost records = self.actions@;
        let ghost mut acts: Seq<TakAction> = Seq::empty();
        for k in 0..self.actions.len()
            invariant
                game.wf(),
                started(self.settings, g0),
                acts.len() == k,
                forall|i: int| 0 <= i < k ==> action_spec(#[trigger] acts[i]) == replay_action(self.actions@[i]),
                replayed(g0, acts, game),
                st == self.settings,
                records == self.actions@,
        {
            let a = to_action(&self.actions[k]);
            let ghost ga = a;
            proof {
                assert(acts.push(ga).take(k as int) =~= acts);
                assert(repeats(acts.push(ga), records));
            }
            if !game.fits() {
                assert(replay_stuck(g0, acts.push(ga), k as int, game));
                return None;
            }
            let ghost gm = game;
            let res = game.try_do_action(a);
            if res.is_err() {
                proof {
                    let now = choose|now: crate::time::TakTimestamp| crate::game::action_outcome(gm, game, ga, now, res);
                    assert(acts.push(ga)[k as int] == ga);
                    assert(crate::game::action_outcome(gm, game, acts.push(ga)[k as int], now, Err(res->Err_0)));
                    assert(replay_stuck(g0, acts.push(ga), k as int, gm));
                }
                return None;
            }
            proof {
                let now = choose|now: crate::time::TakTimestamp| crate::game::action_outcome(gm, game, ga, now, res);
                crate::game::lemma_replayed_push(g0, acts, gm, ga, game, now, res);
                acts = acts.push(ga);
            }
        }
        if game.game_state != self.result {
            let allowed = game.game_state == TakGameState::Ongoing && self.result == TakGameState::Canceled;
            if !allowed {
                assert(repeats(acts, records) && acts.len() == records.len());
                return None;
            }
            game.game_state = self.result;
        }
        Some(game)
    }
}

} // verus!
