//! The state of a board display: the game played and the game shown (an
//! earlier position under review, or a move being entered), and what the
//! display draws of each piece and each tile.
use vstd::prelude::*;

use crate::action::{action_spec, TakAction, TakActionRecord};
use crate::board::{top_player, StackView, TakBoard, TakPiece, TakStack};
use crate::board_query::{board_flats, pieces_list};
use crate::roads::{is_road_path, spans};
use crate::coord::{adjacency, cell_index, coord_of, on_board, step, step_fits, TakCoord, TakDir};
use crate::game::{
    action_outcome, game_view, ptn_refused, seek_ptn, seeks, settings_fit, settings_ok, started, time_set, timeout_outcome, TakGame, TakHand,
};
use crate::ptn::TakPtn;
use crate::time::TakTimestamp;
use crate::ui::{completed, sum_of, TakPartialMove, TakUITile};
use crate::{TakGameState, TakInvalidActionError, TakPieceVariant, TakPlayer, TakWinReason};

verus! {

/// How a piece is drawn: its owner and kind, its cell and height in the
/// drawn stack, whether it is lifted by the move being entered, its place
/// among the pieces drawn last (those the last action moved), whether it
/// could be lifted, how many pieces lie hidden below the drawn part of its
/// stack, and whether it left the board.
#[derive(Debug, Clone, Copy, PartialEq, Structural)]
pub struct TakUIPiece {
    pub player: TakPlayer,
    pub variant: TakPieceVariant,
    pub pos: TakCoord,
    pub height: usize,
    pub is_floating: bool,
    pub z_priority: Option<usize>,
    pub can_be_picked: bool,
    pub buried_piece_count: usize,
    pub deleted: bool,
}

/// `a - b`, or 0 when `b` is larger.
pub open spec fn sat_sub(a: int, b: int) -> int {
    if a > b {
        a - b
    } else {
        0
    }
}

/// Where the next pieces of a move being entered are dropped: on the last
/// cell dropped on, or on its start before a direction is chosen.
pub open spec fn drop_pos(m: TakPartialMove) -> TakCoord {
    match m.dir {
        Some(d) => step(m.pos, d, m.drops@.len() as int),
        None => m.pos,
    }
}

/// The cell where the move being entered holds pieces, and how many it
/// still holds.
pub open spec fn drop_diff(pm: Option<TakPartialMove>) -> Option<(TakCoord, int)> {
    match pm {
        Some(m) => Some((drop_pos(m), sat_sub(m.take as int, sum_of(m.drops@)))),
        None => None,
    }
}

/// The first index from `i` on at which `s` holds `id`.
pub open spec fn find_from(s: Seq<usize>, id: usize, i: int) -> Option<usize>
    decreases s.len() - i,
{
    if i < 0 || i >= s.len() {
        None
    } else if s[i] == id {
        Some(i as usize)
    } else {
        find_from(s, id, i + 1)
    }
}

/// How the piece at height `i` of the stack `s` at `pos` is drawn on a
/// board of `size` cells a side: only the top `size` pieces of a stack are
/// drawn at their height (they can be lifted), the others keep their
/// height; the pieces held by the move being entered float.
pub open spec fn ui_piece(
    pos: TakCoord,
    s: StackView,
    i: int,
    size: int,
    dd: Option<(TakCoord, int)>,
    prio: Seq<usize>,
) -> TakUIPiece {
    let h = s.1.len() as int;
    let can_pick = h - i <= size;
    TakUIPiece {
        player: s.1[i].player,
        variant: if i + 1 == h {
            s.0
        } else {
            TakPieceVariant::Flat
        },
        pos,
        height: (if can_pick {
            i - sat_sub(h, size)
        } else {
            i
        }) as usize,
        is_floating: match dd {
            Some((p, d)) => p == pos && i >= sat_sub(h, d),
            None => false,
        },
        z_priority: find_from(prio, s.1[i].id, 0),
        can_be_picked: can_pick,
        buried_piece_count: sat_sub(h, size) as usize,
        deleted: false,
    }
}

/// The drawn pieces of the first `k` pieces of the stack `s` at `pos`,
/// with their ids.
pub open spec fn stack_records(
    pos: TakCoord,
    s: StackView,
    size: int,
    dd: Option<(TakCoord, int)>,
    prio: Seq<usize>,
    k: int,
) -> Seq<(usize, TakUIPiece)>
    decreases k,
{
    if k <= 0 {
        Seq::empty()
    } else {
        stack_records(pos, s, size, dd, prio, k - 1).push((s.1[k - 1].id, ui_piece(pos, s, k - 1, size, dd, prio)))
    }
}

/// The drawn pieces of the first `k` stacks of a list of stacks.
pub open spec fn board_records(
    list: Seq<(TakCoord, StackView)>,
    size: int,
    dd: Option<(TakCoord, int)>,
    prio: Seq<usize>,
    k: int,
) -> Seq<(usize, TakUIPiece)>
    decreases k,
{
    if k <= 0 {
        Seq::empty()
    } else {
        board_records(list, size, dd, prio, k - 1) + stack_records(
            list[k - 1].0,
            list[k - 1].1,
            size,
            dd,
            prio,
            list[k - 1].1.1.len() as int,
        )
    }
}

/// Whether a list of drawn pieces holds one with the given id.
pub open spec fn has_id(recs: Seq<(usize, TakUIPiece)>, id: usize) -> bool {
    exists|j: int| 0 <= j < recs.len() && #[trigger] recs[j].0 == id
}

/// The first `k` of the pieces drawn before that are no longer on the
/// board, now marked as gone.
pub open spec fn gone_records(new: Seq<(usize, TakUIPiece)>, prev: Seq<(usize, TakUIPiece)>, k: int) -> Seq<
    (usize, TakUIPiece),
>
    decreases k,
{
    if k <= 0 {
        Seq::empty()
    } else {
        let e = prev[k - 1];
        gone_records(new, prev, k - 1) + if has_id(new, e.0) {
            Seq::empty()
        } else {
            seq![(e.0, TakUIPiece { deleted: true, ..e.1 })]
        }
    }
}

/// The pieces drawn for a board: those on it, in cell order and from the
/// bottom of each stack, then those drawn before that left it.
pub open spec fn drawn_pieces(
    b: TakBoard,
    pm: Option<TakPartialMove>,
    prio: Seq<usize>,
    prev: Seq<(usize, TakUIPiece)>,
) -> Seq<(usize, TakUIPiece)> {
    let list = pieces_list(b.cells(), b.size as int, None, b.cells().len() as int);
    let new = board_records(list, b.size as int, drop_diff(pm), prio, list.len() as int);
    new + gone_records(new, prev, prev.len() as int)
}


/// Whether a move being entered stays within the machine's numbers: its
/// drops sum within a `usize` and its drop cell within `i32`.
pub open spec fn move_fits(m: TakPartialMove) -> bool {
    &&& sum_of(m.drops@) <= usize::MAX
    &&& m.drops@.len() <= i32::MAX
    &&& m.dir matches Some(d) ==> step_fits(m.pos, d, m.drops@.len() as int)
}

/// Whether an optional move being entered stays within the machine's
/// numbers.
pub open spec fn opt_move_fits(pm: Option<TakPartialMove>) -> bool {
    pm matches Some(m) ==> move_fits(m)
}

/// The first index at which `s` holds `id`.
fn find_id(s: &Vec<usize>, id: usize) -> (r: Option<usize>)
    ensures
        r == find_from(s@, id, 0),
{
    let mut i: usize = 0;
    while i < s.len()
        invariant
            i <= s@.len(),
            find_from(s@, id, 0) == find_from(s@, id, i as int),
        decreases s@.len() - i,
    {
        if s[i] == id {
            return Some(i);
        }
        i = i + 1;
    }
    None
}

/// Where the next pieces of a move being entered are dropped.
fn drop_pos_of(m: &TakPartialMove) -> (r: TakCoord)
    requires
        move_fits(*m),
    ensures
        r == drop_pos(*m),
{
    match m.dir {
        Some(d) => m.pos.offset_dir_many(d, m.drops.len() as i32),
        None => m.pos,
    }
}

/// The cell where the move being entered holds pieces, and how many.
fn drop_diff_of(pm: &Option<TakPartialMove>) -> (r: Option<(TakCoord, usize)>)
    requires
        opt_move_fits(*pm),
    ensures
        match r {
            Some((p, d)) => drop_diff(*pm) == Some((p, d as int)),
            None => drop_diff(*pm) is None,
        },
{
    match pm {
        Some(m) => {
            let total = match crate::ui::drop_total(&m.drops) {
                Some(t) => t,
                None => 0,
            };
            let left = if m.take > total {
                m.take - total
            } else {
                0
            };
            Some((drop_pos_of(m), left))
        },
        None => None,
    }
}

/// Appends the drawn pieces of the stack at `pos`.
fn add_stack_pieces(
    pos: TakCoord,
    stack: &TakStack,
    size: usize,
    dd: Option<(TakCoord, usize)>,
    prio: &Vec<usize>,
    out: &mut Vec<(usize, TakUIPiece)>,
)
    ensures
        final(out)@ == old(out)@ + stack_records(
            pos,
            stack@,
            size as int,
            match dd {
                Some((p, d)) => Some((p, d as int)),
                None => None,
            },
            prio@,
            stack@.1.len() as int,
        ),
{
    let ghost ddi = match dd {
        Some((p, d)) => Some((p, d as int)),
        None => None::<(TakCoord, int)>,
    };
    let stack_height = stack.composition.len();
    let floating_threshold: Option<usize> = match dd {
        Some((p, d)) => if p == pos {
            Some(if stack_height > d {
                stack_height - d
            } else {
                0
            })
        } else {
            None
        },
        None => None,
    };
    let buried_piece_count = if stack_height > size {
        stack_height - size
    } else {
        0
    };
    let mut height: usize = 0;
    while height < stack_height
        invariant
            stack_height == stack@.1.len(),
            height <= stack_height,
            ddi == (match dd {
                Some((p, d)) => Some((p, d as int)),
                None => None::<(TakCoord, int)>,
            }),
            buried_piece_count == sat_sub(stack_height as int, size as int),
            floating_threshold == (match dd {
                Some((p, d)) => if p == pos {
                    Some(sat_sub(stack_height as int, d as int) as usize)
                } else {
                    None
                },
                None => None::<usize>,
            }),
            out@ == old(out)@ + stack_records(pos, stack@, size as int, ddi, prio@, height as int),
        decreases stack_height - height,
    {
        let stone = stack.composition[height];
        let priority_index = find_id(prio, stone.id);
        let can_be_picked = stack_height - height <= size;
        let effective_height = if can_be_picked {
            height - buried_piece_count
        } else {
            height
        };
        let is_floating = match floating_threshold {
            Some(x) => height >= x,
            None => false,
        };
        let variant = if height + 1 == stack_height {
            stack.variant
        } else {
            TakPieceVariant::Flat
        };
        let piece = TakUIPiece {
            player: stone.player,
            pos,
            height: effective_height,
            is_floating,
            z_priority: priority_index,
            can_be_picked,
            buried_piece_count,
            variant,
            deleted: false,
        };
        assert(piece == ui_piece(pos, stack@, height as int, size as int, ddi, prio@));
        out.push((stone.id, piece));
        assert(out@ =~= old(out)@ + stack_records(pos, stack@, size as int, ddi, prio@, height + 1));
        height = height + 1;
    }
}

/// Whether a list of drawn pieces holds one with the given id.
fn records_have(recs: &Vec<(usize, TakUIPiece)>, id: usize) -> (r: bool)
    ensures
        r == has_id(recs@, id),
{
    let mut j: usize = 0;
    while j < recs.len()
        invariant
            j <= recs@.len(),
            forall|k: int| 0 <= k < j ==> recs@[k].0 != id,
        decreases recs@.len() - j,
    {
        if recs[j].0 == id {
            assert(recs@[j as int].0 == id);
            return true;
        }
        j = j + 1;
    }
    false
}

/// The pieces drawn for a board.
fn draw_pieces(
    b: &TakBoard,
    pm: &Option<TakPartialMove>,
    prio: &Vec<usize>,
    prev: &Vec<(usize, TakUIPiece)>,
) -> (r: Vec<(usize, TakUIPiece)>)
    requires
        b.wf(),
        opt_move_fits(*pm),
    ensures
        r@ == drawn_pieces(*b, *pm, prio@, prev@),
{
    let dd = drop_diff_of(pm);
    let ghost ddi = drop_diff(*pm);
    let ghost list = pieces_list(b.cells(), b.size as int, None, b.cells().len() as int);
    let stacks = b.iter_pieces(None);
    let mut out: Vec<(usize, TakUIPiece)> = Vec::new();
    let mut k: usize = 0;
    while k < stacks.len()
        invariant
            stacks@.len() == list.len(),
            forall|i: int| 0 <= i < stacks@.len() ==> (#[trigger] stacks@[i]).0 == list[i].0 && stacks@[i].1@ == list[i].1,
            k <= stacks@.len(),
            ddi == (match dd {
                Some((p, d)) => Some((p, d as int)),
                None => None::<(TakCoord, int)>,
            }),
            out@ == board_records(list, b.size as int, ddi, prio@, k as int),
        decreases stacks@.len() - k,
    {
        let (pos, stack) = stacks[k];
        let ghost before = out@;
        add_stack_pieces(pos, stack, b.size, dd, prio, &mut out);
        assert(stacks@[k as int].0 == list[k as int].0 && stacks@[k as int].1@ == list[k as int].1);
        k = k + 1;
    }
    let ghost new = out@;
    let n = out.len();
    let mut j: usize = 0;
    while j < prev.len()
        invariant
            j <= prev@.len(),
            out@.len() >= n,
            out@.subrange(0, n as int) == new,
            n == new.len(),
            out@ == new + gone_records(new, prev@, j as int),
        decreases prev@.len() - j,
    {
        let (id, data) = prev[j];
        let ghost before = out@;
        let mut present = false;
        let mut i: usize = 0;
        while i < n
            invariant
                i <= n,
                n == new.len(),
                out@.subrange(0, n as int) == new,
                out@.len() >= n,
                !present ==> forall|q: int| 0 <= q < i ==> new[q].0 != id,
                present ==> has_id(new, id),
            decreases n - i,
        {
            if out[i].0 == id {
                assert(new[i as int].0 == id);
                present = true;
            }
            i = i + 1;
        }
        if !present {
            out.push((id, TakUIPiece { deleted: true, ..data }));
        }
        assert(out@ =~= new + gone_records(new, prev@, j + 1));
        assert(out@.subrange(0, n as int) =~= new);
        j = j + 1;
    }
    out
}


/// The stack at a position, if the position is on the board and not empty.
pub open spec fn stack_at(b: TakBoard, c: TakCoord) -> Option<StackView> {
    if on_board(c, b.size as int) && cell_index(c, b.size as int) < b.board@.len() {
        b.cells()[cell_index(c, b.size as int)]
    } else {
        None
    }
}

/// The four directions: up, down, left, right.
pub open spec fn all_dirs() -> Seq<TakDir> {
    seq![TakDir::Up, TakDir::Down, TakDir::Left, TakDir::Right]
}

/// Among the first `k` directions, those in which the road of `player`
/// through `pos` goes on: off the board, or into a flat or capstone stack
/// of `player`.
pub open spec fn bridge_dirs(b: TakBoard, pos: TakCoord, player: TakPlayer, k: int) -> Seq<TakDir>
    decreases k,
{
    if k <= 0 {
        Seq::empty()
    } else {
        let prev = bridge_dirs(b, pos, player, k - 1);
        let d = all_dirs()[k - 1];
        let np = step(pos, d, 1);
        if !on_board(np, b.size as int) {
            prev.push(d)
        } else {
            match stack_at(b, np) {
                Some(o) => if o.0 != TakPieceVariant::Wall && top_player(o) == player {
                    prev.push(d)
                } else {
                    prev
                },
                None => prev,
            }
        }
    }
}

/// The owner of a road stack at `pos` (a flat or capstone on top) and the
/// directions in which its road goes on.
pub open spec fn bridges_of(b: TakBoard, pos: TakCoord) -> Option<(TakPlayer, Seq<TakDir>)> {
    match stack_at(b, pos) {
        Some(s) => if s.0 == TakPieceVariant::Wall {
            None
        } else {
            Some((top_player(s), bridge_dirs(b, pos, top_player(s), 4)))
        },
        None => None,
    }
}

/// The directions in which the move being entered may go on.
pub open spec fn click_dirs(m: TakPartialMove) -> Seq<TakDir> {
    match m.dir {
        Some(d) => seq![d],
        None => all_dirs(),
    }
}

/// Among the cells one step from `dp` in the first `k` directions, those
/// the move being entered may drop on: on the board, and empty, a flat, or
/// a wall that its last piece, a capstone, flattens.
pub open spec fn click_steps(
    m: TakPartialMove,
    dp: TakCoord,
    shown: TakBoard,
    played: TakBoard,
    dirs: Seq<TakDir>,
    k: int,
) -> Seq<TakCoord>
    decreases k,
{
    if k <= 0 {
        Seq::empty()
    } else {
        let prev = click_steps(m, dp, shown, played, dirs, k - 1);
        let np = step(dp, dirs[k - 1], 1);
        if !on_board(np, shown.size as int) {
            prev
        } else {
            match stack_at(shown, np) {
                Some(o) => if o.0 == TakPieceVariant::Flat {
                    prev.push(np)
                } else if o.0 == TakPieceVariant::Wall {
                    match stack_at(played, m.pos) {
                        Some(s) => if sum_of(m.drops@) + 1 == m.take && s.0 == TakPieceVariant::Capstone {
                            prev.push(np)
                        } else {
                            prev
                        },
                        None => prev,
                    }
                } else {
                    prev
                },
                None => prev.push(np),
            }
        }
    }
}

/// The cells a click may go to: the drop cell of the move being entered,
/// then the cells it may go on to.
pub open spec fn click_options(pm: Option<TakPartialMove>, shown: TakBoard, played: TakBoard) -> Seq<TakCoord> {
    match pm {
        None => Seq::empty(),
        Some(m) => {
            let dp = drop_pos(m);
            seq![dp] + click_steps(m, dp, shown, played, click_dirs(m), click_dirs(m).len() as int)
        },
    }
}

/// The cells, among the first `k`, holding a flat of `player` on top.
pub open spec fn flat_tiles(b: TakBoard, player: TakPlayer, k: int) -> Seq<TakCoord>
    decreases k,
{
    if k <= 0 {
        Seq::empty()
    } else {
        let prev = flat_tiles(b, player, k - 1);
        match b.cells()[k - 1] {
            Some(s) => if top_player(s) == player && s.0 == TakPieceVariant::Flat {
                prev.push(coord_of(k - 1, b.size as int))
            } else {
                prev
            },
            None => prev,
        }
    }
}

/// The cells an action touched: its cell, and for a move every cell it
/// dropped on.
pub open spec fn action_tiles(r: TakActionRecord) -> Seq<TakCoord> {
    match r {
        TakActionRecord::PlacePiece { pos, .. } => seq![pos],
        TakActionRecord::MovePiece { pos, dir, drops, .. } => seq![pos] + Seq::new(
            drops@.len(),
            |i: int| step(pos, dir, i + 1),
        ),
    }
}

/// The cells the last action shown touched: in the game played, or in the
/// position under review when it is earlier.
pub open spec fn last_tiles(played: TakGame, shown: TakGame) -> Seq<TakCoord> {
    let g = if played.ply_index <= shown.ply_index {
        played
    } else {
        shown
    };
    if g.action_history@.len() > 0 && action_fits(g.action_history@.last()) {
        action_tiles(g.action_history@.last())
    } else {
        Seq::empty()
    }
}

/// Whether the cells an action touched fit in `i32`.
pub open spec fn action_fits(r: TakActionRecord) -> bool {
    match r {
        TakActionRecord::PlacePiece { .. } => true,
        TakActionRecord::MovePiece { pos, dir, drops, .. } => drops@.len() < i32::MAX && forall|i: int|
            0 <= i <= drops@.len() ==> step_fits(pos, dir, i),
    }
}

/// The kinds of pieces a hand offers: a flat and a wall with a stone, a
/// capstone with a capstone.
pub open spec fn hand_types(h: TakHand) -> Seq<TakPieceVariant> {
    if h.stones == 0 && h.capstones == 0 {
        Seq::empty()
    } else if h.stones == 0 {
        seq![TakPieceVariant::Capstone]
    } else if h.capstones == 0 {
        seq![TakPieceVariant::Flat, TakPieceVariant::Wall]
    } else {
        seq![TakPieceVariant::Flat, TakPieceVariant::Wall, TakPieceVariant::Capstone]
    }
}

/// The kinds of pieces each player may place: flats only in the first two
/// plies, then what their hand offers.
pub open spec fn available_types(played: TakGame) -> (Seq<TakPieceVariant>, Seq<TakPieceVariant>) {
    if played.ply_index < 2 {
        (seq![TakPieceVariant::Flat], seq![TakPieceVariant::Flat])
    } else {
        (hand_types(played.hands[0]), hand_types(played.hands[1]))
    }
}

/// Whether a tile looks as the board, the highlighted cells, the clickable
/// cells and the cells of the last action say for cell `i`.
pub open spec fn tile_ok(
    t: TakUITile,
    b: TakBoard,
    i: int,
    hl: Seq<TakCoord>,
    clicks: Seq<TakCoord>,
    lat: Seq<TakCoord>,
) -> bool {
    let pos = coord_of(i, b.size as int);
    let br = bridges_of(b, pos);
    &&& t.owner == (match br {
        Some((p, _)) => Some(p),
        None => None,
    })
    &&& t.bridges@ == all_dirs().map_values(
        |d: TakDir|
            (
                d,
                match br {
                    Some((_, ds)) => ds.contains(d),
                    None => false,
                },
            ),
    )
    &&& t.highlighted == hl.contains(pos)
    &&& t.selectable == clicks.contains(pos)
    &&& t.last_action == lat.contains(pos)
}


/// The stack at a position, if the position is on the board and not empty.
fn stack_at_of(b: &TakBoard, c: TakCoord) -> (r: Option<&TakStack>)
    ensures
        match r {
            Some(s) => stack_at(*b, c) == Some(s@),
            None => stack_at(*b, c) is None,
        },
{
    let r = b.try_get_stack(c);
    proof {
        if let Some(s) = r {
            assert(b.cells()[cell_index(c, b.size as int)] == Some(s@));
        }
    }
    r
}

/// The four directions in order.
fn dirs_vec() -> (r: Vec<TakDir>)
    ensures
        r@ == all_dirs(),
{
    let r = vec![TakDir::Up, TakDir::Down, TakDir::Left, TakDir::Right];
    assert(r@ =~= all_dirs());
    r
}

/// The owner of a road stack at `pos` and the directions its road goes on.
fn bridges_at(b: &TakBoard, pos: TakCoord) -> (r: Option<(TakPlayer, Vec<TakDir>)>)
    requires
        b.wf(),
    ensures
        match r {
            Some((p, ds)) => bridges_of(*b, pos) == Some((p, ds@)),
            None => bridges_of(*b, pos) is None,
        },
{
    let stack = match stack_at_of(b, pos) {
        Some(s) => s,
        None => {
            return None;
        },
    };
    if stack.variant == TakPieceVariant::Wall {
        return None;
    }
    let player = stack.player();
    let size = b.size;
    let dirs = dirs_vec();
    let mut bridges: Vec<TakDir> = Vec::new();
    let mut k: usize = 0;
    while k < 4
        invariant
            b.wf(),
            size == b.size,
            on_board(pos, size as int),
            dirs@ == all_dirs(),
            k <= 4,
            bridges@ == bridge_dirs(*b, pos, player, k as int),
        decreases 4 - k,
    {
        let dir = dirs[k];
        let new_pos = pos.offset_dir(dir);
        if !new_pos.is_valid(size) {
            bridges.push(dir);
        } else {
            match stack_at_of(b, new_pos) {
                Some(other) => {
                    if other.variant != TakPieceVariant::Wall && other.player() == player {
                        bridges.push(dir);
                    }
                },
                None => {},
            }
        }
        k = k + 1;
    }
    Some((player, bridges))
}

/// Whether a list of cells holds `c`.
fn has_coord(v: &Vec<TakCoord>, c: TakCoord) -> (r: bool)
    ensures
        r == v@.contains(c),
{
    let mut i: usize = 0;
    while i < v.len()
        invariant
            i <= v@.len(),
            forall|j: int| 0 <= j < i ==> v@[j] != c,
        decreases v@.len() - i,
    {
        if v[i] == c {
            assert(v@[i as int] == c);
            return true;
        }
        i = i + 1;
    }
    false
}

/// Whether a direction list holds `d`.
fn has_dir(v: &Vec<TakDir>, d: TakDir) -> (r: bool)
    ensures
        r == v@.contains(d),
{
    let mut i: usize = 0;
    while i < v.len()
        invariant
            i <= v@.len(),
            forall|j: int| 0 <= j < i ==> v@[j] != d,
        decreases v@.len() - i,
    {
        if v[i] == d {
            assert(v@[i as int] == d);
            return true;
        }
        i = i + 1;
    }
    false
}

/// The cells a click may go to.
fn clicks_of(pm: &Option<TakPartialMove>, shown: &TakBoard, played: &TakBoard) -> (r: Vec<TakCoord>)
    requires
        shown.wf(),
        opt_move_fits(*pm),
        *pm matches Some(m) ==> on_board(drop_pos(m), shown.size as int),
    ensures
        r@ == click_options(*pm, *shown, *played),
{
    let m = match pm {
        Some(m) => m,
        None => {
            return Vec::new();
        },
    };
    let dp = drop_pos_of(m);
    let mut r: Vec<TakCoord> = Vec::new();
    r.push(dp);
    let dirs: Vec<TakDir> = match m.dir {
        Some(d) => vec![d],
        None => dirs_vec(),
    };
    assert(dirs@ =~= click_dirs(*m));
    let total = match crate::ui::drop_total(&m.drops) {
        Some(t) => t,
        None => 0,
    };
    let size = shown.size;
    let mut k: usize = 0;
    while k < dirs.len()
        invariant
            shown.wf(),
            size == shown.size,
            on_board(dp, size as int),
            dp == drop_pos(*m),
            dirs@ == click_dirs(*m),
            total == sum_of(m.drops@),
            k <= dirs@.len(),
            r@ == seq![dp] + click_steps(*m, dp, *shown, *played, dirs@, k as int),
        decreases dirs@.len() - k,
    {
        let dir = dirs[k];
        let new_pos = dp.offset_dir(dir);
        let ghost before = r@;
        if new_pos.is_valid(size) {
            match stack_at_of(shown, new_pos) {
                Some(other) => {
                    if other.variant == TakPieceVariant::Flat {
                        r.push(new_pos);
                    } else if other.variant == TakPieceVariant::Wall {
                        match stack_at_of(played, m.pos) {
                            Some(stack) => {
                                if total < m.take && m.take - total == 1 && stack.variant
                                    == TakPieceVariant::Capstone {
                                    r.push(new_pos);
                                }
                            },
                            None => {},
                        }
                    }
                },
                None => {
                    r.push(new_pos);
                },
            }
        }
        assert(r@ =~= seq![dp] + click_steps(*m, dp, *shown, *played, dirs@, k + 1));
        k = k + 1;
    }
    r
}

/// The cells, among the first `k`, holding a flat of `player` on top.
fn flat_tiles_of(b: &TakBoard, player: TakPlayer) -> (r: Vec<TakCoord>)
    requires
        b.wf(),
    ensures
        r@ == flat_tiles(*b, player, b.cells().len() as int),
{
    let size = b.size;
    let n = b.board.len();
    assert(size * size == n);
    let coords = TakCoord::iter_board(size);
    let mut r: Vec<TakCoord> = Vec::new();
    let mut k: usize = 0;
    while k < n
        invariant
            b.wf(),
            n == b.board@.len(),
            size == b.size,
            coords@.len() == n,
            forall|j: int| 0 <= j < n ==> #[trigger] coords@[j] == coord_of(j, size as int),
            k <= n,
            r@ == flat_tiles(*b, player, k as int),
        decreases n - k,
    {
        match &b.board[k] {
            Some(stack) => {
                assert(b.cells()[k as int] == Some(stack@));
                if stack.player() == player && stack.variant == TakPieceVariant::Flat {
                    r.push(coords[k]);
                }
            },
            None => {},
        }
        k = k + 1;
    }
    r
}

/// The cells an action touched.
fn action_tiles_of(rec: &TakActionRecord) -> (r: Vec<TakCoord>)
    requires
        action_fits(*rec),
    ensures
        r@ == action_tiles(*rec),
{
    match rec {
        TakActionRecord::PlacePiece { pos, .. } => {
            let r = vec![*pos];
            assert(r@ =~= seq![*pos]);
            r
        },
        TakActionRecord::MovePiece { pos, dir, drops, .. } => {
            let mut tiles: Vec<TakCoord> = vec![*pos];
            let n = drops.len();
            let mut i: usize = 1;
            while i <= n
                invariant
                    1 <= i <= n + 1,
                    n == drops@.len(),
                    n < i32::MAX,
                    forall|j: int| 0 <= j <= n ==> step_fits(*pos, *dir, j),
                    tiles@ == seq![*pos] + Seq::new((i - 1) as nat, |j: int| step(*pos, *dir, j + 1)),
                decreases n + 1 - i,
            {
                tiles.push(pos.offset_dir_many(*dir, i as i32));
                assert(tiles@ =~= seq![*pos] + Seq::new(i as nat, |j: int| step(*pos, *dir, j + 1)));
                i = i + 1;
            }
            tiles
        },
    }
}

/// The kinds of pieces a hand offers.
fn hand_types_of(h: &TakHand) -> (r: Vec<TakPieceVariant>)
    ensures
        r@ == hand_types(*h),
{
    let r = if h.stones == 0 && h.capstones == 0 {
        Vec::new()
    } else if h.stones == 0 {
        vec![TakPieceVariant::Capstone]
    } else if h.capstones == 0 {
        vec![TakPieceVariant::Flat, TakPieceVariant::Wall]
    } else {
        vec![TakPieceVariant::Flat, TakPieceVariant::Wall, TakPieceVariant::Capstone]
    };
    assert(r@ =~= hand_types(*h));
    r
}


/// The move being entered as the display uses it: only one whose drop cell
/// is on the board and within the machine's numbers.
pub open spec fn shown_move(pm: Option<TakPartialMove>, size: int) -> Option<TakPartialMove> {
    match pm {
        Some(m) => if move_fits(m) && on_board(drop_pos(m), size) {
            Some(m)
        } else {
            None
        },
        None => None,
    }
}

/// Whether the cells moved over fit in `i32`, checked.
fn steps_fit(pos: TakCoord, dir: TakDir, n: usize) -> (r: bool)
    ensures
        r == (n <= i32::MAX && forall|i: int| 0 <= i <= n ==> step_fits(pos, dir, i)),
{
    if n > i32::MAX as usize {
        return false;
    }
    let k = n as i64;
    let ok = match dir {
        TakDir::Up => pos.y as i64 + k <= i32::MAX as i64,
        TakDir::Down => pos.y as i64 - k >= i32::MIN as i64,
        TakDir::Left => pos.x as i64 - k >= i32::MIN as i64,
        TakDir::Right => pos.x as i64 + k <= i32::MAX as i64,
    };
    proof {
        if !ok {
            assert(!step_fits(pos, dir, n as int));
        }
    }
    ok
}

/// Whether the move being entered is one the display uses.
fn move_shown(pm: &Option<TakPartialMove>, size: usize) -> (r: bool)
    ensures
        r == (shown_move(*pm, size as int) is Some),
{
    match pm {
        Some(m) => {
            if crate::ui::drop_total(&m.drops).is_none() || m.drops.len() > i32::MAX as usize {
                return false;
            }
            let fits = match m.dir {
                Some(d) => steps_fit(m.pos, d, m.drops.len()),
                None => true,
            };
            if !fits {
                return false;
            }
            let dp = drop_pos_of(m);
            dp.is_valid(size)
        },
        None => false,
    }
}

/// Whether the cells an action touched fit in `i32`, checked.
fn record_fits(r: &TakActionRecord) -> (b: bool)
    ensures
        b == action_fits(*r),
{
    match r {
        TakActionRecord::PlacePiece { .. } => true,
        TakActionRecord::MovePiece { pos, dir, drops, .. } => drops.len() < i32::MAX as usize && steps_fit(
            *pos,
            *dir,
            drops.len(),
        ),
    }
}

/// Whether the highlighted cells are right for the games: none while the
/// game shown goes on; for a road win, a road of the board between
/// opposite edges (or none when none is found); for a flat win, the flats
/// of the winner in cell order.
pub open spec fn highlight_ok(hl: Seq<TakCoord>, shown: TakGame, played: TakGame) -> bool {
    if shown.game_state == TakGameState::Ongoing {
        hl.len() == 0
    } else {
        match played.game_state {
            TakGameState::Win(p, TakWinReason::Road) => hl.len() == 0 || (exists|q: TakPlayer|
                is_road_path(played.board.cells(), played.board.size as int, q, hl)) && spans(
                hl[0],
                hl[hl.len() - 1],
                played.board.size as int,
            ),
            TakGameState::Win(p, TakWinReason::Flat) => hl == flat_tiles(
                played.board,
                p,
                played.board.cells().len() as int,
            ),
            _ => hl.len() == 0,
        }
    }
}

/// The cells to highlight.
fn highlight_tiles(shown: &TakGame, played: &TakGame) -> (r: Vec<TakCoord>)
    requires
        played.board.wf(),
    ensures
        highlight_ok(r@, *shown, *played),
{
    if shown.game_state == TakGameState::Ongoing {
        return Vec::new();
    }
    match played.game_state {
        TakGameState::Win(player, TakWinReason::Road) => {
            let size = played.board.size;
            let n = played.board.board.len();
            assert(size * size == n);
            let all_positions = TakCoord::iter_board(size);
            match played.board.check_for_road(all_positions.as_slice(), player) {
                Some((a, b)) => match played.board.find_shortest_path(a, b) {
                    Some(path) => {
                        proof {
                            let q = crate::roads::road_owner(played.board.cells(), size as int, a)->0;
                            assert(is_road_path(played.board.cells(), size as int, q, path@));
                        }
                        path
                    },
                    None => Vec::new(),
                },
                None => Vec::new(),
            }
        },
        TakGameState::Win(player, TakWinReason::Flat) => flat_tiles_of(&played.board, player),
        _ => Vec::new(),
    }
}

/// The cells the last action shown touched.
fn last_action_tiles(played: &TakGame, shown: &TakGame) -> (r: Vec<TakCoord>)
    ensures
        r@ == last_tiles(*played, *shown),
{
    let game = if played.ply_index <= shown.ply_index {
        played
    } else {
        shown
    };
    let n = game.action_history.len();
    if n == 0 {
        return Vec::new();
    }
    let last = &game.action_history[n - 1];
    if !record_fits(last) {
        return Vec::new();
    }
    action_tiles_of(last)
}

/// The ids of the pieces of a stack from height `from` up.
pub open spec fn ids_from(s: StackView, from: int) -> Seq<usize> {
    s.1.subrange(from, s.1.len() as int).map_values(|p: TakPiece| p.id)
}

/// The ids of the pieces the first `k` drops of a move put down, drop by
/// drop, each from the bottom.
pub open spec fn dropped_ids(b: TakBoard, pos: TakCoord, dir: TakDir, drops: Seq<usize>, k: int) -> Seq<usize>
    decreases k,
{
    if k <= 0 {
        Seq::empty()
    } else {
        dropped_ids(b, pos, dir, drops, k - 1) + match stack_at(b, step(pos, dir, k)) {
            Some(s) => if drops[k - 1] <= s.1.len() {
                ids_from(s, s.1.len() - drops[k - 1])
            } else {
                Seq::empty()
            },
            None => Seq::empty(),
        }
    }
}

/// The ids of the pieces the last action of a game put down: the piece
/// placed, or the pieces a move dropped, in the order of its drops.
pub open spec fn last_stones(g: TakGame) -> Seq<usize> {
    if g.action_history@.len() == 0 {
        Seq::empty()
    } else {
        match g.action_history@.last() {
            TakActionRecord::PlacePiece { pos, .. } => match stack_at(g.board, pos) {
                Some(s) => if s.1.len() > 0 {
                    seq![s.1.last().id]
                } else {
                    Seq::empty()
                },
                None => Seq::empty(),
            },
            TakActionRecord::MovePiece { pos, dir, drops, .. } => if action_fits(g.action_history@.last()) {
                dropped_ids(g.board, pos, dir, drops@, drops@.len() as int)
            } else {
                Seq::empty()
            },
        }
    }
}

/// The ids of the pieces the last action of a game put down.
fn stones_from_last_action(game: &TakGame) -> (r: Vec<usize>)
    ensures
        r@ == last_stones(*game),
{
    let n = game.action_history.len();
    if n == 0 {
        return Vec::new();
    }
    let last = &game.action_history[n - 1];
    match last {
        TakActionRecord::PlacePiece { pos, .. } => match stack_at_of(&game.board, *pos) {
            Some(stack) => {
                let h = stack.composition.len();
                if h > 0 {
                    let r = vec![stack.composition[h - 1].id];
                    assert(r@ =~= seq![stack@.1.last().id]);
                    r
                } else {
                    Vec::new()
                }
            },
            None => Vec::new(),
        },
        TakActionRecord::MovePiece { pos, dir, drops, .. } => {
            if !record_fits(last) {
                return Vec::new();
            }
            let mut stones: Vec<usize> = Vec::new();
            let mut i: usize = 0;
            while i < drops.len()
                invariant
                    i <= drops@.len(),
                    drops@.len() < i32::MAX,
                    forall|j: int| 0 <= j <= drops@.len() ==> step_fits(*pos, *dir, j),
                    stones@ == dropped_ids(game.board, *pos, *dir, drops@, i as int),
                decreases drops@.len() - i,
            {
                let new_pos = pos.offset_dir_many(*dir, (i + 1) as i32);
                let ghost before = stones@;
                match stack_at_of(&game.board, new_pos) {
                    Some(stack) => {
                        let h = stack.composition.len();
                        if drops[i] <= h {
                            let mut j = h - drops[i];
                            let ghost from = j as int;
                            while j < h
                                invariant
                                    0 <= from <= j <= h,
                                    h == stack@.1.len(),
                                    h == stack.composition@.len(),
                                    stones@ == before + stack@.1.subrange(from, j as int).map_values(|p: TakPiece| p.id),
                                decreases h - j,
                            {
                                let ghost prev_ids = stones@;
                                stones.push(stack.composition[j].id);
                                assert(stack@.1.subrange(from, j + 1) =~= stack@.1.subrange(from, j as int).push(
                                    stack@.1[j as int],
                                ));
                                assert(stack@.1.subrange(from, j + 1).map_values(|p: TakPiece| p.id) =~= stack@.1.subrange(
                                    from,
                                    j as int,
                                ).map_values(|p: TakPiece| p.id).push(stack@.1[j as int].id));
                                assert(stones@ =~= before + stack@.1.subrange(from, j + 1).map_values(|p: TakPiece| p.id));
                                j = j + 1;
                            }
                        }
                    },
                    None => {},
                }
                assert(stones@ =~= dropped_ids(game.board, *pos, *dir, drops@, i + 1));
                i = i + 1;
            }
            stones
        },
    }
}

/// What a move being entered is: the pieces lifted, the drops so far, the
/// start cell and the direction once chosen.
pub open spec fn pm_view(pm: Option<TakPartialMove>) -> Option<(usize, Seq<usize>, TakCoord, Option<TakDir>)> {
    match pm {
        Some(m) => Some((m.take, m.drops@, m.pos, m.dir)),
        None => None,
    }
}

/// The drop cell of a move being entered, by its view.
pub open spec fn view_drop(v: (usize, Seq<usize>, TakCoord, Option<TakDir>)) -> TakCoord {
    match v.3 {
        Some(d) => step(v.2, d, v.1.len() as int),
        None => v.2,
    }
}

/// Whether a move being entered stays within the machine's numbers, its
/// drop cell strictly inside `i32`.
pub open spec fn view_fits(v: (usize, Seq<usize>, TakCoord, Option<TakDir>)) -> bool {
    &&& sum_of(v.1) <= usize::MAX
    &&& v.1.len() < i32::MAX
    &&& v.3 matches Some(d) ==> step_fits(v.2, d, v.1.len() as int)
    &&& i32::MIN < view_drop(v).x < i32::MAX
    &&& i32::MIN < view_drop(v).y < i32::MAX
}

/// What a click on `new_pos` makes of the move being entered in game `g`.
/// With no move yet, a click on a stack of the player to move starts one,
/// lifting as many pieces as the board is wide at most. A click on the drop
/// cell drops one more piece there (or, before the first drop, lifts one
/// fewer, ending the move at none). A click beside it, in the move's
/// direction if one is chosen, starts a new drop there, unless a capstone
/// stands there, or a wall that only the last piece, a capstone, may
/// flatten. Anything else ends the move, as does a finished game.
pub open spec fn next_move(g: TakGame, pm: Option<(usize, Seq<usize>, TakCoord, Option<TakDir>)>, new_pos: TakCoord) -> Option<
    (usize, Seq<usize>, TakCoord, Option<TakDir>),
> {
    if g.game_state != TakGameState::Ongoing {
        None
    } else {
        match pm {
            Some(v) => match stack_at(g.board, v.2) {
                None => None,
                Some(s) => if !view_fits(v) {
                    None
                } else if new_pos == view_drop(v) {
                    if v.1.len() > 0 {
                        if v.1.last() == usize::MAX {
                            None
                        } else {
                            Some((v.0, v.1.update(v.1.len() - 1, (v.1.last() + 1) as usize), v.2, v.3))
                        }
                    } else if v.0 <= 1 {
                        None
                    } else {
                        Some(((v.0 - 1) as usize, v.1, v.2, v.3))
                    }
                } else {
                    match adjacency(new_pos, view_drop(v)) {
                        None => None,
                        Some(nd) => if v.3 matches Some(d) && d != nd {
                            None
                        } else if match stack_at(g.board, new_pos) {
                            Some(o) => o.0 == TakPieceVariant::Capstone || (o.0 == TakPieceVariant::Wall && (
                            sum_of(v.1) + 1 != v.0 || s.0 != TakPieceVariant::Capstone)),
                            None => false,
                        } {
                            None
                        } else {
                            Some((v.0, v.1.push(1), v.2, Some(nd)))
                        },
                    }
                },
            },
            None => match stack_at(g.board, new_pos) {
                Some(s) => if s.1.len() > 0 && top_player(s) == g.current_player {
                    Some(
                        (
                            (if s.1.len() < g.board.size {
                                s.1.len()
                            } else {
                                g.board.size as nat
                            }) as usize,
                            Seq::empty(),
                            new_pos,
                            None,
                        ),
                    )
                } else {
                    None
                },
                None => None,
            },
        }
    }
}

/// What a click on `new_pos` makes of the move being entered.
fn next_partial(g: &TakGame, pm: &Option<TakPartialMove>, new_pos: TakCoord) -> (r: Option<TakPartialMove>)
    ensures
        pm_view(r) == next_move(*g, pm_view(*pm), new_pos),
{
    if g.game_state != TakGameState::Ongoing {
        return None;
    }
    match pm {
        Some(m) => {
            let stack = match stack_at_of(&g.board, m.pos) {
                Some(s) => s,
                None => {
                    return None;
                },
            };
            let ghost v = (m.take, m.drops@, m.pos, m.dir);
            let total = match crate::ui::drop_total(&m.drops) {
                Some(t) => t,
                None => {
                    return None;
                },
            };
            if m.drops.len() >= i32::MAX as usize {
                return None;
            }
            let fits = match m.dir {
                Some(d) => steps_fit(m.pos, d, m.drops.len()),
                None => true,
            };
            if !fits {
                return None;
            }
            let drop_pos = drop_pos_of(m);
            assert(drop_pos == view_drop(v));
            if drop_pos.x == i32::MIN || drop_pos.x == i32::MAX || drop_pos.y == i32::MIN || drop_pos.y == i32::MAX {
                return None;
            }
            let mut drops: Vec<usize> = Vec::new();
            for i in 0..m.drops.len()
                invariant
                    drops@ == m.drops@.take(i as int),
            {
                drops.push(m.drops[i]);
                assert(drops@ =~= m.drops@.take(i + 1));
            }
            assert(drops@ =~= m.drops@);
            if new_pos == drop_pos {
                let n = drops.len();
                if n > 0 {
                    let last = drops[n - 1];
                    if last == usize::MAX {
                        return None;
                    }
                    drops.set(n - 1, last + 1);
                    Some(TakPartialMove { take: m.take, drops, pos: m.pos, dir: m.dir })
                } else if m.take <= 1 {
                    None
                } else {
                    Some(TakPartialMove { take: m.take - 1, drops, pos: m.pos, dir: m.dir })
                }
            } else {
                let new_dir = match new_pos.is_adjacent(&drop_pos) {
                    Some(d) => d,
                    None => {
                        return None;
                    },
                };
                if let Some(dir) = m.dir {
                    if dir != new_dir {
                        return None;
                    }
                }
                if let Some(other) = stack_at_of(&g.board, new_pos) {
                    if other.variant == TakPieceVariant::Capstone {
                        return None;
                    }
                    if other.variant == TakPieceVariant::Wall {
                        if total >= m.take || m.take - total != 1 || stack.variant != TakPieceVariant::Capstone {
                            return None;
                        }
                    }
                }
                drops.push(1);
                Some(TakPartialMove { take: m.take, drops, pos: m.pos, dir: Some(new_dir) })
            }
        },
        None => {
            let stack = match stack_at_of(&g.board, new_pos) {
                Some(s) => s,
                None => {
                    return None;
                },
            };
            let h = stack.composition.len();
            if h > 0 && stack.player() == g.current_player {
                let take = if h < g.board.size {
                    h
                } else {
                    g.board.size
                };
                Some(TakPartialMove::new(take, new_pos))
            } else {
                None
            }
        },
    }
}

/// Whether `shown` is a copy of `played` without its clock.
pub open spec fn previews(shown: TakGame, played: TakGame) -> bool {
    game_view(shown) == game_view(TakGame { clock: None, ..played })
}

/// Games that agree in their views agree in whether their boards are sound.
proof fn lemma_view_wf(a: TakGame, b: TakGame)
    requires
        game_view(a) == game_view(b),
    ensures
        a.board.wf() == b.board.wf(),
{
    assert(a.board.board@.len() == a.board.cells().len());
    assert(b.board.board@.len() == b.board.cells().len());
}

/// A timeout check keeps the board and the limits an action needs.
proof fn lemma_timeout_keeps(g: TakGame, g2: TakGame, now: TakTimestamp, t: bool)
    requires
        timeout_outcome(g, g2, now, t),
    ensures
        g2.board == g.board,
        crate::game::action_fits(g) ==> crate::game::action_fits(g2),
{
}

/// Setting a time keeps the board.
proof fn lemma_time_set_board(g: TakGame, g2: TakGame, player: TakPlayer, t: u64)
    requires
        time_set(g, g2, player, t),
    ensures
        g2.board == g.board,
{
    if g.clock is Some {
        let (g1, now, out) = choose|g1: TakGame, now: TakTimestamp, out: bool|
            g1.clock matches Some(c1) && c1.time_remaining_millis@ == g.clock.unwrap().time_remaining_millis@.update(
                TakPlayer::idx(player),
                t,
            ) && c1.increment_millis == g.clock.unwrap().increment_millis && c1.last_update_timestamp
                == g.clock.unwrap().last_update_timestamp && g1 == TakGame { clock: g1.clock, ..g }
                && #[trigger] timeout_outcome(g1, g2, now, out);
        lemma_timeout_keeps(g1, g2, now, out);
    }
}

/// The pieces drawn after a timeout check: redrawn with no move being
/// entered when the game ended on time, else as before.
pub open spec fn drawn_after_check(shown: TakGame, prio: Seq<usize>, prev: Seq<(usize, TakUIPiece)>, ended: bool) -> Seq<
    (usize, TakUIPiece),
> {
    if ended {
        drawn_pieces(shown.board, None, prio, prev)
    } else {
        prev
    }
}

/// The action a partial move completes to, and whether it is complete: a
/// direction chosen and every lifted piece dropped.
fn completion(pm: &Option<TakPartialMove>) -> (r: (Option<TakAction>, bool))
    ensures
        r.0 matches Some(a) ==> *pm matches Some(m) && completed(m) == Some(action_spec(a)),
        r.0 is None ==> (*pm matches Some(m) ==> completed(m) is None),
        r.1 == (*pm matches Some(m) && m.dir is Some && sum_of(m.drops@) == m.take),
{
    match pm {
        Some(m) => {
            let valid = m.is_valid();
            match crate::ui::drop_total(&m.drops) {
                Some(_) => (m.try_to_action(), valid),
                None => (None, valid),
            }
        },
        None => (None, false),
    }
}

/// The state of a board display: the game played, the game shown (an
/// earlier position under review or a move being entered), the move being
/// entered, the pieces drawn last, and what is drawn of pieces and tiles.
pub struct TakUIState {
    preview_game: TakGame,
    actual_game: TakGame,
    pub pieces: Vec<(usize, TakUIPiece)>,
    pub tiles: Vec<TakUITile>,
    pub partial_move: Option<TakPartialMove>,
    pub priority_pieces: Vec<usize>,
    pub available_piece_types: [Vec<TakPieceVariant>; 2],
    pub flat_counts: [usize; 2],
}

impl TakUIState {
    /// The game shown.
    pub closed spec fn shown(&self) -> TakGame {
        self.preview_game
    }

    /// The game played.
    pub closed spec fn played(&self) -> TakGame {
        self.actual_game
    }

    /// The move being entered.
    pub closed spec fn pending(&self) -> Option<TakPartialMove> {
        self.partial_move
    }

    /// The ids of the pieces the last action moved, drawn last.
    pub closed spec fn priority(&self) -> Seq<usize> {
        self.priority_pieces@
    }

    /// The pieces drawn, with their ids.
    pub closed spec fn drawn(&self) -> Seq<(usize, TakUIPiece)> {
        self.pieces@
    }

    /// Whether both boards are sound.
    pub closed spec fn boards_ok(&self) -> bool {
        self.shown().board.wf() && self.played().board.wf()
    }

    /// Whether what is drawn agrees with the games, the move being entered,
    /// and the pieces drawn before (`prev`).
    pub closed spec fn displays(&self, prev: Seq<(usize, TakUIPiece)>) -> bool {
        let shown = self.shown();
        let played = self.played();
        let pm = shown_move(self.partial_move, shown.board.size as int);
        let clicks = click_options(pm, shown.board, played.board);
        &&& self.pieces@ == drawn_pieces(shown.board, pm, self.priority_pieces@, prev)
        &&& (self.flat_counts@[0] as nat, self.flat_counts@[1] as nat) == board_flats(
            shown.board.cells(),
            shown.board.cells().len() as int,
        )
        &&& self.tiles@.len() == shown.board.board@.len()
        &&& exists|hl: Seq<TakCoord>|
            #[trigger] highlight_ok(hl, shown, played) && forall|i: int|
                0 <= i < self.tiles@.len() ==> tile_ok(
                    #[trigger] self.tiles@[i],
                    shown.board,
                    i,
                    hl,
                    clicks,
                    if hl.len() == 0 {
                        last_tiles(played, shown)
                    } else {
                        Seq::empty()
                    },
                )
        &&& (self.available_piece_types[0]@, self.available_piece_types[1]@) == available_types(played)
    }

    /// Redraws: the pieces of the game shown (marking those that left the
    /// board), the flat counts, the tiles with their bridges and marks, and
    /// the kinds of pieces each player may place.
    pub fn on_game_update(&mut self)
        requires
            old(self).boards_ok(),
        ensures
            final(self).shown() == old(self).shown(),
            final(self).played() == old(self).played(),
            final(self).pending() == old(self).pending(),
            final(self).priority() == old(self).priority(),
            final(self).displays(old(self).drawn()),
    {
        let ghost prev = self.pieces@;
        let none_move: Option<TakPartialMove> = None;
        let shown_ok = move_shown(&self.partial_move, self.preview_game.board.size);
        let pm = if shown_ok {
            &self.partial_move
        } else {
            &none_move
        };
        assert(*pm == shown_move(self.partial_move, self.preview_game.board.size as int));
        let pieces = draw_pieces(&self.preview_game.board, pm, &self.priority_pieces, &self.pieces);
        let flat_counts = self.preview_game.board.count_flats();
        let click_options = clicks_of(pm, &self.preview_game.board, &self.actual_game.board);
        let highlighted_tiles = highlight_tiles(&self.preview_game, &self.actual_game);
        let last_tiles_v = if highlighted_tiles.len() == 0 {
            last_action_tiles(&self.actual_game, &self.preview_game)
        } else {
            Vec::new()
        };
        let ghost lat = last_tiles_v@;
        let board = &self.preview_game.board;
        let size = board.size;
        let n = board.board.len();
        assert(size * size == n);
        let coords = TakCoord::iter_board(size);
        let dirs = dirs_vec();
        let mut tiles: Vec<TakUITile> = Vec::new();
        let mut k: usize = 0;
        while k < n
            invariant
                board.wf(),
                n == board.board@.len(),
                size == board.size,
                coords@.len() == n,
                forall|j: int| 0 <= j < n ==> #[trigger] coords@[j] == coord_of(j, size as int),
                dirs@ == all_dirs(),
                lat == last_tiles_v@,
                k <= n,
                tiles@.len() == k,
                forall|i: int|
                    0 <= i < k ==> tile_ok(#[trigger] tiles@[i], *board, i, highlighted_tiles@, click_options@, lat),
            decreases n - k,
        {
            let pos = coords[k];
            let br = bridges_at(board, pos);
            let owner = match &br {
                Some((p, _)) => Some(*p),
                None => None,
            };
            let mut bridges: Vec<(TakDir, bool)> = Vec::new();
            let mut d: usize = 0;
            while d < 4
                invariant
                    dirs@ == all_dirs(),
                    d <= 4,
                    br matches Some((p, ds)) ==> bridges_of(*board, pos) == Some((p, ds@)),
                    br is None ==> bridges_of(*board, pos) is None,
                    bridges@ == all_dirs().take(d as int).map_values(
                        |dd: TakDir|
                            (
                                dd,
                                match bridges_of(*board, pos) {
                                    Some((_, ds)) => ds.contains(dd),
                                    None => false,
                                },
                            ),
                    ),
                decreases 4 - d,
            {
                let dir = dirs[d];
                let on = match &br {
                    Some((_, ds)) => has_dir(ds, dir),
                    None => false,
                };
                bridges.push((dir, on));
                assert(bridges@ =~= all_dirs().take(d + 1).map_values(
                    |dd: TakDir|
                        (
                            dd,
                            match bridges_of(*board, pos) {
                                Some((_, ds)) => ds.contains(dd),
                                None => false,
                            },
                        ),
                ));
                d = d + 1;
            }
            assert(all_dirs().take(4) =~= all_dirs());
            let tile = TakUITile {
                owner,
                bridges,
                highlighted: has_coord(&highlighted_tiles, pos),
                selectable: has_coord(&click_options, pos),
                last_action: has_coord(&last_tiles_v, pos),
            };
            proof {
                let bo = bridges_of(*board, pos);
                assert(pos == coord_of(k as int, size as int));
                assert(tile.owner == (match bo {
                    Some((p, _)) => Some(p),
                    None => None,
                }));
                assert(tile.bridges@ == all_dirs().map_values(
                    |dd: TakDir|
                        (
                            dd,
                            match bo {
                                Some((_, ds)) => ds.contains(dd),
                                None => false,
                            },
                        ),
                ));
                assert(tile.highlighted == highlighted_tiles@.contains(pos));
                assert(tile.selectable == click_options@.contains(pos));
                assert(tile.last_action == lat.contains(pos));
                assert(tile_ok(tile, *board, k as int, highlighted_tiles@, click_options@, lat));
            }
            tiles.push(tile);
            assert(tiles@[k as int] == tile);
            k = k + 1;
        }
        let available = if self.actual_game.ply_index < 2 {
            [vec![TakPieceVariant::Flat], vec![TakPieceVariant::Flat]]
        } else {
            [hand_types_of(&self.actual_game.hands[0]), hand_types_of(&self.actual_game.hands[1])]
        };
        proof {
            if self.actual_game.ply_index < 2 {
                assert(available[0]@ =~= seq![TakPieceVariant::Flat]);
                assert(available[1]@ =~= seq![TakPieceVariant::Flat]);
            }
        }
        self.pieces = pieces;
        self.flat_counts = flat_counts;
        self.tiles = tiles;
        self.available_piece_types = available;
        proof {
            let hl = highlighted_tiles@;
            assert(highlight_ok(hl, self.shown(), self.played()));
        }
    }

    /// A display of `game`, shown as it is, with nothing drawn before.
    pub fn new(game: TakGame) -> (r: Self)
        requires
            game.wf(),
        ensures
            game_view(r.played()) == game_view(game),
            r.shown() == game,
            r.pending() is None,
            r.priority().len() == 0,
            r.boards_ok(),
            r.displays(Seq::empty()),
    {
        let actual = game.duplicate();
        proof {
            lemma_view_wf(actual, game);
        }
        let mut state = TakUIState {
            preview_game: game,
            actual_game: actual,
            pieces: Vec::new(),
            tiles: Vec::new(),
            partial_move: None,
            priority_pieces: Vec::new(),
            available_piece_types: [Vec::new(), Vec::new()],
            flat_counts: [0, 0],
        };
        assert(state.drawn() =~= Seq::empty());
        state.on_game_update();
        state
    }

    /// The game shown.
    pub fn preview_game(&self) -> (r: &TakGame)
        ensures
            *r == self.shown(),
    {
        &self.preview_game
    }

    /// Whether an earlier position is under review.
    pub fn is_review(&self) -> (r: bool)
        ensures
            r == (self.played().ply_index > self.shown().ply_index),
    {
        self.actual_game.ply_index > self.preview_game.ply_index
    }

    /// The player to move in the position in view: in the game shown under
    /// review, else in the game played.
    pub fn get_visible_active_player(&self) -> (r: TakPlayer)
        ensures
            r == (if self.played().ply_index > self.shown().ply_index {
                self.shown().current_player
            } else {
                self.played().current_player
            }),
    {
        if self.is_review() {
            self.preview_game.current_player
        } else {
            self.actual_game.current_player
        }
    }

    /// The game played.
    pub fn game(&self) -> (r: &TakGame)
        ensures
            *r == self.played(),
    {
        &self.actual_game
    }

    /// The game played, to change.
    pub fn game_mut(&mut self) -> (r: &mut TakGame)
        ensures
            *r == old(self).played(),
            final(self).played() == *final(r),
            final(self).shown() == old(self).shown(),
            final(self).pending() == old(self).pending(),
            final(self).priority() == old(self).priority(),
            final(self).drawn() == old(self).drawn(),
    {
        &mut self.actual_game
    }

    /// Shows a copy of the game played, without its clock.
    fn clone_actual_game_into_preview(&mut self)
        ensures
            previews(final(self).shown(), old(self).played()),
            final(self).played() == old(self).played(),
            final(self).pending() == old(self).pending(),
            final(self).priority() == old(self).priority(),
            final(self).drawn() == old(self).drawn(),
    {
        let mut g = self.actual_game.duplicate();
        g.clock = None;
        self.preview_game = g;
    }

    /// Starts the game over from its settings and shows it, with no move
    /// being entered and no pieces drawn last.
    pub fn reset(&mut self)
        requires
            settings_ok(old(self).played().settings),
            settings_fit(old(self).played().settings),
        ensures
            started(old(self).played().settings, final(self).played()),
            previews(final(self).shown(), final(self).played()),
            final(self).pending() is None,
            final(self).priority().len() == 0,
            final(self).boards_ok(),
            final(self).displays(old(self).drawn()),
    {
        self.actual_game.reset();
        self.clone_actual_game_into_preview();
        self.partial_move = None;
        self.priority_pieces.clear();
        proof {
            lemma_view_wf(self.preview_game, TakGame { clock: None, ..self.actual_game });
        }
        self.on_game_update();
    }

    /// Sets `player`'s time left in the game played and redraws.
    pub fn set_time_remaining(&mut self, player: TakPlayer, time_remaining: u64)
        requires
            old(self).boards_ok(),
        ensures
            time_set(old(self).played(), final(self).played(), player, time_remaining),
            final(self).shown() == old(self).shown(),
            final(self).pending() == old(self).pending(),
            final(self).priority() == old(self).priority(),
            final(self).boards_ok(),
            final(self).displays(old(self).drawn()),
    {
        let ghost g0 = self.actual_game;
        self.actual_game.set_time_remaining(player, time_remaining);
        proof {
            lemma_time_set_board(g0, self.actual_game, player, time_remaining);
        }
        self.on_game_update();
    }

    /// Checks the game played for a timeout; when it ended, drops the move
    /// being entered and redraws.
    pub fn check_timeout(&mut self)
        requires
            old(self).boards_ok(),
        ensures
            final(self).boards_ok(),
            exists|now: TakTimestamp, t: bool|
                #[trigger] timeout_outcome(old(self).played(), final(self).played(), now, t) && if t {
                    &&& final(self).shown() == old(self).shown()
                    &&& final(self).pending() is None
                    &&& final(self).priority() == old(self).priority()
                    &&& final(self).displays(old(self).drawn())
                } else {
                    *final(self) == *old(self)
                },
    {
        let ghost g0 = self.actual_game;
        let t = self.actual_game.check_timeout();
        let ghost now = choose|now: TakTimestamp| timeout_outcome(g0, self.actual_game, now, t);
        proof {
            lemma_timeout_keeps(g0, self.actual_game, now, t);
        }
        if t {
            self.partial_move = None;
            self.on_game_update();
        }
        assert(timeout_outcome(old(self).played(), self.played(), now, t));
    }

    /// Plays `action` in the game played; on success shows the new position,
    /// drops the move being entered, draws the pieces it moved last, and
    /// redraws. On failure only the game played may change (a timeout found
    /// on the way).
    pub fn try_do_action(&mut self, action: TakAction) -> (r: Result<(), TakInvalidActionError>)
        requires
            old(self).boards_ok(),
            crate::game::action_fits(old(self).played()),
        ensures
            exists|now: TakTimestamp| action_outcome(old(self).played(), final(self).played(), action, now, r),
            final(self).boards_ok(),
            r is Ok ==> {
                &&& previews(final(self).shown(), final(self).played())
                &&& final(self).pending() is None
                &&& final(self).priority() == last_stones(final(self).played())
                &&& final(self).displays(old(self).drawn())
            },
            r is Err ==> {
                &&& final(self).shown() == old(self).shown()
                &&& final(self).pending() == old(self).pending()
                &&& final(self).priority() == old(self).priority()
                &&& final(self).drawn() == old(self).drawn()
            },
    {
        let r = self.actual_game.try_do_action(action);
        if r.is_err() {
            return r;
        }
        self.clone_actual_game_into_preview();
        self.partial_move = None;
        self.priority_pieces = stones_from_last_action(&self.actual_game);
        proof {
            lemma_view_wf(self.preview_game, TakGame { clock: None, ..self.actual_game });
        }
        self.on_game_update();
        r
    }

    /// Shows the game played as it stood at ply `ply_index`, without its
    /// clock, drops the move being entered, and draws last the pieces moved
    /// by the ply stepped over when stepping one ply forward or back. When
    /// the replay is refused nothing changes.
    pub fn try_seek_ply_index(&mut self, ply_index: usize)
        requires
            old(self).boards_ok(),
            ply_index <= old(self).played().ply_index,
            3 <= old(self).played().board.size <= 8,
            settings_fit(old(self).played().settings),
            crate::game::history_writable(old(self).played().action_history@),
            old(self).played().settings.start_position.move_index / 2 + old(self).played().action_history@.len() + 1
                <= usize::MAX,
        ensures
            final(self).played() == old(self).played(),
            final(self).boards_ok(),
            (*final(self) == *old(self) && exists|p: TakPtn|
                #[trigger] seek_ptn(old(self).played(), ply_index, p) && ptn_refused(p)) || exists|g: TakGame|
                #[trigger] seeks(old(self).played(), ply_index, g) && {
                    &&& final(self).shown() == TakGame { clock: None, ..g }
                    &&& final(self).pending() is None
                    &&& final(self).priority() == (if old(self).shown().ply_index + 1 == ply_index {
                        last_stones(final(self).shown())
                    } else if old(self).shown().ply_index == ply_index + 1 {
                        last_stones(old(self).shown())
                    } else {
                        Seq::empty()
                    })
                    &&& final(self).displays(old(self).drawn())
                },
    {
        let mut g = match self.actual_game.seek_ply_index(ply_index) {
            Some(g) => g,
            None => {
                return;
            },
        };
        let ghost g_seek = g;
        g.clock = None;
        let mut old_preview = g;
        std::mem::swap(&mut old_preview, &mut self.preview_game);
        self.partial_move = None;
        self.priority_pieces = if old_preview.ply_index < usize::MAX && old_preview.ply_index + 1 == ply_index {
            stones_from_last_action(&self.preview_game)
        } else if ply_index < usize::MAX && old_preview.ply_index == ply_index + 1 {
            stones_from_last_action(&old_preview)
        } else {
            Vec::new()
        };
        assert(self.priority_pieces@ =~= (if old(self).shown().ply_index + 1 == ply_index {
            last_stones(self.shown())
        } else if old(self).shown().ply_index == ply_index + 1 {
            last_stones(old(self).shown())
        } else {
            Seq::empty()
        }));
        self.on_game_update();
        assert(seeks(old(self).played(), ply_index, g_seek));
    }

    /// Shows the game played with `action` tried on a copy of it without
    /// its clock, draws last the pieces it moved, and redraws.
    fn do_partial_move(&mut self, action: TakAction)
        requires
            old(self).boards_ok(),
            crate::game::action_fits(old(self).played()),
        ensures
            exists|g0: TakGame, now: TakTimestamp, r: Result<(), TakInvalidActionError>|
                previews(g0, old(self).played()) && #[trigger] action_outcome(g0, final(self).shown(), action, now, r),
            final(self).played() == old(self).played(),
            final(self).pending() == old(self).pending(),
            final(self).priority() == last_stones(final(self).shown()),
            final(self).boards_ok(),
            final(self).displays(old(self).drawn()),
    {
        self.clone_actual_game_into_preview();
        let ghost g0 = self.preview_game;
        proof {
            lemma_view_wf(self.preview_game, TakGame { clock: None, ..self.actual_game });
        }
        let r = self.preview_game.try_do_action(action);
        let ghost now = choose|now: TakTimestamp| action_outcome(g0, self.preview_game, action, now, r);
        self.priority_pieces = stones_from_last_action(&self.preview_game);
        self.on_game_update();
        assert(action_outcome(g0, self.shown(), action, now, r));
    }

    /// Makes the move being entered what a click on `new_pos` makes of it
    /// in the game played (see `next_move`).
    fn update_partial_move(&mut self, new_pos: TakCoord)
        ensures
            pm_view(final(self).pending()) == next_move(old(self).played(), pm_view(old(self).pending()), new_pos),
            final(self).played() == old(self).played(),
            final(self).shown() == old(self).shown(),
            final(self).priority() == old(self).priority(),
            final(self).drawn() == old(self).drawn(),
    {
        self.partial_move = next_partial(&self.actual_game, &self.partial_move, new_pos);
    }

    /// A click on `new_pos`: checks the clock, updates the move being
    /// entered, and shows the game played. When the move completes to an
    /// action, a complete move is played (giving its result) and an
    /// incomplete one is shown tried on a copy.
    pub fn add_square_to_partial_move(&mut self, new_pos: TakCoord) -> (r: Option<Result<(), TakInvalidActionError>>)
        requires
            old(self).boards_ok(),
            crate::game::action_fits(old(self).played()),
        ensures
            final(self).boards_ok(),
            exists|g1: TakGame, now: TakTimestamp, t: bool, p: Option<TakPartialMove>|
                #![trigger timeout_outcome(old(self).played(), g1, now, t), pm_view(p)]
                timeout_outcome(old(self).played(), g1, now, t) && pm_view(p) == next_move(
                    g1,
                    pm_view(
                        if t {
                            None
                        } else {
                            old(self).pending()
                        },
                    ),
                    new_pos,
                ) && clicked(
                    g1,
                    p,
                    drawn_after_check(old(self).shown(), old(self).priority(), old(self).drawn(), t),
                    old(self).priority(),
                    *final(self),
                    r,
                ),
    {
        let ghost g0 = self.actual_game;
        self.check_timeout();
        let ghost (now, t) = choose|now: TakTimestamp, t: bool| #[trigger] timeout_outcome(g0, self.actual_game, now, t) && if t {
            &&& self.shown() == old(self).shown()
            &&& self.pending() is None
            &&& self.priority() == old(self).priority()
            &&& self.displays(old(self).drawn())
        } else {
            *self == *old(self)
        };
        let ghost g1 = self.actual_game;
        let ghost d = self.pieces@;
        proof {
            lemma_timeout_keeps(g0, g1, now, t);
            assert(d == drawn_after_check(old(self).shown(), old(self).priority(), old(self).drawn(), t));
        }
        self.update_partial_move(new_pos);
        let ghost p = self.partial_move;
        self.clone_actual_game_into_preview();
        proof {
            lemma_view_wf(self.preview_game, TakGame { clock: None, ..self.actual_game });
        }
        let (action_opt, valid) = completion(&self.partial_move);
        match action_opt {
            Some(action) => {
                if valid {
                    let res = self.try_do_action(action);
                    self.partial_move = None;
                    assert(clicked(g1, p, d, old(self).priority(), *self, Some(res)));
                    return Some(res);
                } else {
                    self.do_partial_move(action);
                    assert(clicked(g1, p, d, old(self).priority(), *self, None));
                    return None;
                }
            },
            None => {},
        }
        self.on_game_update();
        assert(clicked(g1, p, d, old(self).priority(), *self, None));
        None
    }
}

/// What a click leaves (`after`, giving `r`) once the clock was checked,
/// giving the game `g1`, and the move being entered became `p`, with
/// `drawn` the pieces drawn and `prio` those drawn last at that point. A
/// move that completes to an action and drops every piece is played in
/// the game: the move is dropped, and on success the new position is shown
/// and redrawn. One that completes but is not done is tried on a copy of
/// `g1` without its clock and shown. Otherwise `g1` is shown as it is.
pub open spec fn clicked(
    g1: TakGame,
    p: Option<TakPartialMove>,
    drawn: Seq<(usize, TakUIPiece)>,
    prio: Seq<usize>,
    after: TakUIState,
    r: Option<Result<(), TakInvalidActionError>>,
) -> bool {
    if p is Some && completed(p.unwrap()) is Some {
        let m = p.unwrap();
        exists|a: TakAction|
            #[trigger] action_spec(a) == completed(m).unwrap() && if m.dir is Some && sum_of(m.drops@) == m.take {
                &&& r is Some
                &&& exists|now: TakTimestamp| action_outcome(g1, after.played(), a, now, r.unwrap())
                &&& after.pending() is None
                &&& r.unwrap() is Ok ==> {
                    &&& previews(after.shown(), after.played())
                    &&& after.priority() == last_stones(after.played())
                    &&& after.displays(drawn)
                }
                &&& r.unwrap() is Err ==> {
                    &&& previews(after.shown(), g1)
                    &&& after.priority() == prio
                    &&& after.drawn() == drawn
                }
            } else {
                &&& r is None
                &&& after.played() == g1
                &&& after.pending() == p
                &&& exists|g0: TakGame, now: TakTimestamp, res: Result<(), TakInvalidActionError>|
                    previews(g0, g1) && #[trigger] action_outcome(g0, after.shown(), a, now, res)
                &&& after.priority() == last_stones(after.shown())
                &&& after.displays(drawn)
            }
    } else {
        &&& r is None
        &&& after.played() == g1
        &&& after.pending() == p
        &&& previews(after.shown(), g1)
        &&& after.priority() == prio
        &&& after.displays(drawn)
    }
}

/// The drops summed from the last agree with the drops summed in order.
proof fn lemma_sum_of_prefix(drops: Seq<usize>, k: int)
    requires
        0 <= k <= drops.len(),
    ensures
        sum_of(drops.take(k)) == crate::moves::drop_sum(drops, k),
    decreases k,
{
    if k > 0 {
        lemma_sum_of_prefix(drops, k - 1);
        assert(drops.take(k).drop_last() =~= drops.take(k - 1));
    }
}

/// Entering a move that playing accepts is never cancelled on the way: with
/// the first `k` drops of the move entered, a click on the next cell of its
/// path starts the next drop there with one piece, and with `m` pieces of
/// that drop entered, a click on the same cell drops one more; a lone
/// capstone's click onto a wall is among these.
pub proof fn law_entering_legal_move(
    g: TakGame,
    pos: TakCoord,
    dir: TakDir,
    take: usize,
    drops: Seq<usize>,
    k: int,
    m: usize,
)
    requires
        crate::game::move_result(g, pos, dir, take, drops) is Ok,
        0 <= k < drops.len(),
        view_fits((take, drops.take(k), pos, if k == 0 { None } else { Some(dir) })),
        view_fits((take, drops.take(k).push(m), pos, Some(dir))),
        step_fits(pos, dir, k + 1),
        i32::MIN < step(pos, dir, k + 1).x < i32::MAX,
        i32::MIN < step(pos, dir, k + 1).y < i32::MAX,
    ensures
        next_move(g, Some((take, drops.take(k), pos, if k == 0 { None } else { Some(dir) })), step(pos, dir, k + 1))
            == Some((take, drops.take(k).push(1), pos, Some(dir))),
        1 <= m < drops[k] ==> next_move(g, Some((take, drops.take(k).push(m), pos, Some(dir))), step(pos, dir, k + 1))
            == Some((take, drops.take(k).push((m + 1) as usize), pos, Some(dir))),
{
    let b = g.board;
    let st = b.cell(pos)->0;
    crate::movegen::lemma_scan_ok(b, pos, dir, take as int, drops, st.0, 0, false);
    assert(drops[k] >= 1 && crate::moves::in_board(b, step(pos, dir, k + 1)));
    let v = (take, drops.take(k), pos, if k == 0 { None } else { Some(dir) });
    let c = step(pos, dir, k + 1);
    if k == 0 {
        crate::coord::lemma_step_zero(pos, dir);
    } else {
        crate::coord::lemma_step_succ(pos, dir, k);
    }
    assert(view_drop(v) == step(pos, dir, k));
    crate::coord::lemma_step_succ(pos, dir, k);
    assert(step(view_drop(v), dir, 1) == c);
    crate::coord::law_adjacency_is_step(c, view_drop(v), dir);
    assert(adjacency(c, view_drop(v)) == Some(dir));
    assert(c != view_drop(v));
    assert(stack_at(b, pos) == Some(st));
    assert(stack_at(b, c) == b.cell(c));
    if k < drops.len() - 1 {
        assert(crate::movegen::flat_or_empty(b.cell(step(pos, dir, k + 1))));
    } else {
        lemma_sum_of_prefix(drops, k);
        assert(drops.take(k + 1).drop_last() =~= drops.take(k));
        assert(drops.take(k + 1) =~= drops);
        lemma_sum_of_prefix(drops, k + 1);
        assert(drops.last() == drops[k]);
    }
    let w = (take, drops.take(k).push(m), pos, Some(dir));
    assert(w.1.len() == k + 1);
    assert(view_drop(w) == c);
}

/// Once every drop of a move that playing accepts is entered, the move
/// being entered completes to exactly that move.
pub proof fn law_entered_move_completes(
    g: TakGame,
    pos: TakCoord,
    dir: TakDir,
    take: usize,
    drops: Seq<usize>,
    m: TakPartialMove,
)
    requires
        crate::game::move_result(g, pos, dir, take, drops) is Ok,
        m.take == take,
        m.drops@ == drops,
        m.pos == pos,
        m.dir == Some(dir),
    ensures
        completed(m) == Some((pos, Err::<TakPieceVariant, (TakDir, usize, Seq<usize>)>((dir, take, drops)))),
{
    let b = g.board;
    let st = b.cell(pos)->0;
    crate::movegen::lemma_scan_ok(b, pos, dir, take as int, drops, st.0, 0, false);
    let n = drops.len() as int;
    if n == 0 {
        assert(crate::moves::drop_sum(drops, 0) == 0);
    }
    lemma_sum_of_prefix(drops, n);
    assert(drops.take(n) =~= drops);
    assert(drops.update(n - 1, (drops[n - 1] + take - sum_of(drops)) as usize) =~= drops);
}

} // verus!
