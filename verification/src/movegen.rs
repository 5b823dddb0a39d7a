//! Move generation: every legal action in a position, and the ways to drop
//! a carried stack (the ordered ways of writing a number as a sum of a given
//! count of positive parts).
use vstd::prelude::*;

use crate::action::{action_spec, ActionSpec, TakAction};
use crate::board::StackView;
use crate::board_query::pieces_list;
use crate::coord::{cell_index, coord_of, on_board, step, TakCoord, TakDir};
use crate::game::{hand_has, place_result, placer, TakGame};
use crate::{TakGameState, TakPieceVariant, TakPlayer};

verus! {

/// The ordered ways of writing `num` as `n` positive parts, in
/// lexicographic order.
pub open spec fn partitions(num: nat, n: nat) -> Seq<Seq<usize>>
    decreases num, num + 2,
{
    if num < n || n == 0 || num == 0 {
        Seq::empty()
    } else if n == 1 {
        seq![seq![num as usize]]
    } else {
        partitions_from(num, n, 1)
    }
}

/// The ways of writing `num` as `n` positive parts whose first part is at
/// least `first`, in lexicographic order.
pub open spec fn partitions_from(num: nat, n: nat, first: nat) -> Seq<Seq<usize>>
    decreases num, num + 1 - first,
{
    if first < 1 || n < 1 || first + n > num + 1 {
        Seq::empty()
    } else {
        partitions((num - first) as nat, (n - 1) as nat).map_values(|p: Seq<usize>| seq![first as usize] + p)
            + partitions_from(num, n, first + 1)
    }
}

/// The sum of the parts.
pub open spec fn parts_sum(p: Seq<usize>) -> nat
    decreases p.len(),
{
    if p.len() == 0 {
        0
    } else {
        parts_sum(p.drop_first()) + p[0] as nat
    }
}

/// `p` writes `num` as `n` positive parts.
pub open spec fn is_partition(p: Seq<usize>, num: nat, n: nat) -> bool {
    &&& p.len() == n
    &&& forall|i: int| 0 <= i < p.len() ==> #[trigger] p[i] >= 1
    &&& parts_sum(p) == num
}

/// The view of a list of lists.
pub open spec fn nested_view(v: Seq<Vec<usize>>) -> Seq<Seq<usize>> {
    v.map_values(|x: Vec<usize>| x@)
}

/// Each way listed writes `num` as `n` positive parts.
pub proof fn law_partitions_sound(num: nat, n: nat, i: int)
    requires
        num <= usize::MAX,
        0 <= i < partitions(num, n).len(),
    ensures
        is_partition(partitions(num, n)[i], num, n),
    decreases num, num + 2,
{
    if num < n || n == 0 || num == 0 {
    } else if n == 1 {
        let p = partitions(num, n)[i];
        assert(p == seq![num as usize]);
        assert(p.drop_first() =~= Seq::<usize>::empty());
        assert(parts_sum(p.drop_first()) == 0);
        assert(p[0] as nat == num);
    } else {
        lemma_partitions_from_sound(num, n, 1, i);
    }
}

proof fn lemma_partitions_from_sound(num: nat, n: nat, first: nat, i: int)
    requires
        num <= usize::MAX,
        0 <= i < partitions_from(num, n, first).len(),
    ensures
        is_partition(partitions_from(num, n, first)[i], num, n),
    decreases num, num + 1 - first,
{
    if first < 1 || n < 1 || first + n > num + 1 {
    } else {
        let head = partitions((num - first) as nat, (n - 1) as nat);
        let mapped = head.map_values(|p: Seq<usize>| seq![first as usize] + p);
        if i < mapped.len() {
            law_partitions_sound((num - first) as nat, (n - 1) as nat, i);
            let q = head[i];
            let p = seq![first as usize] + q;
            assert(mapped[i] == p);
            assert(p.drop_first() =~= q);
            assert forall|j: int| 0 <= j < p.len() implies #[trigger] p[j] >= 1 by {
                if j > 0 {
                    assert(p[j] == q[j - 1]);
                }
            }
        } else {
            lemma_partitions_from_sound(num, n, first + 1, i - mapped.len());
        }
    }
}

/// The ways of writing `num` as `n` positive parts: each has `n` parts,
/// every part is at least 1, and the parts sum to `num`; listed in
/// lexicographic order. Empty when `num < n`, `n == 0` or `num == 0`.
pub fn partition_number(num: usize, n: usize) -> (r: Vec<Vec<usize>>)
    ensures
        nested_view(r@) == partitions(num as nat, n as nat),
    decreases num, num + 2,
{
    if num < n || n == 0 || num == 0 {
        let r: Vec<Vec<usize>> = Vec::new();
        assert(nested_view(r@) =~= partitions(num as nat, n as nat));
        r
    } else if n == 1 {
        let mut one: Vec<usize> = Vec::new();
        one.push(num);
        let mut r: Vec<Vec<usize>> = Vec::new();
        r.push(one);
        assert(nested_view(r@) =~= partitions(num as nat, n as nat));
        r
    } else {
        let mut result: Vec<Vec<usize>> = Vec::new();
        let last = num - n + 1;
        let mut first: usize = 1;
        while first <= last
            invariant
                1 <= first <= last + 1,
                last == num - n + 1,
                n >= 2,
                num >= n,
                nested_view(result@) + partitions_from(num as nat, n as nat, first as nat) == partitions_from(
                    num as nat,
                    n as nat,
                    1,
                ),
            decreases last + 1 - first,
        {
            let rest_all = partition_number(num - first, n - 1);
            let ghost head = partitions((num - first) as nat, (n - 1) as nat);
            let ghost r0 = nested_view(result@);
            let m = rest_all.len();
            for j in 0..m
                invariant
                    m == rest_all@.len(),
                    nested_view(rest_all@) == head,
                    nested_view(result@) == r0 + head.take(j as int).map_values(
                        |p: Seq<usize>| seq![first as usize] + p,
                    ),
            {
                let rest = &rest_all[j];
                let mut partition: Vec<usize> = Vec::new();
                partition.push(first);
                for t in 0..rest.len()
                    invariant
                        partition@ == seq![first as usize] + rest@.take(t as int),
                {
                    partition.push(rest[t]);
                    assert(rest@.take(t as int).push(rest@[t as int]) =~= rest@.take(t + 1));
                    assert(seq![first as usize] + rest@.take(t + 1) =~= (seq![first as usize]
                        + rest@.take(t as int)).push(rest@[t as int]));
                }
                proof {
                    assert(rest@.take(rest@.len() as int) =~= rest@);
                    assert(rest@ == head[j as int]);
                }
                let ghost before = result@;
                result.push(partition);
                proof {
                    assert(head.take(j + 1) =~= head.take(j as int).push(head[j as int]));
                    assert(nested_view(result@) =~= nested_view(before).push(partition@));
                    assert(head.take(j + 1).map_values(|p: Seq<usize>| seq![first as usize] + p)
                        =~= head.take(j as int).map_values(|p: Seq<usize>| seq![first as usize] + p).push(
                        seq![first as usize] + head[j as int],
                    ));
                }
            }
            proof {
                assert(head.take(m as int) =~= head);
                assert(partitions_from(num as nat, n as nat, first as nat) =~= head.map_values(
                    |p: Seq<usize>| seq![first as usize] + p,
                ) + partitions_from(num as nat, n as nat, (first + 1) as nat));
            }
            first = first + 1;
        }
        assert(partitions_from(num as nat, n as nat, first as nat) =~= Seq::<Seq<usize>>::empty());
        assert(nested_view(result@) =~= partitions(num as nat, n as nat));
        result
    }
}

/// For each take count from 0 to `max_take`, the ways of dropping it in
/// 0 to take steps: entry `[take][drop_len]` is `partition_number(take, drop_len)`.
pub fn compute_partition_memo(max_take: usize) -> (r: Vec<Vec<Vec<Vec<usize>>>>)
    requires
        max_take < usize::MAX,
    ensures
        r@.len() == max_take + 1,
        forall|t: int| 0 <= t <= max_take ==> (#[trigger] r@[t])@.len() == t + 1,
        forall|t: int, d: int|
            0 <= t <= max_take && 0 <= d <= t ==> nested_view(#[trigger] r@[t]@[d]@) == partitions(
                t as nat,
                d as nat,
            ),
{
    let mut memo: Vec<Vec<Vec<Vec<usize>>>> = Vec::new();
    for take in 0..max_take + 1
        invariant
            max_take < usize::MAX,
            memo@.len() == take,
            forall|t: int| 0 <= t < take ==> (#[trigger] memo@[t])@.len() == t + 1,
            forall|t: int, d: int|
                0 <= t < take && 0 <= d <= t ==> nested_view(#[trigger] memo@[t]@[d]@) == partitions(
                    t as nat,
                    d as nat,
                ),
    {
        let mut row: Vec<Vec<Vec<usize>>> = Vec::new();
        for drop_len in 0..take + 1
            invariant
                take < usize::MAX,
                row@.len() == drop_len,
                forall|d: int| 0 <= d < drop_len ==> nested_view(#[trigger] row@[d]@) == partitions(
                    take as nat,
                    d as nat,
                ),
        {
            row.push(partition_number(take, drop_len));
        }
        memo.push(row);
    }
    memo
}

/// The placements at position `pos` when it is empty: a flat and, past the
/// first two plies, a wall while the mover has stones; a capstone past the
/// first two plies while the mover has capstones.
pub open spec fn place_moves_at(g: TakGame, pos: TakCoord) -> Seq<ActionSpec> {
    let hand = g.hands@[TakPlayer::idx(g.current_player)];
    let stones = if hand.stones > 0 {
        if g.ply_index >= 2 {
            seq![(pos, Ok(TakPieceVariant::Flat)), (pos, Ok(TakPieceVariant::Wall))]
        } else {
            seq![(pos, Ok(TakPieceVariant::Flat))]
        }
    } else {
        Seq::empty()
    };
    let caps = if hand.capstones > 0 && g.ply_index >= 2 {
        seq![(pos, Ok(TakPieceVariant::Capstone))]
    } else {
        Seq::empty()
    };
    stones + caps
}

/// The placements on the first `k` cells, in cell order.
pub open spec fn place_moves(g: TakGame, k: int) -> Seq<ActionSpec>
    decreases k,
{
    if k <= 0 {
        Seq::empty()
    } else {
        place_moves(g, k - 1) + if g.board.cells()[k - 1] is None {
            place_moves_at(g, coord_of(k - 1, g.board.size as int))
        } else {
            Seq::empty()
        }
    }
}

/// Whether dropping `drops` on the cell `c` is blocked: a capstone always
/// blocks, a wall unless a lone capstone drops last on it.
pub open spec fn drop_blocked(c: Option<StackView>, drops: Seq<usize>, mover: TakPieceVariant) -> bool {
    match c {
        Some(t) => t.0 == TakPieceVariant::Capstone || (t.0 == TakPieceVariant::Wall && !(drops.last() == 1
            && mover == TakPieceVariant::Capstone)),
        None => false,
    }
}

/// The moves for the first `k` of the drop sequences `parts` that end on
/// cell `c`.
pub open spec fn drop_moves(
    parts: Seq<Seq<usize>>,
    k: int,
    c: Option<StackView>,
    pos: TakCoord,
    dir: TakDir,
    take: usize,
    mover: TakPieceVariant,
) -> Seq<ActionSpec>
    decreases k,
{
    if k <= 0 {
        Seq::empty()
    } else {
        drop_moves(parts, k - 1, c, pos, dir, take, mover) + if drop_blocked(c, parts[k - 1], mover) {
            Seq::empty()
        } else {
            seq![(pos, Err((dir, take, parts[k - 1])))]
        }
    }
}

/// The moves of `take` pieces from `pos` in direction `dir` over `d` to
/// `take` cells: each distance on the board gives the unblocked drop
/// sequences of that length, and a wall or capstone stops the ray after it.
pub open spec fn ray_moves(g: TakGame, memo: Seq<Vec<Vec<Vec<usize>>>>, pos: TakCoord, s: StackView, take: usize, dir: TakDir, d: int) -> Seq<ActionSpec>
    decreases take + 1 - d,
{
    if d < 1 || d > take {
        Seq::empty()
    } else {
        let c = step(pos, dir, d);
        if !on_board(c, g.board.size as int) {
            Seq::empty()
        } else {
            let cell = g.board.cells()[cell_index(c, g.board.size as int)];
            let parts = drop_table(memo, take as int, d);
            drop_moves(parts, parts.len() as int, cell, pos, dir, take, s.0) + if cell matches Some(t)
                && t.0 != TakPieceVariant::Flat {
                Seq::empty()
            } else {
                ray_moves(g, memo, pos, s, take, dir, d + 1)
            }
        }
    }
}

/// The four directions in the order moves are listed.
pub open spec fn dir_at(i: int) -> TakDir {
    if i == 0 {
        TakDir::Up
    } else if i == 1 {
        TakDir::Down
    } else if i == 2 {
        TakDir::Left
    } else {
        TakDir::Right
    }
}

/// The moves of `take` pieces from `pos` in the first `n` directions.
pub open spec fn take_moves(g: TakGame, memo: Seq<Vec<Vec<Vec<usize>>>>, pos: TakCoord, s: StackView, take: usize, n: int) -> Seq<ActionSpec>
    decreases n,
{
    if n <= 0 {
        Seq::empty()
    } else {
        take_moves(g, memo, pos, s, take, n - 1) + ray_moves(g, memo, pos, s, take, dir_at(n - 1), 1)
    }
}

/// The moves from the stack `s` at `pos` taking 1 to `t` pieces.
pub open spec fn stack_moves(g: TakGame, memo: Seq<Vec<Vec<Vec<usize>>>>, pos: TakCoord, s: StackView, t: int) -> Seq<ActionSpec>
    decreases t,
{
    if t <= 0 {
        Seq::empty()
    } else {
        stack_moves(g, memo, pos, s, t - 1) + take_moves(g, memo, pos, s, t as usize, 4)
    }
}

/// The moves from the first `k` stacks of a list.
pub open spec fn spread_moves(g: TakGame, memo: Seq<Vec<Vec<Vec<usize>>>>, stacks: Seq<(TakCoord, StackView)>, k: int) -> Seq<ActionSpec>
    decreases k,
{
    if k <= 0 {
        Seq::empty()
    } else {
        let (pos, s) = stacks[k - 1];
        let t = if s.1.len() < g.board.size {
            s.1.len() as int
        } else {
            g.board.size as int
        };
        spread_moves(g, memo, stacks, k - 1) + stack_moves(g, memo, pos, s, t)
    }
}

/// Every action the player to move may try, in the order they are listed:
/// none once the game is over; the placements on each empty cell in cell
/// order; then, past the first two plies, the moves from each of the
/// mover's stacks in cell order, by take count, direction (up, down, left,
/// right), distance and drop sequence.
pub open spec fn all_moves(g: TakGame, memo: Seq<Vec<Vec<Vec<usize>>>>) -> Seq<ActionSpec> {
    if g.game_state != TakGameState::Ongoing {
        Seq::empty()
    } else {
        let n = g.board.cells().len() as int;
        let places = place_moves(g, n);
        if g.ply_index < 2 {
            places
        } else {
            let stacks = pieces_list(g.board.cells(), g.board.size as int, Some(g.current_player), n);
            places + spread_moves(g, memo, stacks, stacks.len() as int)
        }
    }
}

/// The drop sequences of `take` pieces over `d` cells: the memo's entry
/// when it covers `take`, else the partitions computed.
pub open spec fn drop_table(memo: Seq<Vec<Vec<Vec<usize>>>>, take: int, d: int) -> Seq<Seq<usize>> {
    if memo.len() > take {
        nested_view(memo[take]@[d]@)
    } else {
        partitions(take as nat, d as nat)
    }
}

/// Whether a memo can be read as the moves are listed: the entry for each
/// take count it covers has a row for every drop length up to it, and no
/// drop sequence in those rows is empty.
pub open spec fn memo_fits(memo: Seq<Vec<Vec<Vec<usize>>>>) -> bool {
    forall|t: int|
        0 <= t < memo.len() ==> (#[trigger] memo[t])@.len() > t && forall|d: int, i: int|
            1 <= d <= t && 0 <= i < memo[t]@[d]@.len() ==> (#[trigger] memo[t]@[d]@[i])@.len() > 0
}

/// Whether `memo` lists the drop sequences: entry `[t][d]` is
/// `partition_number(t, d)` for every take count `t` it covers.
pub open spec fn memo_ok(memo: Seq<Vec<Vec<Vec<usize>>>>) -> bool {
    forall|t: int|
        0 <= t < memo.len() ==> (#[trigger] memo[t])@.len() == t + 1 && forall|d: int|
            0 <= d <= t ==> nested_view(#[trigger] memo[t]@[d]@) == partitions(t as nat, d as nat)
}

/// The view of a list of actions.
pub open spec fn actions_view(v: Seq<TakAction>) -> Seq<ActionSpec> {
    v.map_values(|a: TakAction| action_spec(a))
}

/// Appends the moves of the drop sequences in `parts` that end on `c`.
fn push_drop_moves(
    moves: &mut Vec<TakAction>,
    parts: &Vec<Vec<usize>>,
    c: Option<&crate::board::TakStack>,
    pos: TakCoord,
    dir: TakDir,
    take: usize,
    mover: TakPieceVariant,
)
    requires
        forall|i: int| 0 <= i < parts@.len() ==> (#[trigger] parts@[i])@.len() > 0,
    ensures
        actions_view(final(moves)@) == actions_view(old(moves)@) + drop_moves(
            nested_view(parts@),
            parts@.len() as int,
            match c {
                Some(t) => Some(t@),
                None => None,
            },
            pos,
            dir,
            take,
            mover,
        ),
{
    let ghost cv = match c {
        Some(t) => Some(t@),
        None => None::<StackView>,
    };
    let ghost pv = nested_view(parts@);
    for i in 0..parts.len()
        invariant
            forall|i: int| 0 <= i < parts@.len() ==> (#[trigger] parts@[i])@.len() > 0,
            pv == nested_view(parts@),
            cv == (match c {
                Some(t) => Some(t@),
                None => None::<StackView>,
            }),
            actions_view(moves@) == actions_view(old(moves)@) + drop_moves(pv, i as int, cv, pos, dir, take, mover),
    {
        let drops = &parts[i];
        assert(pv[i as int] == drops@);
        let blocked = match c {
            Some(t) => t.variant == TakPieceVariant::Capstone || (t.variant == TakPieceVariant::Wall && !(
            drops[drops.len() - 1] == 1 && mover == TakPieceVariant::Capstone)),
            None => false,
        };
        assert(blocked == drop_blocked(cv, pv[i as int], mover));
        let ghost before = moves@;
        if !blocked {
            let d = drops.clone();
            assert(d@ =~= drops@);
            moves.push(TakAction::MovePiece { pos, dir, take, drops: d });
            assert(actions_view(moves@) =~= actions_view(before).push(action_spec(moves@[moves@.len() - 1])));
        }
        assert(actions_view(moves@) =~= actions_view(old(moves)@) + drop_moves(pv, i + 1, cv, pos, dir, take, mover));
    }
}

/// Each stack listed by `pieces_list` lies on the board, in the cell at its
/// position.
proof fn lemma_pieces_list_at(cells: Seq<Option<StackView>>, size: int, player: Option<TakPlayer>, k: int)
    requires
        0 <= k <= cells.len(),
        cells.len() == size * size,
        0 <= size <= i32::MAX,
    ensures
        forall|i: int|
            0 <= i < pieces_list(cells, size, player, k).len() ==> on_board(
                (#[trigger] pieces_list(cells, size, player, k)[i]).0,
                size,
            ) && cells[cell_index(pieces_list(cells, size, player, k)[i].0, size)] == Some(
                pieces_list(cells, size, player, k)[i].1,
            ),
    decreases k,
{
    if k > 0 {
        lemma_pieces_list_at(cells, size, player, k - 1);
        crate::coord::lemma_coord_of(k - 1, size);
        let prev = pieces_list(cells, size, player, k - 1);
        assert forall|i: int|
            0 <= i < pieces_list(cells, size, player, k).len() implies on_board(
                (#[trigger] pieces_list(cells, size, player, k)[i]).0,
                size,
            ) && cells[cell_index(pieces_list(cells, size, player, k)[i].0, size)] == Some(
                pieces_list(cells, size, player, k)[i].1,
            ) by {
            if i < prev.len() {
                assert(pieces_list(cells, size, player, k)[i] == prev[i]);
            }
        }
    }
}

impl TakGame {
    /// Appends the moves of `take` pieces from `pos` in direction `dir`: see `ray_moves`.
    fn push_ray_moves(
        &self,
        moves: &mut Vec<TakAction>,
        memo: &Vec<Vec<Vec<Vec<usize>>>>,
        pos: TakCoord,
        stack: &crate::board::TakStack,
        take: usize,
        dir: TakDir,
    )
        requires
            self.wf(),
            2 * self.board.size <= i32::MAX,
            memo_fits(memo@),
            on_board(pos, self.board.size as int),
            1 <= take <= self.board.size,
        ensures
            actions_view(final(moves)@) == actions_view(old(moves)@) + ray_moves(*self, memo@, pos, stack@, take, dir, 1),
    {
        let size = self.board.size;
        let ghost g = *self;
        let mut d: usize = 1;
        let mut done = false;
        while d <= take && !done
            invariant
                g == *self,
                self.wf(),
                2 * size <= i32::MAX,
                size == self.board.size,
                memo_fits(memo@),
                on_board(pos, size as int),
                1 <= take <= size,
                1 <= d <= take + 1,
                done ==> actions_view(old(moves)@) + ray_moves(g, memo@, pos, stack@, take, dir, 1) == actions_view(moves@),
                !done ==> actions_view(old(moves)@) + ray_moves(g, memo@, pos, stack@, take, dir, 1) == actions_view(moves@)
                    + ray_moves(g, memo@, pos, stack@, take, dir, d as int),
            decreases take + 1 - d + if done { 0int } else { 1int },
        {
            let c = pos.offset_dir_many(dir, d as i32);
            let ghost m0 = actions_view(moves@);
            if !c.is_valid(size) {
                assert(m0 + ray_moves(g, memo@, pos, stack@, take, dir, d as int) =~= m0);
                done = true;
            } else {
                let computed: Vec<Vec<usize>>;
                let parts: &Vec<Vec<usize>> = if memo.len() > take {
                    assert(memo@[take as int]@.len() > take);
                    &memo[take][d]
                } else {
                    computed = partition_number(take, d);
                    &computed
                };
                proof {
                    assert(nested_view(parts@) == drop_table(memo@, take as int, d as int));
                    assert forall|i: int| 0 <= i < parts@.len() implies (#[trigger] parts@[i])@.len() > 0 by {
                        if memo.len() > take {
                            assert(memo@[take as int]@[d as int]@[i]@.len() > 0);
                        } else {
                            law_partitions_sound(take as nat, d as nat, i);
                            assert(nested_view(parts@)[i] == parts@[i]@);
                        }
                    }
                    crate::coord::lemma_index_bounds_pub(c, size as int);
                }
                let target = self.board.try_get_stack(c);
                let ghost before = moves@;
                push_drop_moves(moves, parts, target, pos, dir, take, stack.variant);
                let stop = match target {
                    Some(t) => t.variant != TakPieceVariant::Flat,
                    None => false,
                };
                proof {
                    let cell = g.board.cells()[cell_index(c, size as int)];
                    assert(cell == match target {
                        Some(t) => Some(t@),
                        None => None::<StackView>,
                    });
                    assert(stop == (cell matches Some(t) && t.0 != TakPieceVariant::Flat));
                }
                proof {
                    let cell = g.board.cells()[cell_index(c, size as int)];
                    let pv = drop_table(memo@, take as int, d as int);
                    let dm = drop_moves(pv, pv.len() as int, cell, pos, dir, take, stack@.0);
                    assert(actions_view(moves@) == m0 + dm);
                    if stop {
                        assert(ray_moves(g, memo@, pos, stack@, take, dir, d as int) =~= dm);
                    } else {
                        assert(ray_moves(g, memo@, pos, stack@, take, dir, d as int) =~= dm + ray_moves(g, memo@, pos, stack@, take, dir, d + 1));
                        assert(m0 + (dm + ray_moves(g, memo@, pos, stack@, take, dir, d + 1)) =~= (m0 + dm) + ray_moves(g, memo@, pos, stack@, take, dir, d + 1));
                    }
                }
                if stop {
                    done = true;
                } else {
                    d = d + 1;
                }
            }
        }
    }

    /// Appends the moves of `take` pieces from `pos` in the four directions.
    fn push_take_moves(
        &self,
        moves: &mut Vec<TakAction>,
        memo: &Vec<Vec<Vec<Vec<usize>>>>,
        pos: TakCoord,
        stack: &crate::board::TakStack,
        take: usize,
    )
        requires
            self.wf(),
            2 * self.board.size <= i32::MAX,
            memo_fits(memo@),
            on_board(pos, self.board.size as int),
            1 <= take <= self.board.size,
        ensures
            actions_view(final(moves)@) == actions_view(old(moves)@) + take_moves(*self, memo@, pos, stack@, take, 4),
    {
        let ghost m0 = actions_view(moves@);
        self.push_ray_moves(moves, memo, pos, stack, take, TakDir::Up);
        self.push_ray_moves(moves, memo, pos, stack, take, TakDir::Down);
        self.push_ray_moves(moves, memo, pos, stack, take, TakDir::Left);
        self.push_ray_moves(moves, memo, pos, stack, take, TakDir::Right);
        proof {
            reveal_with_fuel(take_moves, 5);
            assert(actions_view(moves@) =~= m0 + take_moves(*self, memo@, pos, stack@, take, 4));
        }
    }

    /// Appends the moves from the stack at `pos` taking 1 to `t` pieces.
    fn push_stack_moves(
        &self,
        moves: &mut Vec<TakAction>,
        memo: &Vec<Vec<Vec<Vec<usize>>>>,
        pos: TakCoord,
        stack: &crate::board::TakStack,
        t: usize,
    )
        requires
            self.wf(),
            2 * self.board.size <= i32::MAX,
            memo_fits(memo@),
            on_board(pos, self.board.size as int),
            t <= self.board.size,
        ensures
            actions_view(final(moves)@) == actions_view(old(moves)@) + stack_moves(*self, memo@, pos, stack@, t as int),
    {
        for take in 1..t + 1
            invariant
                self.wf(),
                2 * self.board.size <= i32::MAX,
                memo_fits(memo@),
                on_board(pos, self.board.size as int),
                t <= self.board.size,
                actions_view(moves@) == actions_view(old(moves)@) + stack_moves(*self, memo@, pos, stack@, take - 1),
        {
            let ghost before = actions_view(moves@);
            self.push_take_moves(moves, memo, pos, stack, take);
            assert(actions_view(moves@) =~= actions_view(old(moves)@) + stack_moves(*self, memo@, pos, stack@, take as int));
        }
    }
}

/// Every action the player to move may try, in a fixed order: see
/// `all_moves`. `partition_memo` holds the drop sequences for small take
/// counts, used as they stand; larger ones are computed.
pub fn gen_moves(game: &TakGame, partition_memo: &Vec<Vec<Vec<Vec<usize>>>>) -> (r: Vec<TakAction>)
    requires
        game.wf(),
        2 * game.board.size <= i32::MAX,
        memo_fits(partition_memo@),
    ensures
        actions_view(r@) == all_moves(*game, partition_memo@),
{
    let mut moves: Vec<TakAction> = Vec::new();
    if game.game_state != TakGameState::Ongoing {
        assert(actions_view(moves@) =~= all_moves(*game, partition_memo@));
        return moves;
    }
    let player = game.current_player;
    let hand = game.hands[player.index()];
    let size = game.board.size;
    let n = game.board.board.len();
    let coords = TakCoord::iter_board(size);
    for k in 0..n
        invariant
            game.wf(),
            n == game.board.board@.len(),
            size == game.board.size,
            coords@.len() == n,
            hand == game.hands@[TakPlayer::idx(game.current_player)],
            player == game.current_player,
            forall|j: int| 0 <= j < n ==> #[trigger] coords@[j] == coord_of(j, size as int),
            actions_view(moves@) == place_moves(*game, k as int),
    {
        let pos = coords[k];
        proof {
            crate::coord::lemma_coord_of(k as int, size as int);
        }
        let ghost before = actions_view(moves@);
        if game.board.can_place(pos).is_ok() {
            if hand.stones > 0 {
                moves.push(TakAction::PlacePiece { pos, variant: TakPieceVariant::Flat });
                if game.ply_index >= 2 {
                    moves.push(TakAction::PlacePiece { pos, variant: TakPieceVariant::Wall });
                }
            }
            if hand.capstones > 0 && game.ply_index >= 2 {
                moves.push(TakAction::PlacePiece { pos, variant: TakPieceVariant::Capstone });
            }
            assert(actions_view(moves@) =~= before + place_moves_at(*game, pos));
        } else {
            assert(actions_view(moves@) =~= before);
        }
    }
    if game.ply_index < 2 {
        return moves;
    }
    let stacks = game.board.iter_pieces(Some(player));
    let ghost list = pieces_list(game.board.cells(), size as int, Some(player), n as int);
    let ghost places = actions_view(moves@);
    proof {
        lemma_pieces_list_at(game.board.cells(), size as int, Some(player), n as int);
    }
    for j in 0..stacks.len()
        invariant
            game.wf(),
            2 * game.board.size <= i32::MAX,
            memo_fits(partition_memo@),
            size == game.board.size,
            list == pieces_list(game.board.cells(), size as int, Some(player), n as int),
            stacks@.len() == list.len(),
            forall|i: int| 0 <= i < stacks@.len() ==> (#[trigger] stacks@[i]).0 == list[i].0 && stacks@[i].1@ == list[i].1,
            forall|i: int| 0 <= i < list.len() ==> on_board((#[trigger] list[i]).0, size as int),
            actions_view(moves@) == places + spread_moves(*game, partition_memo@, list, j as int),
    {
        let (pos, stack) = stacks[j];
        assert(list[j as int].0 == pos);
        let h = stack.height();
        let t = if h < size {
            h
        } else {
            size
        };
        game.push_stack_moves(&mut moves, partition_memo, pos, stack, t);
        assert(actions_view(moves@) =~= places + spread_moves(*game, partition_memo@, list, j + 1));
    }
    moves
}

/// The placement of `v` at `pos`, as a generated move.
pub open spec fn place_spec(pos: TakCoord, v: TakPieceVariant) -> ActionSpec {
    (pos, Ok(v))
}

/// Whether `v` may be placed from the hand of the player to move at this
/// ply: a flat when a stone is left, a wall too from the third ply on, and
/// a capstone from the third ply on when one is left.
pub open spec fn placeable(g: TakGame, v: TakPieceVariant) -> bool {
    let hand = g.hands@[TakPlayer::idx(g.current_player)];
    match v {
        TakPieceVariant::Flat => hand.stones > 0,
        TakPieceVariant::Wall => hand.stones > 0 && g.ply_index >= 2,
        TakPieceVariant::Capstone => hand.capstones > 0 && g.ply_index >= 2,
    }
}

/// The placements at a cell are those of a placeable variant there.
proof fn lemma_place_at_contain(g: TakGame, c: TakCoord, pos: TakCoord, v: TakPieceVariant)
    ensures
        place_moves_at(g, c).contains(place_spec(pos, v)) <==> pos == c && placeable(g, v),
{
    let m = place_moves_at(g, c);
    if pos == c && placeable(g, v) {
        let hand = g.hands@[TakPlayer::idx(g.current_player)];
        match v {
            TakPieceVariant::Flat => {
                assert(m[0] == place_spec(pos, v));
            },
            TakPieceVariant::Wall => {
                assert(m[1] == place_spec(pos, v));
            },
            TakPieceVariant::Capstone => {
                assert(m[m.len() - 1] == place_spec(pos, v));
            },
        }
    }
    if m.contains(place_spec(pos, v)) {
        let i = choose|i: int| 0 <= i < m.len() && m[i] == place_spec(pos, v);
    }
}

/// The placements on the first `k` cells are those of a placeable variant
/// on an empty cell among them.
proof fn lemma_place_moves_contain(g: TakGame, k: int, pos: TakCoord, v: TakPieceVariant)
    requires
        g.wf(),
        0 <= k <= g.board.cells().len(),
    ensures
        place_moves(g, k).contains(place_spec(pos, v)) <==> on_board(pos, g.board.size as int) && cell_index(
            pos,
            g.board.size as int,
        ) < k && g.board.cells()[cell_index(pos, g.board.size as int)] is None && placeable(g, v),
    decreases k,
{
    let size = g.board.size as int;
    if k > 0 {
        lemma_place_moves_contain(g, k - 1, pos, v);
        crate::coord::lemma_coord_of(k - 1, size);
        let c = coord_of(k - 1, size);
        let prev = place_moves(g, k - 1);
        let here = if g.board.cells()[k - 1] is None {
            place_moves_at(g, c)
        } else {
            Seq::empty()
        };
        assert(place_moves(g, k) == prev + here);
        lemma_place_at_contain(g, c, pos, v);
        if on_board(pos, size) {
            crate::coord::lemma_index_bounds_pub(pos, size);
            if cell_index(pos, size) == k - 1 {
                crate::coord::lemma_index_injective(pos, c, size);
            }
        }
        if (prev + here).contains(place_spec(pos, v)) {
            let i = choose|i: int| 0 <= i < (prev + here).len() && (prev + here)[i] == place_spec(pos, v);
            if i < prev.len() {
                assert(prev[i] == place_spec(pos, v));
            } else {
                assert(here[i - prev.len()] == place_spec(pos, v));
                assert(pos == c);
            }
        }
        if on_board(pos, size) && cell_index(pos, size) < k && g.board.cells()[cell_index(pos, size)] is None
            && placeable(g, v) {
            if cell_index(pos, size) < k - 1 {
                let i = choose|i: int| 0 <= i < prev.len() && prev[i] == place_spec(pos, v);
                assert((prev + here)[i] == place_spec(pos, v));
            } else {
                assert(pos == c);
                let j = choose|j: int| 0 <= j < here.len() && here[j] == place_spec(pos, v);
                assert((prev + here)[prev.len() + j] == place_spec(pos, v));
            }
        }
    }
}

/// The spreads from the first `k` stacks hold no placement.
proof fn lemma_spread_moves_no_place(g: TakGame, memo: Seq<Vec<Vec<Vec<usize>>>>, stacks: Seq<(TakCoord, StackView)>, k: int, i: int)
    requires
        0 <= i < spread_moves(g, memo, stacks, k).len(),
    ensures
        spread_moves(g, memo, stacks, k)[i].1 is Err,
    decreases k,
{
    if k > 0 {
        let prev = spread_moves(g, memo, stacks, k - 1);
        let (pos, st) = stacks[k - 1];
        let t = if st.1.len() < g.board.size {
            st.1.len() as int
        } else {
            g.board.size as int
        };
        if i < prev.len() {
            lemma_spread_moves_no_place(g, memo, stacks, k - 1, i);
        } else {
            lemma_stack_moves_no_place(g, memo, pos, st, t, i - prev.len());
        }
    }
}

/// The spreads of a stack hold no placement.
proof fn lemma_stack_moves_no_place(g: TakGame, memo: Seq<Vec<Vec<Vec<usize>>>>, pos: TakCoord, st: StackView, t: int, i: int)
    requires
        0 <= i < stack_moves(g, memo, pos, st, t).len(),
    ensures
        stack_moves(g, memo, pos, st, t)[i].1 is Err,
    decreases t,
{
    if t > 0 {
        let prev = stack_moves(g, memo, pos, st, t - 1);
        if i < prev.len() {
            lemma_stack_moves_no_place(g, memo, pos, st, t - 1, i);
        } else {
            lemma_take_moves_no_place(g, memo, pos, st, t as usize, 4, i - prev.len());
        }
    }
}

/// The spreads of `take` pieces in the first `n` directions hold no
/// placement.
proof fn lemma_take_moves_no_place(g: TakGame, memo: Seq<Vec<Vec<Vec<usize>>>>, pos: TakCoord, st: StackView, take: usize, n: int, i: int)
    requires
        0 <= i < take_moves(g, memo, pos, st, take, n).len(),
    ensures
        take_moves(g, memo, pos, st, take, n)[i].1 is Err,
    decreases n,
{
    if n > 0 {
        let prev = take_moves(g, memo, pos, st, take, n - 1);
        if i < prev.len() {
            lemma_take_moves_no_place(g, memo, pos, st, take, n - 1, i);
        } else {
            lemma_ray_moves_no_place(g, memo, pos, st, take, dir_at(n - 1), 1, i - prev.len());
        }
    }
}

/// The spreads along a ray hold no placement.
proof fn lemma_ray_moves_no_place(g: TakGame, memo: Seq<Vec<Vec<Vec<usize>>>>, pos: TakCoord, st: StackView, take: usize, dir: TakDir, d: int, i: int)
    requires
        0 <= i < ray_moves(g, memo, pos, st, take, dir, d).len(),
    ensures
        ray_moves(g, memo, pos, st, take, dir, d)[i].1 is Err,
    decreases take + 1 - d,
{
    if 1 <= d <= take {
        let c = step(pos, dir, d);
        if on_board(c, g.board.size as int) {
            let cell = g.board.cells()[cell_index(c, g.board.size as int)];
            let parts = drop_table(memo, take as int, d);
            let dm = drop_moves(parts, parts.len() as int, cell, pos, dir, take, st.0);
            if i < dm.len() {
                lemma_drop_moves_no_place(parts, parts.len() as int, cell, pos, dir, take, st.0, i);
            } else {
                lemma_ray_moves_no_place(g, memo, pos, st, take, dir, d + 1, i - dm.len());
            }
        }
    }
}

/// The moves of drop sequences hold no placement.
proof fn lemma_drop_moves_no_place(
    parts: Seq<Seq<usize>>,
    k: int,
    c: Option<StackView>,
    pos: TakCoord,
    dir: TakDir,
    take: usize,
    mover: TakPieceVariant,
    i: int,
)
    requires
        0 <= i < drop_moves(parts, k, c, pos, dir, take, mover).len(),
    ensures
        drop_moves(parts, k, c, pos, dir, take, mover)[i].1 is Err,
    decreases k,
{
    if k > 0 {
        let prev = drop_moves(parts, k - 1, c, pos, dir, take, mover);
        if i < prev.len() {
            lemma_drop_moves_no_place(parts, k - 1, c, pos, dir, take, mover, i);
        }
    }
}

/// A placement is among the generated moves exactly when placing it
/// succeeds, whenever the player whose piece is placed holds the same
/// reserves as the player to move (always from the third ply on).
pub proof fn law_placements_generated(g: TakGame, memo: Seq<Vec<Vec<Vec<usize>>>>, pos: TakCoord, v: TakPieceVariant)
    requires
        g.wf(),
        g.hands@.len() == 2,
        g.hands@[TakPlayer::idx(placer(g))] == g.hands@[TakPlayer::idx(g.current_player)],
    ensures
        all_moves(g, memo).contains(place_spec(pos, v)) <==> place_result(g, pos, v) is Ok,
{
    let n = g.board.cells().len() as int;
    lemma_place_moves_contain(g, n, pos, v);
    if g.game_state == TakGameState::Ongoing && g.ply_index >= 2 {
        let places = place_moves(g, n);
        let stacks = pieces_list(g.board.cells(), g.board.size as int, Some(g.current_player), n);
        let sp = spread_moves(g, memo, stacks, stacks.len() as int);
        assert(all_moves(g, memo) == places + sp);
        if (places + sp).contains(place_spec(pos, v)) {
            let i = choose|i: int| 0 <= i < (places + sp).len() && (places + sp)[i] == place_spec(pos, v);
            if i >= places.len() {
                lemma_spread_moves_no_place(g, memo, stacks, stacks.len() as int, i - places.len());
                assert(sp[i - places.len()] == place_spec(pos, v));
            }
            assert(places.contains(place_spec(pos, v)));
        }
        if places.contains(place_spec(pos, v)) {
            let i = choose|i: int| 0 <= i < places.len() && places[i] == place_spec(pos, v);
            assert((places + sp)[i] == place_spec(pos, v));
        }
    }
}

/// A memo that lists the partitions, as `compute_partition_memo` builds
/// it, can be read as the moves are listed and gives the partitions.
pub proof fn law_memo_of_partitions(memo: Seq<Vec<Vec<Vec<usize>>>>)
    requires
        memo_ok(memo),
        memo.len() <= usize::MAX,
    ensures
        memo_fits(memo),
        forall|t: int, d: int| 0 <= t && 1 <= d <= t ==> #[trigger] drop_table(memo, t, d) == partitions(t as nat, d as nat),
{
    assert forall|t: int| 0 <= t < memo.len() implies (#[trigger] memo[t])@.len() > t && forall|d: int, i: int|
        1 <= d <= t && 0 <= i < memo[t]@[d]@.len() ==> (#[trigger] memo[t]@[d]@[i])@.len() > 0 by {
        assert forall|d: int, i: int| 1 <= d <= t && 0 <= i < memo[t]@[d]@.len() implies (
        #[trigger] memo[t]@[d]@[i])@.len() > 0 by {
            assert(nested_view(memo[t]@[d]@) == partitions(t as nat, d as nat));
            law_partitions_sound(t as nat, d as nat, i);
            assert(nested_view(memo[t]@[d]@)[i] == memo[t]@[d]@[i]@);
        }
    }
}

/// A sequence of positive parts summing to `num` whose first part is at
/// least `first` is among the ways listed from `first` on.
proof fn lemma_partitions_from_complete(num: nat, n: nat, first: nat, p: Seq<usize>)
    requires
        num <= usize::MAX,
        n >= 2,
        is_partition(p, num, n),
        1 <= first <= p[0],
    ensures
        partitions_from(num, n, first).contains(p),
    decreases num, num + 1 - first,
{
    let q = p.drop_first();
    assert(parts_sum(p) == parts_sum(q) + p[0] as nat);
    lemma_parts_sum_len(q);
    assert(is_partition(q, (num - p[0]) as nat, (n - 1) as nat)) by {
        assert forall|i: int| 0 <= i < q.len() implies #[trigger] q[i] >= 1 by {
            assert(q[i] == p[i + 1]);
        }
    }
    assert(first + n <= num + 1);
    let head = partitions((num - first) as nat, (n - 1) as nat);
    let mapped = head.map_values(|x: Seq<usize>| seq![first as usize] + x);
    assert(partitions_from(num, n, first) == mapped + partitions_from(num, n, first + 1));
    if first == p[0] {
        law_partitions_complete((num - first) as nat, (n - 1) as nat, q);
        let j = choose|j: int| 0 <= j < head.len() && head[j] == q;
        assert(mapped[j] == seq![first as usize] + q);
        assert(seq![first as usize] + q =~= p);
        assert((mapped + partitions_from(num, n, first + 1))[j] == p);
    } else {
        lemma_partitions_from_complete(num, n, first + 1, p);
        let rest = partitions_from(num, n, first + 1);
        let j = choose|j: int| 0 <= j < rest.len() && #[trigger] rest[j] == p;
        assert((mapped + rest)[mapped.len() + j] == p);
    }
}

/// The parts of a sequence of positive parts sum to at least its length.
proof fn lemma_parts_sum_len(p: Seq<usize>)
    requires
        forall|i: int| 0 <= i < p.len() ==> #[trigger] p[i] >= 1,
    ensures
        parts_sum(p) >= p.len(),
    decreases p.len(),
{
    if p.len() > 0 {
        let q = p.drop_first();
        assert forall|i: int| 0 <= i < q.len() implies #[trigger] q[i] >= 1 by {
            assert(q[i] == p[i + 1]);
        }
        lemma_parts_sum_len(q);
    }
}

/// Every way of writing `num` as `n >= 1` positive parts is listed.
pub proof fn law_partitions_complete(num: nat, n: nat, p: Seq<usize>)
    requires
        num <= usize::MAX,
        n >= 1,
        is_partition(p, num, n),
    ensures
        partitions(num, n).contains(p),
    decreases num, num + 2,
{
    lemma_parts_sum_len(p);
    if n == 1 {
        assert(p.drop_first() =~= Seq::<usize>::empty());
        assert(parts_sum(p.drop_first()) == 0);
        assert(p =~= seq![num as usize]);
        assert(partitions(num, n)[0] == p);
    } else {
        assert(p[0] >= 1);
        lemma_partitions_from_complete(num, n, 1, p);
    }
}

/// Whether a cell is empty or topped by a flat.
pub open spec fn flat_or_empty(c: Option<StackView>) -> bool {
    match c {
        Some(t) => t.0 == TakPieceVariant::Flat,
        None => true,
    }
}

/// What an accepted move check says of the drops from `i` on: each drops
/// at least one piece on a cell of the board; the cells before the last
/// are empty or topped by a flat; the last is too, or a wall that a lone
/// capstone flattens; and the drops account for all pieces taken.
pub proof fn lemma_scan_ok(
    b: crate::board::TakBoard,
    pos: TakCoord,
    dir: TakDir,
    take: int,
    drops: Seq<usize>,
    mover: TakPieceVariant,
    i: int,
    flat: bool,
)
    requires
        0 <= i,
        crate::moves::move_scan(b, pos, dir, take, drops, mover, i, flat) is Ok,
    ensures
        crate::moves::drop_sum(drops, drops.len() as int) == take,
        forall|j: int| i <= j < drops.len() ==> #[trigger] drops[j] >= 1 && crate::moves::in_board(
            b,
            step(pos, dir, j + 1),
        ),
        forall|j: int| i <= j < drops.len() - 1 ==> flat_or_empty(#[trigger] b.cell(step(pos, dir, j + 1))),
        i < drops.len() ==> flat_or_empty(b.cell(step(pos, dir, drops.len() as int))) || (b.cell(
            step(pos, dir, drops.len() as int),
        ) matches Some(t) && t.0 == TakPieceVariant::Wall && drops.last() == 1 && mover == TakPieceVariant::Capstone),
    decreases drops.len() - i,
{
    if i < drops.len() {
        let c = step(pos, dir, i + 1);
        match b.cell(c) {
            None => lemma_scan_ok(b, pos, dir, take, drops, mover, i + 1, flat),
            Some(t) => match t.0 {
                TakPieceVariant::Wall => lemma_scan_ok(b, pos, dir, take, drops, mover, i + 1, true),
                _ => lemma_scan_ok(b, pos, dir, take, drops, mover, i + 1, flat),
            },
        }
    }
}

/// The parts summed from the front and summed as drops agree.
proof fn lemma_parts_drop_sum(p: Seq<usize>, k: int)
    requires
        0 <= k <= p.len(),
    ensures
        parts_sum(p.take(k)) == crate::moves::drop_sum(p, k),
    decreases k,
{
    if k > 0 {
        lemma_parts_drop_sum(p, k - 1);
        lemma_parts_sum_push(p.take(k - 1), p[k - 1]);
        assert(p.take(k - 1).push(p[k - 1]) =~= p.take(k));
    }
}

/// Adding a part at the end adds it to the sum.
proof fn lemma_parts_sum_push(p: Seq<usize>, x: usize)
    ensures
        parts_sum(p.push(x)) == parts_sum(p) + x,
    decreases p.len(),
{
    if p.len() > 0 {
        lemma_parts_sum_push(p.drop_first(), x);
        assert(p.push(x).drop_first() =~= p.drop_first().push(x));
        assert(p.push(x)[0] == p[0]);
    } else {
        assert(p.push(x).drop_first() =~= Seq::<usize>::empty());
        assert(parts_sum(Seq::<usize>::empty()) == 0);
        assert(p.push(x)[0] == x);
        assert(parts_sum(p) == 0);
    }
}

/// The spread of `parts[j]`, when not blocked on `c`, is among the moves of
/// the first `k` drop sequences.
proof fn lemma_drop_moves_has(
    parts: Seq<Seq<usize>>,
    k: int,
    c: Option<StackView>,
    pos: TakCoord,
    dir: TakDir,
    take: usize,
    mover: TakPieceVariant,
    j: int,
)
    requires
        0 <= j < k <= parts.len(),
        !drop_blocked(c, parts[j], mover),
    ensures
        drop_moves(parts, k, c, pos, dir, take, mover).contains((pos, Err((dir, take, parts[j])))),
    decreases k,
{
    let prev = drop_moves(parts, k - 1, c, pos, dir, take, mover);
    let x: ActionSpec = (pos, Err((dir, take, parts[j])));
    if j < k - 1 {
        lemma_drop_moves_has(parts, k - 1, c, pos, dir, take, mover, j);
        let i = choose|i: int| 0 <= i < prev.len() && prev[i] == x;
        assert(drop_moves(parts, k, c, pos, dir, take, mover)[i] == x);
    } else {
        assert(drop_moves(parts, k, c, pos, dir, take, mover)[prev.len() as int] == x);
    }
}

/// A spread of `take` pieces over `dd` cells, its path clear of walls and
/// capstones before the last cell and its drops listed and not blocked
/// there, is among the moves along the ray from distance `d`.
proof fn lemma_ray_has(
    g: TakGame,
    memo: Seq<Vec<Vec<Vec<usize>>>>,
    pos: TakCoord,
    st: StackView,
    take: usize,
    dir: TakDir,
    d: int,
    dd: int,
    drops: Seq<usize>,
)
    requires
        1 <= d <= dd <= take,
        forall|e: int| d <= e <= dd ==> on_board(#[trigger] step(pos, dir, e), g.board.size as int),
        forall|e: int|
            d <= e < dd ==> flat_or_empty(g.board.cells()[cell_index(#[trigger] step(pos, dir, e), g.board.size as int)]),
        drop_table(memo, take as int, dd).contains(drops),
        !drop_blocked(g.board.cells()[cell_index(step(pos, dir, dd), g.board.size as int)], drops, st.0),
    ensures
        ray_moves(g, memo, pos, st, take, dir, d).contains((pos, Err((dir, take, drops)))),
    decreases dd - d,
{
    let x: ActionSpec = (pos, Err((dir, take, drops)));
    let c = step(pos, dir, d);
    assert(on_board(c, g.board.size as int));
    let cell = g.board.cells()[cell_index(c, g.board.size as int)];
    let parts = drop_table(memo, take as int, d);
    let dm = drop_moves(parts, parts.len() as int, cell, pos, dir, take, st.0);
    let r = ray_moves(g, memo, pos, st, take, dir, d);
    if d == dd {
        let j = choose|j: int| 0 <= j < parts.len() && parts[j] == drops;
        lemma_drop_moves_has(parts, parts.len() as int, cell, pos, dir, take, st.0, j);
        let i = choose|i: int| 0 <= i < dm.len() && dm[i] == x;
        assert(r[i] == x);
    } else {
        assert(flat_or_empty(cell));
        lemma_ray_has(g, memo, pos, st, take, dir, d + 1, dd, drops);
        let rest = ray_moves(g, memo, pos, st, take, dir, d + 1);
        assert(r == dm + rest);
        let i = choose|i: int| 0 <= i < rest.len() && rest[i] == x;
        assert(r[dm.len() + i] == x);
    }
}

/// The moves along the ray in direction `dir_at(k)` are among the moves of
/// the first `n` directions.
proof fn lemma_take_has(
    g: TakGame,
    memo: Seq<Vec<Vec<Vec<usize>>>>,
    pos: TakCoord,
    st: StackView,
    take: usize,
    n: int,
    k: int,
    x: ActionSpec,
)
    requires
        0 <= k < n,
        ray_moves(g, memo, pos, st, take, dir_at(k), 1).contains(x),
    ensures
        take_moves(g, memo, pos, st, take, n).contains(x),
    decreases n,
{
    let prev = take_moves(g, memo, pos, st, take, n - 1);
    let here = ray_moves(g, memo, pos, st, take, dir_at(n - 1), 1);
    assert(take_moves(g, memo, pos, st, take, n) == prev + here);
    if k < n - 1 {
        lemma_take_has(g, memo, pos, st, take, n - 1, k, x);
        let i = choose|i: int| 0 <= i < prev.len() && prev[i] == x;
        assert((prev + here)[i] == x);
    } else {
        let i = choose|i: int| 0 <= i < here.len() && here[i] == x;
        assert((prev + here)[prev.len() + i] == x);
    }
}

/// The moves taking `take` pieces are among the moves of a stack taking up
/// to `t`.
proof fn lemma_stack_has(
    g: TakGame,
    memo: Seq<Vec<Vec<Vec<usize>>>>,
    pos: TakCoord,
    st: StackView,
    t: int,
    take: usize,
    x: ActionSpec,
)
    requires
        1 <= take <= t,
        take_moves(g, memo, pos, st, take, 4).contains(x),
    ensures
        stack_moves(g, memo, pos, st, t).contains(x),
    decreases t,
{
    let prev = stack_moves(g, memo, pos, st, t - 1);
    let here = take_moves(g, memo, pos, st, t as usize, 4);
    assert(stack_moves(g, memo, pos, st, t) == prev + here);
    if take < t {
        lemma_stack_has(g, memo, pos, st, t - 1, take, x);
        let i = choose|i: int| 0 <= i < prev.len() && prev[i] == x;
        assert((prev + here)[i] == x);
    } else {
        let i = choose|i: int| 0 <= i < here.len() && here[i] == x;
        assert((prev + here)[prev.len() + i] == x);
    }
}

/// The moves of the stack listed at `j` are among the moves of the first
/// `k` stacks.
proof fn lemma_spread_has(
    g: TakGame,
    memo: Seq<Vec<Vec<Vec<usize>>>>,
    stacks: Seq<(TakCoord, StackView)>,
    k: int,
    j: int,
    x: ActionSpec,
)
    requires
        0 <= j < k <= stacks.len(),
        stack_moves(
            g,
            memo,
            stacks[j].0,
            stacks[j].1,
            if stacks[j].1.1.len() < g.board.size { stacks[j].1.1.len() as int } else { g.board.size as int },
        ).contains(x),
    ensures
        spread_moves(g, memo, stacks, k).contains(x),
    decreases k,
{
    let prev = spread_moves(g, memo, stacks, k - 1);
    let (pos, st) = stacks[k - 1];
    let t = if st.1.len() < g.board.size { st.1.len() as int } else { g.board.size as int };
    let here = stack_moves(g, memo, pos, st, t);
    assert(spread_moves(g, memo, stacks, k) == prev + here);
    if j < k - 1 {
        lemma_spread_has(g, memo, stacks, k - 1, j, x);
        let i = choose|i: int| 0 <= i < prev.len() && prev[i] == x;
        assert((prev + here)[i] == x);
    } else {
        let i = choose|i: int| 0 <= i < here.len() && here[i] == x;
        assert((prev + here)[prev.len() + i] == x);
    }
}

/// A stack whose top is `p` is listed among `p`'s stacks of the first `k`
/// cells.
proof fn lemma_pieces_list_has(cells: Seq<Option<StackView>>, size: int, p: TakPlayer, k: int, idx: int)
    requires
        0 <= idx < k <= cells.len(),
        cells[idx] matches Some(s) && crate::board::top_player(s) == p,
    ensures
        exists|j: int|
            0 <= j < pieces_list(cells, size, Some(p), k).len() && #[trigger] pieces_list(cells, size, Some(p), k)[j]
                == (coord_of(idx, size), cells[idx]->0),
    decreases k,
{
    let prev = pieces_list(cells, size, Some(p), k - 1);
    if idx < k - 1 {
        lemma_pieces_list_has(cells, size, p, k - 1, idx);
        let j = choose|j: int| 0 <= j < prev.len() && #[trigger] prev[j] == (coord_of(idx, size), cells[idx]->0);
        assert(pieces_list(cells, size, Some(p), k)[j] == prev[j]);
    } else {
        assert(pieces_list(cells, size, Some(p), k)[prev.len() as int] == (coord_of(idx, size), cells[idx]->0));
    }
}

/// Every move that playing accepts from a stack of the player to move is
/// among the generated moves: a stack of the mover may spread along any
/// path the move check allows, onto any cell it allows (a lone capstone
/// onto a wall among them), with any drops it allows.
pub proof fn law_spreads_generated(
    g: TakGame,
    memo: Seq<Vec<Vec<Vec<usize>>>>,
    pos: TakCoord,
    dir: TakDir,
    take: usize,
    drops: Seq<usize>,
)
    requires
        g.wf(),
        memo_ok(memo),
        memo.len() <= usize::MAX,
        crate::game::move_result(g, pos, dir, take, drops) is Ok,
        g.board.cell(pos) matches Some(st) && crate::board::top_player(st) == g.current_player,
    ensures
        all_moves(g, memo).contains((pos, Err((dir, take, drops)))),
{
    let b = g.board;
    let size = b.size as int;
    let st = b.cell(pos)->0;
    let x: ActionSpec = (pos, Err((dir, take, drops)));
    let dd = drops.len() as int;
    lemma_scan_ok(b, pos, dir, take as int, drops, st.0, 0, false);
    // the drops write `take` as `dd` positive parts
    assert(drops.take(dd) =~= drops);
    lemma_parts_drop_sum(drops, dd);
    assert(is_partition(drops, take as nat, dd as nat));
    if dd == 0 {
        assert(crate::moves::drop_sum(drops, 0) == 0);
    }
    lemma_parts_sum_len(drops);
    law_partitions_complete(take as nat, dd as nat, drops);
    law_memo_of_partitions(memo);
    assert(drop_table(memo, take as int, dd) == partitions(take as nat, dd as nat));
    // the path and the last cell
    assert forall|e: int| 1 <= e <= dd implies on_board(#[trigger] step(pos, dir, e), size) by {
        assert(drops[e - 1] >= 1 && crate::moves::in_board(b, step(pos, dir, (e - 1) + 1)));
    }
    assert forall|e: int| 1 <= e < dd implies flat_or_empty(b.cells()[cell_index(#[trigger] step(pos, dir, e), size)]) by {
        assert(flat_or_empty(b.cell(step(pos, dir, (e - 1) + 1))));
    }
    assert(!drop_blocked(b.cells()[cell_index(step(pos, dir, dd), size)], drops, st.0));
    lemma_ray_has(g, memo, pos, st, take, dir, 1, dd, drops);
    let k: int = match dir {
        TakDir::Up => 0,
        TakDir::Down => 1,
        TakDir::Left => 2,
        TakDir::Right => 3,
    };
    assert(dir_at(k) == dir);
    lemma_take_has(g, memo, pos, st, take, 4, k, x);
    let t = if st.1.len() < b.size { st.1.len() as int } else { size };
    lemma_stack_has(g, memo, pos, st, t, take, x);
    // the stack is listed among the mover's stacks
    let n = b.cells().len() as int;
    let idx = cell_index(pos, size);
    crate::coord::lemma_coord_of(idx, size);
    crate::coord::lemma_index_injective(coord_of(idx, size), pos, size);
    lemma_pieces_list_has(b.cells(), size, g.current_player, n, idx);
    let stacks = pieces_list(b.cells(), size, Some(g.current_player), n);
    let j = choose|j: int| 0 <= j < stacks.len() && #[trigger] stacks[j] == (coord_of(idx, size), b.cells()[idx]->0);
    lemma_spread_has(g, memo, stacks, stacks.len() as int, j, x);
    let places = place_moves(g, n);
    let sp = spread_moves(g, memo, stacks, stacks.len() as int);
    assert(all_moves(g, memo) == places + sp);
    let i = choose|i: int| 0 <= i < sp.len() && sp[i] == x;
    assert((places + sp)[places.len() + i] == x);
}

} // verus!
