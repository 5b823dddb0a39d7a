//! Playing and taking back the engine's moves, and counting the positions
//! a number of plies ahead.
use vstd::prelude::*;

use crate::takumi::{bit, flat_tally, lemma_bits, place_post, placer, same_board, shape_ok, unplace_post, Board};
use crate::takumi_road::lemma_road_from_fields;
use crate::takumi_movegen::{all_moves, gen_moves, lemma_same_moves, Action};
use crate::takumi_spread::{
    among_targets, cell_ok, clean, delta, drop_count, drop_sum, drops_from, engine_wf, line_cell, new_cells, nibble,
    lemma_bits_ext, lemma_clean_marks_pub, road_at_cell, road_on_line, spread_clear, spread_ok, spread_post, target,
    unspread_ok, unspread_post,
};

verus! {

/// Whether `action` may be played on `b`: the game goes on, and a
/// placement goes to an empty cell with a piece of its kind left (and every
/// reserve below its limit), a spread satisfies what a spread needs with no
/// wall or capstone in its way.
pub open spec fn make_ok(b: Board, action: Action) -> bool {
    &&& engine_wf(b)
    &&& b.result is None
    &&& match action {
        Action::Place(pos, variant) => {
            &&& pos < b.size * b.size
            &&& variant <= 2
            &&& !bit(b.occupied, pos as int)
            &&& b.ply_index < usize::MAX
            &&& b.empty_positions >= 1
            &&& b.white_pieces < u64::MAX
            &&& b.black_pieces < u64::MAX
            &&& b.white_capstones < u64::MAX
            &&& b.black_capstones < u64::MAX
            &&& variant == 2 ==> (if b.current_player == 0 {
                b.white_capstones >= 1
            } else {
                b.black_capstones >= 1
            })
            &&& variant != 2 ==> (if b.current_player == 0 {
                b.white_pieces >= 1
            } else {
                b.black_pieces >= 1
            })
        },
        Action::Spread(pos, dir, take, spreads) => {
            &&& spread_ok(b, pos as int, dir, take, spreads)
            &&& spread_clear(b, pos as int, dir, spreads)
        },
    }
}

/// What playing `action` makes of `b`: board `a`, with `smash` telling
/// whether a wall was flattened.
pub open spec fn made(b: Board, a: Board, action: Action, smash: bool) -> bool {
    match action {
        Action::Place(pos, variant) => place_post(b, a, pos as int, variant) && !smash,
        Action::Spread(pos, dir, take, spreads) => spread_post(b, a, pos as int, dir, take, spreads, smash),
    }
}

/// Whether `action`, played with outcome `smash`, may be taken back on `b`.
pub open spec fn unmake_ok(b: Board, action: Action, smash: bool) -> bool {
    match action {
        Action::Place(pos, variant) => {
            &&& shape_ok(b)
            &&& pos < b.size * b.size
            &&& b.ply_index >= 1
            &&& b.empty_positions < usize::MAX
            &&& b.white_pieces < u64::MAX
            &&& b.black_pieces < u64::MAX
            &&& b.white_capstones < u64::MAX
            &&& b.black_capstones < u64::MAX
        },
        Action::Spread(pos, dir, take, spreads) => unspread_ok(b, pos as int, dir, spreads, smash),
    }
}

/// What taking back `action` makes of `b`: board `a`.
pub open spec fn unmade(b: Board, a: Board, action: Action, smash: bool) -> bool {
    match action {
        Action::Place(pos, variant) => unplace_post(b, a, pos as int, variant),
        Action::Spread(pos, dir, take, spreads) => unspread_post(b, a, pos as int, dir, spreads, smash),
    }
}

/// A placement on an empty cell keeps the board invariant.
proof fn lemma_place_wf(b: Board, a: Board, pos: int, variant: usize)
    requires
        engine_wf(b),
        0 <= pos < b.size * b.size,
        !bit(b.occupied, pos),
        variant <= 2,
        place_post(b, a, pos, variant),
    ensures
        engine_wf(a),
{
    let size = b.size as int;
    let n = size * size;
    assert(n <= 64) by (nonlinear_arith)
        requires
            3 <= size <= 8,
            n == size * size,
    ;
    let p = pos as u64;
    let e = placer(b);
    assert(e <= 1);
    assert(cell_ok(b, pos));
    assert forall|c: int| 0 <= c < n implies #[trigger] cell_ok(a, c) by {
        let cc = c as u64;
        lemma_bits(b.occupied, p, cc);
        lemma_bits(b.owner, p, cc);
        lemma_bits(b.walls, p, cc);
        lemma_bits(b.capstones, p, cc);
        if c == pos {
            assert(bit(e, 0) == (e == 1)) by {
                assert((e >> 0u64) & 1u64 == 1u64 <==> e == 1u64) by (bit_vector)
                    requires
                        e <= 1u64,
                ;
            }
            assert(clean(e, 1)) by {
                assert(e >> 1u64 == 0u64) by (bit_vector)
                    requires
                        e <= 1u64,
                ;
            }
        } else {
            assert(cell_ok(b, c));
        }
    }
    let nn = n as u64;
    if n < 64 {
        assert(clean(a.occupied, nn)) by {
            let o = b.occupied;
            assert((o | (1u64 << p)) >> nn == 0u64) by (bit_vector)
                requires
                    p < nn,
                    nn < 64,
                    o >> nn == 0u64,
            ;
        }
        assert(clean(a.owner, nn)) by {
            let o = b.owner;
            assert((o | (1u64 << p)) >> nn == 0u64) by (bit_vector)
                requires
                    p < nn,
                    nn < 64,
                    o >> nn == 0u64,
            ;
        }
        assert(clean(a.walls, nn)) by {
            let o = b.walls;
            assert((o | (1u64 << p)) >> nn == 0u64) by (bit_vector)
                requires
                    p < nn,
                    nn < 64,
                    o >> nn == 0u64,
            ;
        }
        assert(clean(a.capstones, nn)) by {
            let o = b.capstones;
            assert((o | (1u64 << p)) >> nn == 0u64) by (bit_vector)
                requires
                    p < nn,
                    nn < 64,
                    o >> nn == 0u64,
            ;
        }
    }
}

/// A move played as `make_ok` allows leaves a sound board that it may be
/// taken back from.
pub proof fn law_make_undoable(b0: Board, b1: Board, action: Action, smash: bool)
    requires
        make_ok(b0, action),
        made(b0, b1, action, smash),
    ensures
        engine_wf(b1),
        unmake_ok(b1, action, smash),
{
    match action {
        Action::Place(pos, variant) => {
            lemma_place_wf(b0, b1, pos as int, variant);
        },
        Action::Spread(pos, dir, take, spreads) => {
            crate::takumi_spread::law_spread_undoable(b0, b1, pos as int, dir, take, spreads, smash);
        },
    }
}

/// Taking back a move restores the board it was played on.
pub proof fn law_unmake_restores(b0: Board, b1: Board, b2: Board, action: Action, smash: bool)
    requires
        make_ok(b0, action),
        made(b0, b1, action, smash),
        unmade(b1, b2, action, smash),
    ensures
        same_board(b2, b0),
{
    match action {
        Action::Place(pos, variant) => {
            let p = pos as int;
            assert(cell_ok(b0, p));
            let sz = b0.size as int;
            assert(sz * sz <= 64) by (nonlinear_arith)
                requires
                    3 <= sz <= 8,
            ;
            assert(b0.stacks@[p] == 0) by {
                let s = b0.stacks@[p];
                assert(s >> 0u64 == s) by (bit_vector);
            }
            crate::takumi::law_unplace_restores(b0, b1, b2, p, variant);
        },
        Action::Spread(pos, dir, take, spreads) => {
            crate::takumi_spread::law_unspread_restores(b0, b1, b2, pos as int, dir, take, spreads, smash);
        },
    }
}

impl Board {
    /// Plays `action`; gives whether a wall was flattened.
    pub fn make(&mut self, action: &Action) -> (smash: bool)
        requires
            make_ok(*old(self), *action),
        ensures
            made(*old(self), *final(self), *action, smash),
    {
        match action {
            Action::Place(pos, variant) => {
                proof {
                    let p = *pos as int;
                    assert(cell_ok(*self, p));
                }
                self.place(*pos, *variant);
                false
            },
            Action::Spread(pos, dir, take, spreads) => self.spread(*pos, *dir, *take, *spreads),
        }
    }

    /// Takes back `action`, played with outcome `smash`.
    pub fn unmake(&mut self, action: &Action, smash: bool)
        requires
            unmake_ok(*old(self), *action, smash),
        ensures
            unmade(*old(self), *final(self), *action, smash),
    {
        match action {
            Action::Place(pos, variant) => {
                self.unplace(*pos, *variant);
            },
            Action::Spread(pos, dir, _take, spreads) => {
                self.unspread(*pos, *dir, *spreads, smash);
            },
        }
    }
}

/// Boards holding the same position are sound alike.
proof fn lemma_same_wf(a: Board, b: Board)
    requires
        same_board(a, b),
        engine_wf(b),
    ensures
        engine_wf(a),
{
    assert forall|c: int| 0 <= c < a.size * a.size implies #[trigger] cell_ok(a, c) by {
        assert(cell_ok(b, c));
    }
}

/// With every drop before `k` non-empty and drop `k` empty (or `k` the
/// seventh), the spread has `k` drops.
proof fn lemma_drop_count_at(spreads: u64, i: int, k: int)
    requires
        0 <= i <= k <= 7,
        forall|j: int| 0 <= j < k ==> nibble(spreads, j) != 0,
        k == 7 || nibble(spreads, k) == 0,
    ensures
        drops_from(spreads, i) == k,
    decreases k - i,
{
    if i < k {
        lemma_drop_count_at(spreads, i + 1, k);
    }
}

impl Board {
    /// A copy of the board.
    pub fn duplicate(&self) -> (r: Self)
        ensures
            same_board(r, *self),
    {
        let mut stacks: Vec<u64> = Vec::new();
        let mut heights: Vec<u64> = Vec::new();
        for i in 0..self.stacks.len()
            invariant
                stacks@ == self.stacks@.take(i as int),
        {
            stacks.push(self.stacks[i]);
            assert(stacks@ =~= self.stacks@.take(i + 1));
        }
        for i in 0..self.stack_heights.len()
            invariant
                heights@ == self.stack_heights@.take(i as int),
        {
            heights.push(self.stack_heights[i]);
            assert(heights@ =~= self.stack_heights@.take(i + 1));
        }
        assert(stacks@ =~= self.stacks@);
        assert(heights@ =~= self.stack_heights@);
        Board {
            size: self.size,
            result: self.result,
            ply_index: self.ply_index,
            current_player: self.current_player,
            empty_positions: self.empty_positions,
            white_pieces: self.white_pieces,
            black_pieces: self.black_pieces,
            white_capstones: self.white_capstones,
            black_capstones: self.black_capstones,
            occupied: self.occupied,
            walls: self.walls,
            capstones: self.capstones,
            owner: self.owner,
            stacks,
            stack_heights: heights,
        }
    }
}

impl Board {
    /// Whether a spread may be played as `make_ok` allows, checked cell by
    /// cell.
    fn spread_fits(&self, pos: usize, dir: usize, take: u64, spreads: u64) -> (r: bool)
        requires
            engine_wf(*self),
            self.result is None,
        ensures
            r == (spread_ok(*self, pos as int, dir, take, spreads) && spread_clear(*self, pos as int, dir, spreads)),
    {
        let ghost b = *self;
        let size = self.size;
        proof {
            assert(size * size <= 64) by (nonlinear_arith)
                requires
                    3 <= size <= 8,
            ;
        }
        let n = size * size;
        if pos >= n || dir >= 4 || take == 0 || take >= 64 || self.ply_index == usize::MAX {
            return false;
        }
        let h = self.stack_heights[pos];
        if take > h {
            return false;
        }
        let mut k: usize = 0;
        let mut sum: u64 = 0;
        let mut done = false;
        while k < 7 && !done
            invariant
                k <= 7,
                sum == drop_sum(spreads, k as int),
                sum <= 15 * k,
                forall|j: int| 0 <= j < k ==> nibble(spreads, j) != 0,
                done ==> nibble(spreads, k as int) == 0,
            decreases 7 - k + (if done { 0int } else { 1int }),
        {
            let nib = (spreads >> ((4 * k) as u64)) & 0xFu64;
            assert(nib == nibble(spreads, k as int));
            if nib == 0 {
                done = true;
            } else {
                assert(nib <= 15) by (bit_vector)
                    requires
                        nib == (spreads >> ((4 * k) as u64)) & 0xFu64,
                ;
                sum = sum + nib;
                k = k + 1;
            }
        }
        proof {
            lemma_drop_count_at(spreads, 0, k as int);
        }
        assert(drop_count(spreads) == k);
        if sum != take || k == 0 {
            return false;
        }
        let mut cur = pos;
        let mut j: usize = 0;
        let mut fresh: usize = 0;
        while j < k
            invariant
                *self == b,
                engine_wf(b),
                n == size * size,
                size == b.size,
                n <= 64,
                pos < n,
                dir < 4,
                1 <= k <= 7,
                k == drop_count(spreads),
                j <= k,
                cur == line_cell(pos as int, dir, size as int, j as int),
                cur < n,
                fresh == new_cells(b, pos as int, dir, j as int),
                fresh <= j,
                forall|i: int| 0 <= i < j ==> 0 <= #[trigger] target(pos as int, dir, size as int, i) < n,
                forall|i: int|
                    0 <= i < j ==> b.stack_heights@[#[trigger] target(pos as int, dir, size as int, i)] + nibble(
                        spreads,
                        i,
                    ) <= 64,
                forall|i: int|
                    0 <= i < j && i < k - 1 ==> !bit(b.walls, #[trigger] target(pos as int, dir, size as int, i))
                        && !bit(b.capstones, target(pos as int, dir, size as int, i)),
                j == k ==> !bit(b.capstones, target(pos as int, dir, size as int, k - 1)),
            decreases k - j,
        {
            proof {
                assert(line_cell(pos as int, dir, size as int, j + 1) == cur + delta(dir, size as int)) by (nonlinear_arith)
                    requires
                        cur == pos + j * delta(dir, size as int),
                ;
            }
            let next = if dir == Self::DIR_RIGHT {
                if cur + 1 >= n {
                    return false;
                }
                cur + 1
            } else if dir == Self::DIR_LEFT {
                if cur == 0 {
                    return false;
                }
                cur - 1
            } else if dir == Self::DIR_DOWN {
                if cur + size >= n {
                    return false;
                }
                cur + size
            } else {
                if cur < size {
                    assert(delta(dir, size as int) == -size);
                    assert(target(pos as int, dir, size as int, j as int) < 0);
                    return false;
                }
                cur - size
            };
            assert(next == target(pos as int, dir, size as int, j as int));
            let nib = (spreads >> ((4 * j) as u64)) & 0xFu64;
            assert(nib == nibble(spreads, j as int));
            let th = self.stack_heights[next];
            if th > 64 || nib > 64 - th {
                return false;
            }
            let t = next as u64;
            proof {
                lemma_bits(b.walls, t, t);
                lemma_bits(b.capstones, t, t);
            }
            let is_wall = (self.walls >> t) & 1u64 == 1u64;
            let is_cap = (self.capstones >> t) & 1u64 == 1u64;
            if is_cap {
                return false;
            }
            if j + 1 < k && is_wall {
                return false;
            }
            if th == 0 {
                fresh = fresh + 1;
            }
            cur = next;
            j = j + 1;
        }
        let extra: usize = if h == take {
            1
        } else {
            0
        };
        if self.empty_positions == usize::MAX && extra == 1 {
            return false;
        }
        if fresh > self.empty_positions + extra {
            return false;
        }
        proof {
            assert(h == b.stack_heights@[pos as int]);
        }
        true
    }

    /// Whether `action` may be played as `make_ok` allows.
    pub fn can_make(&self, action: &Action) -> (r: bool)
        requires
            engine_wf(*self),
        ensures
            r == make_ok(*self, *action),
    {
        if self.result.is_some() {
            return false;
        }
        match action {
            Action::Place(pos, variant) => {
                let size = self.size;
                proof {
                    assert(size * size <= 64) by (nonlinear_arith)
                        requires
                            3 <= size <= 8,
                    ;
                }
                if *pos >= size * size || *variant > 2 {
                    return false;
                }
                if (self.occupied >> (*pos as u64)) & 1u64 == 1u64 {
                    return false;
                }
                if self.ply_index == usize::MAX || self.empty_positions == 0 {
                    return false;
                }
                if self.white_pieces == u64::MAX || self.black_pieces == u64::MAX || self.white_capstones == u64::MAX
                    || self.black_capstones == u64::MAX {
                    return false;
                }
                let left = if *variant == 2 {
                    if self.current_player == 0 {
                        self.white_capstones
                    } else {
                        self.black_capstones
                    }
                } else {
                    if self.current_player == 0 {
                        self.white_pieces
                    } else {
                        self.black_pieces
                    }
                };
                left >= 1
            },
            Action::Spread(pos, dir, take, spreads) => self.spread_fits(*pos, *dir, *take, *spreads),
        }
    }
}

/// The sum of `rs`, wrapping past `usize::MAX` as the counts do.
pub open spec fn wrapping_sum(rs: Seq<usize>) -> usize
    decreases rs.len(),
{
    if rs.len() == 0 {
        0
    } else {
        vstd::wrapping::usize_specs::wrapping_add(wrapping_sum(rs.drop_last()), rs.last())
    }
}

/// Whether `c` is the count `depth` plies deeper from the board that
/// `action` makes of `b`, or 0 when `action` may not be played on `b`.
pub open spec fn move_counted(b: Board, action: Action, depth: nat, c: usize) -> bool
    decreases depth + 1, 0int, 0int,
{
    if make_ok(b, action) {
        exists|x: Board, s: bool| #[trigger] made(b, x, action, s) && perft_count(x, depth, c)
    } else {
        c == 0
    }
}

/// Whether `rs` gives, for each of `ms` in order, its count on `b` `depth`
/// plies deeper.
pub open spec fn sub_counts(b: Board, ms: Seq<Action>, depth: nat, rs: Seq<usize>) -> bool
    decreases depth + 1, 1int, ms.len(),
{
    if ms.len() == 0 {
        rs.len() == 0
    } else {
        &&& rs.len() == ms.len()
        &&& sub_counts(b, ms.drop_last(), depth, rs.drop_last())
        &&& move_counted(b, ms.last(), depth, rs.last())
    }
}

/// Whether `r` is the number of move sequences `depth` plies long from `b`
/// as `perft` counts them: 1 at depth 0, every generated move at depth 1,
/// and deeper the wrapping sum over the moves that may be played of the
/// count one ply less from the board each makes.
pub open spec fn perft_count(b: Board, depth: nat, r: usize) -> bool
    decreases depth, 2int, 0int,
{
    if depth == 0 {
        r == 1
    } else if depth == 1 {
        r == all_moves(b).len()
    } else {
        exists|rs: Seq<usize>| sub_counts(b, all_moves(b), (depth - 1) as nat, rs) && r == #[trigger] wrapping_sum(rs)
    }
}

/// A move played on a board with the same contents makes the same board.
proof fn lemma_made_same(b1: Board, b2: Board, x: Board, action: Action, smash: bool)
    requires
        same_board(b1, b2),
        made(b1, x, action, smash),
    ensures
        made(b2, x, action, smash),
{
    if let Action::Spread(pos, dir, take, spreads) = action {
        lemma_same_new_cells(b1, b2, pos as int, dir, drop_count(spreads));
    }
}

/// The number of move sequences `depth` plies long from `game`, counting
/// every move the generator gives that may be played (a board that a move
/// would take past what it can hold is not entered). The board is left as
/// it was.
pub fn perft(game: &mut Board, depth: usize) -> (r: usize)
    requires
        engine_wf(*old(game)),
    ensures
        *final(game) == *old(game),
        depth == 0 ==> r == 1,
        depth == 1 ==> r == all_moves(*old(game)).len(),
        perft_count(*old(game), depth as nat, r),
    decreases depth,
{
    if depth == 0 {
        return 1;
    }
    let moves = gen_moves(game);
    if depth == 1 {
        return moves.len();
    }
    let mut count: usize = 0;
    let mut i: usize = 0;
    let ghost mut counts: Seq<usize> = Seq::empty();
    while i < moves.len()
        invariant
            engine_wf(*game),
            depth >= 2,
            i <= moves@.len(),
            moves@ == all_moves(*game),
            counts.len() == i,
            count == wrapping_sum(counts),
            sub_counts(*game, moves@.take(i as int), (depth - 1) as nat, counts),
        decreases moves.len() - i,
    {
        let action = &moves[i];
        let mut next = game.duplicate();
        proof {
            lemma_same_wf(next, *game);
            lemma_same_make_ok(next, *game, *action);
        }
        let ghost before = counts;
        if next.can_make(action) {
            let ghost b0 = next;
            let smash = next.make(action);
            proof {
                law_make_undoable(b0, next, *action, smash);
                lemma_made_same(b0, *game, next, *action, smash);
            }
            let ghost x = next;
            let c = perft(&mut next, depth - 1);
            count = count.wrapping_add(c);
            proof {
                counts = counts.push(c);
                assert(made(*game, x, moves@[i as int], smash) && perft_count(x, (depth - 1) as nat, counts[i as int]));
                assert(move_counted(*game, moves@[i as int], (depth - 1) as nat, counts[i as int]));
            }
        } else {
            proof {
                counts = counts.push(0usize);
                assert(move_counted(*game, moves@[i as int], (depth - 1) as nat, counts[i as int]));
            }
        }
        proof {
            assert(counts.drop_last() =~= before);
            assert(moves@.take(i + 1).drop_last() =~= moves@.take(i as int));
            assert(moves@.take(i + 1).last() == moves@[i as int]);
        }
        i = i + 1;
    }
    proof {
        assert(moves@.take(moves@.len() as int) =~= moves@);
        assert(sub_counts(*game, all_moves(*game), (depth - 1) as nat, counts) && count == wrapping_sum(counts));
    }
    count
}


/// The number of `moves` that may be played on `b`.
pub open spec fn playable_count(b: Board, moves: Seq<Action>) -> nat
    decreases moves.len(),
{
    if moves.len() == 0 {
        0
    } else {
        playable_count(b, moves.drop_last()) + if make_ok(b, moves.last()) {
            1nat
        } else {
            0nat
        }
    }
}

/// `perft`, taking back each move on a copy and checking, by proof, that
/// the copy comes back to the board it was made from.
pub fn perft_safe(game: &mut Board, depth: usize) -> (r: usize)
    requires
        engine_wf(*old(game)),
    ensures
        *final(game) == *old(game),
        depth == 0 ==> r == 1,
        depth == 1 ==> r == playable_count(*old(game), all_moves(*old(game))),
        depth >= 1 ==> exists|rs: Seq<usize>|
            sub_counts(*old(game), all_moves(*old(game)), (depth - 1) as nat, rs) && r == #[trigger] wrapping_sum(rs),
{
    if depth == 0 {
        return 1;
    }
    let moves = gen_moves(game);
    let mut count: usize = 0;
    let mut i: usize = 0;
    let ghost mut counts: Seq<usize> = Seq::empty();
    while i < moves.len()
        invariant
            engine_wf(*game),
            depth >= 1,
            i <= moves@.len(),
            moves@ == all_moves(*game),
            depth == 1 ==> count <= i,
            depth == 1 ==> count == playable_count(*game, moves@.take(i as int)),
            counts.len() == i,
            count == wrapping_sum(counts),
            sub_counts(*game, moves@.take(i as int), (depth - 1) as nat, counts),
        decreases moves.len() - i,
    {
        let action = &moves[i];
        let ghost before = counts;
        let mut clone = game.duplicate();
        proof {
            lemma_same_wf(clone, *game);
            assert(moves@.take(i + 1).drop_last() =~= moves@.take(i as int));
            assert(moves@.take(i + 1).last() == *action);
            lemma_same_make_ok(clone, *game, *action);
        }
        if clone.can_make(action) {
            let ghost b0 = clone;
            let smashed = clone.make(action);
            let ghost b1 = clone;
            proof {
                law_make_undoable(b0, b1, *action, smashed);
            }
            let c = perft(&mut clone, depth - 1);
            count = count.wrapping_add(c);
            proof {
                lemma_made_same(b0, *game, b1, *action, smashed);
                counts = counts.push(c);
                assert(made(*game, b1, moves@[i as int], smashed) && perft_count(b1, (depth - 1) as nat, counts[i as int]));
                assert(move_counted(*game, moves@[i as int], (depth - 1) as nat, counts[i as int]));
            }
            clone.unmake(action, smashed);
            proof {
                law_unmake_restores(b0, b1, clone, *action, smashed);
            }
            assert(same_board(clone, *game));
        } else {
            proof {
                counts = counts.push(0usize);
                assert(move_counted(*game, moves@[i as int], (depth - 1) as nat, counts[i as int]));
            }
        }
        proof {
            assert(counts.drop_last() =~= before);
        }
        i = i + 1;
    }
    assert(moves@.take(moves@.len() as int) =~= moves@);
    assert(sub_counts(*game, all_moves(*game), (depth - 1) as nat, counts) && count == wrapping_sum(counts));
    count
}

/// Boards with the same contents allow the same actions.
proof fn lemma_same_make_ok(a: Board, b: Board, action: Action)
    requires
        same_board(a, b),
        engine_wf(b),
    ensures
        make_ok(a, action) == make_ok(b, action),
{
    lemma_same_wf(a, b);
    if let Action::Spread(pos, dir, take, spreads) = action {
        lemma_same_new_cells(a, b, pos as int, dir, drop_count(spreads));
    }
}

/// Boards with the same stacks count the same empty cells along a spread.
proof fn lemma_same_new_cells(a: Board, b: Board, pos: int, dir: usize, k: int)
    requires
        same_board(a, b),
    ensures
        new_cells(a, pos, dir, k) == new_cells(b, pos, dir, k),
    decreases k,
{
    if k > 0 {
        lemma_same_new_cells(a, b, pos, dir, k - 1);
    }
}

/// Boards with the same contents count the same flats.
proof fn lemma_same_tally(a: Board, b: Board, k: int)
    requires
        same_board(a, b),
    ensures
        flat_tally(a, k) == flat_tally(b, k),
    decreases k,
{
    if k > 0 {
        lemma_same_tally(a, b, k - 1);
    }
}

/// Boards with the same contents have the same roads along a line.
proof fn lemma_same_line_road(a: Board, b: Board, player: u64, pos: int, dir: usize, k: int)
    requires
        same_board(a, b),
    ensures
        road_on_line(a, player, pos, dir, k) == road_on_line(b, player, pos, dir, k),
{
    assert forall|c: int| #[trigger] road_at_cell(a, player, c) == road_at_cell(b, player, c) by {
        lemma_road_from_fields(a, b, player, c);
    }
    if road_on_line(a, player, pos, dir, k) {
        let i = choose|i: int| 0 <= i <= k && road_at_cell(a, player, #[trigger] line_cell(pos, dir, a.size as int, i));
        assert(road_at_cell(b, player, line_cell(pos, dir, b.size as int, i)));
    }
    if road_on_line(b, player, pos, dir, k) {
        let i = choose|i: int| 0 <= i <= k && road_at_cell(b, player, #[trigger] line_cell(pos, dir, b.size as int, i));
        assert(road_at_cell(a, player, line_cell(pos, dir, a.size as int, i)));
    }
}

/// Playing a move that may be played makes one board, up to its contents,
/// and decides the same capture.
pub proof fn law_make_deterministic(b: Board, x: Board, y: Board, action: Action, s: bool, t: bool)
    requires
        make_ok(b, action),
        made(b, x, action, s),
        made(b, y, action, t),
    ensures
        same_board(x, y),
        s == t,
{
    match action {
        Action::Place(pos, variant) => {
            let mx = Board { result: b.result, ..x };
            let my = Board { result: b.result, ..y };
            assert(x.stacks@ =~= y.stacks@);
            assert(x.stack_heights@ =~= y.stack_heights@);
            assert(same_board(mx, my));
            lemma_road_from_fields(mx, my, placer(b), pos as int);
            lemma_same_tally(mx, my, mx.size * mx.size);
        },
        Action::Spread(pos, dir, take, spreads) => {
            let size = b.size as int;
            let k = drop_count(spreads);
            let p = pos as int;
            assert forall|c: int| 0 <= c < x.stacks@.len() implies x.stacks@[c] == y.stacks@[c]
                && x.stack_heights@[c] == y.stack_heights@[c] by {
                if c != p && among_targets(p, dir, size, k, c) {
                    let j = choose|j: int| 0 <= j < k && c == #[trigger] target(p, dir, size, j);
                }
            }
            assert(x.stacks@ =~= y.stacks@);
            assert(x.stack_heights@ =~= y.stack_heights@);
            lemma_same_marks(x, y);
            let mx = Board { result: b.result, ..x };
            let my = Board { result: b.result, ..y };
            assert(same_board(mx, my));
            lemma_same_line_road(mx, my, b.current_player, p, dir, k);
            lemma_same_line_road(mx, my, (1 - b.current_player) as u64, p, dir, k);
            lemma_same_tally(mx, my, mx.size * mx.size);
        },
    }
}

/// Sound boards with the same stacks mark the same cells occupied and
/// owned.
proof fn lemma_same_marks(x: Board, y: Board)
    requires
        engine_wf(x),
        engine_wf(y),
        x.size == y.size,
        x.stacks@ == y.stacks@,
        x.stack_heights@ == y.stack_heights@,
    ensures
        x.occupied == y.occupied,
        x.owner == y.owner,
{
    let n = (x.size * x.size) as u64;
    assert forall|c: int| 0 <= c < 64 implies #[trigger] bit(x.occupied, c) == bit(y.occupied, c) by {
        if c < n {
            assert(cell_ok(x, c) && cell_ok(y, c));
        } else {
            lemma_clean_marks_pub(x.occupied, n, c as u64);
            lemma_clean_marks_pub(y.occupied, n, c as u64);
        }
    }
    lemma_bits_ext(x.occupied, y.occupied);
    assert forall|c: int| 0 <= c < 64 implies #[trigger] bit(x.owner, c) == bit(y.owner, c) by {
        if c < n {
            assert(cell_ok(x, c) && cell_ok(y, c));
        } else {
            lemma_clean_marks_pub(x.owner, n, c as u64);
            lemma_clean_marks_pub(y.owner, n, c as u64);
        }
    }
    lemma_bits_ext(x.owner, y.owner);
}

/// Boards with the same contents have the same counts.
proof fn lemma_same_count(x: Board, y: Board, depth: nat, r1: usize, r2: usize)
    requires
        same_board(x, y),
        perft_count(x, depth, r1),
        perft_count(y, depth, r2),
    ensures
        r1 == r2,
    decreases depth, 1int, 0int,
{
    lemma_same_moves(x, y);
    if depth >= 2 {
        let rs1 = choose|rs: Seq<usize>| sub_counts(x, all_moves(x), (depth - 1) as nat, rs) && r1 == #[trigger] wrapping_sum(rs);
        let rs2 = choose|rs: Seq<usize>| sub_counts(y, all_moves(y), (depth - 1) as nat, rs) && r2 == #[trigger] wrapping_sum(rs);
        lemma_same_sub_counts(x, y, all_moves(x), (depth - 1) as nat, rs1, rs2);
    }
}

/// Boards with the same contents have the same counts for each move.
proof fn lemma_same_sub_counts(x: Board, y: Board, ms: Seq<Action>, depth: nat, rs1: Seq<usize>, rs2: Seq<usize>)
    requires
        same_board(x, y),
        sub_counts(x, ms, depth, rs1),
        sub_counts(y, ms, depth, rs2),
    ensures
        rs1 == rs2,
    decreases depth + 1, 0int, ms.len(),
{
    if ms.len() > 0 {
        lemma_same_sub_counts(x, y, ms.drop_last(), depth, rs1.drop_last(), rs2.drop_last());
        let m = ms.last();
        let c1 = rs1.last();
        let c2 = rs2.last();
        if make_ok(x, m) {
            lemma_same_make_ok(y, x, m);
        } else if make_ok(y, m) {
            lemma_same_make_ok(x, y, m);
        }
        assert(move_counted(x, m, depth, c1));
        assert(move_counted(y, m, depth, c2));
        if make_ok(x, m) {
            let (bx, sx) = choose|bx: Board, sx: bool| #[trigger] made(x, bx, m, sx) && perft_count(bx, depth, c1);
            let (by, sy) = choose|by: Board, sy: bool| #[trigger] made(y, by, m, sy) && perft_count(by, depth, c2);
            lemma_made_same(y, x, by, m, sy);
            law_make_deterministic(x, bx, by, m, sx, sy);
            lemma_same_count(bx, by, depth, c1, c2);
        }
        assert(rs1 =~= rs2) by {
            assert(rs1 == rs1.drop_last().push(c1));
            assert(rs2 == rs2.drop_last().push(c2));
        }
    } else {
        assert(rs1 =~= rs2);
    }
}

/// `perft_count` gives one count: any two counts of the same board and
/// depth agree.
pub proof fn law_perft_count_unique(b: Board, depth: nat, r1: usize, r2: usize)
    requires
        perft_count(b, depth, r1),
        perft_count(b, depth, r2),
    ensures
        r1 == r2,
{
    lemma_same_count(b, b, depth, r1, r2);
}

} // verus!
