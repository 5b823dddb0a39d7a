//! Roads: chains of a player's flats and capstones joined side by side, the
//! search for a road that spans the board, and the shortest road between two
//! stacks.
use vstd::prelude::*;

use crate::board::{top_player, StackView, TakBoard};
use crate::coord::{cell_index, lemma_index_bounds_pub, lemma_index_injective, on_board, step, TakCoord, TakDir};
use crate::{TakPieceVariant, TakPlayer};

verus! {

/// Whether `c` holds a stack that counts towards a road of `player`: a flat
/// or capstone stack owned by `player`.
pub open spec fn road_at(cells: Seq<Option<StackView>>, size: int, player: TakPlayer, c: TakCoord) -> bool {
    &&& on_board(c, size)
    &&& cell_index(c, size) < cells.len()
    &&& match cells[cell_index(c, size)] {
        Some(s) => s.1.len() > 0 && top_player(s) == player && s.0 != TakPieceVariant::Wall,
        None => false,
    }
}

/// Whether `a` and `b` are side by side.
pub open spec fn adjacent(a: TakCoord, b: TakCoord) -> bool {
    ||| a.x == b.x && (a.y - b.y == 1 || b.y - a.y == 1)
    ||| a.y == b.y && (a.x - b.x == 1 || b.x - a.x == 1)
}

/// Whether `p` is a road of `player`: a non-empty chain of road stacks of
/// `player`, each beside the next.
pub open spec fn is_road_path(cells: Seq<Option<StackView>>, size: int, player: TakPlayer, p: Seq<TakCoord>) -> bool {
    &&& p.len() > 0
    &&& forall|i: int| 0 <= i < p.len() ==> road_at(cells, size, player, #[trigger] p[i])
    &&& forall|i: int| 0 <= i < p.len() - 1 ==> adjacent(#[trigger] p[i], p[i + 1])
}

/// Whether a road of `player` leads from `a` to `b`.
pub open spec fn road_reach(cells: Seq<Option<StackView>>, size: int, player: TakPlayer, a: TakCoord, b: TakCoord) -> bool {
    exists|p: Seq<TakCoord>|
        #[trigger] is_road_path(cells, size, player, p) && p[0] == a && p[p.len() - 1] == b
}

/// Whether `a` and `b` lie on opposite edges of a board of at least two
/// cells a side: `a` on the left and `b` on the right, or `a` on the bottom
/// row (y = 0) and `b` on the top row.
pub open spec fn spans(a: TakCoord, b: TakCoord, size: int) -> bool {
    &&& size >= 2
    &&& (a.x == 0 && b.x == size - 1) || (a.y == 0 && b.y == size - 1)
}

/// A stack of the road is reached from itself.
pub proof fn lemma_reach_refl(cells: Seq<Option<StackView>>, size: int, player: TakPlayer, a: TakCoord)
    requires
        road_at(cells, size, player, a),
    ensures
        road_reach(cells, size, player, a, a),
{
    let p = seq![a];
    assert(is_road_path(cells, size, player, p));
}

/// A road can be extended by a road stack beside its end.
pub proof fn lemma_reach_step(
    cells: Seq<Option<StackView>>,
    size: int,
    player: TakPlayer,
    a: TakCoord,
    b: TakCoord,
    c: TakCoord,
)
    requires
        road_reach(cells, size, player, a, b),
        road_at(cells, size, player, c),
        adjacent(b, c),
    ensures
        road_reach(cells, size, player, a, c),
{
    let p = choose|p: Seq<TakCoord>|
        #[trigger] is_road_path(cells, size, player, p) && p[0] == a && p[p.len() - 1] == b;
    let q = p.push(c);
    assert forall|i: int| 0 <= i < q.len() - 1 implies adjacent(#[trigger] q[i], q[i + 1]) by {
        if i < p.len() - 1 {
            assert(q[i] == p[i] && q[i + 1] == p[i + 1]);
        }
    }
    assert forall|i: int| 0 <= i < q.len() implies road_at(cells, size, player, #[trigger] q[i]) by {
        if i < p.len() {
            assert(q[i] == p[i]);
        }
    }
    assert(is_road_path(cells, size, player, q));
}

/// Roads run both ways.
pub proof fn lemma_reach_sym(cells: Seq<Option<StackView>>, size: int, player: TakPlayer, a: TakCoord, b: TakCoord)
    requires
        road_reach(cells, size, player, a, b),
    ensures
        road_reach(cells, size, player, b, a),
{
    let p = choose|p: Seq<TakCoord>|
        #[trigger] is_road_path(cells, size, player, p) && p[0] == a && p[p.len() - 1] == b;
    let q = p.reverse();
    assert forall|i: int| 0 <= i < q.len() implies road_at(cells, size, player, #[trigger] q[i]) by {
        assert(q[i] == p[p.len() - 1 - i]);
    }
    assert forall|i: int| 0 <= i < q.len() - 1 implies adjacent(#[trigger] q[i], q[i + 1]) by {
        assert(q[i] == p[p.len() - 1 - i]);
        assert(q[i + 1] == p[p.len() - 2 - i]);
        assert(adjacent(p[p.len() - 2 - i], p[p.len() - 2 - i + 1]));
    }
    assert(is_road_path(cells, size, player, q));
}

/// Roads join end to end.
pub proof fn lemma_reach_trans(
    cells: Seq<Option<StackView>>,
    size: int,
    player: TakPlayer,
    a: TakCoord,
    b: TakCoord,
    c: TakCoord,
)
    requires
        road_reach(cells, size, player, a, b),
        road_reach(cells, size, player, b, c),
    ensures
        road_reach(cells, size, player, a, c),
{
    let p = choose|p: Seq<TakCoord>|
        #[trigger] is_road_path(cells, size, player, p) && p[0] == a && p[p.len() - 1] == b;
    let q = choose|q: Seq<TakCoord>|
        #[trigger] is_road_path(cells, size, player, q) && q[0] == b && q[q.len() - 1] == c;
    let r = p + q.drop_first();
    assert forall|i: int| 0 <= i < r.len() implies road_at(cells, size, player, #[trigger] r[i]) by {
        if i < p.len() {
            assert(r[i] == p[i]);
        } else {
            assert(r[i] == q[i - p.len() + 1]);
        }
    }
    assert forall|i: int| 0 <= i < r.len() - 1 implies adjacent(#[trigger] r[i], r[i + 1]) by {
        if i < p.len() - 1 {
            assert(r[i] == p[i] && r[i + 1] == p[i + 1]);
        } else if i == p.len() - 1 {
            assert(r[i] == p[i]);
            assert(r[i + 1] == q[1]);
            assert(adjacent(q[0int], q[1int]));
        } else {
            assert(r[i] == q[i - p.len() + 1]);
            assert(r[i + 1] == q[i - p.len() + 2]);
            assert(adjacent(q[i - p.len() + 1], q[i - p.len() + 1 + 1]));
        }
    }
    assert(is_road_path(cells, size, player, r));
    assert(r[r.len() - 1] == c) by {
        if q.len() == 1 {
            assert(c == b);
        } else {
            assert(r[r.len() - 1] == q[q.len() - 1]);
        }
    }
}

/// Whether position `c` is marked in a per-cell table.
pub open spec fn marked(v: Seq<bool>, size: int, c: TakCoord) -> bool {
    on_board(c, size) && cell_index(c, size) < v.len() && v[cell_index(c, size)]
}

/// The marked road stacks of `player` have all their road neighbours marked.
pub open spec fn closed(cells: Seq<Option<StackView>>, size: int, player: TakPlayer, v: Seq<bool>) -> bool {
    forall|a: TakCoord, b: TakCoord|
        #![trigger marked(v, size, a), road_at(cells, size, player, b)]
        marked(v, size, a) && road_at(cells, size, player, a) && road_at(cells, size, player, b)
            && adjacent(a, b) ==> marked(v, size, b)
}

/// Within a closed marking, everything a marked road stack reaches is marked.
pub proof fn lemma_closed_reach(
    cells: Seq<Option<StackView>>,
    size: int,
    player: TakPlayer,
    v: Seq<bool>,
    a: TakCoord,
    b: TakCoord,
)
    requires
        closed(cells, size, player, v),
        marked(v, size, a),
        road_reach(cells, size, player, a, b),
    ensures
        marked(v, size, b),
{
    let p = choose|p: Seq<TakCoord>|
        #[trigger] is_road_path(cells, size, player, p) && p[0] == a && p[p.len() - 1] == b;
    lemma_closed_path(cells, size, player, v, p, p.len() - 1);
}

proof fn lemma_closed_path(
    cells: Seq<Option<StackView>>,
    size: int,
    player: TakPlayer,
    v: Seq<bool>,
    p: Seq<TakCoord>,
    i: int,
)
    requires
        closed(cells, size, player, v),
        is_road_path(cells, size, player, p),
        marked(v, size, p[0]),
        0 <= i < p.len(),
    ensures
        marked(v, size, p[i]),
    decreases i,
{
    if i > 0 {
        lemma_closed_path(cells, size, player, v, p, i - 1);
        assert(adjacent(p[i - 1], p[i - 1 + 1]));
        assert(road_at(cells, size, player, p[i - 1]));
        assert(road_at(cells, size, player, p[i]));
    }
}

/// No two marked road stacks that a road joins lie on opposite edges.
pub open spec fn no_span(cells: Seq<Option<StackView>>, size: int, player: TakPlayer, v: Seq<bool>) -> bool {
    forall|a: TakCoord, b: TakCoord|
        #![trigger road_reach(cells, size, player, a, b)]
        marked(v, size, a) && marked(v, size, b) && road_reach(cells, size, player, a, b) ==> !spans(
            a,
            b,
            size,
        )
}

/// A road stack is beside another exactly when the other is one step away in
/// one of the four directions.
proof fn lemma_adjacent_step(a: TakCoord, b: TakCoord)
    requires
        adjacent(a, b),
        i32::MIN < a.x < i32::MAX,
        i32::MIN < a.y < i32::MAX,
    ensures
        b == step(a, TakDir::Up, 1) || b == step(a, TakDir::Down, 1) || b == step(a, TakDir::Left, 1)
            || b == step(a, TakDir::Right, 1),
{
}

proof fn lemma_step_adjacent(a: TakCoord, d: TakDir)
    requires
        i32::MIN < a.x < i32::MAX,
        i32::MIN < a.y < i32::MAX,
    ensures
        adjacent(a, step(a, d, 1)),
{
}

/// The number of unmarked entries.
pub open spec fn count_unmarked(v: Seq<bool>) -> nat
    decreases v.len(),
{
    if v.len() == 0 {
        0
    } else {
        count_unmarked(v.drop_last()) + if v.last() {
            0nat
        } else {
            1nat
        }
    }
}

proof fn lemma_count_unmarked_set(v: Seq<bool>, i: int)
    requires
        0 <= i < v.len(),
        !v[i],
    ensures
        count_unmarked(v.update(i, true)) + 1 == count_unmarked(v),
    decreases v.len(),
{
    if i < v.len() - 1 {
        lemma_count_unmarked_set(v.drop_last(), i);
        assert(v.update(i, true).drop_last() =~= v.drop_last().update(i, true));
    } else {
        assert(v.update(i, true).drop_last() =~= v.drop_last());
    }
}

/// Every marked road stack has each road neighbour marked or waiting in `st`.
pub open spec fn frontier(
    cells: Seq<Option<StackView>>,
    size: int,
    player: TakPlayer,
    v: Seq<bool>,
    st: Seq<TakCoord>,
) -> bool {
    forall|a: TakCoord, b: TakCoord|
        #![trigger marked(v, size, a), road_at(cells, size, player, b)]
        marked(v, size, a) && road_at(cells, size, player, a) && road_at(cells, size, player, b)
            && adjacent(a, b) ==> marked(v, size, b) || st.contains(b)
}

/// Every road stack marked in `v` but not in `v0` is reached from `s`.
pub open spec fn reached_from(
    cells: Seq<Option<StackView>>,
    size: int,
    player: TakPlayer,
    s: TakCoord,
    v0: Seq<bool>,
    v: Seq<bool>,
) -> bool {
    forall|a: TakCoord|
        #![trigger marked(v, size, a)]
        marked(v, size, a) && !marked(v0, size, a) && road_at(cells, size, player, a) ==> road_reach(
            cells,
            size,
            player,
            s,
            a,
        )
}

/// The coordinate of `a` along the x axis (`horizontal`) or the y axis.
pub open spec fn axis(a: TakCoord, horizontal: bool) -> int {
    if horizontal {
        a.x as int
    } else {
        a.y as int
    }
}

/// No road stack marked in `v` but not in `v0` has coordinate `val` on the axis.
pub open spec fn avoids(
    cells: Seq<Option<StackView>>,
    size: int,
    player: TakPlayer,
    v0: Seq<bool>,
    v: Seq<bool>,
    horizontal: bool,
    val: int,
) -> bool {
    forall|a: TakCoord|
        #![trigger marked(v, size, a)]
        marked(v, size, a) && !marked(v0, size, a) && road_at(cells, size, player, a) ==> axis(
            a,
            horizontal,
        ) != val
}

/// What a found edge stack records: none so far among the newly marked road
/// stacks, or one reached from `s`.
pub open spec fn edge_found(
    cells: Seq<Option<StackView>>,
    size: int,
    player: TakPlayer,
    s: TakCoord,
    v0: Seq<bool>,
    v: Seq<bool>,
    horizontal: bool,
    val: int,
    f: Option<TakCoord>,
) -> bool {
    match f {
        Some(c) => axis(c, horizontal) == val && road_reach(cells, size, player, s, c),
        None => avoids(cells, size, player, v0, v, horizontal, val),
    }
}

/// Marking position `cur` marks it and nothing else.
proof fn lemma_mark(v: Seq<bool>, size: int, cur: TakCoord)
    requires
        on_board(cur, size),
        v.len() == size * size,
    ensures
        0 <= cell_index(cur, size) < size * size,
        v.update(cell_index(cur, size), true).len() == v.len(),
        forall|x: TakCoord|
            #[trigger] marked(v.update(cell_index(cur, size), true), size, x) <==> marked(v, size, x) || x
                == cur,
{
    lemma_index_bounds_pub(cur, size);
    assert forall|x: TakCoord| #[trigger] marked(v.update(cell_index(cur, size), true), size, x) <==> marked(
        v,
        size,
        x,
    ) || x == cur by {
        if on_board(x, size) {
            lemma_index_bounds_pub(x, size);
            if cell_index(x, size) == cell_index(cur, size) {
                lemma_index_injective(x, cur, size);
            }
        }
    }
}

/// Dropping a position that is off the board or already marked keeps the frontier.
proof fn lemma_frontier_skip(
    cells: Seq<Option<StackView>>,
    size: int,
    player: TakPlayer,
    v: Seq<bool>,
    st: Seq<TakCoord>,
)
    requires
        st.len() > 0,
        frontier(cells, size, player, v, st),
        !on_board(st.last(), size) || marked(v, size, st.last()),
    ensures
        frontier(cells, size, player, v, st.drop_last()),
{
    assert forall|a: TakCoord, b: TakCoord|
        #![trigger marked(v, size, a), road_at(cells, size, player, b)]
        marked(v, size, a) && road_at(cells, size, player, a) && road_at(cells, size, player, b)
            && adjacent(a, b) implies marked(v, size, b) || st.drop_last().contains(b) by {
        if !marked(v, size, b) {
            let j = choose|j: int| 0 <= j < st.len() && st[j] == b;
            if j < st.len() - 1 {
                assert(st.drop_last()[j] == b);
            }
        }
    }
}

/// Marking the last waiting position and dropping it keeps the frontier when
/// the position is no road stack.
proof fn lemma_frontier_mark_plain(
    cells: Seq<Option<StackView>>,
    size: int,
    player: TakPlayer,
    v: Seq<bool>,
    st: Seq<TakCoord>,
)
    requires
        st.len() > 0,
        v.len() == size * size,
        on_board(st.last(), size),
        !road_at(cells, size, player, st.last()),
        frontier(cells, size, player, v, st),
    ensures
        frontier(cells, size, player, v.update(cell_index(st.last(), size), true), st.drop_last()),
{
    let cur = st.last();
    let w = v.update(cell_index(cur, size), true);
    lemma_mark(v, size, cur);
    assert forall|a: TakCoord, b: TakCoord|
        #![trigger marked(w, size, a), road_at(cells, size, player, b)]
        marked(w, size, a) && road_at(cells, size, player, a) && road_at(cells, size, player, b)
            && adjacent(a, b) implies marked(w, size, b) || st.drop_last().contains(b) by {
        assert(marked(v, size, a));
        if !marked(w, size, b) {
            assert(marked(v, size, b) || st.contains(b));
            let j = choose|j: int| 0 <= j < st.len() && st[j] == b;
            if j < st.len() - 1 {
                assert(st.drop_last()[j] == b);
            }
        }
    }
}

/// Marking the last waiting position, a road stack, and putting its four
/// neighbours in its place keeps the frontier.
proof fn lemma_frontier_mark_road(
    cells: Seq<Option<StackView>>,
    size: int,
    player: TakPlayer,
    v: Seq<bool>,
    st: Seq<TakCoord>,
    st2: Seq<TakCoord>,
)
    requires
        st.len() > 0,
        v.len() == size * size,
        size < i32::MAX,
        on_board(st.last(), size),
        frontier(cells, size, player, v, st),
        st2 == st.drop_last().push(step(st.last(), TakDir::Up, 1)).push(step(st.last(), TakDir::Down, 1)).push(
            step(st.last(), TakDir::Left, 1),
        ).push(step(st.last(), TakDir::Right, 1)),
    ensures
        frontier(cells, size, player, v.update(cell_index(st.last(), size), true), st2),
{
    let cur = st.last();
    let w = v.update(cell_index(cur, size), true);
    let m = st.len() - 1;
    lemma_mark(v, size, cur);
    assert forall|a: TakCoord, b: TakCoord|
        #![trigger marked(w, size, a), road_at(cells, size, player, b)]
        marked(w, size, a) && road_at(cells, size, player, a) && road_at(cells, size, player, b)
            && adjacent(a, b) implies marked(w, size, b) || st2.contains(b) by {
        if !marked(w, size, b) {
            if a == cur {
                lemma_adjacent_step(cur, b);
                if b == step(cur, TakDir::Up, 1) {
                    assert(st2[m] == b);
                } else if b == step(cur, TakDir::Down, 1) {
                    assert(st2[m + 1] == b);
                } else if b == step(cur, TakDir::Left, 1) {
                    assert(st2[m + 2] == b);
                } else {
                    assert(st2[m + 3] == b);
                }
            } else {
                assert(marked(v, size, a));
                assert(marked(v, size, b) || st.contains(b));
                let j = choose|j: int| 0 <= j < st.len() && st[j] == b;
                assert(j < st.len() - 1);
                assert(st2[j] == b);
            }
        }
    }
}

/// Whether the stack at `c` counts towards a road of `player`.
fn is_road_stack(b: &TakBoard, c: TakCoord, player: TakPlayer) -> (r: bool)
    requires
        b.wf(),
    ensures
        r == road_at(b.cells(), b.size as int, player, c),
{
    match c.try_get(b.board.as_slice(), b.size) {
        Some(Some(stack)) => {
            assert(b.cells()[cell_index(c, b.size as int)] == Some(stack@));
            stack.player() == player && stack.variant != TakPieceVariant::Wall
        },
        _ => false,
    }
}

/// Every waiting position is the start or a neighbour of a road stack that
/// the start reaches (`parents` records which).
pub open spec fn waiting_ok(
    cells: Seq<Option<StackView>>,
    size: int,
    player: TakPlayer,
    s: TakCoord,
    st: Seq<TakCoord>,
    parents: Seq<TakCoord>,
) -> bool {
    &&& parents.len() == st.len()
    &&& forall|i: int|
        0 <= i < st.len() ==> #[trigger] st[i] == s || (road_reach(cells, size, player, s, parents[i])
            && adjacent(parents[i], st[i]))
}

/// What holds while the road search explores from `s`.
#[verifier::opaque]
pub open spec fn search_inv(
    cells: Seq<Option<StackView>>,
    size: int,
    player: TakPlayer,
    s: TakCoord,
    v0: Seq<bool>,
    v: Seq<bool>,
    st: Seq<TakCoord>,
    parents: Seq<TakCoord>,
    found: (Option<TakCoord>, Option<TakCoord>, Option<TakCoord>, Option<TakCoord>),
) -> bool {
    &&& v.len() == size * size
    &&& v0.len() == size * size
    &&& closed(cells, size, player, v0)
    &&& no_span(cells, size, player, v0)
    &&& forall|x: TakCoord| #[trigger] marked(v0, size, x) ==> marked(v, size, x)
    &&& on_board(s, size) ==> marked(v, size, s) || st.contains(s)
    &&& waiting_ok(cells, size, player, s, st, parents)
    &&& frontier(cells, size, player, v, st)
    &&& reached_from(cells, size, player, s, v0, v)
    &&& edge_found(cells, size, player, s, v0, v, true, 0, found.0)
    &&& edge_found(cells, size, player, s, v0, v, true, size - 1, found.1)
    &&& edge_found(cells, size, player, s, v0, v, false, 0, found.2)
    &&& edge_found(cells, size, player, s, v0, v, false, size - 1, found.3)
    &&& !(found.0 is Some && found.1 is Some)
    &&& !(found.2 is Some && found.3 is Some)
}

/// Dropping the last waiting position when it is off the board or marked
/// keeps the search invariant.
proof fn lemma_search_skip(
    cells: Seq<Option<StackView>>,
    size: int,
    player: TakPlayer,
    s: TakCoord,
    v0: Seq<bool>,
    v: Seq<bool>,
    st: Seq<TakCoord>,
    parents: Seq<TakCoord>,
    found: (Option<TakCoord>, Option<TakCoord>, Option<TakCoord>, Option<TakCoord>),
)
    requires
        st.len() > 0,
        search_inv(cells, size, player, s, v0, v, st, parents, found),
        !on_board(st.last(), size) || marked(v, size, st.last()),
    ensures
        search_inv(cells, size, player, s, v0, v, st.drop_last(), parents.drop_last(), found),
{
    reveal(search_inv);
    lemma_frontier_skip(cells, size, player, v, st);
    if on_board(s, size) && !marked(v, size, s) {
        let j = choose|j: int| 0 <= j < st.len() && st[j] == s;
        assert(st.drop_last()[j] == s);
    }
    assert forall|i: int| 0 <= i < st.drop_last().len() implies #[trigger] st.drop_last()[i] == s || (
    road_reach(cells, size, player, s, parents.drop_last()[i]) && adjacent(
        parents.drop_last()[i],
        st.drop_last()[i],
    )) by {
        assert(st.drop_last()[i] == st[i]);
    }
}

/// Marking the last waiting position, when it is no road stack, keeps the
/// search invariant.
proof fn lemma_search_mark_plain(
    cells: Seq<Option<StackView>>,
    size: int,
    player: TakPlayer,
    s: TakCoord,
    v0: Seq<bool>,
    v: Seq<bool>,
    st: Seq<TakCoord>,
    parents: Seq<TakCoord>,
    found: (Option<TakCoord>, Option<TakCoord>, Option<TakCoord>, Option<TakCoord>),
)
    requires
        st.len() > 0,
        search_inv(cells, size, player, s, v0, v, st, parents, found),
        on_board(st.last(), size),
        !marked(v, size, st.last()),
        !road_at(cells, size, player, st.last()),
    ensures
        search_inv(
            cells,
            size,
            player,
            s,
            v0,
            v.update(cell_index(st.last(), size), true),
            st.drop_last(),
            parents.drop_last(),
            found,
        ),
{
    reveal(search_inv);
    let cur = st.last();
    let w = v.update(cell_index(cur, size), true);
    lemma_mark(v, size, cur);
    lemma_frontier_mark_plain(cells, size, player, v, st);
    if on_board(s, size) && !marked(w, size, s) {
        let j = choose|j: int| 0 <= j < st.len() && st[j] == s;
        assert(j != st.len() - 1);
        assert(st.drop_last()[j] == s);
    }
    assert forall|i: int| 0 <= i < st.drop_last().len() implies #[trigger] st.drop_last()[i] == s || (
    road_reach(cells, size, player, s, parents.drop_last()[i]) && adjacent(
        parents.drop_last()[i],
        st.drop_last()[i],
    )) by {
        assert(st.drop_last()[i] == st[i]);
    }
    assert forall|x: TakCoord| #[trigger] marked(v0, size, x) implies marked(w, size, x) by {
        assert(marked(v, size, x));
    }
    assert forall|a: TakCoord|
        #![trigger marked(w, size, a)]
        marked(w, size, a) && !marked(v0, size, a) && road_at(cells, size, player, a) implies road_reach(
            cells,
            size,
            player,
            s,
            a,
        ) by {
        assert(marked(v, size, a));
    }
    assert(w.len() == size * size);
    assert(frontier(cells, size, player, w, st.drop_last()));
    assert(on_board(s, size) ==> marked(w, size, s) || st.drop_last().contains(s));
    assert(waiting_ok(cells, size, player, s, st.drop_last(), parents.drop_last()));
    assert(reached_from(cells, size, player, s, v0, w));
    lemma_edge_plain(cells, size, player, s, v0, v, cur, true, 0, found.0);
    lemma_edge_plain(cells, size, player, s, v0, v, cur, true, size - 1, found.1);
    lemma_edge_plain(cells, size, player, s, v0, v, cur, false, 0, found.2);
    lemma_edge_plain(cells, size, player, s, v0, v, cur, false, size - 1, found.3);
}

/// Marking a position that is no road stack keeps what a found edge records.
proof fn lemma_edge_plain(
    cells: Seq<Option<StackView>>,
    size: int,
    player: TakPlayer,
    s: TakCoord,
    v0: Seq<bool>,
    v: Seq<bool>,
    cur: TakCoord,
    horizontal: bool,
    val: int,
    f: Option<TakCoord>,
)
    requires
        v.len() == size * size,
        on_board(cur, size),
        !road_at(cells, size, player, cur),
        edge_found(cells, size, player, s, v0, v, horizontal, val, f),
    ensures
        edge_found(cells, size, player, s, v0, v.update(cell_index(cur, size), true), horizontal, val, f),
{
    let w = v.update(cell_index(cur, size), true);
    lemma_mark(v, size, cur);
    if f is None {
        assert forall|a: TakCoord|
            #![trigger marked(w, size, a)]
            marked(w, size, a) && !marked(v0, size, a) && road_at(cells, size, player, a) implies axis(
                a,
                horizontal,
            ) != val by {
            assert(marked(v, size, a));
        }
    }
}

/// Marking a road stack keeps what the found edges record.
proof fn lemma_edge_mark(
    cells: Seq<Option<StackView>>,
    size: int,
    player: TakPlayer,
    s: TakCoord,
    v0: Seq<bool>,
    v: Seq<bool>,
    cur: TakCoord,
    horizontal: bool,
    val: int,
    f: Option<TakCoord>,
    f2: Option<TakCoord>,
)
    requires
        v.len() == size * size,
        on_board(cur, size),
        road_reach(cells, size, player, s, cur),
        edge_found(cells, size, player, s, v0, v, horizontal, val, f),
        f2 is Some || axis(cur, horizontal) != val,
        f is Some ==> f2 == f,
        f2 is Some ==> f2 == f || f2 == Some(cur),
        f2 == Some(cur) ==> axis(cur, horizontal) == val,
    ensures
        edge_found(cells, size, player, s, v0, v.update(cell_index(cur, size), true), horizontal, val, f2),
{
    let w = v.update(cell_index(cur, size), true);
    lemma_mark(v, size, cur);
    if f2 is None {
        assert forall|a: TakCoord|
            #![trigger marked(w, size, a)]
            marked(w, size, a) && !marked(v0, size, a) && road_at(cells, size, player, a) implies axis(
                a,
                horizontal,
            ) != val by {
            if a != cur {
                assert(marked(v, size, a));
            }
        }
    }
}

/// The last waiting position, when it is an unmarked road stack, is reached
/// from the start, and the found edges are as recorded.
proof fn lemma_search_cur(
    cells: Seq<Option<StackView>>,
    size: int,
    player: TakPlayer,
    s: TakCoord,
    v0: Seq<bool>,
    v: Seq<bool>,
    st: Seq<TakCoord>,
    parents: Seq<TakCoord>,
    found: (Option<TakCoord>, Option<TakCoord>, Option<TakCoord>, Option<TakCoord>),
)
    requires
        st.len() > 0,
        search_inv(cells, size, player, s, v0, v, st, parents, found),
        road_at(cells, size, player, st.last()),
    ensures
        road_reach(cells, size, player, s, st.last()),
        v.len() == size * size,
        edge_found(cells, size, player, s, v0, v, true, 0, found.0),
        edge_found(cells, size, player, s, v0, v, true, size - 1, found.1),
        edge_found(cells, size, player, s, v0, v, false, 0, found.2),
        edge_found(cells, size, player, s, v0, v, false, size - 1, found.3),
{
    reveal(search_inv);
    let cur = st.last();
    let i = st.len() - 1;
    if cur == s {
        lemma_reach_refl(cells, size, player, s);
    } else {
        assert(st[i] == cur);
        lemma_reach_step(cells, size, player, s, parents[i], cur);
    }
}

/// Marking the last waiting position, a road stack that the start reaches,
/// and putting its four neighbours in its place keeps the search invariant.
proof fn lemma_search_mark_road(
    cells: Seq<Option<StackView>>,
    size: int,
    player: TakPlayer,
    s: TakCoord,
    v0: Seq<bool>,
    v: Seq<bool>,
    st: Seq<TakCoord>,
    parents: Seq<TakCoord>,
    found: (Option<TakCoord>, Option<TakCoord>, Option<TakCoord>, Option<TakCoord>),
    found2: (Option<TakCoord>, Option<TakCoord>, Option<TakCoord>, Option<TakCoord>),
    st2: Seq<TakCoord>,
)
    requires
        st.len() > 0,
        size < i32::MAX,
        search_inv(cells, size, player, s, v0, v, st, parents, found),
        on_board(st.last(), size),
        !marked(v, size, st.last()),
        road_reach(cells, size, player, s, st.last()),
        edge_found(cells, size, player, s, v0, v.update(cell_index(st.last(), size), true), true, 0, found2.0),
        edge_found(cells, size, player, s, v0, v.update(cell_index(st.last(), size), true), true, size - 1, found2.1),
        edge_found(cells, size, player, s, v0, v.update(cell_index(st.last(), size), true), false, 0, found2.2),
        edge_found(cells, size, player, s, v0, v.update(cell_index(st.last(), size), true), false, size - 1, found2.3),
        !(found2.0 is Some && found2.1 is Some),
        !(found2.2 is Some && found2.3 is Some),
        st2 == st.drop_last().push(step(st.last(), TakDir::Up, 1)).push(step(st.last(), TakDir::Down, 1)).push(
            step(st.last(), TakDir::Left, 1),
        ).push(step(st.last(), TakDir::Right, 1)),
    ensures
        search_inv(
            cells,
            size,
            player,
            s,
            v0,
            v.update(cell_index(st.last(), size), true),
            st2,
            parents.drop_last().push(st.last()).push(st.last()).push(st.last()).push(st.last()),
            found2,
        ),
{
    reveal(search_inv);
    let cur = st.last();
    let w = v.update(cell_index(cur, size), true);
    let p2 = parents.drop_last().push(cur).push(cur).push(cur).push(cur);
    let m = st.len() - 1;
    lemma_mark(v, size, cur);
    lemma_frontier_mark_road(cells, size, player, v, st, st2);
    if on_board(s, size) && !marked(w, size, s) {
        let j = choose|j: int| 0 <= j < st.len() && st[j] == s;
        assert(j != st.len() - 1);
        assert(st2[j] == s);
    }
    assert forall|i: int| 0 <= i < st2.len() implies #[trigger] st2[i] == s || (road_reach(
        cells,
        size,
        player,
        s,
        p2[i],
    ) && adjacent(p2[i], st2[i])) by {
        if i >= m {
            lemma_step_adjacent(cur, TakDir::Up);
            lemma_step_adjacent(cur, TakDir::Down);
            lemma_step_adjacent(cur, TakDir::Left);
            lemma_step_adjacent(cur, TakDir::Right);
        } else {
            assert(st2[i] == st[i]);
            assert(p2[i] == parents[i]);
        }
    }
    assert forall|x: TakCoord| #[trigger] marked(v0, size, x) implies marked(w, size, x) by {
        assert(marked(v, size, x));
    }
    assert forall|a: TakCoord|
        #![trigger marked(w, size, a)]
        marked(w, size, a) && !marked(v0, size, a) && road_at(cells, size, player, a) implies road_reach(
            cells,
            size,
            player,
            s,
            a,
        ) by {
        if a != cur {
            assert(marked(v, size, a));
        }
    }
}

/// The search invariant holds when the search from `s` starts.
proof fn lemma_search_start(
    cells: Seq<Option<StackView>>,
    size: int,
    player: TakPlayer,
    s: TakCoord,
    v: Seq<bool>,
    st: Seq<TakCoord>,
)
    requires
        v.len() == size * size,
        closed(cells, size, player, v),
        no_span(cells, size, player, v),
        st == seq![s],
    ensures
        search_inv(cells, size, player, s, v, v, st, seq![s], (None, None, None, None)),
{
    reveal(search_inv);
    assert(st[0] == s);
}

/// After a search from `s` ends with nothing waiting, the marking is closed
/// and no two marked road stacks joined by a road lie on opposite edges.
proof fn lemma_search_done(
    cells: Seq<Option<StackView>>,
    size: int,
    player: TakPlayer,
    s: TakCoord,
    v0: Seq<bool>,
    v: Seq<bool>,
    st: Seq<TakCoord>,
    parents: Seq<TakCoord>,
    found: (Option<TakCoord>, Option<TakCoord>, Option<TakCoord>, Option<TakCoord>),
)
    requires
        st.len() == 0,
        size >= 2,
        search_inv(cells, size, player, s, v0, v, st, parents, found),
    ensures
        closed(cells, size, player, v),
        no_span(cells, size, player, v),
        on_board(s, size) ==> marked(v, size, s),
        forall|x: TakCoord| #[trigger] marked(v0, size, x) ==> marked(v, size, x),
{
    reveal(search_inv);
    assert forall|a: TakCoord, b: TakCoord|
        #![trigger marked(v, size, a), road_at(cells, size, player, b)]
        marked(v, size, a) && road_at(cells, size, player, a) && road_at(cells, size, player, b)
            && adjacent(a, b) implies marked(v, size, b) by {
        assert(!st.contains(b));
    }
    assert forall|a: TakCoord, b: TakCoord|
        marked(v, size, a) && marked(v, size, b) && #[trigger] road_reach(cells, size, player, a, b)
            implies !spans(a, b, size) by {
        let p = choose|p: Seq<TakCoord>|
            #[trigger] is_road_path(cells, size, player, p) && p[0] == a && p[p.len() - 1] == b;
        assert(road_at(cells, size, player, p[0]));
        assert(road_at(cells, size, player, p[p.len() - 1]));
        if marked(v0, size, a) {
            lemma_closed_reach(cells, size, player, v0, a, b);
        } else if marked(v0, size, b) {
            lemma_reach_sym(cells, size, player, a, b);
            lemma_closed_reach(cells, size, player, v0, b, a);
        }
    }
    if on_board(s, size) {
        assert(!st.contains(s));
    }
}

impl TakBoard {
    /// Looks for a road of `player` that spans the board, starting from each
    /// of `positions` in turn. Returns the two stacks found on opposite
    /// edges (left and right, or bottom and top), both reached by a road from
    /// the same starting position; `None` when no starting position reaches
    /// two such stacks.
    pub fn check_for_road(&self, positions: &[TakCoord], player: TakPlayer) -> (r: Option<(TakCoord, TakCoord)>)
        requires
            self.wf(),
        ensures
            match r {
                Some((a, b)) => spans(a, b, self.size as int) && exists|i: int|
                    0 <= i < positions@.len() && road_reach(
                        self.cells(),
                        self.size as int,
                        player,
                        #[trigger] positions@[i],
                        a,
                    ) && road_reach(self.cells(), self.size as int, player, positions@[i], b),
                None => forall|i: int, a: TakCoord, b: TakCoord|
                    0 <= i < positions@.len() && #[trigger] road_reach(
                        self.cells(),
                        self.size as int,
                        player,
                        positions@[i],
                        a,
                    ) && #[trigger] road_reach(self.cells(), self.size as int, player, positions@[i], b)
                        ==> !spans(a, b, self.size as int),
            },
    {
        let size = self.size;
        if size < 2 {
            return None;
        }
        let ghost cells = self.cells();
        let ghost sz = size as int;
        let n = self.board.len();
        let mut visited: Vec<bool> = Vec::new();
        for i in 0..n
            invariant
                visited@.len() == i,
                forall|j: int| 0 <= j < i ==> !#[trigger] visited@[j],
        {
            visited.push(false);
        }
        proof {
            assert forall|a: TakCoord| !#[trigger] marked(visited@, sz, a) by {
                if on_board(a, sz) {
                    lemma_index_bounds_pub(a, sz);
                }
            }
        }
        let max: i32 = (size - 1) as i32;
        for pi in 0..positions.len()
            invariant
                self.wf(),
                cells == self.cells(),
                size == self.size,
                sz == size,
                2 <= size,
                max == size - 1,
                n == size * size,
                visited@.len() == n,
                closed(cells, sz, player, visited@),
                no_span(cells, sz, player, visited@),
                forall|j: int|
                    0 <= j < pi && on_board(#[trigger] positions@[j], sz) ==> marked(
                        visited@,
                        sz,
                        positions@[j],
                    ),
        {
            let s = positions[pi];
            let ghost v0 = visited@;
            let mut stack: Vec<TakCoord> = Vec::new();
            stack.push(s);
            let ghost mut parents: Seq<TakCoord> = seq![s];
            let mut left: Option<TakCoord> = None;
            let mut right: Option<TakCoord> = None;
            let mut bottom: Option<TakCoord> = None;
            let mut top: Option<TakCoord> = None;
            proof {
                lemma_search_start(cells, sz, player, s, visited@, stack@);
            }
            while stack.len() > 0
                invariant
                    self.wf(),
                    cells == self.cells(),
                    size == self.size,
                    sz == size,
                    2 <= size,
                    max == size - 1,
                    n == size * size,
                    visited@.len() == n,
                    pi < positions@.len(),
                    s == positions@[pi as int],
                    search_inv(cells, sz, player, s, v0, visited@, stack@, parents, (left, right, bottom, top)),
                decreases 5 * count_unmarked(visited@) + stack@.len(),
            {
                let ghost old_visited = visited@;
                let ghost old_stack = stack@;
                let ghost old_parents = parents;
                let cur = stack.pop().unwrap();
                proof {
                    parents = parents.drop_last();
                    assert(old_stack.drop_last() == stack@);
                }
                if !cur.is_valid(size) {
                    proof {
                        lemma_search_skip(cells, sz, player, s, v0, old_visited, old_stack, old_parents, (left, right, bottom, top));
                    }
                    continue;
                }
                proof {
                    lemma_index_bounds_pub(cur, sz);
                }
                let k = cur.index_in(size);
                if visited[k] {
                    proof {
                        lemma_search_skip(cells, sz, player, s, v0, old_visited, old_stack, old_parents, (left, right, bottom, top));
                    }
                    continue;
                }
                let road = is_road_stack(self, cur, player);
                visited.set(k, true);
                proof {
                    lemma_count_unmarked_set(old_visited, k as int);
                }
                if !road {
                    proof {
                        lemma_search_mark_plain(cells, sz, player, s, v0, old_visited, old_stack, old_parents, (left, right, bottom, top));
                    }
                    continue;
                }
                proof {
                    lemma_search_cur(cells, sz, player, s, v0, old_visited, old_stack, old_parents, (left, right, bottom, top));
                }
                let ghost f0 = (left, right, bottom, top);
                let take_left = cur.x == 0 && left.is_none();
                if take_left {
                    left = Some(cur);
                } else if cur.x == max && right.is_none() {
                    right = Some(cur);
                }
                let take_bottom = cur.y == 0 && bottom.is_none();
                if take_bottom {
                    bottom = Some(cur);
                } else if cur.y == max && top.is_none() {
                    top = Some(cur);
                }
                proof {
                    lemma_edge_mark(cells, sz, player, s, v0, old_visited, cur, true, 0, f0.0, left);
                    lemma_edge_mark(cells, sz, player, s, v0, old_visited, cur, true, sz - 1, f0.1, right);
                    lemma_edge_mark(cells, sz, player, s, v0, old_visited, cur, false, 0, f0.2, bottom);
                    lemma_edge_mark(cells, sz, player, s, v0, old_visited, cur, false, sz - 1, f0.3, top);
                }
                if left.is_some() && right.is_some() {
                    let a = left.unwrap();
                    let b = right.unwrap();
                    proof {
                        assert(spans(a, b, sz));
                        assert(road_reach(cells, sz, player, positions@[pi as int], a));
                    }
                    return Some((a, b));
                } else if bottom.is_some() && top.is_some() {
                    let a = bottom.unwrap();
                    let b = top.unwrap();
                    proof {
                        assert(spans(a, b, sz));
                        assert(road_reach(cells, sz, player, positions@[pi as int], a));
                    }
                    return Some((a, b));
                }
                stack.push(cur.offset_dir(TakDir::Up));
                stack.push(cur.offset_dir(TakDir::Down));
                stack.push(cur.offset_dir(TakDir::Left));
                stack.push(cur.offset_dir(TakDir::Right));
                proof {
                    parents = old_parents.drop_last().push(cur).push(cur).push(cur).push(cur);
                    lemma_search_mark_road(cells, sz, player, s, v0, old_visited, old_stack, old_parents, f0, (left, right, bottom, top), stack@);
                }
            }
            proof {
                lemma_search_done(cells, sz, player, s, v0, visited@, stack@, parents, (left, right, bottom, top));
            }
        }
        proof {
            assert forall|i: int, a: TakCoord, b: TakCoord|
                0 <= i < positions@.len() && #[trigger] road_reach(cells, sz, player, positions@[i], a)
                    && #[trigger] road_reach(cells, sz, player, positions@[i], b) implies !spans(a, b, sz) by {
                let s = positions@[i];
                let p = choose|p: Seq<TakCoord>|
                    #[trigger] is_road_path(cells, sz, player, p) && p[0] == s && p[p.len() - 1] == a;
                assert(road_at(cells, sz, player, p[0]));
                lemma_closed_reach(cells, sz, player, visited@, s, a);
                lemma_closed_reach(cells, sz, player, visited@, s, b);
                lemma_reach_sym(cells, sz, player, s, a);
                lemma_reach_trans(cells, sz, player, a, s, b);
            }
        }
        None
    }
}

/// Whether position `c` has been reached in a table of recorded predecessors.
pub open spec fn seen(v: Seq<Option<TakCoord>>, size: int, c: TakCoord) -> bool {
    on_board(c, size) && cell_index(c, size) < v.len() && v[cell_index(c, size)] is Some
}

/// The recorded predecessor of `c`.
pub open spec fn pred(v: Seq<Option<TakCoord>>, size: int, c: TakCoord) -> TakCoord {
    v[cell_index(c, size)]->0
}

/// The number of positions not reached yet.
pub open spec fn count_unseen(v: Seq<Option<TakCoord>>) -> nat
    decreases v.len(),
{
    if v.len() == 0 {
        0
    } else {
        count_unseen(v.drop_last()) + if v.last() is Some {
            0nat
        } else {
            1nat
        }
    }
}

proof fn lemma_count_unseen_set(v: Seq<Option<TakCoord>>, i: int, x: TakCoord)
    requires
        0 <= i < v.len(),
        v[i] is None,
    ensures
        count_unseen(v.update(i, Some(x))) + 1 == count_unseen(v),
    decreases v.len(),
{
    if i < v.len() - 1 {
        lemma_count_unseen_set(v.drop_last(), i, x);
        assert(v.update(i, Some(x)).drop_last() =~= v.drop_last().update(i, Some(x)));
    } else {
        assert(v.update(i, Some(x)).drop_last() =~= v.drop_last());
    }
}

/// What holds during the breadth-first search from `start`: the queue `q`
/// holds each reached position once, in the order reached, starting with
/// `start`; each reached position is a road stack whose predecessor was
/// reached before it and lies beside it; the first `h` positions have been
/// taken from the queue, none of them is `end`, and their road neighbours
/// have all been reached.
#[verifier::opaque]
pub open spec fn bfs_inv(
    cells: Seq<Option<StackView>>,
    size: int,
    player: TakPlayer,
    start: TakCoord,
    end: TakCoord,
    v: Seq<Option<TakCoord>>,
    q: Seq<TakCoord>,
    h: int,
) -> bool {
    &&& v.len() == size * size
    &&& 0 <= h <= q.len()
    &&& q.len() > 0
    &&& q[0] == start
    &&& forall|j: int| 0 <= j < q.len() ==> #[trigger] seen(v, size, q[j])
    &&& forall|j: int| 0 <= j < q.len() ==> road_at(cells, size, player, #[trigger] q[j])
    &&& forall|c: TakCoord| #[trigger] seen(v, size, c) ==> q.contains(c)
    &&& forall|j: int|
        0 < j < q.len() ==> exists|k: int|
            0 <= k < j && #[trigger] q[k] == pred(v, size, #[trigger] q[j]) && adjacent(q[k], q[j])
    &&& forall|j: int| 0 <= j < h ==> #[trigger] q[j] != end
    &&& forall|j: int, b: TakCoord|
        #![trigger q[j], road_at(cells, size, player, b)]
        0 <= j < h && road_at(cells, size, player, b) && adjacent(q[j], b) ==> seen(v, size, b)
}

/// Marking position `c` as reached marks it and nothing else.
proof fn lemma_see(v: Seq<Option<TakCoord>>, size: int, c: TakCoord, p: TakCoord)
    requires
        on_board(c, size),
        v.len() == size * size,
    ensures
        0 <= cell_index(c, size) < size * size,
        v.update(cell_index(c, size), Some(p)).len() == v.len(),
        forall|x: TakCoord|
            #[trigger] seen(v.update(cell_index(c, size), Some(p)), size, x) <==> seen(v, size, x) || x
                == c,
        forall|x: TakCoord|
            x != c && seen(v, size, x) ==> #[trigger] pred(v.update(cell_index(c, size), Some(p)), size, x)
                == pred(v, size, x),
        pred(v.update(cell_index(c, size), Some(p)), size, c) == p,
{
    lemma_index_bounds_pub(c, size);
    assert forall|x: TakCoord| #[trigger] seen(v.update(cell_index(c, size), Some(p)), size, x) <==> seen(
        v,
        size,
        x,
    ) || x == c by {
        if on_board(x, size) {
            lemma_index_bounds_pub(x, size);
            if cell_index(x, size) == cell_index(c, size) {
                lemma_index_injective(x, c, size);
            }
        }
    }
    assert forall|x: TakCoord|
        x != c && seen(v, size, x) implies #[trigger] pred(v.update(cell_index(c, size), Some(p)), size, x)
            == pred(v, size, x) by {
        lemma_index_bounds_pub(x, size);
        if cell_index(x, size) == cell_index(c, size) {
            lemma_index_injective(x, c, size);
        }
    }
}

/// Reaching a new road stack `next` beside the position at `h`, the next to
/// be taken from the queue, keeps the search invariant.
proof fn lemma_bfs_add(
    cells: Seq<Option<StackView>>,
    size: int,
    player: TakPlayer,
    start: TakCoord,
    end: TakCoord,
    v: Seq<Option<TakCoord>>,
    q: Seq<TakCoord>,
    h: int,
    next: TakCoord,
)
    requires
        bfs_inv(cells, size, player, start, end, v, q, h),
        h < q.len(),
        road_at(cells, size, player, next),
        !seen(v, size, next),
        adjacent(q[h], next),
    ensures
        bfs_inv(
            cells,
            size,
            player,
            start,
            end,
            v.update(cell_index(next, size), Some(q[h])),
            q.push(next),
            h,
        ),
        count_unseen(v.update(cell_index(next, size), Some(q[h]))) + 1 == count_unseen(v),
{
    reveal(bfs_inv);
    let cur = q[h];
    let w = v.update(cell_index(next, size), Some(cur));
    let q2 = q.push(next);
    lemma_see(v, size, next, cur);
    lemma_count_unseen_set(v, cell_index(next, size), cur);
    assert forall|j: int| 0 <= j < q2.len() implies #[trigger] seen(w, size, q2[j]) by {
        if j < q.len() {
            assert(q2[j] == q[j]);
            assert(seen(v, size, q[j]));
        }
    }
    assert forall|j: int| 0 <= j < q2.len() implies road_at(cells, size, player, #[trigger] q2[j]) by {
        if j < q.len() {
            assert(q2[j] == q[j]);
        }
    }
    assert forall|c: TakCoord| #[trigger] seen(w, size, c) implies q2.contains(c) by {
        if c == next {
            assert(q2[q.len() as int] == c);
        } else {
            assert(seen(v, size, c));
            assert(q.contains(c));
            let j = choose|j: int| 0 <= j < q.len() && q[j] == c;
            assert(q2[j] == c);
        }
    }
    assert forall|j: int| 0 < j < q2.len() implies exists|k: int|
        0 <= k < j && #[trigger] q2[k] == pred(w, size, #[trigger] q2[j]) && adjacent(q2[k], q2[j]) by {
        if j == q.len() {
            assert(q2[h] == cur);
            assert(pred(w, size, next) == cur);
        } else {
            assert(q2[j] == q[j]);
            assert(seen(v, size, q[j]));
            assert(q[j] != next);
            let k = choose|k: int| 0 <= k < j && #[trigger] q[k] == pred(v, size, #[trigger] q[j]) && adjacent(q[k], q[j]);
            assert(q2[k] == q[k]);
        }
    }
    assert forall|j: int| 0 <= j < h implies #[trigger] q2[j] != end by {
        assert(q2[j] == q[j]);
    }
    assert forall|j: int, b: TakCoord|
        #![trigger q2[j], road_at(cells, size, player, b)]
        0 <= j < h && road_at(cells, size, player, b) && adjacent(q2[j], b) implies seen(w, size, b) by {
        assert(q2[j] == q[j]);
        assert(seen(v, size, b));
    }
    assert(w.len() == size * size);
    assert(0 <= h <= q2.len());
    assert(q2[0] == start);
}

/// Taking the next position off the queue, when it is not `end` and its road
/// neighbours have all been reached, keeps the search invariant.
proof fn lemma_bfs_advance(
    cells: Seq<Option<StackView>>,
    size: int,
    player: TakPlayer,
    start: TakCoord,
    end: TakCoord,
    v: Seq<Option<TakCoord>>,
    q: Seq<TakCoord>,
    h: int,
)
    requires
        bfs_inv(cells, size, player, start, end, v, q, h),
        h < q.len(),
        q[h] != end,
        forall|b: TakCoord| road_at(cells, size, player, b) && adjacent(q[h], b) ==> #[trigger] seen(v, size, b),
    ensures
        bfs_inv(cells, size, player, start, end, v, q, h + 1),
{
    reveal(bfs_inv);
    assert forall|j: int| 0 <= j < h + 1 implies #[trigger] q[j] != end by {}
    assert forall|j: int, b: TakCoord|
        #![trigger q[j], road_at(cells, size, player, b)]
        0 <= j < h + 1 && road_at(cells, size, player, b) && adjacent(q[j], b) implies seen(v, size, b) by {
        if j == h {
            assert(seen(v, size, b));
        }
    }
}

/// What the search invariant gives about the position at `j` in the queue.
proof fn lemma_bfs_at(
    cells: Seq<Option<StackView>>,
    size: int,
    player: TakPlayer,
    start: TakCoord,
    end: TakCoord,
    v: Seq<Option<TakCoord>>,
    q: Seq<TakCoord>,
    h: int,
    j: int,
)
    requires
        bfs_inv(cells, size, player, start, end, v, q, h),
        0 <= j < q.len(),
    ensures
        seen(v, size, q[j]),
        road_at(cells, size, player, q[j]),
        v.len() == size * size,
        h <= q.len(),
        q[0] == start,
        j > 0 ==> exists|k: int| 0 <= k < j && #[trigger] q[k] == pred(v, size, q[j]) && adjacent(q[k], q[j]),
{
    reveal(bfs_inv);
}

/// When the queue runs out, `end` is not reached by a road from `start`.
proof fn lemma_bfs_exhausted(
    cells: Seq<Option<StackView>>,
    size: int,
    player: TakPlayer,
    start: TakCoord,
    end: TakCoord,
    v: Seq<Option<TakCoord>>,
    q: Seq<TakCoord>,
    h: int,
)
    requires
        bfs_inv(cells, size, player, start, end, v, q, h),
        h == q.len(),
    ensures
        !road_reach(cells, size, player, start, end),
{
    reveal(bfs_inv);
    let m = Seq::new(v.len(), |k: int| v[k] is Some);
    assert forall|a: TakCoord, b: TakCoord|
        #![trigger marked(m, size, a), road_at(cells, size, player, b)]
        marked(m, size, a) && road_at(cells, size, player, a) && road_at(cells, size, player, b)
            && adjacent(a, b) implies marked(m, size, b) by {
        assert(seen(v, size, a));
        assert(q.contains(a));
        let j = choose|j: int| 0 <= j < q.len() && q[j] == a;
        assert(seen(v, size, b));
    }
    if road_reach(cells, size, player, start, end) {
        assert(seen(v, size, q[0]));
        assert(marked(m, size, start));
        lemma_closed_reach(cells, size, player, m, start, end);
        assert(seen(v, size, end));
        let j = choose|j: int| 0 <= j < q.len() && q[j] == end;
        assert(q[j] != end);
    }
}

/// The search invariant holds once `start` is queued.
proof fn lemma_bfs_start(
    cells: Seq<Option<StackView>>,
    size: int,
    player: TakPlayer,
    start: TakCoord,
    end: TakCoord,
    v0: Seq<Option<TakCoord>>,
)
    requires
        v0.len() == size * size,
        forall|k: int| 0 <= k < v0.len() ==> #[trigger] v0[k] is None,
        road_at(cells, size, player, start),
    ensures
        bfs_inv(
            cells,
            size,
            player,
            start,
            end,
            v0.update(cell_index(start, size), Some(start)),
            seq![start],
            0,
        ),
{
    reveal(bfs_inv);
    let w = v0.update(cell_index(start, size), Some(start));
    lemma_see(v0, size, start, start);
    assert forall|c: TakCoord| #[trigger] seen(w, size, c) implies seq![start].contains(c) by {
        if c != start {
            lemma_index_bounds_pub(c, size);
        }
        assert(seq![start][0] == start);
    }
}


/// Whether a road of at most `n` steps leads from `start` to `b`.
pub open spec fn within(
    cells: Seq<Option<StackView>>,
    size: int,
    player: TakPlayer,
    start: TakCoord,
    b: TakCoord,
    n: int,
) -> bool {
    exists|p: Seq<TakCoord>|
        #[trigger] is_road_path(cells, size, player, p) && p[0] == start && p[p.len() - 1] == b && p.len() <= n + 1
}

/// The place of `b` in the queue.
pub open spec fn place_in(q: Seq<TakCoord>, b: TakCoord) -> int {
    choose|j: int| 0 <= j < q.len() && q[j] == b
}

/// The layers of the breadth-first search, with `d[j]` the number of steps
/// by which the position at `j` was reached: no position is queued twice;
/// the steps start at 0 and never decrease along the queue, none more than
/// one past those of the next position to take; each position is one step
/// past its predecessor; and every position a road of at most as many steps
/// as the next position's reaches was reached in at most that many steps.
#[verifier::opaque]
pub open spec fn layers(
    cells: Seq<Option<StackView>>,
    size: int,
    player: TakPlayer,
    start: TakCoord,
    v: Seq<Option<TakCoord>>,
    q: Seq<TakCoord>,
    d: Seq<int>,
    h: int,
) -> bool {
    &&& d.len() == q.len()
    &&& d[0] == 0
    &&& forall|i: int, j: int| #![trigger d[i], d[j]] 0 <= i <= j < q.len() ==> d[i] <= d[j]
    &&& forall|j: int| 0 <= j < q.len() && h < q.len() ==> #[trigger] d[j] <= d[h] + 1
    &&& forall|i: int, j: int| #![trigger q[i], q[j]] 0 <= i < j < q.len() ==> q[i] != q[j]
    &&& forall|j: int| 0 < j < q.len() ==> #[trigger] step_from_pred(v, size, q, d, j)
    &&& h < q.len() ==> forall|b: TakCoord, n: int|
        #[trigger] within(cells, size, player, start, b, n) && n <= d[h] ==> seen(v, size, b) && d[place_in(q, b)]
            <= n
}

/// The predecessor of the position at `j` sits earlier in the queue, one
/// step fewer from the start.
pub open spec fn step_from_pred(v: Seq<Option<TakCoord>>, size: int, q: Seq<TakCoord>, d: Seq<int>, j: int) -> bool {
    exists|k: int| 0 <= k < j && #[trigger] q[k] == pred(v, size, q[j]) && d[j] == d[k] + 1
}

/// In a queue with no repeats, the place of the position at `j` is `j`.
proof fn lemma_place_unique(q: Seq<TakCoord>, j: int)
    requires
        0 <= j < q.len(),
        forall|a: int, b: int| #![trigger q[a], q[b]] 0 <= a < b < q.len() ==> q[a] != q[b],
    ensures
        place_in(q, q[j]) == j,
{
    let k = place_in(q, q[j]);
    assert(q[k] == q[j]);
    if k < j {
        assert(q[k] != q[j]);
    } else if j < k {
        assert(q[j] != q[k]);
    }
}

/// The layers hold once `start` is queued.
proof fn lemma_layers_start(
    cells: Seq<Option<StackView>>,
    size: int,
    player: TakPlayer,
    start: TakCoord,
    end: TakCoord,
    v0: Seq<Option<TakCoord>>,
)
    requires
        bfs_inv(cells, size, player, start, end, v0.update(cell_index(start, size), Some(start)), seq![start], 0),
    ensures
        layers(cells, size, player, start, v0.update(cell_index(start, size), Some(start)), seq![start], seq![0int], 0),
{
    reveal(layers);
    let w = v0.update(cell_index(start, size), Some(start));
    let q = seq![start];
    let d = seq![0int];
    lemma_bfs_at(cells, size, player, start, end, w, q, 0, 0);
    assert forall|b: TakCoord, n: int|
        #[trigger] within(cells, size, player, start, b, n) && n <= d[0] implies seen(w, size, b) && d[place_in(q, b)] <= n by {
        let p = choose|p: Seq<TakCoord>|
            #[trigger] is_road_path(cells, size, player, p) && p[0] == start && p[p.len() - 1] == b && p.len() <= n + 1;
        assert(b == start);
        lemma_place_unique(q, 0);
    }
}

/// Queuing a new position one step past the position at `h` keeps the
/// layers.
proof fn lemma_layers_add(
    cells: Seq<Option<StackView>>,
    size: int,
    player: TakPlayer,
    start: TakCoord,
    end: TakCoord,
    v: Seq<Option<TakCoord>>,
    q: Seq<TakCoord>,
    d: Seq<int>,
    h: int,
    next: TakCoord,
)
    requires
        bfs_inv(cells, size, player, start, end, v, q, h),
        layers(cells, size, player, start, v, q, d, h),
        h < q.len(),
        on_board(next, size),
        !seen(v, size, next),
    ensures
        layers(
            cells,
            size,
            player,
            start,
            v.update(cell_index(next, size), Some(q[h])),
            q.push(next),
            d.push(d[h] + 1),
            h,
        ),
{
    reveal(layers);
    reveal(bfs_inv);
    let w = v.update(cell_index(next, size), Some(q[h]));
    let q2 = q.push(next);
    let d2 = d.push(d[h] + 1);
    lemma_see(v, size, next, q[h]);
    assert forall|i: int, j: int| #![trigger d2[i], d2[j]] 0 <= i <= j < q2.len() implies d2[i] <= d2[j] by {
        if j == q.len() {
            if i < q.len() {
                assert(d2[i] == d[i]);
            }
        } else {
            assert(d2[i] == d[i] && d2[j] == d[j]);
        }
    }
    assert forall|j: int| 0 <= j < q2.len() && h < q2.len() implies #[trigger] d2[j] <= d2[h] + 1 by {
        if j < q.len() {
            assert(d2[j] == d[j]);
        }
    }
    assert forall|i: int, j: int| #![trigger q2[i], q2[j]] 0 <= i < j < q2.len() implies q2[i] != q2[j] by {
        if j == q.len() {
            assert(q2[i] == q[i]);
            assert(seen(v, size, q[i]));
        } else {
            assert(q2[i] == q[i] && q2[j] == q[j]);
        }
    }
    assert forall|j: int| 0 < j < q2.len() implies #[trigger] step_from_pred(w, size, q2, d2, j) by {
        if j == q.len() {
            assert(q2[h] == q[h]);
            assert(d2[h] == d[h]);
            assert(q2[j] == next);
            assert(pred(w, size, next) == q[h]);
            assert(d2[j] == d[h] + 1);
            assert(q2[h] == pred(w, size, q2[j]) && d2[j] == d2[h] + 1);
        } else {
            assert(q2[j] == q[j]);
            assert(seen(v, size, q[j]));
            assert(q[j] != next);
            assert(pred(w, size, q[j]) == pred(v, size, q[j]));
            assert(step_from_pred(v, size, q, d, j));
            let k = choose|k: int| 0 <= k < j && #[trigger] q[k] == pred(v, size, q[j]) && d[j] == d[k] + 1;
            assert(q2[k] == q[k] && d2[k] == d[k] && d2[j] == d[j]);
            assert(0 <= k < j && q2[k] == pred(w, size, q2[j]) && d2[j] == d2[k] + 1);
        }
    }
    assert forall|b: TakCoord, n: int|
        #[trigger] within(cells, size, player, start, b, n) && n <= d2[h] implies seen(w, size, b) && d2[place_in(q2, b)] <= n by {
        assert(d2[h] == d[h]);
        assert(seen(v, size, b) && d[place_in(q, b)] <= n);
        assert(q.contains(b));
        let j = place_in(q, b);
        assert(q[j] == b);
        assert(q2[j] == b);
        lemma_place_unique(q2, j);
        assert(d2[j] == d[j]);
    }
}

/// Offering a position to the search, whether it is queued or not, keeps the
/// layers; the steps of a queued position are one more than those of the
/// position at `h`.
proof fn lemma_layers_offer(
    cells: Seq<Option<StackView>>,
    size: int,
    player: TakPlayer,
    start: TakCoord,
    end: TakCoord,
    v: Seq<Option<TakCoord>>,
    q: Seq<TakCoord>,
    d: Seq<int>,
    h: int,
    next: TakCoord,
    v2: Seq<Option<TakCoord>>,
    q2: Seq<TakCoord>,
) -> (d2: Seq<int>)
    requires
        bfs_inv(cells, size, player, start, end, v, q, h),
        layers(cells, size, player, start, v, q, d, h),
        h < q.len(),
        (v2 == v && q2 == q) || (on_board(next, size) && !seen(v, size, next) && q2 == q.push(next) && v2 == v.update(
            cell_index(next, size),
            Some(q[h]),
        )),
    ensures
        layers(cells, size, player, start, v2, q2, d2, h),
        d2.len() == q2.len(),
        d2[h] == d[h],
{
    reveal(layers);
    reveal(bfs_inv);
    if v2 == v && q2 == q {
        d
    } else {
        lemma_layers_add(cells, size, player, start, end, v, q, d, h, next);
        d.push(d[h] + 1)
    }
}

/// Taking the next position off the queue once its road neighbours are
/// reached keeps the layers.
proof fn lemma_layers_advance(
    cells: Seq<Option<StackView>>,
    size: int,
    player: TakPlayer,
    start: TakCoord,
    end: TakCoord,
    v: Seq<Option<TakCoord>>,
    q: Seq<TakCoord>,
    d: Seq<int>,
    h: int,
)
    requires
        bfs_inv(cells, size, player, start, end, v, q, h + 1),
        layers(cells, size, player, start, v, q, d, h),
        0 <= h < q.len(),
    ensures
        layers(cells, size, player, start, v, q, d, h + 1),
{
    reveal(layers);
    reveal(bfs_inv);
    if h + 1 < q.len() {
        assert(d[0] <= d[h]);
        assert(d[h] <= d[h + 1]);
        assert(d[h + 1] <= d[h] + 1);
        assert forall|b: TakCoord, n: int|
            #[trigger] within(cells, size, player, start, b, n) && n <= d[h + 1] implies seen(v, size, b) && d[place_in(q, b)]
                <= n by {
            if n > d[h] {
                let p = choose|p: Seq<TakCoord>|
                    #[trigger] is_road_path(cells, size, player, p) && p[0] == start && p[p.len() - 1] == b && p.len()
                        <= n + 1;
                if p.len() <= n {
                    assert(within(cells, size, player, start, b, n - 1));
                    assert(seen(v, size, b) && d[place_in(q, b)] <= n - 1);
                } else {
                    let m = p.len() - 1;
                    let pa = p.take(m);
                    let a = p[m - 1];
                    assert(m >= 1) by {
                        if m == 0 {
                            assert(d[0] <= d[h]);
                        }
                    }
                    assert(is_road_path(cells, size, player, pa)) by {
                        assert forall|i: int| 0 <= i < pa.len() implies road_at(cells, size, player, #[trigger] pa[i]) by {
                            assert(pa[i] == p[i]);
                        }
                        assert forall|i: int| 0 <= i < pa.len() - 1 implies adjacent(#[trigger] pa[i], pa[i + 1]) by {
                            assert(pa[i] == p[i] && pa[i + 1] == p[i + 1]);
                        }
                    }
                    assert(pa[0] == start && pa[pa.len() - 1] == a);
                    assert(within(cells, size, player, start, a, n - 1));
                    assert(seen(v, size, a) && d[place_in(q, a)] <= n - 1);
                    assert(q.contains(a));
                    let ia = place_in(q, a);
                    assert(q[ia] == a);
                    if ia > h {
                        assert(d[h + 1] <= d[ia]);
                    }
                    assert(ia < h + 1);
                    assert(road_at(cells, size, player, p[m]));
                    assert(adjacent(p[m - 1], p[m]));
                    assert(seen(v, size, b));
                    assert(q.contains(b));
                    let ib = place_in(q, b);
                    assert(q[ib] == b);
                    assert(d[ib] <= d[h] + 1);
                }
            }
        }
    }
}

/// When the next position to take is `end`, no road from `start` to `end`
/// is shorter than the steps by which `end` was reached.
proof fn lemma_layers_min(
    cells: Seq<Option<StackView>>,
    size: int,
    player: TakPlayer,
    start: TakCoord,
    end: TakCoord,
    v: Seq<Option<TakCoord>>,
    q: Seq<TakCoord>,
    d: Seq<int>,
    h: int,
    p: Seq<TakCoord>,
)
    requires
        bfs_inv(cells, size, player, start, end, v, q, h),
        layers(cells, size, player, start, v, q, d, h),
        h < q.len(),
        q[h] == end,
        is_road_path(cells, size, player, p),
        p[0] == start,
        p[p.len() - 1] == end,
    ensures
        p.len() >= d[h] + 1,
{
    reveal(layers);
    reveal(bfs_inv);
    if p.len() < d[h] + 1 {
        let n = p.len() - 1;
        assert(within(cells, size, player, start, end, n));
        assert(seen(v, size, end) && d[place_in(q, end)] <= n);
        assert(q.contains(end));
        let ie = place_in(q, end);
        assert(q[ie] == end);
        if ie >= h {
            assert(d[h] <= d[ie]);
        }
        assert(q[ie] != end);
    }
}

/// What the layers give about a predecessor: the predecessor of the position
/// at `j > 0` sits at a place one step fewer, and the position at 0 is the
/// only one reached in no step.
proof fn lemma_layers_pred(
    cells: Seq<Option<StackView>>,
    size: int,
    player: TakPlayer,
    start: TakCoord,
    v: Seq<Option<TakCoord>>,
    q: Seq<TakCoord>,
    d: Seq<int>,
    h: int,
    j: int,
    k: int,
)
    requires
        layers(cells, size, player, start, v, q, d, h),
        0 < j < q.len(),
        0 <= k < j,
        q[k] == pred(v, size, q[j]),
    ensures
        d[j] == d[k] + 1,
        d[k] >= 0,
        k == 0 <==> d[k] == 0,
        q[k] == q[0] ==> k == 0,
{
    reveal(layers);
    if k > 0 {
        assert(q[0] != q[k]);
    }
    assert(step_from_pred(v, size, q, d, j));
    let k2 = choose|k2: int| 0 <= k2 < j && #[trigger] q[k2] == pred(v, size, q[j]) && d[j] == d[k2] + 1;
    if k2 != k {
        if k2 < k {
            assert(q[k2] != q[k]);
        } else {
            assert(q[k] != q[k2]);
        }
    }
    assert(d[0] <= d[k]);
    if k > 0 {
        assert(step_from_pred(v, size, q, d, k));
        let k3 = choose|k3: int| 0 <= k3 < k && #[trigger] q[k3] == pred(v, size, q[k]) && d[k] == d[k3] + 1;
        assert(d[0] <= d[k3]);
    }
}

/// The owner of the stack at `start` when it is a flat or capstone stack.
pub open spec fn road_owner(cells: Seq<Option<StackView>>, size: int, start: TakCoord) -> Option<TakPlayer> {
    if on_board(start, size) && cell_index(start, size) < cells.len() {
        match cells[cell_index(start, size)] {
            Some(s) => if s.0 != TakPieceVariant::Wall && s.1.len() > 0 {
                Some(top_player(s))
            } else {
                None
            },
            None => None,
        }
    } else {
        None
    }
}

/// A road read backwards is a road.
proof fn lemma_path_reverse(cells: Seq<Option<StackView>>, size: int, player: TakPlayer, p: Seq<TakCoord>)
    requires
        is_road_path(cells, size, player, p),
    ensures
        is_road_path(cells, size, player, p.reverse()),
{
    let q = p.reverse();
    assert forall|i: int| 0 <= i < q.len() implies road_at(cells, size, player, #[trigger] q[i]) by {
        assert(q[i] == p[p.len() - 1 - i]);
    }
    assert forall|i: int| 0 <= i < q.len() - 1 implies adjacent(#[trigger] q[i], q[i + 1]) by {
        assert(q[i] == p[p.len() - 1 - i]);
        assert(q[i + 1] == p[p.len() - 2 - i]);
        assert(adjacent(p[p.len() - 2 - i], p[p.len() - 2 - i + 1]));
    }
}

/// The elements of `v` in reverse order.
fn reversed(v: &Vec<TakCoord>) -> (r: Vec<TakCoord>)
    ensures
        r@ == v@.reverse(),
{
    let mut r: Vec<TakCoord> = Vec::new();
    let n = v.len();
    for i in 0..n
        invariant
            n == v@.len(),
            r@.len() == i,
            forall|j: int| 0 <= j < i ==> #[trigger] r@[j] == v@[n - 1 - j],
    {
        r.push(v[n - 1 - i]);
    }
    assert(r@ =~= v@.reverse());
    r
}

impl TakBoard {
    /// Queues `next` with the position at `h` as its predecessor when it is an
    /// unreached road stack of `player`.
    fn offer(
        &self,
        visited: &mut Vec<Option<TakCoord>>,
        queue: &mut Vec<TakCoord>,
        h: usize,
        next: TakCoord,
        player: TakPlayer,
        start: TakCoord,
        end: TakCoord,
    )
        requires
            self.wf(),
            bfs_inv(self.cells(), self.size as int, player, start, end, old(visited)@, old(queue)@, h as int),
            h < old(queue)@.len(),
            adjacent(old(queue)@[h as int], next),
        ensures
            bfs_inv(self.cells(), self.size as int, player, start, end, final(visited)@, final(queue)@, h as int),
            final(queue)@.len() >= old(queue)@.len(),
            final(queue)@[h as int] == old(queue)@[h as int],
            forall|c: TakCoord| #[trigger] seen(old(visited)@, self.size as int, c) ==> seen(final(visited)@, self.size as int, c),
            road_at(self.cells(), self.size as int, player, next) ==> seen(final(visited)@, self.size as int, next),
            5 * count_unseen(final(visited)@) + final(queue)@.len() <= 5 * count_unseen(old(visited)@) + old(queue)@.len(),
            (final(visited)@ == old(visited)@ && final(queue)@ == old(queue)@) || (on_board(next, self.size as int)
                && !seen(old(visited)@, self.size as int, next) && final(queue)@ == old(queue)@.push(next)
                && final(visited)@ == old(visited)@.update(cell_index(next, self.size as int), Some(old(queue)@[h as int]))),
    {
        let ghost cells = self.cells();
        let ghost sz = self.size as int;
        proof {
            lemma_bfs_at(cells, sz, player, start, end, visited@, queue@, h as int, h as int);
        }
        if !is_road_stack(self, next, player) {
            return;
        }
        proof {
            lemma_index_bounds_pub(next, sz);
        }
        let _len = self.board.len();
        let k = next.index_in(self.size);
        if visited[k].is_some() {
            return;
        }
        let parent = queue[h];
        proof {
            lemma_bfs_add(cells, sz, player, start, end, visited@, queue@, h as int, next);
            lemma_see(visited@, sz, next, parent);
        }
        queue.push(next);
        visited.set(k, Some(parent));
    }

    /// Follows the recorded predecessors back from `end`, which sits at `h` in
    /// the queue, to `start`, and returns the road from `start` to `end`.
    fn trace_path(
        &self,
        visited: &Vec<Option<TakCoord>>,
        queue: &Vec<TakCoord>,
        h: usize,
        start: TakCoord,
        end: TakCoord,
        player: TakPlayer,
        Ghost(d): Ghost<Seq<int>>,
    ) -> (r: Vec<TakCoord>)
        requires
            self.wf(),
            bfs_inv(self.cells(), self.size as int, player, start, end, visited@, queue@, h as int),
            layers(self.cells(), self.size as int, player, start, visited@, queue@, d, h as int),
            h < queue@.len(),
            queue@[h as int] == end,
            start != end,
        ensures
            is_road_path(self.cells(), self.size as int, player, r@),
            r@[0] == start,
            r@[r@.len() - 1] == end,
            r@.len() == d[h as int] + 1,
    {
        let ghost cells = self.cells();
        let ghost sz = self.size as int;
        let mut path: Vec<TakCoord> = Vec::new();
        let mut current = end;
        let ghost mut j: int = h as int;
        proof {
            lemma_bfs_at(cells, sz, player, start, end, visited@, queue@, h as int, j);
        }
        loop
            invariant_except_break
                path@.len() + d[j] == d[h as int],
            invariant
                self.wf(),
                cells == self.cells(),
                sz == self.size,
                bfs_inv(cells, sz, player, start, end, visited@, queue@, h as int),
                layers(cells, sz, player, start, visited@, queue@, d, h as int),
                h < queue@.len(),
                0 <= j < queue@.len(),
                queue@[j] == current,
                current != start,
                seen(visited@, sz, current),
                road_at(cells, sz, player, current),
                path@.len() > 0 ==> path@[0] == end,
                path@.len() == 0 ==> current == end,
                forall|i: int| 0 <= i < path@.len() ==> road_at(cells, sz, player, #[trigger] path@[i]),
                forall|i: int| 0 <= i < path@.len() - 1 ==> adjacent(#[trigger] path@[i], path@[i + 1]),
                path@.len() > 0 ==> adjacent(path@[path@.len() - 1], current),
            ensures
                is_road_path(cells, sz, player, path@),
                path@[0] == end,
                path@[path@.len() - 1] == start,
                path@.len() == d[h as int] + 1,
            decreases j,
        {
            proof {
                lemma_bfs_at(cells, sz, player, start, end, visited@, queue@, h as int, j);
                lemma_index_bounds_pub(current, sz);
            }
            let prev = *current.get(visited.as_slice(), self.size);
            let prev = prev.unwrap();
            let ghost k = choose|k: int|
                0 <= k < j && #[trigger] queue@[k] == pred(visited@, sz, queue@[j]) && adjacent(queue@[k], queue@[j]);
            proof {
                assert(j != 0);
                assert(prev == pred(visited@, sz, current));
                lemma_bfs_at(cells, sz, player, start, end, visited@, queue@, h as int, k);
                lemma_bfs_at(cells, sz, player, start, end, visited@, queue@, h as int, 0);
                lemma_layers_pred(cells, sz, player, start, visited@, queue@, d, h as int, j, k);
            }
            let ghost before = path@;
            path.push(current);
            proof {
                assert(path@[path@.len() - 1] == current);
                assert forall|i: int| 0 <= i < path@.len() implies road_at(cells, sz, player, #[trigger] path@[i]) by {
                    if i < before.len() {
                        assert(path@[i] == before[i]);
                    }
                }
                assert forall|i: int| 0 <= i < path@.len() - 1 implies adjacent(#[trigger] path@[i], path@[i + 1]) by {
                    assert(path@[i] == before[i]);
                    if i < before.len() - 1 {
                        assert(path@[i + 1] == before[i + 1]);
                    }
                }
                if before.len() > 0 {
                    assert(path@[0] == before[0]);
                }
            }
            if prev == start {
                let ghost before2 = path@;
                path.push(start);
                proof {
                    assert forall|i: int| 0 <= i < path@.len() implies road_at(cells, sz, player, #[trigger] path@[i]) by {
                        if i < before2.len() {
                            assert(path@[i] == before2[i]);
                        }
                    }
                    assert forall|i: int| 0 <= i < path@.len() - 1 implies adjacent(#[trigger] path@[i], path@[i + 1]) by {
                        assert(path@[i] == before2[i]);
                        if i < before2.len() - 1 {
                            assert(path@[i + 1] == before2[i + 1]);
                        }
                    }
                    assert(path@[0] == before2[0]);
                }
                break;
            }
            current = prev;
            proof {
                j = k;
            }
        }
        proof {
            lemma_path_reverse(cells, sz, player, path@);
        }
        reversed(&path)
    }
}

impl TakBoard {
    /// Finds a road from `start` to `end` through the stacks of the owner of
    /// the stack at `start`, by breadth-first search. `None` when `start`
    /// holds no flat or capstone stack or no such road leads to `end`.
    pub fn find_shortest_path(&self, start: TakCoord, end: TakCoord) -> (r: Option<Vec<TakCoord>>)
        requires
            self.wf(),
        ensures
            r is None <==> road_owner(self.cells(), self.size as int, start) is None || !road_reach(
                self.cells(),
                self.size as int,
                road_owner(self.cells(), self.size as int, start)->0,
                start,
                end,
            ),
            r matches Some(p) ==> is_road_path(
                self.cells(),
                self.size as int,
                road_owner(self.cells(), self.size as int, start)->0,
                p@,
            ) && p@[0] == start && p@[p@.len() - 1] == end,
            r matches Some(p) ==> forall|p2: Seq<TakCoord>|
                #[trigger] is_road_path(
                    self.cells(),
                    self.size as int,
                    road_owner(self.cells(), self.size as int, start)->0,
                    p2,
                ) && p2[0] == start && p2[p2.len() - 1] == end ==> p@.len() <= p2.len(),
    {
        let ghost cells = self.cells();
        let ghost sz = self.size as int;
        let size = self.size;
        let player = match self.try_get_stack(start) {
            Some(stack) => {
                proof {
                    assert(cells[cell_index(start, sz)] == Some(stack@));
                }
                if stack.variant == TakPieceVariant::Wall {
                    return None;
                }
                stack.player()
            },
            None => {
                return None;
            },
        };
        assert(road_owner(cells, sz, start) == Some(player));
        assert(road_at(cells, sz, player, start));
        if start == end {
            let mut p: Vec<TakCoord> = Vec::new();
            p.push(start);
            proof {
                lemma_reach_refl(cells, sz, player, start);
                assert(is_road_path(cells, sz, player, p@));
            }
            return Some(p);
        }
        let n = self.board.len();
        let mut visited: Vec<Option<TakCoord>> = Vec::new();
        for i in 0..n
            invariant
                visited@.len() == i,
                forall|j: int| 0 <= j < i ==> #[trigger] visited@[j] is None,
        {
            visited.push(None);
        }
        let ghost v0 = visited@;
        let mut queue: Vec<TakCoord> = Vec::new();
        queue.push(start);
        proof {
            lemma_index_bounds_pub(start, sz);
        }
        let si = start.index_in(size);
        visited.set(si, Some(start));
        proof {
            lemma_bfs_start(cells, sz, player, start, end, v0);
            assert(queue@ == seq![start]);
            lemma_layers_start(cells, sz, player, start, end, v0);
        }
        let ghost mut dist: Seq<int> = seq![0int];
        let mut head: usize = 0;
        while head < queue.len()
            invariant
                self.wf(),
                cells == self.cells(),
                sz == size,
                size == self.size,
                start != end,
                road_at(cells, sz, player, start),
                queue@.len() > 0,
                bfs_inv(cells, sz, player, start, end, visited@, queue@, head as int),
                layers(cells, sz, player, start, visited@, queue@, dist, head as int),
            decreases 5 * count_unseen(visited@) + queue@.len() - head,
        {
            let current = queue[head];
            proof {
                lemma_bfs_at(cells, sz, player, start, end, visited@, queue@, head as int, head as int);
            }
            if current == end {
                let path = self.trace_path(&visited, &queue, head, start, end, player, Ghost(dist));
                proof {
                    assert forall|p2: Seq<TakCoord>|
                        #[trigger] is_road_path(cells, sz, player, p2) && p2[0] == start && p2[p2.len() - 1] == end
                        implies path@.len() <= p2.len() by {
                        lemma_layers_min(cells, sz, player, start, end, visited@, queue@, dist, head as int, p2);
                    }
                }
                return Some(path);
            }
            let ghost v_before = visited@;
            let ghost q_before = queue@;
            let next = current.offset_dir(TakDir::Up);
            self.offer(&mut visited, &mut queue, head, next, player, start, end);
            proof {
                dist = lemma_layers_offer(cells, sz, player, start, end, v_before, q_before, dist, head as int, next, visited@, queue@);
            }
            let ghost v_before = visited@;
            let ghost q_before = queue@;
            let next = current.offset_dir(TakDir::Down);
            self.offer(&mut visited, &mut queue, head, next, player, start, end);
            proof {
                dist = lemma_layers_offer(cells, sz, player, start, end, v_before, q_before, dist, head as int, next, visited@, queue@);
            }
            let ghost v_before = visited@;
            let ghost q_before = queue@;
            let next = current.offset_dir(TakDir::Left);
            self.offer(&mut visited, &mut queue, head, next, player, start, end);
            proof {
                dist = lemma_layers_offer(cells, sz, player, start, end, v_before, q_before, dist, head as int, next, visited@, queue@);
            }
            let ghost v_before = visited@;
            let ghost q_before = queue@;
            let next = current.offset_dir(TakDir::Right);
            self.offer(&mut visited, &mut queue, head, next, player, start, end);
            proof {
                dist = lemma_layers_offer(cells, sz, player, start, end, v_before, q_before, dist, head as int, next, visited@, queue@);
            }
            proof {
                assert forall|b: TakCoord| road_at(cells, sz, player, b) && adjacent(current, b) implies #[trigger] seen(
                    visited@,
                    sz,
                    b,
                ) by {
                    lemma_adjacent_step(current, b);
                }
                lemma_bfs_advance(cells, sz, player, start, end, visited@, queue@, head as int);
                lemma_layers_advance(cells, sz, player, start, end, visited@, queue@, dist, head as int);
            }
            head = head + 1;
        }
        proof {
            lemma_bfs_at(cells, sz, player, start, end, visited@, queue@, head as int, 0);
            lemma_bfs_exhausted(cells, sz, player, start, end, visited@, queue@, head as int);
        }
        None
    }
}

} // verus!
