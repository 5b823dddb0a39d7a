//! The engine's road test: a depth-first search from one cell over the cells
//! that count towards a road of one player, stopping as soon as the cells
//! reached touch two opposite edges.
use vstd::prelude::*;
use vstd::set_lib::{lemma_int_range, lemma_len_subset, set_int_range};

use crate::takumi::{bit, lemma_bits, neighbor_cells, shape_ok, Board};

verus! {

/// Whether cell `c` counts towards a road of `player` (0 for White, 1 for
/// Black): an occupied cell that is no wall and whose top piece `player` owns.
pub open spec fn road_cell(b: Board, player: u64, c: int) -> bool {
    &&& 0 <= c < b.size * b.size
    &&& bit(b.occupied, c)
    &&& !bit(b.walls, c)
    &&& bit(b.owner, c) == (player != 0)
}

/// Whether cell `c` is beside cell `a` on a board `size` cells wide.
pub open spec fn beside(a: int, c: int, size: int) -> bool {
    ||| a % size > 0 && c == a - 1
    ||| a % size < size - 1 && c == a + 1
    ||| a / size > 0 && c == a - size
    ||| a / size < size - 1 && c == a + size
}

/// Whether `p` is a chain of road cells of `player`, each beside the next.
pub open spec fn is_chain(b: Board, player: u64, p: Seq<int>) -> bool {
    &&& p.len() > 0
    &&& forall|i: int| 0 <= i < p.len() ==> road_cell(b, player, #[trigger] p[i])
    &&& forall|i: int| 0 <= i < p.len() - 1 ==> beside(#[trigger] p[i], p[i + 1], b.size as int)
}

/// Whether a chain of road cells of `player` leads from `a` to `c`.
pub open spec fn chain_reach(b: Board, player: u64, a: int, c: int) -> bool {
    exists|p: Seq<int>| #[trigger] is_chain(b, player, p) && p[0] == a && p[p.len() - 1] == c
}

/// Whether `c1` and `c2` lie on opposite edges: `c1` in the first column and
/// `c2` in the last, or `c1` in the first row and `c2` in the last.
pub open spec fn spanning(c1: int, c2: int, size: int) -> bool {
    ||| c1 % size == 0 && c2 % size == size - 1
    ||| c1 / size == 0 && c2 / size == size - 1
}

/// Whether the road cells of `player` joined to `pos` touch two opposite
/// edges.
pub open spec fn road_from(b: Board, player: u64, pos: int) -> bool {
    exists|c1: int, c2: int|
        #![trigger chain_reach(b, player, pos, c1), chain_reach(b, player, pos, c2)]
        chain_reach(b, player, pos, c1) && chain_reach(b, player, pos, c2) && spanning(
            c1,
            c2,
            b.size as int,
        )
}

/// A road cell reaches itself.
pub proof fn lemma_chain_start(b: Board, player: u64, a: int)
    requires
        road_cell(b, player, a),
    ensures
        chain_reach(b, player, a, a),
{
    let p = seq![a];
    assert(is_chain(b, player, p));
}

/// A chain can be extended by a road cell beside its end.
pub proof fn lemma_chain_step(b: Board, player: u64, a: int, c: int, d: int)
    requires
        chain_reach(b, player, a, c),
        road_cell(b, player, d),
        beside(c, d, b.size as int),
    ensures
        chain_reach(b, player, a, d),
{
    let p = choose|p: Seq<int>| #[trigger] is_chain(b, player, p) && p[0] == a && p[p.len() - 1] == c;
    let q = p.push(d);
    assert forall|i: int| 0 <= i < q.len() - 1 implies beside(#[trigger] q[i], q[i + 1], b.size as int) by {
        if i < p.len() - 1 {
            assert(q[i] == p[i] && q[i + 1] == p[i + 1]);
        }
    }
    assert forall|i: int| 0 <= i < q.len() implies road_cell(b, player, #[trigger] q[i]) by {
        if i < p.len() {
            assert(q[i] == p[i]);
        }
    }
    assert(is_chain(b, player, q));
}

/// Whether a set of cells holds, with each of its cells, every road cell
/// beside it.
pub open spec fn closed_under(b: Board, player: u64, s: Set<int>) -> bool {
    forall|c: int, d: int|
        #![trigger s.contains(c), road_cell(b, player, d)]
        s.contains(c) && road_cell(b, player, d) && beside(c, d, b.size as int) ==> s.contains(d)
}

/// A closed set that holds `a` holds every cell `a` reaches.
pub proof fn lemma_closed_holds(b: Board, player: u64, s: Set<int>, a: int, c: int)
    requires
        closed_under(b, player, s),
        s.contains(a),
        chain_reach(b, player, a, c),
    ensures
        s.contains(c),
{
    let p = choose|p: Seq<int>| #[trigger] is_chain(b, player, p) && p[0] == a && p[p.len() - 1] == c;
    lemma_closed_chain(b, player, s, p, p.len() - 1);
}

proof fn lemma_closed_chain(b: Board, player: u64, s: Set<int>, p: Seq<int>, i: int)
    requires
        closed_under(b, player, s),
        is_chain(b, player, p),
        s.contains(p[0]),
        0 <= i < p.len(),
    ensures
        s.contains(p[i]),
    decreases i,
{
    if i > 0 {
        lemma_closed_chain(b, player, s, p, i - 1);
        assert(beside(p[i - 1], p[i - 1 + 1], b.size as int));
        assert(road_cell(b, player, p[i]));
    }
}

/// The neighbours of a cell lie on the board and beside it, and every cell
/// beside it is one of them.
proof fn lemma_neighbors(cur: int, size: int)
    requires
        3 <= size <= 8,
        0 <= cur < size * size,
    ensures
        forall|k: int|
            0 <= k < 4 ==> match #[trigger] neighbor_cells(cur, size)[k] {
                Some(d) => 0 <= d < size * size && beside(cur, d as int, size),
                None => true,
            },
        forall|d: int|
            beside(cur, d, size) ==> exists|k: int|
                0 <= k < 4 && #[trigger] neighbor_cells(cur, size)[k] == Some(d as usize),
        size * size <= 64,
{
    assert(size * size <= 64) by (nonlinear_arith)
        requires
            3 <= size <= 8,
    ;
    let x = cur % size;
    let y = cur / size;
    assert(cur == y * size + x && 0 <= x < size && 0 <= y < size) by (nonlinear_arith)
        requires
            3 <= size,
            0 <= cur < size * size,
            x == cur % size,
            y == cur / size,
    ;
    assert((y < size - 1 ==> cur + size < size * size) && (x < size - 1 ==> cur + 1 < size * size) && (y > 0
        ==> cur >= size)) by (nonlinear_arith)
        requires
            cur == y * size + x,
            0 <= x < size,
            0 <= y < size,
    ;
    let ns = neighbor_cells(cur, size);
    assert forall|d: int| beside(cur, d, size) implies exists|k: int|
        0 <= k < 4 && #[trigger] neighbor_cells(cur, size)[k] == Some(d as usize) by {
        if x > 0 && d == cur - 1 {
            assert(ns[0] == Some(d as usize));
        } else if x < size - 1 && d == cur + 1 {
            assert(ns[1] == Some(d as usize));
        } else if y > 0 && d == cur - size {
            assert(ns[2] == Some(d as usize));
        } else {
            assert(ns[3] == Some(d as usize));
        }
    }
}

/// The state of the search: the cells seen so far, with the marks in
/// `visited`; those done, whose edges are recorded in the flags; and those
/// waiting on the stack.
#[verifier::opaque]
pub open spec fn search_state(
    b: Board,
    player: u64,
    pos: int,
    visited: u64,
    st: Seq<usize>,
    top: int,
    seen: Set<int>,
    done: Set<int>,
    flags: (bool, bool, bool, bool),
) -> bool {
    let size = b.size as int;
    &&& 0 <= top <= 64
    &&& st.len() == 64
    &&& seen.finite()
    &&& done.subset_of(seen)
    &&& seen.subset_of(set_int_range(0, size * size))
    &&& seen.contains(pos)
    &&& top == seen.len() - done.len()
    &&& forall|c: int| 0 <= c < 64 ==> (bit(visited, c) <==> #[trigger] seen.contains(c))
    &&& forall|i: int|
        0 <= i < top ==> seen.contains(#[trigger] st[i] as int) && !done.contains(st[i] as int)
    &&& forall|i: int, j: int| 0 <= i < j < top ==> #[trigger] st[i] != #[trigger] st[j]
    &&& forall|c: int|
        #![trigger seen.contains(c)]
        seen.contains(c) && !done.contains(c) ==> exists|i: int| 0 <= i < top && #[trigger] st[i] == c
    &&& forall|c: int|
        #![trigger seen.contains(c)]
        seen.contains(c) ==> road_cell(b, player, c) && chain_reach(b, player, pos, c)
    &&& flags.0 <==> exists|c: int| #[trigger] done.contains(c) && c % size == 0
    &&& flags.1 <==> exists|c: int| #[trigger] done.contains(c) && c % size == size - 1
    &&& flags.2 <==> exists|c: int| #[trigger] done.contains(c) && c / size == 0
    &&& flags.3 <==> exists|c: int| #[trigger] done.contains(c) && c / size == size - 1
}

/// Every cell done but `cur` has its road neighbours seen.
pub open spec fn done_closed(b: Board, player: u64, seen: Set<int>, done: Set<int>, cur: int) -> bool {
    forall|c: int, d: int|
        #![trigger done.contains(c), road_cell(b, player, d)]
        done.contains(c) && c != cur && road_cell(b, player, d) && beside(c, d, b.size as int)
            ==> seen.contains(d)
}

/// The edge flags once cell `cur` is done.
pub open spec fn edge_flags(flags: (bool, bool, bool, bool), cur: int, size: int) -> (bool, bool, bool, bool) {
    let x = cur % size;
    let y = cur / size;
    (
        flags.0 || x == 0,
        flags.1 || (x != 0 && x == size - 1),
        flags.2 || y == 0,
        flags.3 || (y != 0 && y == size - 1),
    )
}

proof fn lemma_search_start(b: Board, player: u64, pos: int, visited: u64, st: Seq<usize>)
    requires
        shape_ok(b),
        road_cell(b, player, pos),
        st.len() == 64,
        st[0] == pos,
        forall|c: int| 0 <= c < 64 ==> (bit(visited, c) <==> c == pos),
    ensures
        search_state(b, player, pos, visited, st, 1, set![pos], Set::empty(), (false, false, false, false)),
{
    reveal(search_state);
    lemma_chain_start(b, player, pos);
    let seen = set![pos];
    assert(seen.len() == 1);
    assert forall|c: int|
        #![trigger seen.contains(c)]
        seen.contains(c) && !Set::<int>::empty().contains(c) implies exists|i: int|
            0 <= i < 1 && #[trigger] st[i] == c by {
        assert(st[0] == c);
    }
}

/// Taking the top cell off the stack marks it done.
proof fn lemma_search_pop(
    b: Board,
    player: u64,
    pos: int,
    visited: u64,
    st: Seq<usize>,
    top: int,
    seen: Set<int>,
    done: Set<int>,
    flags: (bool, bool, bool, bool),
)
    requires
        shape_ok(b),
        search_state(b, player, pos, visited, st, top, seen, done, flags),
        done_closed(b, player, seen, done, -1),
        top > 0,
    ensures
        0 <= st[top - 1] < b.size * b.size,
        seen.contains(st[top - 1] as int),
        !done.contains(st[top - 1] as int),
        search_state(
            b,
            player,
            pos,
            visited,
            st,
            top - 1,
            seen,
            done.insert(st[top - 1] as int),
            edge_flags(flags, st[top - 1] as int, b.size as int),
        ),
        done_closed(b, player, seen, done.insert(st[top - 1] as int), st[top - 1] as int),
{
    reveal(search_state);
    let size = b.size as int;
    let cur = st[top - 1] as int;
    let done2 = done.insert(cur);
    let f2 = edge_flags(flags, cur, size);
    assert(seen.subset_of(set_int_range(0, size * size)));
    assert(seen.contains(cur));
    assert(done2.len() == done.len() + 1);
    assert forall|c: int|
        #![trigger seen.contains(c)]
        seen.contains(c) && !done2.contains(c) implies exists|i: int|
            0 <= i < top - 1 && #[trigger] st[i] == c by {
        let i = choose|i: int| 0 <= i < top && #[trigger] st[i] == c;
        assert(i != top - 1);
    }
    assert forall|i: int| 0 <= i < top - 1 implies seen.contains(#[trigger] st[i] as int) && !done2.contains(
        st[i] as int,
    ) by {
        assert(st[i] != st[top - 1]);
    }
    assert(done2.contains(cur));
    assert(f2.0 <==> exists|c: int| #[trigger] done2.contains(c) && c % size == 0) by {
        if f2.0 && cur % size != 0 {
            let w = choose|w: int| #[trigger] done.contains(w) && w % size == 0;
            assert(done2.contains(w));
        }
        if exists|c: int| #[trigger] done2.contains(c) && c % size == 0 {
            let w = choose|w: int| #[trigger] done2.contains(w) && w % size == 0;
            if w != cur {
                assert(done.contains(w));
            }
        }
    }
    assert(f2.1 <==> exists|c: int| #[trigger] done2.contains(c) && c % size == size - 1) by {
        if f2.1 && !(cur % size != 0 && cur % size == size - 1) {
            let w = choose|w: int| #[trigger] done.contains(w) && w % size == size - 1;
            assert(done2.contains(w));
        }
        if exists|c: int| #[trigger] done2.contains(c) && c % size == size - 1 {
            let w = choose|w: int| #[trigger] done2.contains(w) && w % size == size - 1;
            if w != cur {
                assert(done.contains(w));
            }
        }
    }
    assert(f2.2 <==> exists|c: int| #[trigger] done2.contains(c) && c / size == 0) by {
        if f2.2 && cur / size != 0 {
            let w = choose|w: int| #[trigger] done.contains(w) && w / size == 0;
            assert(done2.contains(w));
        }
        if exists|c: int| #[trigger] done2.contains(c) && c / size == 0 {
            let w = choose|w: int| #[trigger] done2.contains(w) && w / size == 0;
            if w != cur {
                assert(done.contains(w));
            }
        }
    }
    assert(f2.3 <==> exists|c: int| #[trigger] done2.contains(c) && c / size == size - 1) by {
        if f2.3 && !(cur / size != 0 && cur / size == size - 1) {
            let w = choose|w: int| #[trigger] done.contains(w) && w / size == size - 1;
            assert(done2.contains(w));
        }
        if exists|c: int| #[trigger] done2.contains(c) && c / size == size - 1 {
            let w = choose|w: int| #[trigger] done2.contains(w) && w / size == size - 1;
            if w != cur {
                assert(done.contains(w));
            }
        }
    }
    assert(done_closed(b, player, seen, done2, cur)) by {
        assert forall|c: int, d: int|
            #![trigger done2.contains(c), road_cell(b, player, d)]
            done2.contains(c) && c != cur && road_cell(b, player, d) && beside(c, d, b.size as int)
                implies seen.contains(d) by {
            assert(done.contains(c));
        }
    }
}

/// Seeing a new road cell beside one seen pushes it on the stack.
proof fn lemma_search_push(
    b: Board,
    player: u64,
    pos: int,
    visited: u64,
    st: Seq<usize>,
    top: int,
    seen: Set<int>,
    done: Set<int>,
    flags: (bool, bool, bool, bool),
    cur: int,
    d: usize,
)
    requires
        shape_ok(b),
        search_state(b, player, pos, visited, st, top, seen, done, flags),
        done_closed(b, player, seen, done, cur),
        seen.contains(cur),
        road_cell(b, player, d as int),
        !bit(visited, d as int),
        beside(cur, d as int, b.size as int),
    ensures
        top < 64,
        search_state(
            b,
            player,
            pos,
            visited | (1u64 << (d as u64)),
            st.update(top, d),
            top + 1,
            seen.insert(d as int),
            done,
            flags,
        ),
        done_closed(b, player, seen.insert(d as int), done, cur),
{
    reveal(search_state);
    let size = b.size as int;
    let n = size * size;
    let seen2 = seen.insert(d as int);
    let st2 = st.update(top, d);
    let v2 = visited | (1u64 << (d as u64));
    assert(n <= 64) by (nonlinear_arith)
        requires
            3 <= size <= 8,
            n == size * size,
    ;
    assert(!seen.contains(d as int));
    lemma_int_range(0, n);
    lemma_len_subset(seen2, set_int_range(0, n));
    lemma_len_subset(done, seen);
    lemma_chain_step(b, player, pos, cur, d as int);
    assert forall|c: int| 0 <= c < 64 implies (bit(v2, c) <==> #[trigger] seen2.contains(c)) by {
        lemma_bits(visited, d as u64, c as u64);
    }
    assert forall|i: int| 0 <= i < top + 1 implies seen2.contains(#[trigger] st2[i] as int) && !done.contains(
        st2[i] as int,
    ) by {
        if i < top {
            assert(st2[i] == st[i]);
        }
    }
    assert forall|i: int, j: int| 0 <= i < j < top + 1 implies #[trigger] st2[i] != #[trigger] st2[j] by {
        assert(st2[i] == st[i]);
        if j < top {
            assert(st2[j] == st[j]);
        } else {
            assert(seen.contains(st[i] as int));
        }
    }
    assert forall|c: int|
        #![trigger seen2.contains(c)]
        seen2.contains(c) && !done.contains(c) implies exists|i: int|
            0 <= i < top + 1 && #[trigger] st2[i] == c by {
        if c == d as int {
            assert(st2[top] == c);
        } else {
            assert(seen.contains(c));
            let i = choose|i: int| 0 <= i < top && #[trigger] st[i] == c;
            assert(st2[i] == c);
        }
    }
    assert forall|c: int|
        #![trigger seen2.contains(c)]
        seen2.contains(c) implies road_cell(b, player, c) && chain_reach(b, player, pos, c) by {
        if c != d as int {
            assert(seen.contains(c));
        }
    }
}

/// With a spanning pair of edges among the cells done, there is a road.
proof fn lemma_search_found(
    b: Board,
    player: u64,
    pos: int,
    visited: u64,
    st: Seq<usize>,
    top: int,
    seen: Set<int>,
    done: Set<int>,
    flags: (bool, bool, bool, bool),
)
    requires
        search_state(b, player, pos, visited, st, top, seen, done, flags),
        (flags.0 && flags.1) || (flags.2 && flags.3),
    ensures
        road_from(b, player, pos),
{
    reveal(search_state);
    let size = b.size as int;
    if flags.0 && flags.1 {
        let c1 = choose|c: int| #[trigger] done.contains(c) && c % size == 0;
        let c2 = choose|c: int| #[trigger] done.contains(c) && c % size == size - 1;
        assert(seen.contains(c1) && seen.contains(c2));
        assert(chain_reach(b, player, pos, c1) && chain_reach(b, player, pos, c2));
        assert(spanning(c1, c2, size));
    } else {
        let c1 = choose|c: int| #[trigger] done.contains(c) && c / size == 0;
        let c2 = choose|c: int| #[trigger] done.contains(c) && c / size == size - 1;
        assert(seen.contains(c1) && seen.contains(c2));
        assert(chain_reach(b, player, pos, c1) && chain_reach(b, player, pos, c2));
        assert(spanning(c1, c2, size));
    }
}

/// With the stack empty and no spanning pair found, there is no road.
proof fn lemma_search_exhausted(
    b: Board,
    player: u64,
    pos: int,
    visited: u64,
    st: Seq<usize>,
    seen: Set<int>,
    done: Set<int>,
    flags: (bool, bool, bool, bool),
)
    requires
        search_state(b, player, pos, visited, st, 0, seen, done, flags),
        done_closed(b, player, seen, done, -1),
        !(flags.0 && flags.1),
        !(flags.2 && flags.3),
    ensures
        !road_from(b, player, pos),
{
    reveal(search_state);
    let size = b.size as int;
    assert(seen.subset_of(done)) by {
        assert forall|c: int| seen.contains(c) implies done.contains(c) by {
            if !done.contains(c) {
                let i = choose|i: int| 0 <= i < 0 && #[trigger] st[i] == c;
            }
        }
    }
    assert(closed_under(b, player, seen)) by {
        assert forall|c: int, e: int|
            #![trigger seen.contains(c), road_cell(b, player, e)]
            seen.contains(c) && road_cell(b, player, e) && beside(c, e, size) implies seen.contains(e) by {
            assert(done.contains(c));
        }
    }
    if road_from(b, player, pos) {
        let (c1, c2) = choose|c1: int, c2: int|
            #![trigger chain_reach(b, player, pos, c1), chain_reach(b, player, pos, c2)]
            chain_reach(b, player, pos, c1) && chain_reach(b, player, pos, c2) && spanning(c1, c2, size);
        lemma_closed_holds(b, player, seen, pos, c1);
        lemma_closed_holds(b, player, seen, pos, c2);
        assert(done.contains(c1) && done.contains(c2));
    }
}

/// The search never has more cells done than the board has.
proof fn lemma_search_bound(
    b: Board,
    player: u64,
    pos: int,
    visited: u64,
    st: Seq<usize>,
    top: int,
    seen: Set<int>,
    done: Set<int>,
    flags: (bool, bool, bool, bool),
)
    requires
        search_state(b, player, pos, visited, st, top, seen, done, flags),
    ensures
        done.len() <= seen.len() <= b.size * b.size,
        done.finite(),
        st.len() == 64,
        0 <= top <= 64,
{
    reveal(search_state);
    lemma_int_range(0, b.size * b.size);
    lemma_len_subset(seen, set_int_range(0, b.size * b.size));
    lemma_len_subset(done, seen);
}

/// A road depends on nothing but the size, the occupied cells, the walls
/// and the owners.
pub proof fn lemma_road_from_fields(a: Board, b: Board, player: u64, pos: int)
    requires
        a.size == b.size,
        a.occupied == b.occupied,
        a.walls == b.walls,
        a.owner == b.owner,
    ensures
        road_from(a, player, pos) == road_from(b, player, pos),
{
    assert forall|p: Seq<int>| #[trigger] is_chain(a, player, p) == is_chain(b, player, p) by {
        assert forall|i: int| 0 <= i < p.len() implies road_cell(a, player, #[trigger] p[i]) == road_cell(
            b,
            player,
            p[i],
        ) by {}
    }
    assert forall|x: int, y: int| #[trigger] chain_reach(a, player, x, y) == chain_reach(b, player, x, y) by {
        if chain_reach(a, player, x, y) {
            let p = choose|p: Seq<int>| #[trigger] is_chain(a, player, p) && p[0] == x && p[p.len() - 1] == y;
            assert(is_chain(b, player, p));
        }
        if chain_reach(b, player, x, y) {
            let p = choose|p: Seq<int>| #[trigger] is_chain(b, player, p) && p[0] == x && p[p.len() - 1] == y;
            assert(is_chain(a, player, p));
        }
    }
    if road_from(a, player, pos) {
        let (c1, c2) = choose|c1: int, c2: int|
            #![trigger chain_reach(a, player, pos, c1), chain_reach(a, player, pos, c2)]
            chain_reach(a, player, pos, c1) && chain_reach(a, player, pos, c2) && spanning(c1, c2, a.size as int);
        assert(chain_reach(b, player, pos, c1) && chain_reach(b, player, pos, c2));
    }
    if road_from(b, player, pos) {
        let (c1, c2) = choose|c1: int, c2: int|
            #![trigger chain_reach(b, player, pos, c1), chain_reach(b, player, pos, c2)]
            chain_reach(b, player, pos, c1) && chain_reach(b, player, pos, c2) && spanning(c1, c2, b.size as int);
        assert(chain_reach(a, player, pos, c1) && chain_reach(a, player, pos, c2));
    }
}

impl Board {
    /// Whether the cells of `player` joined to `pos` make a road; if they
    /// do, `player` has won. The search starts only from an occupied cell
    /// that is no wall.
    pub(crate) fn check_road_win(&mut self, player: u64, pos: usize) -> (r: bool)
        requires
            shape_ok(*old(self)),
            pos < old(self).size * old(self).size,
            bit(old(self).occupied, pos as int) && !bit(old(self).walls, pos as int) ==> bit(
                old(self).owner,
                pos as int,
            ) == (player != 0),
        ensures
            r == (bit(old(self).occupied, pos as int) && !bit(old(self).walls, pos as int)
                && road_from(*old(self), player, pos as int)),
            *final(self) == (if r {
                Board { result: Some(player), ..*old(self) }
            } else {
                *old(self)
            }),
    {
        let size = self.size;
        proof {
            assert(size * size <= 64) by (nonlinear_arith)
                requires
                    3 <= size <= 8,
            ;
            lemma_bits(self.occupied, pos as u64, pos as u64);
            lemma_bits(self.walls, pos as u64, pos as u64);
        }
        let pos_mask = 1u64 << (pos as u64);
        if self.occupied & pos_mask == 0 || self.walls & pos_mask != 0 {
            return false;
        }
        let ghost b = *self;
        let ghost n = size * size;
        let size_max = size - 1;
        let mut visited: u64 = 0;
        let mut stack = [0usize; 64];
        stack[0] = pos;
        visited = visited | pos_mask;
        let mut top: usize = 1;
        let mut has_left = false;
        let mut has_right = false;
        let mut has_top = false;
        let mut has_bottom = false;
        let ghost mut seen: Set<int> = set![pos as int];
        let ghost mut done: Set<int> = Set::empty();
        proof {
            assert forall|c: int| 0 <= c < 64 implies (bit(visited, c) <==> c == pos) by {
                lemma_bits(0u64, pos as u64, c as u64);
            }
            lemma_search_start(b, player, pos as int, visited, stack@);
        }
        while top > 0
            invariant
                *self == b,
                b == *old(self),
                shape_ok(b),
                size == b.size,
                size_max == size - 1,
                n == size * size,
                n <= 64,
                search_state(
                    b,
                    player,
                    pos as int,
                    visited,
                    stack@,
                    top as int,
                    seen,
                    done,
                    (has_left, has_right, has_top, has_bottom),
                ),
                done_closed(b, player, seen, done, -1),
                !(has_left && has_right),
                !(has_top && has_bottom),
            decreases n - done.len(),
        {
            proof {
                lemma_search_bound(
                    b,
                    player,
                    pos as int,
                    visited,
                    stack@,
                    top as int,
                    seen,
                    done,
                    (has_left, has_right, has_top, has_bottom),
                );
                lemma_search_pop(
                    b,
                    player,
                    pos as int,
                    visited,
                    stack@,
                    top as int,
                    seen,
                    done,
                    (has_left, has_right, has_top, has_bottom),
                );
            }
            let ghost flags0 = (has_left, has_right, has_top, has_bottom);
            top = top - 1;
            let cur = stack[top];
            let ghost done_len = done.len();
            proof {
                done = done.insert(cur as int);
            }
            let x = cur % size;
            let y = cur / size;
            if x == 0 {
                has_left = true;
            } else if x == size_max {
                has_right = true;
            }
            if y == 0 {
                has_top = true;
            } else if y == size_max {
                has_bottom = true;
            }
            assert((has_left, has_right, has_top, has_bottom) == edge_flags(flags0, cur as int, size as int));
            if (has_bottom && has_top) || (has_left && has_right) {
                proof {
                    lemma_search_found(
                        b,
                        player,
                        pos as int,
                        visited,
                        stack@,
                        top as int,
                        seen,
                        done,
                        (has_left, has_right, has_top, has_bottom),
                    );
                    assert(b == *old(self));
                }
                self.result = Some(player);
                return true;
            }
            let nb = Self::neighbors(cur, size);
            proof {
                lemma_neighbors(cur as int, size as int);
            }
            let mut k: usize = 0;
            while k < 4
                invariant
                    *self == b,
                    shape_ok(b),
                    size == b.size,
                    n == size * size,
                    n <= 64,
                    cur < n,
                    k <= 4,
                    nb@ == neighbor_cells(cur as int, size as int),
                    seen.contains(cur as int),
                    search_state(
                        b,
                        player,
                        pos as int,
                        visited,
                        stack@,
                        top as int,
                        seen,
                        done,
                        (has_left, has_right, has_top, has_bottom),
                    ),
                    done_closed(b, player, seen, done, cur as int),
                    forall|j: int|
                        0 <= j < k ==> match #[trigger] nb@[j] {
                            Some(d) => road_cell(b, player, d as int) ==> seen.contains(d as int),
                            None => true,
                        },
                    forall|j: int|
                        0 <= j < 4 ==> match #[trigger] neighbor_cells(cur as int, size as int)[j] {
                            Some(d) => 0 <= d < n && beside(cur as int, d as int, size as int),
                            None => true,
                        },
                decreases 4 - k,
            {
                if let Some(d) = nb[k] {
                    let m = 1u64 << (d as u64);
                    proof {
                        assert(nb@[k as int] == Some(d));
                        lemma_bits(b.occupied, d as u64, d as u64);
                        lemma_bits(visited, d as u64, d as u64);
                        lemma_bits(b.walls, d as u64, d as u64);
                        lemma_bits(b.owner, d as u64, d as u64);
                        reveal(search_state);
                    }
                    if !(self.occupied & m == 0 || visited & m != 0 || self.walls & m != 0 || (
                    self.owner & m == 0) != (player == 0)) {
                        proof {
                            lemma_search_push(
                                b,
                                player,
                                pos as int,
                                visited,
                                stack@,
                                top as int,
                                seen,
                                done,
                                (has_left, has_right, has_top, has_bottom),
                                cur as int,
                                d,
                            );
                        }
                        visited = visited | m;
                        stack[top] = d;
                        top = top + 1;
                        proof {
                            seen = seen.insert(d as int);
                        }
                    }
                }
                k = k + 1;
            }
            proof {
                assert forall|c: int, e: int|
                    #![trigger done.contains(c), road_cell(b, player, e)]
                    done.contains(c) && c != -1 && road_cell(b, player, e) && beside(c, e, size as int)
                        implies seen.contains(e) by {
                    if c == cur as int {
                        let j = choose|j: int|
                            0 <= j < 4 && #[trigger] neighbor_cells(cur as int, size as int)[j] == Some(
                                e as usize,
                            );
                        assert(nb@[j] == Some(e as usize));
                    }
                }
                lemma_search_bound(
                    b,
                    player,
                    pos as int,
                    visited,
                    stack@,
                    top as int,
                    seen,
                    done,
                    (has_left, has_right, has_top, has_bottom),
                );
                assert(done.len() == done_len + 1);
            }
        }
        proof {
            lemma_search_exhausted(
                b,
                player,
                pos as int,
                visited,
                stack@,
                seen,
                done,
                (has_left, has_right, has_top, has_bottom),
            );
        }
        false
    }
}

} // verus!
