//! Moving stacks on the engine's board: `spread` lifts the top pieces of a
//! stack and drops them along a line, `unspread` takes such a move back.
//! A spread is encoded in a `u64`, four bits per drop, the first drop in the
//! lowest four bits, ending at the first zero.
use vstd::prelude::*;

use crate::takumi::{bit, flat_winner, flats_decide, lemma_bits, same_board, shape_ok, Board};
use crate::takumi_road::road_from;

verus! {

/// The mask of the `n` lowest bits.
pub open spec fn low(n: u64) -> u64 {
    ((1u64 << n) - 1u64) as u64
}

/// Whether no bit of `s` from bit `h` up is set.
pub open spec fn clean(s: u64, h: u64) -> bool {
    h >= 64 || s >> h == 0
}

/// The cell invariant: a cell is occupied exactly when its stack has
/// pieces, Black owns it exactly when Black's piece is on top, a wall or a
/// capstone (never both) stands only on a stack, and no piece bit is set
/// above the stack.
pub open spec fn cell_ok(b: Board, c: int) -> bool {
    let h = b.stack_heights@[c];
    &&& bit(b.occupied, c) == (h > 0)
    &&& bit(b.owner, c) == (h > 0 && bit(b.stacks@[c], h - 1))
    &&& bit(b.walls, c) ==> h > 0
    &&& bit(b.capstones, c) ==> h > 0
    &&& !(bit(b.walls, c) && bit(b.capstones, c))
    &&& clean(b.stacks@[c], h)
}

/// The board invariant: a sound shape, every cell sound, and no mark beyond
/// the last cell.
pub open spec fn engine_wf(b: Board) -> bool {
    let n = (b.size * b.size) as u64;
    &&& shape_ok(b)
    &&& forall|c: int| 0 <= c < b.size * b.size ==> #[trigger] cell_ok(b, c)
    &&& clean(b.occupied, n)
    &&& clean(b.owner, n)
    &&& clean(b.walls, n)
    &&& clean(b.capstones, n)
}

/// The size of drop `i` (from 0): four bits of `spreads`.
pub open spec fn nibble(spreads: u64, i: int) -> u64 {
    (spreads >> ((4 * i) as u64)) & 0xFu64
}

/// The number of drops from drop `i` on: up to the first empty one, at most
/// seven.
pub open spec fn drops_from(spreads: u64, i: int) -> int
    decreases 7 - i,
{
    if i >= 7 || nibble(spreads, i) == 0 {
        i
    } else {
        drops_from(spreads, i + 1)
    }
}

/// The number of drops of a spread.
pub open spec fn drop_count(spreads: u64) -> int {
    drops_from(spreads, 0)
}

/// The pieces dropped before drop `j`.
pub open spec fn drop_sum(spreads: u64, j: int) -> int
    decreases j,
{
    if j <= 0 {
        0
    } else {
        drop_sum(spreads, j - 1) + nibble(spreads, j - 1)
    }
}

/// The step from one cell to the next in direction `dir`: right, left, down
/// (one row more) and up.
pub open spec fn delta(dir: usize, size: int) -> int {
    if dir == 0 {
        1
    } else if dir == 1 {
        -1
    } else if dir == 2 {
        size
    } else {
        -size
    }
}

/// The cell `i` steps from `pos` in direction `dir`.
pub open spec fn line_cell(pos: int, dir: usize, size: int, i: int) -> int {
    pos + i * delta(dir, size)
}

/// The cell of drop `j` (from 0) of a spread from `pos`.
pub open spec fn target(pos: int, dir: usize, size: int, j: int) -> int {
    line_cell(pos, dir, size, j + 1)
}

/// Whether `c` is the cell of one of the first `k` drops.
pub open spec fn among_targets(pos: int, dir: usize, size: int, k: int, c: int) -> bool {
    exists|j: int| 0 <= j < k && c == #[trigger] target(pos, dir, size, j)
}

/// The number of the first `k` drops that land on an empty cell.
pub open spec fn new_cells(b: Board, pos: int, dir: usize, k: int) -> int
    decreases k,
{
    if k <= 0 {
        0
    } else {
        new_cells(b, pos, dir, k - 1) + if b.stack_heights@[target(pos, dir, b.size as int, k - 1)] == 0 {
            1int
        } else {
            0int
        }
    }
}

/// Whether one of the cells `pos + i * delta` for `i` up to `k` holds a
/// stack of `player` that makes a road.
pub open spec fn road_on_line(a: Board, player: u64, pos: int, dir: usize, k: int) -> bool {
    exists|i: int| 0 <= i <= k && road_at_cell(a, player, #[trigger] line_cell(pos, dir, a.size as int, i))
}

/// Whether cell `c` holds a stack of `player` that makes a road.
pub open spec fn road_at_cell(a: Board, player: u64, c: int) -> bool {
    &&& a.stack_heights@[c] != 0
    &&& bit(a.owner, c) == (player != 0)
    &&& bit(a.occupied, c)
    &&& !bit(a.walls, c)
    &&& road_from(a, player, c)
}

/// Whether a spread of `take` pieces from `pos` in direction `dir` with
/// drops `spreads` is possible on `b`: the drops account for the pieces
/// taken, every drop lands on the board, no stack grows past 64 pieces, and
/// a wall does not land on a capstone.
pub open spec fn spread_ok(b: Board, pos: int, dir: usize, take: u64, spreads: u64) -> bool {
    let size = b.size as int;
    let n = size * size;
    let k = drop_count(spreads);
    let h = b.stack_heights@[pos];
    &&& engine_wf(b)
    &&& 0 <= pos < n
    &&& dir < 4
    &&& 1 <= take <= h
    &&& take < 64
    &&& drop_sum(spreads, k) == take
    &&& forall|j: int| 0 <= j < k ==> 0 <= #[trigger] target(pos, dir, size, j) < n
    &&& forall|j: int|
        0 <= j < k ==> b.stack_heights@[#[trigger] target(pos, dir, size, j)] + nibble(spreads, j) <= 64
    &&& !(bit(b.walls, pos) && bit(b.capstones, target(pos, dir, size, k - 1)))
    &&& b.ply_index < usize::MAX
    &&& new_cells(b, pos, dir, k) <= b.empty_positions + (if h == take { 1int } else { 0int }) <= usize::MAX
}

/// The number of the first `k` drops whose pieces make up their whole cell.
pub open spec fn cleared_cells(b: Board, pos: int, dir: usize, spreads: u64, k: int) -> int
    decreases k,
{
    if k <= 0 {
        0
    } else {
        cleared_cells(b, pos, dir, spreads, k - 1) + if b.stack_heights@[target(pos, dir, b.size as int, k - 1)]
            == nibble(spreads, k - 1) {
            1int
        } else {
            0int
        }
    }
}

/// The pieces the first `k` drops put down, gathered again, the first drop
/// lowest.
pub open spec fn gathered(b: Board, pos: int, dir: usize, spreads: u64, k: int) -> u64
    decreases k,
{
    if k <= 0 {
        0
    } else {
        let t = target(pos, dir, b.size as int, k - 1);
        let h = b.stack_heights@[t];
        let d = nibble(spreads, k - 1);
        gathered(b, pos, dir, spreads, k - 1) | ((b.stacks@[t] >> ((h - d) as u64)) << (drop_sum(
            spreads,
            k - 1,
        ) as u64))
    }
}

/// Whether the spread from `pos` in direction `dir` with drops `spreads`
/// can be taken back on `b`: each drop's cell holds at least its pieces,
/// no cell before the last holds a wall or a capstone, a flattened wall has
/// a stack under it, and the stack at `pos` stays within 64 pieces.
pub open spec fn unspread_ok(b: Board, pos: int, dir: usize, spreads: u64, smash: bool) -> bool {
    let size = b.size as int;
    let n = size * size;
    let k = drop_count(spreads);
    let last = target(pos, dir, size, k - 1);
    &&& engine_wf(b)
    &&& 0 <= pos < n
    &&& dir < 4
    &&& k >= 1
    &&& drop_sum(spreads, k) < 64
    &&& b.stack_heights@[pos] + drop_sum(spreads, k) <= 64
    &&& forall|j: int| 0 <= j < k ==> 0 <= #[trigger] target(pos, dir, size, j) < n
    &&& forall|j: int|
        0 <= j < k ==> nibble(spreads, j) <= b.stack_heights@[#[trigger] target(pos, dir, size, j)]
    &&& forall|j: int|
        0 <= j < k - 1 ==> !bit(b.walls, #[trigger] target(pos, dir, size, j)) && !bit(
            b.capstones,
            target(pos, dir, size, j),
        )
    &&& bit(b.walls, last) ==> !bit(b.capstones, pos)
    &&& bit(b.capstones, last) ==> !bit(b.walls, pos)
    &&& smash ==> b.stack_heights@[last] > nibble(spreads, k - 1)
    &&& b.ply_index >= 1
    &&& (if b.stack_heights@[pos] == 0 { 1int } else { 0int }) <= b.empty_positions + cleared_cells(
        b,
        pos,
        dir,
        spreads,
        k,
    ) <= usize::MAX
}

/// What taking back the spread makes of board `b`: board `a`.
pub open spec fn unspread_post(b: Board, a: Board, pos: int, dir: usize, spreads: u64, smash: bool) -> bool {
    let size = b.size as int;
    let k = drop_count(spreads);
    let last = target(pos, dir, size, k - 1);
    let wall_back = bit(b.walls, last);
    let cap_back = !wall_back && bit(b.capstones, last);
    let w1 = if wall_back { (b.walls & !(1u64 << (last as u64))) | (1u64 << (pos as u64)) } else { b.walls };
    let hp = b.stack_heights@[pos];
    &&& engine_wf(a)
    &&& a.size == b.size
    &&& a.stack_heights@.len() == b.stack_heights@.len()
    &&& a.stacks@.len() == b.stacks@.len()
    &&& a.stack_heights@[pos] == hp + drop_sum(spreads, k)
    &&& a.stacks@[pos] == b.stacks@[pos] | (gathered(b, pos, dir, spreads, k) << hp)
    &&& forall|j: int|
        0 <= j < k ==> a.stack_heights@[#[trigger] target(pos, dir, size, j)] == b.stack_heights@[target(
            pos,
            dir,
            size,
            j,
        )] - nibble(spreads, j)
    &&& forall|j: int|
        0 <= j < k ==> a.stacks@[#[trigger] target(pos, dir, size, j)] == b.stacks@[target(
            pos,
            dir,
            size,
            j,
        )] & low((b.stack_heights@[target(pos, dir, size, j)] - nibble(spreads, j)) as u64)
    &&& forall|c: int|
        0 <= c < size * size && c != pos && !among_targets(pos, dir, size, k, c) ==> a.stacks@[c]
            == b.stacks@[c] && a.stack_heights@[c] == b.stack_heights@[c]
    &&& a.walls == (if smash { w1 | (1u64 << (last as u64)) } else { w1 })
    &&& a.capstones == (if cap_back {
        (b.capstones & !(1u64 << (last as u64))) | (1u64 << (pos as u64))
    } else {
        b.capstones
    })
    &&& a.empty_positions == b.empty_positions + cleared_cells(b, pos, dir, spreads, k) - (if hp == 0 {
        1int
    } else {
        0int
    })
    &&& a.white_pieces == b.white_pieces && a.black_pieces == b.black_pieces
    &&& a.white_capstones == b.white_capstones && a.black_capstones == b.black_capstones
    &&& a.ply_index == b.ply_index - 1
    &&& a.current_player == 1 - b.current_player
    &&& a.result is None
}

/// The board `a` while taking back a spread, after lifting the pieces of
/// its first `i` drops.
pub open spec fn undropped(b: Board, a: Board, pos: int, dir: usize, spreads: u64, i: int) -> bool {
    let size = b.size as int;
    let n = size * size;
    &&& a.size == b.size
    &&& a.stack_heights@.len() == n
    &&& a.stacks@.len() == n
    &&& a.walls == b.walls
    &&& a.capstones == b.capstones
    &&& a.white_pieces == b.white_pieces && a.black_pieces == b.black_pieces
    &&& a.white_capstones == b.white_capstones && a.black_capstones == b.black_capstones
    &&& a.ply_index == b.ply_index - 1
    &&& a.current_player == 1 - b.current_player
    &&& a.result is None
    &&& forall|j: int|
        0 <= j < i ==> a.stack_heights@[#[trigger] target(pos, dir, size, j)] == b.stack_heights@[target(
            pos,
            dir,
            size,
            j,
        )] - nibble(spreads, j)
    &&& forall|j: int|
        0 <= j < i ==> a.stacks@[#[trigger] target(pos, dir, size, j)] == b.stacks@[target(
            pos,
            dir,
            size,
            j,
        )] & low((b.stack_heights@[target(pos, dir, size, j)] - nibble(spreads, j)) as u64)
    &&& forall|c: int|
        0 <= c < n && !among_targets(pos, dir, size, i, c) ==> a.stacks@[c] == b.stacks@[c]
            && a.stack_heights@[c] == b.stack_heights@[c]
    &&& forall|c: int| 0 <= c < n ==> #[trigger] consistent_cell(a, c)
    &&& clean(a.occupied, n as u64)
    &&& clean(a.owner, n as u64)
    &&& a.empty_positions == b.empty_positions + cleared_cells(b, pos, dir, spreads, i)
}

/// A cell whose marks agree with its stack, which is clean and at most 64
/// pieces high.
pub open spec fn consistent_cell(a: Board, c: int) -> bool {
    let h = a.stack_heights@[c];
    &&& h <= 64
    &&& bit(a.occupied, c) == (h > 0)
    &&& bit(a.owner, c) == (h > 0 && bit(a.stacks@[c], h - 1))
    &&& clean(a.stacks@[c], h)
}

/// The board `a` after lifting the pieces of a spread and making its first
/// `i` drops.
pub open spec fn dropped(b: Board, a: Board, pos: int, dir: usize, take: u64, spreads: u64, i: int) -> bool {
    let size = b.size as int;
    let n = size * size;
    let h = b.stack_heights@[pos];
    let nh = (h - take) as u64;
    let carried = b.stacks@[pos] >> nh;
    &&& a.size == b.size
    &&& a.stack_heights@.len() == n
    &&& a.stacks@.len() == n
    &&& a.walls == b.walls
    &&& a.capstones == b.capstones
    &&& a.white_pieces == b.white_pieces && a.black_pieces == b.black_pieces
    &&& a.white_capstones == b.white_capstones && a.black_capstones == b.black_capstones
    &&& a.ply_index == b.ply_index
    &&& a.current_player == b.current_player
    &&& a.result == b.result
    &&& a.stack_heights@[pos] == nh
    &&& a.stacks@[pos] == b.stacks@[pos] & low(nh)
    &&& forall|j: int|
        0 <= j < i ==> a.stack_heights@[#[trigger] target(pos, dir, size, j)] == b.stack_heights@[target(
            pos,
            dir,
            size,
            j,
        )] + nibble(spreads, j)
    &&& forall|j: int|
        0 <= j < i ==> a.stacks@[#[trigger] target(pos, dir, size, j)] == b.stacks@[target(
            pos,
            dir,
            size,
            j,
        )] | (((carried >> (drop_sum(spreads, j) as u64)) & low(nibble(spreads, j))) << b.stack_heights@[target(
            pos,
            dir,
            size,
            j,
        )])
    &&& forall|c: int|
        0 <= c < n && c != pos && !among_targets(pos, dir, size, i, c) ==> a.stacks@[c] == b.stacks@[c]
            && a.stack_heights@[c] == b.stack_heights@[c]
    &&& forall|c: int| 0 <= c < n ==> #[trigger] consistent_cell(a, c)
    &&& clean(a.occupied, n as u64)
    &&& clean(a.owner, n as u64)
    &&& a.empty_positions == b.empty_positions + (if nh == 0 { 1int } else { 0int }) - new_cells(b, pos, dir, i)
}

/// What the spread makes of board `b`: board `a`, `smash` telling whether
/// the last drop flattened a wall.
pub open spec fn spread_post(b: Board, a: Board, pos: int, dir: usize, take: u64, spreads: u64, smash: bool) -> bool {
    let size = b.size as int;
    let k = drop_count(spreads);
    let h = b.stack_heights@[pos];
    let nh = (h - take) as u64;
    let carried = b.stacks@[pos] >> nh;
    let last = target(pos, dir, size, k - 1);
    let wall_moves = bit(b.walls, pos);
    let cap_moves = !wall_moves && bit(b.capstones, pos);
    let w1 = if smash { b.walls & !(1u64 << (last as u64)) } else { b.walls };
    let mid = Board { result: b.result, ..a };
    let mover = b.current_player;
    &&& engine_wf(a)
    &&& smash == bit(b.walls, last)
    &&& a.size == b.size
    &&& a.stack_heights@.len() == b.stack_heights@.len()
    &&& a.stacks@.len() == b.stacks@.len()
    &&& a.stack_heights@[pos] == nh
    &&& a.stacks@[pos] == b.stacks@[pos] & low(nh)
    &&& forall|j: int|
        0 <= j < k ==> a.stack_heights@[#[trigger] target(pos, dir, size, j)] == b.stack_heights@[target(
            pos,
            dir,
            size,
            j,
        )] + nibble(spreads, j)
    &&& forall|j: int|
        0 <= j < k ==> a.stacks@[#[trigger] target(pos, dir, size, j)] == b.stacks@[target(
            pos,
            dir,
            size,
            j,
        )] | (((carried >> (drop_sum(spreads, j) as u64)) & low(nibble(spreads, j))) << b.stack_heights@[target(
            pos,
            dir,
            size,
            j,
        )])
    &&& forall|c: int|
        0 <= c < size * size && c != pos && !among_targets(pos, dir, size, k, c) ==> a.stacks@[c]
            == b.stacks@[c] && a.stack_heights@[c] == b.stack_heights@[c]
    &&& a.walls == (if wall_moves { (w1 & !(1u64 << (pos as u64))) | (1u64 << (last as u64)) } else { w1 })
    &&& a.capstones == (if cap_moves {
        (b.capstones & !(1u64 << (pos as u64))) | (1u64 << (last as u64))
    } else {
        b.capstones
    })
    &&& a.empty_positions == b.empty_positions + (if nh == 0 { 1int } else { 0int }) - new_cells(b, pos, dir, k)
    &&& a.white_pieces == b.white_pieces && a.black_pieces == b.black_pieces
    &&& a.white_capstones == b.white_capstones && a.black_capstones == b.black_capstones
    &&& a.ply_index == b.ply_index + 1
    &&& a.current_player == 1 - mover
    &&& a.result == (if road_on_line(mid, mover, pos, dir, k) {
        Some(mover)
    } else if road_on_line(mid, (1 - mover) as u64, pos, dir, k) {
        Some((1 - mover) as u64)
    } else if flats_decide(a) {
        Some(flat_winner(mid))
    } else {
        b.result
    })
}


/// Lifting the top `take` pieces of a clean stack of height `h` keeps the
/// lowest `h - take` bits, and what is left is clean.
proof fn lemma_lift(s: u64, h: u64, take: u64)
    requires
        1 <= take <= h <= 64,
        take < 64,
        clean(s, h),
    ensures
        s & !(low(take) << ((h - take) as u64)) == s & low((h - take) as u64),
        clean(s & low((h - take) as u64), (h - take) as u64),
        clean(s >> ((h - take) as u64), take),
{
    let nh = (h - take) as u64;
    assert(s & !((((1u64 << take) - 1u64) as u64) << nh) == s & (((1u64 << nh) - 1u64) as u64)) by (bit_vector)
        requires
            1 <= take <= h <= 64,
            take < 64,
            nh == h - take,
            h >= 64 || s >> h == 0,
    ;
    assert((s & (((1u64 << nh) - 1u64) as u64)) >> nh == 0) by (bit_vector)
        requires
            nh < 64,
    ;
    assert((s >> nh) >> take == 0) by (bit_vector)
        requires
            1 <= take <= h <= 64,
            take < 64,
            nh == h - take,
            h >= 64 || s >> h == 0,
    ;
}

/// Dropping `d` pieces on a clean stack of height `h` leaves a clean stack
/// of height `h + d` whose lower `h` bits are unchanged.
proof fn lemma_drop(t: u64, h: u64, x: u64, d: u64)
    requires
        clean(t, h),
        1 <= d < 16,
        h + d <= 64,
    ensures
        clean(t | ((x & low(d)) << h), (h + d) as u64),
        forall|i: u64| i < h ==> bit(t | ((x & low(d)) << h), i as int) == bit(t, i as int),
        bit(t | ((x & low(d)) << h), (h + d - 1) as int) == bit(x, (d - 1) as int),
{
    let hd = (h + d) as u64;
    let y = t | ((x & (((1u64 << d) - 1u64) as u64)) << h);
    assert(hd >= 64 || y >> hd == 0) by (bit_vector)
        requires
            h >= 64 || t >> h == 0,
            1 <= d < 16,
            h + d <= 64,
            hd == h + d,
            y == t | ((x & (((1u64 << d) - 1u64) as u64)) << h),
    ;
    assert forall|i: u64| i < h implies bit(y, i as int) == bit(t, i as int) by {
        assert((y >> i) & 1u64 == (t >> i) & 1u64) by (bit_vector)
            requires
                i < h,
                h + d <= 64,
                1 <= d < 16,
                y == t | ((x & (((1u64 << d) - 1u64) as u64)) << h),
        ;
    }
    let top = (h + d - 1) as u64;
    assert((y >> top) & 1u64 == (x >> ((d - 1) as u64)) & 1u64) by (bit_vector)
        requires
            h >= 64 || t >> h == 0,
            1 <= d < 16,
            h + d <= 64,
            top == h + d - 1,
            y == t | ((x & (((1u64 << d) - 1u64) as u64)) << h),
    ;
}

/// Shifting right twice is shifting right by the sum.
pub proof fn lemma_shift_twice(x: u64, a: u64, d: u64)
    requires
        a < 64,
        d < 16,
        a + d < 64,
    ensures
        (x >> a) >> d == x >> ((a + d) as u64),
{
    let ad = (a + d) as u64;
    assert((x >> a) >> d == x >> ad) by (bit_vector)
        requires
            a < 64,
            d < 16,
            ad == a + d,
            ad < 64,
    ;
}

/// Marks below `n` keep a word clean from `n` on; no mark is set from `n`
/// on in a clean word.
proof fn lemma_clean_marks(x: u64, n: u64, c: u64)
    requires
        clean(x, n),
        n <= 64,
        c < 64,
    ensures
        c < n ==> clean(x | (1u64 << c), n) && clean(x & !(1u64 << c), n),
        c >= n ==> !bit(x, c as int),
        clean(x & !(1u64 << c), n),
{
    assert((c < n ==> (n >= 64 || (x | (1u64 << c)) >> n == 0) && (n >= 64 || (x & !(1u64 << c)) >> n == 0))
        && (c >= n ==> (x >> c) & 1u64 != 1u64) && (n >= 64 || (x & !(1u64 << c)) >> n == 0)) by (bit_vector)
        requires
            n >= 64 || x >> n == 0,
            n <= 64,
            c < 64,
    ;
}

/// Drop sums grow with the drops.
proof fn lemma_drop_sum_mono(spreads: u64, i: int, j: int)
    requires
        0 <= i <= j,
    ensures
        drop_sum(spreads, i) <= drop_sum(spreads, j),
    decreases j - i,
{
    if i < j {
        lemma_drop_sum_mono(spreads, i, j - 1);
    }
}

/// The cells of two different drops differ, and differ from the start.
proof fn lemma_targets_apart(pos: int, dir: usize, size: int, i: int, j: int)
    requires
        dir < 4,
        size >= 1,
        0 <= i,
        0 <= j,
        i != j,
    ensures
        target(pos, dir, size, i) != target(pos, dir, size, j),
        target(pos, dir, size, i) != pos,
{
    let dl = delta(dir, size);
    assert(dl != 0);
    assert((i + 1) * dl != (j + 1) * dl && (i + 1) * dl != 0) by (nonlinear_arith)
        requires
            dl != 0,
            i != j,
            0 <= i,
            0 <= j,
    ;
}


/// A spread has at least as many drops as it has looked at.
proof fn lemma_drops_from_ge(spreads: u64, i: int)
    requires
        0 <= i <= 7,
    ensures
        i <= drops_from(spreads, i) <= 7,
    decreases 7 - i,
{
    if i < 7 && nibble(spreads, i) != 0 {
        lemma_drops_from_ge(spreads, i + 1);
    }
}

/// The count of drops on empty cells grows with the drops.
proof fn lemma_new_cells_mono(b: Board, pos: int, dir: usize, i: int, j: int)
    requires
        0 <= i <= j,
    ensures
        new_cells(b, pos, dir, i) <= new_cells(b, pos, dir, j),
    decreases j - i,
{
    if i < j {
        lemma_new_cells_mono(b, pos, dir, i, j - 1);
    }
}

/// After the drops, moving the wall or capstone on top to the last cell
/// leaves a sound board.
proof fn lemma_spread_wf(
    b: Board,
    d: Board,
    a: Board,
    pos: int,
    dir: usize,
    take: u64,
    spreads: u64,
    smash: bool,
)
    requires
        spread_ok(b, pos, dir, take, spreads),
        dropped(b, d, pos, dir, take, spreads, drop_count(spreads)),
        1 <= drop_count(spreads) <= 7,
        smash == bit(b.walls, target(pos, dir, b.size as int, drop_count(spreads) - 1)),
        a.size == d.size,
        a.stacks@ == d.stacks@,
        a.stack_heights@ == d.stack_heights@,
        a.occupied == d.occupied,
        a.owner == d.owner,
        a.current_player <= 1,
        ({
            let last = target(pos, dir, b.size as int, drop_count(spreads) - 1);
            let w1 = if smash { b.walls & !(1u64 << (last as u64)) } else { b.walls };
            &&& a.walls == (if bit(b.walls, pos) { (w1 & !(1u64 << (pos as u64))) | (1u64 << (last as u64)) } else { w1 })
            &&& a.capstones == (if !bit(b.walls, pos) && bit(b.capstones, pos) {
                (b.capstones & !(1u64 << (pos as u64))) | (1u64 << (last as u64))
            } else {
                b.capstones
            })
        }),
    ensures
        engine_wf(a),
{
    let size = b.size as int;
    let n = size * size;
    let k = drop_count(spreads);
    let last = target(pos, dir, size, k - 1);
    let w1 = if smash { b.walls & !(1u64 << (last as u64)) } else { b.walls };
    let w2 = w1 & !(1u64 << (pos as u64));
    let c1 = b.capstones & !(1u64 << (pos as u64));
    assert(n <= 64) by (nonlinear_arith)
        requires
            3 <= size <= 8,
            n == size * size,
    ;
    assert(0 <= last < n);
    assert(0 < a.stack_heights@[last]) by {
        assert(a.stack_heights@[last] == b.stack_heights@[last] + nibble(spreads, k - 1));
        assert(drops_from(spreads, 0) == k);
        lemma_nibbles_before(spreads, 0, k - 1);
    }
    assert(shape_ok(a)) by {
        assert forall|i: int| 0 <= i < a.size * a.size implies #[trigger] a.stack_heights@[i] <= 64 by {
            assert(consistent_cell(d, i));
        }
    }
    assert forall|c: int| 0 <= c < n implies #[trigger] cell_ok(a, c) by {
        assert(consistent_cell(d, c));
        assert(cell_ok(b, c));
        lemma_bits(b.walls, last as u64, c as u64);
        lemma_bits(w1, pos as u64, c as u64);
        lemma_bits(w2, last as u64, c as u64);
        lemma_bits(b.capstones, pos as u64, c as u64);
        lemma_bits(c1, last as u64, c as u64);
        if c != pos && c != last {
            if among_targets(pos, dir, size, k, c) {
                let j = choose|j: int| 0 <= j < k && c == #[trigger] target(pos, dir, size, j);
                assert(d.stack_heights@[c] == b.stack_heights@[c] + nibble(spreads, j));
            } else {
                assert(d.stack_heights@[c] == b.stack_heights@[c]);
            }
        }
        if c == pos {
            lemma_targets_apart(pos, dir, size, k - 1, k);
        }
    }
    lemma_clean_marks(b.walls, n as u64, last as u64);
    lemma_clean_marks(w1, n as u64, pos as u64);
    lemma_clean_marks(w2, n as u64, last as u64);
    lemma_clean_marks(b.capstones, n as u64, pos as u64);
    lemma_clean_marks(c1, n as u64, last as u64);
}

/// Every drop before the last one counted is non-empty.
proof fn lemma_nibbles_before(spreads: u64, i: int, j: int)
    requires
        0 <= i <= j,
        j < drops_from(spreads, i),
        i <= 7,
    ensures
        nibble(spreads, j) != 0,
    decreases j - i,
{
    if i < j {
        assert(i < 7 && nibble(spreads, i) != 0);
        lemma_nibbles_before(spreads, i + 1, j);
    } else {
        assert(!(i >= 7 || nibble(spreads, i) == 0));
    }
}

/// Facts on masks: the mask of fewer than 64 bits is one less than a power
/// of two, a nibble is below 16, and a shift by nothing changes nothing.
proof fn lemma_mask_facts(n: u64, x: u64)
    requires
        n < 64,
    ensures
        (1u64 << n) >= 1,
        x & 0xFu64 < 16,
        x >> 0u64 == x,
{
    assert((1u64 << n) >= 1) by (bit_vector)
        requires
            n < 64,
    ;
    assert(x & 0xFu64 < 16) by (bit_vector);
    assert(x >> 0u64 == x) by (bit_vector);
}

/// The board invariant does not look at the result.
pub proof fn lemma_wf_any_result(a: Board, r: Option<u64>)
    requires
        engine_wf(a),
    ensures
        engine_wf(Board { result: r, ..a }),
{
    let a2 = Board { result: r, ..a };
    assert forall|c: int| 0 <= c < a2.size * a2.size implies #[trigger] cell_ok(a2, c) by {
        assert(cell_ok(a, c));
    }
}

/// Gathering `d` clean bits above `s` clean bits gives `s + d` clean bits.
proof fn lemma_gather(g: u64, s: u64, y: u64, d: u64)
    requires
        clean(g, s),
        clean(y, d),
        s + d < 64,
    ensures
        clean(g | (y << s), (s + d) as u64),
{
    let sd = (s + d) as u64;
    assert((g | (y << s)) >> sd == 0) by (bit_vector)
        requires
            g >> s == 0,
            y >> d == 0,
            s + d < 64,
            sd == s + d,
    ;
}

/// Putting `s` clean bits above a clean stack of height `h` gives a clean
/// stack of height `h + s`.
proof fn lemma_put(t: u64, h: u64, x: u64, s: u64)
    requires
        clean(t, h),
        clean(x, s),
        1 <= s,
        h + s <= 64,
    ensures
        clean(t | (x << h), (h + s) as u64),
{
    let hs = (h + s) as u64;
    assert(hs >= 64 || (t | (x << h)) >> hs == 0) by (bit_vector)
        requires
            h >= 64 || t >> h == 0,
            s >= 64 || x >> s == 0,
            1 <= s,
            h + s <= 64,
            hs == h + s,
    ;
}

/// After taking back the drops, moving a wall or capstone back from the last
/// cell, and restoring a flattened wall, the board is sound.
proof fn lemma_unspread_wf(
    b: Board,
    d: Board,
    a: Board,
    pos: int,
    dir: usize,
    spreads: u64,
    smash: bool,
)
    requires
        unspread_ok(b, pos, dir, spreads, smash),
        undropped(b, d, pos, dir, spreads, drop_count(spreads)),
        a.size == d.size,
        a.stacks@.len() == d.stacks@.len(),
        a.stack_heights@.len() == d.stack_heights@.len(),
        forall|c: int| 0 <= c < a.size * a.size && c != pos ==> a.stacks@[c] == d.stacks@[c] && a.stack_heights@[c] == d.stack_heights@[c],
        a.stack_heights@[pos] == b.stack_heights@[pos] + drop_sum(spreads, drop_count(spreads)),
        consistent_cell(a, pos),
        forall|c: int| 0 <= c < 64 && c != pos ==> bit(a.occupied, c) == bit(d.occupied, c) && bit(a.owner, c) == bit(d.owner, c),
        clean(a.occupied, (a.size * a.size) as u64),
        clean(a.owner, (a.size * a.size) as u64),
        a.current_player <= 1,
        ({
            let last = target(pos, dir, b.size as int, drop_count(spreads) - 1);
            let wall_back = bit(b.walls, last);
            let cap_back = !wall_back && bit(b.capstones, last);
            let w1 = if wall_back { (b.walls & !(1u64 << (last as u64))) | (1u64 << (pos as u64)) } else { b.walls };
            &&& a.walls == (if smash { w1 | (1u64 << (last as u64)) } else { w1 })
            &&& a.capstones == (if cap_back {
                (b.capstones & !(1u64 << (last as u64))) | (1u64 << (pos as u64))
            } else {
                b.capstones
            })
        }),
    ensures
        engine_wf(a),
{
    let size = b.size as int;
    let n = size * size;
    let k = drop_count(spreads);
    let last = target(pos, dir, size, k - 1);
    let wall_back = bit(b.walls, last);
    let w0 = b.walls & !(1u64 << (last as u64));
    let w1 = if wall_back { w0 | (1u64 << (pos as u64)) } else { b.walls };
    let c0 = b.capstones & !(1u64 << (last as u64));
    assert(n <= 64) by (nonlinear_arith)
        requires
            3 <= size <= 8,
            n == size * size,
    ;
    assert(0 <= last < n);
    lemma_targets_apart(pos, dir, size, k - 1, k);
    assert(drops_from(spreads, 0) == k);
    lemma_nibbles_before(spreads, 0, 0);
    lemma_drop_sum_mono(spreads, 1, k);
    assert(drop_sum(spreads, 0) == 0);
    assert(drop_sum(spreads, 1) == nibble(spreads, 0));
    assert(a.stack_heights@[pos] > 0);
    assert(shape_ok(a)) by {
        assert forall|i: int| 0 <= i < a.size * a.size implies #[trigger] a.stack_heights@[i] <= 64 by {
            if i != pos {
                assert(consistent_cell(d, i));
            }
        }
    }
    assert forall|c: int| 0 <= c < n implies #[trigger] cell_ok(a, c) by {
        assert(cell_ok(b, c));
        lemma_bits(b.walls, last as u64, c as u64);
        lemma_bits(w0, pos as u64, c as u64);
        lemma_bits(w1, last as u64, c as u64);
        lemma_bits(b.capstones, last as u64, c as u64);
        lemma_bits(c0, pos as u64, c as u64);
        if c != pos {
            assert(consistent_cell(d, c));
            if c == last {
                assert(d.stack_heights@[last] == b.stack_heights@[last] - nibble(spreads, k - 1));
            } else if among_targets(pos, dir, size, k, c) {
                let j = choose|j: int| 0 <= j < k && c == #[trigger] target(pos, dir, size, j);
                assert(j != k - 1);
                assert(!bit(b.walls, target(pos, dir, size, j)));
            } else {
                assert(d.stack_heights@[c] == b.stack_heights@[c]);
            }
        }
    }
    lemma_clean_marks(b.walls, n as u64, last as u64);
    lemma_clean_marks(w0, n as u64, pos as u64);
    lemma_clean_marks(w1, n as u64, last as u64);
    lemma_clean_marks(b.capstones, n as u64, last as u64);
    lemma_clean_marks(c0, n as u64, pos as u64);
}

/// One more drop taken back: the counts of cleared and new cells step on.
proof fn lemma_new_cleared_step(b: Board, pos: int, dir: usize, spreads: u64, j: int)
    requires
        0 <= j,
    ensures
        cleared_cells(b, pos, dir, spreads, j + 1) == cleared_cells(b, pos, dir, spreads, j) + if b.stack_heights@[target(
            pos,
            dir,
            b.size as int,
            j,
        )] == nibble(spreads, j) {
            1int
        } else {
            0int
        },
        new_cells(b, pos, dir, j + 1) == new_cells(b, pos, dir, j) + if b.stack_heights@[target(
            pos,
            dir,
            b.size as int,
            j,
        )] == 0 {
            1int
        } else {
            0int
        },
{
}

/// The count of cleared cells grows with the drops.
proof fn lemma_cleared_mono(b: Board, pos: int, dir: usize, spreads: u64, i: int, j: int)
    requires
        0 <= i <= j,
    ensures
        cleared_cells(b, pos, dir, spreads, i) <= cleared_cells(b, pos, dir, spreads, j),
    decreases j - i,
{
    if i < j {
        lemma_cleared_mono(b, pos, dir, spreads, i, j - 1);
    }
}

/// Bits dropped on a clean stack come back off it, and what stays is the
/// stack as it was.
proof fn lemma_undrop(t: u64, h: u64, x: u64, d: u64)
    requires
        clean(t, h),
        1 <= d < 16,
        h + d <= 64,
    ensures
        (t | ((x & low(d)) << h)) >> h == x & low(d),
        (t | ((x & low(d)) << h)) & low(h) == t,
{
    assert((t | ((x & (((1u64 << d) - 1u64) as u64)) << h)) >> h == x & (((1u64 << d) - 1u64) as u64)
        && (t | ((x & (((1u64 << d) - 1u64) as u64)) << h)) & (((1u64 << h) - 1u64) as u64) == t) by (bit_vector)
        requires
            h >= 64 || t >> h == 0,
            1 <= d < 16,
            h + d <= 64,
    ;
}

/// Gathering the next `d` bits of `c` above its lowest `s` bits gives its
/// lowest `s + d` bits.
proof fn lemma_regather(c: u64, s: u64, d: u64)
    requires
        s + d < 64,
    ensures
        (c & low(s)) | (((c >> s) & low(d)) << s) == c & low((s + d) as u64),
{
    let sd = (s + d) as u64;
    assert((c & (((1u64 << s) - 1u64) as u64)) | (((c >> s) & (((1u64 << d) - 1u64) as u64)) << s) == c & (((1u64
        << sd) - 1u64) as u64)) by (bit_vector)
        requires
            s + d < 64,
            sd == s + d,
    ;
}

/// A clean stack is its lower part with its upper part put back on top.
proof fn lemma_reassemble(s0: u64, nh: u64, take: u64)
    requires
        nh + take <= 64,
        take < 64,
        clean(s0, (nh + take) as u64),
    ensures
        (s0 & low(nh)) | (((s0 >> nh) & low(take)) << nh) == s0,
{
    let h = (nh + take) as u64;
    assert((s0 & (((1u64 << nh) - 1u64) as u64)) | (((s0 >> nh) & (((1u64 << take) - 1u64) as u64)) << nh) == s0)
        by (bit_vector)
        requires
            nh + take <= 64,
            take < 64,
            h == nh + take,
            h >= 64 || s0 >> h == 0,
    ;
}

/// A word is known by its bits.
pub proof fn lemma_bits_ext(x: u64, y: u64)
    requires
        forall|c: int| 0 <= c < 64 ==> #[trigger] bit(x, c) == bit(y, c),
    ensures
        x == y,
{
    lemma_shr_eq(x, y, 0);
    lemma_mask_facts(0, x);
    lemma_mask_facts(0, y);
}

proof fn lemma_shr_eq(x: u64, y: u64, k: u64)
    requires
        k < 64,
        forall|c: int| 0 <= c < 64 ==> #[trigger] bit(x, c) == bit(y, c),
    ensures
        x >> k == y >> k,
    decreases 64 - k,
{
    assert(bit(x, k as int) == bit(y, k as int));
    if k == 63 {
        assert(((x >> 63u64) & 1u64 == 1u64) == ((y >> 63u64) & 1u64 == 1u64) ==> x >> 63u64 == y >> 63u64)
            by (bit_vector);
    } else {
        lemma_shr_eq(x, y, (k + 1) as u64);
        let k1 = (k + 1) as u64;
        assert(x >> k1 == y >> k1 && (((x >> k) & 1u64 == 1u64) == ((y >> k) & 1u64 == 1u64)) ==> x >> k == y >> k)
            by (bit_vector)
            requires
                k < 63,
                k1 == k + 1,
        ;
    }
}

/// Whether a spread keeps to the rules as far as taking it back needs: no
/// capstone on its last cell, and no wall or capstone on a cell before it.
pub open spec fn spread_clear(b: Board, pos: int, dir: usize, spreads: u64) -> bool {
    let size = b.size as int;
    let k = drop_count(spreads);
    &&& !bit(b.capstones, target(pos, dir, size, k - 1))
    &&& forall|j: int|
        0 <= j < k - 1 ==> !bit(b.walls, #[trigger] target(pos, dir, size, j)) && !bit(
            b.capstones,
            target(pos, dir, size, j),
        )
}

/// Taking back the drops of a spread gathers the carried pieces again.
proof fn lemma_gathered_back(b0: Board, b1: Board, pos: int, dir: usize, take: u64, spreads: u64, smash: bool, j: int)
    requires
        spread_ok(b0, pos, dir, take, spreads),
        spread_post(b0, b1, pos, dir, take, spreads, smash),
        0 <= j <= drop_count(spreads),
    ensures
        gathered(b1, pos, dir, spreads, j) == (b0.stacks@[pos] >> ((b0.stack_heights@[pos] - take) as u64)) & low(
            drop_sum(spreads, j) as u64,
        ),
    decreases j,
{
    let size = b0.size as int;
    let nh = (b0.stack_heights@[pos] - take) as u64;
    let c = b0.stacks@[pos] >> nh;
    let k = drop_count(spreads);
    lemma_drop_sum_mono(spreads, 0, k);
    if j == 0 {
        assert(c & low(0u64) == 0) by {
            assert(c & (((1u64 << 0u64) - 1u64) as u64) == 0) by (bit_vector);
        }
    } else {
        lemma_gathered_back(b0, b1, pos, dir, take, spreads, smash, j - 1);
        let t = target(pos, dir, size, j - 1);
        let d = nibble(spreads, j - 1);
        let sj = drop_sum(spreads, j - 1);
        lemma_drop_sum_mono(spreads, j, k);
        lemma_drop_sum_mono(spreads, 0, j - 1);
        assert(drops_from(spreads, 0) == k);
        lemma_nibbles_before(spreads, 0, j - 1);
        lemma_mask_facts(0, spreads >> ((4 * (j - 1)) as u64));
        assert(0 <= t < size * size);
        assert(cell_ok(b0, t));
        assert(b1.stack_heights@[t] == b0.stack_heights@[t] + d);
        lemma_undrop(b0.stacks@[t], b0.stack_heights@[t], c >> (sj as u64), d);
        lemma_regather(c, sj as u64, d);
    }
}

/// What a spread leaves can be taken back, when the spread kept to the
/// rules.
pub proof fn law_spread_undoable(b0: Board, b1: Board, pos: int, dir: usize, take: u64, spreads: u64, smash: bool)
    requires
        spread_ok(b0, pos, dir, take, spreads),
        spread_clear(b0, pos, dir, spreads),
        spread_post(b0, b1, pos, dir, take, spreads, smash),
    ensures
        unspread_ok(b1, pos, dir, spreads, smash),
{
    let size = b0.size as int;
    let n = size * size;
    let k = drop_count(spreads);
    let last = target(pos, dir, size, k - 1);
    let nh = (b0.stack_heights@[pos] - take) as u64;
    assert(n <= 64) by (nonlinear_arith)
        requires
            3 <= size <= 8,
            n == size * size,
    ;
    assert(k >= 1) by {
        if k == 0 {
            assert(drop_sum(spreads, 0) == 0);
        }
    }
    lemma_targets_apart(pos, dir, size, k - 1, k);
    let w1 = if smash { b0.walls & !(1u64 << (last as u64)) } else { b0.walls };
    let w2 = w1 & !(1u64 << (pos as u64));
    let c1 = b0.capstones & !(1u64 << (pos as u64));
    assert forall|j: int| 0 <= j < k - 1 implies !bit(b1.walls, #[trigger] target(pos, dir, size, j)) && !bit(
        b1.capstones,
        target(pos, dir, size, j),
    ) by {
        let t = target(pos, dir, size, j);
        lemma_targets_apart(pos, dir, size, j, k - 1);
        lemma_targets_apart(pos, dir, size, j, j + 1);
        assert(0 <= t < n);
        lemma_bits(b0.walls, last as u64, t as u64);
        lemma_bits(w1, pos as u64, t as u64);
        lemma_bits(w2, last as u64, t as u64);
        lemma_bits(b0.capstones, pos as u64, t as u64);
        lemma_bits(c1, last as u64, t as u64);
    }
    assert(0 <= last < n);
    assert(cell_ok(b0, pos));
    assert(cell_ok(b0, last));
    lemma_bits(b0.walls, last as u64, last as u64);
    lemma_bits(w1, pos as u64, last as u64);
    lemma_bits(w2, last as u64, last as u64);
    lemma_bits(b0.capstones, pos as u64, last as u64);
    lemma_bits(c1, last as u64, last as u64);
    lemma_bits(b0.walls, last as u64, pos as u64);
    lemma_bits(w1, pos as u64, pos as u64);
    lemma_bits(w2, last as u64, pos as u64);
    lemma_bits(b0.capstones, pos as u64, pos as u64);
    lemma_bits(c1, last as u64, pos as u64);
    lemma_count_match(b0, b1, pos, dir, take, spreads, smash, k);
}

/// The drops that land on empty cells are those that make up their whole
/// cell afterwards.
proof fn lemma_count_match(b0: Board, b1: Board, pos: int, dir: usize, take: u64, spreads: u64, smash: bool, j: int)
    requires
        spread_ok(b0, pos, dir, take, spreads),
        spread_post(b0, b1, pos, dir, take, spreads, smash),
        0 <= j <= drop_count(spreads),
    ensures
        cleared_cells(b1, pos, dir, spreads, j) == new_cells(b0, pos, dir, j),
    decreases j,
{
    if j > 0 {
        lemma_count_match(b0, b1, pos, dir, take, spreads, smash, j - 1);
        let t = target(pos, dir, b0.size as int, j - 1);
        assert(b1.stack_heights@[t] == b0.stack_heights@[t] + nibble(spreads, j - 1));
    }
}

/// Taking back a spread that kept to the rules restores the board as it was
/// before it, whatever the spread decided.
pub proof fn law_unspread_restores(
    b0: Board,
    b1: Board,
    b2: Board,
    pos: int,
    dir: usize,
    take: u64,
    spreads: u64,
    smash: bool,
)
    requires
        spread_ok(b0, pos, dir, take, spreads),
        spread_clear(b0, pos, dir, spreads),
        b0.result is None,
        spread_post(b0, b1, pos, dir, take, spreads, smash),
        unspread_post(b1, b2, pos, dir, spreads, smash),
    ensures
        same_board(b2, b0),
{
    let size = b0.size as int;
    let n = size * size;
    let k = drop_count(spreads);
    let last = target(pos, dir, size, k - 1);
    let h0 = b0.stack_heights@[pos];
    let nh = (h0 - take) as u64;
    let c = b0.stacks@[pos] >> nh;
    assert(n <= 64) by (nonlinear_arith)
        requires
            3 <= size <= 8,
            n == size * size,
    ;
    assert(k >= 1) by {
        if k == 0 {
            assert(drop_sum(spreads, 0) == 0);
        }
    }
    assert(0 <= last < n);
    lemma_targets_apart(pos, dir, size, k - 1, k);
    assert forall|j: int| 0 <= j < k implies #[trigger] target(pos, dir, size, j) != pos by {
        lemma_targets_apart(pos, dir, size, j, j + 1);
    }
    assert(!among_targets(pos, dir, size, k, pos));
    lemma_gathered_back(b0, b1, pos, dir, take, spreads, smash, k);
    lemma_count_match(b0, b1, pos, dir, take, spreads, smash, k);
    assert(cell_ok(b0, pos));
    lemma_lift(b0.stacks@[pos], h0, take);
    lemma_reassemble(b0.stacks@[pos], nh, take);
    // heights and stacks, cell by cell
    assert forall|i: int| 0 <= i < n implies b2.stack_heights@[i] == b0.stack_heights@[i] && b2.stacks@[i]
        == b0.stacks@[i] by {
        if i != pos && among_targets(pos, dir, size, k, i) {
            let j = choose|j: int| 0 <= j < k && i == #[trigger] target(pos, dir, size, j);
            let d = nibble(spreads, j);
            let sj = drop_sum(spreads, j);
            lemma_drop_sum_mono(spreads, 0, j);
            lemma_drop_sum_mono(spreads, j + 1, k);
            assert(drops_from(spreads, 0) == k);
            lemma_nibbles_before(spreads, 0, j);
            lemma_mask_facts(0, spreads >> ((4 * j) as u64));
            assert(cell_ok(b0, i));
            lemma_undrop(b0.stacks@[i], b0.stack_heights@[i], c >> (sj as u64), d);
        }
    }
    assert(b2.stack_heights@ =~= b0.stack_heights@);
    assert(b2.stacks@ =~= b0.stacks@);
    // the marks, bit by bit
    let w1 = if smash { b0.walls & !(1u64 << (last as u64)) } else { b0.walls };
    let w2 = w1 & !(1u64 << (pos as u64));
    let cp1 = b0.capstones & !(1u64 << (pos as u64));
    let wb = b1.walls & !(1u64 << (last as u64));
    let w3 = if bit(b1.walls, last) { wb | (1u64 << (pos as u64)) } else { b1.walls };
    let cb = b1.capstones & !(1u64 << (last as u64));
    assert forall|i: int| 0 <= i < 64 implies #[trigger] bit(b2.walls, i) == bit(b0.walls, i) && bit(
        b2.capstones,
        i,
    ) == bit(b0.capstones, i) && bit(b2.occupied, i) == bit(b0.occupied, i) && bit(b2.owner, i) == bit(
        b0.owner,
        i,
    ) by {
        lemma_bits(b0.walls, last as u64, i as u64);
        lemma_bits(w1, pos as u64, i as u64);
        lemma_bits(w2, last as u64, i as u64);
        lemma_bits(b0.capstones, pos as u64, i as u64);
        lemma_bits(cp1, last as u64, i as u64);
        lemma_bits(b1.walls, last as u64, i as u64);
        lemma_bits(wb, pos as u64, i as u64);
        lemma_bits(w3, last as u64, i as u64);
        lemma_bits(b1.capstones, last as u64, i as u64);
        lemma_bits(cb, pos as u64, i as u64);
        lemma_bits(b0.walls, last as u64, last as u64);
        lemma_bits(w1, pos as u64, last as u64);
        lemma_bits(w2, last as u64, last as u64);
        lemma_bits(b0.capstones, pos as u64, last as u64);
        lemma_bits(cp1, last as u64, last as u64);
        assert(cell_ok(b0, last));
        if i < n {
            assert(cell_ok(b0, i));
            assert(cell_ok(b2, i));
        } else {
            lemma_clean_marks(b0.walls, n as u64, i as u64);
            lemma_clean_marks(b2.walls, n as u64, i as u64);
            lemma_clean_marks(b0.capstones, n as u64, i as u64);
            lemma_clean_marks(b2.capstones, n as u64, i as u64);
            lemma_clean_marks(b0.occupied, n as u64, i as u64);
            lemma_clean_marks(b2.occupied, n as u64, i as u64);
            lemma_clean_marks(b0.owner, n as u64, i as u64);
            lemma_clean_marks(b2.owner, n as u64, i as u64);
        }
    }
    assert forall|i: int| 0 <= i < 64 implies #[trigger] bit(b2.capstones, i) == bit(b0.capstones, i) && bit(
        b2.occupied,
        i,
    ) == bit(b0.occupied, i) && bit(b2.owner, i) == bit(b0.owner, i) by {
        assert(bit(b2.walls, i) == bit(b0.walls, i));
    }
    assert forall|i: int| 0 <= i < 64 implies #[trigger] bit(b2.occupied, i) == bit(b0.occupied, i) by {
        assert(bit(b2.capstones, i) == bit(b0.capstones, i));
    }
    assert forall|i: int| 0 <= i < 64 implies #[trigger] bit(b2.owner, i) == bit(b0.owner, i) by {
        assert(bit(b2.capstones, i) == bit(b0.capstones, i));
    }
    lemma_bits_ext(b2.walls, b0.walls);
    lemma_bits_ext(b2.capstones, b0.capstones);
    lemma_bits_ext(b2.occupied, b0.occupied);
    lemma_bits_ext(b2.owner, b0.owner);
}

/// A word clean from bit `n` on has no mark from `n` on, and setting or
/// clearing bit `n` keeps it clean from `n + 1` on.
pub proof fn lemma_clean_marks_pub(x: u64, n: u64, c: u64)
    requires
        clean(x, n),
        n <= c < 64,
    ensures
        !bit(x, c as int),
{
    lemma_clean_marks(x, n, c);
}

/// A word clean from bit `n` on, with bit `n` set or not, is clean from
/// bit `n + 1` on.
pub proof fn lemma_clean_widen(x: u64, n: u64)
    requires
        clean(x, n),
        n < 64,
    ensures
        clean(x, (n + 1) as u64),
        clean(x | (1u64 << n), (n + 1) as u64),
{
    let n1 = (n + 1) as u64;
    assert((n1 >= 64 || x >> n1 == 0) && (n1 >= 64 || (x | (1u64 << n)) >> n1 == 0)) by (bit_vector)
        requires
            x >> n == 0,
            n < 64,
            n1 == n + 1,
    ;
}

impl Board {
    /// The cell one step from `cur` in direction `dir`.
    fn step(&self, cur: usize, dir: usize) -> (r: usize)
        requires
            dir < 4,
            0 <= cur + delta(dir, self.size as int) <= usize::MAX,
        ensures
            r == cur + delta(dir, self.size as int),
    {
        if dir == Self::DIR_RIGHT {
            cur + 1
        } else if dir == Self::DIR_LEFT {
            cur - 1
        } else if dir == Self::DIR_DOWN {
            cur + self.size
        } else {
            cur - self.size
        }
    }

    /// Whether one of the cells from `pos` up to `len` steps in direction
    /// `dir` holds a stack of `player` that makes a road; if one does,
    /// `player` has won.
    fn check_line(&mut self, player: u64, pos: usize, dir: usize, len: usize) -> (r: bool)
        requires
            shape_ok(*old(self)),
            dir < 4,
            len <= 7,
            forall|i: int|
                0 <= i <= len ==> 0 <= #[trigger] line_cell(pos as int, dir, old(self).size as int, i) < old(
                    self,
                ).size * old(self).size,
        ensures
            r == road_on_line(*old(self), player, pos as int, dir, len as int),
            *final(self) == (if r {
                Board { result: Some(player), ..*old(self) }
            } else {
                *old(self)
            }),
    {
        let ghost b = *self;
        let ghost size = b.size as int;
        proof {
            assert(size * size <= 64) by (nonlinear_arith)
                requires
                    3 <= size <= 8,
            ;
            assert(line_cell(pos as int, dir, size, 0) == pos);
        }
        let mut check_pos = pos;
        let mut i: usize = 0;
        while i <= len
            invariant
                *self == b,
                b == *old(self),
                shape_ok(b),
                size == b.size,
                size * size <= 64,
                dir < 4,
                len <= 7,
                i <= len + 1,
                i == 0 ==> check_pos == pos,
                i > 0 ==> check_pos == line_cell(pos as int, dir, size, (i - 1) as int),
                forall|i: int|
                    0 <= i <= len ==> 0 <= #[trigger] line_cell(pos as int, dir, size, i) < size * size,
                forall|j: int|
                    0 <= j < i ==> !road_at_cell(b, player, #[trigger] line_cell(pos as int, dir, size, j)),
            decreases len + 1 - i,
        {
            if i > 0 {
                proof {
                    assert(line_cell(pos as int, dir, size, i as int) == line_cell(pos as int, dir, size, (i - 1) as int)
                        + delta(dir, size)) by (nonlinear_arith);
                    assert(0 <= line_cell(pos as int, dir, size, i as int) < size * size);
                }
                check_pos = self.step(check_pos, dir);
            }
            proof {
                if i == 0 {
                    let dl = delta(dir, size);
                    assert(0 * dl == 0) by (nonlinear_arith);
                    assert(line_cell(pos as int, dir, size, 0) == pos + 0 * dl);
                }
                assert(check_pos == line_cell(pos as int, dir, size, i as int));
                assert(0 <= line_cell(pos as int, dir, size, i as int) < size * size);
            }
            let m = 1u64 << (check_pos as u64);
            proof {
                lemma_bits(b.owner, check_pos as u64, check_pos as u64);
            }
            if self.stack_heights[check_pos] != 0 && (self.owner & m == 0) == (player == Self::PLAYER_WHITE) {
                if self.check_road_win(player, check_pos) {
                    assert(road_at_cell(b, player, line_cell(pos as int, dir, size, i as int)));
                    return true;
                }
            }
            i = i + 1;
        }
        false
    }
}


impl Board {
    /// Moves the top `take` pieces of the stack at `pos` in direction `dir`,
    /// dropping them as `spreads` says (a wall or capstone on top travels to
    /// the last cell, flattening a wall there); then decides a road, the
    /// mover's first, or a flat win. Returns whether a wall was flattened.
    pub fn spread(&mut self, pos: usize, dir: usize, take: u64, spreads: u64) -> (smash: bool)
        requires
            spread_ok(*old(self), pos as int, dir, take, spreads),
        ensures
            spread_post(*old(self), *final(self), pos as int, dir, take, spreads, smash),
    {
        let ghost b = *self;
        let ghost size = b.size as int;
        let ghost n = size * size;
        let ghost k = drop_count(spreads);
        proof {
            assert(n <= 64) by (nonlinear_arith)
                requires
                    3 <= size <= 8,
                    n == size * size,
            ;
            assert(cell_ok(b, pos as int));
            lemma_drops_from_ge(spreads, 0);
            lemma_drop_sum_mono(spreads, 0, k);
        }
        let pos_mask = 1u64 << (pos as u64);
        let not_pos_mask = !pos_mask;
        let prev_height = self.stack_heights[pos];
        let new_height = prev_height - take;
        self.stack_heights.set(pos, new_height);
        proof {
            lemma_mask_facts(take, 0);
        }
        let take_mask = (1u64 << take) - 1;
        let s0 = self.stacks[pos];
        let mut took_pattern = s0 >> new_height;
        proof {
            lemma_lift(s0, prev_height, take);
        }
        self.stacks.set(pos, s0 & !(take_mask << new_height));
        let is_wall = (self.walls & pos_mask) != 0;
        let is_capstone = (self.capstones & pos_mask) != 0;
        let ghost occ0 = self.occupied;
        let ghost owner0 = self.owner;
        if new_height == 0 {
            self.occupied = self.occupied & not_pos_mask;
            self.owner = self.owner & not_pos_mask;
            self.empty_positions = self.empty_positions + 1;
        } else if self.controlling_player(pos) == Self::PLAYER_WHITE {
            self.owner = self.owner & not_pos_mask;
        } else {
            self.owner = self.owner | pos_mask;
        }
        proof {
            lemma_bits(b.walls, pos as u64, pos as u64);
            lemma_bits(b.capstones, pos as u64, pos as u64);
            assert forall|c: int| 0 <= c < n implies #[trigger] consistent_cell(*self, c) by {
                lemma_bits(occ0, pos as u64, c as u64);
                lemma_bits(owner0, pos as u64, c as u64);
                if c != pos as int {
                    assert(cell_ok(b, c));
                }
            }
            lemma_clean_marks(occ0, n as u64, pos as u64);
            lemma_clean_marks(owner0, n as u64, pos as u64);
            assert(forall|c: int|
                0 <= c < n && c != pos && !among_targets(pos as int, dir, size, 0, c) ==> self.stacks@[c]
                    == b.stacks@[c] && self.stack_heights@[c] == b.stack_heights@[c]);
            assert(dropped(b, *self, pos as int, dir, take, spreads, 0));
            lemma_mask_facts(0, took_pattern);
        }
        let mut cur_pos = pos;
        let mut move_distance: usize = 0;
        while move_distance < 7
            invariant
                spread_ok(b, pos as int, dir, take, spreads),
                size == b.size,
                n == size * size,
                n <= 64,
                k == drop_count(spreads),
                drop_sum(spreads, k) == take,
                0 <= k <= 7,
                pos < n,
                new_height == b.stack_heights@[pos as int] - take,
                is_wall == bit(b.walls, pos as int),
                is_capstone == bit(b.capstones, pos as int),
                move_distance <= k,
                drops_from(spreads, 0) == drops_from(spreads, move_distance as int),
                move_distance == 0 ==> cur_pos == pos,
                move_distance > 0 ==> cur_pos == target(pos as int, dir, size, move_distance - 1),
                took_pattern == (b.stacks@[pos as int] >> new_height) >> (drop_sum(spreads, move_distance as int) as u64),
                dropped(b, *self, pos as int, dir, take, spreads, move_distance as int),
            ensures
                move_distance == k,
            decreases 7 - move_distance,
        {
            let ghost s1 = *self;
            let spread = (spreads >> ((move_distance * 4) as u64)) & 0xF;
            if spread == 0 {
                break;
            }
            let ghost md = move_distance as int;
            let ghost t = target(pos as int, dir, size, md);
            let ghost carried = b.stacks@[pos as int] >> new_height;
            let ghost dl = delta(dir, size);
            proof {
                lemma_mask_facts(0, spreads >> ((move_distance * 4) as u64));
                assert(md == 0 ==> cur_pos == pos);
                assert(md > 0 ==> cur_pos == pos + md * dl);
                assert(spread == nibble(spreads, md));
                assert(drops_from(spreads, md) == drops_from(spreads, md + 1));
                lemma_drops_from_ge(spreads, md + 1);
                lemma_drop_sum_mono(spreads, md + 1, k);
                lemma_new_cells_mono(b, pos as int, dir, md + 1, k);
                assert(0 <= t < n);
                assert((md + 1) * dl == md * dl + dl) by (nonlinear_arith);
                assert(md == 0 ==> md * dl == 0) by (nonlinear_arith);
                assert(t == pos + (md + 1) * dl);
                assert(t == cur_pos + dl);
                assert forall|j: int| 0 <= j < md implies #[trigger] target(pos as int, dir, size, j) != t by {
                    lemma_targets_apart(pos as int, dir, size, j, md);
                }
                lemma_targets_apart(pos as int, dir, size, md, md + 1);
                assert(!among_targets(pos as int, dir, size, md, t));
                assert(self.stack_heights@[t] == b.stack_heights@[t]);
                assert(self.stacks@[t] == b.stacks@[t]);
                assert(consistent_cell(*self, t));
                assert(drop_sum(spreads, md + 1) == drop_sum(spreads, md) + spread);
                lemma_drop_sum_mono(spreads, 0, md);
                lemma_shift_twice(carried, drop_sum(spreads, md) as u64, spread);
                lemma_mask_facts(spread, 0);
            }
            cur_pos = self.step(cur_pos, dir);
            let cur_pos_mask = 1u64 << (cur_pos as u64);
            let prev_h = self.stack_heights[cur_pos];
            self.stack_heights.set(cur_pos, prev_h + spread);
            let this_pattern = took_pattern & ((1u64 << spread) - 1);
            let ghost took_old = took_pattern;
            took_pattern = took_pattern >> spread;
            let st = self.stacks[cur_pos];
            proof {
                lemma_drop(st, prev_h, took_old, spread);
            }
            self.stacks.set(cur_pos, st | (this_pattern << prev_h));
            let ghost occ1 = self.occupied;
            let ghost owner1 = self.owner;
            let ghost empty1 = self.empty_positions;
            if prev_h == 0 {
                self.empty_positions = self.empty_positions - 1;
                self.occupied = self.occupied | cur_pos_mask;
            }
            let ghost owner2 = self.owner;
            if self.controlling_player(cur_pos) == Self::PLAYER_WHITE {
                self.owner = self.owner & !cur_pos_mask;
            } else {
                self.owner = self.owner | cur_pos_mask;
            }
            move_distance = move_distance + 1;
            proof {
                assert forall|c: int| 0 <= c < n implies #[trigger] consistent_cell(*self, c) by {
                    lemma_bits(occ1, cur_pos as u64, c as u64);
                    lemma_bits(owner2, cur_pos as u64, c as u64);
                    assert(consistent_cell(s1, c));
                }
                lemma_clean_marks(occ1, n as u64, cur_pos as u64);
                lemma_clean_marks(owner2, n as u64, cur_pos as u64);
                assert forall|j: int| 0 <= j < md + 1 implies self.stack_heights@[#[trigger] target(
                    pos as int,
                    dir,
                    size,
                    j,
                )] == b.stack_heights@[target(pos as int, dir, size, j)] + nibble(spreads, j) by {
                    if j < md {
                        lemma_targets_apart(pos as int, dir, size, j, md);
                    }
                }
                assert forall|j: int| 0 <= j < md + 1 implies self.stacks@[#[trigger] target(
                    pos as int,
                    dir,
                    size,
                    j,
                )] == b.stacks@[target(pos as int, dir, size, j)] | (((carried >> (drop_sum(spreads, j) as u64))
                    & low(nibble(spreads, j))) << b.stack_heights@[target(pos as int, dir, size, j)]) by {
                    if j < md {
                        lemma_targets_apart(pos as int, dir, size, j, md);
                    }
                }
                assert forall|c: int|
                    0 <= c < n && c != pos && !among_targets(pos as int, dir, size, md + 1, c) implies self.stacks@[c]
                        == b.stacks@[c] && self.stack_heights@[c] == b.stack_heights@[c] by {
                    if among_targets(pos as int, dir, size, md, c) {
                        let j = choose|j: int| 0 <= j < md && c == #[trigger] target(pos as int, dir, size, j);
                        assert(0 <= j < md + 1 && c == target(pos as int, dir, size, j));
                    }
                    assert(c != t) by {
                        assert(0 <= md < md + 1 && t == target(pos as int, dir, size, md));
                    }
                }
                assert(dropped(b, *self, pos as int, dir, take, spreads, move_distance as int));
            }
        }
        let ghost d = *self;
        proof {
            assert(k >= 1) by {
                if k == 0 {
                    assert(drop_sum(spreads, 0) == 0);
                }
            }
            assert(0 <= cur_pos < n);
            lemma_bits(b.walls, cur_pos as u64, cur_pos as u64);
        }
        let cur_pos_mask = 1u64 << (cur_pos as u64);
        let smash = (self.walls & cur_pos_mask) != 0;
        if smash {
            self.walls = self.walls & !cur_pos_mask;
        }
        if is_wall {
            self.walls = self.walls & not_pos_mask;
            self.walls = self.walls | cur_pos_mask;
        } else if is_capstone {
            self.capstones = self.capstones & not_pos_mask;
            self.capstones = self.capstones | cur_pos_mask;
        }
        let moving_player = self.current_player;
        self.ply_index = self.ply_index + 1;
        self.current_player = 1 - self.current_player;
        proof {
            lemma_spread_wf(b, d, *self, pos as int, dir, take, spreads, smash);
            assert forall|i: int| 0 <= i <= move_distance implies 0 <= #[trigger] line_cell(
                pos as int,
                dir,
                size,
                i,
            ) < n by {
                if i > 0 {
                    assert(line_cell(pos as int, dir, size, i) == target(pos as int, dir, size, i - 1));
                } else {
                    assert(line_cell(pos as int, dir, size, 0) == pos);
                }
            }
        }
        let ghost mid = *self;
        proof {
            lemma_wf_any_result(mid, Some(moving_player));
            lemma_wf_any_result(mid, Some((1 - moving_player) as u64));
            lemma_wf_any_result(mid, Some(flat_winner(mid)));
        }
        if self.check_line(moving_player, pos, dir, move_distance) {
            return smash;
        }
        if self.check_line(1 - moving_player, pos, dir, move_distance) {
            return smash;
        }
        self.check_flat_win();
        smash
    }
}


impl Board {
    /// Takes back the spread from `pos` in direction `dir` with drops
    /// `spreads`: the pieces of each drop go back on top of the stack at
    /// `pos`, a wall or capstone on the last cell comes back with them, a
    /// flattened wall (`smash`) stands again, and the game is open again.
    pub fn unspread(&mut self, pos: usize, dir: usize, spreads: u64, smash: bool)
        requires
            unspread_ok(*old(self), pos as int, dir, spreads, smash),
        ensures
            unspread_post(*old(self), *final(self), pos as int, dir, spreads, smash),
    {
        let ghost b = *self;
        let ghost size = b.size as int;
        let ghost n = size * size;
        let ghost k = drop_count(spreads);
        proof {
            assert(n <= 64) by (nonlinear_arith)
                requires
                    3 <= size <= 8,
                    n == size * size,
            ;
            lemma_drops_from_ge(spreads, 0);
            lemma_drop_sum_mono(spreads, 0, k);
        }
        self.ply_index = self.ply_index - 1;
        self.current_player = 1 - self.current_player;
        self.result = None;
        let pos_mask = 1u64 << (pos as u64);
        let mut cur_pos = pos;
        let mut took_pattern: u64 = 0;
        let mut spread_sum: u64 = 0;
        let mut move_distance: usize = 0;
        proof {
            assert forall|c: int| 0 <= c < n implies #[trigger] consistent_cell(*self, c) by {
                assert(cell_ok(b, c));
            }
            assert(undropped(b, *self, pos as int, dir, spreads, 0));
            assert(clean(0u64, 0u64)) by {
                lemma_mask_facts(0, 0);
            }
        }
        while move_distance < 7
            invariant
                unspread_ok(b, pos as int, dir, spreads, smash),
                size == b.size,
                n == size * size,
                n <= 64,
                k == drop_count(spreads),
                1 <= k <= 7,
                pos < n,
                drop_sum(spreads, k) < 64,
                move_distance <= k,
                drops_from(spreads, 0) == drops_from(spreads, move_distance as int),
                move_distance == 0 ==> cur_pos == pos,
                move_distance > 0 ==> cur_pos == target(pos as int, dir, size, move_distance - 1),
                spread_sum == drop_sum(spreads, move_distance as int),
                took_pattern == gathered(b, pos as int, dir, spreads, move_distance as int),
                clean(took_pattern, spread_sum),
                undropped(b, *self, pos as int, dir, spreads, move_distance as int),
            ensures
                move_distance == k,
            decreases 7 - move_distance,
        {
            let ghost s1 = *self;
            let spread = (spreads >> ((move_distance * 4) as u64)) & 0xF;
            if spread == 0 {
                break;
            }
            let ghost md = move_distance as int;
            let ghost t = target(pos as int, dir, size, md);
            let ghost dl = delta(dir, size);
            proof {
                lemma_mask_facts(0, spreads >> ((move_distance * 4) as u64));
                assert(spread == nibble(spreads, md));
                assert(drops_from(spreads, md) == drops_from(spreads, md + 1));
                lemma_drops_from_ge(spreads, md + 1);
                lemma_drop_sum_mono(spreads, md + 1, k);
                assert(0 <= t < n);
                assert(md == 0 ==> cur_pos == pos);
                assert(md > 0 ==> cur_pos == pos + md * dl);
                assert((md + 1) * dl == md * dl + dl) by (nonlinear_arith);
                assert(md == 0 ==> md * dl == 0) by (nonlinear_arith);
                assert(t == pos + (md + 1) * dl);
                assert(t == cur_pos + dl);
                assert forall|j: int| 0 <= j < md implies #[trigger] target(pos as int, dir, size, j) != t by {
                    lemma_targets_apart(pos as int, dir, size, j, md);
                }
                assert(!among_targets(pos as int, dir, size, md, t));
                assert(self.stack_heights@[t] == b.stack_heights@[t]);
                assert(self.stacks@[t] == b.stacks@[t]);
                assert(consistent_cell(*self, t));
                assert(drop_sum(spreads, md + 1) == drop_sum(spreads, md) + spread);
                lemma_mask_facts(spread, 0);
                lemma_new_cleared_step(b, pos as int, dir, spreads, md);
                lemma_cleared_mono(b, pos as int, dir, spreads, md + 1, k);
            }
            cur_pos = self.step(cur_pos, dir);
            let cur_pos_mask = 1u64 << (cur_pos as u64);
            let prev_height = self.stack_heights[cur_pos];
            let new_height = prev_height - spread;
            self.stack_heights.set(cur_pos, new_height);
            let spread_mask = (1u64 << spread) - 1;
            let st = self.stacks[cur_pos];
            let this_pattern = st >> new_height;
            proof {
                lemma_lift(st, prev_height, spread);
            }
            self.stacks.set(cur_pos, st & !(spread_mask << new_height));
            let ghost occ1 = self.occupied;
            let ghost owner1 = self.owner;
            if new_height == 0 {
                self.occupied = self.occupied & !cur_pos_mask;
                self.empty_positions = self.empty_positions + 1;
                self.owner = self.owner & !cur_pos_mask;
            } else if self.controlling_player(cur_pos) == Self::PLAYER_WHITE {
                self.owner = self.owner & !cur_pos_mask;
            } else {
                self.owner = self.owner | cur_pos_mask;
            }
            proof {
                lemma_gather(took_pattern, spread_sum, this_pattern, spread);
            }
            took_pattern = took_pattern | (this_pattern << spread_sum);
            spread_sum = spread_sum + spread;
            move_distance = move_distance + 1;
            proof {
                lemma_new_cleared_step(b, pos as int, dir, spreads, md);
                assert forall|c: int| 0 <= c < n implies #[trigger] consistent_cell(*self, c) by {
                    lemma_bits(occ1, cur_pos as u64, c as u64);
                    lemma_bits(owner1, cur_pos as u64, c as u64);
                    assert(consistent_cell(s1, c));
                }
                lemma_clean_marks(occ1, n as u64, cur_pos as u64);
                lemma_clean_marks(owner1, n as u64, cur_pos as u64);
                assert forall|j: int| 0 <= j < md + 1 implies self.stack_heights@[#[trigger] target(
                    pos as int,
                    dir,
                    size,
                    j,
                )] == b.stack_heights@[target(pos as int, dir, size, j)] - nibble(spreads, j) by {
                    if j < md {
                        lemma_targets_apart(pos as int, dir, size, j, md);
                    }
                }
                assert forall|j: int| 0 <= j < md + 1 implies self.stacks@[#[trigger] target(
                    pos as int,
                    dir,
                    size,
                    j,
                )] == b.stacks@[target(pos as int, dir, size, j)] & low(
                    (b.stack_heights@[target(pos as int, dir, size, j)] - nibble(spreads, j)) as u64,
                ) by {
                    if j < md {
                        lemma_targets_apart(pos as int, dir, size, j, md);
                    }
                }
                assert forall|c: int|
                    0 <= c < n && !among_targets(pos as int, dir, size, md + 1, c) implies self.stacks@[c]
                        == b.stacks@[c] && self.stack_heights@[c] == b.stack_heights@[c] by {
                    if among_targets(pos as int, dir, size, md, c) {
                        let j = choose|j: int| 0 <= j < md && c == #[trigger] target(pos as int, dir, size, j);
                        assert(0 <= j < md + 1 && c == target(pos as int, dir, size, j));
                    }
                    assert(c != t) by {
                        assert(0 <= md < md + 1 && t == target(pos as int, dir, size, md));
                    }
                }
                assert(undropped(b, *self, pos as int, dir, spreads, move_distance as int));
            }
        }
        let ghost d = *self;
        proof {
            assert(k >= 1);
            assert(0 <= cur_pos < n);
            lemma_bits(b.walls, cur_pos as u64, cur_pos as u64);
            lemma_bits(b.capstones, cur_pos as u64, cur_pos as u64);
            lemma_targets_apart(pos as int, dir, size, k - 1, k);
            assert forall|j: int| 0 <= j < k implies #[trigger] target(pos as int, dir, size, j) != pos by {
                lemma_targets_apart(pos as int, dir, size, j, j + 1);
            }
            assert(!among_targets(pos as int, dir, size, k, pos as int));
            assert(d.stack_heights@[pos as int] == b.stack_heights@[pos as int]);
            assert(d.stacks@[pos as int] == b.stacks@[pos as int]);
        }
        let cur_pos_mask = 1u64 << (cur_pos as u64);
        let is_wall = (self.walls & cur_pos_mask) != 0;
        let is_capstone = (self.capstones & cur_pos_mask) != 0;
        if is_wall {
            self.walls = self.walls & !cur_pos_mask;
            self.walls = self.walls | pos_mask;
        } else if is_capstone {
            self.capstones = self.capstones & !cur_pos_mask;
            self.capstones = self.capstones | pos_mask;
        }
        if smash {
            self.walls = self.walls | cur_pos_mask;
        }
        let prev_height = self.stack_heights[pos];
        let ghost occ2 = self.occupied;
        if prev_height == 0 {
            self.occupied = self.occupied | pos_mask;
            self.empty_positions = self.empty_positions - 1;
        }
        proof {
            assert(consistent_cell(d, pos as int));
            assert(drops_from(spreads, 0) == k);
            lemma_nibbles_before(spreads, 0, 0);
            lemma_drop_sum_mono(spreads, 1, k);
            assert(drop_sum(spreads, 0) == 0);
            assert(drop_sum(spreads, 1) == nibble(spreads, 0));
            lemma_put(d.stacks@[pos as int], prev_height, took_pattern, spread_sum);
        }
        self.stack_heights.set(pos, prev_height + spread_sum);
        let sp = self.stacks[pos];
        self.stacks.set(pos, sp | (took_pattern << prev_height));
        let ghost owner2 = self.owner;
        if self.controlling_player(pos) == Self::PLAYER_WHITE {
            self.owner = self.owner & !pos_mask;
        } else {
            self.owner = self.owner | pos_mask;
        }
        proof {
            lemma_bits(occ2, pos as u64, pos as u64);
            lemma_bits(owner2, pos as u64, pos as u64);
            assert forall|c: int| 0 <= c < 64 && c != pos implies bit(self.occupied, c) == bit(d.occupied, c)
                && bit(self.owner, c) == bit(d.owner, c) by {
                lemma_bits(occ2, pos as u64, c as u64);
                lemma_bits(owner2, pos as u64, c as u64);
            }
            lemma_clean_marks(occ2, n as u64, pos as u64);
            lemma_clean_marks(owner2, n as u64, pos as u64);
            lemma_unspread_wf(b, d, *self, pos as int, dir, spreads, smash);
        }
    }
}

} // verus!
