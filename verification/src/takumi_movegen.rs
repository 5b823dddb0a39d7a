//! The engine's move generation: every move of the player to move, in the
//! order the search tries them, and the count of positions a number of
//! plies ahead.
use vstd::prelude::*;

use crate::takumi::{bit, lemma_bits, same_board, shape_ok, Board};
use crate::takumi_spread::delta;

verus! {

/// A move of the engine: a placement of a variant at a cell, or a spread
/// from a cell in a direction of a number of pieces with its drops.
#[derive(Debug, Clone, Copy, PartialEq, Eq, Hash, Structural)]
pub enum Action {
    Place(usize, usize),
    Spread(usize, usize, u64, u64),
}

/// The drops of taking `take` pieces: every way to split them into drops,
/// encoded four bits a drop, fewer drops first and in increasing order.
pub open spec fn spread_table(take: u64) -> Seq<u64> {
    if take == 1 {
        seq![
            0x1,
        ]
    } else if take == 2 {
        seq![
            0x2, 0x11,
        ]
    } else if take == 3 {
        seq![
            0x3, 0x12, 0x21, 0x111,
        ]
    } else if take == 4 {
        seq![
            0x4, 0x13, 0x22, 0x31, 0x112, 0x121, 0x211, 0x1111,
        ]
    } else if take == 5 {
        seq![
            0x5, 0x14, 0x23, 0x32, 0x41, 0x113, 0x122, 0x131, 0x212, 0x221, 0x311, 0x1112, 0x1121, 0x1211,
            0x2111, 0x11111,
        ]
    } else if take == 6 {
        seq![
            0x6, 0x15, 0x24, 0x33, 0x42, 0x51, 0x114, 0x123, 0x132, 0x141, 0x213, 0x222, 0x231, 0x312, 0x321,
            0x411, 0x1113, 0x1122, 0x1131, 0x1212, 0x1221, 0x1311, 0x2112, 0x2121, 0x2211, 0x3111, 0x11112,
            0x11121, 0x11211, 0x12111, 0x21111, 0x111111,
        ]
    } else if take == 7 {
        seq![
            0x7, 0x16, 0x25, 0x34, 0x43, 0x52, 0x61, 0x115, 0x124, 0x133, 0x142, 0x151, 0x214, 0x223, 0x232,
            0x241, 0x313, 0x322, 0x331, 0x412, 0x421, 0x511, 0x1114, 0x1123, 0x1132, 0x1141, 0x1213, 0x1222,
            0x1231, 0x1312, 0x1321, 0x1411, 0x2113, 0x2122, 0x2131, 0x2212, 0x2221, 0x2311, 0x3112, 0x3121,
            0x3211, 0x4111, 0x11113, 0x11122, 0x11131, 0x11212, 0x11221, 0x11311, 0x12112, 0x12121, 0x12211,
            0x13111, 0x21112, 0x21121, 0x21211, 0x22111, 0x31111, 0x111112, 0x111121, 0x111211, 0x112111,
            0x121111, 0x211111, 0x1111111,
        ]
    } else {
        seq![
            0x8, 0x17, 0x26, 0x35, 0x44, 0x53, 0x62, 0x71, 0x116, 0x125, 0x134, 0x143, 0x152, 0x161, 0x215,
            0x224, 0x233, 0x242, 0x251, 0x314, 0x323, 0x332, 0x341, 0x413, 0x422, 0x431, 0x512, 0x521, 0x611,
            0x1115, 0x1124, 0x1133, 0x1142, 0x1151, 0x1214, 0x1223, 0x1232, 0x1241, 0x1313, 0x1322, 0x1331,
            0x1412, 0x1421, 0x1511, 0x2114, 0x2123, 0x2132, 0x2141, 0x2213, 0x2222, 0x2231, 0x2312, 0x2321,
            0x2411, 0x3113, 0x3122, 0x3131, 0x3212, 0x3221, 0x3311, 0x4112, 0x4121, 0x4211, 0x5111, 0x11114,
            0x11123, 0x11132, 0x11141, 0x11213, 0x11222, 0x11231, 0x11312, 0x11321, 0x11411, 0x12113,
            0x12122, 0x12131, 0x12212, 0x12221, 0x12311, 0x13112, 0x13121, 0x13211, 0x14111, 0x21113,
            0x21122, 0x21131, 0x21212, 0x21221, 0x21311, 0x22112, 0x22121, 0x22211, 0x23111, 0x31112,
            0x31121, 0x31211, 0x32111, 0x41111, 0x111113, 0x111122, 0x111131, 0x111212, 0x111221, 0x111311,
            0x112112, 0x112121, 0x112211, 0x113111, 0x121112, 0x121121, 0x121211, 0x122111, 0x131111,
            0x211112, 0x211121, 0x211211, 0x212111, 0x221111, 0x311111, 0x1111112, 0x1111121, 0x1111211,
            0x1112111, 0x1121111, 0x1211111, 0x2111111, 0x11111111,
        ]
    }
}


/// The drops of taking `take` pieces, from one to eight.
pub fn spread_partitions(take: u64) -> (r: Vec<u64>)
    requires
        1 <= take <= 8,
    ensures
        r@ == spread_table(take),
{
    let r: Vec<u64> = if take == 1 {
        vec![
            0x1,
        ]
    } else if take == 2 {
        vec![
            0x2, 0x11,
        ]
    } else if take == 3 {
        vec![
            0x3, 0x12, 0x21, 0x111,
        ]
    } else if take == 4 {
        vec![
            0x4, 0x13, 0x22, 0x31, 0x112, 0x121, 0x211, 0x1111,
        ]
    } else if take == 5 {
        vec![
            0x5, 0x14, 0x23, 0x32, 0x41, 0x113, 0x122, 0x131, 0x212, 0x221, 0x311, 0x1112, 0x1121, 0x1211,
            0x2111, 0x11111,
        ]
    } else if take == 6 {
        vec![
            0x6, 0x15, 0x24, 0x33, 0x42, 0x51, 0x114, 0x123, 0x132, 0x141, 0x213, 0x222, 0x231, 0x312, 0x321,
            0x411, 0x1113, 0x1122, 0x1131, 0x1212, 0x1221, 0x1311, 0x2112, 0x2121, 0x2211, 0x3111, 0x11112,
            0x11121, 0x11211, 0x12111, 0x21111, 0x111111,
        ]
    } else if take == 7 {
        vec![
            0x7, 0x16, 0x25, 0x34, 0x43, 0x52, 0x61, 0x115, 0x124, 0x133, 0x142, 0x151, 0x214, 0x223, 0x232,
            0x241, 0x313, 0x322, 0x331, 0x412, 0x421, 0x511, 0x1114, 0x1123, 0x1132, 0x1141, 0x1213, 0x1222,
            0x1231, 0x1312, 0x1321, 0x1411, 0x2113, 0x2122, 0x2131, 0x2212, 0x2221, 0x2311, 0x3112, 0x3121,
            0x3211, 0x4111, 0x11113, 0x11122, 0x11131, 0x11212, 0x11221, 0x11311, 0x12112, 0x12121, 0x12211,
            0x13111, 0x21112, 0x21121, 0x21211, 0x22111, 0x31111, 0x111112, 0x111121, 0x111211, 0x112111,
            0x121111, 0x211111, 0x1111111,
        ]
    } else {
        vec![
            0x8, 0x17, 0x26, 0x35, 0x44, 0x53, 0x62, 0x71, 0x116, 0x125, 0x134, 0x143, 0x152, 0x161, 0x215,
            0x224, 0x233, 0x242, 0x251, 0x314, 0x323, 0x332, 0x341, 0x413, 0x422, 0x431, 0x512, 0x521, 0x611,
            0x1115, 0x1124, 0x1133, 0x1142, 0x1151, 0x1214, 0x1223, 0x1232, 0x1241, 0x1313, 0x1322, 0x1331,
            0x1412, 0x1421, 0x1511, 0x2114, 0x2123, 0x2132, 0x2141, 0x2213, 0x2222, 0x2231, 0x2312, 0x2321,
            0x2411, 0x3113, 0x3122, 0x3131, 0x3212, 0x3221, 0x3311, 0x4112, 0x4121, 0x4211, 0x5111, 0x11114,
            0x11123, 0x11132, 0x11141, 0x11213, 0x11222, 0x11231, 0x11312, 0x11321, 0x11411, 0x12113,
            0x12122, 0x12131, 0x12212, 0x12221, 0x12311, 0x13112, 0x13121, 0x13211, 0x14111, 0x21113,
            0x21122, 0x21131, 0x21212, 0x21221, 0x21311, 0x22112, 0x22121, 0x22211, 0x23111, 0x31112,
            0x31121, 0x31211, 0x32111, 0x41111, 0x111113, 0x111122, 0x111131, 0x111212, 0x111221, 0x111311,
            0x112112, 0x112121, 0x112211, 0x113111, 0x121112, 0x121121, 0x121211, 0x122111, 0x131111,
            0x211112, 0x211121, 0x211211, 0x212111, 0x221111, 0x311111, 0x1111112, 0x1111121, 0x1111211,
            0x1112111, 0x1121111, 0x1211111, 0x2111111, 0x11111111,
        ]
    };
    assert(r@ =~= spread_table(take));
    r
}


/// Four lists of moves: spreads that capture from a capstone, from a wall
/// and from a flat, and spreads that capture nothing (for placements: on
/// flats with a neighbour, capstones, walls, and placements with no
/// neighbour).
pub open spec fn none4() -> (Seq<Action>, Seq<Action>, Seq<Action>, Seq<Action>) {
    (Seq::empty(), Seq::empty(), Seq::empty(), Seq::empty())
}

/// Four lists of moves joined list by list.
pub open spec fn cat4(
    a: (Seq<Action>, Seq<Action>, Seq<Action>, Seq<Action>),
    b: (Seq<Action>, Seq<Action>, Seq<Action>, Seq<Action>),
) -> (Seq<Action>, Seq<Action>, Seq<Action>, Seq<Action>) {
    (a.0 + b.0, a.1 + b.1, a.2 + b.2, a.3 + b.3)
}

proof fn lemma_cat4_assoc(
    a: (Seq<Action>, Seq<Action>, Seq<Action>, Seq<Action>),
    b: (Seq<Action>, Seq<Action>, Seq<Action>, Seq<Action>),
    c: (Seq<Action>, Seq<Action>, Seq<Action>, Seq<Action>),
)
    ensures
        cat4(cat4(a, b), c) == cat4(a, cat4(b, c)),
        cat4(a, none4()) == a,
{
    assert(cat4(cat4(a, b), c).0 =~= cat4(a, cat4(b, c)).0);
    assert(cat4(cat4(a, b), c).1 =~= cat4(a, cat4(b, c)).1);
    assert(cat4(cat4(a, b), c).2 =~= cat4(a, cat4(b, c)).2);
    assert(cat4(cat4(a, b), c).3 =~= cat4(a, cat4(b, c)).3);
    assert(cat4(a, none4()).0 =~= a.0);
    assert(cat4(a, none4()).1 =~= a.1);
    assert(cat4(a, none4()).2 =~= a.2);
    assert(cat4(a, none4()).3 =~= a.3);
}

/// The number of four-bit drops in an encoded spread.
pub open spec fn nibble_len(x: u64) -> int {
    if x == 0 {
        0
    } else if x < 0x10 {
        1
    } else if x < 0x100 {
        2
    } else if x < 0x1000 {
        3
    } else if x < 0x1_0000 {
        4
    } else if x < 0x10_0000 {
        5
    } else if x < 0x100_0000 {
        6
    } else if x < 0x1000_0000 {
        7
    } else if x < 0x1_0000_0000 {
        8
    } else {
        9
    }
}

/// How many cells lie beyond `p` in direction `dir`.
pub open spec fn room(b: Board, p: int, dir: usize) -> int {
    let size = b.size as int;
    if dir == 0 {
        size - p % size - 1
    } else if dir == 1 {
        p % size
    } else if dir == 2 {
        size - p / size - 1
    } else {
        p / size
    }
}

/// The most pieces a stack at `p` may carry: its height, at most the size.
pub open spec fn take_limit(b: Board, p: int) -> int {
    if (b.size as int) < b.stack_heights@[p] {
        b.size as int
    } else {
        b.stack_heights@[p] as int
    }
}

/// The cell where the last drop of `part` lands.
pub open spec fn part_end(b: Board, p: int, dir: usize, part: u64) -> int {
    p + nibble_len(part) * delta(dir, b.size as int)
}

/// Whether the drops `part` fit on the board in direction `dir` and the
/// last drop is not blocked: no capstone there, and a wall only under a
/// capstone dropped alone.
pub open spec fn part_ok(b: Board, p: int, dir: usize, part: u64) -> bool {
    let len = nibble_len(part);
    let c = part_end(b, p, dir, part);
    &&& 1 <= len <= room(b, p, dir)
    &&& bit(b.occupied, c) ==> !bit(b.capstones, c) && (bit(b.walls, c) ==> bit(b.capstones, p) && (part >> (((
        len - 1) * 4) as u64)) & 0xFu64 == 1)
}

/// Whether the last drop of `part` lands on a stack of the other player.
pub open spec fn part_captures(b: Board, p: int, dir: usize, part: u64) -> bool {
    let c = part_end(b, p, dir, part);
    bit(b.occupied, c) && bit(b.owner, c) != bit(b.owner, p)
}

/// A spread filed under its list: once a spread in this direction has
/// captured, every later one counts as a capture of the moving piece.
pub open spec fn filed(a: Action, capture: bool, wall: bool, cap: bool) -> (
    Seq<Action>,
    Seq<Action>,
    Seq<Action>,
    Seq<Action>,
) {
    if !capture {
        (Seq::empty(), Seq::empty(), Seq::empty(), seq![a])
    } else if wall {
        (Seq::empty(), seq![a], Seq::empty(), Seq::empty())
    } else if cap {
        (seq![a], Seq::empty(), Seq::empty(), Seq::empty())
    } else {
        (Seq::empty(), Seq::empty(), seq![a], Seq::empty())
    }
}

/// The spreads of `take` pieces from `p` in direction `dir` among the first
/// `i` drops of the table, up to the first that does not fit; with the
/// capture flag and whether the scan stopped.
pub open spec fn parts_upto(b: Board, p: int, dir: usize, take: u64, i: int, flag: bool) -> (
    (Seq<Action>, Seq<Action>, Seq<Action>, Seq<Action>),
    bool,
    bool,
)
    decreases i,
{
    if i <= 0 {
        (none4(), flag, false)
    } else {
        let prev = parts_upto(b, p, dir, take, i - 1, flag);
        let part = spread_table(take)[i - 1];
        if prev.2 || !part_ok(b, p, dir, part) {
            (prev.0, prev.1, true)
        } else {
            let f = prev.1 || part_captures(b, p, dir, part);
            (
                cat4(prev.0, filed(Action::Spread(p as usize, dir, take, part), f, bit(b.walls, p), bit(b.capstones, p))),
                f,
                false,
            )
        }
    }
}

/// The spreads from `p` in direction `dir` taking 1 to `t` pieces (at most
/// `max_take`), with the capture flag.
pub open spec fn takes_upto(b: Board, p: int, dir: usize, t: int) -> (
    (Seq<Action>, Seq<Action>, Seq<Action>, Seq<Action>),
    bool,
)
    decreases t,
{
    if t <= 0 {
        (none4(), false)
    } else {
        let prev = takes_upto(b, p, dir, t - 1);
        if t > take_limit(b, p) || t > 8 {
            prev
        } else {
            let cur = parts_upto(b, p, dir, t as u64, spread_table(t as u64).len() as int, prev.1);
            (cat4(prev.0, cur.0), cur.1)
        }
    }
}

/// The spreads from `p` in the first `d` directions.
pub open spec fn dirs_upto(b: Board, p: int, d: int) -> (Seq<Action>, Seq<Action>, Seq<Action>, Seq<Action>)
    decreases d,
{
    if d <= 0 {
        none4()
    } else {
        cat4(
            dirs_upto(b, p, d - 1),
            if room(b, p, (d - 1) as usize) == 0 {
                none4()
            } else {
                takes_upto(b, p, (d - 1) as usize, take_limit(b, p)).0
            },
        )
    }
}

/// Whether the player to move controls the stack at `p`.
pub open spec fn mover_stack(b: Board, p: int) -> bool {
    bit(b.occupied, p) && bit(b.owner, p) == (b.current_player != 0)
}

/// The spreads from the first `k` cells.
pub open spec fn spreads_upto(b: Board, k: int) -> (Seq<Action>, Seq<Action>, Seq<Action>, Seq<Action>)
    decreases k,
{
    if k <= 0 {
        none4()
    } else {
        cat4(
            spreads_upto(b, k - 1),
            if mover_stack(b, k - 1) {
                dirs_upto(b, k - 1, 4)
            } else {
                none4()
            },
        )
    }
}

/// The cell next to `p` in direction `dir`, if any.
pub open spec fn offset(b: Board, p: int, dir: usize) -> Option<int> {
    let size = b.size as int;
    if dir == 0 && p % size < size - 1 {
        Some(p + 1)
    } else if dir == 1 && p % size > 0 {
        Some(p - 1)
    } else if dir == 2 && p / size < size - 1 {
        Some(p + size)
    } else if dir == 3 && p / size > 0 {
        Some(p - size)
    } else {
        None
    }
}

/// Whether the cell next to `p` in direction `dir` is occupied.
pub open spec fn occupied_next(b: Board, p: int, dir: usize) -> bool {
    match offset(b, p, dir) {
        Some(q) => bit(b.occupied, q),
        None => false,
    }
}

/// Whether a cell next to `p` is occupied.
pub open spec fn next_to_stack(b: Board, p: int) -> bool {
    exists|d: usize| d < 4 && #[trigger] occupied_next(b, p, d)
}

/// Whether the player to move has a stone left.
pub open spec fn stone_left(b: Board) -> bool {
    if b.current_player == 0 {
        b.white_pieces > 0
    } else {
        b.black_pieces > 0
    }
}

/// Whether the player to move has a capstone left.
pub open spec fn cap_left(b: Board) -> bool {
    if b.current_player == 0 {
        b.white_capstones > 0
    } else {
        b.black_capstones > 0
    }
}

/// The placements at cell `p`: flats next to a stack, capstones next to a
/// stack, walls next to a stack, and placements with no stack next to them
/// (flat, wall, capstone). Walls and capstones only from the third ply on.
pub open spec fn places_at(b: Board, p: int) -> (Seq<Action>, Seq<Action>, Seq<Action>, Seq<Action>) {
    if bit(b.occupied, p) {
        none4()
    } else {
        let nb = next_to_stack(b, p);
        let st = stone_left(b);
        let cp = cap_left(b);
        let late = b.ply_index >= 2;
        let f = Action::Place(p as usize, 0);
        let w = Action::Place(p as usize, 1);
        let c = Action::Place(p as usize, 2);
        (
            if st && nb { seq![f] } else { Seq::empty() },
            if cp && late && nb { seq![c] } else { Seq::empty() },
            if st && late && nb { seq![w] } else { Seq::empty() },
            (if st && !nb { seq![f] } else { Seq::empty() }) + (if st && late && !nb { seq![w] } else { Seq::empty() })
                + (if cp && late && !nb { seq![c] } else { Seq::empty() }),
        )
    }
}

/// The placements at the first `k` cells.
pub open spec fn places_upto(b: Board, k: int) -> (Seq<Action>, Seq<Action>, Seq<Action>, Seq<Action>)
    decreases k,
{
    if k <= 0 {
        none4()
    } else {
        cat4(places_upto(b, k - 1), places_at(b, k - 1))
    }
}

/// The moves of the player to move, in the order the search tries them:
/// flats next to a stack, capstones, walls, captures by a capstone, by a
/// wall and by a flat, lone placements, and the other spreads. None once
/// the game is decided; spreads only from the third ply on.
pub open spec fn all_moves(b: Board) -> Seq<Action> {
    let n = b.size * b.size;
    let pl = places_upto(b, n);
    let sp = if b.ply_index >= 2 {
        spreads_upto(b, n)
    } else {
        none4()
    };
    if b.result is Some {
        Seq::empty()
    } else {
        pl.0 + pl.1 + pl.2 + sp.0 + sp.1 + sp.2 + pl.3 + sp.3
    }
}


/// Once the scan of a table stops, later drops change nothing.
proof fn lemma_parts_stopped(b: Board, p: int, dir: usize, take: u64, i: int, m: int, flag: bool)
    requires
        0 <= i <= m,
        parts_upto(b, p, dir, take, i, flag).2,
    ensures
        parts_upto(b, p, dir, take, m, flag) == parts_upto(b, p, dir, take, i, flag),
    decreases m - i,
{
    if i < m {
        lemma_parts_stopped(b, p, dir, take, i, m - 1, flag);
    }
}

/// Lists of moves being gathered.
struct Bins {
    first: Vec<Action>,
    second: Vec<Action>,
    third: Vec<Action>,
    fourth: Vec<Action>,
}

/// The four lists gathered.
spec fn bins_view(x: Bins) -> (Seq<Action>, Seq<Action>, Seq<Action>, Seq<Action>) {
    (x.first@, x.second@, x.third@, x.fourth@)
}

impl Bins {
    fn new() -> (r: Bins)
        ensures
            bins_view(r) == none4(),
    {
        Bins { first: Vec::new(), second: Vec::new(), third: Vec::new(), fourth: Vec::new() }
    }

    /// Files a spread under its list.
    fn file(&mut self, a: Action, capture: bool, wall: bool, cap: bool)
        ensures
            bins_view(*final(self)) == cat4(bins_view(*old(self)), filed(a, capture, wall, cap)),
    {
        if !capture {
            self.fourth.push(a);
        } else if wall {
            self.second.push(a);
        } else if cap {
            self.first.push(a);
        } else {
            self.third.push(a);
        }
        let ghost v = bins_view(*final(self));
        assert(v.0 =~= cat4(bins_view(*old(self)), filed(a, capture, wall, cap)).0);
        assert(v.1 =~= cat4(bins_view(*old(self)), filed(a, capture, wall, cap)).1);
        assert(v.2 =~= cat4(bins_view(*old(self)), filed(a, capture, wall, cap)).2);
        assert(v.3 =~= cat4(bins_view(*old(self)), filed(a, capture, wall, cap)).3);
    }
}

/// The number of four-bit drops in an encoded spread.
fn nibble_length(x: u64) -> (r: u64)
    ensures
        r == nibble_len(x),
{
    if x == 0 {
        0
    } else if x < 0x10 {
        1
    } else if x < 0x100 {
        2
    } else if x < 0x1000 {
        3
    } else if x < 0x1_0000 {
        4
    } else if x < 0x10_0000 {
        5
    } else if x < 0x100_0000 {
        6
    } else if x < 0x1000_0000 {
        7
    } else if x < 0x1_0000_0000 {
        8
    } else {
        9
    }
}

/// A cell `len` steps away within the room on the board is on the board.
proof fn lemma_end_on_board(p: int, size: int, dir: usize, len: int)
    requires
        3 <= size <= 8,
        0 <= p < size * size,
        dir < 4,
        0 <= len,
        len <= (if dir == 0 {
            size - p % size - 1
        } else if dir == 1 {
            p % size
        } else if dir == 2 {
            size - p / size - 1
        } else {
            p / size
        }),
    ensures
        0 <= p + len * delta(dir, size) < size * size,
        dir == 2 ==> len * size <= 64,
        dir == 3 ==> len * size <= p,
        len * delta(dir, size) == (if dir == 0 {
            len
        } else if dir == 1 {
            -len
        } else if dir == 2 {
            len * size
        } else {
            -(len * size)
        }),
{
    let x = p % size;
    let y = p / size;
    assert(p == y * size + x && 0 <= x < size && 0 <= y < size) by (nonlinear_arith)
        requires
            3 <= size,
            0 <= p < size * size,
            x == p % size,
            y == p / size,
    ;
    assert(y * size >= 0) by (nonlinear_arith)
        requires
            y >= 0,
            size >= 0,
    ;
    assert(y * size + size <= size * size) by (nonlinear_arith)
        requires
            0 <= y < size,
    ;
    if dir == 0 {
        assert(delta(dir, size) == 1);
        assert(len * 1 == len);
    } else if dir == 1 {
        assert(delta(dir, size) == -1);
        assert(len * (-1) == -len);
    } else if dir == 2 {
        assert(delta(dir, size) == size);
        assert((y + len) * size == y * size + len * size) by (nonlinear_arith);
        assert((y + len) * size <= size * size - size) by (nonlinear_arith)
            requires
                y + len <= size - 1,
                size >= 0,
        ;
        assert(len * size <= 64) by (nonlinear_arith)
            requires
                0 <= len <= 7,
                0 <= size <= 8,
        ;
    } else {
        assert(len * delta(dir, size) == -(len * size)) by (nonlinear_arith)
            requires
                delta(dir, size) == -size,
        ;
        assert((y - len) * size == y * size - len * size) by (nonlinear_arith);
        assert((y - len) * size >= 0) by (nonlinear_arith)
            requires
                len <= y,
                size >= 0,
        ;
    }
}

impl Board {
    /// The cell next to `pos` in direction `dir`, if any.
    pub fn offset_by_dir(&self, pos: usize, dir: usize) -> (r: Option<usize>)
        requires
            shape_ok(*self),
            pos < self.size * self.size,
        ensures
            offset(*self, pos as int, dir) is None ==> r is None,
            offset(*self, pos as int, dir) matches Some(q) ==> r == Some(q as usize) && 0 <= q < self.size * self.size,
    {
        let size = self.size;
        proof {
            assert(size * size <= 64) by (nonlinear_arith)
                requires
                    3 <= size <= 8,
            ;
            assert(pos % size > 0 ==> pos >= 1) by (nonlinear_arith)
                requires
                    size >= 1,
            ;
            assert(pos / size > 0 ==> pos >= size) by (nonlinear_arith)
                requires
                    size >= 1,
            ;
            assert(pos / size < size - 1 ==> pos + size < size * size) by (nonlinear_arith)
                requires
                    size >= 1,
                    pos < size * size,
            ;
            assert(pos % size < size - 1 ==> pos + 1 < size * size) by (nonlinear_arith)
                requires
                    size >= 1,
                    pos < size * size,
            ;
        }
        if dir == Self::DIR_RIGHT && pos % size < size - 1 {
            Some(pos + 1)
        } else if dir == Self::DIR_LEFT && pos % size > 0 {
            Some(pos - 1)
        } else if dir == Self::DIR_DOWN && pos / size < size - 1 {
            Some(pos + size)
        } else if dir == Self::DIR_UP && pos / size > 0 {
            Some(pos - size)
        } else {
            None
        }
    }
}

/// Whether the drops `partition` (of `len` drops, within the room) are not
/// blocked at their last cell, and whether they capture there.
fn check_part(game: &Board, pos: usize, dir: usize, partition: u64, len: u64) -> (r: (bool, bool))
    requires
        shape_ok(*game),
        pos < game.size * game.size,
        dir < 4,
        len == nibble_len(partition),
        1 <= len <= room(*game, pos as int, dir),
    ensures
        r.0 == part_ok(*game, pos as int, dir, partition),
        r.0 ==> r.1 == part_captures(*game, pos as int, dir, partition),
{
    let ghost b = *game;
    let size = game.size;
    proof {
        lemma_end_on_board(pos as int, size as int, dir, len as int);
        assert(size * size <= 64) by (nonlinear_arith)
            requires
                3 <= size <= 8,
        ;
    }
    let cur_pos: usize = if dir == Board::DIR_RIGHT {
        pos + len as usize
    } else if dir == Board::DIR_LEFT {
        pos - len as usize
    } else if dir == Board::DIR_DOWN {
        pos + len as usize * size
    } else {
        pos - len as usize * size
    };
    assert(cur_pos == part_end(b, pos as int, dir, partition));
    let cur_pos_mask = 1u64 << (cur_pos as u64);
    let pos_mask = 1u64 << (pos as u64);
    proof {
        lemma_bits(b.occupied, cur_pos as u64, cur_pos as u64);
        lemma_bits(b.capstones, cur_pos as u64, cur_pos as u64);
        lemma_bits(b.walls, cur_pos as u64, cur_pos as u64);
        lemma_bits(b.owner, cur_pos as u64, cur_pos as u64);
        lemma_bits(b.capstones, pos as u64, pos as u64);
        lemma_bits(b.owner, pos as u64, pos as u64);
    }
    if game.occupied & cur_pos_mask != 0 {
        if game.capstones & cur_pos_mask != 0 {
            return (false, false);
        }
        if game.walls & cur_pos_mask != 0 {
            if game.capstones & pos_mask == 0 || (partition >> ((len - 1) * 4)) & 0xF != 1 {
                return (false, false);
            }
        }
        if (game.owner & cur_pos_mask == 0) != (game.owner & pos_mask == 0) {
            return (true, true);
        }
    }
    (true, false)
}

/// Files the spreads of `take` pieces from `pos` in direction `dir`, in the
/// order of the table, up to the first that does not fit.
fn add_parts(game: &Board, pos: usize, dir: usize, take: u64, flag: bool, bins: &mut Bins) -> (f: bool)
    requires
        shape_ok(*game),
        pos < game.size * game.size,
        dir < 4,
        1 <= take <= 8,
    ensures
        bins_view(*final(bins)) == cat4(
            bins_view(*old(bins)),
            parts_upto(*game, pos as int, dir, take, spread_table(take).len() as int, flag).0,
        ),
        f == parts_upto(*game, pos as int, dir, take, spread_table(take).len() as int, flag).1,
{
    let ghost b = *game;
    let ghost old_view = bins_view(*bins);
    let size = game.size;
    let tbl = spread_partitions(take);
    proof {
        assert(size * size <= 64) by (nonlinear_arith)
            requires
                3 <= size <= 8,
        ;
        assert(pos / size < size) by (nonlinear_arith)
            requires
                3 <= size,
                pos < size * size,
        ;
    }
    let pos_mask = 1u64 << (pos as u64);
    proof {
        lemma_bits(b.walls, pos as u64, pos as u64);
        lemma_bits(b.capstones, pos as u64, pos as u64);
        lemma_bits(b.owner, pos as u64, pos as u64);
        lemma_cat4_assoc(old_view, none4(), none4());
    }
    let is_wall = game.walls & pos_mask != 0;
    let is_capstone = game.capstones & pos_mask != 0;
    let max_len: usize = if dir == Board::DIR_RIGHT {
        size - (pos % size) - 1
    } else if dir == Board::DIR_LEFT {
        pos % size
    } else if dir == Board::DIR_DOWN {
        size - (pos / size) - 1
    } else {
        pos / size
    };
    let mut is_opp_capture = flag;
    let mut i: usize = 0;
    while i < tbl.len()
        invariant
            shape_ok(b),
            *game == b,
            size == b.size,
            size * size <= 64,
            pos < size * size,
            dir < 4,
            1 <= take <= 8,
            tbl@ == spread_table(take),
            i <= tbl@.len(),
            max_len == room(b, pos as int, dir),
            is_wall == bit(b.walls, pos as int),
            is_capstone == bit(b.capstones, pos as int),
            bins_view(*bins) == cat4(old_view, parts_upto(b, pos as int, dir, take, i as int, flag).0),
            is_opp_capture == parts_upto(b, pos as int, dir, take, i as int, flag).1,
            !parts_upto(b, pos as int, dir, take, i as int, flag).2,
        ensures
            bins_view(*bins) == cat4(
                old_view,
                parts_upto(b, pos as int, dir, take, spread_table(take).len() as int, flag).0,
            ),
            is_opp_capture == parts_upto(b, pos as int, dir, take, spread_table(take).len() as int, flag).1,
        decreases tbl@.len() - i,
    {
        let partition = tbl[i];
        let len = nibble_length(partition);
        let ghost prev = parts_upto(b, pos as int, dir, take, i as int, flag);
        if len == 0 || len as usize > max_len {
            proof {
                lemma_parts_stopped(b, pos as int, dir, take, i + 1, tbl@.len() as int, flag);
            }
            break;
        }
        let (fits, captures) = check_part(game, pos, dir, partition, len);
        if !fits {
            proof {
                lemma_parts_stopped(b, pos as int, dir, take, i + 1, tbl@.len() as int, flag);
            }
            break;
        }
        if captures {
            is_opp_capture = true;
        }
        let action = Action::Spread(pos, dir, take, partition);
        proof {
            lemma_cat4_assoc(old_view, prev.0, filed(action, is_opp_capture, is_wall, is_capstone));
        }
        bins.file(action, is_opp_capture, is_wall, is_capstone);
        i = i + 1;
    }
    is_opp_capture
}

/// Files every spread from `pos` in direction `dir`.
fn add_takes(game: &Board, pos: usize, dir: usize, bins: &mut Bins)
    requires
        shape_ok(*game),
        pos < game.size * game.size,
        dir < 4,
    ensures
        bins_view(*final(bins)) == cat4(bins_view(*old(bins)), takes_upto(*game, pos as int, dir, take_limit(*game, pos as int)).0),
{
    let ghost b = *game;
    let ghost old_view = bins_view(*bins);
    let size = game.size as u64;
    let h = game.stack_heights[pos];
    let max_take = if size < h {
        size
    } else {
        h
    };
    let mut is_opp_capture = false;
    let mut take: u64 = 1;
    proof {
        lemma_cat4_assoc(old_view, none4(), none4());
    }
    while take <= max_take
        invariant
            shape_ok(b),
            *game == b,
            pos < b.size * b.size,
            dir < 4,
            max_take == take_limit(b, pos as int),
            max_take <= 8,
            1 <= take <= max_take + 1,
            bins_view(*bins) == cat4(old_view, takes_upto(b, pos as int, dir, take - 1).0),
            is_opp_capture == takes_upto(b, pos as int, dir, take - 1).1,
        decreases max_take + 1 - take,
    {
        let ghost before = bins_view(*bins);
        is_opp_capture = add_parts(game, pos, dir, take, is_opp_capture, bins);
        proof {
            let prev = takes_upto(b, pos as int, dir, take - 1);
            let cur = parts_upto(b, pos as int, dir, take, spread_table(take).len() as int, prev.1);
            lemma_cat4_assoc(old_view, prev.0, cur.0);
        }
        take = take + 1;
    }
    proof {
        let mt = take_limit(b, pos as int);
        assert(takes_upto(b, pos as int, dir, take - 1) == takes_upto(b, pos as int, dir, mt));
    }
}

/// Files every spread from `pos`.
fn add_dirs(game: &Board, pos: usize, bins: &mut Bins)
    requires
        shape_ok(*game),
        pos < game.size * game.size,
    ensures
        bins_view(*final(bins)) == cat4(bins_view(*old(bins)), dirs_upto(*game, pos as int, 4)),
{
    let ghost b = *game;
    let ghost old_view = bins_view(*bins);
    let size = game.size;
    proof {
        lemma_cat4_assoc(old_view, none4(), none4());
        assert(pos / size < size) by (nonlinear_arith)
            requires
                3 <= size,
                pos < size * size,
        ;
    }
    let mut dir: usize = 0;
    while dir < 4
        invariant
            shape_ok(b),
            *game == b,
            size == b.size,
            pos < b.size * b.size,
            pos / size < size,
            dir <= 4,
            bins_view(*bins) == cat4(old_view, dirs_upto(b, pos as int, dir as int)),
        decreases 4 - dir,
    {
        let max_len: usize = if dir == Board::DIR_RIGHT {
            size - (pos % size) - 1
        } else if dir == Board::DIR_LEFT {
            pos % size
        } else if dir == Board::DIR_DOWN {
            size - (pos / size) - 1
        } else {
            pos / size
        };
        let ghost here = if room(b, pos as int, dir) == 0 {
            none4()
        } else {
            takes_upto(b, pos as int, dir, take_limit(b, pos as int)).0
        };
        if max_len != 0 {
            add_takes(game, pos, dir, bins);
        }
        proof {
            lemma_cat4_assoc(old_view, dirs_upto(b, pos as int, dir as int), here);
            lemma_cat4_assoc(old_view, dirs_upto(b, pos as int, dir as int), none4());
        }
        dir = dir + 1;
    }
}

/// Every move of the player to move, in the order the search tries them.
pub fn gen_moves(game: &Board) -> (r: Vec<Action>)
    requires
        shape_ok(*game),
    ensures
        r@ == all_moves(*game),
{
    if game.result.is_some() {
        return Vec::new();
    }
    let ghost b = *game;
    let size = game.size;
    proof {
        assert(size * size <= 64) by (nonlinear_arith)
            requires
                3 <= size <= 8,
        ;
    }
    let n = size * size;
    let has_stone = if game.current_player == Board::PLAYER_WHITE {
        game.white_pieces > 0
    } else {
        game.black_pieces > 0
    };
    let has_capstone = if game.current_player == Board::PLAYER_WHITE {
        game.white_capstones > 0
    } else {
        game.black_capstones > 0
    };
    let mut places = Bins::new();
    let mut pos: usize = 0;
    while pos < n
        invariant
            shape_ok(b),
            *game == b,
            n == b.size * b.size,
            n <= 64,
            pos <= n,
            has_stone == stone_left(b),
            has_capstone == cap_left(b),
            bins_view(places) == places_upto(b, pos as int),
        decreases n - pos,
    {
        let ghost before = bins_view(places);
        let pos_mask = 1u64 << (pos as u64);
        proof {
            lemma_bits(b.occupied, pos as u64, pos as u64);
        }
        if game.occupied & pos_mask == 0 {
            let mut has_neighbor = false;
            let mut dir: usize = 0;
            while dir < 4
                invariant
                    shape_ok(b),
                    *game == b,
                    pos < b.size * b.size,
                    n == b.size * b.size,
                    n <= 64,
                    dir <= 4,
                    has_neighbor ==> next_to_stack(b, pos as int),
                    !has_neighbor ==> forall|d: usize| d < dir ==> !#[trigger] occupied_next(b, pos as int, d),
                ensures
                    has_neighbor == next_to_stack(b, pos as int),
                decreases 4 - dir,
            {
                if let Some(neighbor_pos) = game.offset_by_dir(pos, dir) {
                    let neighbor_mask = 1u64 << (neighbor_pos as u64);
                    proof {
                        assert(n <= 64);
                        lemma_bits(b.occupied, neighbor_pos as u64, neighbor_pos as u64);
                    }
                    if game.occupied & neighbor_mask != 0 {
                        has_neighbor = true;
                        assert(occupied_next(b, pos as int, dir));
                        break;
                    }
                }
                dir = dir + 1;
            }
            if has_stone {
                if has_neighbor {
                    places.first.push(Action::Place(pos, Board::VARIANT_FLAT));
                } else {
                    places.fourth.push(Action::Place(pos, Board::VARIANT_FLAT));
                }
            }
            if has_stone && game.ply_index >= 2 {
                if has_neighbor {
                    places.third.push(Action::Place(pos, Board::VARIANT_WALL));
                } else {
                    places.fourth.push(Action::Place(pos, Board::VARIANT_WALL));
                }
            }
            if has_capstone && game.ply_index >= 2 {
                if has_neighbor {
                    places.second.push(Action::Place(pos, Board::VARIANT_CAPSTONE));
                } else {
                    places.fourth.push(Action::Place(pos, Board::VARIANT_CAPSTONE));
                }
            }
        }
        proof {
            let v = bins_view(places);
            let w = cat4(before, places_at(b, pos as int));
            assert(v.0 =~= w.0);
            assert(v.1 =~= w.1);
            assert(v.2 =~= w.2);
            assert(v.3 =~= w.3);
        }
        pos = pos + 1;
    }
    let mut spreads = Bins::new();
    if game.ply_index >= 2 {
        let mut pos: usize = 0;
        while pos < n
            invariant
                shape_ok(b),
                *game == b,
                n == b.size * b.size,
                n <= 64,
                pos <= n,
                bins_view(spreads) == spreads_upto(b, pos as int),
            decreases n - pos,
        {
            let pos_mask = 1u64 << (pos as u64);
            proof {
                lemma_bits(b.occupied, pos as u64, pos as u64);
                lemma_bits(b.owner, pos as u64, pos as u64);
                lemma_cat4_assoc(spreads_upto(b, pos as int), none4(), none4());
            }
            if game.occupied & pos_mask != 0 && (game.owner & pos_mask == 0) == (game.current_player
                == Board::PLAYER_WHITE) {
                add_dirs(game, pos, &mut spreads);
            }
            pos = pos + 1;
        }
    }
    let mut result = places.first;
    result.append(&mut places.second);
    result.append(&mut places.third);
    result.append(&mut spreads.first);
    result.append(&mut spreads.second);
    result.append(&mut spreads.third);
    result.append(&mut places.fourth);
    result.append(&mut spreads.fourth);
    result
}


/// The drops of an encoded spread from drop `i` on: four bits each, lowest
/// first, up to the highest drop that is not empty.
pub open spec fn decoded(x: u64, i: int) -> Seq<usize>
    decreases 16 - i,
{
    if i >= 16 || i < 0 || (x >> ((4 * i) as u64)) == 0 {
        Seq::empty()
    } else {
        seq![((x >> ((4 * i) as u64)) & 0xFu64) as usize] + decoded(x, i + 1)
    }
}

/// The drops of an encoded spread.
pub fn decode_spread_vec(encoded: u64) -> (r: Vec<usize>)
    ensures
        r@ == decoded(encoded, 0),
{
    let mut res: Vec<usize> = Vec::new();
    let mut rest = encoded;
    let ghost mut i: int = 0;
    assert(encoded >> 0u64 == encoded) by (bit_vector);
    while rest > 0
        invariant
            0 <= i <= 16,
            i < 16 ==> rest == encoded >> ((4 * i) as u64),
            i == 16 ==> rest == 0,
            res@ + decoded(encoded, i) == decoded(encoded, 0),
        decreases 16 - i,
    {
        let ghost before = res@;
        let d = (rest & 0xF) as usize;
        res.push(d);
        proof {
            assert(before + decoded(encoded, i) =~= res@ + decoded(encoded, i + 1));
            if i < 15 {
                crate::takumi_spread::lemma_shift_twice(encoded, (4 * i) as u64, 4);
            } else {
                assert((encoded >> 60u64) >> 4u64 == 0) by (bit_vector);
            }
        }
        rest = rest >> 4;
        proof {
            i = i + 1;
        }
    }
    assert(decoded(encoded, i) == Seq::<usize>::empty());
    assert(res@ + decoded(encoded, i) =~= res@);
    res
}

/// The encoding of the first `k` drops: drop `i` or-ed in at bit `4 * i`.
pub open spec fn encoded(s: Seq<usize>, k: int) -> u64
    decreases k,
{
    if k <= 0 {
        0
    } else {
        encoded(s, k - 1) | ((s[k - 1] as u64) << ((4 * (k - 1)) as u64))
    }
}

/// The drops of a spread packed four bits a drop, the first lowest.
pub fn encode_spread_vec(spread_vec: Vec<usize>) -> (r: u64)
    requires
        spread_vec@.len() <= 16,
    ensures
        r == encoded(spread_vec@, spread_vec@.len() as int),
{
    let mut res = 0u64;
    for i in 0..spread_vec.len()
        invariant
            spread_vec@.len() <= 16,
            res == encoded(spread_vec@, i as int),
    {
        res = res | ((spread_vec[i] as u64) << ((i * 4) as u64));
        assert(((i * 4) as u64) == ((4 * i) as u64));
    }
    res
}

/// Or-ing a nibble in at bit `sk` leaves the nibbles below it.
proof fn lemma_nibble_kept(a: u64, v: u64, sj: u64, sk: u64)
    requires
        sj + 4 <= sk,
        sk <= 60,
        v < 16,
    ensures
        ((a | (v << sk)) >> sj) & 15u64 == (a >> sj) & 15u64,
{
    assert(((a | (v << sk)) >> sj) & 15u64 == (a >> sj) & 15u64) by (bit_vector)
        requires
            sj + 4 <= sk,
            sk <= 60,
            v < 16,
    ;
}

/// A nibble or-ed in above every set bit reads back, with nothing above it.
proof fn lemma_nibble_top(a: u64, v: u64, sk: u64)
    requires
        sk <= 60,
        v < 16,
        a >> sk == 0,
    ensures
        ((a | (v << sk)) >> sk) & 15u64 == v,
        sk + 4 < 64 ==> (a | (v << sk)) >> ((sk + 4) as u64) == 0,
{
    assert(((a | (v << sk)) >> sk) & 15u64 == v) by (bit_vector)
        requires
            sk <= 60,
            v < 16,
            a >> sk == 0,
    ;
    assert(sk + 4 < 64 ==> (a | (v << sk)) >> ((sk + 4) as u64) == 0) by (bit_vector)
        requires
            sk <= 60,
            v < 16,
            a >> sk == 0,
    ;
}

/// The nibbles of an encoding are the drops, with nothing above them.
proof fn lemma_encoded_nibbles(s: Seq<usize>, k: int)
    requires
        0 <= k <= s.len() <= 16,
        forall|i: int| 0 <= i < s.len() ==> 1 <= #[trigger] s[i] <= 15,
    ensures
        k < 16 ==> encoded(s, k) >> ((4 * k) as u64) == 0,
        forall|j: int| 0 <= j < k ==> (#[trigger] encoded(s, k) >> ((4 * j) as u64)) & 15u64 == s[j],
    decreases k,
{
    if k == 0 {
        assert(0u64 >> 0u64 == 0) by (bit_vector);
    } else {
        lemma_encoded_nibbles(s, k - 1);
        let a = encoded(s, k - 1);
        let v = s[k - 1] as u64;
        let sk = (4 * (k - 1)) as u64;
        lemma_nibble_top(a, v, sk);
        assert forall|j: int| 0 <= j < k implies (#[trigger] encoded(s, k) >> ((4 * j) as u64)) & 15u64 == s[j] by {
            if j < k - 1 {
                lemma_nibble_kept(a, v, (4 * j) as u64, sk);
            }
        }
    }
}

/// Decoding from drop `i` gives the drops from `i` on.
proof fn lemma_decoded_from(s: Seq<usize>, i: int)
    requires
        0 <= i <= s.len() <= 16,
        forall|j: int| 0 <= j < s.len() ==> 1 <= #[trigger] s[j] <= 15,
    ensures
        decoded(encoded(s, s.len() as int), i) == s.subrange(i, s.len() as int),
    decreases s.len() - i,
{
    let n = s.len() as int;
    let x = encoded(s, n);
    lemma_encoded_nibbles(s, n);
    if i == n {
        assert(s.subrange(i, n) =~= Seq::<usize>::empty());
    } else {
        lemma_decoded_from(s, i + 1);
        let sh = (4 * i) as u64;
        assert((x >> sh) & 15u64 == s[i]);
        assert(x >> sh != 0) by {
            let y = x >> sh;
            assert(y & 15u64 != 0 ==> y != 0) by (bit_vector);
        }
        assert(s.subrange(i, n) =~= seq![s[i]] + s.subrange(i + 1, n));
    }
}

/// Packing drops of 1 to 15, at most 16 of them, and unpacking them gives
/// the drops back.
pub proof fn law_encode_decode(s: Seq<usize>)
    requires
        s.len() <= 16,
        forall|i: int| 0 <= i < s.len() ==> 1 <= #[trigger] s[i] <= 15,
    ensures
        decoded(encoded(s, s.len() as int), 0) == s,
{
    lemma_decoded_from(s, 0);
    assert(s.subrange(0, s.len() as int) =~= s);
}

/// Whether the values never decrease.
pub open spec fn ascending(s: Seq<u64>) -> bool {
    forall|i: int, j: int| 0 <= i < j < s.len() ==> s[i] <= s[j]
}

/// The values in increasing order.
fn sort_ascending(v: &Vec<u64>) -> (r: Vec<u64>)
    ensures
        ascending(r@),
        r@.to_multiset() == v@.to_multiset(),
{
    let mut r: Vec<u64> = Vec::new();
    assert(v@.take(0) =~= r@);
    for i in 0..v.len()
        invariant
            ascending(r@),
            r@.to_multiset() == v@.take(i as int).to_multiset(),
    {
        let x = v[i];
        let mut pos: usize = 0;
        while pos < r.len() && r[pos] <= x
            invariant
                pos <= r@.len(),
                forall|k: int| 0 <= k < pos ==> r@[k] <= x,
            decreases r@.len() - pos,
        {
            pos = pos + 1;
        }
        let ghost old_r = r@;
        r.insert(pos, x);
        proof {
            assert forall|a: int, b: int| 0 <= a < b < r@.len() implies r@[a] <= r@[b] by {
                if b < pos {
                } else if b == pos {
                } else if a < pos {
                    assert(r@[b] == old_r[b - 1]);
                    assert(old_r[a] <= old_r[b - 1]);
                } else if a == pos {
                    assert(r@[b] == old_r[b - 1]);
                    assert(pos < old_r.len() && old_r[pos as int] > x);
                    assert(old_r[pos as int] <= old_r[b - 1] || b - 1 == pos);
                } else {
                    assert(r@[a] == old_r[a - 1] && r@[b] == old_r[b - 1]);
                }
            }
            vstd::seq_lib::to_multiset_insert(old_r, pos as int, x);
            assert(v@.take(i + 1) =~= v@.take(i as int).push(x));
            vstd::seq_lib::to_multiset_build(v@.take(i as int), x);
        }
    }
    assert(v@.take(v@.len() as int) =~= v@);
    r
}

/// The encodings of the partitions, in the order listed.
pub open spec fn encodings(ps: Seq<Seq<usize>>) -> Seq<u64> {
    ps.map_values(|p: Seq<usize>| encoded(p, p.len() as int))
}

/// Whether the first `upto` entries of `row` hold, for `take` pieces and
/// each count of drops, the encodings of the ways to drop them, smallest
/// first.
pub open spec fn memo_row_ok(row: Seq<Vec<u64>>, take: int, upto: int) -> bool {
    forall|l: int|
        0 <= l < upto ==> ascending(#[trigger] row[l]@) && row[l]@.to_multiset() == encodings(
            crate::movegen::partitions(take as nat, l as nat),
        ).to_multiset()
}

/// Whether the first `upto` rows of the table are complete.
pub open spec fn memo_ok(memo: Seq<Vec<Vec<u64>>>, upto: int) -> bool {
    forall|t: int| 0 <= t < upto ==> #[trigger] memo[t]@.len() == t + 1 && memo_row_ok(memo[t]@, t, t + 1)
}

/// For each take up to `max_take` and each count of drops up to the take,
/// the encodings of the ways to drop the take in that many drops, smallest
/// first.
pub fn compute_partition_memo(max_take: usize) -> (r: Vec<Vec<Vec<u64>>>)
    requires
        max_take <= 16,
    ensures
        r@.len() == max_take + 1,
        memo_ok(r@, max_take + 1),
{
    let mut memo: Vec<Vec<Vec<u64>>> = Vec::new();
    let mut take: usize = 0;
    while take <= max_take
        invariant
            max_take <= 16,
            take <= max_take + 1,
            memo@.len() == take,
            memo_ok(memo@, take as int),
        decreases max_take + 1 - take,
    {
        let mut row: Vec<Vec<u64>> = Vec::new();
        let mut drop_len: usize = 0;
        while drop_len <= take
            invariant
                take <= 16,
                drop_len <= take + 1,
                row@.len() == drop_len,
                memo_row_ok(row@, take as int, drop_len as int),
            decreases take + 1 - drop_len,
        {
            let parts = crate::movegen::partition_number(take, drop_len);
            let ghost ps = crate::movegen::partitions(take as nat, drop_len as nat);
            assert(crate::movegen::nested_view(parts@) == ps);
            let mut enc: Vec<u64> = Vec::new();
            assert(enc@ =~= encodings(ps.take(0)));
            assert(parts@.len() == crate::movegen::nested_view(parts@).len());
            let mut k: usize = 0;
            while k < parts.len()
                invariant
                    take <= 16,
                    drop_len <= take,
                    ps == crate::movegen::partitions(take as nat, drop_len as nat),
                    crate::movegen::nested_view(parts@) == ps,
                    parts@.len() == ps.len(),
                    k <= parts@.len(),
                    enc@ == encodings(ps.take(k as int)),
                decreases parts@.len() - k,
            {
                proof {
                    assert(parts@[k as int]@ == ps[k as int]);
                    crate::movegen::law_partitions_sound(take as nat, drop_len as nat, k as int);
                }
                let src = &parts[k];
                let mut p: Vec<usize> = Vec::new();
                for m in 0..src.len()
                    invariant
                        p@ == src@.take(m as int),
                {
                    p.push(src[m]);
                    assert(p@ =~= src@.take(m + 1));
                }
                assert(src@.take(src@.len() as int) =~= src@);
                assert(p@ =~= ps[k as int]);
                let e = encode_spread_vec(p);
                enc.push(e);
                assert(ps.take(k + 1) =~= ps.take(k as int).push(ps[k as int]));
                assert(enc@ =~= encodings(ps.take(k + 1)));
                k = k + 1;
            }
            assert(ps.take(parts@.len() as int) =~= ps);
            let sorted = sort_ascending(&enc);
            let ghost row0 = row@;
            row.push(sorted);
            proof {
                assert forall|l: int| 0 <= l < drop_len + 1 implies ascending(#[trigger] row@[l]@) && row@[l]@.to_multiset()
                    == encodings(crate::movegen::partitions(take as nat, l as nat)).to_multiset() by {
                    if l < drop_len {
                        assert(row@[l] == row0[l]);
                    }
                }
            }
            drop_len = drop_len + 1;
        }
        let ghost memo0 = memo@;
        memo.push(row);
        proof {
            assert forall|t: int| 0 <= t < take + 1 implies #[trigger] memo@[t]@.len() == t + 1 && memo_row_ok(
                memo@[t]@,
                t,
                t + 1,
            ) by {
                if t < take {
                    assert(memo@[t] == memo0[t]);
                } else {
                    assert(memo@[t] == row);
                }
            }
        }
        take = take + 1;
    }
    memo
}

/// Boards with the same contents give the same placements up to cell `k`.
proof fn lemma_same_places(a: Board, b: Board, k: int)
    requires
        same_board(a, b),
    ensures
        places_upto(a, k) == places_upto(b, k),
    decreases k,
{
    if k > 0 {
        lemma_same_places(a, b, k - 1);
        let p = k - 1;
        assert forall|d: usize| #[trigger] occupied_next(a, p, d) == occupied_next(b, p, d) by {}
        assert(next_to_stack(a, p) == next_to_stack(b, p)) by {
            if next_to_stack(a, p) {
                let d = choose|d: usize| d < 4 && #[trigger] occupied_next(a, p, d);
                assert(occupied_next(b, p, d));
            }
            if next_to_stack(b, p) {
                let d = choose|d: usize| d < 4 && #[trigger] occupied_next(b, p, d);
                assert(occupied_next(a, p, d));
            }
        }
        assert(places_at(a, p) == places_at(b, p));
    }
}

/// Boards with the same contents give the same spreads over the first `i`
/// drop tables.
proof fn lemma_same_parts(a: Board, b: Board, p: int, dir: usize, take: u64, i: int, flag: bool)
    requires
        same_board(a, b),
    ensures
        parts_upto(a, p, dir, take, i, flag) == parts_upto(b, p, dir, take, i, flag),
    decreases i,
{
    if i > 0 {
        lemma_same_parts(a, b, p, dir, take, i - 1, flag);
    }
}

/// Boards with the same contents give the same spreads taking up to `t`.
proof fn lemma_same_takes(a: Board, b: Board, p: int, dir: usize, t: int)
    requires
        same_board(a, b),
    ensures
        takes_upto(a, p, dir, t) == takes_upto(b, p, dir, t),
    decreases t,
{
    if t > 0 {
        lemma_same_takes(a, b, p, dir, t - 1);
        let prev = takes_upto(a, p, dir, t - 1);
        lemma_same_parts(a, b, p, dir, t as u64, spread_table(t as u64).len() as int, prev.1);
    }
}

/// Boards with the same contents give the same spreads in the first `d`
/// directions.
proof fn lemma_same_dirs(a: Board, b: Board, p: int, d: int)
    requires
        same_board(a, b),
    ensures
        dirs_upto(a, p, d) == dirs_upto(b, p, d),
    decreases d,
{
    if d > 0 {
        lemma_same_dirs(a, b, p, d - 1);
        lemma_same_takes(a, b, p, (d - 1) as usize, take_limit(a, p));
    }
}

/// Boards with the same contents give the same spreads from the first `k`
/// cells.
proof fn lemma_same_spreads(a: Board, b: Board, k: int)
    requires
        same_board(a, b),
    ensures
        spreads_upto(a, k) == spreads_upto(b, k),
    decreases k,
{
    if k > 0 {
        lemma_same_spreads(a, b, k - 1);
        lemma_same_dirs(a, b, k - 1, 4);
    }
}

/// Boards with the same contents give the same moves.
pub proof fn lemma_same_moves(a: Board, b: Board)
    requires
        same_board(a, b),
    ensures
        all_moves(a) == all_moves(b),
{
    lemma_same_places(a, b, a.size * a.size);
    lemma_same_spreads(a, b, a.size * a.size);
}

} // verus!
