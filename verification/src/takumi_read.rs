//! Reading the engine's position text back into a board.
//!
//! A cell read from the text is a tuple: its height, its piece bits (bit `i`
//! set for a Black piece at height `i`), the kind of its top piece (0 for a
//! flat or no piece, 1 for a wall, 2 for a capstone) and its number of White
//! pieces.
use vstd::prelude::*;

use crate::takumi::{bit, engine_pieces, flat_winner, flats_decide, lemma_bits, shape_ok, top_owner, Board};
use crate::takumi_road::{lemma_road_from_fields, road_from};
use crate::takumi_spread::{cell_ok, clean, engine_wf, lemma_wf_any_result};
use crate::text::{parse_usize, parse_usize_chars, split, split_chars, str_chars, sub_chars};

verus! {

/// The number of leading `1` and `2` characters of `p`.
pub open spec fn lead(p: Seq<char>) -> nat
    decreases p.len(),
{
    if p.len() == 0 || !(p[0] == '1' || p[0] == '2') {
        0
    } else {
        1 + lead(p.drop_first())
    }
}

/// The piece bits of the first `k` characters of a stack: bit `i` set for
/// a `2`.
pub open spec fn twos_bits(p: Seq<char>, k: int) -> u64
    decreases k,
{
    if k <= 0 {
        0
    } else {
        twos_bits(p, k - 1) | (if p[k - 1] == '2' {
            1u64 << ((k - 1) as u64)
        } else {
            0u64
        })
    }
}

/// The number of `1` characters among the first `k` of `p`.
pub open spec fn ones_count(p: Seq<char>, k: int) -> nat
    decreases k,
{
    if k <= 0 {
        0
    } else {
        ones_count(p, k - 1) + if p[k - 1] == '1' {
            1nat
        } else {
            0nat
        }
    }
}

/// A stack part: one to 64 pieces (`1` or `2`), then at most one of `S`,
/// `C` or `F`.
pub open spec fn stack_part(p: Seq<char>) -> Option<(u64, u64, u8, u64)> {
    let d = lead(p);
    if 1 <= d <= 64 && (d == p.len() || (d == p.len() - 1 && (p.last() == 'S' || p.last() == 'C' || p.last()
        == 'F'))) {
        Some(
            (
                d as u64,
                twos_bits(p, d as int),
                if p.last() == 'C' {
                    2u8
                } else if p.last() == 'S' {
                    1u8
                } else {
                    0u8
                },
                ones_count(p, d as int) as u64,
            ),
        )
    } else {
        None
    }
}

/// The cells of one part of a row: `x` and a count (one when none is
/// written, at most 64) of empty cells, or one stack.
pub open spec fn part_cells(p: Seq<char>) -> Option<Seq<(u64, u64, u8, u64)>> {
    if p.len() > 0 && p[0] == 'x' {
        let amount: Option<usize> = if p.len() == 1 {
            Some(1usize)
        } else {
            parse_usize(p.drop_first())
        };
        match amount {
            Some(a) => if a <= 64 {
                Some(Seq::new(a as nat, |i: int| (0u64, 0u64, 0u8, 0u64)))
            } else {
                None
            },
            None => None,
        }
    } else {
        match stack_part(p) {
            Some(c) => Some(seq![c]),
            None => None,
        }
    }
}

/// The cells of the first `k` parts of a row.
pub open spec fn row_cells(parts: Seq<Seq<char>>, k: int) -> Option<Seq<(u64, u64, u8, u64)>>
    decreases k,
{
    if k <= 0 {
        Some(Seq::empty())
    } else {
        match row_cells(parts, k - 1) {
            Some(a) => match part_cells(parts[k - 1]) {
                Some(c) => Some(a + c),
                None => None,
            },
            None => None,
        }
    }
}

/// The cells of the first `k` rows and the row width: the width of the
/// first row with cells, which every later row must have.
pub open spec fn rows_scan(rows: Seq<Seq<char>>, k: int) -> Option<(Seq<(u64, u64, u8, u64)>, nat)>
    decreases k,
{
    if k <= 0 {
        Some((Seq::empty(), 0))
    } else {
        match rows_scan(rows, k - 1) {
            Some((cells, size)) => {
                let parts = split(rows[k - 1], ',');
                match row_cells(parts, parts.len() as int) {
                    Some(rc) => if size == 0 {
                        Some((cells + rc, rc.len()))
                    } else if size != rc.len() {
                        None
                    } else {
                        Some((cells + rc, size))
                    },
                    None => None,
                }
            },
            None => None,
        }
    }
}

/// The White pieces of the first `k` cells.
pub open spec fn white_in(cells: Seq<(u64, u64, u8, u64)>, k: int) -> int
    decreases k,
{
    if k <= 0 {
        0
    } else {
        white_in(cells, k - 1) + cells[k - 1].3
    }
}

/// The Black pieces of the first `k` cells.
pub open spec fn black_in(cells: Seq<(u64, u64, u8, u64)>, k: int) -> int
    decreases k,
{
    if k <= 0 {
        0
    } else {
        black_in(cells, k - 1) + cells[k - 1].0 - cells[k - 1].3
    }
}

/// Whether the top piece of a cell read is Black's.
pub open spec fn black_top(c: (u64, u64, u8, u64)) -> bool {
    c.0 > 0 && bit(c.1, c.0 - 1)
}

/// The capstones of `player` (0 White, 1 Black) among the first `k` cells.
pub open spec fn caps_in(cells: Seq<(u64, u64, u8, u64)>, k: int, player: u64) -> int
    decreases k,
{
    if k <= 0 {
        0
    } else {
        caps_in(cells, k - 1, player) + if cells[k - 1].2 == 2 && black_top(cells[k - 1]) == (player == 1) {
            1int
        } else {
            0int
        }
    }
}

/// The empty cells among the first `k`.
pub open spec fn empty_in(cells: Seq<(u64, u64, u8, u64)>, k: int) -> int
    decreases k,
{
    if k <= 0 {
        0
    } else {
        empty_in(cells, k - 1) + if cells[k - 1].0 == 0 {
            1int
        } else {
            0int
        }
    }
}

/// What position text reads as: the board size, the ply, the player to
/// move and the cells. The text has three parts split at spaces: the rows
/// split at `/` (cells split at `,`), `1` or `2`, and a move number from 1
/// on. The cells must make a square board of 3 to 8 cells a side, and the
/// pieces must fit the reserves of that size, a capstone counting as one of
/// the player's pieces.
pub open spec fn pos_parse(s: Seq<char>) -> Option<(nat, nat, u64, Seq<(u64, u64, u8, u64)>)> {
    let sections = split(s, ' ');
    if sections.len() != 3 {
        None
    } else {
        let cp: Option<u64> = if sections[1] == seq!['1'] {
            Some(0u64)
        } else if sections[1] == seq!['2'] {
            Some(1u64)
        } else {
            None
        };
        match (cp, parse_usize(sections[2])) {
            (Some(cp), Some(m)) => {
                let ply = (m - 1) * 2 + cp;
                let rows = split(sections[0], '/');
                if m == 0 || ply > usize::MAX {
                    None
                } else {
                    match rows_scan(rows, rows.len() as int) {
                        Some((cells, size)) => {
                            let n = cells.len() as int;
                            let pieces = engine_pieces(size as int);
                            let w = white_in(cells, n);
                            let b = black_in(cells, n);
                            let wc = caps_in(cells, n, 0);
                            let bc = caps_in(cells, n, 1);
                            if n != size * size || size < 3 || size > 8 || wc > w || bc > b || w - wc > pieces.0 || b
                                - bc > pieces.0 || wc > pieces.1 || bc > pieces.1 {
                                None
                            } else {
                                Some((size, ply as nat, cp, cells))
                            }
                        },
                        None => None,
                    }
                }
            },
            _ => None,
        }
    }
}

/// The result of a freshly read board `b`: the flat count when no cell is
/// empty, then, cell by cell, a road through the cell for the owner of its
/// top piece, the last such road deciding.
pub open spec fn read_result(b: Board, k: int) -> Option<u64>
    decreases k,
{
    if k <= 0 {
        if flats_decide(b) {
            Some(flat_winner(b))
        } else {
            None
        }
    } else {
        let c = k - 1;
        if b.stack_heights@[c] > 0 && !bit(b.walls, c) && road_from(b, top_owner(b, c), c) {
            Some(top_owner(b, c))
        } else {
            read_result(b, k - 1)
        }
    }
}

/// Whether board `b` holds what was read: size, ply, player to move and
/// cells, with the reserves left after the pieces on the board.
pub open spec fn holds_read(b: Board, size: nat, ply: nat, cp: u64, cells: Seq<(u64, u64, u8, u64)>) -> bool {
    let n = cells.len() as int;
    let pieces = engine_pieces(size as int);
    let wc = caps_in(cells, n, 0);
    let bc = caps_in(cells, n, 1);
    &&& engine_wf(b)
    &&& b.size == size
    &&& b.ply_index == ply
    &&& b.current_player == cp
    &&& b.empty_positions == empty_in(cells, n)
    &&& b.white_pieces == pieces.0 - (white_in(cells, n) - wc)
    &&& b.black_pieces == pieces.0 - (black_in(cells, n) - bc)
    &&& b.white_capstones == pieces.1 - wc
    &&& b.black_capstones == pieces.1 - bc
    &&& b.stack_heights@ == cells.map_values(|c: (u64, u64, u8, u64)| c.0)
    &&& b.stacks@ == cells.map_values(|c: (u64, u64, u8, u64)| c.1)
    &&& forall|i: int| 0 <= i < n ==> bit(b.walls, i) == (#[trigger] cells[i].2 == 1)
    &&& forall|i: int| 0 <= i < n ==> bit(b.capstones, i) == (#[trigger] cells[i].2 == 2)
    &&& b.result == read_result(Board { result: None, ..b }, n)
}


/// Whether a cell read is sound: at most 64 pieces, no piece bit above
/// them, no top kind without pieces, and no more White pieces than pieces.
pub open spec fn cell_sound(c: (u64, u64, u8, u64)) -> bool {
    &&& c.0 <= 64
    &&& clean(c.1, c.0)
    &&& c.0 == 0 ==> c.2 == 0 && c.1 == 0
    &&& c.2 <= 2
    &&& c.3 <= c.0
}

/// The leading pieces of a part.
proof fn lemma_lead(p: Seq<char>, i: int)
    requires
        0 <= i <= p.len(),
        forall|j: int| 0 <= j < i ==> (#[trigger] p[j] == '1' || p[j] == '2'),
    ensures
        lead(p) >= i,
        (i == p.len() || !(p[i] == '1' || p[i] == '2')) ==> lead(p) == i,
    decreases i,
{
    if i > 0 {
        let q = p.drop_first();
        assert forall|j: int| 0 <= j < i - 1 implies (#[trigger] q[j] == '1' || q[j] == '2') by {
            assert(q[j] == p[j + 1]);
        }
        lemma_lead(q, i - 1);
        if i < p.len() {
            assert(q[i - 1] == p[i]);
        }
    }
}

/// A bit set just above a clean word keeps it clean one bit higher.
proof fn lemma_clean_grow(x: u64, k: u64)
    requires
        k < 64,
        clean(x, k),
    ensures
        clean(x | (1u64 << k), (k + 1) as u64),
        clean(x, (k + 1) as u64),
{
    let k1 = (k + 1) as u64;
    assert((k1 >= 64 || (x | (1u64 << k)) >> k1 == 0) && (k1 >= 64 || x >> k1 == 0)) by (bit_vector)
        requires
            k < 64,
            x >> k == 0,
            k1 == k + 1,
    ;
}

/// Reads one part of a row.
fn read_part(p: &[char]) -> (r: Option<Vec<(u64, u64, u8, u64)>>)
    ensures
        match r {
            Some(v) => part_cells(p@) == Some(v@) && forall|i: int| 0 <= i < v@.len() ==> cell_sound(#[trigger] v@[i]),
            None => part_cells(p@) is None,
        },
{
    if p.len() > 0 && p[0] == 'x' {
        let amount: usize = if p.len() == 1 {
            1
        } else {
            let rest = sub_chars(p, 1, p.len());
            assert(rest@ =~= p@.drop_first());
            match parse_usize_chars(rest.as_slice()) {
                Some(a) => a,
                None => {
                    return None;
                },
            }
        };
        if amount > 64 {
            return None;
        }
        let mut v: Vec<(u64, u64, u8, u64)> = Vec::new();
        for i in 0..amount
            invariant
                v@ == Seq::new(i as nat, |j: int| (0u64, 0u64, 0u8, 0u64)),
        {
            v.push((0, 0, 0, 0));
            assert(v@ =~= Seq::new((i + 1) as nat, |j: int| (0u64, 0u64, 0u8, 0u64)));
        }
        proof {
            assert(clean(0u64, 0u64)) by {
                assert(0u64 >> 0u64 == 0) by (bit_vector);
            }
        }
        return Some(v);
    }
    let mut i: usize = 0;
    let mut stack: u64 = 0;
    let mut ones: u64 = 0;
    proof {
        assert(clean(0u64, 0u64)) by {
            assert(0u64 >> 0u64 == 0) by (bit_vector);
        }
    }
    while i < p.len() && (p[i] == '1' || p[i] == '2')
        invariant
            i <= p.len(),
            i <= 64,
            forall|j: int| 0 <= j < i ==> (#[trigger] p@[j] == '1' || p@[j] == '2'),
            stack == twos_bits(p@, i as int),
            ones == ones_count(p@, i as int),
            ones <= i,
            clean(stack, i as u64),
        decreases p.len() - i,
    {
        if i == 64 {
            proof {
                lemma_lead(p@, 65);
            }
            return None;
        }
        proof {
            lemma_clean_grow(stack, i as u64);
        }
        if p[i] == '2' {
            stack = stack | (1u64 << (i as u64));
        } else {
            assert(stack | 0u64 == stack) by (bit_vector);
            ones = ones + 1;
        }
        i = i + 1;
    }
    proof {
        lemma_lead(p@, i as int);
    }
    let d = i;
    if d == 0 {
        return None;
    }
    if d < p.len() {
        if !(d + 1 == p.len() && (p[d] == 'S' || p[d] == 'C' || p[d] == 'F')) {
            return None;
        }
    }
    let last = p[p.len() - 1];
    let kind: u8 = if last == 'C' {
        2
    } else if last == 'S' {
        1
    } else {
        0
    };
    let mut v: Vec<(u64, u64, u8, u64)> = Vec::new();
    v.push((d as u64, stack, kind, ones));
    assert(v@ =~= seq![(d as u64, stack, kind, ones)]);
    Some(v)
}


/// The board parts gathered while reading cells.
struct Reading {
    occupied: u64,
    walls: u64,
    capstones: u64,
    owner: u64,
    heights: Vec<u64>,
    stacks: Vec<u64>,
    white: u64,
    black: u64,
    white_caps: u64,
    black_caps: u64,
    empty: usize,
}

/// Whether a reading holds exactly the cells read so far.
spec fn reading_ok(r: Reading, cells: Seq<(u64, u64, u8, u64)>) -> bool {
    let n = cells.len() as int;
    &&& n <= 64
    &&& r.heights@ == cells.map_values(|c: (u64, u64, u8, u64)| c.0)
    &&& r.stacks@ == cells.map_values(|c: (u64, u64, u8, u64)| c.1)
    &&& forall|i: int| 0 <= i < n ==> cell_sound(#[trigger] cells[i])
    &&& forall|i: int|
        0 <= i < n ==> bit(r.occupied, i) == (#[trigger] cells[i].0 > 0) && bit(r.walls, i) == (cells[i].2 == 1)
            && bit(r.capstones, i) == (cells[i].2 == 2) && bit(r.owner, i) == black_top(cells[i])
    &&& clean(r.occupied, n as u64)
    &&& clean(r.walls, n as u64)
    &&& clean(r.capstones, n as u64)
    &&& clean(r.owner, n as u64)
    &&& r.white == white_in(cells, n)
    &&& r.black == black_in(cells, n)
    &&& r.white_caps == caps_in(cells, n, 0)
    &&& r.black_caps == caps_in(cells, n, 1)
    &&& r.empty == empty_in(cells, n)
    &&& r.white <= 64 * n
    &&& r.black <= 64 * n
    &&& r.white_caps <= n
    &&& r.black_caps <= n
    &&& r.empty <= n
}

/// The counts over cells do not change when a cell is added behind them.
proof fn lemma_counts_push(cells: Seq<(u64, u64, u8, u64)>, c: (u64, u64, u8, u64), k: int)
    requires
        0 <= k <= cells.len(),
    ensures
        white_in(cells.push(c), k) == white_in(cells, k),
        black_in(cells.push(c), k) == black_in(cells, k),
        caps_in(cells.push(c), k, 0) == caps_in(cells, k, 0),
        caps_in(cells.push(c), k, 1) == caps_in(cells, k, 1),
        empty_in(cells.push(c), k) == empty_in(cells, k),
    decreases k,
{
    if k > 0 {
        lemma_counts_push(cells, c, k - 1);
        assert(cells.push(c)[k - 1] == cells[k - 1]);
    }
}

impl Reading {
    fn new() -> (r: Reading)
        ensures
            reading_ok(r, Seq::empty()),
    {
        let r = Reading {
            occupied: 0,
            walls: 0,
            capstones: 0,
            owner: 0,
            heights: Vec::new(),
            stacks: Vec::new(),
            white: 0,
            black: 0,
            white_caps: 0,
            black_caps: 0,
            empty: 0,
        };
        assert(0u64 >> 0u64 == 0) by (bit_vector);
        assert(r.heights@ =~= Seq::<(u64, u64, u8, u64)>::empty().map_values(|c: (u64, u64, u8, u64)| c.0));
        assert(r.stacks@ =~= Seq::<(u64, u64, u8, u64)>::empty().map_values(|c: (u64, u64, u8, u64)| c.1));
        r
    }

    /// Adds one cell, the next in reading order.
    fn add(&mut self, c: (u64, u64, u8, u64), Ghost(cells): Ghost<Seq<(u64, u64, u8, u64)>>)
        requires
            reading_ok(*old(self), cells),
            cells.len() < 64,
            cell_sound(c),
        ensures
            reading_ok(*final(self), cells.push(c)),
    {
        let ghost n = cells.len() as int;
        let ghost cs = cells.push(c);
        let i = self.heights.len();
        let mask = 1u64 << (i as u64);
        let ghost occ0 = self.occupied;
        let ghost walls0 = self.walls;
        let ghost caps0 = self.capstones;
        let ghost owner0 = self.owner;
        let (h, bits, kind, ones) = c;
        proof {
            lemma_counts_push(cells, c, n);
            assert(cs[n] == c);
        }
        if h == 0 {
            self.empty = self.empty + 1;
        } else {
            self.occupied = self.occupied | mask;
            if kind == 2 {
                self.capstones = self.capstones | mask;
                if bits & (1u64 << (h - 1)) == 0 {
                    self.white_caps = self.white_caps + 1;
                } else {
                    self.black_caps = self.black_caps + 1;
                }
            } else if kind == 1 {
                self.walls = self.walls | mask;
            }
            if bits & (1u64 << (h - 1)) != 0 {
                self.owner = self.owner | mask;
            }
            proof {
                lemma_bits(bits, (h - 1) as u64, (h - 1) as u64);
            }
        }
        self.white = self.white + ones;
        self.black = self.black + (h - ones);
        self.heights.push(h);
        self.stacks.push(bits);
        proof {
            assert forall|j: int| 0 <= j < n + 1 implies bit(self.occupied, j) == (#[trigger] cs[j].0 > 0) && bit(
                self.walls,
                j,
            ) == (cs[j].2 == 2 - 1) && bit(self.capstones, j) == (cs[j].2 == 2) && bit(self.owner, j) == black_top(
                cs[j],
            ) by {
                lemma_bits(occ0, i as u64, j as u64);
                lemma_bits(walls0, i as u64, j as u64);
                lemma_bits(caps0, i as u64, j as u64);
                lemma_bits(owner0, i as u64, j as u64);
                if j < n {
                    assert(cs[j] == cells[j]);
                } else {
                    crate::takumi_spread::lemma_clean_marks_pub(occ0, n as u64, j as u64);
                    crate::takumi_spread::lemma_clean_marks_pub(walls0, n as u64, j as u64);
                    crate::takumi_spread::lemma_clean_marks_pub(caps0, n as u64, j as u64);
                    crate::takumi_spread::lemma_clean_marks_pub(owner0, n as u64, j as u64);
                }
            }
            crate::takumi_spread::lemma_clean_widen(occ0, n as u64);
            crate::takumi_spread::lemma_clean_widen(walls0, n as u64);
            crate::takumi_spread::lemma_clean_widen(caps0, n as u64);
            crate::takumi_spread::lemma_clean_widen(owner0, n as u64);
            assert(self.heights@ =~= cs.map_values(|c: (u64, u64, u8, u64)| c.0));
            assert(self.stacks@ =~= cs.map_values(|c: (u64, u64, u8, u64)| c.1));
            assert forall|j: int| 0 <= j < n + 1 implies cell_sound(#[trigger] cs[j]) by {
                if j < n {
                    assert(cs[j] == cells[j]);
                }
            }
        }
    }
}


/// Once a row fails, it fails with more parts; with more parts it has at
/// least as many cells.
proof fn lemma_row_cells_more(parts: Seq<Seq<char>>, k: int, m: int)
    requires
        0 <= k <= m,
    ensures
        row_cells(parts, k) is None ==> row_cells(parts, m) is None,
        row_cells(parts, k) is Some && row_cells(parts, m) is Some ==> row_cells(parts, m)->0.len()
            >= row_cells(parts, k)->0.len(),
    decreases m - k,
{
    if k < m {
        lemma_row_cells_more(parts, k, m - 1);
    }
}

/// The number of cells of the first `k` rows, when they read.
spec fn scanned(rows: Seq<Seq<char>>, k: int) -> int {
    match rows_scan(rows, k) {
        Some((cells, size)) => cells.len() as int,
        None => 0,
    }
}

/// Once the rows fail, they fail with more rows; with more rows there are
/// at least as many cells.
proof fn lemma_rows_scan_more(rows: Seq<Seq<char>>, k: int, m: int)
    requires
        0 <= k <= m,
    ensures
        rows_scan(rows, k) is None ==> rows_scan(rows, m) is None,
        rows_scan(rows, k) is Some && rows_scan(rows, m) is Some ==> scanned(rows, m) >= scanned(rows, k),
    decreases m - k,
{
    if k < m {
        lemma_rows_scan_more(rows, k, m - 1);
    }
}

/// With the rows before row `r` read as `cells` and the first `p` parts of
/// row `r` as `rc`, a failure there fails the whole, and the whole has at
/// least those cells.
proof fn lemma_scan_prefix(
    rows: Seq<Seq<char>>,
    r: int,
    p: int,
    cells: Seq<(u64, u64, u8, u64)>,
    size: nat,
)
    requires
        0 <= r < rows.len(),
        0 <= p <= split(rows[r], ',').len(),
        rows_scan(rows, r) == Some((cells, size)),
    ensures
        row_cells(split(rows[r], ','), p) is None ==> rows_scan(rows, rows.len() as int) is None,
        row_cells(split(rows[r], ','), p) is Some && rows_scan(rows, rows.len() as int) is Some ==> scanned(
            rows,
            rows.len() as int,
        ) >= cells.len() + row_cells(split(rows[r], ','), p)->0.len(),
{
    let parts = split(rows[r], ',');
    lemma_row_cells_more(parts, p, parts.len() as int);
    lemma_rows_scan_more(rows, r + 1, rows.len() as int);
}

/// Reading a board never gives more than 64 cells.
proof fn lemma_parse_small(s: Seq<char>)
    ensures
        pos_parse(s) matches Some((size, ply, cp, cells)) ==> cells.len() == size * size && 3 <= size <= 8
            && cells.len() <= 64,
{
    if let Some((size, ply, cp, cells)) = pos_parse(s) {
        assert(size * size <= 64) by (nonlinear_arith)
            requires
                size <= 8,
        ;
    }
}


impl Board {
    /// Reads a board from position text. Text that does not make a board
    /// gives `None`; so does a stack of more than 64 pieces, which the
    /// engine's bitboards cannot hold. The result is decided as the board
    /// stands: the flat count on a full board, then a road through any cell.
    pub fn try_from_pos_str(position: &str) -> (r: Option<Self>)
        ensures
            match r {
                Some(b) => pos_parse(position@) matches Some((size, ply, cp, cells)) && holds_read(
                    b,
                    size,
                    ply,
                    cp,
                    cells,
                ),
                None => pos_parse(position@) is None,
            },
    {
        let chars = str_chars(position);
        let sections = split_chars(chars.as_slice(), ' ');
        if sections.len() != 3 {
            return None;
        }
        let ghost secs = split(position@, ' ');
        proof {
            assert(sections[1]@ == secs[1]);
            assert(sections[2]@ == secs[2]);
            assert(sections[0]@ == secs[0]);
        }
        let current_player: u64 = if sections[1].len() == 1 && sections[1][0] == '1' {
            assert(secs[1] =~= seq!['1']);
            0
        } else if sections[1].len() == 1 && sections[1][0] == '2' {
            assert(secs[1] =~= seq!['2']);
            1
        } else {
            assert(secs[1] != seq!['1']) by {
                if secs[1] == seq!['1'] {
                    assert(sections[1]@.len() == 1 && sections[1]@[0] == '1');
                }
            }
            assert(secs[1] != seq!['2']) by {
                if secs[1] == seq!['2'] {
                    assert(sections[1]@.len() == 1 && sections[1]@[0] == '2');
                }
            }
            return None;
        };
        let move_index = match parse_usize_chars(sections[2].as_slice()) {
            Some(m) => m,
            None => {
                return None;
            },
        };
        if move_index == 0 {
            return None;
        }
        let mi = move_index - 1;
        if mi > (usize::MAX - current_player as usize) / 2 {
            proof {
                let c = current_player as int;
                let m = mi as int;
                assert(m * 2 + c > usize::MAX) by (nonlinear_arith)
                    requires
                        m > (usize::MAX - c) / 2,
                        0 <= c <= 1,
                ;
            }
            return None;
        }
        proof {
            let c = current_player as int;
            let m = mi as int;
            assert(m * 2 + c <= usize::MAX) by (nonlinear_arith)
                requires
                    m <= (usize::MAX - c) / 2,
                    0 <= c <= 1,
            ;
        }
        let ply_index = mi * 2 + current_player as usize;
        let rows = split_chars(sections[0].as_slice(), '/');
        let ghost rows_v = split(secs[0], '/');
        let mut rd = Reading::new();
        let mut size: usize = 0;
        let ghost mut cells: Seq<(u64, u64, u8, u64)> = Seq::empty();
        proof {
            lemma_parse_small(position@);
            assert(rows_v =~= split(secs[0], '/'));
        }
        let mut r: usize = 0;
        while r < rows.len()
            invariant
                rows@.len() == rows_v.len(),
                forall|i: int| 0 <= i < rows@.len() ==> #[trigger] rows@[i]@ == rows_v[i],
                r <= rows@.len(),
                rows_scan(rows_v, r as int) == Some((cells, size as nat)),
                reading_ok(rd, cells),
                size <= 64,
                rows_scan(rows_v, rows_v.len() as int) is None ==> pos_parse(position@) is None,
                pos_parse(position@) is Some ==> rows_scan(rows_v, rows_v.len() as int) is Some && scanned(
                    rows_v,
                    rows_v.len() as int,
                ) <= 64,
            decreases rows@.len() - r,
        {
            let parts = split_chars(rows[r].as_slice(), ',');
            let ghost parts_v = split(rows_v[r as int], ',');
            let mut part_count: usize = 0;
            let ghost mut rc: Seq<(u64, u64, u8, u64)> = Seq::empty();
            let mut p: usize = 0;
            while p < parts.len()
                invariant
                    rows@.len() == rows_v.len(),
                    forall|i: int| 0 <= i < rows@.len() ==> #[trigger] rows@[i]@ == rows_v[i],
                    r < rows@.len(),
                    parts_v == split(rows_v[r as int], ','),
                    parts@.len() == parts_v.len(),
                    forall|i: int| 0 <= i < parts@.len() ==> #[trigger] parts@[i]@ == parts_v[i],
                    p <= parts@.len(),
                    rows_scan(rows_v, r as int) == Some((cells, size as nat)),
                    row_cells(parts_v, p as int) == Some(rc),
                    part_count == rc.len(),
                    reading_ok(rd, cells + rc),
                    size <= 64,
                    rows_scan(rows_v, rows_v.len() as int) is None ==> pos_parse(position@) is None,
                    pos_parse(position@) is Some ==> rows_scan(rows_v, rows_v.len() as int) is Some && scanned(
                        rows_v,
                        rows_v.len() as int,
                    ) <= 64,
                decreases parts@.len() - p,
            {
                proof {
                    lemma_scan_prefix(rows_v, r as int, (p + 1) as int, cells, size as nat);
                    lemma_parse_small(position@);
                }
                match read_part(parts[p].as_slice()) {
                    None => {
                        return None;
                    },
                    Some(v) => {
                        if rd.heights.len() + v.len() > 64 {
                            return None;
                        }
                        let ghost base = cells + rc;
                        let mut j: usize = 0;
                        while j < v.len()
                            invariant
                                reading_ok(rd, base + v@.take(j as int)),
                                base.len() + v@.len() <= 64,
                                j <= v@.len(),
                                forall|i: int| 0 <= i < v@.len() ==> crate::takumi_read::cell_sound(#[trigger] v@[i]),
                            decreases v@.len() - j,
                        {
                            rd.add(v[j], Ghost(base + v@.take(j as int)));
                            assert(base + v@.take(j as int) + seq![v@[j as int]] =~= base + v@.take(j + 1));
                            assert((base + v@.take(j as int)).push(v@[j as int]) =~= base + v@.take(j + 1));
                            j = j + 1;
                        }
                        assert(v@.take(v@.len() as int) =~= v@);
                        assert(base + v@ =~= cells + (rc + v@));
                        proof {
                            rc = rc + v@;
                        }
                        part_count = part_count + v.len();
                    },
                }
                p = p + 1;
            }
            if size == 0 {
                size = part_count;
            } else if size != part_count {
                proof {
                    lemma_rows_scan_more(rows_v, r + 1, rows_v.len() as int);
                }
                return None;
            }
            proof {
                cells = cells + rc;
            }
            r = r + 1;
        }
        proof {
            assert(rows_v =~= split(secs[0], '/'));
        }
        let n = rd.heights.len();
        proof {
            assert(size * size <= 4096) by (nonlinear_arith)
                requires
                    size <= 64,
            ;
        }
        if n != size * size {
            return None;
        }
        if size < 3 || size > 8 {
            return None;
        }
        if rd.white_caps > rd.white {
            return None;
        }
        let white_pieces = rd.white - rd.white_caps;
        if rd.black_caps > rd.black {
            return None;
        }
        let black_pieces = rd.black - rd.black_caps;
        let (piece_count, capstone_count) = Self::default_pieces(size);
        if white_pieces > piece_count || black_pieces > piece_count {
            return None;
        }
        if rd.white_caps > capstone_count || rd.black_caps > capstone_count {
            return None;
        }
        let mut board = Board {
            size,
            result: None,
            ply_index,
            current_player,
            empty_positions: rd.empty,
            white_pieces: piece_count - white_pieces,
            white_capstones: capstone_count - rd.white_caps,
            black_pieces: piece_count - black_pieces,
            black_capstones: capstone_count - rd.black_caps,
            occupied: rd.occupied,
            walls: rd.walls,
            capstones: rd.capstones,
            owner: rd.owner,
            stack_heights: rd.heights,
            stacks: rd.stacks,
        };
        let ghost b0 = board;
        proof {
            assert(shape_ok(b0)) by {
                assert forall|i: int| 0 <= i < b0.size * b0.size implies #[trigger] b0.stack_heights@[i] <= 64 by {
                    assert(cell_sound(cells[i]));
                }
            }
            assert forall|c: int| 0 <= c < b0.size * b0.size implies #[trigger] cell_ok(b0, c) by {
                assert(cell_sound(cells[c]));
                assert(b0.stack_heights@[c] == cells[c].0);
                assert(b0.stacks@[c] == cells[c].1);
            }
            assert(engine_wf(b0));
        }
        board.check_flat_win();
        let mut pos: usize = 0;
        while pos < n
            invariant
                engine_wf(b0),
                b0.result is None,
                n == b0.size * b0.size,
                pos <= n,
                board == (Board { result: read_result(b0, pos as int), ..b0 }),
            decreases n - pos,
        {
            let ghost before = board;
            proof {
                lemma_wf_any_result(b0, read_result(b0, pos as int));
                assert(cell_ok(b0, pos as int));
            }
            if board.stack_heights[pos] > 0 {
                let player = board.controlling_player(pos);
                proof {
                    lemma_road_from_fields(before, b0, player, pos as int);
                }
                board.check_road_win(player, pos);
            }
            pos = pos + 1;
        }
        proof {
            lemma_wf_any_result(b0, read_result(b0, n as int));
            assert((Board { result: None, ..board }) == b0);
        }
        Some(board)
    }
}

} // verus!
