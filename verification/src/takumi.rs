//! The search engine's board: bitboards for a board of at most 8 by 8
//! cells. Cell `pos` is bit `pos` of each mask, row by row from the top;
//! bit `h` of `stacks[pos]` tells the owner of the piece at height `h` (1
//! for Black).
use vstd::prelude::*;

use crate::takumi_road::road_from;

verus! {

/// The engine's board.
#[derive(Debug, Clone, PartialEq)]
pub struct Board {
    pub size: usize,
    pub result: Option<u64>,
    pub ply_index: usize,
    pub current_player: u64,
    pub empty_positions: usize,
    pub white_pieces: u64,
    pub black_pieces: u64,
    pub white_capstones: u64,
    pub black_capstones: u64,
    pub occupied: u64,
    pub walls: u64,
    pub capstones: u64,
    pub owner: u64,
    pub stacks: Vec<u64>,
    pub stack_heights: Vec<u64>,
}

/// Whether bit `n` of `x` is set.
pub open spec fn bit(x: u64, n: int) -> bool {
    0 <= n < 64 && (x >> (n as u64)) & 1u64 == 1u64
}

/// The mask of bit `n`.
pub open spec fn mask(n: int) -> u64 {
    1u64 << (n as u64)
}

/// Setting and clearing bits: a mask tests one bit, `|` sets it and `& !`
/// clears it, leaving the others.
pub proof fn lemma_bits(x: u64, n: u64, m: u64)
    requires
        n < 64,
        m < 64,
    ensures
        (x & (1u64 << n) != 0) == bit(x, n as int),
        bit(x | (1u64 << n), m as int) == (bit(x, m as int) || n == m),
        bit(x & !(1u64 << n), m as int) == (bit(x, m as int) && n != m),
        !bit(0u64, m as int),
{
    assert((0u64 >> m) & 1u64 != 1u64) by (bit_vector);
    assert((x & (1u64 << n) != 0) == ((x >> n) & 1u64 == 1u64)) by (bit_vector)
        requires
            n < 64,
    ;
    assert(((x | (1u64 << n)) >> m) & 1u64 == 1u64 <==> (((x >> m) & 1u64 == 1u64) || n == m)) by (bit_vector)
        requires
            n < 64,
            m < 64,
    ;
    assert(((x & !(1u64 << n)) >> m) & 1u64 == 1u64 <==> (((x >> m) & 1u64 == 1u64) && n != m)) by (bit_vector)
        requires
            n < 64,
            m < 64,
    ;
}

/// The standard reserves for a board size from 3 to 8: stones and capstones.
pub open spec fn engine_pieces(size: int) -> (u64, u64) {
    if size == 3 {
        (10, 0)
    } else if size == 4 {
        (15, 0)
    } else if size == 5 {
        (21, 1)
    } else if size == 6 {
        (30, 1)
    } else if size == 7 {
        (40, 2)
    } else {
        (50, 2)
    }
}

/// The owner of the top piece of cell `pos`: 0 for White, 1 for Black.
pub open spec fn top_owner(b: Board, pos: int) -> u64 {
    if bit(b.stacks@[pos], b.stack_heights@[pos] - 1) {
        1
    } else {
        0
    }
}

/// The neighbours of cell `pos` on a board of the given size: left, right,
/// the cell above (one row less) and the cell below.
pub open spec fn neighbor_cells(pos: int, size: int) -> Seq<Option<usize>> {
    seq![
        if pos % size > 0 { Some((pos - 1) as usize) } else { None },
        if pos % size < size - 1 { Some((pos + 1) as usize) } else { None },
        if pos / size > 0 { Some((pos - size) as usize) } else { None },
        if pos / size < size - 1 { Some((pos + size) as usize) } else { None },
    ]
}

/// Whether the board's shape is sound: a size from 3 to 8, one stack and
/// one height per cell, heights that fit a mask, and the player to move 0
/// or 1.
pub open spec fn shape_ok(b: Board) -> bool {
    &&& 3 <= b.size <= 8
    &&& b.stacks@.len() == b.size * b.size
    &&& b.stack_heights@.len() == b.size * b.size
    &&& forall|i: int| 0 <= i < b.size * b.size ==> #[trigger] b.stack_heights@[i] <= 64
    &&& b.current_player <= 1
}


/// Whether cell `c` counts in the flat count: a stack with a flat on top.
pub open spec fn counts_as_flat(b: Board, c: int) -> bool {
    b.stack_heights@[c] != 0 && !bit(b.walls, c) && !bit(b.capstones, c)
}

/// The flats on top of the first `k` cells: White's and Black's.
pub open spec fn flat_tally(b: Board, k: int) -> (int, int)
    decreases k,
{
    if k <= 0 {
        (0, 0)
    } else {
        let t = flat_tally(b, k - 1);
        if !counts_as_flat(b, k - 1) {
            t
        } else if top_owner(b, k - 1) == 0 {
            (t.0 + 1, t.1)
        } else {
            (t.0, t.1 + 1)
        }
    }
}

/// The outcome of counting flats: 0 if White has more, 1 if Black has more,
/// 2 for a draw.
pub open spec fn flat_winner(b: Board) -> u64 {
    let t = flat_tally(b, b.size * b.size);
    if t.0 > t.1 {
        0
    } else if t.1 > t.0 {
        1
    } else {
        2
    }
}

/// The player whose piece a placement puts down: in the first two plies each
/// player places a piece of the other.
pub open spec fn placer(b: Board) -> u64 {
    if b.ply_index < 2 {
        (1 - b.current_player) as u64
    } else {
        b.current_player
    }
}

/// Whether the flat count decides the game: no empty cell is left, or a
/// player has no piece left to place.
pub open spec fn flats_decide(b: Board) -> bool {
    ||| b.empty_positions == 0
    ||| (b.white_pieces == 0 && b.white_capstones == 0)
    ||| (b.black_pieces == 0 && b.black_capstones == 0)
}

/// The outcome after a move that leaves the board `a` (its result not yet
/// decided), with `player`'s stack at `pos` to test for a road: a road wins
/// for `player`; else, when the flat count decides, its winner; else
/// `before` stands.
pub open spec fn outcome_after(a: Board, player: u64, pos: int, before: Option<u64>) -> Option<u64> {
    if !bit(a.walls, pos) && road_from(a, player, pos) {
        Some(player)
    } else if flats_decide(a) {
        Some(flat_winner(a))
    } else {
        before
    }
}

/// What a placement of `variant` at `pos` makes of board `b`: board `a`.
pub open spec fn place_post(b: Board, a: Board, pos: int, variant: usize) -> bool {
    let e = placer(b);
    let m = mask(pos);
    let cap = variant == 2;
    &&& a.size == b.size
    &&& a.occupied == b.occupied | m
    &&& a.owner == (if e == 1 { b.owner | m } else { b.owner })
    &&& a.walls == (if variant == 1 { b.walls | m } else { b.walls })
    &&& a.capstones == (if cap { b.capstones | m } else { b.capstones })
    &&& a.white_capstones == (if cap && b.current_player == 0 { (b.white_capstones - 1) as u64 } else { b.white_capstones })
    &&& a.black_capstones == (if cap && b.current_player != 0 { (b.black_capstones - 1) as u64 } else { b.black_capstones })
    &&& a.white_pieces == (if !cap && b.current_player == 0 { (b.white_pieces - 1) as u64 } else { b.white_pieces })
    &&& a.black_pieces == (if !cap && b.current_player != 0 { (b.black_pieces - 1) as u64 } else { b.black_pieces })
    &&& a.stack_heights@ == b.stack_heights@.update(pos, 1)
    &&& a.stacks@ == b.stacks@.update(pos, e)
    &&& a.ply_index == b.ply_index + 1
    &&& a.current_player == 1 - b.current_player
    &&& a.empty_positions == b.empty_positions - 1
    &&& a.result == outcome_after(Board { result: b.result, ..a }, e, pos, b.result)
}

/// What taking back a placement of `variant` at `pos` makes of board `b`:
/// board `a`.
pub open spec fn unplace_post(b: Board, a: Board, pos: int, variant: usize) -> bool {
    let m = !mask(pos);
    let cp = (1 - b.current_player) as u64;
    let cap = variant == 2;
    &&& a.size == b.size
    &&& a.occupied == b.occupied & m
    &&& a.owner == b.owner & m
    &&& a.walls == b.walls & m
    &&& a.capstones == b.capstones & m
    &&& a.white_capstones == (if cap && cp == 0 { b.white_capstones + 1 } else { b.white_capstones as int })
    &&& a.black_capstones == (if cap && cp != 0 { b.black_capstones + 1 } else { b.black_capstones as int })
    &&& a.white_pieces == (if !cap && cp == 0 { b.white_pieces + 1 } else { b.white_pieces as int })
    &&& a.black_pieces == (if !cap && cp != 0 { b.black_pieces + 1 } else { b.black_pieces as int })
    &&& a.stack_heights@ == b.stack_heights@.update(pos, 0)
    &&& a.stacks@ == b.stacks@.update(pos, 0)
    &&& a.ply_index == b.ply_index - 1
    &&& a.current_player == cp
    &&& a.empty_positions == b.empty_positions + 1
    &&& a.result is None
}

/// Whether two boards hold the same position: every field alike.
pub open spec fn same_board(a: Board, b: Board) -> bool {
    &&& a.size == b.size
    &&& a.result == b.result
    &&& a.ply_index == b.ply_index
    &&& a.current_player == b.current_player
    &&& a.empty_positions == b.empty_positions
    &&& a.white_pieces == b.white_pieces
    &&& a.black_pieces == b.black_pieces
    &&& a.white_capstones == b.white_capstones
    &&& a.black_capstones == b.black_capstones
    &&& a.occupied == b.occupied
    &&& a.walls == b.walls
    &&& a.capstones == b.capstones
    &&& a.owner == b.owner
    &&& a.stacks@ == b.stacks@
    &&& a.stack_heights@ == b.stack_heights@
}

/// Taking back a placement on an empty cell restores the board as it was
/// before, whatever the placement decided.
pub proof fn law_unplace_restores(b0: Board, b1: Board, b2: Board, pos: int, variant: usize)
    requires
        shape_ok(b0),
        0 <= pos < b0.size * b0.size,
        b0.result is None,
        !bit(b0.occupied, pos),
        !bit(b0.owner, pos),
        !bit(b0.walls, pos),
        !bit(b0.capstones, pos),
        b0.stacks@[pos] == 0,
        b0.stack_heights@[pos] == 0,
        b0.empty_positions >= 1,
        variant == 2 ==> (if b0.current_player == 0 { b0.white_capstones >= 1 } else { b0.black_capstones >= 1 }),
        variant != 2 ==> (if b0.current_player == 0 { b0.white_pieces >= 1 } else { b0.black_pieces >= 1 }),
        place_post(b0, b1, pos, variant),
        unplace_post(b1, b2, pos, variant),
    ensures
        same_board(b2, b0),
{
    assert(b0.size * b0.size <= 64) by (nonlinear_arith)
        requires
            3 <= b0.size <= 8,
    ;
    let p = pos as u64;
    lemma_clear_set(b0.occupied, p);
    lemma_clear_set(b0.owner, p);
    lemma_clear_set(b0.walls, p);
    lemma_clear_set(b0.capstones, p);
    assert(b2.stacks@ =~= b0.stacks@);
    assert(b2.stack_heights@ =~= b0.stack_heights@);
}

/// Clearing a bit that was just set gives back the word, when it was clear.
proof fn lemma_clear_set(x: u64, n: u64)
    requires
        n < 64,
        !bit(x, n as int),
    ensures
        (x | (1u64 << n)) & !(1u64 << n) == x,
        x & !(1u64 << n) == x,
{
    assert(((x >> n) & 1u64 != 1u64) ==> (x | (1u64 << n)) & !(1u64 << n) == x && x & !(1u64 << n) == x)
        by (bit_vector)
        requires
            n < 64,
    ;
}

impl Board {
    pub const VARIANT_FLAT: usize = 0;
    pub const VARIANT_WALL: usize = 1;
    pub const VARIANT_CAPSTONE: usize = 2;
    pub const PLAYER_WHITE: u64 = 0;
    pub const PLAYER_BLACK: u64 = 1;
    pub const DIR_RIGHT: usize = 0;
    pub const DIR_LEFT: usize = 1;
    pub const DIR_DOWN: usize = 2;
    pub const DIR_UP: usize = 3;

    /// The standard reserves for a board size from 3 to 8: stones and capstones.
    pub fn default_pieces(size: usize) -> (r: (u64, u64))
        requires
            3 <= size <= 8,
        ensures
            r == engine_pieces(size as int),
    {
        if size == 3 {
            (10, 0)
        } else if size == 4 {
            (15, 0)
        } else if size == 5 {
            (21, 1)
        } else if size == 6 {
            (30, 1)
        } else if size == 7 {
            (40, 2)
        } else {
            (50, 2)
        }
    }

    /// An empty board of a size from 3 to 8, White to move, full reserves.
    pub fn empty(size: usize) -> (r: Self)
        requires
            3 <= size <= 8,
        ensures
            r.size == size,
            r.result is None,
            r.ply_index == 0,
            r.current_player == 0,
            r.empty_positions == size * size,
            (r.white_pieces, r.white_capstones) == engine_pieces(size as int),
            (r.black_pieces, r.black_capstones) == engine_pieces(size as int),
            r.occupied == 0 && r.walls == 0 && r.capstones == 0 && r.owner == 0,
            r.stacks@ == Seq::new((size * size) as nat, |i: int| 0u64),
            r.stack_heights@ == Seq::new((size * size) as nat, |i: int| 0u64),
            shape_ok(r),
    {
        let (white_pieces, white_capstones) = Self::default_pieces(size);
        let (black_pieces, black_capstones) = Self::default_pieces(size);
        assert(size * size <= 64) by (nonlinear_arith)
            requires
                size <= 8,
        ;
        let n = size * size;
        let mut stacks: Vec<u64> = Vec::new();
        let mut stack_heights: Vec<u64> = Vec::new();
        for i in 0..n
            invariant
                stacks@ == Seq::new(i as nat, |j: int| 0u64),
                stack_heights@ == Seq::new(i as nat, |j: int| 0u64),
        {
            stacks.push(0);
            stack_heights.push(0);
            assert(stacks@ =~= Seq::new((i + 1) as nat, |j: int| 0u64));
            assert(stack_heights@ =~= Seq::new((i + 1) as nat, |j: int| 0u64));
        }
        Board {
            size,
            result: None,
            ply_index: 0,
            current_player: 0,
            empty_positions: n,
            white_pieces,
            black_pieces,
            white_capstones,
            black_capstones,
            occupied: 0,
            walls: 0,
            capstones: 0,
            owner: 0,
            stacks,
            stack_heights,
        }
    }

    /// The neighbours of `pos`: left, right, up (one row less) and down.
    pub(crate) fn neighbors(pos: usize, size: usize) -> (r: [Option<usize>; 4])
        requires
            1 <= size <= 8,
            pos < 64,
        ensures
            r@ == neighbor_cells(pos as int, size as int),
    {
        let mut n: [Option<usize>; 4] = [None; 4];
        assert(pos % size > 0 ==> pos >= 1) by (nonlinear_arith)
            requires
                size >= 1,
        ;
        assert(pos / size > 0 ==> pos >= size) by (nonlinear_arith)
            requires
                size >= 1,
        ;
        if pos % size > 0 {
            n[0] = Some(pos - 1);
        }
        if pos % size < size - 1 {
            n[1] = Some(pos + 1);
        }
        if pos / size > 0 {
            n[2] = Some(pos - size);
        }
        if pos / size < size - 1 {
            n[3] = Some(pos + size);
        }
        assert(n@ =~= neighbor_cells(pos as int, size as int));
        n
    }

    /// The owner of the top piece at `pos`: 0 for White, 1 for Black.
    pub(crate) fn controlling_player(&self, pos: usize) -> (r: u64)
        requires
            pos < self.stacks@.len(),
            pos < self.stack_heights@.len(),
            1 <= self.stack_heights@[pos as int] <= 64,
        ensures
            r == top_owner(*self, pos as int),
    {
        let h = self.stack_heights[pos];
        let s = self.stacks[pos];
        proof {
            lemma_bits(s, (h - 1) as u64, (h - 1) as u64);
        }
        if s & (1u64 << (h - 1)) == 0 {
            0
        } else {
            1
        }
    }
}

impl Board {
    /// When no empty cell is left or a player has no piece left to place,
    /// the flat count decides the game: the result becomes the winner of
    /// the count, or 2 for a draw.
    pub(crate) fn check_flat_win(&mut self) -> (r: bool)
        requires
            shape_ok(*old(self)),
        ensures
            r == flats_decide(*old(self)),
            *final(self) == (if r {
                Board { result: Some(flat_winner(*old(self))), ..*old(self) }
            } else {
                *old(self)
            }),
    {
        if self.empty_positions == 0 || (self.white_pieces == 0 && self.white_capstones == 0) || (self.black_pieces == 0
            && self.black_capstones == 0) {
            let ghost b = *self;
            let mut white_count: usize = 0;
            let mut black_count: usize = 0;
            proof {
                let sz = self.size;
                assert(sz * sz <= 64) by (nonlinear_arith)
                    requires
                        3 <= sz <= 8,
                ;
            }
            let n = self.size * self.size;
            for pos in 0..n
                invariant
                    *self == b,
                    shape_ok(b),
                    n == b.size * b.size,
                    n <= 64,
                    white_count <= pos,
                    black_count <= pos,
                    (white_count as int, black_count as int) == flat_tally(b, pos as int),
            {
                let pos_mask = 1u64 << (pos as u64);
                proof {
                    lemma_bits(b.walls, pos as u64, pos as u64);
                    lemma_bits(b.capstones, pos as u64, pos as u64);
                }
                let h = self.stack_heights[pos];
                if !(h == 0 || self.walls & pos_mask != 0 || self.capstones & pos_mask != 0) {
                    proof {
                        lemma_bits(b.stacks@[pos as int], (h - 1) as u64, (h - 1) as u64);
                    }
                    if self.stacks[pos] & (1u64 << (h - 1)) == 0 {
                        white_count = white_count + 1;
                    } else {
                        black_count = black_count + 1;
                    }
                }
            }
            if white_count > black_count {
                self.result = Some(Self::PLAYER_WHITE);
            } else if black_count > white_count {
                self.result = Some(Self::PLAYER_BLACK);
            } else {
                self.result = Some(2);
            }
            true
        } else {
            false
        }
    }

    /// Places a piece of `variant` at `pos` for the player to move (for the
    /// other player in the first two plies) on an empty cell, then decides
    /// a road or a flat win.
    pub fn place(&mut self, pos: usize, variant: usize)
        requires
            shape_ok(*old(self)),
            crate::takumi_spread::engine_wf(*old(self)),
            pos < old(self).size * old(self).size,
            !bit(old(self).occupied, pos as int),
            old(self).ply_index < usize::MAX,
            old(self).empty_positions >= 1,
            variant == 2 ==> (if old(self).current_player == 0 {
                old(self).white_capstones >= 1
            } else {
                old(self).black_capstones >= 1
            }),
            variant != 2 ==> (if old(self).current_player == 0 {
                old(self).white_pieces >= 1
            } else {
                old(self).black_pieces >= 1
            }),
        ensures
            place_post(*old(self), *final(self), pos as int, variant),
            shape_ok(*final(self)),
    {
        proof {
            assert(crate::takumi_spread::cell_ok(*old(self), pos as int));
            let sz = self.size;
            assert(sz * sz <= 64) by (nonlinear_arith)
                requires
                    3 <= sz <= 8,
            ;
        }
        let pos_mask = 1u64 << (pos as u64);
        let mut effective_player = self.current_player;
        if self.ply_index < 2 {
            effective_player = 1 - effective_player;
        }
        self.occupied = self.occupied | pos_mask;
        if effective_player == Self::PLAYER_BLACK {
            self.owner = self.owner | pos_mask;
        }
        if variant == Self::VARIANT_WALL {
            self.walls = self.walls | pos_mask;
        }
        if variant == Self::VARIANT_CAPSTONE {
            self.capstones = self.capstones | pos_mask;
            if self.current_player == Self::PLAYER_WHITE {
                self.white_capstones = self.white_capstones - 1;
            } else {
                self.black_capstones = self.black_capstones - 1;
            }
        } else {
            if self.current_player == Self::PLAYER_WHITE {
                self.white_pieces = self.white_pieces - 1;
            } else {
                self.black_pieces = self.black_pieces - 1;
            }
        }
        self.stack_heights.set(pos, 1);
        self.stacks.set(pos, effective_player);
        self.ply_index = self.ply_index + 1;
        self.current_player = 1 - self.current_player;
        self.empty_positions = self.empty_positions - 1;
        proof {
            lemma_bits(old(self).occupied, pos as u64, pos as u64);
            lemma_bits(old(self).owner, pos as u64, pos as u64);
            assert(shape_ok(*self));
        }
        let ghost mid = *self;
        if self.check_road_win(effective_player, pos) {
            return;
        }
        self.check_flat_win();
        proof {
            assert(mid.empty_positions == self.empty_positions);
        }
    }

    /// Takes back a placement of `variant` at `pos`: the cell is cleared, the
    /// piece goes back to its owner's reserve, and the game is open again.
    pub fn unplace(&mut self, pos: usize, variant: usize)
        requires
            shape_ok(*old(self)),
            pos < old(self).size * old(self).size,
            old(self).ply_index >= 1,
            old(self).empty_positions < usize::MAX,
            old(self).white_pieces < u64::MAX,
            old(self).black_pieces < u64::MAX,
            old(self).white_capstones < u64::MAX,
            old(self).black_capstones < u64::MAX,
        ensures
            unplace_post(*old(self), *final(self), pos as int, variant),
            shape_ok(*final(self)),
    {
        proof {
            let sz = self.size;
            assert(sz * sz <= 64) by (nonlinear_arith)
                requires
                    3 <= sz <= 8,
            ;
        }
        self.ply_index = self.ply_index - 1;
        self.current_player = 1 - self.current_player;
        self.empty_positions = self.empty_positions + 1;
        let not_pos_mask = !(1u64 << (pos as u64));
        self.owner = self.owner & not_pos_mask;
        self.occupied = self.occupied & not_pos_mask;
        self.walls = self.walls & not_pos_mask;
        self.capstones = self.capstones & not_pos_mask;
        self.stack_heights.set(pos, 0);
        self.stacks.set(pos, 0);
        self.result = None;
        if variant == Self::VARIANT_CAPSTONE {
            if self.current_player == Self::PLAYER_WHITE {
                self.white_capstones = self.white_capstones + 1;
            } else {
                self.black_capstones = self.black_capstones + 1;
            }
        } else {
            if self.current_player == Self::PLAYER_WHITE {
                self.white_pieces = self.white_pieces + 1;
            } else {
                self.black_pieces = self.black_pieces + 1;
            }
        }
    }
}

} // verus!
