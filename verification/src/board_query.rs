//! Reading a board: counting pieces, listing stacks and empty cells, and
//! checking that a board is consistent.
use vstd::prelude::*;

use crate::board::{
    cell_height, count_empty, lemma_total_pieces_ge, opt_view, placed_stack, place_check,
    top_player, total_pieces, undo_place_check, StackView, TakBoard, TakStack,
};
use crate::coord::{cell_index, coord_of, on_board, TakCoord};
use crate::text::{decimal, push_decimal, push_str};
use crate::{TakPieceVariant, TakPlayer};
use std::collections::HashSet;

verus! {

/// How many of the first `i` pieces of stack `s` belong to `p`, split into
/// stones and capstones (a capstone is the top piece of a capstone stack).
pub open spec fn stack_stones(s: StackView, p: TakPlayer, i: int) -> (nat, nat)
    decreases i,
{
    if i <= 0 {
        (0, 0)
    } else {
        let (a, b) = stack_stones(s, p, i - 1);
        if s.1[i - 1].player != p {
            (a, b)
        } else if s.0 == TakPieceVariant::Capstone && i - 1 == s.1.len() - 1 {
            (a, b + 1)
        } else {
            (a + 1, b)
        }
    }
}

/// The stones and capstones of `p` in the first `k` cells.
pub open spec fn board_stones(cells: Seq<Option<StackView>>, p: TakPlayer, k: int) -> (nat, nat)
    decreases k,
{
    if k <= 0 {
        (0, 0)
    } else {
        let (a, b) = board_stones(cells, p, k - 1);
        match cells[k - 1] {
            Some(s) => {
                let (c, d) = stack_stones(s, p, s.1.len() as int);
                (a + c, b + d)
            },
            None => (a, b),
        }
    }
}

/// The number of flat-topped stacks each player owns in the first `k` cells
/// (White first).
pub open spec fn board_flats(cells: Seq<Option<StackView>>, k: int) -> (nat, nat)
    decreases k,
{
    if k <= 0 {
        (0, 0)
    } else {
        let (w, b) = board_flats(cells, k - 1);
        match cells[k - 1] {
            Some(s) => if s.0 == TakPieceVariant::Flat && s.1.len() > 0 {
                if top_player(s) == TakPlayer::White {
                    (w + 1, b)
                } else {
                    (w, b + 1)
                }
            } else {
                (w, b)
            },
            None => (w, b),
        }
    }
}

proof fn lemma_stack_stones_le(s: StackView, p: TakPlayer, i: int)
    requires
        0 <= i <= s.1.len(),
    ensures
        stack_stones(s, p, i).0 + stack_stones(s, p, i).1 <= i,
    decreases i,
{
    if i > 0 {
        lemma_stack_stones_le(s, p, i - 1);
    }
}

proof fn lemma_board_stones_le(cells: Seq<Option<StackView>>, p: TakPlayer, k: int)
    requires
        0 <= k <= cells.len(),
    ensures
        board_stones(cells, p, k).0 + board_stones(cells, p, k).1 <= total_pieces(cells.take(k)),
    decreases k,
{
    if k > 0 {
        lemma_board_stones_le(cells, p, k - 1);
        assert(cells.take(k).drop_last() =~= cells.take(k - 1));
        if let Some(s) = cells[k - 1] {
            lemma_stack_stones_le(s, p, s.1.len() as int);
        }
    }
}

proof fn lemma_board_flats_le(cells: Seq<Option<StackView>>, k: int)
    requires
        0 <= k <= cells.len(),
        forall|i: int| 0 <= i < cells.len() ==> (#[trigger] cells[i] matches Some(s) ==> s.1.len() > 0),
    ensures
        board_flats(cells, k).0 + board_flats(cells, k).1 <= total_pieces(cells.take(k)),
    decreases k,
{
    if k > 0 {
        lemma_board_flats_le(cells, k - 1);
        assert(cells.take(k).drop_last() =~= cells.take(k - 1));
    }
}

/// Each player owns at most as many flat-topped stacks as there are cells.
pub proof fn lemma_board_flats_bound(cells: Seq<Option<StackView>>, k: int)
    requires
        0 <= k <= cells.len(),
    ensures
        board_flats(cells, k).0 <= k,
        board_flats(cells, k).1 <= k,
    decreases k,
{
    if k > 0 {
        lemma_board_flats_bound(cells, k - 1);
    }
}

/// A prefix of the cells holds no more pieces than all of them.
pub proof fn lemma_total_pieces_take(cells: Seq<Option<StackView>>, k: int)
    requires
        0 <= k <= cells.len(),
    ensures
        total_pieces(cells.take(k)) <= total_pieces(cells),
    decreases cells.len() - k,
{
    if k < cells.len() {
        lemma_total_pieces_take(cells, k + 1);
        assert(cells.take(k + 1).drop_last() =~= cells.take(k));
    } else {
        assert(cells.take(k) =~= cells);
    }
}

/// The positions and stacks of the first `k` cells, in cell order, that are
/// occupied and, when `player` is given, owned by that player.
pub open spec fn pieces_list(
    cells: Seq<Option<StackView>>,
    size: int,
    player: Option<TakPlayer>,
    k: int,
) -> Seq<(TakCoord, StackView)>
    decreases k,
{
    if k <= 0 {
        Seq::empty()
    } else {
        let prev = pieces_list(cells, size, player, k - 1);
        match cells[k - 1] {
            Some(s) => if player is None || top_player(s) == player.unwrap() {
                prev.push((coord_of(k - 1, size), s))
            } else {
                prev
            },
            None => prev,
        }
    }
}

/// The positions of the empty cells among the first `k`, in cell order.
pub open spec fn empty_list(cells: Seq<Option<StackView>>, size: int, k: int) -> Seq<TakCoord>
    decreases k,
{
    if k <= 0 {
        Seq::empty()
    } else {
        let prev = empty_list(cells, size, k - 1);
        if cells[k - 1] is None {
            prev.push(coord_of(k - 1, size))
        } else {
            prev
        }
    }
}

/// The ids of the pieces in the first `k` cells, in cell order, each stack from the bottom.
pub open spec fn all_ids(cells: Seq<Option<StackView>>, k: int) -> Seq<usize>
    decreases k,
{
    if k <= 0 {
        Seq::empty()
    } else {
        all_ids(cells, k - 1) + match cells[k - 1] {
            Some(s) => s.1.map_values(|p: crate::board::TakPiece| p.id),
            None => Seq::empty(),
        }
    }
}

/// A copy of a stack.
pub fn copy_stack(s: &TakStack) -> (r: TakStack)
    ensures
        r@ == s@,
{
    let mut comp: Vec<crate::board::TakPiece> = Vec::new();
    for i in 0..s.composition.len()
        invariant
            comp@ == s@.1.take(i as int),
    {
        comp.push(s.composition[i]);
        assert(s@.1.take(i as int).push(s@.1[i as int]) =~= s@.1.take(i + 1));
    }
    assert(s@.1.take(s@.1.len() as int) =~= s@.1);
    TakStack::new(s.variant, comp)
}

impl TakBoard {
    /// Whether the board is well formed in the sense of `wf`.
    pub fn is_well_formed(&self) -> (r: bool)
        ensures
            r == self.wf(),
    {
        let n = self.board.len();
        match self.size.checked_mul(self.size) {
            None => return false,
            Some(t) => {
                if t != n || self.size >= 0x7fff_ffff {
                    return false;
                }
            },
        }
        let mut empty: usize = 0;
        let mut total: usize = 0;
        for i in 0..n
            invariant
                n == self.board@.len(),
                empty == count_empty(self.cells().take(i as int)),
                total == total_pieces(self.cells().take(i as int)),
                empty <= i,
                forall|j: int| 0 <= j < i ==> (#[trigger] self.cells()[j] matches Some(s) ==> s.1.len() > 0),
        {
            assert(self.cells().take(i + 1).drop_last() =~= self.cells().take(i as int));
            match &self.board[i] {
                Some(s) => {
                    let h = s.composition.len();
                    if h == 0 {
                        assert(self.cells()[i as int] == Some(s@));
                        return false;
                    }
                    if h > usize::MAX - total {
                        proof {
                            lemma_total_pieces_take(self.cells(), i + 1);
                        }
                        return false;
                    }
                    total = total + h;
                },
                None => {
                    empty = empty + 1;
                },
            }
        }
        assert(self.cells().take(n as int) =~= self.cells());
        empty == self.empty_spaces && total == self.id_counter
    }

    /// The number of stones and capstones of `player` on the board; a capstone
    /// counts when it tops a capstone stack.
    pub fn count_stones(&self, player: TakPlayer) -> (r: (usize, usize))
        requires
            self.wf(),
        ensures
            (r.0 as nat, r.1 as nat) == board_stones(self.cells(), player, self.cells().len() as int),
    {
        let mut stone_count: usize = 0;
        let mut capstone_count: usize = 0;
        let n = self.board.len();
        proof {
            lemma_total_pieces_take(self.cells(), n as int);
        }
        for k in 0..n
            invariant
                self.wf(),
                n == self.board@.len(),
                (stone_count as nat, capstone_count as nat) == board_stones(self.cells(), player, k as int),
        {
            proof {
                lemma_board_stones_le(self.cells(), player, k + 1);
                lemma_total_pieces_take(self.cells(), k + 1);
            }
            match &self.board[k] {
                Some(stack) => {
                    let ghost s = stack@;
                    let len = stack.composition.len();
                    let ghost a0 = stone_count as nat;
                    let ghost b0 = capstone_count as nat;
                    for i in 0..len
                        invariant
                            len == s.1.len(),
                            s == stack@,
                            stone_count as nat == a0 + stack_stones(s, player, i as int).0,
                            capstone_count as nat == b0 + stack_stones(s, player, i as int).1,
                            a0 + b0 + stack_stones(s, player, len as int).0 + stack_stones(s, player, len as int).1 <= self.id_counter,
                    {
                        proof {
                            lemma_stack_stones_le(s, player, i + 1);
                            lemma_stack_stones_mono(s, player, i + 1, len as int);
                        }
                        if stack.composition[i].player == player {
                            if stack.variant == TakPieceVariant::Capstone && i == len - 1 {
                                capstone_count = capstone_count + 1;
                            } else {
                                stone_count = stone_count + 1;
                            }
                        }
                    }
                },
                None => {},
            }
        }
        (stone_count, capstone_count)
    }

    /// The number of flat-topped stacks each player owns: the flats that
    /// count for a flat win (White first).
    pub fn count_flats(&self) -> (r: [usize; 2])
        requires
            self.wf(),
        ensures
            (r@[0] as nat, r@[1] as nat) == board_flats(self.cells(), self.cells().len() as int),
    {
        let mut white: usize = 0;
        let mut black: usize = 0;
        let n = self.board.len();
        for k in 0..n
            invariant
                self.wf(),
                n == self.board@.len(),
                (white as nat, black as nat) == board_flats(self.cells(), k as int),
        {
            proof {
                lemma_board_flats_le(self.cells(), k + 1);
                lemma_total_pieces_take(self.cells(), k + 1);
            }
            match &self.board[k] {
                Some(stack) => {
                    if stack.variant == TakPieceVariant::Flat {
                        match stack.player() {
                            TakPlayer::White => white = white + 1,
                            TakPlayer::Black => black = black + 1,
                        }
                    }
                },
                None => {},
            }
        }
        [white, black]
    }

    /// The positions and stacks of the occupied cells, in cell order (row by
    /// row from y = 0), limited to the stacks owned by `player` when given.
    pub fn iter_pieces(&self, player: Option<TakPlayer>) -> (r: Vec<(TakCoord, &TakStack)>)
        requires
            self.wf(),
        ensures
            r@.len() == pieces_list(self.cells(), self.size as int, player, self.cells().len() as int).len(),
            forall|i: int|
                0 <= i < r@.len() ==> (#[trigger] r@[i]).0 == pieces_list(
                    self.cells(),
                    self.size as int,
                    player,
                    self.cells().len() as int,
                )[i].0 && r@[i].1@ == pieces_list(
                    self.cells(),
                    self.size as int,
                    player,
                    self.cells().len() as int,
                )[i].1,
    {
        let mut r: Vec<(TakCoord, &TakStack)> = Vec::new();
        let size = self.size;
        let n = self.board.len();
        let coords = TakCoord::iter_board(size);
        for k in 0..n
            invariant
                self.wf(),
                n == self.board@.len(),
                size == self.size,
                coords@.len() == n,
                forall|j: int| 0 <= j < n ==> #[trigger] coords@[j] == coord_of(j, size as int),
                r@.len() == pieces_list(self.cells(), size as int, player, k as int).len(),
                forall|i: int|
                    0 <= i < r@.len() ==> (#[trigger] r@[i]).0 == pieces_list(
                        self.cells(),
                        size as int,
                        player,
                        k as int,
                    )[i].0 && r@[i].1@ == pieces_list(self.cells(), size as int, player, k as int)[i].1,
        {
            let ghost prev = pieces_list(self.cells(), size as int, player, k as int);
            match &self.board[k] {
                Some(stack) => {
                    assert(self.cells()[k as int] == Some(stack@));
                    let keep = match player {
                        None => true,
                        Some(p) => stack.player() == p,
                    };
                    if keep {
                        r.push((coords[k], stack));
                    }
                },
                None => {},
            }
        }
        r
    }

    /// The positions of the empty cells, in cell order (row by row from y = 0).
    pub fn iter_empty_spaces(&self) -> (r: Vec<TakCoord>)
        requires
            self.wf(),
        ensures
            r@ == empty_list(self.cells(), self.size as int, self.cells().len() as int),
    {
        let mut r: Vec<TakCoord> = Vec::new();
        let size = self.size;
        let n = self.board.len();
        let coords = TakCoord::iter_board(size);
        for k in 0..n
            invariant
                self.wf(),
                n == self.board@.len(),
                size == self.size,
                coords@.len() == n,
                forall|j: int| 0 <= j < n ==> #[trigger] coords@[j] == coord_of(j, size as int),
                r@ == empty_list(self.cells(), size as int, k as int),
        {
            if self.board[k].is_none() {
                r.push(coords[k]);
            }
        }
        r
    }
}

proof fn lemma_stack_stones_mono(s: StackView, p: TakPlayer, i: int, j: int)
    requires
        0 <= i <= j <= s.1.len(),
    ensures
        stack_stones(s, p, i).0 <= stack_stones(s, p, j).0,
        stack_stones(s, p, i).1 <= stack_stones(s, p, j).1,
    decreases j - i,
{
    if i < j {
        lemma_stack_stones_mono(s, p, i, j - 1);
    }
}

/// Undoing a placement restores the board: after `try_place(pos, variant,
/// player)` succeeded, `try_undo_place(pos, variant, player)` is allowed and
/// gives back the cells, the id counter and the empty-cell count the board had.
pub proof fn law_undo_place_restores(
    b: TakBoard,
    m: TakBoard,
    pos: TakCoord,
    variant: TakPieceVariant,
    player: TakPlayer,
)
    requires
        b.wf(),
        place_check(b, pos) is Ok,
        m.size == b.size,
        m.board@.len() == b.board@.len(),
        m.cells() == b.cells().update(
            cell_index(pos, b.size as int),
            Some(placed_stack(variant, b.id_counter, player)),
        ),
        m.id_counter == b.id_counter + 1,
        m.empty_spaces == b.empty_spaces - 1,
    ensures
        undo_place_check(m, pos, variant, player) is Ok,
        m.cells().update(cell_index(pos, b.size as int), None) == b.cells(),
        m.id_counter - 1 == b.id_counter,
        m.empty_spaces + 1 == b.empty_spaces,
{
    let k = cell_index(pos, b.size as int);
    assert(m.cells().update(k, None) =~= b.cells());
}

/// The message for a piece id seen twice.
pub open spec fn duplicate_id_message(id: usize) -> Seq<char> {
    "Duplicate piece ID found: "@ + decimal(id as nat)
}

/// The message for a piece id at or above the counter.
pub open spec fn id_too_large_message(id: usize, counter: usize) -> Seq<char> {
    "Piece ID "@ + decimal(id as nat) + " is greater than or equal to id_counter "@ + decimal(
        counter as nat,
    )
}

/// The message for a mismatch between two counts.
pub open spec fn mismatch_message(what: Seq<char>, expected: nat, got: nat) -> Seq<char> {
    what + " mismatch: expected "@ + decimal(expected) + ", got "@ + decimal(got)
}

/// Checks the pieces of stack `s` from the `i`-th on: each id must be new
/// and below `counter`. Gives the ids seen, or the first message.
pub open spec fn stack_scan(s: StackView, i: int, ids: Set<usize>, counter: usize) -> Result<Set<usize>, Seq<char>>
    decreases s.1.len() - i,
{
    if i < 0 || i >= s.1.len() {
        Ok(ids)
    } else {
        let id = s.1[i].id;
        if ids.contains(id) {
            Err(duplicate_id_message(id))
        } else if id >= counter {
            Err(id_too_large_message(id, counter))
        } else {
            stack_scan(s, i + 1, ids.insert(id), counter)
        }
    }
}

/// Checks the cells from the `k`-th on, counting empty cells into `empties`:
/// no stack may be empty and its pieces must pass `stack_scan`. Gives the
/// ids seen and the empty cells counted, or the first message.
pub open spec fn cells_scan(
    cells: Seq<Option<StackView>>,
    k: int,
    ids: Set<usize>,
    empties: nat,
    counter: usize,
) -> Result<(Set<usize>, nat), Seq<char>>
    decreases cells.len() - k,
{
    if k < 0 || k >= cells.len() {
        Ok((ids, empties))
    } else {
        match cells[k] {
            None => cells_scan(cells, k + 1, ids, empties + 1, counter),
            Some(s) => if s.1.len() == 0 {
                Err("Stack cannot be empty"@)
            } else {
                match stack_scan(s, 0, ids, counter) {
                    Err(m) => Err(m),
                    Ok(ids2) => cells_scan(cells, k + 1, ids2, empties, counter),
                }
            },
        }
    }
}

/// What `validate` reports for a board of a size whose square fits in `usize`.
pub open spec fn validation(b: TakBoard) -> Result<(), Seq<char>> {
    if b.size < 1 {
        Err("Board size must be at least 1"@)
    } else if b.board@.len() != b.size * b.size {
        Err(mismatch_message("Board size"@, (b.size * b.size) as nat, b.board@.len()))
    } else {
        match cells_scan(b.cells(), 0, Set::empty(), 0, b.id_counter) {
            Err(m) => Err(m),
            Ok((ids, empties)) => if b.id_counter != ids.len() {
                Err(mismatch_message("ID counter"@, ids.len(), b.id_counter as nat))
            } else if b.empty_spaces != empties {
                Err(mismatch_message("Empty spaces"@, b.empty_spaces as nat, empties))
            } else {
                Ok(())
            },
        }
    }
}

/// The message of a count mismatch as a string.
fn mismatch_string(what: &str, expected: usize, got: usize) -> (r: String)
    ensures
        r@ == mismatch_message(what@, expected as nat, got as nat),
{
    let mut m = String::new();
    push_str(&mut m, what);
    push_str(&mut m, " mismatch: expected ");
    push_decimal(&mut m, expected);
    push_str(&mut m, ", got ");
    push_decimal(&mut m, got);
    m
}

impl TakBoard {
    /// Checks that the board is consistent: at least one cell a side,
    /// `size * size` cells, no empty stack, piece ids all different and below
    /// the counter, as many ids as the counter says and as many empty cells
    /// as recorded. The error names the first problem found.
    pub fn validate(&self) -> (r: Result<(), String>)
        requires
            self.size * self.size <= usize::MAX,
        ensures
            match r {
                Ok(()) => validation(*self) is Ok,
                Err(m) => validation(*self) == Err::<(), Seq<char>>(m@),
            },
    {
        broadcast use vstd::std_specs::hash::group_hash_axioms;
        if self.size < 1 {
            return Err("Board size must be at least 1".to_owned());
        }
        if self.board.len() != self.size * self.size {
            return Err(mismatch_string("Board size", self.size * self.size, self.board.len()));
        }
        let ghost cells = self.cells();
        let ghost counter = self.id_counter;
        let mut id_set: HashSet<usize> = HashSet::new();
        let mut empty_count: usize = 0;
        let n = self.board.len();
        for k in 0..n
            invariant
                n == self.board@.len(),
                self.size >= 1,
                n == self.size * self.size,
                cells == self.cells(),
                counter == self.id_counter,
                empty_count <= k,
                cells_scan(cells, 0, Set::empty(), 0, counter) == cells_scan(
                    cells,
                    k as int,
                    id_set@,
                    empty_count as nat,
                    counter,
                ),
                id_set@.finite(),
                forall|x: usize| #[trigger] id_set@.contains(x) ==> x < counter,
                id_set@.len() <= total_pieces(cells.take(k as int)),
        {
            proof {
                assert(cells.take(k + 1).drop_last() =~= cells.take(k as int));
            }
            match &self.board[k] {
                Some(stack) => {
                    let ghost s = stack@;
                    assert(cells[k as int] == Some(s));
                    if stack.composition.len() == 0 {
                        return Err("Stack cannot be empty".to_owned());
                    }
                    let ghost ids0 = id_set@;
                    let m = stack.composition.len();
                    for i in 0..m
                        invariant
                            m == s.1.len(),
                            s == stack@,
                            n == self.board@.len(),
                            self.size >= 1,
                            n == self.size * self.size,
                            cells == self.cells(),
                            counter == self.id_counter,
                            k < n,
                            cells[k as int] == Some(s),
                            s.1.len() > 0,
                            cells_scan(cells, 0, Set::empty(), 0, counter) == (match stack_scan(s, 0, ids0, counter) {
                                Err(e) => Err(e),
                                Ok(ids2) => cells_scan(cells, k + 1, ids2, empty_count as nat, counter),
                            }),
                            stack_scan(s, 0, ids0, counter) == stack_scan(s, i as int, id_set@, counter),
                            id_set@.finite(),
                            forall|x: usize| #[trigger] id_set@.contains(x) ==> x < counter,
                            id_set@.len() <= ids0.len() + i,
                    {
                        let id = stack.composition[i].id;
                        if !id_set.insert(id) {
                            let mut msg = String::new();
                            push_str(&mut msg, "Duplicate piece ID found: ");
                            push_decimal(&mut msg, id);
                            return Err(msg);
                        }
                        if id >= self.id_counter {
                            let mut msg = String::new();
                            push_str(&mut msg, "Piece ID ");
                            push_decimal(&mut msg, id);
                            push_str(&mut msg, " is greater than or equal to id_counter ");
                            push_decimal(&mut msg, self.id_counter);
                            return Err(msg);
                        }
                    }
                },
                None => {
                    empty_count = empty_count + 1;
                },
            }
        }
        if self.id_counter != id_set.len() {
            return Err(mismatch_string("ID counter", id_set.len(), self.id_counter));
        }
        if self.empty_spaces != empty_count {
            return Err(mismatch_string("Empty spaces", self.empty_spaces, empty_count));
        }
        Ok(())
    }
}

} // verus!
