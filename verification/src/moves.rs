//! Moving stacks across the board, and undoing such moves.
use vstd::prelude::*;

use crate::board::{
    cell_height, count_empty, lemma_count_empty_pos, lemma_count_empty_update,
    lemma_total_pieces_update, total_pieces, StackView, TakBoard, TakPiece, TakStack,
};
use crate::coord::{cell_index, lemma_index_injective, on_board, step, step_fits, TakCoord, TakDir};
use crate::{TakInvalidMoveError, TakInvalidUndoMoveError, TakPieceVariant};

verus! {

/// The sum of the first `i` drop counts.
pub open spec fn drop_sum(drops: Seq<usize>, i: int) -> int
    decreases i,
{
    if i <= 0 {
        0
    } else {
        drop_sum(drops, i - 1) + drops[i - 1]
    }
}

/// Whether position `c` is on the board and inside its cells.
pub open spec fn in_board(b: TakBoard, c: TakCoord) -> bool {
    on_board(c, b.size as int) && cell_index(c, b.size as int) < b.board@.len()
}

/// The checks of a move along the drops, from drop `i` on, for a moving stack
/// whose top is `mover`; `flat` tells whether a wall has been flattened so far.
pub open spec fn move_scan(
    b: TakBoard,
    pos: TakCoord,
    dir: TakDir,
    take: int,
    drops: Seq<usize>,
    mover: TakPieceVariant,
    i: int,
    flat: bool,
) -> Result<bool, TakInvalidMoveError>
    decreases drops.len() - i,
{
    if i >= drops.len() {
        if drop_sum(drops, drops.len() as int) != take {
            Err(TakInvalidMoveError::InvalidDropCount)
        } else {
            Ok(flat)
        }
    } else {
        let d = drops[i];
        let c = step(pos, dir, i + 1);
        if d < 1 || drop_sum(drops, i + 1) > take {
            Err(TakInvalidMoveError::InvalidDropCount)
        } else if !in_board(b, c) {
            Err(TakInvalidMoveError::InvalidDirection)
        } else {
            match b.cell(c) {
                None => move_scan(b, pos, dir, take, drops, mover, i + 1, flat),
                Some(s) => match s.0 {
                    TakPieceVariant::Flat => move_scan(b, pos, dir, take, drops, mover, i + 1, flat),
                    TakPieceVariant::Capstone => Err(TakInvalidMoveError::Blocked),
                    TakPieceVariant::Wall => {
                        if i != drops.len() - 1 || d != 1 || mover != TakPieceVariant::Capstone {
                            Err(TakInvalidMoveError::Blocked)
                        } else {
                            move_scan(b, pos, dir, take, drops, mover, i + 1, true)
                        }
                    },
                },
            }
        }
    }
}

/// What checking a move gives: `Ok(flattens)` when the move is legal, where
/// `flattens` tells whether a capstone flattens a wall, or the first failure.
pub open spec fn move_check(
    b: TakBoard,
    pos: TakCoord,
    dir: TakDir,
    take: int,
    drops: Seq<usize>,
) -> Result<bool, TakInvalidMoveError> {
    if take < 1 || take > b.size {
        Err(TakInvalidMoveError::InvalidTakeCount)
    } else if !in_board(b, pos) {
        Err(TakInvalidMoveError::PositionEmpty)
    } else {
        match b.cell(pos) {
            None => Err(TakInvalidMoveError::InvalidPosition),
            Some(s) => {
                if s.1.len() < take {
                    Err(TakInvalidMoveError::NotEnoughPieces)
                } else {
                    move_scan(b, pos, dir, take, drops, s.0, 0, false)
                }
            },
        }
    }
}

/// A cell after `pieces` are dropped on it and its top becomes `v`.
pub open spec fn drop_onto(c: Option<StackView>, pieces: Seq<TakPiece>, v: TakPieceVariant) -> Option<
    StackView,
> {
    match c {
        None => Some((v, pieces)),
        Some(s) => Some((v, s.1 + pieces)),
    }
}

/// The variant the stack at drop `i` of `n` gets: the mover's on the last drop,
/// flat elsewhere.
pub open spec fn drop_variant(n: int, i: int, mover: TakPieceVariant) -> TakPieceVariant {
    if i == n - 1 {
        mover
    } else {
        TakPieceVariant::Flat
    }
}

/// The pieces dropped at drop `i`: the next `drops[i]` pieces from the bottom
/// of the carried pieces.
pub open spec fn chunk(moved: Seq<TakPiece>, drops: Seq<usize>, i: int) -> Seq<TakPiece> {
    moved.subrange(drop_sum(drops, i), drop_sum(drops, i + 1))
}

/// The cells after the first `i` drops of the carried pieces `moved`.
pub open spec fn apply_drops(
    cells: Seq<Option<StackView>>,
    size: int,
    pos: TakCoord,
    dir: TakDir,
    moved: Seq<TakPiece>,
    drops: Seq<usize>,
    mover: TakPieceVariant,
    i: int,
) -> Seq<Option<StackView>>
    decreases i,
{
    if i <= 0 {
        cells
    } else {
        let prev = apply_drops(cells, size, pos, dir, moved, drops, mover, i - 1);
        let k = cell_index(step(pos, dir, i), size);
        prev.update(
            k,
            drop_onto(prev[k], chunk(moved, drops, i - 1), drop_variant(drops.len() as int, i - 1, mover)),
        )
    }
}

/// The source cell after `take` pieces are lifted from stack `s`.
pub open spec fn lift(s: StackView, take: int) -> Option<StackView> {
    if s.1.len() == take {
        None
    } else {
        Some((TakPieceVariant::Flat, s.1.subrange(0, s.1.len() - take)))
    }
}

/// The `take` pieces lifted from the top of `s`, bottom first.
pub open spec fn lifted(s: StackView, take: int) -> Seq<TakPiece> {
    s.1.subrange(s.1.len() - take, s.1.len() as int)
}

/// The cells after moving `take` pieces from `pos` in direction `dir`, dropping
/// `drops[i]` of them on the `i + 1`-th cell.
pub open spec fn move_cells(
    cells: Seq<Option<StackView>>,
    size: int,
    pos: TakCoord,
    dir: TakDir,
    take: int,
    drops: Seq<usize>,
) -> Seq<Option<StackView>> {
    let k = cell_index(pos, size);
    let s = cells[k].unwrap();
    apply_drops(
        cells.update(k, lift(s, take)),
        size,
        pos,
        dir,
        lifted(s, take),
        drops,
        s.0,
        drops.len() as int,
    )
}

/// The checks of undoing a move along the drops, from drop `i` on.
pub open spec fn undo_scan(
    b: TakBoard,
    pos: TakCoord,
    dir: TakDir,
    take: int,
    drops: Seq<usize>,
    flattened: bool,
    i: int,
) -> Result<(), TakInvalidUndoMoveError>
    decreases drops.len() - i,
{
    if i >= drops.len() {
        if drop_sum(drops, drops.len() as int) != take {
            Err(TakInvalidUndoMoveError::InvalidDropCount)
        } else {
            Ok(())
        }
    } else {
        let d = drops[i];
        let c = step(pos, dir, i + 1);
        if d < 1 || drop_sum(drops, i + 1) > take {
            Err(TakInvalidUndoMoveError::InvalidDropCount)
        } else if !in_board(b, c) {
            Err(TakInvalidUndoMoveError::InvalidPosition)
        } else {
            match b.cell(c) {
                None => Err(TakInvalidUndoMoveError::ActionMismatch),
                Some(s) => {
                    if s.1.len() < d {
                        Err(TakInvalidUndoMoveError::InvalidDropCount)
                    } else if i != drops.len() - 1 {
                        if s.0 == TakPieceVariant::Flat {
                            undo_scan(b, pos, dir, take, drops, flattened, i + 1)
                        } else {
                            Err(TakInvalidUndoMoveError::ActionMismatch)
                        }
                    } else if flattened && (s.0 != TakPieceVariant::Capstone || s.1.len() < 2) {
                        Err(TakInvalidUndoMoveError::ActionMismatch)
                    } else {
                        undo_scan(b, pos, dir, take, drops, flattened, i + 1)
                    }
                },
            }
        }
    }
}

/// What checking the undoing of a move gives.
pub open spec fn undo_move_check(
    b: TakBoard,
    pos: TakCoord,
    dir: TakDir,
    take: int,
    drops: Seq<usize>,
    flattened: bool,
) -> Result<(), TakInvalidUndoMoveError> {
    if take < 1 || take > b.size {
        Err(TakInvalidUndoMoveError::InvalidTakeCount)
    } else if !in_board(b, pos) {
        Err(TakInvalidUndoMoveError::InvalidPosition)
    } else if b.cell(pos) matches Some(s) && s.0 != TakPieceVariant::Flat {
        Err(TakInvalidUndoMoveError::ActionMismatch)
    } else {
        undo_scan(b, pos, dir, take, drops, flattened, 0)
    }
}

/// The top `d` pieces of a cell.
pub open spec fn top_pieces(c: Option<StackView>, d: int) -> Seq<TakPiece> {
    c.unwrap().1.subrange(c.unwrap().1.len() - d, c.unwrap().1.len() as int)
}

/// A cell after its top `d` pieces are lifted back; `last_wall` tells whether
/// the piece left on top was a wall before the move.
pub open spec fn unstack_cell(c: Option<StackView>, d: int, last_wall: bool) -> Option<StackView> {
    let s = c.unwrap();
    if s.1.len() == d {
        None
    } else {
        Some(
            (
                if last_wall {
                    TakPieceVariant::Wall
                } else {
                    TakPieceVariant::Flat
                },
                s.1.subrange(0, s.1.len() - d),
            ),
        )
    }
}

/// The cells after lifting back the first `i` drops, the pieces gathered so
/// far, and the variant of the moved stack's top (known after the last drop).
pub open spec fn unstack(
    cells: Seq<Option<StackView>>,
    size: int,
    pos: TakCoord,
    dir: TakDir,
    drops: Seq<usize>,
    flattened: bool,
    i: int,
) -> (Seq<Option<StackView>>, Seq<TakPiece>, TakPieceVariant)
    decreases i,
{
    if i <= 0 {
        (cells, Seq::empty(), TakPieceVariant::Flat)
    } else {
        let prev = unstack(cells, size, pos, dir, drops, flattened, i - 1);
        let k = cell_index(step(pos, dir, i), size);
        let c = prev.0[k];
        let d = drops[i - 1] as int;
        let last = i - 1 == drops.len() - 1;
        (
            prev.0.update(k, unstack_cell(c, d, last && flattened)),
            prev.1 + top_pieces(c, d),
            if last {
                c.unwrap().0
            } else {
                prev.2
            },
        )
    }
}

/// The cells after undoing the move from `pos` in direction `dir` with the given drops.
pub open spec fn undo_cells(
    cells: Seq<Option<StackView>>,
    size: int,
    pos: TakCoord,
    dir: TakDir,
    drops: Seq<usize>,
    flattened: bool,
) -> Seq<Option<StackView>> {
    let u = unstack(cells, size, pos, dir, drops, flattened, drops.len() as int);
    let k = cell_index(pos, size);
    u.0.update(k, drop_onto(u.0[k], u.1, u.2))
}

/// Steps along a line from a position on the board stay distinct from it and
/// from each other.
pub proof fn lemma_ray_distinct(pos: TakCoord, dir: TakDir, i: int, j: int, size: int)
    requires
        0 <= i < j,
        step_fits(pos, dir, i),
        step_fits(pos, dir, j),
        on_board(step(pos, dir, i), size),
        on_board(step(pos, dir, j), size),
    ensures
        cell_index(step(pos, dir, i), size) != cell_index(step(pos, dir, j), size),
{
    if cell_index(step(pos, dir, i), size) == cell_index(step(pos, dir, j), size) {
        lemma_index_injective(step(pos, dir, i), step(pos, dir, j), size);
    }
}

proof fn lemma_drop_sum_mono(drops: Seq<usize>, i: int, j: int)
    requires
        0 <= i <= j,
    ensures
        drop_sum(drops, i) <= drop_sum(drops, j),
    decreases j - i,
{
    if i < j {
        lemma_drop_sum_mono(drops, i, j - 1);
    }
}

impl TakBoard {
    /// Checks whether `take` pieces can move from `pos` in direction `dir`,
    /// dropping `drops[i]` pieces on the `i + 1`-th cell along the way. Gives
    /// whether the move flattens a wall with a capstone.
    pub fn can_move(&self, pos: TakCoord, dir: TakDir, take: usize, drops: &[usize]) -> (r: Result<
        bool,
        TakInvalidMoveError,
    >)
        requires
            self.wf(),
        ensures
            r == move_check(*self, pos, dir, take as int, drops@),
    {
        if take < 1 || take > self.size {
            return Err(TakInvalidMoveError::InvalidTakeCount);
        }
        let stack = match pos.try_get(self.board.as_slice(), self.size) {
            Some(Some(stack)) => stack,
            Some(None) => return Err(TakInvalidMoveError::InvalidPosition),
            None => return Err(TakInvalidMoveError::PositionEmpty),
        };
        if stack.height() < take {
            return Err(TakInvalidMoveError::NotEnoughPieces);
        }
        let drop_len = drops.len();
        let mut drop_total: usize = 0;
        let mut current_pos = pos;
        let mut is_flattening = false;
        proof {
            crate::coord::lemma_step_zero(pos, dir);
        }
        for i in 0..drop_len
            invariant
                self.wf(),
                drop_len == drops@.len(),
                1 <= take <= self.size,
                in_board(*self, pos),
                self.cell(pos) == Some(stack@),
                stack@.1.len() >= take,
                drop_total == drop_sum(drops@, i as int),
                drop_total <= take,
                current_pos == step(pos, dir, i as int),
                step_fits(pos, dir, i as int),
                in_board(*self, current_pos),
                move_check(*self, pos, dir, take as int, drops@) == move_scan(
                    *self,
                    pos,
                    dir,
                    take as int,
                    drops@,
                    stack@.0,
                    i as int,
                    is_flattening,
                ),
        {
            let drop = drops[i];
            if drop < 1 || drop > take - drop_total {
                return Err(TakInvalidMoveError::InvalidDropCount);
            }
            drop_total = drop_total + drop;
            proof {
                crate::coord::lemma_step_succ(pos, dir, i as int);
                crate::coord::lemma_step_fits_next(pos, dir, i as int, self.size as int);
            }
            current_pos = current_pos.offset_dir(dir);
            match current_pos.try_get(self.board.as_slice(), self.size) {
                Some(None) => {},
                Some(Some(other_stack)) => match other_stack.variant {
                    TakPieceVariant::Flat => {},
                    TakPieceVariant::Capstone => {
                        return Err(TakInvalidMoveError::Blocked);
                    },
                    TakPieceVariant::Wall => {
                        if i != drop_len - 1 || drop != 1 || stack.variant != TakPieceVariant::Capstone {
                            return Err(TakInvalidMoveError::Blocked);
                        } else {
                            is_flattening = true;
                        }
                    },
                },
                None => return Err(TakInvalidMoveError::InvalidDirection),
            }
        }
        if drop_total != take {
            return Err(TakInvalidMoveError::InvalidDropCount);
        }
        Ok(is_flattening)
    }
}

} // verus!

verus! {

/// The cells below drop `i` hold enough carried pieces and lie on the board.
pub open spec fn drops_fit(b: TakBoard, pos: TakCoord, dir: TakDir, take: int, drops: Seq<usize>) -> bool {
    &&& forall|i: int| 0 <= i < drops.len() ==> #[trigger] drop_sum(drops, i + 1) <= take
    &&& forall|j: int| 1 <= j <= drops.len() ==> #[trigger] step_in_board(b, pos, dir, j)
}

/// Step `j` from `pos` in direction `dir` fits in `i32` and is inside the board.
pub open spec fn step_in_board(b: TakBoard, pos: TakCoord, dir: TakDir, j: int) -> bool {
    step_fits(pos, dir, j) && in_board(b, step(pos, dir, j))
}

/// Every drop leaves at least one piece and all carried pieces are dropped.
pub open spec fn drops_exact(take: int, drops: Seq<usize>) -> bool {
    &&& forall|i: int| 0 <= i < drops.len() ==> #[trigger] drops[i] >= 1
    &&& drop_sum(drops, drops.len() as int) == take
}

/// Copies `v[from..to]`.
fn copy_pieces(v: &Vec<TakPiece>, from: usize, to: usize) -> (r: Vec<TakPiece>)
    requires
        from <= to <= v@.len(),
    ensures
        r@ == v@.subrange(from as int, to as int),
{
    let mut r: Vec<TakPiece> = Vec::new();
    for i in from..to
        invariant
            from <= to <= v@.len(),
            r@ == v@.subrange(from as int, i as int),
    {
        r.push(v[i]);
        assert(v@.subrange(from as int, i as int).push(v@[i as int]) =~= v@.subrange(
            from as int,
            i + 1,
        ));
    }
    r
}

impl TakBoard {
    /// Moves `take` pieces from `pos` in direction `dir`, dropping `drops[i]` of
    /// them, bottom first, on the `i + 1`-th cell; the stack left behind becomes
    /// flat and the last cell's top gets the moving stack's variant. Nothing is
    /// checked beyond what keeps the move from failing.
    pub fn do_move_unchecked(&mut self, pos: TakCoord, dir: TakDir, take: usize, drops: &[usize])
        requires
            old(self).wf(),
            in_board(*old(self), pos),
            old(self).cell(pos) is Some,
            take <= old(self).cell(pos).unwrap().1.len(),
            drops_fit(*old(self), pos, dir, take as int, drops@),
        ensures
            final(self).cells() == move_cells(
                old(self).cells(),
                old(self).size as int,
                pos,
                dir,
                take as int,
                drops@,
            ),
            final(self).size == old(self).size,
            final(self).id_counter == old(self).id_counter,
            final(self).board@.len() == old(self).board@.len(),
            final(self).empty_spaces == count_empty(final(self).cells()),
            drops_exact(take as int, drops@) ==> final(self).wf(),
    {
        let drop_len = drops.len();
        let _len = self.board.len();
        let k = pos.index_in(self.size);
        let ghost c0 = self.cells();
        let ghost s = c0[k as int].unwrap();
        let stack = self.take_cell(k).unwrap();
        let variant = stack.variant;
        let h = stack.composition.len();
        let mut comp = stack.composition;
        let moved = comp.split_off(h - take);
        let ghost c1 = c0.update(k as int, lift(s, take as int));
        proof {
            assert(moved@ =~= lifted(s, take as int));
            lemma_count_empty_update(c0, k as int, None);
            lemma_total_pieces_update(c0, k as int, lift(s, take as int));
            crate::board::lemma_count_empty_le(c0.update(k as int, None));
        }
        if h == take {
            self.empty_spaces = self.empty_spaces + 1;
            assert(self.cells() =~= c1);
        } else {
            self.board.set(k, Some(TakStack::new(TakPieceVariant::Flat, comp)));
            assert(self.cells() =~= c1);
            proof {
                lemma_count_empty_update(c0.update(k as int, None), k as int, lift(s, take as int));
                assert(c0.update(k as int, None).update(k as int, lift(s, take as int)) =~= c1);
            }
        }
        let mut total: usize = 0;
        let mut current_pos = pos;
        proof {
            crate::coord::lemma_step_zero(pos, dir);
        }
        for i in 0..drop_len
            invariant
                drop_len == drops@.len(),
                self.size == old(self).size,
                self.id_counter == old(self).id_counter,
                self.board@.len() == old(self).board@.len(),
                self.board@.len() == self.size * self.size,
                self.size * self.size <= usize::MAX,
                self.size < i32::MAX,
                in_board(*old(self), step(pos, dir, i as int)),
                drops_fit(*old(self), pos, dir, take as int, drops@),
                moved@ == lifted(s, take as int),
                variant == s.0,
                take <= s.1.len(),
                c1 == old(self).cells().update(k as int, lift(s, take as int)),
                total == drop_sum(drops@, i as int),
                total <= take,
                current_pos == step(pos, dir, i as int),
                step_fits(pos, dir, i as int),
                self.cells() == apply_drops(
                    c1,
                    self.size as int,
                    pos,
                    dir,
                    moved@,
                    drops@,
                    variant,
                    i as int,
                ),
                self.empty_spaces == count_empty(self.cells()),
                total_pieces(self.cells()) + take - total == old(self).id_counter,
                (forall|j: int| 0 <= j < drops@.len() ==> #[trigger] drops@[j] >= 1) ==> forall|
                    m: int,
                |
                    0 <= m < self.board@.len() ==> (#[trigger] self.cells()[m] matches Some(t)
                        ==> t.1.len() > 0),
        {
            let d = drops[i];
            proof {
                assert(drop_sum(drops@, i + 1) <= take);
                crate::coord::lemma_step_succ(pos, dir, i as int);
                crate::coord::lemma_step_fits_next(pos, dir, i as int, self.size as int);
            }
            let chunk_v = copy_pieces(&moved, total, total + d);
            current_pos = current_pos.offset_dir(dir);
            assert(step_in_board(*old(self), pos, dir, i + 1));
            let kk = current_pos.index_in(self.size);
            let new_variant = if i == drop_len - 1 {
                variant
            } else {
                TakPieceVariant::Flat
            };
            let ghost ci = self.cells();
            let ghost newc = drop_onto(ci[kk as int], chunk_v@, new_variant);
            let tile = self.take_cell(kk);
            match tile {
                None => {
                    proof {
                        lemma_count_empty_pos(ci, kk as int);
                    }
                    self.board.set(kk, Some(TakStack::new(new_variant, chunk_v)));
                    self.empty_spaces = self.empty_spaces - 1;
                },
                Some(mut st) => {
                    let mut cv = chunk_v;
                    st.composition.append(&mut cv);
                    st.variant = new_variant;
                    self.board.set(kk, Some(st));
                },
            }
            proof {
                assert(self.cells() =~= ci.update(kk as int, newc));
                lemma_count_empty_update(ci, kk as int, newc);
                lemma_total_pieces_update(ci, kk as int, newc);
                assert(chunk_v@ == chunk(moved@, drops@, i as int));
                crate::coord::lemma_step_fits_next(pos, dir, i as int, self.size as int);
            }
            total = total + d;
        }
        proof {
            if drops_exact(take as int, drops@) {
                assert(total == take);
            }
        }
    }
}

} // verus!

verus! {

/// Whether a cell holds a wall.
pub open spec fn is_wall_cell(c: Option<StackView>) -> bool {
    c matches Some(s) && s.0 == TakPieceVariant::Wall
}

/// The steps `1..=i` from `pos` in direction `dir` are on a board of the given size.
pub open spec fn ray_on_board(pos: TakCoord, dir: TakDir, i: int, size: int) -> bool {
    forall|j: int| 1 <= j <= i ==> #[trigger] ray_ok(pos, dir, j, size)
}

/// Step `j` from `pos` in direction `dir` fits in `i32` and is on the board.
pub open spec fn ray_ok(pos: TakCoord, dir: TakDir, j: int, size: int) -> bool {
    step_fits(pos, dir, j) && on_board(step(pos, dir, j), size)
}

/// The pieces gathered by lifting back the first `i` drops from the cells.
pub open spec fn tops(
    cells: Seq<Option<StackView>>,
    size: int,
    pos: TakCoord,
    dir: TakDir,
    drops: Seq<usize>,
    i: int,
) -> Seq<TakPiece>
    decreases i,
{
    if i <= 0 {
        Seq::empty()
    } else {
        tops(cells, size, pos, dir, drops, i - 1) + top_pieces(
            cells[cell_index(step(pos, dir, i), size)],
            drops[i - 1] as int,
        )
    }
}

proof fn lemma_ray_prefix(pos: TakCoord, dir: TakDir, i: int, m: int, size: int)
    requires
        ray_on_board(pos, dir, i, size),
        m <= i,
    ensures
        ray_on_board(pos, dir, m, size),
{
    assert forall|j: int| 1 <= j <= m implies #[trigger] ray_ok(pos, dir, j, size) by {
        assert(ray_ok(pos, dir, j, size));
    }
}

proof fn lemma_ray_index_bounds(pos: TakCoord, dir: TakDir, j: int, size: int)
    requires
        on_board(step(pos, dir, j), size),
    ensures
        0 <= cell_index(step(pos, dir, j), size) < size * size,
{
    crate::coord::lemma_index_bounds_pub(step(pos, dir, j), size);
}

proof fn lemma_apply_drops_frame(
    cells: Seq<Option<StackView>>,
    size: int,
    pos: TakCoord,
    dir: TakDir,
    moved: Seq<TakPiece>,
    drops: Seq<usize>,
    mover: TakPieceVariant,
    i: int,
    k: int,
)
    requires
        0 <= i,
        cells.len() == size * size,
        ray_on_board(pos, dir, i, size),
        0 <= k < cells.len(),
        forall|j: int| 1 <= j <= i ==> k != #[trigger] cell_index(step(pos, dir, j), size),
    ensures
        apply_drops(cells, size, pos, dir, moved, drops, mover, i)[k] == cells[k],
        apply_drops(cells, size, pos, dir, moved, drops, mover, i).len() == cells.len(),
    decreases i,
{
    if i > 0 {
        assert(k != cell_index(step(pos, dir, i), size));
        assert(ray_ok(pos, dir, i, size));
        lemma_ray_index_bounds(pos, dir, i, size);
        lemma_ray_prefix(pos, dir, i, i - 1, size);
        lemma_apply_drops_frame(cells, size, pos, dir, moved, drops, mover, i - 1, k);
    }
}

proof fn lemma_apply_drops_len(
    cells: Seq<Option<StackView>>,
    size: int,
    pos: TakCoord,
    dir: TakDir,
    moved: Seq<TakPiece>,
    drops: Seq<usize>,
    mover: TakPieceVariant,
    i: int,
)
    requires
        0 <= i,
        cells.len() == size * size,
        ray_on_board(pos, dir, i, size),
    ensures
        apply_drops(cells, size, pos, dir, moved, drops, mover, i).len() == cells.len(),
    decreases i,
{
    if i > 0 {
        assert(ray_ok(pos, dir, i, size));
        lemma_ray_index_bounds(pos, dir, i, size);
        lemma_ray_prefix(pos, dir, i, i - 1, size);
        lemma_apply_drops_len(cells, size, pos, dir, moved, drops, mover, i - 1);
    }
}

proof fn lemma_apply_drops_at(
    cells: Seq<Option<StackView>>,
    size: int,
    pos: TakCoord,
    dir: TakDir,
    moved: Seq<TakPiece>,
    drops: Seq<usize>,
    mover: TakPieceVariant,
    i: int,
    j: int,
)
    requires
        1 <= j <= i,
        cells.len() == size * size,
        ray_on_board(pos, dir, i, size),
    ensures
        apply_drops(cells, size, pos, dir, moved, drops, mover, i)[cell_index(step(pos, dir, j), size)]
            == drop_onto(
            cells[cell_index(step(pos, dir, j), size)],
            chunk(moved, drops, j - 1),
            drop_variant(drops.len() as int, j - 1, mover),
        ),
    decreases i,
{
    assert(ray_ok(pos, dir, j, size));
    assert(ray_ok(pos, dir, i, size));
    lemma_ray_index_bounds(pos, dir, j, size);
    lemma_ray_prefix(pos, dir, i, i - 1, size);
    lemma_apply_drops_len(cells, size, pos, dir, moved, drops, mover, i - 1);
    if i == j {
        assert forall|m: int| 1 <= m <= i - 1 implies cell_index(step(pos, dir, j), size)
            != #[trigger] cell_index(step(pos, dir, m), size) by {
            assert(ray_ok(pos, dir, m, size));
            lemma_ray_distinct(pos, dir, m, j, size);
        }
        lemma_apply_drops_frame(
            cells,
            size,
            pos,
            dir,
            moved,
            drops,
            mover,
            i - 1,
            cell_index(step(pos, dir, j), size),
        );
    } else {
        lemma_ray_distinct(pos, dir, j, i, size);
        lemma_ray_index_bounds(pos, dir, i, size);
        lemma_apply_drops_at(cells, size, pos, dir, moved, drops, mover, i - 1, j);
    }
}

proof fn lemma_unstack_facts(
    cells: Seq<Option<StackView>>,
    size: int,
    pos: TakCoord,
    dir: TakDir,
    drops: Seq<usize>,
    f: bool,
    i: int,
)
    requires
        0 <= i <= drops.len(),
        cells.len() == size * size,
        ray_on_board(pos, dir, i, size),
    ensures
        unstack(cells, size, pos, dir, drops, f, i).0.len() == cells.len(),
        forall|k: int|
            0 <= k < cells.len() && (forall|j: int|
                1 <= j <= i ==> k != #[trigger] cell_index(step(pos, dir, j), size)) ==> #[trigger] unstack(
                cells,
                size,
                pos,
                dir,
                drops,
                f,
                i,
            ).0[k] == cells[k],
        forall|j: int|
            1 <= j <= i ==> #[trigger] unstack(cells, size, pos, dir, drops, f, i).0[cell_index(
                step(pos, dir, j),
                size,
            )] == unstack_cell(
                cells[cell_index(step(pos, dir, j), size)],
                drops[j - 1] as int,
                j == drops.len() && f,
            ),
        unstack(cells, size, pos, dir, drops, f, i).1 == tops(cells, size, pos, dir, drops, i),
        unstack(cells, size, pos, dir, drops, f, i).2 == (if i == drops.len() && i >= 1 {
            cells[cell_index(step(pos, dir, i), size)].unwrap().0
        } else {
            TakPieceVariant::Flat
        }),
    decreases i,
{
    if i > 0 {
        assert(ray_ok(pos, dir, i, size));
        lemma_ray_prefix(pos, dir, i, i - 1, size);
        lemma_unstack_facts(cells, size, pos, dir, drops, f, i - 1);
        lemma_ray_index_bounds(pos, dir, i, size);
        let ki = cell_index(step(pos, dir, i), size);
        let prev = unstack(cells, size, pos, dir, drops, f, i - 1);
        assert forall|m: int| 1 <= m <= i - 1 implies ki != #[trigger] cell_index(
            step(pos, dir, m),
            size,
        ) by {
            assert(ray_ok(pos, dir, m, size));
            lemma_ray_distinct(pos, dir, m, i, size);
        }
        assert(prev.0[ki] == cells[ki]);
        let cur = unstack(cells, size, pos, dir, drops, f, i);
        assert forall|j: int| 1 <= j <= i implies #[trigger] cur.0[cell_index(step(pos, dir, j), size)]
            == unstack_cell(
            cells[cell_index(step(pos, dir, j), size)],
            drops[j - 1] as int,
            j == drops.len() && f,
        ) by {
            if j < i {
                assert(ray_ok(pos, dir, j, size));
                lemma_ray_distinct(pos, dir, j, i, size);
                lemma_ray_index_bounds(pos, dir, j, size);
            }
        }
    }
}

/// What a successful scan of a move tells about the drops and the cells below them.
proof fn lemma_move_scan_ok(
    b: TakBoard,
    pos: TakCoord,
    dir: TakDir,
    take: int,
    drops: Seq<usize>,
    mover: TakPieceVariant,
    i: int,
    flat: bool,
)
    requires
        b.wf(),
        0 <= i <= drops.len(),
        step_fits(pos, dir, i),
        in_board(b, step(pos, dir, i)),
        drop_sum(drops, i) <= take,
        move_scan(b, pos, dir, take, drops, mover, i, flat) is Ok,
    ensures
        drop_sum(drops, drops.len() as int) == take,
        forall|j: int| i <= j < drops.len() ==> #[trigger] drops[j] >= 1,
        forall|j: int| i <= j < drops.len() ==> #[trigger] drop_sum(drops, j + 1) <= take,
        forall|j: int| i + 1 <= j <= drops.len() ==> #[trigger] step_in_board(b, pos, dir, j),
        forall|j: int|
            i + 1 <= j < drops.len() ==> (#[trigger] b.cell(step(pos, dir, j)) matches Some(s)
                ==> s.0 == TakPieceVariant::Flat),
        drops.len() > i ==> match b.cell(step(pos, dir, drops.len() as int)) {
            None => true,
            Some(s) => s.0 == TakPieceVariant::Flat || (s.0 == TakPieceVariant::Wall
                && drops[drops.len() - 1] == 1 && mover == TakPieceVariant::Capstone),
        },
        move_scan(b, pos, dir, take, drops, mover, i, flat) == Ok::<bool, TakInvalidMoveError>(
            flat || (drops.len() > i && is_wall_cell(b.cell(step(pos, dir, drops.len() as int)))),
        ),
    decreases drops.len() - i,
{
    if i < drops.len() {
        crate::coord::lemma_step_fits_next(pos, dir, i, b.size as int);
        let c = step(pos, dir, i + 1);
        let nf = if is_wall_cell(b.cell(c)) {
            true
        } else {
            flat
        };
        assert(in_board(b, c));
        lemma_move_scan_ok(b, pos, dir, take, drops, mover, i + 1, nf);
        lemma_drop_sum_mono(drops, i + 1, drops.len() as int);
        assert(step_in_board(b, pos, dir, i + 1));
    }
}

/// A successful move check means the move is well formed: the stack is there
/// and high enough, the drops fit, and all carried pieces are dropped.
pub proof fn lemma_move_check_ok(b: TakBoard, pos: TakCoord, dir: TakDir, take: int, drops: Seq<usize>)
    requires
        b.wf(),
        move_check(b, pos, dir, take, drops) is Ok,
    ensures
        in_board(b, pos),
        b.cell(pos) is Some,
        1 <= take <= b.cell(pos).unwrap().1.len(),
        drops_fit(b, pos, dir, take, drops),
        drops_exact(take, drops),
        drops.len() >= 1,
        forall|j: int|
            1 <= j < drops.len() ==> (#[trigger] b.cell(step(pos, dir, j)) matches Some(s) ==> s.0
                == TakPieceVariant::Flat),
        match b.cell(step(pos, dir, drops.len() as int)) {
            None => true,
            Some(s) => s.0 == TakPieceVariant::Flat || (s.0 == TakPieceVariant::Wall && drops[drops.len()
                - 1] == 1 && b.cell(pos).unwrap().0 == TakPieceVariant::Capstone),
        },
        move_check(b, pos, dir, take, drops) == Ok::<bool, TakInvalidMoveError>(
            is_wall_cell(b.cell(step(pos, dir, drops.len() as int))),
        ),
{
    crate::coord::lemma_step_zero(pos, dir);
    let s = b.cell(pos).unwrap();
    lemma_move_scan_ok(b, pos, dir, take, drops, s.0, 0, false);
    if drops.len() == 0 {
        assert(drop_sum(drops, 0) == 0);
    }
}

impl TakBoard {
    /// Moves `take` pieces from `pos` in direction `dir` with the given drops,
    /// if `can_move` allows it; gives whether a wall was flattened. The board is
    /// unchanged when it fails.
    pub fn try_move(&mut self, pos: TakCoord, dir: TakDir, take: usize, drops: &[usize]) -> (r: Result<
        bool,
        TakInvalidMoveError,
    >)
        requires
            old(self).wf(),
        ensures
            r == move_check(*old(self), pos, dir, take as int, drops@),
            r is Ok ==> final(self).cells() == move_cells(
                old(self).cells(),
                old(self).size as int,
                pos,
                dir,
                take as int,
                drops@,
            ) && final(self).size == old(self).size && final(self).id_counter
                == old(self).id_counter,
            r is Err ==> *final(self) == *old(self),
            final(self).wf(),
    {
        let is_flattening = self.can_move(pos, dir, take, drops)?;
        proof {
            lemma_move_check_ok(*self, pos, dir, take as int, drops@);
        }
        self.do_move_unchecked(pos, dir, take, drops);
        Ok(is_flattening)
    }

    /// Checks whether a move from `pos` in direction `dir` with the given drops
    /// can be undone; `flattened` tells whether the move flattened a wall.
    pub fn can_undo_move(
        &mut self,
        pos: TakCoord,
        dir: TakDir,
        take: usize,
        drops: &[usize],
        flattened: bool,
    ) -> (r: Result<(), TakInvalidUndoMoveError>)
        requires
            old(self).wf(),
        ensures
            r == undo_move_check(*old(self), pos, dir, take as int, drops@, flattened),
            *final(self) == *old(self),
    {
        if take < 1 || take > self.size {
            return Err(TakInvalidUndoMoveError::InvalidTakeCount);
        }
        match pos.try_get(self.board.as_slice(), self.size) {
            Some(Some(stack)) => {
                if stack.variant != TakPieceVariant::Flat {
                    return Err(TakInvalidUndoMoveError::ActionMismatch);
                }
            },
            Some(None) => {},
            None => return Err(TakInvalidUndoMoveError::InvalidPosition),
        }
        let drop_len = drops.len();
        let mut drop_total: usize = 0;
        let mut current_pos = pos;
        proof {
            crate::coord::lemma_step_zero(pos, dir);
        }
        for i in 0..drop_len
            invariant
                self.wf(),
                *self == *old(self),
                drop_len == drops@.len(),
                1 <= take <= self.size,
                in_board(*self, pos),
                drop_total == drop_sum(drops@, i as int),
                drop_total <= take,
                current_pos == step(pos, dir, i as int),
                step_fits(pos, dir, i as int),
                in_board(*self, current_pos),
                undo_move_check(*self, pos, dir, take as int, drops@, flattened) == undo_scan(
                    *self,
                    pos,
                    dir,
                    take as int,
                    drops@,
                    flattened,
                    i as int,
                ),
        {
            let drop = drops[i];
            if drop < 1 || drop > take - drop_total {
                return Err(TakInvalidUndoMoveError::InvalidDropCount);
            }
            drop_total = drop_total + drop;
            proof {
                crate::coord::lemma_step_succ(pos, dir, i as int);
                crate::coord::lemma_step_fits_next(pos, dir, i as int, self.size as int);
            }
            current_pos = current_pos.offset_dir(dir);
            match current_pos.try_get(self.board.as_slice(), self.size) {
                Some(Some(other_stack)) => {
                    if other_stack.height() < drop {
                        return Err(TakInvalidUndoMoveError::InvalidDropCount);
                    }
                    if i != drop_len - 1 {
                        match other_stack.variant {
                            TakPieceVariant::Flat => {},
                            TakPieceVariant::Capstone => {
                                return Err(TakInvalidUndoMoveError::ActionMismatch);
                            },
                            TakPieceVariant::Wall => {
                                return Err(TakInvalidUndoMoveError::ActionMismatch);
                            },
                        };
                    } else if flattened && (other_stack.variant != TakPieceVariant::Capstone
                        || other_stack.height() < 2) {
                        return Err(TakInvalidUndoMoveError::ActionMismatch);
                    }
                },
                Some(None) => return Err(TakInvalidUndoMoveError::ActionMismatch),
                None => return Err(TakInvalidUndoMoveError::InvalidPosition),
            }
        }
        if drop_total != take {
            return Err(TakInvalidUndoMoveError::InvalidDropCount);
        }
        Ok(())
    }
}

} // verus!

verus! {

/// The cell below drop `i` holds a stack of at least `drops[i]` pieces.
pub open spec fn undo_drop_ok(b: TakBoard, pos: TakCoord, dir: TakDir, drops: Seq<usize>, i: int) -> bool {
    b.cell(step(pos, dir, i + 1)) is Some && b.cell(step(pos, dir, i + 1)).unwrap().1.len() >= drops[i]
}

proof fn lemma_step_in_board_ray(b: TakBoard, pos: TakCoord, dir: TakDir, drops: Seq<usize>)
    requires
        forall|j: int| 1 <= j <= drops.len() ==> #[trigger] step_in_board(b, pos, dir, j),
    ensures
        ray_on_board(pos, dir, drops.len() as int, b.size as int),
{
    assert forall|j: int| 1 <= j <= drops.len() implies #[trigger] ray_ok(
        pos,
        dir,
        j,
        b.size as int,
    ) by {
        assert(step_in_board(b, pos, dir, j));
    }
}

proof fn lemma_undo_scan_ok(
    b: TakBoard,
    pos: TakCoord,
    dir: TakDir,
    take: int,
    drops: Seq<usize>,
    f: bool,
    i: int,
)
    requires
        b.wf(),
        0 <= i <= drops.len(),
        step_fits(pos, dir, i),
        in_board(b, step(pos, dir, i)),
        drop_sum(drops, i) <= take,
        undo_scan(b, pos, dir, take, drops, f, i) is Ok,
    ensures
        drop_sum(drops, drops.len() as int) == take,
        forall|j: int| i + 1 <= j <= drops.len() ==> #[trigger] step_in_board(b, pos, dir, j),
        forall|j: int| i <= j < drops.len() ==> #[trigger] undo_drop_ok(b, pos, dir, drops, j),
    decreases drops.len() - i,
{
    if i < drops.len() {
        crate::coord::lemma_step_fits_next(pos, dir, i, b.size as int);
        assert(step_in_board(b, pos, dir, i + 1));
        assert(undo_drop_ok(b, pos, dir, drops, i));
        lemma_undo_scan_ok(b, pos, dir, take, drops, f, i + 1);
    }
}

impl TakBoard {
    /// Undoes a move from `pos` in direction `dir` with the given drops: the
    /// dropped pieces go back on top of `pos`, which gets the variant of the
    /// last cell's top; the cells left behind become flat, except that the last
    /// one becomes a wall again when `flattened`. Nothing is checked beyond what
    /// keeps it from failing.
    fn undo_move_unchecked(&mut self, pos: TakCoord, dir: TakDir, drops: &[usize], flattened: bool)
        requires
            old(self).wf(),
            in_board(*old(self), pos),
            forall|j: int| 1 <= j <= drops@.len() ==> #[trigger] step_in_board(*old(self), pos, dir, j),
            forall|i: int| 0 <= i < drops@.len() ==> #[trigger] undo_drop_ok(*old(self), pos, dir, drops@, i),
        ensures
            final(self).cells() == undo_cells(
                old(self).cells(),
                old(self).size as int,
                pos,
                dir,
                drops@,
                flattened,
            ),
            final(self).size == old(self).size,
            final(self).id_counter == old(self).id_counter,
            final(self).board@.len() == old(self).board@.len(),
            final(self).empty_spaces == count_empty(final(self).cells()),
            drop_sum(drops@, drops@.len() as int) >= 1 ==> final(self).wf(),
    {
        let drop_len = drops.len();
        let _len = self.board.len();
        let ghost c0 = self.cells();
        let ghost size = self.size as int;
        let mut current_pos = pos;
        let mut moved_pieces: Vec<TakPiece> = Vec::new();
        let mut original_variant = TakPieceVariant::Flat;
        proof {
            crate::coord::lemma_step_zero(pos, dir);
            lemma_step_in_board_ray(*old(self), pos, dir, drops@);
            lemma_unstack_facts(c0, size, pos, dir, drops@, flattened, 0);
        }
        for i in 0..drop_len
            invariant
                drop_len == drops@.len(),
                self.size == old(self).size,
                size == self.size,
                self.id_counter == old(self).id_counter,
                self.board@.len() == old(self).board@.len(),
                self.board@.len() == self.size * self.size,
                self.size * self.size <= usize::MAX,
                self.size < i32::MAX,
                c0 == old(self).cells(),
                in_board(*old(self), pos),
                ray_on_board(pos, dir, drops@.len() as int, size),
                forall|j: int| 1 <= j <= drops@.len() ==> #[trigger] step_in_board(*old(self), pos, dir, j),
                forall|m: int| 0 <= m < drops@.len() ==> #[trigger] undo_drop_ok(*old(self), pos, dir, drops@, m),
                current_pos == step(pos, dir, i as int),
                step_fits(pos, dir, i as int),
                self.cells() == unstack(c0, size, pos, dir, drops@, flattened, i as int).0,
                moved_pieces@ == unstack(c0, size, pos, dir, drops@, flattened, i as int).1,
                original_variant == unstack(c0, size, pos, dir, drops@, flattened, i as int).2,
                moved_pieces@.len() == drop_sum(drops@, i as int),
                self.empty_spaces == count_empty(self.cells()),
                total_pieces(self.cells()) + moved_pieces@.len() == old(self).id_counter,
                forall|m: int|
                    0 <= m < self.board@.len() ==> (#[trigger] self.cells()[m] matches Some(t)
                        ==> t.1.len() > 0),
        {
            let d = drops[i];
            proof {
                assert(step_in_board(*old(self), pos, dir, i + 1));
                assert(undo_drop_ok(*old(self), pos, dir, drops@, i as int));
                crate::coord::lemma_step_succ(pos, dir, i as int);
                lemma_unstack_facts(c0, size, pos, dir, drops@, flattened, i as int);
                assert forall|j: int| 1 <= j <= i implies cell_index(step(pos, dir, i + 1), size)
                    != #[trigger] cell_index(step(pos, dir, j), size) by {
                    assert(ray_ok(pos, dir, j, size));
                    assert(ray_ok(pos, dir, i + 1, size));
                    lemma_ray_distinct(pos, dir, j, i + 1, size);
                }
            }
            current_pos = current_pos.offset_dir(dir);
            let kk = current_pos.index_in(self.size);
            let ghost ci = self.cells();
            assert(ci[kk as int] == c0[kk as int]);
            let tile = self.take_cell(kk);
            let mut st = tile.unwrap();
            if i == drop_len - 1 {
                original_variant = st.variant;
            }
            let h = st.composition.len();
            let mut top = st.composition.split_off(h - d);
            let ghost topv = top@;
            moved_pieces.append(&mut top);
            let ghost newc = unstack_cell(ci[kk as int], d as int, i == drop_len - 1 && flattened);
            if st.composition.len() == 0 {
                proof {
                    lemma_count_empty_update(ci, kk as int, None);
                    crate::board::lemma_count_empty_le(ci.update(kk as int, None));
                }
                self.empty_spaces = self.empty_spaces + 1;
            } else {
                st.variant = if i == drop_len - 1 && flattened {
                    TakPieceVariant::Wall
                } else {
                    TakPieceVariant::Flat
                };
                self.board.set(kk, Some(st));
                proof {
                    lemma_count_empty_update(ci, kk as int, newc);
                }
            }
            proof {
                assert(self.cells() =~= ci.update(kk as int, newc));
                lemma_total_pieces_update(ci, kk as int, newc);
                assert(topv =~= top_pieces(ci[kk as int], d as int));
                crate::coord::lemma_step_fits_next(pos, dir, i as int, self.size as int);
            }
        }
        let k = pos.index_in(self.size);
        let ghost u = unstack(c0, size, pos, dir, drops@, flattened, drop_len as int);
        proof {
            lemma_unstack_facts(c0, size, pos, dir, drops@, flattened, drop_len as int);
            crate::coord::lemma_step_zero(pos, dir);
            assert forall|j: int| 1 <= j <= drop_len implies k != #[trigger] cell_index(
                step(pos, dir, j),
                size,
            ) by {
                assert(ray_ok(pos, dir, j, size));
                lemma_ray_distinct(pos, dir, 0, j, size);
            }
            assert(self.cells()[k as int] == c0[k as int]);
        }
        let ghost ck = self.cells();
        let ghost newsrc = drop_onto(ck[k as int], u.1, u.2);
        let tile = self.take_cell(k);
        match tile {
            Some(mut original_stack) => {
                original_stack.composition.append(&mut moved_pieces);
                original_stack.variant = original_variant;
                self.board.set(k, Some(original_stack));
                proof {
                    lemma_count_empty_update(ck, k as int, newsrc);
                }
            },
            None => {
                proof {
                    lemma_count_empty_pos(ck, k as int);
                    lemma_count_empty_update(ck, k as int, newsrc);
                }
                self.board.set(k, Some(TakStack::new(original_variant, moved_pieces)));
                self.empty_spaces = self.empty_spaces - 1;
            },
        }
        proof {
            assert(self.cells() =~= ck.update(k as int, newsrc));
            lemma_total_pieces_update(ck, k as int, newsrc);
        }
    }
}

} // verus!

verus! {

proof fn lemma_undo_check_ok(b: TakBoard, pos: TakCoord, dir: TakDir, take: int, drops: Seq<usize>, f: bool)
    requires
        b.wf(),
        undo_move_check(b, pos, dir, take, drops, f) is Ok,
    ensures
        in_board(b, pos),
        drop_sum(drops, drops.len() as int) == take,
        take >= 1,
        forall|j: int| 1 <= j <= drops.len() ==> #[trigger] step_in_board(b, pos, dir, j),
        forall|i: int| 0 <= i < drops.len() ==> #[trigger] undo_drop_ok(b, pos, dir, drops, i),
{
    crate::coord::lemma_step_zero(pos, dir);
    lemma_undo_scan_ok(b, pos, dir, take, drops, f, 0);
}

impl TakBoard {
    /// Undoes a move from `pos` in direction `dir` with the given drops, if
    /// `can_undo_move` allows it. The board is unchanged when it fails.
    pub fn try_undo_move(
        &mut self,
        pos: TakCoord,
        dir: TakDir,
        take: usize,
        drops: &[usize],
        flattened: bool,
    ) -> (r: Result<(), TakInvalidUndoMoveError>)
        requires
            old(self).wf(),
        ensures
            r == undo_move_check(*old(self), pos, dir, take as int, drops@, flattened),
            r is Ok ==> final(self).cells() == undo_cells(
                old(self).cells(),
                old(self).size as int,
                pos,
                dir,
                drops@,
                flattened,
            ) && final(self).size == old(self).size && final(self).id_counter
                == old(self).id_counter,
            r is Err ==> *final(self) == *old(self),
            final(self).wf(),
    {
        self.can_undo_move(pos, dir, take, drops, flattened)?;
        proof {
            lemma_undo_check_ok(*self, pos, dir, take as int, drops@, flattened);
        }
        self.undo_move_unchecked(pos, dir, drops, flattened);
        Ok(())
    }
}

proof fn lemma_tops_of_moved(
    c1: Seq<Option<StackView>>,
    size: int,
    pos: TakCoord,
    dir: TakDir,
    moved: Seq<TakPiece>,
    drops: Seq<usize>,
    mover: TakPieceVariant,
    i: int,
)
    requires
        0 <= i <= drops.len(),
        c1.len() == size * size,
        ray_on_board(pos, dir, drops.len() as int, size),
        forall|m: int| 0 <= m < drops.len() ==> #[trigger] drop_sum(drops, m + 1) <= moved.len(),
        forall|m: int| 0 <= m < drops.len() ==> #[trigger] drops[m] >= 1,
    ensures
        tops(
            apply_drops(c1, size, pos, dir, moved, drops, mover, drops.len() as int),
            size,
            pos,
            dir,
            drops,
            i,
        ) == moved.subrange(0, drop_sum(drops, i)),
    decreases i,
{
    let n = drops.len() as int;
    if i > 0 {
        lemma_tops_of_moved(c1, size, pos, dir, moved, drops, mover, i - 1);
        lemma_apply_drops_at(c1, size, pos, dir, moved, drops, mover, n, i);
        assert(drop_sum(drops, i) <= moved.len());
        lemma_drop_sum_mono(drops, i - 1, i);
        lemma_drop_sum_mono(drops, 0, i - 1);
        assert(drop_sum(drops, i) == drop_sum(drops, i - 1) + drops[i - 1]);
        let c = c1[cell_index(step(pos, dir, i), size)];
        let ch = chunk(moved, drops, i - 1);
        assert(ch.len() == drops[i - 1]);
        let after = drop_onto(c, ch, drop_variant(n, i - 1, mover));
        assert(top_pieces(after, drops[i - 1] as int) =~= ch);
        assert(moved.subrange(0, drop_sum(drops, i - 1)) + ch =~= moved.subrange(
            0,
            drop_sum(drops, i),
        ));
    } else {
        assert(moved.subrange(0, 0) =~= Seq::<TakPiece>::empty());
    }
}

proof fn lemma_undo_scan_of_moved(
    b: TakBoard,
    m: TakBoard,
    pos: TakCoord,
    dir: TakDir,
    take: int,
    drops: Seq<usize>,
    f: bool,
    i: int,
)
    requires
        b.wf(),
        m.size == b.size,
        m.board@.len() == b.board@.len(),
        move_check(b, pos, dir, take, drops) == Ok::<bool, TakInvalidMoveError>(f),
        m.cells() == move_cells(b.cells(), b.size as int, pos, dir, take, drops),
        0 <= i <= drops.len(),
    ensures
        undo_scan(m, pos, dir, take, drops, f, i) == Ok::<(), TakInvalidUndoMoveError>(()),
    decreases drops.len() - i,
{
    lemma_move_check_ok(b, pos, dir, take, drops);
    let n = drops.len() as int;
    if i < n {
        lemma_undo_scan_of_moved(b, m, pos, dir, take, drops, f, i + 1);
        let size = b.size as int;
        let k0 = cell_index(pos, size);
        let s = b.cells()[k0].unwrap();
        let c1 = b.cells().update(k0, lift(s, take));
        assert(step_in_board(b, pos, dir, i + 1));
        lemma_step_in_board_ray(b, pos, dir, drops);
        lemma_apply_drops_at(c1, size, pos, dir, lifted(s, take), drops, s.0, n, i + 1);
        let ki = cell_index(step(pos, dir, i + 1), size);
        crate::coord::lemma_step_zero(pos, dir);
        assert(ray_ok(pos, dir, i + 1, size));
        lemma_ray_distinct(pos, dir, 0, i + 1, size);
        assert(c1[ki] == b.cells()[ki]);
        assert(drop_sum(drops, i + 1) <= take);
        lemma_drop_sum_mono(drops, i, i + 1);
        lemma_drop_sum_mono(drops, 0, i);
        assert(drop_sum(drops, i + 1) == drop_sum(drops, i) + drops[i]);
        assert(chunk(lifted(s, take), drops, i).len() == drops[i]);
        if i == n - 1 && f {
            assert(b.cells()[ki] is Some);
            assert(b.cells()[ki].unwrap().1.len() > 0);
        }
    }
}

/// Undoing a legal move restores the board: after `try_move(pos, dir, take,
/// drops)` answered `Ok(flattened)`, `try_undo_move(pos, dir, take, drops,
/// flattened)` is allowed and gives back the cells the board had before.
#[verifier::rlimit(60)]
#[verifier::spinoff_prover]
pub proof fn law_undo_move_restores(
    b: TakBoard,
    m: TakBoard,
    pos: TakCoord,
    dir: TakDir,
    take: int,
    drops: Seq<usize>,
    flattened: bool,
)
    requires
        b.wf(),
        m.wf(),
        m.size == b.size,
        m.board@.len() == b.board@.len(),
        move_check(b, pos, dir, take, drops) == Ok::<bool, TakInvalidMoveError>(flattened),
        m.cells() == move_cells(b.cells(), b.size as int, pos, dir, take, drops),
    ensures
        undo_move_check(m, pos, dir, take, drops, flattened) == Ok::<(), TakInvalidUndoMoveError>(()),
        undo_cells(m.cells(), m.size as int, pos, dir, drops, flattened) == b.cells(),
{
    lemma_move_check_ok(b, pos, dir, take, drops);
    lemma_undo_scan_of_moved(b, m, pos, dir, take, drops, flattened, 0);
    let n = drops.len() as int;
    let size = b.size as int;
    let c = b.cells();
    let k0 = cell_index(pos, size);
    let s = c[k0].unwrap();
    let c1 = c.update(k0, lift(s, take));
    let mv = lifted(s, take);
    let cm = m.cells();
    crate::coord::lemma_step_zero(pos, dir);
    lemma_step_in_board_ray(b, pos, dir, drops);
    crate::coord::lemma_index_bounds_pub(pos, size);
    assert forall|j: int| 1 <= j <= n implies k0 != #[trigger] cell_index(step(pos, dir, j), size) by {
        assert(ray_ok(pos, dir, j, size));
        lemma_ray_distinct(pos, dir, 0, j, size);
    }
    lemma_apply_drops_frame(c1, size, pos, dir, mv, drops, s.0, n, k0);
    assert(cm[k0] == lift(s, take));
    // the source cell is not on the ray, so undo does not touch it first
    lemma_unstack_facts(cm, size, pos, dir, drops, flattened, n);
    let u = unstack(cm, size, pos, dir, drops, flattened, n);
    lemma_tops_of_moved(c1, size, pos, dir, mv, drops, s.0, n);
    assert(u.1 == mv);
    lemma_apply_drops_at(c1, size, pos, dir, mv, drops, s.0, n, n);
    assert(u.2 == s.0);
    let r = undo_cells(cm, size, pos, dir, drops, flattened);
    assert(r.len() == c.len());
    assert forall|k: int| 0 <= k < c.len() implies r[k] == c[k] by {
        if k == k0 {
            assert(u.0[k0] == cm[k0]);
            assert(s.1.subrange(0, s.1.len() - take) + mv =~= s.1);
            if s.1.len() == take {
                assert(mv =~= s.1);
            }
        } else if exists|j: int| 1 <= j <= n && k == #[trigger] cell_index(step(pos, dir, j), size) {
            let j = choose|j: int| 1 <= j <= n && k == #[trigger] cell_index(step(pos, dir, j), size);
            lemma_apply_drops_at(c1, size, pos, dir, mv, drops, s.0, n, j);
            assert(c1[k] == c[k]);
            assert(drop_sum(drops, j) <= take);
            lemma_drop_sum_mono(drops, j - 1, j);
            lemma_drop_sum_mono(drops, 0, j - 1);
            assert(drop_sum(drops, j) == drop_sum(drops, j - 1) + drops[j - 1]);
            let ch = chunk(mv, drops, j - 1);
            assert(ch.len() == drops[j - 1]);
            assert(u.0[k] == unstack_cell(cm[k], drops[j - 1] as int, j == n && flattened));
            match c[k] {
                None => {},
                Some(t) => {
                    assert((t.1 + ch).subrange(0, (t.1 + ch).len() - drops[j - 1]) =~= t.1);
                    if j < n {
                        assert(b.cell(step(pos, dir, j)) == c[k]);
                    } else {
                        assert(b.cell(step(pos, dir, n)) == c[k]);
                    }
                },
            }
        } else {
            lemma_apply_drops_frame(c1, size, pos, dir, mv, drops, s.0, n, k);
            assert(u.0[k] == cm[k]);
        }
    }
    assert(r =~= c);
}

} // verus!
