//! The board: stacks of pieces on a square grid, with placement, counting and
//! undoing of placements.
use vstd::prelude::*;

use crate::coord::{cell_index, on_board, TakCoord};
use crate::{TakInvalidPlaceError, TakInvalidUndoPlaceError, TakPieceVariant, TakPlayer};

verus! {

/// A piece on the board, identified by the order in which it was placed.
#[derive(Debug, Clone, Copy, PartialEq, Eq, Structural)]
pub struct TakPiece {
    pub id: usize,
    pub player: TakPlayer,
}

impl TakPiece {
    /// The piece with the given id, owned by `player`.
    pub fn new(id: usize, player: TakPlayer) -> (r: Self)
        ensures
            r.id == id,
            r.player == player,
    {
        TakPiece { id, player }
    }
}

/// What a stack is: the variant of its top piece, and its pieces from bottom to top.
pub type StackView = (TakPieceVariant, Seq<TakPiece>);

/// A stack of pieces; `composition` runs from bottom to top and `variant` is
/// the kind of the top piece (all pieces below are flats).
#[derive(Debug, Clone, PartialEq)]
pub struct TakStack {
    pub variant: TakPieceVariant,
    pub composition: Vec<TakPiece>,
}

impl View for TakStack {
    type V = StackView;

    open spec fn view(&self) -> StackView {
        (self.variant, self.composition@)
    }
}

/// The view of an optional stack.
pub open spec fn opt_view(o: Option<TakStack>) -> Option<StackView> {
    match o {
        Some(s) => Some(s@),
        None => None,
    }
}

/// The owner of a non-empty stack: the owner of its top piece.
pub open spec fn top_player(s: StackView) -> TakPlayer {
    s.1.last().player
}

impl TakStack {
    /// A stack of the given variant and pieces.
    pub fn new(variant: TakPieceVariant, composition: Vec<TakPiece>) -> (r: Self)
        ensures
            r@ == (variant, composition@),
    {
        TakStack { variant, composition }
    }

    /// The number of pieces in the stack.
    pub fn height(&self) -> (r: usize)
        ensures
            r == self@.1.len(),
    {
        self.composition.len()
    }

    /// The owner of the stack: the owner of its top piece.
    pub fn player(&self) -> (r: TakPlayer)
        requires
            self@.1.len() > 0,
        ensures
            r == top_player(self@),
    {
        self.composition[self.composition.len() - 1].player
    }
}

/// The number of empty cells.
pub open spec fn count_empty(cells: Seq<Option<StackView>>) -> nat
    decreases cells.len(),
{
    if cells.len() == 0 {
        0
    } else {
        count_empty(cells.drop_last()) + if cells.last() is None {
            1nat
        } else {
            0nat
        }
    }
}

/// The number of pieces in a cell.
pub open spec fn cell_height(c: Option<StackView>) -> nat {
    match c {
        Some(s) => s.1.len(),
        None => 0,
    }
}

/// The number of pieces on the board.
pub open spec fn total_pieces(cells: Seq<Option<StackView>>) -> nat
    decreases cells.len(),
{
    if cells.len() == 0 {
        0
    } else {
        total_pieces(cells.drop_last()) + cell_height(cells.last())
    }
}

/// Replacing one cell changes the number of empty cells by the difference.
pub proof fn lemma_count_empty_update(cells: Seq<Option<StackView>>, i: int, v: Option<StackView>)
    requires
        0 <= i < cells.len(),
    ensures
        count_empty(cells.update(i, v)) + (if cells[i] is None {
            1int
        } else {
            0int
        }) == count_empty(cells) + (if v is None {
            1int
        } else {
            0int
        }),
    decreases cells.len(),
{
    if i < cells.len() - 1 {
        lemma_count_empty_update(cells.drop_last(), i, v);
        assert(cells.update(i, v).drop_last() =~= cells.drop_last().update(i, v));
    } else {
        assert(cells.update(i, v).drop_last() =~= cells.drop_last());
    }
}

/// Replacing one cell changes the number of pieces by the difference.
pub proof fn lemma_total_pieces_update(cells: Seq<Option<StackView>>, i: int, v: Option<StackView>)
    requires
        0 <= i < cells.len(),
    ensures
        total_pieces(cells.update(i, v)) + cell_height(cells[i]) == total_pieces(cells)
            + cell_height(v),
    decreases cells.len(),
{
    if i < cells.len() - 1 {
        lemma_total_pieces_update(cells.drop_last(), i, v);
        assert(cells.update(i, v).drop_last() =~= cells.drop_last().update(i, v));
    } else {
        assert(cells.update(i, v).drop_last() =~= cells.drop_last());
    }
}

/// Each cell's pieces count towards the total.
pub proof fn lemma_total_pieces_ge(cells: Seq<Option<StackView>>, i: int)
    requires
        0 <= i < cells.len(),
    ensures
        cell_height(cells[i]) <= total_pieces(cells),
    decreases cells.len(),
{
    if i < cells.len() - 1 {
        lemma_total_pieces_ge(cells.drop_last(), i);
    }
}

/// An empty cell is counted.
pub proof fn lemma_count_empty_pos(cells: Seq<Option<StackView>>, i: int)
    requires
        0 <= i < cells.len(),
        cells[i] is None,
    ensures
        count_empty(cells) >= 1,
        count_empty(cells) <= cells.len(),
    decreases cells.len(),
{
    lemma_count_empty_le(cells);
    if i < cells.len() - 1 {
        lemma_count_empty_pos(cells.drop_last(), i);
    }
}

/// There are no more empty cells than cells.
pub proof fn lemma_count_empty_le(cells: Seq<Option<StackView>>)
    ensures
        count_empty(cells) <= cells.len(),
        count_empty(cells) == cells.len() ==> forall|i: int|
            0 <= i < cells.len() ==> #[trigger] cells[i] is None,
        count_empty(cells) > 0 ==> exists|i: int| 0 <= i < cells.len() && #[trigger] cells[i] is None,
    decreases cells.len(),
{
    if cells.len() > 0 {
        lemma_count_empty_le(cells.drop_last());
        if count_empty(cells) == cells.len() {
            assert forall|i: int| 0 <= i < cells.len() implies #[trigger] cells[i] is None by {
                if i < cells.len() - 1 {
                    assert(cells.drop_last()[i] == cells[i]);
                }
            }
        }
        if count_empty(cells) > 0 {
            if cells.last() is None {
                assert(cells[cells.len() - 1] is None);
            } else {
                let j = choose|j: int|
                    0 <= j < cells.drop_last().len() && #[trigger] cells.drop_last()[j] is None;
                assert(cells[j] is None);
            }
        }
    }
}

/// A board whose cells are all empty has as many empty cells as cells and no pieces.
pub proof fn lemma_all_empty(cells: Seq<Option<StackView>>)
    requires
        forall|i: int| 0 <= i < cells.len() ==> #[trigger] cells[i] is None,
    ensures
        count_empty(cells) == cells.len(),
        total_pieces(cells) == 0,
    decreases cells.len(),
{
    if cells.len() > 0 {
        lemma_all_empty(cells.drop_last());
        assert(cells[cells.len() - 1] is None);
    }
}

/// A Tak board: `size` by `size` cells in row-major order, each empty or
/// holding a stack, with a counter that gives the next piece its id and the
/// number of empty cells.
#[derive(Debug, Clone, PartialEq)]
pub struct TakBoard {
    pub size: usize,
    pub board: Vec<Option<TakStack>>,
    pub id_counter: usize,
    pub empty_spaces: usize,
}

/// What placing a piece checks.
pub open spec fn place_check(b: TakBoard, pos: TakCoord) -> Result<(), TakInvalidPlaceError> {
    if on_board(pos, b.size as int) && cell_index(pos, b.size as int) < b.board@.len() {
        if b.cells()[cell_index(pos, b.size as int)] is None {
            Ok(())
        } else {
            Err(TakInvalidPlaceError::PositionOccupied)
        }
    } else {
        Err(TakInvalidPlaceError::InvalidPosition)
    }
}

/// What undoing a placement checks.
pub open spec fn undo_place_check(
    b: TakBoard,
    pos: TakCoord,
    variant: TakPieceVariant,
    player: TakPlayer,
) -> Result<(), TakInvalidUndoPlaceError> {
    if on_board(pos, b.size as int) && cell_index(pos, b.size as int) < b.board@.len() {
        match b.cells()[cell_index(pos, b.size as int)] {
            Some(s) => {
                if s.0 == variant && s.1.len() == 1 && top_player(s) == player && s.1[0].id + 1
                    == b.id_counter {
                    Ok(())
                } else {
                    Err(TakInvalidUndoPlaceError::NotAllowed)
                }
            },
            None => Err(TakInvalidUndoPlaceError::PositionEmpty),
        }
    } else {
        Err(TakInvalidUndoPlaceError::InvalidPosition)
    }
}

/// The stack a new placement puts on the board.
pub open spec fn placed_stack(variant: TakPieceVariant, id: usize, player: TakPlayer) -> StackView {
    (variant, seq![TakPiece { id, player }])
}

impl TakBoard {
    /// The cells of the board, each empty or holding a stack.
    pub open spec fn cells(&self) -> Seq<Option<StackView>> {
        self.board@.map_values(|o: Option<TakStack>| opt_view(o))
    }

    /// The cell at a position.
    pub open spec fn cell(&self, c: TakCoord) -> Option<StackView> {
        self.cells()[cell_index(c, self.size as int)]
    }

    /// The board is well formed: it has `size * size` cells, every stack holds
    /// a piece, the empty cells are counted by `empty_spaces`, and the pieces by
    /// `id_counter`. Its size also leaves room for coordinates one step off the
    /// board.
    pub open spec fn wf(&self) -> bool {
        &&& self.board@.len() == self.size * self.size
        &&& self.size < i32::MAX
        &&& forall|i: int|
            0 <= i < self.board@.len() ==> (#[trigger] self.cells()[i] matches Some(s) ==> s.1.len()
                > 0)
        &&& self.empty_spaces == count_empty(self.cells())
        &&& self.id_counter == total_pieces(self.cells())
    }

    /// An empty board of the given size.
    pub fn new(size: usize) -> (r: Self)
        requires
            size * size <= usize::MAX,
        ensures
            r.size == size,
            r.id_counter == 0,
            r.empty_spaces == size * size,
            r.board@.len() == size * size,
            forall|i: int| 0 <= i < size * size ==> #[trigger] r.cells()[i] is None,
            size < i32::MAX ==> r.wf(),
    {
        let n = size * size;
        let mut board: Vec<Option<TakStack>> = Vec::new();
        for i in 0..n
            invariant
                board@.len() == i,
                forall|j: int| 0 <= j < i ==> #[trigger] board@[j] is None,
        {
            board.push(None);
        }
        let r = TakBoard { size, board, id_counter: 0, empty_spaces: n };
        proof {
            assert forall|i: int| 0 <= i < size * size implies #[trigger] r.cells()[i] is None by {
                assert(r.board@[i] is None);
            }
            lemma_all_empty(r.cells());
        }
        r
    }

    /// Clears the board: all cells empty and the id counter back to zero.
    pub fn reset(&mut self)
        requires
            old(self).size * old(self).size <= usize::MAX,
        ensures
            final(self).size == old(self).size,
            final(self).board@.len() == old(self).board@.len(),
            forall|i: int| 0 <= i < final(self).board@.len() ==> #[trigger] final(self).cells()[i] is None,
            final(self).id_counter == 0,
            final(self).empty_spaces == old(self).size * old(self).size,
            old(self).board@.len() == old(self).size * old(self).size && old(self).size < i32::MAX
                ==> final(self).wf(),
    {
        let n = self.board.len();
        for i in 0..n
            invariant
                self.board@.len() == n,
                self.size == old(self).size,
                forall|j: int| 0 <= j < i ==> #[trigger] self.board@[j] is None,
        {
            self.board.set(i, None);
        }
        self.id_counter = 0;
        self.empty_spaces = self.size * self.size;
        proof {
            assert forall|i: int| 0 <= i < self.board@.len() implies #[trigger] self.cells()[i] is None by {
                assert(self.board@[i] is None);
            }
            lemma_all_empty(self.cells());
        }
    }

    /// Takes the stack out of cell `i`, leaving it empty.
    pub(crate) fn take_cell(&mut self, i: usize) -> (r: Option<TakStack>)
        requires
            i < old(self).board@.len(),
        ensures
            r == old(self).board@[i as int],
            final(self).board@ == old(self).board@.update(i as int, None),
            final(self).size == old(self).size,
            final(self).id_counter == old(self).id_counter,
            final(self).empty_spaces == old(self).empty_spaces,
    {
        let mut t: Option<TakStack> = None;
        std::mem::swap(&mut t, &mut self.board[i]);
        t
    }

    /// Checks whether a piece can be placed at `pos`: the position must be on
    /// the board and empty.
    pub fn can_place(&self, pos: TakCoord) -> (r: Result<(), TakInvalidPlaceError>)
        ensures
            r == place_check(*self, pos),
    {
        match pos.try_get(self.board.as_slice(), self.size) {
            Some(None) => Ok(()),
            Some(Some(_)) => Err(TakInvalidPlaceError::PositionOccupied),
            None => Err(TakInvalidPlaceError::InvalidPosition),
        }
    }

    /// Places a piece at `pos` if the position is on the board and empty; the
    /// board is unchanged when it fails.
    pub fn try_place(&mut self, pos: TakCoord, variant: TakPieceVariant, player: TakPlayer) -> (r:
        Result<(), TakInvalidPlaceError>)
        requires
            old(self).wf(),
            old(self).id_counter < usize::MAX,
        ensures
            r == place_check(*old(self), pos),
            r is Ok ==> final(self).cells() == old(self).cells().update(
                cell_index(pos, old(self).size as int),
                Some(placed_stack(variant, old(self).id_counter, player)),
            ) && final(self).id_counter == old(self).id_counter + 1 && final(self).empty_spaces
                == old(self).empty_spaces - 1 && final(self).size == old(self).size,
            r is Err ==> *final(self) == *old(self),
            final(self).wf(),
    {
        self.can_place(pos)?;
        proof {
            crate::coord::lemma_index_bounds_pub(pos, self.size as int);
            lemma_count_empty_pos(self.cells(), cell_index(pos, self.size as int));
        }
        self.do_place_unchecked(pos, variant, player);
        Ok(())
    }

    /// Places a piece at `pos` without checking that the cell is empty; a stack
    /// already there is replaced.
    pub fn do_place_unchecked(&mut self, pos: TakCoord, variant: TakPieceVariant, player: TakPlayer)
        requires
            on_board(pos, old(self).size as int),
            cell_index(pos, old(self).size as int) < old(self).board@.len(),
            old(self).id_counter < usize::MAX,
            old(self).empty_spaces > 0,
        ensures
            final(self).cells() == old(self).cells().update(
                cell_index(pos, old(self).size as int),
                Some(placed_stack(variant, old(self).id_counter, player)),
            ),
            final(self).id_counter == old(self).id_counter + 1,
            final(self).empty_spaces == old(self).empty_spaces - 1,
            final(self).size == old(self).size,
            old(self).wf() && old(self).cell(pos) is None ==> final(self).wf(),
    {
        let mut comp: Vec<TakPiece> = Vec::new();
        comp.push(TakPiece::new(self.id_counter, player));
        let stack = TakStack::new(variant, comp);
        self.id_counter = self.id_counter + 1;
        self.empty_spaces = self.empty_spaces - 1;
        let ghost i = cell_index(pos, self.size as int);
        let ghost old_cells = old(self).cells();
        let r = pos.get_mut(self.board.as_mut_slice(), self.size);
        *r = Some(stack);
        proof {
            assert(stack@.1 =~= seq![TakPiece { id: old(self).id_counter, player }]);
            assert(self.cells() =~= old_cells.update(
                i,
                Some(placed_stack(variant, old(self).id_counter, player)),
            ));
            if old(self).wf() && old(self).cell(pos) is None {
                lemma_count_empty_update(old_cells, i, Some(placed_stack(variant, old(self).id_counter, player)));
                lemma_total_pieces_update(old_cells, i, Some(placed_stack(variant, old(self).id_counter, player)));
            }
        }
    }

    /// Checks whether the placement at `pos` can be undone: the cell must hold
    /// exactly one piece, of the given variant and player, and it must be the
    /// last piece placed.
    pub fn can_undo_place(&mut self, pos: TakCoord, variant: TakPieceVariant, player: TakPlayer) -> (r:
        Result<(), TakInvalidUndoPlaceError>)
        ensures
            r == undo_place_check(*old(self), pos, variant, player),
            *final(self) == *old(self),
    {
        match pos.try_get(self.board.as_slice(), self.size) {
            Some(Some(stack)) => {
                if stack.variant == variant && stack.composition.len() == 1 && stack.player()
                    == player && stack.composition[0].id < self.id_counter
                    && stack.composition[0].id + 1 == self.id_counter {
                    Ok(())
                } else {
                    Err(TakInvalidUndoPlaceError::NotAllowed)
                }
            },
            Some(None) => Err(TakInvalidUndoPlaceError::PositionEmpty),
            None => Err(TakInvalidUndoPlaceError::InvalidPosition),
        }
    }

    /// Undoes the placement at `pos` if `can_undo_place` allows it; the board is
    /// unchanged when it fails.
    pub fn try_undo_place(&mut self, pos: TakCoord, variant: TakPieceVariant, player: TakPlayer) -> (r:
        Result<(), TakInvalidUndoPlaceError>)
        requires
            old(self).wf(),
        ensures
            r == undo_place_check(*old(self), pos, variant, player),
            r is Ok ==> final(self).cells() == old(self).cells().update(
                cell_index(pos, old(self).size as int),
                None,
            ) && final(self).id_counter == old(self).id_counter - 1 && final(self).empty_spaces
                == old(self).empty_spaces + 1 && final(self).size == old(self).size,
            r is Err ==> *final(self) == *old(self),
            final(self).wf(),
    {
        self.can_undo_place(pos, variant, player)?;
        let _len = self.board.len();
        proof {
            let i = cell_index(pos, self.size as int);
            lemma_count_empty_le(self.cells());
            lemma_total_pieces_ge(self.cells(), i);
            lemma_count_empty_update(self.cells(), i, None);
            assert(count_empty(self.cells()) < self.cells().len());
        }
        self.undo_place_unchecked(pos);
        proof {
            lemma_total_pieces_update(old(self).cells(), cell_index(pos, old(self).size as int), None);
        }
        Ok(())
    }

    /// Empties the cell at `pos` without checking that it holds the last piece placed.
    pub fn undo_place_unchecked(&mut self, pos: TakCoord)
        requires
            on_board(pos, old(self).size as int),
            cell_index(pos, old(self).size as int) < old(self).board@.len(),
            old(self).id_counter > 0,
            old(self).empty_spaces < usize::MAX,
        ensures
            final(self).cells() == old(self).cells().update(
                cell_index(pos, old(self).size as int),
                None,
            ),
            final(self).id_counter == old(self).id_counter - 1,
            final(self).empty_spaces == old(self).empty_spaces + 1,
            final(self).size == old(self).size,
    {
        let ghost i = cell_index(pos, self.size as int);
        let ghost old_cells = self.cells();
        let stack = pos.get_mut(self.board.as_mut_slice(), self.size);
        *stack = None;
        self.id_counter = self.id_counter - 1;
        self.empty_spaces = self.empty_spaces + 1;
        assert(self.cells() =~= old_cells.update(i, None));
    }

    /// Whether some cell is empty.
    pub fn has_empty_space(&self) -> (r: bool)
        requires
            self.wf(),
        ensures
            r == exists|i: int| 0 <= i < self.cells().len() && #[trigger] self.cells()[i] is None,
    {
        proof {
            lemma_count_empty_le(self.cells());
            if exists|i: int| 0 <= i < self.cells().len() && #[trigger] self.cells()[i] is None {
                let i = choose|i: int| 0 <= i < self.cells().len() && #[trigger] self.cells()[i] is None;
                lemma_count_empty_pos(self.cells(), i);
            }
        }
        self.empty_spaces > 0
    }

    /// The stack at `pos`, if the position is on the board and not empty.
    pub fn try_get_stack(&self, pos: TakCoord) -> (r: Option<&TakStack>)
        ensures
            match r {
                Some(s) => on_board(pos, self.size as int) && cell_index(pos, self.size as int)
                    < self.board@.len() && self.board@[cell_index(pos, self.size as int)] == Some(
                    *s,
                ),
                None => !(on_board(pos, self.size as int) && cell_index(pos, self.size as int)
                    < self.board@.len() && self.board@[cell_index(pos, self.size as int)] is Some),
            },
    {
        match pos.try_get(self.board.as_slice(), self.size) {
            Some(Some(s)) => Some(s),
            _ => None,
        }
    }
}

} // verus!
