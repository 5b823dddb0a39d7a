//! The position part of TPS (Tak Positional System) for a board: writing it
//! and reading it back.
use vstd::prelude::*;

use crate::board::{opt_view, StackView, TakBoard, TakPiece, TakStack};
use crate::coord::{cell_index, TakCoord};
use crate::text::{
    decimal, free_of, joined, parse_usize, parse_usize_chars, push_decimal, split, split_chars, str_chars,
};
use crate::{TakPieceVariant, TakPlayer};

verus! {

/// The character of a piece's owner: `1` for White, `2` for Black.
pub open spec fn player_char(p: TakPlayer) -> char {
    match p {
        TakPlayer::White => '1',
        TakPlayer::Black => '2',
    }
}

/// The owners of the first `n` pieces, bottom first, as characters.
pub open spec fn pieces_text(pieces: Seq<TakPiece>, n: int) -> Seq<char>
    decreases n,
{
    if n <= 0 {
        Seq::empty()
    } else {
        pieces_text(pieces, n - 1).push(player_char(pieces[n - 1].player))
    }
}

/// The suffix that marks a stack's top: none for a flat, `S` for a wall, `C`
/// for a capstone.
pub open spec fn variant_suffix(v: TakPieceVariant) -> Seq<char> {
    match v {
        TakPieceVariant::Flat => Seq::empty(),
        TakPieceVariant::Wall => seq!['S'],
        TakPieceVariant::Capstone => seq!['C'],
    }
}

/// A stack in TPS: its owners from bottom to top, then the top's suffix.
pub open spec fn stack_text(s: StackView) -> Seq<char> {
    pieces_text(s.1, s.1.len() as int) + variant_suffix(s.0)
}

/// A run of `n` empty cells at the end of a row.
pub open spec fn empties(n: nat) -> Seq<char> {
    if n == 0 {
        Seq::empty()
    } else if n == 1 {
        seq!['x']
    } else {
        seq!['x'] + decimal(n)
    }
}

/// A run of `n` empty cells before a stack.
pub open spec fn empties_before(n: nat) -> Seq<char> {
    if n == 0 {
        Seq::empty()
    } else {
        empties(n).push(',')
    }
}

/// The rest of row `y` from column `x` on, after `ec` empty cells.
pub open spec fn row_text(cells: Seq<Option<StackView>>, size: int, y: int, x: int, ec: nat) -> Seq<
    char,
>
    decreases size - x,
{
    if x >= size {
        empties(ec)
    } else {
        match cells[y * size + x] {
            Some(s) => empties_before(ec) + stack_text(s) + (if x < size - 1 {
                seq![',']
            } else {
                Seq::empty()
            }) + row_text(cells, size, y, x + 1, 0),
            None => row_text(cells, size, y, x + 1, ec + 1),
        }
    }
}

/// Rows `k - 1` down to 0, separated by `/`.
pub open spec fn rows_text(cells: Seq<Option<StackView>>, size: int, k: int) -> Seq<char>
    decreases k,
{
    if k <= 0 {
        Seq::empty()
    } else {
        row_text(cells, size, k - 1, 0, 0) + (if k - 1 > 0 {
            seq!['/']
        } else {
            Seq::empty()
        }) + rows_text(cells, size, k - 1)
    }
}

/// The position part of TPS for a board: its rows from the top (highest y)
/// down, each listing its cells from x = 0.
pub open spec fn board_tps(b: TakBoard) -> Seq<char> {
    rows_text(b.cells(), b.size as int, b.size as int)
}

// ---------------------------------------------------------------------------
// Reading
// ---------------------------------------------------------------------------

/// The stack a TPS cell describes, with pieces numbered from `id` on: `1` and
/// `2` add a piece, `S` and `C` set the top's kind, other characters are ignored.
/// Gives the stack and the next free number.
pub open spec fn read_stack(part: Seq<char>, id: nat) -> (StackView, nat)
    decreases part.len(),
{
    if part.len() == 0 {
        ((TakPieceVariant::Flat, Seq::empty()), id)
    } else {
        let (s, next) = read_stack(part.drop_last(), id);
        let c = part.last();
        if c == '1' {
            ((s.0, s.1.push(TakPiece { id: next as usize, player: TakPlayer::White })), next + 1)
        } else if c == '2' {
            ((s.0, s.1.push(TakPiece { id: next as usize, player: TakPlayer::Black })), next + 1)
        } else if c == 'S' {
            ((TakPieceVariant::Wall, s.1), next)
        } else if c == 'C' {
            ((TakPieceVariant::Capstone, s.1), next)
        } else {
            (s, next)
        }
    }
}

/// How many empty cells a part that starts with `x` stands for: the number
/// after the `x`, or one when there is no valid number.
pub open spec fn empty_run(part: Seq<char>) -> nat {
    match parse_usize(part.drop_first()) {
        Some(n) => n as nat,
        None => 1,
    }
}

/// The cells of a row of TPS parts, with pieces numbered from `id` on.
pub open spec fn read_row(parts: Seq<Seq<char>>, id: nat) -> (Seq<Option<StackView>>, nat)
    decreases parts.len(),
{
    if parts.len() == 0 {
        (Seq::empty(), id)
    } else {
        let (r, next) = read_row(parts.drop_last(), id);
        let p = parts.last();
        if p.len() > 0 && p[0] == 'x' {
            (r + Seq::new(empty_run(p), |i: int| None::<StackView>), next)
        } else {
            let (s, n2) = read_stack(p, next);
            (r.push(Some(s)), n2)
        }
    }
}

/// The rows of TPS lines, in the order of the lines, with pieces numbered in
/// reading order from `id` on.
pub open spec fn read_rows(lines: Seq<Seq<char>>, id: nat) -> (Seq<Seq<Option<StackView>>>, nat)
    decreases lines.len(),
{
    if lines.len() == 0 {
        (Seq::empty(), id)
    } else {
        let (rs, next) = read_rows(lines.drop_last(), id);
        let (r, n2) = read_row(split(lines.last(), ','), next);
        (rs.push(r), n2)
    }
}

/// The cells of the rows, the last row first (the last line of TPS is y = 0).
pub open spec fn stack_rows(rows: Seq<Seq<Option<StackView>>>) -> Seq<Option<StackView>>
    decreases rows.len(),
{
    if rows.len() == 0 {
        Seq::empty()
    } else {
        rows.last() + stack_rows(rows.drop_last())
    }
}

/// The board a partial TPS describes: the rows must all have the width of the
/// first, and there must be as many rows as that width. Pieces are numbered in
/// reading order and the counters count pieces and empty cells.
pub open spec fn read_board(tps: Seq<char>) -> Option<(nat, Seq<Option<StackView>>, nat)> {
    let rows = rows_of(tps).0;
    let w = rows[0].len();
    if same_width(rows, w) && rows.len() * w == w * w {
        Some((w, stack_rows(rows), rows_of(tps).1))
    } else {
        None
    }
}

/// The rows of the lines of a TPS position and the number of pieces in them.
pub open spec fn rows_of(tps: Seq<char>) -> (Seq<Seq<Option<StackView>>>, nat) {
    read_rows(split(tps, '/'), 0)
}

/// Whether all rows have width `w`.
pub open spec fn same_width(rows: Seq<Seq<Option<StackView>>>, w: nat) -> bool {
    forall|i: int| 0 <= i < rows.len() ==> #[trigger] rows[i].len() == w
}

/// Appends a stack in TPS.
fn push_stack_text(tps: &mut String, stack: &TakStack)
    ensures
        final(tps)@ == old(tps)@ + stack_text(stack@),
{
    let n = stack.composition.len();
    for i in 0..n
        invariant
            n == stack@.1.len(),
            tps@ == old(tps)@ + pieces_text(stack@.1, i as int),
    {
        match stack.composition[i].player {
            TakPlayer::White => tps.push('1'),
            TakPlayer::Black => tps.push('2'),
        }
    }
    match stack.variant {
        TakPieceVariant::Flat => {},
        TakPieceVariant::Wall => tps.push('S'),
        TakPieceVariant::Capstone => tps.push('C'),
    };
    assert(tps@ =~= old(tps)@ + stack_text(stack@));
}

impl TakBoard {
    /// Writes the board as the position part of TPS.
    pub fn to_partial_tps(&self) -> (r: String)
        requires
            self.wf(),
        ensures
            r@ == board_tps(*self),
    {
        let mut tps = String::new();
        let size = self.size;
        let ghost cells = self.cells();
        let mut yy: usize = size;
        while yy > 0
            invariant
                self.wf(),
                size == self.size,
                cells == self.cells(),
                yy <= size,
                tps@ + rows_text(cells, size as int, yy as int) == board_tps(*self),
            decreases yy,
        {
            let y = yy - 1;
            let mut empty_count: usize = 0;
            let ghost rest = (if y > 0 {
                seq!['/']
            } else {
                Seq::empty()
            }) + rows_text(cells, size as int, y as int);
            assert(tps@ + row_text(cells, size as int, y as int, 0, 0) + rest =~= tps@
                + rows_text(cells, size as int, yy as int));
            for x in 0..size
                invariant
                    self.wf(),
                    size == self.size,
                    cells == self.cells(),
                    y < size,
                    empty_count <= x,
                    tps@ + row_text(cells, size as int, y as int, x as int, empty_count as nat)
                        + rest == board_tps(*self),
            {
                let pos = TakCoord::new(x as i32, y as i32);
                proof {
                    crate::coord::lemma_index_bounds_pub(pos, size as int);
                }
                let ghost t0 = tps@;
                match pos.get(self.board.as_slice(), self.size) {
                    Some(stack) => {
                        if empty_count == 1 {
                            tps.push('x');
                            tps.push(',');
                        } else if empty_count > 1 {
                            tps.push('x');
                            push_decimal(&mut tps, empty_count);
                            tps.push(',');
                        }
                        assert(tps@ == t0 + crate::board_text::empties_before(empty_count as nat));
                        empty_count = 0;
                        let ghost t1 = tps@;
                        push_stack_text(&mut tps, stack);
                        if x < size - 1 {
                            tps.push(',');
                        }
                        proof {
                            assert(cells[y * size + x] == Some(stack@));
                        }
                    },
                    None => {
                        empty_count = empty_count + 1;
                    },
                }
            }
            assert(tps@ + row_text(cells, size as int, y as int, size as int, empty_count as nat) + rest
                == board_tps(*self));
            if empty_count == 1 {
                tps.push('x');
            } else if empty_count > 1 {
                tps.push('x');
                push_decimal(&mut tps, empty_count);
            }
            if y > 0 {
                tps.push('/');
            }
            yy = y;
        }
        assert(tps@ =~= board_tps(*self));
        tps
    }
}

} // verus!

verus! {

/// The views of a row of optional stacks.
pub open spec fn row_view(r: Seq<Option<TakStack>>) -> Seq<Option<StackView>> {
    r.map_values(|o: Option<TakStack>| opt_view(o))
}

proof fn lemma_read_stack_next(part: Seq<char>, id: nat)
    ensures
        read_stack(part, id).1 >= id,
        read_stack(part, id).1 <= id + part.len(),
    decreases part.len(),
{
    if part.len() > 0 {
        lemma_read_stack_next(part.drop_last(), id);
    }
}

/// Reads one TPS cell that is not a run of empty cells.
fn read_stack_exec(part: &[char], id: usize) -> (r: Option<(TakStack, usize)>)
    ensures
        match r {
            Some((s, next)) => s@ == read_stack(part@, id as nat).0 && next == read_stack(
                part@,
                id as nat,
            ).1,
            None => read_stack(part@, id as nat).1 > usize::MAX,
        },
{
    let mut composition: Vec<TakPiece> = Vec::new();
    let mut variant = TakPieceVariant::Flat;
    let mut next = id;
    for i in 0..part.len()
        invariant
            read_stack(part@.take(i as int), id as nat) == ((variant, composition@), next as nat),
    {
        let c = part[i];
        assert(part@.take(i + 1).drop_last() =~= part@.take(i as int));
        if c == '1' || c == '2' {
            if next == usize::MAX {
                proof {
                    lemma_read_stack_next(part@.skip(i + 1), (next + 1) as nat);
                    lemma_read_stack_prefix(part@, i + 1, id as nat);
                }
                return None;
            }
            let player = if c == '1' {
                TakPlayer::White
            } else {
                TakPlayer::Black
            };
            composition.push(TakPiece::new(next, player));
            next = next + 1;
        } else if c == 'S' {
            variant = TakPieceVariant::Wall;
        } else if c == 'C' {
            variant = TakPieceVariant::Capstone;
        }
    }
    assert(part@.take(part@.len() as int) =~= part@);
    Some((TakStack::new(variant, composition), next))
}

/// Numbering only grows along a cell.
proof fn lemma_read_stack_prefix(part: Seq<char>, i: int, id: nat)
    requires
        0 <= i <= part.len(),
    ensures
        read_stack(part.take(i), id).1 <= read_stack(part, id).1,
    decreases part.len() - i,
{
    if i < part.len() {
        lemma_read_stack_prefix(part, i + 1, id);
        assert(part.take(i + 1).drop_last() =~= part.take(i));
    } else {
        assert(part.take(i) =~= part);
    }
}

} // verus!

verus! {

proof fn lemma_read_row_prefix(parts: Seq<Seq<char>>, i: int, id: nat)
    requires
        0 <= i <= parts.len(),
    ensures
        read_row(parts.take(i), id).1 <= read_row(parts, id).1,
        read_row(parts.take(i), id).0.len() <= read_row(parts, id).0.len(),
    decreases parts.len() - i,
{
    if i < parts.len() {
        lemma_read_row_prefix(parts, i + 1, id);
        assert(parts.take(i + 1).drop_last() =~= parts.take(i));
        let p = parts.take(i + 1).last();
        if !(p.len() > 0 && p[0] == 'x') {
            lemma_read_stack_next(p, read_row(parts.take(i), id).1);
        }
    } else {
        assert(parts.take(i) =~= parts);
    }
}

/// Reads one TPS row.
fn read_row_exec(parts: &Vec<Vec<char>>, id: usize) -> (r: Option<(Vec<Option<TakStack>>, usize)>)
    ensures
        match r {
            Some((row, next)) => row_view(row@) == read_row(
                parts@.map_values(|p: Vec<char>| p@),
                id as nat,
            ).0 && next == read_row(parts@.map_values(|p: Vec<char>| p@), id as nat).1,
            None => read_row(parts@.map_values(|p: Vec<char>| p@), id as nat).1 > usize::MAX
                || read_row(parts@.map_values(|p: Vec<char>| p@), id as nat).0.len() > usize::MAX,
        },
{
    let ghost pv = parts@.map_values(|p: Vec<char>| p@);
    let mut row: Vec<Option<TakStack>> = Vec::new();
    let mut next = id;
    for i in 0..parts.len()
        invariant
            pv == parts@.map_values(|p: Vec<char>| p@),
            read_row(pv.take(i as int), id as nat) == (row_view(row@), next as nat),
    {
        let part = &parts[i];
        assert(pv.take(i + 1).drop_last() =~= pv.take(i as int));
        assert(pv.take(i + 1).last() == part@);
        let ghost before = row_view(row@);
        if part.len() > 0 && part[0] == 'x' {
            let digits = crate::text::sub_chars(part.as_slice(), 1, part.len());
            assert(digits@ =~= part@.drop_first());
            let count = match parse_usize_chars(digits.as_slice()) {
                Some(n) => n,
                None => 1,
            };
            if count > usize::MAX - row.len() {
                proof {
                    lemma_read_row_prefix(pv, i + 1, id as nat);
                }
                return None;
            }
            let start = row.len();
            for j in 0..count
                invariant
                    row@.len() == start + j,
                    start + count <= usize::MAX,
                    row_view(row@) =~= before + Seq::new(j as nat, |k: int| None::<StackView>),
            {
                let ghost r0 = row@;
                row.push(None);
                assert(row_view(row@) =~= row_view(r0).push(None));
                assert(before + Seq::new((j + 1) as nat, |k: int| None::<StackView>) =~= (before
                    + Seq::new(j as nat, |k: int| None::<StackView>)).push(None));
            }
            assert(row_view(row@) =~= before + Seq::new(empty_run(part@), |k: int| None::<StackView>));
        } else {
            match read_stack_exec(part.as_slice(), next) {
                Some((s, n2)) => {
                    row.push(Some(s));
                    next = n2;
                    assert(row_view(row@) =~= before.push(Some(s@)));
                },
                None => {
                    proof {
                        lemma_read_row_prefix(pv, i + 1, id as nat);
                    }
                    return None;
                },
            }
        }
    }
    assert(pv.take(parts@.len() as int) =~= pv);
    Some((row, next))
}

} // verus!

verus! {

proof fn lemma_read_rows_prefix(lines: Seq<Seq<char>>, i: int, id: nat)
    requires
        0 <= i <= lines.len(),
    ensures
        read_rows(lines.take(i), id).1 <= read_rows(lines, id).1,
        read_rows(lines.take(i), id).0.len() == i,
        forall|j: int|
            0 <= j < i ==> #[trigger] read_rows(lines.take(i), id).0[j] == read_rows(lines, id).0[j],
    decreases lines.len() - i,
{
    if i < lines.len() {
        lemma_read_rows_prefix(lines, i + 1, id);
        assert(lines.take(i + 1).drop_last() =~= lines.take(i));
        let p = read_rows(lines.take(i), id);
        lemma_read_row_prefix(split(lines.take(i + 1).last(), ','), 0, p.1);
        assert(split(lines.take(i + 1).last(), ',').take(0) =~= Seq::<Seq<char>>::empty());
        lemma_read_rows_len(lines.take(i), id);
        assert forall|j: int| 0 <= j < i implies #[trigger] read_rows(lines.take(i), id).0[j]
            == read_rows(lines, id).0[j] by {
            assert(read_rows(lines.take(i), id).0[j] == read_rows(lines.take(i + 1), id).0[j]);
        }
    } else {
        assert(lines.take(i) =~= lines);
        lemma_read_rows_len(lines, id);
    }
}

proof fn lemma_read_rows_len(lines: Seq<Seq<char>>, id: nat)
    ensures
        read_rows(lines, id).0.len() == lines.len(),
    decreases lines.len(),
{
    if lines.len() > 0 {
        lemma_read_rows_len(lines.drop_last(), id);
    }
}

proof fn lemma_count_empty_take(cells: Seq<Option<StackView>>, i: int)
    requires
        0 <= i < cells.len(),
    ensures
        crate::board::count_empty(cells.take(i + 1)) == crate::board::count_empty(cells.take(i)) + (
        if cells[i] is None {
            1nat
        } else {
            0nat
        }),
{
    assert(cells.take(i + 1).drop_last() =~= cells.take(i));
}

proof fn lemma_split_nonempty(s: Seq<char>, sep: char)
    ensures
        split(s, sep).len() >= 1,
{
    crate::text::lemma_split_nonempty_pub(s, sep);
}

impl TakBoard {
    /// Reads a board from the position part of TPS: rows from the top down,
    /// separated by `/`; cells separated by `,`; `x` or `x` and a count for
    /// empty cells; otherwise the owners of the pieces from the bottom up
    /// (`1`, `2`), then `S` or `C` for the top's kind. Pieces are numbered in
    /// reading order. Fails when the rows differ in width or their number
    /// differs from the width, or when the board would not fit in memory.
    pub fn try_from_partial_tps(tps: &str) -> (r: Option<Self>)
        ensures
            match r {
                Some(b) => read_board(tps@) == Some((b.size as nat, b.cells(), b.id_counter as nat))
                    && b.empty_spaces == crate::board::count_empty(b.cells()) && b.board@.len()
                    == b.size * b.size,
                None => match read_board(tps@) {
                    None => true,
                    Some((w, cells, count)) => w > usize::MAX || count > usize::MAX || cells.len()
                        > usize::MAX,
                },
            },
    {
        let chars = str_chars(tps);
        let lines = split_chars(chars.as_slice(), '/');
        let ghost lv = split(tps@, '/');
        let ghost all = read_rows(lv, 0);
        assert(all == rows_of(tps@));
        proof {
            lemma_split_nonempty(tps@, '/');
            lemma_read_rows_len(lv, 0);
        }
        let mut rows: Vec<Vec<Option<TakStack>>> = Vec::new();
        let mut id_counter: usize = 0;
        let mut width: usize = 0;
        for i in 0..lines.len()
            invariant
                lines@.len() == lv.len(),
                lv.len() >= 1,
                all == read_rows(lv, 0),
                all == rows_of(tps@),
                lv == split(tps@, '/'),
                all.0.len() == lv.len(),
                forall|j: int| 0 <= j < lines@.len() ==> #[trigger] lines@[j]@ == lv[j],
                rows@.len() == i,
                forall|j: int| 0 <= j < i ==> #[trigger] row_view(rows@[j]@) == all.0[j],
                id_counter == read_rows(lv.take(i as int), 0).1,
                i > 0 ==> width == all.0[0].len(),
                forall|j: int| 0 <= j < i ==> #[trigger] all.0[j].len() == width,
        {
            proof {
                lemma_read_rows_prefix(lv, i as int, 0);
                lemma_read_rows_prefix(lv, i + 1, 0);
                assert(lv.take(i + 1).drop_last() =~= lv.take(i as int));
            }
            let parts = split_chars(lines[i].as_slice(), ',');
            assert(parts@.map_values(|p: Vec<char>| p@) =~= split(lv[i as int], ','));
            let ghost this_row = read_row(split(lv[i as int], ','), id_counter as nat);
            assert(lv.take(i + 1).last() == lv[i as int]);
            assert(read_rows(lv.take(i + 1), 0).0[i as int] == this_row.0);
            assert(all.0[i as int] == this_row.0);
            assert(read_rows(lv.take(i + 1), 0).1 == this_row.1);
            match read_row_exec(&parts, id_counter) {
                None => {
                    proof {
                        if read_board(tps@) is Some {
                            let w = all.0[0].len();
                            assert(same_width(all.0, w));
                            if this_row.1 > usize::MAX {
                            } else {
                                assert(all.0[i as int].len() == w);
                            }
                        }
                    }
                    return None;
                },
                Some((row, next)) => {
                    if i == 0 {
                        width = row.len();
                    } else if width != row.len() {
                        assert(all.0[i as int].len() != all.0[0].len());
                        assert(!same_width(all.0, all.0[0].len()));
                        return None;
                    }
                    rows.push(row);
                    id_counter = next;
                    assert(row_view(rows@[i as int]@) == all.0[i as int]);
                },
            }
        }
        proof {
            assert(lv.take(lv.len() as int) =~= lv);
        }
        if width != 0 && rows.len() != width {
            proof {
                assert(lv.len() * width != width * width) by (nonlinear_arith)
                    requires
                        width != 0,
                        lv.len() != width,
                ;
            }
            return None;
        }
        let total = match width.checked_mul(width) {
            Some(t) => t,
            None => {
                proof {
                    assert(crate::board_text::stack_rows(all.0).len() == lv.len() * width) by {
                        lemma_stack_rows_len(all.0, width as nat);
                    }
                    if width == 0 {
                        assert(width * width == 0);
                    }
                    assert(rows@.len() == width);
                }
                return None;
            },
        };
        let ghost full = stack_rows(all.0);
        let mut board: Vec<Option<TakStack>> = Vec::new();
        assert(all.0.take(rows@.len() as int) =~= all.0);
        while rows.len() > 0
            invariant
                rows@.len() <= all.0.len(),
                forall|j: int| 0 <= j < rows@.len() ==> #[trigger] row_view(rows@[j]@) == all.0[j],
                row_view(board@) + stack_rows(all.0.take(rows@.len() as int)) == full,
            decreases rows@.len(),
        {
            let ghost k = rows@.len() as int;
            let ghost b0 = board@;
            let mut row = rows.pop().unwrap();
            let ghost rv = row@;
            board.append(&mut row);
            proof {
                assert(all.0.take(k).drop_last() =~= all.0.take(k - 1));
                assert(row_view(board@) =~= row_view(b0) + row_view(rv));
                assert(row_view(board@) + stack_rows(all.0.take(k - 1)) =~= row_view(b0)
                    + stack_rows(all.0.take(k)));
            }
        }
        assert(all.0.take(0) =~= Seq::<Seq<Option<StackView>>>::empty());
        assert(row_view(board@) =~= full);
        let mut empty_spaces: usize = 0;
        for i in 0..board.len()
            invariant
                empty_spaces == crate::board::count_empty(row_view(board@).take(i as int)),
                empty_spaces <= i,
        {
            proof {
                lemma_count_empty_take(row_view(board@), i as int);
            }
            if board[i].is_none() {
                empty_spaces = empty_spaces + 1;
            }
        }
        assert(row_view(board@).take(board@.len() as int) =~= row_view(board@));
        proof {
            lemma_stack_rows_len(all.0, width as nat);
            if width == 0 {
                assert(lv.len() * 0 == 0);
            }
        }
        let r = TakBoard { size: width, board, id_counter, empty_spaces };
        assert(r.cells() =~= row_view(r.board@));
        Some(r)
    }
}

proof fn lemma_stack_rows_len(rows: Seq<Seq<Option<StackView>>>, w: nat)
    requires
        forall|j: int| 0 <= j < rows.len() ==> #[trigger] rows[j].len() == w,
    ensures
        stack_rows(rows).len() == rows.len() * w,
    decreases rows.len(),
{
    if rows.len() > 0 {
        lemma_stack_rows_len(rows.drop_last(), w);
        assert((rows.len() - 1) * w + w == rows.len() * w) by (nonlinear_arith);
    }
}

/// A board read from TPS has as many cells as its width squared.
pub proof fn lemma_read_board_len(tps: Seq<char>)
    requires
        read_board(tps) is Some,
    ensures
        read_board(tps).unwrap().1.len() == read_board(tps).unwrap().0 * read_board(tps).unwrap().0,
{
    let rows = rows_of(tps).0;
    let w = rows[0].len();
    lemma_stack_rows_len(rows, w);
}

// ---------------------------------------------------------------------------
// Reading back what was written
// ---------------------------------------------------------------------------

/// A stack without the numbers of its pieces: its top's kind and the
/// owners of its pieces from the bottom.
pub open spec fn stack_shape(s: StackView) -> (TakPieceVariant, Seq<TakPlayer>) {
    (s.0, s.1.map_values(|p: TakPiece| p.player))
}

/// The cells without the numbers of their pieces.
pub open spec fn cells_shape(cells: Seq<Option<StackView>>) -> Seq<Option<(TakPieceVariant, Seq<TakPlayer>)>> {
    cells.map_values(
        |c: Option<StackView>|
            match c {
                Some(s) => Some(stack_shape(s)),
                None => None,
            },
    )
}

/// Whether `c` may appear in the text of a cell: an owner, a kind, `x` or
/// a digit.
pub open spec fn cell_char(c: char) -> bool {
    c == '1' || c == '2' || c == 'S' || c == 'C' || c == 'x' || ('0' <= c <= '9')
}

/// Whether every character of `s` may appear in the text of a cell.
pub open spec fn cell_chars(s: Seq<char>) -> bool {
    forall|i: int| 0 <= i < s.len() ==> cell_char(#[trigger] s[i])
}

/// Text of cell characters holds neither separator.
proof fn lemma_cell_chars_free(s: Seq<char>)
    requires
        cell_chars(s),
    ensures
        free_of(s, ','),
        free_of(s, '/'),
{
    assert forall|i: int| 0 <= i < s.len() implies s[i] != ',' by {
        assert(cell_char(s[i]));
    }
    assert forall|i: int| 0 <= i < s.len() implies s[i] != '/' by {
        assert(cell_char(s[i]));
    }
}

/// Decimal text is made of digits.
proof fn lemma_decimal_cell_chars(n: nat)
    ensures
        cell_chars(decimal(n)),
        decimal(n).len() >= 1,
    decreases n,
{
    if n >= 10 {
        lemma_decimal_cell_chars(n / 10);
        assert forall|i: int| 0 <= i < decimal(n).len() implies cell_char(#[trigger] decimal(n)[i]) by {
            if i < decimal(n / 10).len() {
                assert(decimal(n)[i] == decimal(n / 10)[i]);
            } else {
                assert(decimal(n)[i] == crate::text::digit_char(n % 10));
            }
        }
    } else {
        assert(decimal(n)[0] == crate::text::digit_char(n));
    }
}

/// The owners of pieces written as text read back as those owners, all
/// flats, numbered on from `id`.
proof fn lemma_read_pieces(ps: Seq<TakPiece>, n: int, id: nat)
    requires
        0 <= n <= ps.len(),
    ensures
        read_stack(pieces_text(ps, n), id).0.0 == TakPieceVariant::Flat,
        read_stack(pieces_text(ps, n), id).0.1.map_values(|p: TakPiece| p.player) == ps.take(n).map_values(
            |p: TakPiece| p.player,
        ),
        read_stack(pieces_text(ps, n), id).1 == id + n,
        pieces_text(ps, n).len() == n,
        cell_chars(pieces_text(ps, n)),
        n >= 1 ==> pieces_text(ps, n)[0] == player_char(ps[0].player),
    decreases n,
{
    if n > 0 {
        lemma_read_pieces(ps, n - 1, id);
        let t = pieces_text(ps, n);
        let prev = pieces_text(ps, n - 1);
        assert(t.drop_last() =~= prev);
        let r = read_stack(prev, id);
        let c = player_char(ps[n - 1].player);
        assert(t.last() == c);
        let q = TakPiece {
            id: r.1 as usize,
            player: if c == '1' {
                TakPlayer::White
            } else {
                TakPlayer::Black
            },
        };
        assert(q.player == ps[n - 1].player) by {
            match ps[n - 1].player {
                TakPlayer::White => {},
                TakPlayer::Black => {},
            }
        }
        assert(t.len() > 0);
        assert(read_stack(t, id) == ((r.0.0, r.0.1.push(q)), r.1 + 1));
        assert(ps.take(n) =~= ps.take(n - 1).push(ps[n - 1]));
        assert(r.0.1.push(q).map_values(|p: TakPiece| p.player) =~= r.0.1.map_values(|p: TakPiece| p.player).push(
            q.player,
        ));
        assert(ps.take(n - 1).push(ps[n - 1]).map_values(|p: TakPiece| p.player) =~= ps.take(n - 1).map_values(
            |p: TakPiece| p.player,
        ).push(ps[n - 1].player));
        assert(read_stack(t, id).0.1.map_values(|p: TakPiece| p.player) =~= ps.take(n).map_values(
            |p: TakPiece| p.player,
        ));
        assert forall|i: int| 0 <= i < t.len() implies cell_char(#[trigger] t[i]) by {
            if i < n - 1 {
                assert(t[i] == prev[i]);
            }
        }
        if n >= 2 {
            assert(t[0] == prev[0]);
        }
    }
}

/// A stack written as text reads back as the same stack, its pieces
/// numbered on from `id`; the text starts with an owner.
proof fn lemma_read_stack_text(s: StackView, id: nat)
    requires
        s.1.len() >= 1,
    ensures
        stack_shape(read_stack(stack_text(s), id).0) == stack_shape(s),
        cell_chars(stack_text(s)),
        stack_text(s).len() >= 1,
        stack_text(s)[0] == '1' || stack_text(s)[0] == '2',
{
    let n = s.1.len() as int;
    lemma_read_pieces(s.1, n, id);
    let pt = pieces_text(s.1, n);
    assert(s.1.take(n) =~= s.1);
    let t = stack_text(s);
    match s.0 {
        TakPieceVariant::Flat => {
            assert(t =~= pt);
        },
        TakPieceVariant::Wall => {
            assert(t.drop_last() =~= pt);
            assert(t.last() == 'S');
        },
        TakPieceVariant::Capstone => {
            assert(t.drop_last() =~= pt);
            assert(t.last() == 'C');
        },
    }
    assert forall|i: int| 0 <= i < t.len() implies cell_char(#[trigger] t[i]) by {
        if i < pt.len() {
            assert(t[i] == pt[i]);
        }
    }
    assert(t[0] == pt[0]);
    match s.1[0].player {
        TakPlayer::White => {},
        TakPlayer::Black => {},
    }
}

/// Reading two runs of parts reads the first, then the second numbered on.
proof fn lemma_read_row_concat(a: Seq<Seq<char>>, b: Seq<Seq<char>>, id: nat)
    ensures
        read_row(a + b, id) == (
            read_row(a, id).0 + read_row(b, read_row(a, id).1).0,
            read_row(b, read_row(a, id).1).1,
        ),
    decreases b.len(),
{
    if b.len() == 0 {
        assert(a + b =~= a);
        assert(read_row(a, id).0 + Seq::<Option<StackView>>::empty() =~= read_row(a, id).0);
    } else {
        lemma_read_row_concat(a, b.drop_last(), id);
        assert((a + b).drop_last() =~= a + b.drop_last());
        assert((a + b).last() == b.last());
        let n1 = read_row(a, id).1;
        let p = b.last();
        if p.len() > 0 && p[0] == 'x' {
            assert(read_row(a, id).0 + read_row(b.drop_last(), n1).0 + Seq::new(empty_run(p), |i: int| None::<StackView>)
                =~= read_row(a, id).0 + (read_row(b.drop_last(), n1).0 + Seq::new(
                empty_run(p),
                |i: int| None::<StackView>,
            )));
        } else {
            let (st, n2) = read_stack(p, read_row(b.drop_last(), n1).1);
            assert((read_row(a, id).0 + read_row(b.drop_last(), n1).0).push(Some(st)) =~= read_row(a, id).0 + read_row(
                b.drop_last(),
                n1,
            ).0.push(Some(st)));
        }
    }
}

/// The parts of row `y` from column `x` on, after `ec` empty cells: runs
/// of empty cells and stacks, as the row's text separates them.
pub open spec fn row_parts(cells: Seq<Option<StackView>>, size: int, y: int, x: int, ec: nat) -> Seq<Seq<char>>
    decreases size - x,
{
    if x >= size {
        if ec == 0 {
            Seq::empty()
        } else {
            seq![empties(ec)]
        }
    } else {
        match cells[y * size + x] {
            Some(s) => (if ec == 0 {
                Seq::empty()
            } else {
                seq![empties(ec)]
            }) + seq![stack_text(s)] + row_parts(cells, size, y, x + 1, 0),
            None => row_parts(cells, size, y, x + 1, ec + 1),
        }
    }
}

/// A run of empty cells is written in cell characters and starts with `x`.
proof fn lemma_empties(ec: nat)
    requires
        ec >= 1,
        ec <= usize::MAX,
    ensures
        cell_chars(empties(ec)),
        empties(ec).len() >= 1,
        empties(ec)[0] == 'x',
        empty_run(empties(ec)) == ec,
{
    let e = empties(ec);
    if ec == 1 {
        assert(e.drop_first() =~= Seq::<char>::empty());
    } else {
        lemma_decimal_cell_chars(ec);
        crate::tps::lemma_parse_decimal(ec as usize);
        assert(e.drop_first() =~= decimal(ec));
        assert forall|i: int| 0 <= i < e.len() implies cell_char(#[trigger] e[i]) by {
            if i > 0 {
                assert(e[i] == decimal(ec)[i - 1]);
            }
        }
    }
}

/// The text of a row is its parts separated by commas, each part written
/// in cell characters.
proof fn lemma_row_parts(cells: Seq<Option<StackView>>, size: int, y: int, x: int, ec: nat)
    requires
        0 <= x <= size,
        size <= usize::MAX,
        ec <= x,
        0 <= y,
        (y + 1) * size <= cells.len(),
        forall|c: int| y * size <= c < y * size + size ==> (#[trigger] cells[c] matches Some(s) ==> s.1.len() > 0),
    ensures
        row_text(cells, size, y, x, ec) == joined(row_parts(cells, size, y, x, ec), ','),
        forall|i: int| 0 <= i < row_parts(cells, size, y, x, ec).len() ==> cell_chars(
            #[trigger] row_parts(cells, size, y, x, ec)[i],
        ),
        (x < size || ec > 0) ==> row_parts(cells, size, y, x, ec).len() >= 1,
    decreases size - x,
{
    assert((y + 1) * size == y * size + size) by (nonlinear_arith);
    if x >= size {
        if ec > 0 {
            lemma_empties(ec);
        }
        assert(row_text(cells, size, y, x, ec) == empties(ec));
    } else {
        let c = y * size + x;
        match cells[c] {
            Some(s) => {
                lemma_row_parts(cells, size, y, x + 1, 0);
                lemma_read_stack_text(s, 0);
                let rest = row_parts(cells, size, y, x + 1, 0);
                let head: Seq<Seq<char>> = if ec == 0 {
                    Seq::empty()
                } else {
                    seq![empties(ec)]
                };
                let parts = head + seq![stack_text(s)] + rest;
                if ec > 0 {
                    lemma_empties(ec);
                }
                let front = head + seq![stack_text(s)];
                assert(joined(front, ',') == empties_before(ec) + stack_text(s)) by {
                    let st = stack_text(s);
                    if ec == 0 {
                        assert(front =~= seq![st]);
                        assert(joined(seq![st], ',') == st);
                        assert(empties_before(0) + st =~= st);
                    } else {
                        let e = empties(ec);
                        assert(front =~= seq![e, st]);
                        assert(seq![e, st].drop_first() =~= seq![st]);
                        assert(joined(seq![st], ',') == st);
                        assert(joined(seq![e, st], ',') == e + seq![','] + st);
                        assert(empties_before(ec) =~= e + seq![',']);
                    }
                }
                if x < size - 1 {
                    crate::text::lemma_joined_concat(front, rest, ',');
                    assert(parts =~= front + rest);
                } else {
                    assert(rest =~= Seq::<Seq<char>>::empty());
                    assert(parts =~= front);
                    assert(row_text(cells, size, y, x + 1, 0) =~= Seq::<char>::empty());
                }
                assert forall|i: int| 0 <= i < parts.len() implies cell_chars(#[trigger] parts[i]) by {
                    if i < head.len() {
                    } else if i == head.len() {
                    } else {
                        assert(parts[i] == rest[i - head.len() - 1]);
                    }
                }
            },
            None => {
                lemma_row_parts(cells, size, y, x + 1, ec + 1);
            },
        }
    }
}

/// The parts of a row read back as the row's cells from column `x - ec`
/// on, but for the numbers of the pieces.
proof fn lemma_read_row_parts(cells: Seq<Option<StackView>>, size: int, y: int, x: int, ec: nat, id: nat)
    requires
        0 <= x <= size,
        size <= usize::MAX,
        ec <= x,
        0 <= y,
        (y + 1) * size <= cells.len(),
        forall|c: int| y * size <= c < y * size + size ==> (#[trigger] cells[c] matches Some(s) ==> s.1.len() > 0),
        forall|c: int| y * size + x - ec <= c < y * size + x ==> #[trigger] cells[c] is None,
    ensures
        cells_shape(read_row(row_parts(cells, size, y, x, ec), id).0) == cells_shape(
            cells.subrange(y * size + x - ec, y * size + size),
        ),
    decreases size - x,
{
    assert((y + 1) * size == y * size + size) by (nonlinear_arith);
    let lo = y * size + x - ec;
    if x >= size {
        if ec == 0 {
            assert(cells.subrange(lo, y * size + size) =~= Seq::<Option<StackView>>::empty());
            assert(read_row(Seq::<Seq<char>>::empty(), id).0 =~= Seq::<Option<StackView>>::empty());
        } else {
            lemma_empties(ec);
            let e = empties(ec);
            assert(seq![e].drop_last() =~= Seq::<Seq<char>>::empty());
            assert(seq![e].last() == e);
            assert(read_row(Seq::<Seq<char>>::empty(), id) == (Seq::<Option<StackView>>::empty(), id));
            let r = read_row(seq![e], id).0;
            assert(r == Seq::<Option<StackView>>::empty() + Seq::new(empty_run(e), |i: int| None::<StackView>));
            assert(r =~= Seq::new(ec, |i: int| None::<StackView>));
            assert(cells_shape(r) =~= cells_shape(cells.subrange(lo, y * size + size))) by {
                let sub = cells.subrange(lo, y * size + size);
                assert forall|i: int| 0 <= i < ec implies #[trigger] sub[i] is None by {
                    assert(sub[i] == cells[lo + i]);
                }
            }
        }
    } else {
        let c = y * size + x;
        match cells[c] {
            Some(s) => {
                lemma_read_row_parts(cells, size, y, x + 1, 0, id);
                let head: Seq<Seq<char>> = if ec == 0 {
                    Seq::empty()
                } else {
                    seq![empties(ec)]
                };
                let mid = seq![stack_text(s)];
                let rest = row_parts(cells, size, y, x + 1, 0);
                let parts = head + mid + rest;
                lemma_read_stack_text(s, 0);
                lemma_read_row_concat(head + mid, rest, id);
                lemma_read_row_concat(head, mid, id);
                let n1 = read_row(head, id).1;
                let rh = read_row(head, id).0;
                assert(mid.drop_last() =~= Seq::<Seq<char>>::empty());
                let rm = read_row(mid, n1);
                assert(mid.last() == stack_text(s));
                assert(read_row(Seq::<Seq<char>>::empty(), n1) == (Seq::<Option<StackView>>::empty(), n1));
                assert(rm.0 =~= seq![Some(read_stack(stack_text(s), n1).0)]);
                lemma_read_stack_text(s, n1);
                let n2 = rm.1;
                lemma_read_row_parts(cells, size, y, x + 1, 0, n2);
                if ec == 0 {
                    assert(head =~= Seq::<Seq<char>>::empty());
                    assert(rh =~= Seq::<Option<StackView>>::empty());
                } else {
                    lemma_empties(ec);
                    let e = empties(ec);
                    assert(head.drop_last() =~= Seq::<Seq<char>>::empty());
                    assert(head.last() == e);
                    assert(read_row(Seq::<Seq<char>>::empty(), id) == (Seq::<Option<StackView>>::empty(), id));
                    assert(rh == Seq::<Option<StackView>>::empty() + Seq::new(empty_run(e), |i: int| None::<StackView>));
                    assert(rh =~= Seq::new(ec, |i: int| None::<StackView>));
                }
                let whole = cells.subrange(lo, y * size + size);
                let tail = cells.subrange(c + 1, y * size + size);
                assert(whole =~= cells.subrange(lo, c) + seq![cells[c]] + tail);
                assert(cells_shape(read_row(parts, id).0) =~= cells_shape(whole)) by {
                    let got = read_row(parts, id).0;
                    let rr = read_row(rest, n2).0;
                    assert(got == rh + rm.0 + rr);
                    assert(rh.len() == ec);
                    assert(cells_shape(rr).len() == cells_shape(tail).len());
                    assert(rr.len() == tail.len());
                    assert(got.len() == whole.len());
                    assert forall|i: int| 0 <= i < got.len() implies cells_shape(got)[i] == cells_shape(whole)[i] by {
                        assert(whole[i] == cells[lo + i]);
                        if i < ec {
                            assert(got[i] == rh[i]);
                        } else if i == ec {
                            assert(got[i] == rm.0[0]);
                        } else {
                            let k = i - ec - 1;
                            assert(got[i] == rr[k]);
                            assert(tail[k] == cells[c + 1 + k]);
                            assert(cells_shape(rr)[k] == cells_shape(tail)[k]);
                        }
                    }
                }
            },
            None => {
                lemma_read_row_parts(cells, size, y, x + 1, ec + 1, id);
            },
        }
    }
}

/// Pieces free of `other` written with `sep` between them hold no `other`
/// when `sep` is not `other`.
proof fn lemma_joined_free(ps: Seq<Seq<char>>, sep: char, other: char)
    requires
        sep != other,
        forall|i: int| 0 <= i < ps.len() ==> free_of(#[trigger] ps[i], other),
    ensures
        free_of(joined(ps, sep), other),
    decreases ps.len(),
{
    if ps.len() >= 2 {
        let rest = ps.drop_first();
        assert forall|i: int| 0 <= i < rest.len() implies free_of(#[trigger] rest[i], other) by {
            assert(rest[i] == ps[i + 1]);
        }
        lemma_joined_free(rest, sep, other);
        let j = joined(ps, sep);
        let a = ps[0];
        assert(free_of(ps[0], other));
        assert forall|i: int| 0 <= i < j.len() implies j[i] != other by {
            if i < a.len() {
                assert(j[i] == a[i]);
            } else if i == a.len() {
                assert(j[i] == sep);
            } else {
                assert(j[i] == joined(rest, sep)[i - a.len() - 1]);
            }
        }
    } else if ps.len() == 1 {
        assert(free_of(ps[0], other));
    }
}

/// The text of each row, from the top row down.
pub open spec fn row_list(cells: Seq<Option<StackView>>, size: int, k: int) -> Seq<Seq<char>> {
    Seq::new(k as nat, |i: int| row_text(cells, size, k - 1 - i, 0, 0))
}

/// The rows of a board, the top one first, as its TPS separates them.
proof fn lemma_rows_text(cells: Seq<Option<StackView>>, size: int, k: int)
    requires
        1 <= k <= size,
        size <= usize::MAX,
        size * size <= cells.len(),
        forall|c: int| 0 <= c < size * size ==> (#[trigger] cells[c] matches Some(s) ==> s.1.len() > 0),
    ensures
        rows_text(cells, size, k) == joined(row_list(cells, size, k), '/'),
        forall|i: int| 0 <= i < k ==> free_of(#[trigger] row_list(cells, size, k)[i], '/'),
    decreases k,
{
    let l = row_list(cells, size, k);
    assert forall|i: int| 0 <= i < k implies free_of(#[trigger] l[i], '/') by {
        let y = k - 1 - i;
        assert((y + 1) * size <= size * size) by (nonlinear_arith)
            requires
                0 <= y < size,
        ;
        assert forall|c: int| y * size <= c < y * size + size implies (#[trigger] cells[c] matches Some(s) ==> s.1.len() > 0) by {
            assert((y + 1) * size == y * size + size) by (nonlinear_arith);
        }
        lemma_row_parts(cells, size, y, 0, 0);
        let parts = row_parts(cells, size, y, 0, 0);
        assert forall|j: int| 0 <= j < parts.len() implies free_of(#[trigger] parts[j], '/') by {
            lemma_cell_chars_free(parts[j]);
        }
        lemma_joined_free(parts, ',', '/');
    }
    if k == 1 {
        assert(rows_text(cells, size, 0) =~= Seq::<char>::empty());
        assert(rows_text(cells, size, 1) =~= row_text(cells, size, 0, 0, 0));
        assert(l =~= seq![row_text(cells, size, 0, 0, 0)]);
    } else {
        lemma_rows_text(cells, size, k - 1);
        let rest = row_list(cells, size, k - 1);
        assert(l.drop_first() =~= rest);
        assert(l[0] == row_text(cells, size, k - 1, 0, 0));
    }
}

/// Reading the first `j` row texts, top row first, gives those rows but
/// for the numbers of the pieces.
proof fn lemma_read_rows(cells: Seq<Option<StackView>>, size: int, j: int, id: nat)
    requires
        0 <= j <= size,
        1 <= size <= usize::MAX,
        size * size <= cells.len(),
        forall|c: int| 0 <= c < size * size ==> (#[trigger] cells[c] matches Some(s) ==> s.1.len() > 0),
    ensures
        read_rows(row_list(cells, size, size).take(j), id).0.len() == j,
        forall|i: int|
            0 <= i < j ==> #[trigger] cells_shape(read_rows(row_list(cells, size, size).take(j), id).0[i])
                == cells_shape(cells.subrange((size - 1 - i) * size, (size - 1 - i) * size + size)),
    decreases j,
{
    let lines = row_list(cells, size, size);
    if j > 0 {
        lemma_read_rows(cells, size, j - 1, id);
        let t = lines.take(j);
        assert(t.drop_last() =~= lines.take(j - 1));
        let y = size - j;
        assert(t.last() == row_text(cells, size, y, 0, 0));
        assert((y + 1) * size <= size * size) by (nonlinear_arith)
            requires
                0 <= y < size,
        ;
        assert((y + 1) * size == y * size + size) by (nonlinear_arith);
        assert forall|c: int| y * size <= c < y * size + size implies (#[trigger] cells[c] matches Some(s) ==> s.1.len() > 0) by {}
        lemma_row_parts(cells, size, y, 0, 0);
        let parts = row_parts(cells, size, y, 0, 0);
        assert forall|i: int| 0 <= i < parts.len() implies free_of(#[trigger] parts[i], ',') by {
            lemma_cell_chars_free(parts[i]);
        }
        crate::text::lemma_split_joined(parts, ',');
        let prev = read_rows(lines.take(j - 1), id);
        lemma_read_row_parts(cells, size, y, 0, 0, prev.1);
        let rs = read_rows(t, id).0;
        assert(rs == prev.0.push(read_row(parts, prev.1).0));
        assert forall|i: int|
            0 <= i < j implies #[trigger] cells_shape(rs[i]) == cells_shape(
                cells.subrange((size - 1 - i) * size, (size - 1 - i) * size + size),
            ) by {
            if i < j - 1 {
                assert(rs[i] == prev.0[i]);
            } else {
                assert(size - 1 - i == y);
            }
        }
    }
}

/// Rows read top first, stacked bottom first, give the cells of the board
/// from row `size - j` up.
proof fn lemma_stack_rows(rows: Seq<Seq<Option<StackView>>>, cells: Seq<Option<StackView>>, size: int, j: int)
    requires
        0 <= j <= rows.len() == size,
        size * size <= cells.len(),
        forall|i: int|
            0 <= i < size ==> #[trigger] cells_shape(rows[i]) == cells_shape(
                cells.subrange((size - 1 - i) * size, (size - 1 - i) * size + size),
            ),
    ensures
        cells_shape(stack_rows(rows.take(j))) == cells_shape(cells.subrange((size - j) * size, size * size)),
    decreases j,
{
    if j == 0 {
        assert(cells.subrange(size * size, size * size) =~= Seq::<Option<StackView>>::empty());
        assert(stack_rows(rows.take(0)) =~= Seq::<Option<StackView>>::empty());
    } else {
        lemma_stack_rows(rows, cells, size, j - 1);
        let t = rows.take(j);
        assert(t.drop_last() =~= rows.take(j - 1));
        assert(t.last() == rows[j - 1]);
        let y = size - j;
        assert(cells_shape(rows[j - 1]) == cells_shape(cells.subrange(y * size, y * size + size)));
        assert((y + 1) * size == y * size + size) by (nonlinear_arith);
        assert(y * size + size <= size * size) by (nonlinear_arith)
            requires
                0 <= y < size,
        ;
        let a = rows[j - 1];
        let b = stack_rows(rows.take(j - 1));
        let ca = cells.subrange(y * size, y * size + size);
        let cb = cells.subrange((y + 1) * size, size * size);
        assert(cells.subrange(y * size, size * size) =~= ca + cb);
        assert(cells_shape(a).len() == cells_shape(ca).len());
        assert(cells_shape(b).len() == cells_shape(cb).len());
        assert(cells_shape(a + b) =~= cells_shape(ca + cb)) by {
            assert forall|i: int| 0 <= i < (a + b).len() implies cells_shape(a + b)[i] == cells_shape(ca + cb)[i] by {
                if i < a.len() {
                    assert(cells_shape(a)[i] == cells_shape(ca)[i]);
                } else {
                    assert(cells_shape(b)[i - a.len()] == cells_shape(cb)[i - a.len()]);
                }
            }
        }
    }
}

/// Reading the TPS of a sound board gives back its size and its stacks,
/// but for the numbers of the pieces, which count up in reading order.
pub proof fn law_board_tps_round_trip(b: TakBoard)
    requires
        b.wf(),
        b.size >= 1,
    ensures
        read_board(board_tps(b)) matches Some((w, cells, _)) && w == b.size && cells_shape(cells) == cells_shape(
            b.cells(),
        ),
{
    let size = b.size as int;
    let cells = b.cells();
    assert(b.board@.len() == cells.len());
    assert forall|c: int| 0 <= c < size * size implies (#[trigger] cells[c] matches Some(s) ==> s.1.len() > 0) by {}
    lemma_rows_text(cells, size, size);
    let lines = row_list(cells, size, size);
    crate::text::lemma_split_joined(lines, '/');
    assert(split(board_tps(b), '/') == lines);
    lemma_read_rows(cells, size, size, 0);
    assert(lines.take(size) =~= lines);
    let rows = rows_of(board_tps(b)).0;
    assert(rows.len() == size);
    assert forall|i: int| 0 <= i < rows.len() implies #[trigger] rows[i].len() == size by {
        assert(cells_shape(rows[i]) == cells_shape(
            cells.subrange((size - 1 - i) * size, (size - 1 - i) * size + size),
        ));
        assert((size - 1 - i) * size + size <= size * size) by (nonlinear_arith)
            requires
                0 <= i < size,
        ;
        assert(cells_shape(rows[i]).len() == rows[i].len());
    }
    assert(rows[0].len() == size);
    assert(same_width(rows, size as nat));
    lemma_stack_rows(rows, cells, size, size);
    assert(rows.take(size) =~= rows);
    assert(cells.subrange(0, size * size) =~= cells);
}

} // verus!
