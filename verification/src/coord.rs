//! Coordinates on the board and the four directions.
use vstd::prelude::*;

verus! {

/// A position on the board; `x` is the file, `y` the rank.
#[derive(Debug, Clone, Copy, PartialEq, Eq, Hash, Structural)]
pub struct TakCoord {
    pub x: i32,
    pub y: i32,
}

/// The four directions in which stacks move: up towards higher ranks
/// (growing `y`), down, left towards the `a` file (shrinking `x`), right.
#[derive(Debug, Clone, Copy, PartialEq, Eq, Hash, Structural)]
pub enum TakDir {
    Up,
    Down,
    Left,
    Right,
}

/// Whether `c` lies on a board of the given size.
pub open spec fn on_board(c: TakCoord, size: int) -> bool {
    0 <= c.x < size && 0 <= c.y < size
}

/// The index of `c` in a row-major board of the given size.
pub open spec fn cell_index(c: TakCoord, size: int) -> int {
    c.y * size + c.x
}

/// `c` moved `n` steps in direction `d` (arithmetic in mathematical integers).
pub open spec fn step(c: TakCoord, d: TakDir, n: int) -> TakCoord {
    match d {
        TakDir::Up => TakCoord { x: c.x, y: (c.y + n) as i32 },
        TakDir::Down => TakCoord { x: c.x, y: (c.y - n) as i32 },
        TakDir::Left => TakCoord { x: (c.x - n) as i32, y: c.y },
        TakDir::Right => TakCoord { x: (c.x + n) as i32, y: c.y },
    }
}

/// Whether `c` moved `n` steps in direction `d` stays within `i32`.
pub open spec fn step_fits(c: TakCoord, d: TakDir, n: int) -> bool {
    match d {
        TakDir::Up => i32::MIN <= c.y + n <= i32::MAX,
        TakDir::Down => i32::MIN <= c.y - n <= i32::MAX,
        TakDir::Left => i32::MIN <= c.x - n <= i32::MAX,
        TakDir::Right => i32::MIN <= c.x + n <= i32::MAX,
    }
}

/// One more step after `i` steps is `i + 1` steps.
pub proof fn lemma_step_succ(c: TakCoord, d: TakDir, i: int)
    requires
        step_fits(c, d, i),
    ensures
        step(step(c, d, i), d, 1) == step(c, d, i + 1),
{
}

/// Zero steps stay in place.
pub proof fn lemma_step_zero(c: TakCoord, d: TakDir)
    ensures
        step(c, d, 0) == c,
{
}

/// A position one step from a position on a board of size below `i32::MAX`
/// fits in `i32`, and so do the steps that lead there.
pub proof fn lemma_step_fits_next(c: TakCoord, d: TakDir, i: int, size: int)
    requires
        step_fits(c, d, i),
        on_board(step(c, d, i), size),
        size < i32::MAX,
    ensures
        step_fits(step(c, d, i), d, 1),
        step_fits(c, d, i + 1),
{
}

/// The direction opposite to `d`.
pub open spec fn opposite_dir(d: TakDir) -> TakDir {
    match d {
        TakDir::Up => TakDir::Down,
        TakDir::Down => TakDir::Up,
        TakDir::Left => TakDir::Right,
        TakDir::Right => TakDir::Left,
    }
}

/// The index of a direction: Up 0, Down 1, Left 2, Right 3.
pub open spec fn dir_idx(d: TakDir) -> int {
    match d {
        TakDir::Up => 0,
        TakDir::Down => 1,
        TakDir::Left => 2,
        TakDir::Right => 3,
    }
}

/// The direction `is_adjacent` reports for `a` seen from `b`, if they are neighbours.
pub open spec fn adjacency(a: TakCoord, b: TakCoord) -> Option<TakDir> {
    if a.x == b.x {
        if a.y == b.y + 1 {
            Some(TakDir::Up)
        } else if a.y == b.y - 1 {
            Some(TakDir::Down)
        } else {
            None
        }
    } else if a.y == b.y {
        if a.x == b.x - 1 {
            Some(TakDir::Left)
        } else if a.x == b.x + 1 {
            Some(TakDir::Right)
        } else {
            None
        }
    } else {
        None
    }
}

/// The index of a position on the board lies within the board.
pub proof fn lemma_index_bounds_pub(c: TakCoord, size: int)
    requires
        on_board(c, size),
    ensures
        0 <= cell_index(c, size) < size * size,
{
    lemma_index_bounds(c, size);
}

proof fn lemma_index_bounds(c: TakCoord, size: int)
    requires
        on_board(c, size),
    ensures
        0 <= cell_index(c, size) < size * size,
{
    assert(c.y * size <= (size - 1) * size) by (nonlinear_arith)
        requires
            0 <= c.y < size,
    ;
    assert((size - 1) * size == size * size - size) by (nonlinear_arith);
    assert(0 <= c.y * size) by (nonlinear_arith)
        requires
            0 <= c.y,
            0 <= size,
    ;
}

/// Distinct positions on a board have distinct indices.
pub proof fn lemma_index_injective(a: TakCoord, b: TakCoord, size: int)
    requires
        on_board(a, size),
        on_board(b, size),
        cell_index(a, size) == cell_index(b, size),
    ensures
        a == b,
{
    if a.y < b.y {
        assert(a.y * size + size <= b.y * size) by (nonlinear_arith)
            requires
                a.y < b.y,
                0 <= size,
        ;
    } else if b.y < a.y {
        assert(b.y * size + size <= a.y * size) by (nonlinear_arith)
            requires
                b.y < a.y,
                0 <= size,
        ;
    }
}

/// The position of index `k` on a board of the given size.
pub open spec fn coord_of(k: int, size: int) -> TakCoord {
    TakCoord { x: (k % size) as i32, y: (k / size) as i32 }
}

/// Every index of a board is the index of exactly one position on it.
pub proof fn lemma_coord_of(k: int, size: int)
    requires
        0 <= k < size * size,
        0 <= size <= i32::MAX,
    ensures
        on_board(coord_of(k, size), size),
        cell_index(coord_of(k, size), size) == k,
{
    if size == 0 {
        assert(size * size == 0);
    }
    assert(0 <= k / size < size) by (nonlinear_arith)
        requires
            0 <= k < size * size,
            size > 0,
    ;
    assert(k == (k / size) * size + k % size) by (nonlinear_arith)
        requires
            size > 0,
    ;
    assert(0 <= k % size < size) by (nonlinear_arith)
        requires
            size > 0,
    ;
}

impl TakCoord {
    /// The position (x, y).
    pub fn new(x: i32, y: i32) -> (r: Self)
        ensures
            r.x == x,
            r.y == y,
    {
        TakCoord { x, y }
    }

    /// All positions of a board of the given size, row by row from y = 0,
    /// each row from x = 0.
    pub fn iter_board(size: usize) -> (r: Vec<TakCoord>)
        requires
            size <= i32::MAX,
            size * size <= usize::MAX,
        ensures
            r@.len() == size * size,
            forall|k: int| 0 <= k < size * size ==> #[trigger] r@[k] == coord_of(k, size as int),
    {
        let mut r: Vec<TakCoord> = Vec::new();
        assert(0 * size == 0);
        for y in 0..size
            invariant
                size <= i32::MAX,
                size * size <= usize::MAX,
                r@.len() == y * size,
                forall|k: int| 0 <= k < y * size ==> #[trigger] r@[k] == coord_of(k, size as int),
        {
            assert((y + 1) * size <= size * size) by (nonlinear_arith)
                requires
                    y < size,
            ;
            assert((y + 1) * size == y * size + size) by (nonlinear_arith);
            for x in 0..size
                invariant
                    size <= i32::MAX,
                    y < size,
                    (y + 1) * size <= size * size,
                    size * size <= usize::MAX,
                    r@.len() == y * size + x,
                    forall|k: int|
                        0 <= k < y * size + x ==> #[trigger] r@[k] == coord_of(k, size as int),
            {
                proof {
                    let k = y * size + x;
                    assert(k / (size as int) == y && k % (size as int) == x) by (nonlinear_arith)
                        requires
                            k == y * size + x,
                            x < size,
                            0 <= x,
                            0 <= y,
                    ;
                }
                r.push(TakCoord::new(x as i32, y as i32));
            }
        }
        r
    }

    /// Whether this position lies on a board of the given size.
    pub fn is_valid(&self, size: usize) -> (r: bool)
        ensures
            r == on_board(*self, size as int),
    {
        self.x >= 0 && self.y >= 0 && (self.x as usize) < size && (self.y as usize) < size
    }

    /// This position moved by (dx, dy).
    pub fn offset(&self, dx: i32, dy: i32) -> (r: Self)
        requires
            i32::MIN <= self.x + dx <= i32::MAX,
            i32::MIN <= self.y + dy <= i32::MAX,
        ensures
            r.x == self.x + dx,
            r.y == self.y + dy,
    {
        TakCoord { x: self.x + dx, y: self.y + dy }
    }

    /// This position moved one step in direction `dir`.
    pub fn offset_dir(&self, dir: TakDir) -> (r: Self)
        requires
            step_fits(*self, dir, 1),
        ensures
            r == step(*self, dir, 1),
    {
        self.offset_dir_many(dir, 1)
    }

    /// This position moved `count` steps in direction `dir`.
    pub fn offset_dir_many(&self, dir: TakDir, count: i32) -> (r: Self)
        requires
            count > i32::MIN,
            step_fits(*self, dir, count as int),
        ensures
            r == step(*self, dir, count as int),
    {
        match dir {
            TakDir::Up => self.offset(0, count),
            TakDir::Down => self.offset(0, -count),
            TakDir::Left => self.offset(-count, 0),
            TakDir::Right => self.offset(count, 0),
        }
    }

    /// Computes the index of this position on a board of `size` whose cells are
    /// `len` long, when it lies on the board and the index is below `len`.
    fn board_index(&self, len: usize, size: usize) -> (r: Option<usize>)
        ensures
            r == (if on_board(*self, size as int) && cell_index(*self, size as int) < len {
                Some(cell_index(*self, size as int) as usize)
            } else {
                None
            }),
    {
        if !self.is_valid(size) {
            return None;
        }
        let y = self.y as usize;
        let x = self.x as usize;
        proof {
            assert(0 <= y * size) by (nonlinear_arith);
        }
        match y.checked_mul(size) {
            None => None,
            Some(m) => match m.checked_add(x) {
                None => None,
                Some(i) => {
                    if i < len {
                        Some(i)
                    } else {
                        None
                    }
                },
            },
        }
    }

    /// The index of this position on a board of the given size.
    pub(crate) fn index_in(&self, size: usize) -> (r: usize)
        requires
            on_board(*self, size as int),
            size * size <= usize::MAX,
        ensures
            r == cell_index(*self, size as int),
    {
        proof {
            lemma_index_bounds(*self, size as int);
            assert(0 <= self.y * size) by (nonlinear_arith)
                requires
                    0 <= self.y,
            ;
            assert(self.y * size <= size * size) by (nonlinear_arith)
                requires
                    0 <= self.y < size,
            ;
        }
        (self.y as usize) * size + (self.x as usize)
    }

    /// The element of a row-major board at this position, if the position is on
    /// the board and the board holds it.
    pub fn try_get<'a, T>(&self, board: &'a [T], size: usize) -> (r: Option<&'a T>)
        ensures
            r == (if on_board(*self, size as int) && cell_index(*self, size as int) < board@.len() {
                Some(&board@[cell_index(*self, size as int)])
            } else {
                None
            }),
    {
        match self.board_index(board.len(), size) {
            Some(i) => Some(&board[i]),
            None => None,
        }
    }

    /// The element of a row-major board at this position.
    pub fn get<'a, T>(&self, board: &'a [T], size: usize) -> (r: &'a T)
        requires
            on_board(*self, size as int),
            cell_index(*self, size as int) < board@.len(),
        ensures
            *r == board@[cell_index(*self, size as int)],
    {
        let i = self.board_index(board.len(), size);
        &board[i.unwrap()]
    }

    /// The element of a row-major board at this position, for writing, if the
    /// position is on the board and the board holds it.
    pub fn try_get_mut<'a, T>(&self, board: &'a mut [T], size: usize) -> (r: Option<&'a mut T>)
        ensures
            match r {
                Some(e) => {
                    &&& on_board(*self, size as int)
                    &&& cell_index(*self, size as int) < old(board)@.len()
                    &&& *e == old(board)@[cell_index(*self, size as int)]
                    &&& final(board)@ == old(board)@.update(
                        cell_index(*self, size as int),
                        *final(e),
                    )
                },
                None => {
                    &&& !(on_board(*self, size as int) && cell_index(*self, size as int) < old(
                        board,
                    )@.len())
                    &&& final(board)@ == old(board)@
                },
            },
    {
        match self.board_index(board.len(), size) {
            Some(i) => Some(&mut board[i]),
            None => None,
        }
    }

    /// The element of a row-major board at this position, for writing.
    pub fn get_mut<'a, T>(&self, board: &'a mut [T], size: usize) -> (r: &'a mut T)
        requires
            on_board(*self, size as int),
            cell_index(*self, size as int) < old(board)@.len(),
        ensures
            *r == old(board)@[cell_index(*self, size as int)],
            final(board)@ == old(board)@.update(cell_index(*self, size as int), *final(r)),
    {
        let i = self.board_index(board.len(), size).unwrap();
        &mut board[i]
    }

    /// The direction in which this position lies as seen from `other`, if the
    /// two are neighbours.
    pub fn is_adjacent(&self, other: &TakCoord) -> (r: Option<TakDir>)
        ensures
            r == adjacency(*self, *other),
    {
        let (x, y) = (self.x as i64, self.y as i64);
        let (ox, oy) = (other.x as i64, other.y as i64);
        if x == ox {
            if y == oy + 1 {
                Some(TakDir::Up)
            } else if y == oy - 1 {
                Some(TakDir::Down)
            } else {
                None
            }
        } else if y == oy {
            if x == ox - 1 {
                Some(TakDir::Left)
            } else if x == ox + 1 {
                Some(TakDir::Right)
            } else {
                None
            }
        } else {
            None
        }
    }
}

impl TakDir {
    /// The four directions, in the order up, down, left, right.
    pub const ALL: [TakDir; 4] = [TakDir::Up, TakDir::Down, TakDir::Left, TakDir::Right];

    /// The index of this direction: Up 0, Down 1, Left 2, Right 3.
    pub fn index(&self) -> (r: usize)
        ensures
            r == dir_idx(*self),
    {
        match self {
            TakDir::Up => 0,
            TakDir::Down => 1,
            TakDir::Left => 2,
            TakDir::Right => 3,
        }
    }

    /// The opposite direction.
    pub fn opposite(&self) -> (r: TakDir)
        ensures
            r == opposite_dir(*self),
    {
        match self {
            TakDir::Up => TakDir::Down,
            TakDir::Down => TakDir::Up,
            TakDir::Left => TakDir::Right,
            TakDir::Right => TakDir::Left,
        }
    }
}

/// Opposite directions undo each other: one step in `d` then one step in the
/// opposite direction comes back to the start.
pub proof fn law_opposite_step_returns(c: TakCoord, d: TakDir)
    requires
        step_fits(c, d, 1),
    ensures
        step(step(c, d, 1), opposite_dir(d), 1) == c,
        opposite_dir(opposite_dir(d)) == d,
{
}

/// `is_adjacent` and stepping agree: `a` lies in direction `d` as seen from
/// `b` exactly when one step from `b` in direction `d` reaches `a`.
pub proof fn law_adjacency_is_step(a: TakCoord, b: TakCoord, d: TakDir)
    requires
        i32::MIN < b.x < i32::MAX,
        i32::MIN < b.y < i32::MAX,
    ensures
        adjacency(a, b) == Some(d) <==> a == step(b, d, 1),
{
}

} // verus!
