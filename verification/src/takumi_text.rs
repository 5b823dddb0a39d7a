//! The engine's position text: rows from the top, cells separated by `,`,
//! runs of empty cells as `x` with a count, stacks as their pieces from the
//! bottom (`1` White, `2` Black) with `S` or `C` for a wall or capstone on
//! top; then the player to move (`1` or `2`) and the move number.
use vstd::prelude::*;

use crate::takumi::{bit, lemma_bits, shape_ok, Board};
use crate::text::{decimal, push_decimal};

verus! {

/// The pieces of a stack from the bottom: bit `i` of `s` set is Black (`2`),
/// clear is White (`1`).
pub open spec fn bits_text(s: u64, h: int) -> Seq<char>
    decreases h,
{
    if h <= 0 {
        Seq::empty()
    } else {
        bits_text(s, h - 1).push(if bit(s, h - 1) { '2' } else { '1' })
    }
}

/// The text of the stack at `pos`: its pieces, then `S` for a wall or `C`
/// for a capstone.
pub open spec fn cell_text(b: Board, pos: int) -> Seq<char> {
    bits_text(b.stacks@[pos], b.stack_heights@[pos] as int) + (if bit(b.walls, pos) {
        seq!['S']
    } else if bit(b.capstones, pos) {
        seq!['C']
    } else {
        Seq::empty()
    })
}

/// A run of `ec` empty cells written before a stack.
pub open spec fn run_before(ec: nat) -> Seq<char> {
    if ec == 0 {
        Seq::empty()
    } else if ec == 1 {
        seq!['x', ',']
    } else {
        seq!['x'] + decimal(ec) + seq![',']
    }
}

/// Row `y` from column `x` on, with `ec` empty cells pending and `first`
/// telling whether no stack of the row was written yet. A row of empty
/// cells is `x` and its count; empty cells that end a row come as `,x` and
/// their count.
pub open spec fn row_from(b: Board, y: int, x: int, ec: nat, first: bool) -> Seq<char>
    decreases b.size - x,
{
    let size = b.size as int;
    if x >= size {
        if ec == size {
            seq!['x'] + decimal(ec)
        } else if ec > 0 {
            seq![',', 'x'] + decimal(ec)
        } else {
            Seq::empty()
        }
    } else if b.stack_heights@[y * size + x] == 0 {
        row_from(b, y, x + 1, ec + 1, first)
    } else {
        (if first {
            Seq::empty()
        } else {
            seq![',']
        }) + run_before(ec) + cell_text(b, y * size + x) + row_from(b, y, x + 1, 0, false)
    }
}

/// The rows from row `y` on, separated by `/`.
pub open spec fn rows_from(b: Board, y: int) -> Seq<char>
    decreases b.size - y,
{
    if y >= b.size {
        Seq::empty()
    } else {
        (if y > 0 {
            seq!['/']
        } else {
            Seq::empty()
        }) + row_from(b, y, 0, 0, true) + rows_from(b, y + 1)
    }
}

/// The position text of a board.
pub open spec fn pos_text(b: Board) -> Seq<char> {
    rows_from(b, 0) + seq![' ', if b.current_player == 0 { '1' } else { '2' }, ' '] + decimal(
        (b.ply_index / 2 + 1) as nat,
    )
}

impl Board {
    /// Writes the board as position text.
    pub fn to_pos_str(&self) -> (r: String)
        requires
            shape_ok(*self),
        ensures
            r@ == pos_text(*self),
    {
        let mut result = String::new();
        let size = self.size;
        proof {
            assert(size * size <= 64) by (nonlinear_arith)
                requires
                    3 <= size <= 8,
            ;
        }
        let ghost total = rows_from(*self, 0);
        let mut y: usize = 0;
        while y < size
            invariant
                shape_ok(*self),
                size == self.size,
                size * size <= 64,
                y <= size,
                result@ + rows_from(*self, y as int) == total,
                total == rows_from(*self, 0),
            decreases size - y,
        {
            let ghost t0 = result@;
            if y > 0 {
                result.push('/');
            }
            let ghost rest = rows_from(*self, y + 1);
            assert(result@ + row_from(*self, y as int, 0, 0, true) + rest =~= t0 + rows_from(*self, y as int));
            let mut empty_count: usize = 0;
            let mut first = true;
            let mut x: usize = 0;
            while x < size
                invariant
                    shape_ok(*self),
                    size == self.size,
                    size * size <= 64,
                    y < size,
                    x <= size,
                    empty_count <= x,
                    result@ + row_from(*self, y as int, x as int, empty_count as nat, first) + rest == t0
                        + rows_from(*self, y as int),
                decreases size - x,
            {
                proof {
                    assert(y * size + x < size * size) by (nonlinear_arith)
                        requires
                            y < size,
                            x < size,
                    ;
                }
                let pos = y * size + x;
                if self.stack_heights[pos] == 0 {
                    empty_count = empty_count + 1;
                } else {
                    let ghost t1 = result@;
                    if !first {
                        result.push(',');
                    }
                    first = false;
                    if empty_count > 0 {
                        if empty_count == 1 {
                            result.push('x');
                            result.push(',');
                        } else {
                            result.push('x');
                            push_decimal(&mut result, empty_count);
                            result.push(',');
                        }
                        empty_count = 0;
                    }
                    let ghost t2 = result@;
                    let stack = self.stacks[pos];
                    let h = self.stack_heights[pos];
                    let mut height: u64 = 0;
                    while height < h
                        invariant
                            shape_ok(*self),
                            size == self.size,
                            pos < size * size,
                            size * size <= 64,
                            h == self.stack_heights@[pos as int],
                            stack == self.stacks@[pos as int],
                            height <= h,
                            result@ == t2 + bits_text(stack, height as int),
                        decreases h - height,
                    {
                        proof {
                            assert(h <= 64);
                            lemma_bits(stack, height, height);
                        }
                        if stack & (1u64 << height) != 0 {
                            result.push('2');
                        } else {
                            result.push('1');
                        }
                        height = height + 1;
                    }
                    proof {
                        lemma_bits(self.walls, pos as u64, pos as u64);
                        lemma_bits(self.capstones, pos as u64, pos as u64);
                    }
                    if self.walls & (1u64 << (pos as u64)) != 0 {
                        result.push('S');
                    } else if self.capstones & (1u64 << (pos as u64)) != 0 {
                        result.push('C');
                    }
                    assert(result@ =~= t2 + cell_text(*self, pos as int));
                }
                x = x + 1;
            }
            let ghost t3 = result@;
            if empty_count == size {
                result.push('x');
                push_decimal(&mut result, empty_count);
            } else if empty_count > 0 {
                result.push(',');
                result.push('x');
                push_decimal(&mut result, empty_count);
            }
            assert(result@ =~= t3 + row_from(*self, y as int, size as int, empty_count as nat, first));
            y = y + 1;
        }
        assert(result@ =~= total);
        let ghost t4 = result@;
        let move_index = self.ply_index / 2 + 1;
        result.push(' ');
        if self.current_player == 0 {
            result.push('1');
        } else {
            result.push('2');
        }
        result.push(' ');
        push_decimal(&mut result, move_index);
        assert(result@ =~= pos_text(*self));
        result
    }
}

} // verus!
