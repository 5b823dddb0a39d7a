//! Actions: placing a piece or moving a stack, and their PTN notation.
use vstd::prelude::*;

use crate::coord::{TakCoord, TakDir};
use crate::text::{decimal, push_decimal, str_chars};
use crate::{TakPieceVariant, TakPlayer};

verus! {

/// An action as it was played, with what it needs to be undone: the player
/// of a placed piece, and whether a move flattened a wall.
#[derive(Clone, Debug, PartialEq)]
pub enum TakActionRecord {
    PlacePiece { pos: TakCoord, variant: TakPieceVariant, player: TakPlayer },
    MovePiece { pos: TakCoord, dir: TakDir, take: usize, drops: Vec<usize>, flattened: bool },
}

/// An action a player asks for: place a piece, or take `take` pieces from
/// the stack at `pos` and drop them in direction `dir`, `drops[i]` on the
/// `i + 1`-th cell.
#[derive(Debug, Clone, PartialEq)]
pub enum TakAction {
    PlacePiece { pos: TakCoord, variant: TakPieceVariant },
    MovePiece { pos: TakCoord, dir: TakDir, take: usize, drops: Vec<usize> },
}

/// What an action is: its position, and either the variant placed or the
/// direction, take count and drops of the move.
pub type ActionSpec = (TakCoord, Result<TakPieceVariant, (TakDir, usize, Seq<usize>)>);

/// The mathematical value of an action.
pub open spec fn action_spec(a: TakAction) -> ActionSpec {
    match a {
        TakAction::PlacePiece { pos, variant } => (pos, Ok(variant)),
        TakAction::MovePiece { pos, dir, take, drops } => (pos, Err((dir, take, drops@))),
    }
}

/// The letter of a file: `a` for 0.
pub open spec fn file_char(x: int) -> char {
    (97 + x) as char
}

/// The PTN sign of a direction.
pub open spec fn dir_char(d: TakDir) -> char {
    match d {
        TakDir::Up => '+',
        TakDir::Down => '-',
        TakDir::Left => '<',
        TakDir::Right => '>',
    }
}

/// The PTN prefix of a placed variant.
pub open spec fn variant_prefix(v: TakPieceVariant) -> Seq<char> {
    match v {
        TakPieceVariant::Flat => Seq::empty(),
        TakPieceVariant::Wall => seq!['S'],
        TakPieceVariant::Capstone => seq!['C'],
    }
}

/// The drop counts written one after the other.
pub open spec fn drops_text(drops: Seq<usize>) -> Seq<char>
    decreases drops.len(),
{
    if drops.len() == 0 {
        Seq::empty()
    } else {
        drops_text(drops.drop_last()) + decimal(drops.last() as nat)
    }
}

/// The PTN text of a played action: the variant prefix, file and rank
/// (`y + 1`) of a placement; or the take count (left out when 1), file,
/// rank, direction sign, drop counts and `*` when a wall was flattened.
pub open spec fn record_ptn(r: TakActionRecord) -> Seq<char> {
    match r {
        TakActionRecord::PlacePiece { pos, variant, .. } => variant_prefix(variant) + seq![
            file_char(pos.x as int),
        ] + decimal((pos.y + 1) as nat),
        TakActionRecord::MovePiece { pos, dir, take, drops, flattened } => (if take == 1 {
            Seq::empty()
        } else {
            decimal(take as nat)
        }) + seq![file_char(pos.x as int)] + decimal((pos.y + 1) as nat) + seq![dir_char(dir)]
            + drops_text(drops@) + if flattened {
            seq!['*']
        } else {
            Seq::empty()
        },
    }
}

/// Whether a position can be written in PTN: file `a` to `z`, rank from 1.
pub open spec fn ptn_writable(pos: TakCoord) -> bool {
    0 <= pos.x <= 25 && 0 <= pos.y < i32::MAX
}

/// Whether `c` is a file letter.
pub open spec fn is_file(c: char) -> bool {
    'a' <= c <= 'z'
}

/// Whether `c` is a digit from 1 to 9.
pub open spec fn is_count(c: char) -> bool {
    '1' <= c <= '9'
}

/// The position a file letter and rank digit stand for when read: file `a`
/// is column 0 and rank 1 is row 0, as `to_ptn` writes them.
pub open spec fn read_pos(size: int, file: char, rank: char) -> TakCoord {
    TakCoord { x: (file as int - 97) as i32, y: (rank as int - 49) as i32 }
}

/// What a played action is, as an action: its position, and the variant
/// placed or the move's direction, take count and drops.
pub open spec fn record_spec(r: TakActionRecord) -> ActionSpec {
    match r {
        TakActionRecord::PlacePiece { pos, variant, .. } => (pos, Ok(variant)),
        TakActionRecord::MovePiece { pos, dir, take, drops, .. } => (pos, Err((dir, take, drops@))),
    }
}

/// Whether a played action is written in PTN with one digit per number:
/// file `a` to `z` and rank 1 to 9, and for a move a take count and at
/// least one drop, each from 1 to 9.
pub open spec fn record_ptn_fits(r: TakActionRecord) -> bool {
    match r {
        TakActionRecord::PlacePiece { pos, .. } => 0 <= pos.x <= 25 && 0 <= pos.y <= 8,
        TakActionRecord::MovePiece { pos, take, drops, .. } => {
            &&& 0 <= pos.x <= 25
            &&& 0 <= pos.y <= 8
            &&& 1 <= take <= 9
            &&& drops@.len() >= 1
            &&& forall|i: int| 0 <= i < drops@.len() ==> 1 <= #[trigger] drops@[i] <= 9
        },
    }
}

/// Drops of one digit each are written one character a drop.
proof fn lemma_drops_digits(drops: Seq<usize>)
    requires
        forall|i: int| 0 <= i < drops.len() ==> 1 <= #[trigger] drops[i] <= 9,
    ensures
        drops_text(drops).len() == drops.len(),
        forall|i: int| 0 <= i < drops.len() ==> #[trigger] drops_text(drops)[i] == crate::text::digit_char(
            drops[i] as nat,
        ),
    decreases drops.len(),
{
    if drops.len() > 0 {
        let d = drops.drop_last();
        assert forall|i: int| 0 <= i < d.len() implies 1 <= #[trigger] d[i] <= 9 by {
            assert(d[i] == drops[i]);
        }
        lemma_drops_digits(d);
        assert(decimal(drops.last() as nat) == seq![crate::text::digit_char(drops.last() as nat)]);
        assert forall|i: int| 0 <= i < drops.len() implies #[trigger] drops_text(drops)[i]
            == crate::text::digit_char(drops[i] as nat) by {
            if i < d.len() {
                assert(drops_text(drops)[i] == drops_text(d)[i]);
            }
        }
    }
}

/// The run of drop digits starting at `i` ends where the digits end.
proof fn lemma_count_run(s: Seq<char>, i: int, j: int)
    requires
        0 <= i <= j <= s.len(),
        forall|k: int| i <= k < j ==> is_count(#[trigger] s[k]),
        j == s.len() || !is_count(s[j]),
    ensures
        count_run(s, i) == j - i,
    decreases j - i,
{
    if i < j {
        lemma_count_run(s, i + 1, j);
    }
}

/// Reading back the PTN text of a played action gives the action played.
pub proof fn law_ptn_round_trip(size: int, r: TakActionRecord)
    requires
        record_ptn_fits(r),
    ensures
        ptn_action(size, record_ptn(r)) == Some(record_spec(r)),
{
    let s = record_ptn(r);
    match r {
        TakActionRecord::PlacePiece { pos, variant, player } => {
            let y1 = (pos.y + 1) as nat;
            assert(decimal(y1) == seq![crate::text::digit_char(y1)]);
            assert(read_pos(size, file_char(pos.x as int), crate::text::digit_char(y1)) == pos);
            match variant {
                TakPieceVariant::Flat => {
                    assert(s =~= seq![file_char(pos.x as int), crate::text::digit_char(y1)]);
                },
                TakPieceVariant::Wall => {
                    assert(s =~= seq!['S', file_char(pos.x as int), crate::text::digit_char(y1)]);
                },
                TakPieceVariant::Capstone => {
                    assert(s =~= seq!['C', file_char(pos.x as int), crate::text::digit_char(y1)]);
                },
            }
        },
        TakActionRecord::MovePiece { pos, dir, take, drops, flattened } => {
            let y1 = (pos.y + 1) as nat;
            let fc = file_char(pos.x as int);
            let rc = crate::text::digit_char(y1);
            assert(decimal(y1) == seq![rc]);
            assert(read_pos(size, fc, rc) == pos);
            let t: Seq<char> = if take == 1 {
                Seq::empty()
            } else {
                decimal(take as nat)
            };
            assert(decimal(take as nat) == seq![crate::text::digit_char(take as nat)]);
            let star: Seq<char> = if flattened {
                seq!['*']
            } else {
                Seq::empty()
            };
            let dt = drops_text(drops@);
            lemma_drops_digits(drops@);
            let head = t + seq![fc, rc, dir_char(dir)];
            assert(s =~= head + dt + star);
            let i0 = t.len() as int;
            assert(s.len() == i0 + 3 + dt.len() + star.len());
            assert(s[i0] == fc && s[i0 + 1] == rc && s[i0 + 2] == dir_char(dir));
            assert(!(s.len() == 3) && !(s.len() == 2));
            assert(place_parse(size, s) is None);
            assert forall|k: int| i0 + 3 <= k < i0 + 3 + dt.len() implies is_count(#[trigger] s[k]) by {
                assert(s[k] == dt[k - i0 - 3]);
                assert(1 <= drops@[k - i0 - 3] <= 9);
            }
            let j = i0 + 3 + dt.len();
            if flattened {
                assert(s[j] == '*');
            }
            lemma_count_run(s, i0 + 3, j);
            assert(count_values(s, i0 + 3, j) =~= drops@) by {
                assert forall|k: int| 0 <= k < drops@.len() implies count_values(s, i0 + 3, j)[k] == drops@[k] by {
                    assert(s[i0 + 3 + k] == dt[k]);
                    assert(1 <= drops@[k] <= 9);
                }
            }
            if take != 1 {
                assert(s[0] == crate::text::digit_char(take as nat));
            }
        },
    }
}

/// The placement a text stands for: an optional `S` or `C`, a file letter
/// and a rank digit, and nothing more.
pub open spec fn place_parse(size: int, s: Seq<char>) -> Option<ActionSpec> {
    if s.len() == 3 && (s[0] == 'S' || s[0] == 'C') && is_file(s[1]) && is_count(s[2]) {
        Some(
            (
                read_pos(size, s[1], s[2]),
                Ok(
                    if s[0] == 'S' {
                        TakPieceVariant::Wall
                    } else {
                        TakPieceVariant::Capstone
                    },
                ),
            ),
        )
    } else if s.len() == 2 && is_file(s[0]) && is_count(s[1]) {
        Some((read_pos(size, s[0], s[1]), Ok(TakPieceVariant::Flat)))
    } else {
        None
    }
}

/// The number of digits from 1 to 9 in a row starting at `i`.
pub open spec fn count_run(s: Seq<char>, i: int) -> nat
    decreases s.len() - i,
{
    if 0 <= i < s.len() && is_count(s[i]) {
        1 + count_run(s, i + 1)
    } else {
        0
    }
}

/// The values of the digits `s[i..j]`.
pub open spec fn count_values(s: Seq<char>, i: int, j: int) -> Seq<usize> {
    Seq::new((j - i) as nat, |k: int| (s[i + k] as int - 48) as usize)
}

/// The direction a PTN sign stands for.
pub open spec fn sign_dir(c: char) -> Option<TakDir> {
    if c == '+' {
        Some(TakDir::Up)
    } else if c == '-' {
        Some(TakDir::Down)
    } else if c == '<' {
        Some(TakDir::Left)
    } else if c == '>' {
        Some(TakDir::Right)
    } else {
        None
    }
}

/// The move a text stands for: an optional take digit (1 when absent), a
/// file letter, a rank digit, a direction sign, drop digits (the whole take
/// in one drop when there are none), an optional `*`, and nothing more.
pub open spec fn move_parse(size: int, s: Seq<char>) -> Option<ActionSpec> {
    let i0: int = if s.len() > 0 && is_count(s[0]) {
        1
    } else {
        0
    };
    let take: usize = if i0 == 1 {
        (s[0] as int - 48) as usize
    } else {
        1
    };
    if s.len() < i0 + 3 || !is_file(s[i0]) || !is_count(s[i0 + 1]) || sign_dir(s[i0 + 2]) is None {
        None
    } else {
        let j = i0 + 3 + count_run(s, i0 + 3);
        let k = if j < s.len() && s[j] == '*' {
            j + 1
        } else {
            j
        };
        if k != s.len() {
            None
        } else {
            let drops = if j == i0 + 3 {
                seq![take]
            } else {
                count_values(s, i0 + 3, j)
            };
            Some((read_pos(size, s[i0], s[i0 + 1]), Err((sign_dir(s[i0 + 2])->0, take, drops))))
        }
    }
}

/// The action a PTN text stands for: a placement if it reads as one, else a move.
pub open spec fn ptn_action(size: int, s: Seq<char>) -> Option<ActionSpec> {
    if s.len() == 0 {
        None
    } else if place_parse(size, s) is Some {
        place_parse(size, s)
    } else {
        move_parse(size, s)
    }
}

proof fn lemma_drops_text_push(drops: Seq<usize>, d: usize)
    ensures
        drops_text(drops.push(d)) == drops_text(drops) + decimal(d as nat),
{
    assert(drops.push(d).drop_last() =~= drops);
}

impl TakActionRecord {
    /// The PTN text of the action.
    pub fn to_ptn(&self) -> (r: String)
        requires
            match self {
                TakActionRecord::PlacePiece { pos, .. } => ptn_writable(*pos),
                TakActionRecord::MovePiece { pos, .. } => ptn_writable(*pos),
            },
        ensures
            r@ == record_ptn(*self),
    {
        let mut s = String::new();
        match self {
            TakActionRecord::PlacePiece { pos, variant, player: _ } => {
                match variant {
                    TakPieceVariant::Flat => {},
                    TakPieceVariant::Wall => s.push('S'),
                    TakPieceVariant::Capstone => s.push('C'),
                }
                let file = (97u8 + pos.x as u8) as char;
                s.push(file);
                push_decimal(&mut s, (pos.y + 1) as usize);
                assert(s@ =~= record_ptn(*self));
            },
            TakActionRecord::MovePiece { pos, dir, take, drops, flattened } => {
                if *take != 1 {
                    push_decimal(&mut s, *take);
                }
                let ghost s0 = s@;
                let file = (97u8 + pos.x as u8) as char;
                s.push(file);
                push_decimal(&mut s, (pos.y + 1) as usize);
                s.push(
                    match dir {
                        TakDir::Up => '+',
                        TakDir::Down => '-',
                        TakDir::Left => '<',
                        TakDir::Right => '>',
                    },
                );
                let ghost s1 = s@;
                for i in 0..drops.len()
                    invariant
                        s@ == s1 + drops_text(drops@.take(i as int)),
                {
                    push_decimal(&mut s, drops[i]);
                    proof {
                        assert(drops@.take(i + 1) =~= drops@.take(i as int).push(drops@[i as int]));
                        lemma_drops_text_push(drops@.take(i as int), drops@[i as int]);
                    }
                }
                assert(drops@.take(drops@.len() as int) =~= drops@);
                if *flattened {
                    s.push('*');
                }
                assert(s@ =~= record_ptn(*self));
            },
        }
        s
    }
}

/// The value of a digit character.
fn digit_of(c: char) -> (r: usize)
    requires
        '0' <= c <= '9',
    ensures
        r == c as int - 48,
{
    (c as u32 - 48) as usize
}

impl TakAction {
    /// Reads a placement: an optional `S` or `C`, a file letter and a rank digit.
    fn parse_place(size: i32, chars: &[char]) -> (r: Option<TakAction>)
        requires
            size >= i32::MIN + 9,
        ensures
            match r {
                Some(a) => place_parse(size as int, chars@) == Some(action_spec(a)),
                None => place_parse(size as int, chars@) is None,
            },
    {
        let (variant, file, rank) = if chars.len() == 3 && (chars[0] == 'S' || chars[0] == 'C')
            && chars[1] >= 'a' && chars[1] <= 'z' && chars[2] >= '1' && chars[2] <= '9' {
            (
                if chars[0] == 'S' {
                    TakPieceVariant::Wall
                } else {
                    TakPieceVariant::Capstone
                },
                chars[1],
                chars[2],
            )
        } else if chars.len() == 2 && chars[0] >= 'a' && chars[0] <= 'z' && chars[1] >= '1' && chars[1]
            <= '9' {
            (TakPieceVariant::Flat, chars[0], chars[1])
        } else {
            return None;
        };
        let file_index = (file as u32 - 97) as i32;
        let rank_index = (rank as u32 - 49) as i32;
        Some(TakAction::PlacePiece { pos: TakCoord::new(file_index, rank_index), variant })
    }

    /// Reads a move: an optional take digit, a file letter, a rank digit, a
    /// direction sign, drop digits and an optional `*`.
    fn parse_move(size: i32, chars: &[char]) -> (r: Option<TakAction>)
        requires
            size >= i32::MIN + 9,
        ensures
            match r {
                Some(a) => move_parse(size as int, chars@) == Some(action_spec(a)),
                None => move_parse(size as int, chars@) is None,
            },
    {
        let ghost s = chars@;
        let n = chars.len();
        let mut i: usize = 0;
        let take: usize = if n > 0 && chars[0] >= '1' && chars[0] <= '9' {
            i = 1;
            digit_of(chars[0])
        } else {
            1
        };
        if n < i + 3 {
            return None;
        }
        let f = chars[i];
        if !(f >= 'a' && f <= 'z') {
            return None;
        }
        let rk = chars[i + 1];
        if !(rk >= '1' && rk <= '9') {
            return None;
        }
        let dir = match chars[i + 2] {
            '+' => TakDir::Up,
            '-' => TakDir::Down,
            '<' => TakDir::Left,
            '>' => TakDir::Right,
            _ => {
                return None;
            },
        };
        let file = (f as u32 - 97) as i32;
        let rank = (rk as u32 - 49) as i32;
        let start = i + 3;
        let mut j = start;
        let mut drops: Vec<usize> = Vec::new();
        while j < n && chars[j] >= '1' && chars[j] <= '9'
            invariant
                n == s.len(),
                s == chars@,
                start <= j <= n,
                start + count_run(s, start as int) == j + count_run(s, j as int),
                drops@ == count_values(s, start as int, j as int),
            decreases n - j,
        {
            drops.push(digit_of(chars[j]));
            assert(drops@ =~= count_values(s, start as int, (j + 1) as int));
            j = j + 1;
        }
        assert(count_run(s, j as int) == 0);
        if drops.len() == 0 {
            drops.push(take);
        }
        let mut k = j;
        if k < n && chars[k] == '*' {
            k = k + 1;
        }
        if k < n {
            return None;
        }
        let r = TakAction::MovePiece { pos: TakCoord::new(file, rank), dir, take, drops };
        proof {
            if j == start {
                assert(drops@ =~= seq![take]);
            }
        }
        Some(r)
    }

    /// Reads an action in PTN: a placement if the text reads as one, else a
    /// move; `None` when it is neither. Rank 1 is row 0, as `to_ptn` writes.
    pub fn from_ptn(size: i32, ptn: &str) -> (r: Option<Self>)
        requires
            size >= i32::MIN + 9,
        ensures
            match r {
                Some(a) => ptn_action(size as int, ptn@) == Some(action_spec(a)),
                None => ptn_action(size as int, ptn@) is None,
            },
    {
        let chars = str_chars(ptn);
        if chars.len() == 0 {
            return None;
        }
        match Self::parse_place(size, chars.as_slice()) {
            Some(a) => Some(a),
            None => Self::parse_move(size, chars.as_slice()),
        }
    }
}

} // verus!
