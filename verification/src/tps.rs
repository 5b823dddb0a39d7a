//! TPS, the one-line notation for a position: the board, the player to move
//! and the move number.
use vstd::prelude::*;

use crate::text::{
    all_digits, decimal, digit_char, digit_value, digits_value, is_digit, is_ws, parse_usize, parse_usize_chars, push_decimal,
    split_words, str_chars, string_from_chars, words, words_acc,
};
use crate::TakPlayer;

verus! {

/// A position in TPS: the board part, the player to move and the number of
/// full moves played (one less than the move number written).
#[derive(Debug, Clone, PartialEq)]
pub struct TakTps {
    pub position: String,
    pub player: TakPlayer,
    pub move_index: usize,
}

/// The player to move at a ply: White on even plies.
pub open spec fn ply_player(ply_index: nat) -> TakPlayer {
    if ply_index % 2 == 0 {
        TakPlayer::White
    } else {
        TakPlayer::Black
    }
}

/// The board part of an empty board: `size` rows of `x{size}`, joined by `/`.
pub open spec fn empty_rows(k: nat, size: nat) -> Seq<char>
    decreases k,
{
    if k == 0 {
        Seq::empty()
    } else if k == 1 {
        seq!['x'] + decimal(size)
    } else {
        empty_rows((k - 1) as nat, size) + seq!['/', 'x'] + decimal(size)
    }
}

/// The digit that stands for a player in TPS.
pub open spec fn player_digit(p: TakPlayer) -> char {
    match p {
        TakPlayer::White => '1',
        TakPlayer::Black => '2',
    }
}

/// The TPS text of a position.
pub open spec fn tps_text(position: Seq<char>, player: TakPlayer, move_index: nat) -> Seq<char> {
    position + seq![' ', player_digit(player), ' '] + decimal(move_index + 1)
}

/// What `try_from_str` reads from a text: three words, the second `1` or `2`,
/// the third a move number of at least 1.
pub open spec fn tps_parse(s: Seq<char>) -> Option<(Seq<char>, TakPlayer, usize)> {
    let parts = words(s);
    if parts.len() != 3 {
        None
    } else {
        let player = if parts[1] == seq!['1'] {
            Some(TakPlayer::White)
        } else if parts[1] == seq!['2'] {
            Some(TakPlayer::Black)
        } else {
            None
        };
        match (player, parse_usize(parts[2])) {
            (Some(p), Some(m)) => if m == 0 {
                None
            } else {
                Some((parts[0], p, (m - 1) as usize))
            },
            _ => None,
        }
    }
}

impl TakTps {
    /// The position at ply `ply_index` (0 for the first ply).
    pub fn new(position: String, ply_index: usize) -> (r: Self)
        ensures
            r.position@ == position@,
            r.player == ply_player(ply_index as nat),
            r.move_index == ply_index / 2,
    {
        let player = if ply_index % 2 == 0 {
            TakPlayer::White
        } else {
            TakPlayer::Black
        };
        TakTps { position, player, move_index: ply_index / 2 }
    }

    /// The ply of this position: two per full move, one more when Black is to move.
    pub fn get_ply_index(&self) -> (r: usize)
        requires
            self.move_index * 2 + 1 <= usize::MAX,
        ensures
            r == self.move_index * 2 + if self.player == TakPlayer::White {
                0int
            } else {
                1int
            },
    {
        self.move_index * 2 + if self.player == TakPlayer::White {
            0
        } else {
            1
        }
    }

    /// The empty board of the given size, White to move, at move 1.
    pub fn new_empty(size: usize) -> (r: Self)
        ensures
            r.position@ == empty_rows(size as nat, size as nat),
            r.player == TakPlayer::White,
            r.move_index == 0,
    {
        let mut position = String::new();
        let mut k: usize = 0;
        while k < size
            invariant
                k <= size,
                position@ == empty_rows(k as nat, size as nat),
            decreases size - k,
        {
            if k > 0 {
                position.push('/');
            }
            position.push('x');
            push_decimal(&mut position, size);
            proof {
                if k == 0 {
                    assert(position@ =~= empty_rows(1, size as nat));
                } else {
                    assert(position@ =~= empty_rows((k + 1) as nat, size as nat));
                }
            }
            k = k + 1;
        }
        TakTps { position, player: TakPlayer::White, move_index: 0 }
    }

    /// The TPS text: the board part, the player digit and the move number,
    /// separated by spaces.
    pub fn to_string(&self) -> (r: String)
        requires
            self.move_index < usize::MAX,
        ensures
            r@ == tps_text(self.position@, self.player, self.move_index as nat),
    {
        let mut s = String::new();
        let pos = self.position.as_str();
        let chars = str_chars(pos);
        crate::text::push_chars(&mut s, chars.as_slice());
        s.push(' ');
        s.push(
            match self.player {
                TakPlayer::White => '1',
                TakPlayer::Black => '2',
            },
        );
        s.push(' ');
        push_decimal(&mut s, self.move_index + 1);
        assert(s@ =~= tps_text(self.position@, self.player, self.move_index as nat));
        s
    }

    /// Reads a TPS text: three white-space separated words, the board part,
    /// `1` or `2` for the player to move, and a move number of at least 1.
    pub fn try_from_str(s: &str) -> (r: Option<Self>)
        ensures
            match r {
                Some(t) => tps_parse(s@) == Some((t.position@, t.player, t.move_index)),
                None => tps_parse(s@) is None,
            },
    {
        let chars = str_chars(s);
        let parts = split_words(chars.as_slice());
        if parts.len() != 3 {
            return None;
        }
        let ghost ws = words(s@);
        assert(parts@[0]@ == ws[0] && parts@[1]@ == ws[1] && parts@[2]@ == ws[2]);
        let p1 = &parts[1];
        let player = if p1.len() == 1 && p1[0] == '1' {
            assert(p1@ =~= seq!['1']);
            TakPlayer::White
        } else if p1.len() == 1 && p1[0] == '2' {
            assert(p1@ =~= seq!['2']);
            TakPlayer::Black
        } else {
            proof {
                if p1@ == seq!['1'] {
                    assert(p1@[0] == '1');
                }
                if p1@ == seq!['2'] {
                    assert(p1@[0] == '2');
                }
            }
            return None;
        };
        let move_number = match parse_usize_chars(parts[2].as_slice()) {
            Some(m) => m,
            None => {
                return None;
            },
        };
        if move_number == 0 {
            return None;
        }
        let position = string_from_chars(parts[0].as_slice());
        Some(TakTps { position, player, move_index: move_number - 1 })
    }
}

proof fn lemma_words_skip_word(cur: Seq<char>, w: Seq<char>, rest: Seq<char>)
    requires
        forall|i: int| 0 <= i < w.len() ==> !is_ws(#[trigger] w[i]),
    ensures
        words_acc(cur, w + rest) == words_acc(cur + w, rest),
    decreases w.len(),
{
    if w.len() > 0 {
        assert((w + rest)[0] == w[0]);
        assert((w + rest).drop_first() =~= w.drop_first() + rest);
        lemma_words_skip_word(cur.push(w[0]), w.drop_first(), rest);
        assert(cur.push(w[0]) + w.drop_first() =~= cur + w);
    } else {
        assert(w + rest =~= rest);
        assert(cur + w =~= cur);
    }
}

proof fn lemma_decimal_digits(n: nat)
    ensures
        decimal(n).len() > 0,
        all_digits(decimal(n)),
        digits_value(decimal(n)) == n,
    decreases n,
{
    if n >= 10 {
        lemma_decimal_digits(n / 10);
        let d = decimal(n / 10);
        assert(decimal(n).drop_last() =~= d);
        assert forall|i: int| 0 <= i < decimal(n).len() implies is_digit(#[trigger] decimal(n)[i]) by {
            if i < d.len() {
                assert(decimal(n)[i] == d[i]);
            }
        }
        assert(digit_value(digit_char(n % 10)) == n % 10);
        assert(decimal(n).last() == digit_char(n % 10));
        assert((n / 10) * 10 + n % 10 == n) by (nonlinear_arith);
        assert(digits_value(decimal(n)) == digits_value(d) * 10 + digit_value(decimal(n).last()));
    } else {
        assert(digits_value(decimal(n)) == digits_value(decimal(n).drop_last()) * 10 + digit_value(decimal(n).last()));
        assert(digit_value(digit_char(n)) == n);
        assert(decimal(n).drop_last() =~= Seq::<char>::empty());
    }
}

/// Reading the decimal text of a number that fits in `usize` gives it back.
pub proof fn lemma_parse_decimal(n: usize)
    ensures
        parse_usize(decimal(n as nat)) == Some(n),
{
    lemma_decimal_digits(n as nat);
    let d = decimal(n as nat);
    assert(is_digit(d[0]));
}

/// Whether `s` is a valid board part for TPS text: non-empty, with no white space.
pub open spec fn one_word(s: Seq<char>) -> bool {
    s.len() > 0 && forall|i: int| 0 <= i < s.len() ==> !is_ws(#[trigger] s[i])
}

/// Reading the TPS text of a position gives the position back, when its
/// board part is a single word and its move number fits in `usize`.
pub proof fn law_tps_round_trip(position: Seq<char>, player: TakPlayer, move_index: usize)
    requires
        one_word(position),
        move_index < usize::MAX,
    ensures
        tps_parse(tps_text(position, player, move_index as nat)) == Some((position, player, move_index)),
{
    let m = (move_index + 1) as usize;
    let d = decimal(m as nat);
    lemma_decimal_digits(m as nat);
    lemma_parse_decimal(m);
    let c = player_digit(player);
    let t = tps_text(position, player, move_index as nat);
    let e = Seq::<char>::empty();
    assert forall|i: int| 0 <= i < d.len() implies !is_ws(#[trigger] d[i]) by {
        assert(is_digit(d[i]));
    }
    assert(t =~= position + (seq![' '] + (seq![c] + (seq![' '] + d))));
    lemma_words_skip_word(e, position, seq![' '] + (seq![c] + (seq![' '] + d)));
    assert(e + position =~= position);
    let r1 = seq![c] + (seq![' '] + d);
    assert((seq![' '] + r1).drop_first() =~= r1);
    assert(words_acc(position, seq![' '] + r1) == seq![position] + words_acc(e, r1));
    lemma_words_skip_word(e, seq![c], seq![' '] + d);
    assert(e + seq![c] =~= seq![c]);
    assert((seq![' '] + d).drop_first() =~= d);
    assert(words_acc(seq![c], seq![' '] + d) == seq![seq![c]] + words_acc(e, d));
    lemma_words_skip_word(e, d, e);
    assert(d + e =~= d);
    assert(e + d =~= d);
    assert(words_acc(d, e) == seq![d]);
    assert(words(t) =~= seq![position, seq![c], d]);
}

} // verus!
