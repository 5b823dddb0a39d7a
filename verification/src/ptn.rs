//! PTN, the notation for whole games: header attributes, numbered turns and
//! the result.
use vstd::prelude::*;

use crate::game::{TakGameSettings, TakKomi, TakStones, standard_stones};
use crate::text::{
    all_digits, decimal, digits_value, ends_with, split, is_digit, parse_usize, parse_usize_chars, push_chars, push_decimal,
    push_str, starts_with, str_chars, string_from_chars, trim, trim_chars, trim_end, words, lines,
};
use crate::time::TakTimeMode;
use crate::tps::{tps_parse, tps_text, TakTps};
use crate::{TakGameState, TakPlayer, TakWinReason};

verus! {

/// A PTN header attribute.
#[derive(Debug, Clone, PartialEq)]
pub enum TakPtnAttr {
    Size(usize),
    Clock(usize, usize),
    Komi(usize, bool),
    Flats(usize),
    Caps(usize),
    TPS(TakTps),
    Unknown(String),
}

/// `[name "value"]`.
pub open spec fn quoted(name: Seq<char>, value: Seq<char>) -> Seq<char> {
    seq!['['] + name + seq![' ', '"'] + value + seq!['"', ']']
}

/// The text of an attribute: a clock as minutes, seconds and increment, komi
/// with `.5` when Black wins ties.
pub open spec fn attr_text(a: TakPtnAttr) -> Seq<char> {
    match a {
        TakPtnAttr::Size(n) => quoted("Size"@, decimal(n as nat)),
        TakPtnAttr::Clock(t, i) => quoted(
            "Clock"@,
            decimal((t / 60) as nat) + seq![':'] + decimal((t % 60) as nat) + seq![' ', '+'] + decimal(
                i as nat,
            ),
        ),
        TakPtnAttr::Komi(k, half) => quoted(
            "Komi"@,
            decimal(k as nat) + if half {
                seq!['.', '5']
            } else {
                Seq::empty()
            },
        ),
        TakPtnAttr::Flats(n) => quoted("Flats"@, decimal(n as nat)),
        TakPtnAttr::Caps(n) => quoted("Caps"@, decimal(n as nat)),
        TakPtnAttr::TPS(t) => quoted("TPS"@, tps_text(t.position@, t.player, t.move_index as nat)),
        TakPtnAttr::Unknown(u) => seq!['['] + u@ + seq![']'],
    }
}

/// The names of the known attributes, in the order they are tried.
pub open spec fn attr_name(k: int) -> Seq<char> {
    if k == 0 {
        "Size"@
    } else if k == 1 {
        "Clock"@
    } else if k == 2 {
        "Komi"@
    } else if k == 3 {
        "Flats"@
    } else if k == 4 {
        "Caps"@
    } else {
        "TPS"@
    }
}

/// Whether `s` is written as the known attribute `k`: it starts with
/// `[name "` and ends with `"]`.
pub open spec fn written_as(s: Seq<char>, k: int) -> bool {
    starts_with(s, seq!['['] + attr_name(k) + seq![' ', '"']) && ends_with(s, seq!['"', ']'])
}

/// The first known attribute from `k` on that `s` is written as.
pub open spec fn first_known(s: Seq<char>, k: int) -> Option<int>
    decreases 6 - k,
{
    if k < 0 || k >= 6 {
        None
    } else if written_as(s, k) {
        Some(k)
    } else {
        first_known(s, k + 1)
    }
}

/// The value part of `s` written as attribute `k`.
pub open spec fn attr_inner(s: Seq<char>, k: int) -> Seq<char> {
    s.subrange(attr_name(k).len() + 3 as int, s.len() - 2)
}

/// Whether `s` is written as a known attribute too short to hold a value
/// between its quotes, such as `[Size "]`, or as a clock whose minutes and
/// seconds add up to more seconds than a `usize` holds.
pub open spec fn attr_panics(s: Seq<char>) -> bool {
    ||| first_known(s, 0) matches Some(k) && s.len() < attr_name(k).len() + 5
    ||| first_known(s, 0) == Some(1int) && (clock_parse(attr_inner(s, 1)) matches Some((t, i)) && t > usize::MAX)
}

/// The pieces of `rest` between the characters `a` and `b`, where `cur` is
/// the unfinished first piece.
pub open spec fn split2_acc(cur: Seq<char>, rest: Seq<char>, a: char, b: char) -> Seq<Seq<char>>
    decreases rest.len(),
{
    if rest.len() == 0 {
        seq![cur]
    } else if rest[0] == a || rest[0] == b {
        seq![cur] + split2_acc(Seq::empty(), rest.drop_first(), a, b)
    } else {
        split2_acc(cur.push(rest[0]), rest.drop_first(), a, b)
    }
}

/// A clock value `minutes:seconds +increment`, each part trimmed.
pub open spec fn clock_parse(inner: Seq<char>) -> Option<(nat, nat)> {
    let parts = split2_acc(Seq::empty(), inner, ':', '+');
    if parts.len() != 3 {
        None
    } else {
        match (parse_usize(trim(parts[0])), parse_usize(trim(parts[1])), parse_usize(trim(parts[2]))) {
            (Some(m), Some(s), Some(i)) => Some(((m * 60 + s) as nat, i as nat)),
            _ => None,
        }
    }
}

/// Whether some character is not `0`.
pub open spec fn has_nonzero(s: Seq<char>) -> bool {
    exists|i: int| 0 <= i < s.len() && s[i] != '0'
}

/// A komi value read as a decimal number: an optional sign, digits, and an
/// optional fraction after one `.`, with at least one digit in all. Gives the
/// whole part and whether the fraction is not zero; a negative value counts
/// as 0 (with its fraction), and a whole part past `usize::MAX` as
/// `usize::MAX` with no fraction.
pub open spec fn komi_parse(inner: Seq<char>) -> Option<(usize, bool)> {
    let signed = inner.len() > 0 && (inner[0] == '+' || inner[0] == '-');
    let neg = inner.len() > 0 && inner[0] == '-';
    let t = if signed {
        inner.drop_first()
    } else {
        inner
    };
    let parts = split(t, '.');
    let whole = parts[0];
    let frac = if parts.len() == 2 {
        parts[1]
    } else {
        Seq::empty()
    };
    if parts.len() <= 2 && whole.len() + frac.len() > 0 && all_digits(whole) && all_digits(frac) {
        if neg {
            Some((0, has_nonzero(frac)))
        } else if digits_value(whole) <= usize::MAX {
            Some((digits_value(whole) as usize, has_nonzero(frac)))
        } else {
            Some((usize::MAX, false))
        }
    } else {
        None
    }
}

/// What an attribute line reads as: a known attribute with its value read,
/// or any other bracketed text as an unknown attribute; `None` when it is not
/// bracketed or a known attribute's value does not read.
pub open spec fn attr_read(s: Seq<char>, a: TakPtnAttr) -> bool {
    match first_known(s, 0) {
        None => a matches TakPtnAttr::Unknown(u) && u@ == s.subrange(1, s.len() - 1),
        Some(k) => {
            let inner = attr_inner(s, k);
            if k == 0 {
                parse_usize(inner) matches Some(n) && a == TakPtnAttr::Size(n)
            } else if k == 1 {
                clock_parse(inner) matches Some((t, i)) && a == TakPtnAttr::Clock(t as usize, i as usize)
            } else if k == 2 {
                komi_parse(inner) matches Some((n, h)) && a == TakPtnAttr::Komi(n, h)
            } else if k == 3 {
                parse_usize(inner) matches Some(n) && a == TakPtnAttr::Flats(n)
            } else if k == 4 {
                parse_usize(inner) matches Some(n) && a == TakPtnAttr::Caps(n)
            } else {
                tps_parse(inner) matches Some((p, pl, m)) && a matches TakPtnAttr::TPS(t) && t.position@ == p
                    && t.player == pl && t.move_index == m
            }
        },
    }
}

/// Whether an attribute line reads at all.
pub open spec fn attr_readable(s: Seq<char>) -> bool {
    &&& s.len() > 0
    &&& starts_with(s, seq!['['])
    &&& ends_with(s, seq![']'])
    &&& match first_known(s, 0) {
        None => true,
        Some(k) => {
            let inner = attr_inner(s, k);
            if k == 0 || k == 3 || k == 4 {
                parse_usize(inner) is Some
            } else if k == 1 {
                clock_parse(inner) is Some
            } else if k == 2 {
                komi_parse(inner) is Some
            } else {
                tps_parse(inner) is Some
            }
        },
    }
}

/// Splits at every `a` or `b`.
fn split2_chars(s: &[char], a: char, b: char) -> (parts: Vec<Vec<char>>)
    ensures
        parts@.len() == split2_acc(Seq::empty(), s@, a, b).len(),
        forall|i: int| 0 <= i < parts@.len() ==> #[trigger] parts@[i]@ == split2_acc(Seq::empty(), s@, a, b)[i],
{
    let mut parts: Vec<Vec<char>> = Vec::new();
    let mut cur: Vec<char> = Vec::new();
    let ghost views: Seq<Seq<char>> = Seq::empty();
    let ghost whole = split2_acc(Seq::empty(), s@, a, b);
    assert(s@.skip(0) =~= s@);
    assert(views + split2_acc(cur@, s@.skip(0), a, b) =~= whole);
    for i in 0..s.len()
        invariant
            views.len() == parts@.len(),
            forall|j: int| 0 <= j < parts@.len() ==> #[trigger] parts@[j]@ == views[j],
            views + split2_acc(cur@, s@.skip(i as int), a, b) == whole,
    {
        assert(s@.skip(i as int).drop_first() =~= s@.skip(i + 1));
        if s[i] == a || s[i] == b {
            proof {
                assert(views + split2_acc(cur@, s@.skip(i as int), a, b) =~= views.push(cur@) + split2_acc(
                    Seq::empty(),
                    s@.skip(i + 1),
                    a,
                    b,
                ));
                views = views.push(cur@);
            }
            parts.push(cur);
            cur = Vec::new();
        } else {
            cur.push(s[i]);
        }
    }
    proof {
        assert(s@.skip(s@.len() as int) =~= Seq::<char>::empty());
        assert(views + split2_acc(cur@, s@.skip(s@.len() as int), a, b) =~= views.push(cur@));
        views = views.push(cur@);
    }
    parts.push(cur);
    parts
}

/// Whether the characters `s[from..]` start with `p`.
fn chars_at(s: &[char], from: usize, p: &str) -> (r: bool)
    requires
        from <= s@.len(),
    ensures
        r == starts_with(s@.skip(from as int), p@),
{
    let pc = str_chars(p);
    if pc.len() > s.len() - from {
        return false;
    }
    let mut i: usize = 0;
    while i < pc.len()
        invariant
            pc@ == p@,
            pc.len() <= s.len() - from,
            i <= pc.len(),
            forall|j: int| 0 <= j < i ==> s@[from + j] == pc@[j],
        decreases pc.len() - i,
    {
        if s[from + i] != pc[i] {
            assert(s@.skip(from as int).take(pc@.len() as int)[i as int] != p@[i as int]);
            return false;
        }
        i = i + 1;
    }
    assert(s@.skip(from as int).take(pc@.len() as int) =~= p@);
    true
}

/// Whether all characters are decimal digits.
fn all_digit_chars(v: &[char]) -> (r: bool)
    ensures
        r == all_digits(v@),
{
    for i in 0..v.len()
        invariant
            forall|j: int| 0 <= j < i ==> is_digit(#[trigger] v@[j]),
    {
        if !(v[i] >= '0' && v[i] <= '9') {
            assert(!is_digit(v@[i as int]));
            return false;
        }
    }
    true
}

/// Whether some character is not `0`.
fn any_nonzero(v: &[char]) -> (r: bool)
    ensures
        r == has_nonzero(v@),
{
    for i in 0..v.len()
        invariant
            forall|j: int| 0 <= j < i ==> v@[j] == '0',
    {
        if v[i] != '0' {
            return true;
        }
    }
    false
}

/// Reads a komi value: see `komi_parse`.
fn read_komi(t0: &[char]) -> (r: Option<(usize, bool)>)
    ensures
        r == komi_parse(t0@),
{
    let mut t: Vec<char> = Vec::new();
    let signed = t0.len() > 0 && (t0[0] == '+' || t0[0] == '-');
    let neg = t0.len() > 0 && t0[0] == '-';
    let start: usize = if signed {
        1
    } else {
        0
    };
    for i in start..t0.len()
        invariant
            start <= 1,
            start <= t0.len(),
            t@ == t0@.subrange(start as int, i as int),
    {
        t.push(t0[i]);
        assert(t0@.subrange(start as int, i as int).push(t0@[i as int]) =~= t0@.subrange(start as int, i + 1));
    }
    proof {
        if start == 1 {
            assert(t@ =~= t0@.drop_first());
        } else {
            assert(t@ =~= t0@);
        }
    }
    let parts = crate::text::split_chars(t.as_slice(), '.');
    proof {
        crate::text::lemma_split_nonempty_pub(t@, '.');
    }
    if parts.len() > 2 {
        return None;
    }
    let whole = &parts[0];
    let empty: Vec<char> = Vec::new();
    let frac = if parts.len() == 2 {
        &parts[1]
    } else {
        &empty
    };
    let ghost tt = if signed {
        t0@.drop_first()
    } else {
        t0@
    };
    assert(tt == t@);
    assert(whole@ == split(tt, '.')[0]);
    assert(frac@ == (if split(tt, '.').len() == 2 {
        split(tt, '.')[1]
    } else {
        Seq::<char>::empty()
    }));
    if whole.len() == 0 && frac.len() == 0 {
        return None;
    }
    if !all_digit_chars(whole.as_slice()) || !all_digit_chars(frac.as_slice()) {
        return None;
    }
    let nonzero = any_nonzero(frac.as_slice());
    if neg {
        return Some((0, nonzero));
    }
    if whole.len() == 0 {
        assert(digits_value(whole@) == 0);
        return Some((0, nonzero));
    }
    match parse_usize_chars(whole.as_slice()) {
        Some(n) => Some((n, nonzero)),
        None => {
            proof {
                assert(is_digit(whole@[0]));
            }
            Some((usize::MAX, false))
        },
    }
}

/// Whether `s` is written as the known attribute `k`.
fn written_as_exec(s: &[char], k: usize) -> (r: bool)
    requires
        k < 6,
    ensures
        r == written_as(s@, k as int),
{
    let name = if k == 0 {
        "Size"
    } else if k == 1 {
        "Clock"
    } else if k == 2 {
        "Komi"
    } else if k == 3 {
        "Flats"
    } else if k == 4 {
        "Caps"
    } else {
        "TPS"
    };
    let mut p: Vec<char> = Vec::new();
    p.push('[');
    let nc = str_chars(name);
    for i in 0..nc.len()
        invariant
            p@ == seq!['['] + nc@.take(i as int),
    {
        p.push(nc[i]);
        assert(seq!['['] + nc@.take(i + 1) =~= (seq!['['] + nc@.take(i as int)).push(nc@[i as int]));
    }
    assert(nc@.take(nc@.len() as int) =~= nc@);
    p.push(' ');
    p.push('"');
    assert(p@ =~= seq!['['] + attr_name(k as int) + seq![' ', '"']);
    let mut q: Vec<char> = Vec::new();
    q.push('"');
    q.push(']');
    assert(q@ =~= seq!['"', ']']);
    crate::text::chars_starts_with(s, p.as_slice()) && crate::text::chars_ends_with(s, q.as_slice())
}

/// The length of the name of known attribute `k`.
fn name_len(k: usize) -> (r: usize)
    requires
        k < 6,
    ensures
        r == attr_name(k as int).len(),
{
    proof {
        reveal_strlit("Size");
        reveal_strlit("Clock");
        reveal_strlit("Komi");
        reveal_strlit("Flats");
        reveal_strlit("Caps");
        reveal_strlit("TPS");
    }
    if k == 0 {
        4
    } else if k == 1 {
        5
    } else if k == 2 {
        4
    } else if k == 3 {
        5
    } else if k == 4 {
        4
    } else {
        3
    }
}

impl TakPtnAttr {
    /// The attribute as a PTN header line.
    pub fn to_str(&self) -> (r: String)
        requires
            self matches TakPtnAttr::TPS(t) ==> t.move_index < usize::MAX,
        ensures
            r@ == attr_text(*self),
    {
        let mut s = String::new();
        match self {
            TakPtnAttr::Unknown(u) => {
                s.push('[');
                push_str(&mut s, u.as_str());
                s.push(']');
            },
            _ => {
                s.push('[');
                let name = match self {
                    TakPtnAttr::Size(_) => "Size",
                    TakPtnAttr::Clock(_, _) => "Clock",
                    TakPtnAttr::Komi(_, _) => "Komi",
                    TakPtnAttr::Flats(_) => "Flats",
                    TakPtnAttr::Caps(_) => "Caps",
                    _ => "TPS",
                };
                push_str(&mut s, name);
                push_str(&mut s, " \"");
                match self {
                    TakPtnAttr::Size(n) => push_decimal(&mut s, *n),
                    TakPtnAttr::Clock(t, i) => {
                        push_decimal(&mut s, *t / 60);
                        s.push(':');
                        push_decimal(&mut s, *t % 60);
                        push_str(&mut s, " +");
                        push_decimal(&mut s, *i);
                    },
                    TakPtnAttr::Komi(k, half) => {
                        push_decimal(&mut s, *k);
                        if *half {
                            push_str(&mut s, ".5");
                        }
                    },
                    TakPtnAttr::Flats(n) => push_decimal(&mut s, *n),
                    TakPtnAttr::Caps(n) => push_decimal(&mut s, *n),
                    TakPtnAttr::TPS(t) => {
                        let text = t.to_string();
                        push_str(&mut s, text.as_str());
                    },
                    TakPtnAttr::Unknown(_) => {},
                }
                push_str(&mut s, "\"]");
            },
        }
        proof {
            reveal_strlit("Size");
            reveal_strlit("Clock");
            reveal_strlit("Komi");
            reveal_strlit("Flats");
            reveal_strlit("Caps");
            reveal_strlit("TPS");
            reveal_strlit(" \"");
            reveal_strlit("\"]");
            reveal_strlit(" +");
            reveal_strlit(".5");
        }
        assert(s@ =~= attr_text(*self));
        s
    }

    /// Reads a PTN header line: a known attribute `[name "value"]` with its
    /// value read, or any other bracketed text as an unknown attribute.
    pub fn from_str(str: &str) -> (r: Option<Self>)
        requires
            !attr_panics(str@),
        ensures
            match r {
                Some(a) => attr_readable(str@) && attr_read(str@, a),
                None => !attr_readable(str@),
            },
    {
        let s = str_chars(str);
        let n = s.len();
        if n == 0 || s[0] != '[' || s[n - 1] != ']' {
            proof {
                if n > 0 {
                    assert(str@.take(1)[0] == str@[0]);
                    assert(str@.skip(n - 1)[0] == str@[n - 1]);
                }
            }
            return None;
        }
        proof {
            assert(str@.take(1) =~= seq!['[']);
            assert(str@.skip(n - 1) =~= seq![']']);
        }
        let mut k: usize = 0;
        let mut found = false;
        while k < 6 && !found
            invariant
                s@ == str@,
                n == s@.len(),
                k <= 6,
                found ==> k < 6 && first_known(str@, 0) == Some(k as int),
                !found ==> first_known(str@, 0) == first_known(str@, k as int),
            decreases 6 - k + if found { 0int } else { 1int },
        {
            if written_as_exec(s.as_slice(), k) {
                found = true;
            } else {
                k = k + 1;
            }
        }
        if !found {
            let mut inner: Vec<char> = Vec::new();
            for i in 1..n - 1
                invariant
                    n == s@.len(),
                    n >= 1,
                    inner@ == s@.subrange(1, i as int),
            {
                inner.push(s[i]);
                assert(s@.subrange(1, i as int).push(s@[i as int]) =~= s@.subrange(1, i + 1));
            }
            return Some(TakPtnAttr::Unknown(string_from_chars(inner.as_slice())));
        }
        let nl = name_len(k);
        let mut inner: Vec<char> = Vec::new();
        for i in nl + 3..n - 2
            invariant
                n == s@.len(),
                nl + 5 <= n,
                inner@ == s@.subrange(nl + 3, i as int),
        {
            inner.push(s[i]);
            assert(s@.subrange(nl + 3, i as int).push(s@[i as int]) =~= s@.subrange(nl + 3, i + 1));
        }
        assert(inner@ == attr_inner(str@, k as int));
        if k == 0 {
            match parse_usize_chars(inner.as_slice()) {
                Some(v) => Some(TakPtnAttr::Size(v)),
                None => None,
            }
        } else if k == 1 {
            let parts = split2_chars(inner.as_slice(), ':', '+');
            if parts.len() != 3 {
                return None;
            }
            let m = match parse_usize_chars(trim_chars(parts[0].as_slice()).as_slice()) {
                Some(v) => v,
                None => {
                    return None;
                },
            };
            let sec = match parse_usize_chars(trim_chars(parts[1].as_slice()).as_slice()) {
                Some(v) => v,
                None => {
                    return None;
                },
            };
            let inc = match parse_usize_chars(trim_chars(parts[2].as_slice()).as_slice()) {
                Some(v) => v,
                None => {
                    return None;
                },
            };
            assert(m * 60 + sec <= usize::MAX);
            Some(TakPtnAttr::Clock(m * 60 + sec, inc))
        } else if k == 2 {
            match read_komi(inner.as_slice()) {
                Some((v, h)) => Some(TakPtnAttr::Komi(v, h)),
                None => None,
            }
        } else if k == 3 {
            match parse_usize_chars(inner.as_slice()) {
                Some(v) => Some(TakPtnAttr::Flats(v)),
                None => None,
            }
        } else if k == 4 {
            match parse_usize_chars(inner.as_slice()) {
                Some(v) => Some(TakPtnAttr::Caps(v)),
                None => None,
            }
        } else {
            let text = string_from_chars(inner.as_slice());
            match TakTps::try_from_str(text.as_str()) {
                Some(t) => Some(TakPtnAttr::TPS(t)),
                None => None,
            }
        }
    }
}

/// A whole game in PTN: header attributes, the turns (turn number from 0,
/// White's and Black's move texts) and the result.
#[derive(Debug, Clone)]
pub struct TakPtn {
    pub attributes: Vec<TakPtnAttr>,
    pub turns: Vec<(usize, Option<String>, Option<String>)>,
    pub game_state: TakGameState,
}

/// The view of an optional text.
pub open spec fn opt_text(o: Option<String>) -> Option<Seq<char>> {
    match o {
        Some(t) => Some(t@),
        None => None,
    }
}

/// The view of a turn.
pub open spec fn turn_view(t: (usize, Option<String>, Option<String>)) -> (usize, Option<Seq<char>>, Option<Seq<char>>) {
    (t.0, opt_text(t.1), opt_text(t.2))
}

/// The view of a list of turns.
pub open spec fn turns_view(ts: Seq<(usize, Option<String>, Option<String>)>) -> Seq<(usize, Option<Seq<char>>, Option<Seq<char>>)> {
    ts.map_values(|t: (usize, Option<String>, Option<String>)| turn_view(t))
}

/// The move at slot `k` when moves fill the slots from `off` on.
pub open spec fn turn_slot(moves: Seq<Seq<char>>, off: int, k: int) -> Option<Seq<char>> {
    if k < off || k - off >= moves.len() {
        None
    } else {
        Some(moves[k - off])
    }
}

/// The turns for `moves` played from ply `first`: two moves a turn, White's
/// slot left empty when the first ply is Black's, numbered from `first / 2`.
pub open spec fn turns_of(moves: Seq<Seq<char>>, first: nat) -> Seq<(usize, Option<Seq<char>>, Option<Seq<char>>)> {
    let off = (first % 2) as int;
    Seq::new(
        ((moves.len() + off + 1) / 2) as nat,
        |i: int| ((i + first / 2) as usize, turn_slot(moves, off, 2 * i), turn_slot(moves, off, 2 * i + 1)),
    )
}

/// What the header attributes set, the last of each kind winning: size,
/// komi, flats, capstones, clock and start position.
pub open spec fn header_scan(attrs: Seq<TakPtnAttr>, k: int) -> (
    Option<usize>,
    Option<(usize, bool)>,
    Option<usize>,
    Option<usize>,
    Option<(usize, usize)>,
    Option<TakTps>,
)
    decreases k,
{
    if k <= 0 {
        (None, None, None, None, None, None)
    } else {
        let h = header_scan(attrs, k - 1);
        match attrs[k - 1] {
            TakPtnAttr::Size(n) => (Some(n), h.1, h.2, h.3, h.4, h.5),
            TakPtnAttr::Komi(a, t) => (h.0, Some((a, t)), h.2, h.3, h.4, h.5),
            TakPtnAttr::Flats(n) => (h.0, h.1, Some(n), h.3, h.4, h.5),
            TakPtnAttr::Caps(n) => (h.0, h.1, h.2, Some(n), h.4, h.5),
            TakPtnAttr::Clock(t, i) => (h.0, h.1, h.2, h.3, Some((t, i)), h.5),
            TakPtnAttr::TPS(p) => (h.0, h.1, h.2, h.3, h.4, Some(p)),
            TakPtnAttr::Unknown(_) => h,
        }
    }
}

/// The PTN sign of a finished game's result.
pub open spec fn result_text(g: TakGameState) -> Seq<char> {
    match g {
        TakGameState::Win(TakPlayer::White, TakWinReason::Road) => "R-0"@,
        TakGameState::Win(TakPlayer::Black, TakWinReason::Road) => "0-R"@,
        TakGameState::Win(TakPlayer::White, TakWinReason::Flat) => "F-0"@,
        TakGameState::Win(TakPlayer::Black, TakWinReason::Flat) => "0-F"@,
        TakGameState::Win(TakPlayer::White, TakWinReason::Timeout) => "1-0"@,
        TakGameState::Win(TakPlayer::Black, TakWinReason::Timeout) => "0-1"@,
        _ => "1/2-1/2"@,
    }
}

/// The result a PTN sign stands for.
pub open spec fn result_of(t: Seq<char>) -> Option<TakGameState> {
    if t == "R-0"@ {
        Some(TakGameState::Win(TakPlayer::White, TakWinReason::Road))
    } else if t == "0-R"@ {
        Some(TakGameState::Win(TakPlayer::Black, TakWinReason::Road))
    } else if t == "F-0"@ {
        Some(TakGameState::Win(TakPlayer::White, TakWinReason::Flat))
    } else if t == "0-F"@ {
        Some(TakGameState::Win(TakPlayer::Black, TakWinReason::Flat))
    } else if t == "1-0"@ {
        Some(TakGameState::Win(TakPlayer::White, TakWinReason::Timeout))
    } else if t == "0-1"@ {
        Some(TakGameState::Win(TakPlayer::Black, TakWinReason::Timeout))
    } else if t == "1/2-1/2"@ {
        Some(TakGameState::Draw)
    } else {
        None
    }
}

/// The header lines of the attributes, each followed by a line feed.
pub open spec fn attrs_text(attrs: Seq<TakPtnAttr>) -> Seq<char>
    decreases attrs.len(),
{
    if attrs.len() == 0 {
        Seq::empty()
    } else {
        attrs_text(attrs.drop_last()) + attr_text(attrs.last()) + seq!['\n']
    }
}

/// The line of turn `t`: its number, a dot, White's move (`--` when none),
/// Black's move if any, and the result when the turn's number is the last
/// index of the list and the game is over.
pub open spec fn turn_text(t: (usize, Option<Seq<char>>, Option<Seq<char>>), count: nat, g: TakGameState) -> Seq<char> {
    decimal((t.0 + 1) as nat) + seq!['.', ' '] + white_text(t.1) + black_text(t.2) + result_tail(t.0, count, g) + seq!['\n']
}

/// White's move, or `--` when none.
pub open spec fn white_text(w: Option<Seq<char>>) -> Seq<char> {
    match w {
        Some(w) => w,
        None => seq!['-', '-'],
    }
}

/// A space and Black's move, if any.
pub open spec fn black_text(b: Option<Seq<char>>) -> Seq<char> {
    match b {
        Some(b) => seq![' '] + b,
        None => Seq::empty(),
    }
}

/// A space and the result, on the line whose turn number is the last index
/// of the list, when the game is over.
pub open spec fn result_tail(i: usize, count: nat, g: TakGameState) -> Seq<char> {
    if i == count - 1 && g != TakGameState::Ongoing {
        seq![' '] + result_text(g)
    } else {
        Seq::empty()
    }
}

/// The lines of the first `k` turns.
pub open spec fn turns_text(ts: Seq<(usize, Option<Seq<char>>, Option<Seq<char>>)>, k: int, g: TakGameState) -> Seq<char>
    decreases k,
{
    if k <= 0 {
        Seq::empty()
    } else {
        turns_text(ts, k - 1, g) + turn_text(ts[k - 1], ts.len(), g)
    }
}

/// The text of a move kept as an owned string.
fn own(v: &Vec<char>) -> (r: String)
    ensures
        r@ == v@,
{
    string_from_chars(v.as_slice())
}

/// Whether `st` are the settings a header gives: its size and komi; the
/// standard reserves for the size unless flats or capstones are given; its
/// clock; and its start position, or an empty board with White to move.
pub open spec fn header_settings(attrs: Seq<TakPtnAttr>, st: TakGameSettings) -> bool {
    let h = header_scan(attrs, attrs.len() as int);
    &&& h.0 == Some(st.size)
    &&& h.1 == Some((st.komi.amount, st.komi.tiebreak))
    &&& st.stones.stones == (match h.2 {
        Some(f) => f,
        None => standard_stones(st.size as int).0,
    })
    &&& st.stones.capstones == (match h.3 {
        Some(c) => c,
        None => standard_stones(st.size as int).1,
    })
    &&& st.time_mode == (match h.4 {
        Some((t, i)) => Some(TakTimeMode { time: t, increment: i }),
        None => None,
    })
    &&& match h.5 {
        Some(p) => st.start_position == p,
        None => st.start_position.position@ == crate::tps::empty_rows(st.size as nat, st.size as nat)
            && st.start_position.player == TakPlayer::White && st.start_position.move_index == 0,
    }
}

impl TakPtn {
    /// A game record of the move texts `turns` played from ply
    /// `first_turn_index`, with no attributes.
    pub fn new(turns: Vec<String>, first_turn_index: usize, game_state: TakGameState) -> (r: Self)
        requires
            first_turn_index / 2 + turns@.len() + 1 <= usize::MAX,
        ensures
            r.attributes@.len() == 0,
            turns_view(r.turns@) == turns_of(turns@.map_values(|t: String| t@), first_turn_index as nat),
            r.game_state == game_state,
    {
        let ghost moves = turns@.map_values(|t: String| t@);
        let off: usize = first_turn_index % 2;
        let total = turns.len() + off;
        let n = total / 2 + total % 2;
        let mut out: Vec<(usize, Option<String>, Option<String>)> = Vec::new();
        for i in 0..n
            invariant
                n == (turns@.len() + off + 1) / 2,
                off == first_turn_index % 2,
                first_turn_index / 2 + turns@.len() + 1 <= usize::MAX,
                moves == turns@.map_values(|t: String| t@),
                out@.len() == i,
                forall|j: int| 0 <= j < i ==> #[trigger] turn_view(out@[j]) == turns_of(moves, first_turn_index as nat)[j],
        {
            let w = 2 * i;
            let white = if w < off || w - off >= turns.len() {
                None
            } else {
                Some(turns[w - off].clone())
            };
            let black = if w + 1 < off || w + 1 - off >= turns.len() {
                None
            } else {
                Some(turns[w + 1 - off].clone())
            };
            out.push((i + first_turn_index / 2, white, black));
            proof {
                assert(turn_view(out@[i as int]) == turns_of(moves, first_turn_index as nat)[i as int]);
            }
        }
        proof {
            assert(turns_view(out@) =~= turns_of(moves, first_turn_index as nat));
        }
        TakPtn { attributes: Vec::new(), turns: out, game_state }
    }

    /// The game settings the header gives: size and komi are needed; the
    /// reserves are the standard ones for the size unless flats or capstones
    /// are given; a clock and a start position are taken when given. The last
    /// attribute of each kind counts.
    pub fn get_settings(&self) -> (r: Option<TakGameSettings>)
        requires
            ({
                let h = header_scan(self.attributes@, self.attributes@.len() as int);
                h.0 is Some && h.1 is Some ==> 3 <= h.0.unwrap() <= 8
            }),
        ensures
            ({
                let h = header_scan(self.attributes@, self.attributes@.len() as int);
                match r {
                    None => h.0 is None || h.1 is None,
                    Some(st) => header_settings(self.attributes@, st),
                }
            }),
    {
        let mut size: Option<usize> = None;
        let mut komi: Option<(usize, bool)> = None;
        let mut flats: Option<usize> = None;
        let mut caps: Option<usize> = None;
        let mut clock: Option<(usize, usize)> = None;
        let mut tps: Option<TakTps> = None;
        for k in 0..self.attributes.len()
            invariant
                (size, komi, flats, caps, clock, tps) == header_scan(self.attributes@, k as int),
        {
            match &self.attributes[k] {
                TakPtnAttr::Size(s) => size = Some(*s),
                TakPtnAttr::Komi(a, t) => komi = Some((*a, *t)),
                TakPtnAttr::Flats(f) => flats = Some(*f),
                TakPtnAttr::Caps(c) => caps = Some(*c),
                TakPtnAttr::Clock(t, i) => clock = Some((*t, *i)),
                TakPtnAttr::TPS(t) => tps = Some(t.duplicate()),
                TakPtnAttr::Unknown(_) => {},
            }
        }
        match (size, komi) {
            (Some(sz), Some((amount, tiebreak))) => {
                let time_mode = match clock {
                    Some((t, i)) => Some(TakTimeMode::new(t, i)),
                    None => None,
                };
                let mut stones = TakStones::from_size(sz);
                match flats {
                    Some(f) => stones.stones = f,
                    None => {},
                }
                match caps {
                    Some(c) => stones.capstones = c,
                    None => {},
                }
                match tps {
                    Some(t) => Some(
                        TakGameSettings::new_with_position(sz, t, Some(stones), TakKomi::new(amount, tiebreak), time_mode),
                    ),
                    None => Some(TakGameSettings::new(sz, Some(stones), TakKomi::new(amount, tiebreak), time_mode)),
                }
            },
            _ => None,
        }
    }
}

/// Whether a line is an attribute line: it starts with `[` and ends with `]`.
pub open spec fn is_attr_line(l: Seq<char>) -> bool {
    starts_with(l, seq!['[']) && ends_with(l, seq![']'])
}

/// Whether a move text holds a character other than `.` and `-`.
pub open spec fn has_move(w: Seq<char>) -> bool {
    exists|i: int| 0 <= i < w.len() && w[i] != '.' && w[i] != '-'
}

/// What a turn line reads as, given the turns read before it: its words,
/// less a final result sign, must be a turn number (trailing dots dropped)
/// of at least 1 that follows the previous turn, White's move (none when it
/// is only dots and dashes) and maybe Black's move. Gives the turn and the
/// result sign's state, if any.
pub open spec fn turn_parse(
    l: Seq<char>,
    prev: Seq<(usize, Option<Seq<char>>, Option<Seq<char>>)>,
) -> Option<((usize, Option<Seq<char>>, Option<Seq<char>>), Option<TakGameState>)> {
    let ws0 = words(l);
    let res = if ws0.len() > 0 {
        result_of(ws0.last())
    } else {
        None
    };
    let ws = if res is Some {
        ws0.drop_last()
    } else {
        ws0
    };
    if ws.len() < 2 || ws.len() > 3 {
        None
    } else {
        match parse_usize(trim_end(ws[0], '.')) {
            None => None,
            Some(idx) => if idx == 0 {
                None
            } else if prev.len() > 0 && prev.last().0 + 1 != idx - 1 {
                None
            } else {
                let w = trim(ws[1]);
                let white = if has_move(w) {
                    Some(w)
                } else {
                    None
                };
                let black = if ws.len() == 3 {
                    Some(trim(ws[2]))
                } else {
                    None
                };
                Some((((idx - 1) as usize, white, black), res))
            },
        }
    }
}

/// Reading the first `k` lines of a PTN text: the attribute lines kept as
/// text (each must read), the turns and the result so far; `None` when a line
/// does not read.
pub open spec fn ptn_scan(ls: Seq<Seq<char>>, k: int) -> Option<
    (Seq<Seq<char>>, Seq<(usize, Option<Seq<char>>, Option<Seq<char>>)>, TakGameState),
>
    decreases k,
{
    if k <= 0 {
        Some((Seq::empty(), Seq::empty(), TakGameState::Ongoing))
    } else {
        match ptn_scan(ls, k - 1) {
            None => None,
            Some((attrs, turns, st)) => {
                let l = ls[k - 1];
                if is_attr_line(l) {
                    if attr_readable(l) {
                        Some((attrs.push(l), turns, st))
                    } else {
                        None
                    }
                } else if trim(l).len() == 0 {
                    Some((attrs, turns, st))
                } else {
                    match turn_parse(l, turns) {
                        None => None,
                        Some((t, res)) => Some(
                            (
                                attrs,
                                turns.push(t),
                                match res {
                                    Some(r) => r,
                                    None => st,
                                },
                            ),
                        ),
                    }
                }
            },
        }
    }
}

/// Whether no attribute line of the text is one whose reading would fail
/// on its shape (see `attr_panics`).
pub open spec fn ptn_safe(s: Seq<char>) -> bool {
    forall|i: int| 0 <= i < lines(s).len() && is_attr_line(#[trigger] lines(s)[i]) ==> !attr_panics(lines(s)[i])
}

/// The result of a turn line's words, and the words without it.
fn split_result(ws: &mut Vec<Vec<char>>) -> (r: Option<TakGameState>)
    ensures
        r == (if old(ws)@.len() > 0 {
            result_of(old(ws)@[old(ws)@.len() - 1]@)
        } else {
            None
        }),
        r is Some ==> final(ws)@ == old(ws)@.drop_last(),
        r is None ==> final(ws)@ == old(ws)@,
{
    if ws.len() == 0 {
        return None;
    }
    let n = ws.len();
    let r = {
        let last = &ws[n - 1];
        let signs = ["R-0", "0-R", "F-0", "0-F", "1-0", "0-1", "1/2-1/2"];
        let mut found: Option<TakGameState> = None;
        let t = last.as_slice();
        if crate::text::chars_eq(t, str_chars("R-0").as_slice()) {
            found = Some(TakGameState::Win(TakPlayer::White, TakWinReason::Road));
        } else if crate::text::chars_eq(t, str_chars("0-R").as_slice()) {
            found = Some(TakGameState::Win(TakPlayer::Black, TakWinReason::Road));
        } else if crate::text::chars_eq(t, str_chars("F-0").as_slice()) {
            found = Some(TakGameState::Win(TakPlayer::White, TakWinReason::Flat));
        } else if crate::text::chars_eq(t, str_chars("0-F").as_slice()) {
            found = Some(TakGameState::Win(TakPlayer::Black, TakWinReason::Flat));
        } else if crate::text::chars_eq(t, str_chars("1-0").as_slice()) {
            found = Some(TakGameState::Win(TakPlayer::White, TakWinReason::Timeout));
        } else if crate::text::chars_eq(t, str_chars("0-1").as_slice()) {
            found = Some(TakGameState::Win(TakPlayer::Black, TakWinReason::Timeout));
        } else if crate::text::chars_eq(t, str_chars("1/2-1/2").as_slice()) {
            found = Some(TakGameState::Draw);
        }
        found
    };
    if r.is_some() {
        ws.pop();
    }
    r
}

/// Whether a move text holds a character other than `.` and `-`.
fn has_move_chars(w: &[char]) -> (r: bool)
    ensures
        r == has_move(w@),
{
    for i in 0..w.len()
        invariant
            forall|j: int| 0 <= j < i ==> w@[j] == '.' || w@[j] == '-',
    {
        if w[i] != '.' && w[i] != '-' {
            return true;
        }
    }
    false
}

/// Reading stops for good at a line that does not read.
proof fn lemma_scan_none(ls: Seq<Seq<char>>, k: int, j: int)
    requires
        0 <= k <= j,
        ptn_scan(ls, k) is None,
    ensures
        ptn_scan(ls, j) is None,
    decreases j - k,
{
    if k < j {
        lemma_scan_none(ls, k, j - 1);
    }
}

/// The PTN sign of a game's result.
fn result_sign(state: TakGameState) -> (r: &'static str)
    ensures
        r@ == result_text(state),
{
    match state {
        TakGameState::Win(TakPlayer::White, TakWinReason::Road) => "R-0",
        TakGameState::Win(TakPlayer::Black, TakWinReason::Road) => "0-R",
        TakGameState::Win(TakPlayer::White, TakWinReason::Flat) => "F-0",
        TakGameState::Win(TakPlayer::Black, TakWinReason::Flat) => "0-F",
        TakGameState::Win(TakPlayer::White, TakWinReason::Timeout) => "1-0",
        TakGameState::Win(TakPlayer::Black, TakWinReason::Timeout) => "0-1",
        _ => "1/2-1/2",
    }
}

/// Appends White's move, or `--` when none.
fn push_white(result: &mut String, w: &Option<String>)
    ensures
        final(result)@ == old(result)@ + white_text(opt_text(*w)),
{
    match w {
        Some(w) => push_str(result, w.as_str()),
        None => {
            result.push('-');
            result.push('-');
            assert(final(result)@ =~= old(result)@ + seq!['-', '-']);
        },
    }
}

/// Appends a space and Black's move, if any.
fn push_black(result: &mut String, b: &Option<String>)
    ensures
        final(result)@ == old(result)@ + black_text(opt_text(*b)),
{
    match b {
        Some(b) => {
            result.push(' ');
            push_str(result, b.as_str());
            assert(final(result)@ =~= old(result)@ + (seq![' '] + b@));
        },
        None => {
            assert(final(result)@ =~= old(result)@ + Seq::<char>::empty());
        },
    }
}

/// Appends the result where `result_tail` puts it.
fn push_tail(result: &mut String, i: usize, count: usize, state: TakGameState)
    requires
        count >= 1,
    ensures
        final(result)@ == old(result)@ + result_tail(i, count as nat, state),
{
    if i == count - 1 && state != TakGameState::Ongoing {
        result.push(' ');
        push_str(result, result_sign(state));
        assert(final(result)@ =~= old(result)@ + (seq![' '] + result_text(state)));
    } else {
        assert(final(result)@ =~= old(result)@ + Seq::<char>::empty());
    }
}

/// Appends the line of turn `t`.
#[verifier::rlimit(40)]
fn push_turn(result: &mut String, t: &(usize, Option<String>, Option<String>), count: usize, state: TakGameState)
    requires
        t.0 < usize::MAX,
        count >= 1,
    ensures
        final(result)@ == old(result)@ + turn_text(turn_view(*t), count as nat, state),
{
    push_decimal(result, t.0 + 1);
    result.push('.');
    result.push(' ');
    let ghost a1 = result@;
    assert(a1 =~= old(result)@ + decimal((t.0 + 1) as nat) + seq!['.', ' ']);
    push_white(result, &t.1);
    let ghost a2 = result@;
    push_black(result, &t.2);
    let ghost a3 = result@;
    push_tail(result, t.0, count, state);
    let ghost a4 = result@;
    assert(a4 =~= a3 + result_tail(t.0, count as nat, state));
    result.push('\n');
    assert(final(result)@ =~= old(result)@ + turn_text(turn_view(*t), count as nat, state));
}

/// Reads a turn line given the turns read so far: see `turn_parse`.
fn read_turn(line: &Vec<char>, turns: &Vec<(usize, Option<String>, Option<String>)>) -> (r: Option<
    ((usize, Option<String>, Option<String>), Option<TakGameState>),
>)
    ensures
        match r {
            None => turn_parse(line@, turns_view(turns@)) is None,
            Some((t, res)) => turn_parse(line@, turns_view(turns@)) == Some((turn_view(t), res)),
        },
{
    let mut ws = crate::text::split_words(line.as_slice());
    assert(ws@.map_values(|v: Vec<char>| v@) =~= words(line@));
    let res = split_result(&mut ws);
    assert(ws@.map_values(|v: Vec<char>| v@) =~= (if res is Some {
        words(line@).drop_last()
    } else {
        words(line@)
    }));
    if ws.len() < 2 || ws.len() > 3 {
        return None;
    }
    assert(ws@[0]@ == ws@.map_values(|v: Vec<char>| v@)[0]);
    assert(ws@[1]@ == ws@.map_values(|v: Vec<char>| v@)[1]);
    let first = crate::text::trim_end_chars(ws[0].as_slice(), '.');
    let idx = match parse_usize_chars(first.as_slice()) {
        Some(v) => v,
        None => {
            return None;
        },
    };
    if idx == 0 {
        return None;
    }
    proof {
        if turns@.len() > 0 {
            assert(turns_view(turns@).last() == turn_view(turns@[turns@.len() - 1]));
        }
    }
    if turns.len() > 0 {
        let last = turns[turns.len() - 1].0;
        if last == usize::MAX || last + 1 != idx - 1 {
            return None;
        }
    }
    let w = trim_chars(ws[1].as_slice());
    let white = if has_move_chars(w.as_slice()) {
        Some(own(&w))
    } else {
        None
    };
    let black = if ws.len() == 3 {
        assert(ws@[2]@ == ws@.map_values(|v: Vec<char>| v@)[2]);
        let b = trim_chars(ws[2].as_slice());
        Some(own(&b))
    } else {
        None
    };
    Some(((idx - 1, white, black), res))
}

/// Whether a line starts with `[` and ends with `]`.
fn attr_line(line: &Vec<char>) -> (r: bool)
    ensures
        r == is_attr_line(line@),
{
    let n = line.len();
    let r = n > 0 && line[0] == '[' && line[n - 1] == ']';
    proof {
        if n > 0 {
            assert(line@.take(1) =~= seq![line@[0]]);
            assert(line@.skip(n - 1) =~= seq![line@[n - 1]]);
        }
        if starts_with(line@, seq!['[']) {
            assert(line@.take(1)[0] == '[');
        }
        if ends_with(line@, seq![']']) {
            assert(line@.skip(n - 1)[0] == ']');
        }
    }
    r
}

impl TakPtn {
    /// The game as PTN text: one line per attribute, then one per turn.
    pub fn to_str(&self) -> (r: String)
        requires
            forall|i: int| 0 <= i < self.attributes@.len() ==> (#[trigger] self.attributes@[i] matches TakPtnAttr::TPS(t) ==> t.move_index < usize::MAX),
            forall|i: int| 0 <= i < self.turns@.len() ==> (#[trigger] self.turns@[i]).0 < usize::MAX,
        ensures
            r@ == attrs_text(self.attributes@) + turns_text(
                turns_view(self.turns@),
                self.turns@.len() as int,
                self.game_state,
            ),
    {
        let mut result = String::new();
        for k in 0..self.attributes.len()
            invariant
                forall|i: int| 0 <= i < self.attributes@.len() ==> (#[trigger] self.attributes@[i] matches TakPtnAttr::TPS(t) ==> t.move_index < usize::MAX),
                result@ == attrs_text(self.attributes@.take(k as int)),
        {
            let line = self.attributes[k].to_str();
            push_str(&mut result, line.as_str());
            result.push('\n');
            assert(self.attributes@.take(k + 1).drop_last() =~= self.attributes@.take(k as int));
        }
        assert(self.attributes@.take(self.attributes@.len() as int) =~= self.attributes@);
        let ghost head = result@;
        let ghost tv = turns_view(self.turns@);
        let count = self.turns.len();
        for k in 0..count
            invariant
                count == self.turns@.len(),
                tv == turns_view(self.turns@),
                forall|i: int| 0 <= i < self.turns@.len() ==> (#[trigger] self.turns@[i]).0 < usize::MAX,
                result@ == head + turns_text(tv, k as int, self.game_state),
        {
            push_turn(&mut result, &self.turns[k], count, self.game_state);
            assert(tv[k as int] == turn_view(self.turns@[k as int]));
        }
        result
    }

    /// Reads a PTN text: attribute lines (`[...]`), blank lines, and turn
    /// lines; `None` when a line does not read.
    pub fn try_from_str(s: &str) -> (r: Option<Self>)
        requires
            ptn_safe(s@),
        ensures
            match r {
                None => ptn_scan(lines(s@), lines(s@).len() as int) is None,
                Some(p) => ptn_scan(lines(s@), lines(s@).len() as int) matches Some((al, ts, st)) && al.len()
                    == p.attributes@.len() && (forall|i: int| 0 <= i < al.len() ==> attr_read(#[trigger] al[i], p.attributes@[i]))
                    && turns_view(p.turns@) == ts && p.game_state == st,
            },
    {
        let chars = str_chars(s);
        let ls = crate::text::split_lines(chars.as_slice());
        let ghost lv = lines(s@);
        let mut attributes: Vec<TakPtnAttr> = Vec::new();
        let mut turns: Vec<(usize, Option<String>, Option<String>)> = Vec::new();
        let mut game_state = TakGameState::Ongoing;
        let ghost mut al: Seq<Seq<char>> = Seq::empty();
        for k in 0..ls.len()
            invariant
                ls@.len() == lv.len(),
                lv == lines(s@),
                ptn_safe(s@),
                forall|i: int| 0 <= i < ls@.len() ==> #[trigger] ls@[i]@ == lv[i],
                ptn_scan(lv, k as int) == Some((al, turns_view(turns@), game_state)),
                al.len() == attributes@.len(),
                forall|i: int| 0 <= i < al.len() ==> attr_read(#[trigger] al[i], attributes@[i]),
        {
            let line = &ls[k];
            assert(line@ == lv[k as int]);
            if attr_line(line) {
                let text = string_from_chars(line.as_slice());
                match TakPtnAttr::from_str(text.as_str()) {
                    Some(a) => {
                        proof {
                            al = al.push(line@);
                        }
                        attributes.push(a);
                    },
                    None => {
                        proof {
                            lemma_scan_none(lv, k + 1, lv.len() as int);
                        }
                        return None;
                    },
                }
            } else {
                let trimmed = trim_chars(line.as_slice());
                if trimmed.len() != 0 {
                    match read_turn(line, &turns) {
                        None => {
                            proof {
                                lemma_scan_none(lv, k + 1, lv.len() as int);
                            }
                            return None;
                        },
                        Some((t, res)) => {
                            let ghost before = turns@;
                            turns.push(t);
                            match res {
                                Some(st) => {
                                    game_state = st;
                                },
                                None => {},
                            }
                            proof {
                                assert(turns_view(turns@) =~= turns_view(before).push(turn_view(t)));
                            }
                        },
                    }
                }
            }
        }
        Some(TakPtn { attributes, turns, game_state })
    }
}

} // verus!
