//! Small verified helpers on character sequences: decimal numbers,
//! splitting, trimming and prefix tests, as the text formats of the game need them.
use vstd::prelude::*;

verus! {

/// `String::push` appends one character to the end of the string.
pub assume_specification[ String::push ](s: &mut String, ch: char)
    ensures
        final(s)@ == old(s)@.push(ch),
;

// ---------------------------------------------------------------------------
// Decimal numbers
// ---------------------------------------------------------------------------

/// The character of a decimal digit.
pub open spec fn digit_char(d: nat) -> char {
    (d + 48) as char
}

/// Whether a character is an ASCII decimal digit.
pub open spec fn is_digit(c: char) -> bool {
    '0' <= c <= '9'
}

/// The value of a decimal digit character.
pub open spec fn digit_value(c: char) -> nat {
    (c as int - 48) as nat
}

/// The decimal representation of a natural number, without leading zeros.
pub open spec fn decimal(n: nat) -> Seq<char>
    decreases n,
{
    if n < 10 {
        seq![digit_char(n)]
    } else {
        decimal(n / 10).push(digit_char(n % 10))
    }
}

/// Whether every character of `s` is a decimal digit.
pub open spec fn all_digits(s: Seq<char>) -> bool {
    forall|i: int| 0 <= i < s.len() ==> is_digit(#[trigger] s[i])
}

/// The value of a sequence of decimal digits (the empty sequence has value 0).
pub open spec fn digits_value(s: Seq<char>) -> nat
    decreases s.len(),
{
    if s.len() == 0 {
        0
    } else {
        digits_value(s.drop_last()) * 10 + digit_value(s.last())
    }
}

/// What `str::parse::<usize>` gives: an optional `+`, then at least one digit,
/// with a value that fits in a `usize`.
pub open spec fn parse_usize(s: Seq<char>) -> Option<usize> {
    let t = if s.len() > 0 && s[0] == '+' {
        s.drop_first()
    } else {
        s
    };
    if t.len() > 0 && all_digits(t) && digits_value(t) <= usize::MAX {
        Some(digits_value(t) as usize)
    } else {
        None
    }
}

proof fn lemma_digits_value_prefix_monotone(s: Seq<char>, i: int)
    requires
        0 <= i <= s.len(),
    ensures
        digits_value(s.take(i)) <= digits_value(s),
    decreases s.len() - i,
{
    if i < s.len() {
        lemma_digits_value_prefix_monotone(s, i + 1);
        assert(s.take(i + 1).drop_last() =~= s.take(i));
    } else {
        assert(s.take(i) =~= s);
    }
}

/// Appends the decimal representation of `n` to `s`.
pub fn push_decimal(s: &mut String, n: usize)
    ensures
        final(s)@ == old(s)@ + decimal(n as nat),
    decreases n,
{
    if n >= 10 {
        push_decimal(s, n / 10);
    }
    let d = ((n % 10) as u8 + 48u8) as char;
    s.push(d);
    proof {
        if n < 10 {
            assert(old(s)@ + decimal(n as nat) =~= old(s)@.push(d));
        } else {
            assert((old(s)@ + decimal((n / 10) as nat)).push(d) =~= old(s)@ + decimal(n as nat));
        }
    }
}

/// The decimal representation of `n` as a new string.
pub fn decimal_string(n: usize) -> (r: String)
    ensures
        r@ == decimal(n as nat),
{
    let mut s = String::new();
    push_decimal(&mut s, n);
    assert(s@ =~= decimal(n as nat));
    s
}

/// The characters of a string slice, collected into a vector.
pub fn str_chars(s: &str) -> (v: Vec<char>)
    ensures
        v@ == s@,
{
    let mut v: Vec<char> = Vec::new();
    for c in it: s.chars()
        invariant
            v@ == it.seq().take(it.index() as int),
    {
        v.push(c);
    }
    v
}

/// A string holding the given characters.
pub fn string_from_chars(v: &[char]) -> (s: String)
    ensures
        s@ == v@,
{
    let mut s = String::new();
    for i in 0..v.len()
        invariant
            s@ == v@.take(i as int),
    {
        s.push(v[i]);
        assert(v@.take(i as int).push(v@[i as int]) =~= v@.take(i + 1));
    }
    assert(v@.take(v@.len() as int) =~= v@);
    s
}

/// Parses a `usize` the way `str::parse::<usize>` does.
pub fn parse_usize_chars(s: &[char]) -> (r: Option<usize>)
    ensures
        r == parse_usize(s@),
{
    let start: usize = if s.len() > 0 && s[0] == '+' {
        1
    } else {
        0
    };
    let ghost t = if s@.len() > 0 && s@[0] == '+' {
        s@.drop_first()
    } else {
        s@
    };
    assert(t =~= s@.skip(start as int));
    if start >= s.len() {
        return None;
    }
    let mut value: usize = 0;
    let mut i: usize = start;
    while i < s.len()
        invariant
            start <= i <= s.len(),
            t =~= s@.skip(start as int),
            t == (if s@.len() > 0 && s@[0] == '+' {
                s@.drop_first()
            } else {
                s@
            }),
            t.len() > 0,
            all_digits(t.take(i - start)),
            value as nat == digits_value(t.take(i - start)),
        decreases s.len() - i,
    {
        let c = s[i];
        let ghost k = i - start;
        assert(t[k as int] == c);
        if !(c >= '0' && c <= '9') {
            assert(!is_digit(t[k as int]));
            assert(!all_digits(t));
            assert(parse_usize(s@) == None::<usize>);
            return None;
        }
        let d = (c as u32 - 48) as usize;
        assert(t.take(k + 1).drop_last() =~= t.take(k as int));
        let m = value.checked_mul(10);
        match m {
            None => {
                proof {
                    lemma_digits_value_prefix_monotone(t, k + 1);
                    assert(digits_value(t.take(k + 1)) == value * 10 + d);
                    assert(parse_usize(s@) == None::<usize>);
                }
                return None;
            },
            Some(m) => {
                match m.checked_add(d) {
                    None => {
                        proof {
                            lemma_digits_value_prefix_monotone(t, k + 1);
                            assert(digits_value(t.take(k + 1)) == value * 10 + d);
                            assert(parse_usize(s@) == None::<usize>);
                        }
                        return None;
                    },
                    Some(v) => {
                        value = v;
                    },
                }
            },
        }
        i = i + 1;
        assert forall|j: int| 0 <= j < t.take(i - start).len() implies is_digit(
            #[trigger] t.take(i - start)[j],
        ) by {
            if j < k {
                assert(t.take(i - start)[j] == t.take(k as int)[j]);
            }
        }
    }
    assert(t.take(i - start) =~= t);
    Some(value)
}

// ---------------------------------------------------------------------------
// Splitting
// ---------------------------------------------------------------------------

/// Splitting `rest` at every `sep`, where `cur` is the unfinished first piece:
/// the pieces that `str::split` gives.
pub open spec fn split_acc(cur: Seq<char>, rest: Seq<char>, sep: char) -> Seq<Seq<char>>
    decreases rest.len(),
{
    if rest.len() == 0 {
        seq![cur]
    } else if rest[0] == sep {
        seq![cur] + split_acc(Seq::empty(), rest.drop_first(), sep)
    } else {
        split_acc(cur.push(rest[0]), rest.drop_first(), sep)
    }
}

/// The pieces of `s` between occurrences of `sep`, as `str::split(sep)` gives them.
pub open spec fn split(s: Seq<char>, sep: char) -> Seq<Seq<char>> {
    split_acc(Seq::empty(), s, sep)
}

/// Splits a character sequence at every occurrence of `sep`.
pub fn split_chars(s: &[char], sep: char) -> (parts: Vec<Vec<char>>)
    ensures
        parts@.len() == split(s@, sep).len(),
        forall|i: int| 0 <= i < parts@.len() ==> #[trigger] parts@[i]@ == split(s@, sep)[i],
{
    let mut parts: Vec<Vec<char>> = Vec::new();
    let mut cur: Vec<char> = Vec::new();
    let ghost views: Seq<Seq<char>> = Seq::empty();
    assert(s@.skip(0) =~= s@);
    assert(views + split_acc(cur@, s@.skip(0), sep) =~= split(s@, sep));
    for i in 0..s.len()
        invariant
            views.len() == parts@.len(),
            forall|j: int| 0 <= j < parts@.len() ==> #[trigger] parts@[j]@ == views[j],
            views + split_acc(cur@, s@.skip(i as int), sep) == split(s@, sep),
    {
        assert(s@.skip(i as int).drop_first() =~= s@.skip(i + 1));
        if s[i] == sep {
            proof {
                assert(views + split_acc(cur@, s@.skip(i as int), sep) =~= views.push(cur@)
                    + split_acc(Seq::empty(), s@.skip(i + 1), sep));
                views = views.push(cur@);
            }
            parts.push(cur);
            cur = Vec::new();
        } else {
            cur.push(s[i]);
        }
    }
    proof {
        assert(s@.skip(s@.len() as int) =~= Seq::<char>::empty());
        assert(views + split_acc(cur@, s@.skip(s@.len() as int), sep) =~= views.push(cur@));
        views = views.push(cur@);
    }
    parts.push(cur);
    parts
}

/// Whether `c` is a white space character in the sense of `char::is_whitespace`
/// (the Unicode property `White_Space`).
pub open spec fn is_ws(c: char) -> bool {
    ||| '\t' <= c <= '\r'
    ||| c == ' '
    ||| c == '\u{85}'
    ||| c == '\u{A0}'
    ||| c == '\u{1680}'
    ||| '\u{2000}' <= c <= '\u{200A}'
    ||| c == '\u{2028}'
    ||| c == '\u{2029}'
    ||| c == '\u{202F}'
    ||| c == '\u{205F}'
    ||| c == '\u{3000}'
}

/// `char::is_whitespace`.
pub fn is_whitespace(c: char) -> (r: bool)
    ensures
        r == is_ws(c),
{
    (c >= '\t' && c <= '\r') || c == ' ' || c == '\u{85}' || c == '\u{A0}' || c == '\u{1680}'
        || (c >= '\u{2000}' && c <= '\u{200A}') || c == '\u{2028}' || c == '\u{2029}' || c
        == '\u{202F}' || c == '\u{205F}' || c == '\u{3000}'
}

/// The white-space separated words of `rest`, where `cur` is the unfinished
/// first word: what `str::split_whitespace` gives.
pub open spec fn words_acc(cur: Seq<char>, rest: Seq<char>) -> Seq<Seq<char>>
    decreases rest.len(),
{
    if rest.len() == 0 {
        if cur.len() == 0 {
            Seq::empty()
        } else {
            seq![cur]
        }
    } else if is_ws(rest[0]) {
        if cur.len() == 0 {
            words_acc(Seq::empty(), rest.drop_first())
        } else {
            seq![cur] + words_acc(Seq::empty(), rest.drop_first())
        }
    } else {
        words_acc(cur.push(rest[0]), rest.drop_first())
    }
}

/// The words of `s` as `str::split_whitespace` gives them.
pub open spec fn words(s: Seq<char>) -> Seq<Seq<char>> {
    words_acc(Seq::empty(), s)
}

/// Splits a character sequence into its white-space separated words.
pub fn split_words(s: &[char]) -> (parts: Vec<Vec<char>>)
    ensures
        parts@.len() == words(s@).len(),
        forall|i: int| 0 <= i < parts@.len() ==> #[trigger] parts@[i]@ == words(s@)[i],
{
    let mut parts: Vec<Vec<char>> = Vec::new();
    let mut cur: Vec<char> = Vec::new();
    let ghost views: Seq<Seq<char>> = Seq::empty();
    assert(s@.skip(0) =~= s@);
    assert(views + words_acc(cur@, s@.skip(0)) =~= words(s@));
    for i in 0..s.len()
        invariant
            views.len() == parts@.len(),
            forall|j: int| 0 <= j < parts@.len() ==> #[trigger] parts@[j]@ == views[j],
            views + words_acc(cur@, s@.skip(i as int)) == words(s@),
    {
        assert(s@.skip(i as int).drop_first() =~= s@.skip(i + 1));
        if is_whitespace(s[i]) {
            if cur.len() > 0 {
                proof {
                    assert(views + words_acc(cur@, s@.skip(i as int)) =~= views.push(cur@)
                        + words_acc(Seq::empty(), s@.skip(i + 1)));
                    views = views.push(cur@);
                }
                parts.push(cur);
                cur = Vec::new();
            } else {
                assert(cur@ =~= Seq::<char>::empty());
            }
        } else {
            cur.push(s[i]);
        }
    }
    assert(s@.skip(s@.len() as int) =~= Seq::<char>::empty());
    if cur.len() > 0 {
        proof {
            assert(views + words_acc(cur@, s@.skip(s@.len() as int)) =~= views.push(cur@));
            views = views.push(cur@);
        }
        parts.push(cur);
    } else {
        assert(views + words_acc(cur@, s@.skip(s@.len() as int)) =~= views);
    }
    parts
}

/// A line as `str::lines` yields it from a piece that ended with a line feed:
/// a final carriage return is dropped.
pub open spec fn strip_cr(s: Seq<char>) -> Seq<char> {
    if s.len() > 0 && s.last() == '\r' {
        s.drop_last()
    } else {
        s
    }
}

/// The lines of `s` as `str::lines` gives them: the pieces between line feeds,
/// each without a carriage return before its line feed, and no empty last line
/// after a final line feed.
pub open spec fn lines(s: Seq<char>) -> Seq<Seq<char>> {
    let parts = split(s, '\n');
    let n = if parts.last().len() == 0 {
        parts.len() - 1
    } else {
        parts.len() as int
    };
    Seq::new(
        n as nat,
        |i: int|
            if i < parts.len() - 1 {
                strip_cr(parts[i])
            } else {
                parts[i]
            },
    )
}

proof fn lemma_split_acc_nonempty(cur: Seq<char>, rest: Seq<char>, sep: char)
    ensures
        split_acc(cur, rest, sep).len() >= 1,
    decreases rest.len(),
{
    if rest.len() > 0 {
        if rest[0] == sep {
            lemma_split_acc_nonempty(Seq::empty(), rest.drop_first(), sep);
        } else {
            lemma_split_acc_nonempty(cur.push(rest[0]), rest.drop_first(), sep);
        }
    }
}

/// Splitting always gives at least one piece.
pub proof fn lemma_split_nonempty_pub(s: Seq<char>, sep: char)
    ensures
        split(s, sep).len() >= 1,
{
    lemma_split_acc_nonempty(Seq::empty(), s, sep);
}

/// Splits a character sequence into lines.
pub fn split_lines(s: &[char]) -> (r: Vec<Vec<char>>)
    ensures
        r@.len() == lines(s@).len(),
        forall|i: int| 0 <= i < r@.len() ==> #[trigger] r@[i]@ == lines(s@)[i],
{
    let parts = split_chars(s, '\n');
    proof {
        lemma_split_acc_nonempty(Seq::empty(), s@, '\n');
    }
    let last_empty = parts[parts.len() - 1].len() == 0;
    let n = if last_empty {
        parts.len() - 1
    } else {
        parts.len()
    };
    let mut r: Vec<Vec<char>> = Vec::new();
    for i in 0..n
        invariant
            n <= parts@.len(),
            parts@.len() == split(s@, '\n').len(),
            forall|j: int| 0 <= j < parts@.len() ==> #[trigger] parts@[j]@ == split(s@, '\n')[j],
            n == lines(s@).len(),
            r@.len() == i,
            forall|j: int| 0 <= j < i ==> #[trigger] r@[j]@ == lines(s@)[j],
    {
        let mut line = parts[i].clone();
        if i + 1 < parts.len() && line.len() > 0 && line[line.len() - 1] == '\r' {
            line.pop();
        }
        proof {
            assert(line@ == lines(s@)[i as int]);
        }
        r.push(line);
    }
    r
}

/// Whether `s` starts with `p`.
pub open spec fn starts_with(s: Seq<char>, p: Seq<char>) -> bool {
    p.len() <= s.len() && s.take(p.len() as int) == p
}

/// Whether `s` ends with `p`.
pub open spec fn ends_with(s: Seq<char>, p: Seq<char>) -> bool {
    p.len() <= s.len() && s.skip(s.len() - p.len()) == p
}

/// `s` without white space at either end, as `str::trim` gives it.
pub open spec fn trim(s: Seq<char>) -> Seq<char>
    decreases s.len(),
{
    if s.len() > 0 && is_ws(s[0]) {
        trim(s.drop_first())
    } else if s.len() > 0 && is_ws(s.last()) {
        trim(s.drop_last())
    } else {
        s
    }
}

/// Removes white space from both ends.
pub fn trim_chars(s: &[char]) -> (r: Vec<char>)
    ensures
        r@ == trim(s@),
{
    let mut lo: usize = 0;
    let mut hi: usize = s.len();
    assert(s@.subrange(0, s@.len() as int) =~= s@);
    while lo < hi && (is_whitespace(s[lo]) || is_whitespace(s[hi - 1]))
        invariant
            lo <= hi <= s.len(),
            trim(s@.subrange(lo as int, hi as int)) == trim(s@),
        decreases hi - lo,
    {
        let ghost sub = s@.subrange(lo as int, hi as int);
        if is_whitespace(s[lo]) {
            assert(sub.drop_first() =~= s@.subrange(lo + 1, hi as int));
            lo = lo + 1;
        } else {
            assert(sub.drop_last() =~= s@.subrange(lo as int, hi - 1));
            hi = hi - 1;
        }
    }
    let mut r: Vec<char> = Vec::new();
    for i in lo..hi
        invariant
            lo <= hi <= s.len(),
            r@ == s@.subrange(lo as int, i as int),
    {
        r.push(s[i]);
        assert(s@.subrange(lo as int, i as int).push(s@[i as int]) =~= s@.subrange(
            lo as int,
            i + 1,
        ));
    }
    r
}

/// `s` without the copies of `c` at its end, as `str::trim_end_matches(c)` gives it.
pub open spec fn trim_end(s: Seq<char>, c: char) -> Seq<char>
    decreases s.len(),
{
    if s.len() > 0 && s.last() == c {
        trim_end(s.drop_last(), c)
    } else {
        s
    }
}

/// Removes all copies of `c` from the end.
pub fn trim_end_chars(s: &[char], c: char) -> (r: Vec<char>)
    ensures
        r@ == trim_end(s@, c),
{
    let mut hi: usize = s.len();
    assert(s@.take(s@.len() as int) =~= s@);
    while hi > 0 && s[hi - 1] == c
        invariant
            hi <= s.len(),
            trim_end(s@.take(hi as int), c) == trim_end(s@, c),
        decreases hi,
    {
        assert(s@.take(hi as int).drop_last() =~= s@.take(hi - 1));
        hi = hi - 1;
    }
    let mut r: Vec<char> = Vec::new();
    for i in 0..hi
        invariant
            hi <= s.len(),
            r@ == s@.take(i as int),
    {
        r.push(s[i]);
        assert(s@.take(i as int).push(s@[i as int]) =~= s@.take(i + 1));
    }
    r
}

/// Whether two character sequences are equal.
pub fn chars_eq(a: &[char], b: &[char]) -> (r: bool)
    ensures
        r == (a@ == b@),
{
    if a.len() != b.len() {
        return false;
    }
    for i in 0..a.len()
        invariant
            a.len() == b.len(),
            forall|j: int| 0 <= j < i ==> a@[j] == b@[j],
    {
        if a[i] != b[i] {
            return false;
        }
    }
    assert(a@ =~= b@);
    true
}

/// Whether `s` starts with `p`.
pub fn chars_starts_with(s: &[char], p: &[char]) -> (r: bool)
    ensures
        r == starts_with(s@, p@),
{
    if p.len() > s.len() {
        return false;
    }
    for i in 0..p.len()
        invariant
            p.len() <= s.len(),
            forall|j: int| 0 <= j < i ==> s@[j] == p@[j],
    {
        if s[i] != p[i] {
            assert(s@.take(p@.len() as int)[i as int] != p@[i as int]);
            return false;
        }
    }
    assert(s@.take(p@.len() as int) =~= p@);
    true
}

/// Whether `s` ends with `p`.
pub fn chars_ends_with(s: &[char], p: &[char]) -> (r: bool)
    ensures
        r == ends_with(s@, p@),
{
    if p.len() > s.len() {
        return false;
    }
    let off = s.len() - p.len();
    for i in 0..p.len()
        invariant
            p.len() <= s.len(),
            off == s.len() - p.len(),
            forall|j: int| 0 <= j < i ==> s@[off + j] == p@[j],
    {
        if s[off + i] != p[i] {
            assert(s@.skip(off as int)[i as int] != p@[i as int]);
            return false;
        }
    }
    assert(s@.skip(off as int) =~= p@);
    true
}

/// The characters `s[from..to]`.
pub fn sub_chars(s: &[char], from: usize, to: usize) -> (r: Vec<char>)
    requires
        from <= to <= s.len(),
    ensures
        r@ == s@.subrange(from as int, to as int),
{
    let mut r: Vec<char> = Vec::new();
    for i in from..to
        invariant
            from <= to <= s.len(),
            r@ == s@.subrange(from as int, i as int),
    {
        r.push(s[i]);
        assert(s@.subrange(from as int, i as int).push(s@[i as int]) =~= s@.subrange(
            from as int,
            i + 1,
        ));
    }
    r
}

/// Appends all characters of `v` to `s`.
pub fn push_chars(s: &mut String, v: &[char])
    ensures
        final(s)@ == old(s)@ + v@,
{
    for i in 0..v.len()
        invariant
            s@ == old(s)@ + v@.take(i as int),
    {
        s.push(v[i]);
        assert(old(s)@ + v@.take(i as int) + seq![v@[i as int]] =~= old(s)@ + v@.take(i + 1));
    }
    assert(v@.take(v@.len() as int) =~= v@);
}

/// Appends the characters of a string slice to `s`.
pub fn push_str(s: &mut String, t: &str)
    ensures
        final(s)@ == old(s)@ + t@,
{
    let v = str_chars(t);
    push_chars(s, v.as_slice());
}

/// Whether `sep` does not occur in `s`.
pub open spec fn free_of(s: Seq<char>, sep: char) -> bool {
    forall|i: int| 0 <= i < s.len() ==> s[i] != sep
}

/// The pieces written one after the other with `sep` between them.
pub open spec fn joined(ps: Seq<Seq<char>>, sep: char) -> Seq<char>
    decreases ps.len(),
{
    if ps.len() == 0 {
        Seq::empty()
    } else if ps.len() == 1 {
        ps[0]
    } else {
        ps[0] + seq![sep] + joined(ps.drop_first(), sep)
    }
}

/// Characters other than `sep` run on into the piece being read.
proof fn lemma_split_acc_run(cur: Seq<char>, a: Seq<char>, rest: Seq<char>, sep: char)
    requires
        free_of(a, sep),
    ensures
        split_acc(cur, a + rest, sep) == split_acc(cur + a, rest, sep),
    decreases a.len(),
{
    if a.len() > 0 {
        assert((a + rest)[0] == a[0]);
        assert((a + rest).drop_first() =~= a.drop_first() + rest);
        lemma_split_acc_run(cur.push(a[0]), a.drop_first(), rest, sep);
        assert(cur.push(a[0]) + a.drop_first() =~= cur + a);
    } else {
        assert(a + rest =~= rest);
        assert(cur + a =~= cur);
    }
}

/// Splitting pieces written with `sep` between them gives the pieces back,
/// when no piece holds `sep`.
pub proof fn lemma_split_joined(ps: Seq<Seq<char>>, sep: char)
    requires
        ps.len() >= 1,
        forall|i: int| 0 <= i < ps.len() ==> free_of(#[trigger] ps[i], sep),
    ensures
        split(joined(ps, sep), sep) == ps,
    decreases ps.len(),
{
    let a = ps[0];
    assert(free_of(ps[0], sep));
    if ps.len() == 1 {
        lemma_split_acc_run(Seq::empty(), a, Seq::empty(), sep);
        assert(a + Seq::<char>::empty() =~= a);
        assert(Seq::<char>::empty() + a =~= a);
        assert(split(joined(ps, sep), sep) =~= ps);
    } else {
        let rest = ps.drop_first();
        assert forall|i: int| 0 <= i < rest.len() implies free_of(#[trigger] rest[i], sep) by {
            assert(rest[i] == ps[i + 1]);
        }
        lemma_split_joined(rest, sep);
        let tail = seq![sep] + joined(rest, sep);
        assert(joined(ps, sep) =~= a + tail);
        lemma_split_acc_run(Seq::empty(), a, tail, sep);
        assert(Seq::<char>::empty() + a =~= a);
        assert(tail[0] == sep);
        assert(tail.drop_first() =~= joined(rest, sep));
        assert(split_acc(a, tail, sep) == seq![a] + split_acc(Seq::empty(), joined(rest, sep), sep));
        assert(split(joined(ps, sep), sep) =~= ps);
    }
}

/// Writing two non-empty runs of pieces one after the other puts `sep`
/// between them.
pub proof fn lemma_joined_concat(a: Seq<Seq<char>>, b: Seq<Seq<char>>, sep: char)
    requires
        a.len() >= 1,
        b.len() >= 1,
    ensures
        joined(a + b, sep) == joined(a, sep) + seq![sep] + joined(b, sep),
    decreases a.len(),
{
    if a.len() == 1 {
        assert((a + b)[0] == a[0]);
        assert((a + b).drop_first() =~= b);
    } else {
        lemma_joined_concat(a.drop_first(), b, sep);
        assert((a + b).drop_first() =~= a.drop_first() + b);
        assert((a + b)[0] == a[0]);
    }
}

} // verus!
