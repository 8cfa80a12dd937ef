//! The mathematical model of the parser's cursor: a lookahead position over
//! the input together with 1-based line/column bookkeeping.
//!
//! The column counts the lookahead character's place in its line; a newline
//! becoming the lookahead bumps the line and resets the column. The position
//! may equal the input length, which models "no lookahead left".

use vstd::prelude::*;
use crate::numtok::is_digit;

verus! {

/// A cursor: lookahead index `pos` into the input, and the line/column of the
/// lookahead character.
pub struct Cursor {
    pub pos: int,
    pub line: int,
    pub col: int,
}

/// The lookahead character, or `None` at end of input.
pub open spec fn cur_ch(s: Seq<char>, c: Cursor) -> Option<char> {
    if 0 <= c.pos < s.len() {
        Some(s[c.pos])
    } else {
        None
    }
}

/// The cursor after consuming one character: the lookahead moves one to the
/// right; if the new lookahead is a newline the line is bumped and the column
/// reset, otherwise the column is bumped.
pub open spec fn advanced(s: Seq<char>, c: Cursor) -> Cursor {
    let p = c.pos + 1;
    if 0 <= p < s.len() && s[p] == '\n' {
        Cursor { pos: p, line: c.line + 1, col: 1 }
    } else {
        Cursor { pos: p, line: c.line, col: c.col + 1 }
    }
}

/// The cursor after consuming `n` characters.
pub open spec fn advance_n(s: Seq<char>, c: Cursor, n: nat) -> Cursor
    decreases n,
{
    if n == 0 {
        c
    } else {
        advance_n(s, advanced(s, c), (n - 1) as nat)
    }
}

/// Is `c` one of the four insignificant whitespace characters?
pub open spec fn is_ws(c: char) -> bool {
    c == ' ' || c == '\n' || c == '\t' || c == '\r'
}

/// The cursor after consuming the maximal run of whitespace at the lookahead.
pub open spec fn skip_ws(s: Seq<char>, c: Cursor) -> Cursor
    decreases s.len() - c.pos,
{
    match cur_ch(s, c) {
        Some(ch) => if is_ws(ch) {
            skip_ws(s, advanced(s, c))
        } else {
            c
        },
        None => c,
    }
}

/// Matching a literal text at the cursor, character by character. On the
/// first mismatch the characters already matched stay consumed: a partial
/// match commits.
pub open spec fn sp_match(s: Seq<char>, c: Cursor, t: Seq<char>) -> (bool, Cursor)
    decreases t.len(),
{
    if t.len() == 0 {
        (true, c)
    } else if cur_ch(s, c) == Some(t[0]) {
        sp_match(s, advanced(s, c), t.drop_first())
    } else {
        (false, c)
    }
}

/// Matching a keyword: whitespace is skipped, the text is matched, and on
/// success the whitespace after it is skipped too.
pub open spec fn sp_text(s: Seq<char>, c: Cursor, t: Seq<char>) -> (bool, Cursor) {
    let c1 = skip_ws(s, c);
    let (m, c2) = sp_match(s, c1, t);
    if m {
        (true, skip_ws(s, c2))
    } else {
        (false, c2)
    }
}

/// Is `c` a character a numeric token is drawn from?
pub open spec fn is_num_char(c: char) -> bool {
    is_digit(c) || c == '.' || c == 'e' || c == 'E' || c == '-' || c == '+'
}

/// The end of the numeric-character run starting at `p`: the first index at
/// or after `p` holding no numeric character.
pub open spec fn num_end(s: Seq<char>, p: int) -> int
    decreases s.len() - p,
{
    if 0 <= p < s.len() && is_num_char(s[p]) {
        num_end(s, p + 1)
    } else {
        p
    }
}

/// The index of the first `"` at or after `p`, or the input length when the
/// rest of the input holds none.
pub open spec fn quote_end(s: Seq<char>, p: int) -> int
    decreases s.len() - p,
{
    if 0 <= p < s.len() {
        if s[p] == '"' {
            p
        } else {
            quote_end(s, p + 1)
        }
    } else {
        p
    }
}

/// A cursor that points into the input (possibly just past its end).
pub open spec fn cursor_in(s: Seq<char>, c: Cursor) -> bool {
    0 <= c.pos <= s.len()
}

/// Advancing `n` characters moves the position by exactly `n`.
pub proof fn lemma_advance_n_pos(s: Seq<char>, c: Cursor, n: nat)
    ensures
        advance_n(s, c, n).pos == c.pos + n,
    decreases n,
{
    if n != 0 {
        lemma_advance_n_pos(s, advanced(s, c), (n - 1) as nat);
    }
}

/// Advancing distributes over a sum of counts.
pub proof fn lemma_advance_n_add(s: Seq<char>, c: Cursor, m: nat, n: nat)
    ensures
        advance_n(s, advance_n(s, c, m), n) == advance_n(s, c, m + n),
    decreases m,
{
    if m != 0 {
        lemma_advance_n_add(s, advanced(s, c), (m - 1) as nat, n);
    }
}

/// Skipping whitespace never moves the cursor backwards or past the end.
pub proof fn lemma_skip_ws_bounds(s: Seq<char>, c: Cursor)
    requires
        cursor_in(s, c),
    ensures
        c.pos <= skip_ws(s, c).pos <= s.len(),
    decreases s.len() - c.pos,
{
    if cur_ch(s, c) matches Some(ch) && is_ws(ch) {
        lemma_skip_ws_bounds(s, advanced(s, c));
    }
}

/// A cursor at a non-whitespace lookahead skips nothing.
pub proof fn lemma_skip_ws_noop(s: Seq<char>, c: Cursor)
    requires
        cur_ch(s, c) matches Some(ch) ==> !is_ws(ch),
    ensures
        skip_ws(s, c) == c,
{
}

/// Matching a literal moves the cursor by at most the literal's length and
/// never past the end.
pub proof fn lemma_sp_match_bounds(s: Seq<char>, c: Cursor, t: Seq<char>)
    requires
        cursor_in(s, c),
    ensures
        c.pos <= sp_match(s, c, t).1.pos <= c.pos + t.len(),
        sp_match(s, c, t).1.pos <= s.len(),
        sp_match(s, c, t).0 ==> sp_match(s, c, t).1.pos == c.pos + t.len(),
    decreases t.len(),
{
    if t.len() != 0 && cur_ch(s, c) == Some(t[0]) {
        lemma_sp_match_bounds(s, advanced(s, c), t.drop_first());
    }
}

/// When the literal sits at the cursor, matching it succeeds.
pub proof fn lemma_sp_match_at(s: Seq<char>, c: Cursor, t: Seq<char>)
    requires
        cursor_in(s, c),
        c.pos + t.len() <= s.len(),
        s.subrange(c.pos, c.pos + t.len()) == t,
    ensures
        sp_match(s, c, t).0,
        sp_match(s, c, t).1 == advance_n(s, c, t.len()),
    decreases t.len(),
{
    if t.len() != 0 {
        assert(t[0] == s.subrange(c.pos, c.pos + t.len())[0]);
        assert(cur_ch(s, c) == Some(t[0]));
        let s2 = s.subrange(c.pos + 1, c.pos + t.len());
        assert(s2 =~= t.drop_first());
        lemma_sp_match_at(s, advanced(s, c), t.drop_first());
    }
}

/// The numeric run ends within the input and everything in it is numeric.
pub proof fn lemma_num_end(s: Seq<char>, p: int)
    requires
        0 <= p <= s.len(),
    ensures
        p <= num_end(s, p) <= s.len(),
        forall|i: int| p <= i < num_end(s, p) ==> is_num_char(#[trigger] s[i]),
        num_end(s, p) < s.len() ==> !is_num_char(s[num_end(s, p)]),
    decreases s.len() - p,
{
    if 0 <= p < s.len() && is_num_char(s[p]) {
        lemma_num_end(s, p + 1);
    }
}

/// When everything from `p` up to `q` is numeric and `q` is the end or
/// non-numeric, the numeric run ends exactly at `q`.
pub proof fn lemma_num_end_is(s: Seq<char>, p: int, q: int)
    requires
        0 <= p <= q <= s.len(),
        forall|i: int| p <= i < q ==> is_num_char(#[trigger] s[i]),
        q < s.len() ==> !is_num_char(s[q]),
    ensures
        num_end(s, p) == q,
    decreases q - p,
{
    if p < q {
        lemma_num_end_is(s, p + 1, q);
    }
}

/// The quote search ends within the input, skips no quote, and stops at one
/// when it reports one.
pub proof fn lemma_quote_end(s: Seq<char>, p: int)
    requires
        0 <= p <= s.len(),
    ensures
        p <= quote_end(s, p) <= s.len(),
        forall|i: int| p <= i < quote_end(s, p) ==> #[trigger] s[i] != '"',
        quote_end(s, p) < s.len() ==> s[quote_end(s, p)] == '"',
    decreases s.len() - p,
{
    if 0 <= p < s.len() && s[p] != '"' {
        lemma_quote_end(s, p + 1);
    }
}

/// When no quote sits between `p` and `q` and `q` is a quote or the end, the
/// quote search ends exactly at `q`.
pub proof fn lemma_quote_end_is(s: Seq<char>, p: int, q: int)
    requires
        0 <= p <= q <= s.len(),
        forall|i: int| p <= i < q ==> #[trigger] s[i] != '"',
        q < s.len() ==> s[q] == '"',
    ensures
        quote_end(s, p) == q,
    decreases q - p,
{
    if p < q {
        lemma_quote_end_is(s, p + 1, q);
    }
}

} // verus!
