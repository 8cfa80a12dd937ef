//! Laws of the library: what parsing guarantees about the values it builds,
//! how insertion into objects behaves, and how parsing undoes rendering.

use vstd::prelude::*;
use crate::cursor::{
    Cursor, cur_ch, advanced, advance_n, skip_ws, sp_match, is_num_char, cursor_in, is_ws,
    lemma_skip_ws_noop, lemma_sp_match_at, lemma_num_end, lemma_num_end_is, lemma_quote_end,
    lemma_quote_end_is, lemma_advance_n_pos,
};
use crate::error::ErrorCode;
use crate::numtok::{is_digit, is_float_token};
use crate::semantics::{
    SpResult, sp_cursor_of, sp_value_of, start_cursor, sp_parse_null, sp_parse_bool, sp_parse_num,
    sp_parse_string, sp_parse_value, sp_parse_array, sp_array_items, sp_parse_object,
    sp_obj_items, sp_parse,
};
use crate::value::{
    SpecValue, assoc_find, assoc_index, assoc_insert, lemma_assoc_index, lemma_assoc_index_is,
};
use crate::render::{sp_render, sp_render_items, sp_render_entries};

verus! {

broadcast use vstd::seq::axiom_seq_index_decreases, vstd::seq::axiom_seq_subrange_decreases;

/// Does `s` hold no double quote? A string with this property renders and
/// re-parses verbatim.
pub open spec fn quote_free(s: Seq<char>) -> bool {
    forall|i: int| 0 <= i < s.len() ==> #[trigger] s[i] != '"'
}

/// A well-formed value: exactly the shape of values the parser itself builds.
/// Numeric tokens satisfy the float grammar and begin with a digit or `-`;
/// strings and keys hold no double quote; object keys are unique.
pub open spec fn wf_value(v: SpecValue) -> bool
    decreases v,
{
    match v {
        SpecValue::Null => true,
        SpecValue::Bool(_) => true,
        SpecValue::Num(t) => is_float_token(t) && t.len() > 0 && (is_digit(t[0]) || t[0] == '-'),
        SpecValue::Str(s) => quote_free(s),
        SpecValue::Array(a) => forall|i: int| 0 <= i < a.len() ==> wf_value(#[trigger] a[i]),
        SpecValue::Object(es) => {
            &&& forall|i: int|
                0 <= i < es.len() ==> quote_free((#[trigger] es[i]).0) && wf_value(es[i].1)
            &&& forall|i: int, j: int| 0 <= i < j < es.len() ==> es[i].0 != es[j].0
        },
    }
}

/// Are the keys of an entry sequence pairwise distinct?
pub open spec fn keys_unique(es: Seq<(Seq<char>, SpecValue)>) -> bool {
    forall|i: int, j: int| 0 <= i < j < es.len() ==> es[i].0 != es[j].0
}

/// The law of overwriting: after inserting `v` under `k`, looking `k` up
/// yields `v` — the last write wins — and every other key is untouched.
pub proof fn lemma_insert_find(es: Seq<(Seq<char>, SpecValue)>, k: Seq<char>, v: SpecValue)
    ensures
        assoc_find(assoc_insert(es, k, v), k) == Some(v),
        forall|k2: Seq<char>| k2 != k ==> assoc_find(assoc_insert(es, k, v), k2) == assoc_find(
            es,
            k2,
        ),
{
    let i = assoc_index(es, k);
    lemma_assoc_index(es, k);
    let es2 = assoc_insert(es, k, v);
    crate::value::lemma_assoc_find_at(es2, k, i);
    assert forall|k2: Seq<char>| k2 != k implies assoc_find(es2, k2) == assoc_find(es, k2) by {
        lemma_find_skips_update(es, k, v, k2);
    }
}

/// Helper for `lemma_insert_find`: looking up a different key walks past the
/// inserted entry unchanged.
proof fn lemma_find_skips_update(
    es: Seq<(Seq<char>, SpecValue)>,
    k: Seq<char>,
    v: SpecValue,
    k2: Seq<char>,
)
    requires
        k2 != k,
    ensures
        assoc_find(assoc_insert(es, k, v), k2) == assoc_find(es, k2),
    decreases es.len(),
{
    let es2 = assoc_insert(es, k, v);
    if es.len() == 0 {
        assert(es2 =~= seq![(k, v)]);
        assert(assoc_find(es2, k2) == assoc_find(es2.drop_first(), k2));
        assert(es2.drop_first() =~= es);
    } else if es[0].0 == k {
        assert(assoc_index(es, k) == 0);
        assert(es2 =~= es.update(0, (es[0].0, v)));
        assert(es2[0].0 == k);
        assert(es2.drop_first() =~= es.drop_first());
    } else {
        let tail = es.drop_first();
        lemma_find_skips_update(tail, k, v, k2);
        let tail2 = assoc_insert(tail, k, v);
        assert(assoc_index(es, k) == 1 + assoc_index(tail, k));
        lemma_assoc_index(tail, k);
        if assoc_index(tail, k) < tail.len() {
            assert(es2 =~= seq![es[0]] + tail2);
        } else {
            assert(tail2 =~= tail.push((k, v)));
            assert(es2 =~= seq![es[0]] + tail2);
        }
        assert(es2[0] == es[0]);
        assert(es2.drop_first() =~= tail2);
        if es[0].0 == k2 {
        } else {
            assert(assoc_find(es2, k2) == assoc_find(tail2, k2));
        }
    }
}

/// Insertion keeps an entry sequence well formed: keys stay unique, and when
/// the new key and value are well formed, so is every entry.
pub proof fn lemma_insert_wf(es: Seq<(Seq<char>, SpecValue)>, k: Seq<char>, v: SpecValue)
    requires
        keys_unique(es),
        forall|i: int| 0 <= i < es.len() ==> quote_free((#[trigger] es[i]).0) && wf_value(
            es[i].1,
        ),
        quote_free(k),
        wf_value(v),
    ensures
        keys_unique(assoc_insert(es, k, v)),
        forall|i: int|
            0 <= i < assoc_insert(es, k, v).len() ==> quote_free(
                (#[trigger] assoc_insert(es, k, v)[i]).0,
            ) && wf_value(assoc_insert(es, k, v)[i].1),
{
    lemma_assoc_index(es, k);
}

/// Every character of a token the float grammar accepts is a numeric
/// character, so a delimiter after the token ends the numeric run exactly
/// there.
proof fn lemma_float_token_chars(t: Seq<char>)
    requires
        is_float_token(t),
    ensures
        forall|i: int| 0 <= i < t.len() ==> is_num_char(#[trigger] t[i]),
{
    let signed = t.len() > 0 && (t[0] == '-' || t[0] == '+');
    let u = if signed {
        t.drop_first()
    } else {
        t
    };
    let off: int = if signed {
        1
    } else {
        0
    };
    let k = crate::numtok::exp_start(u);
    crate::numtok::lemma_exp_start(u);
    assert forall|i: int| 0 <= i < t.len() implies is_num_char(#[trigger] t[i]) by {
        if i >= off {
            let j = i - off;
            assert(u[j] == t[i]);
            if k == u.len() {
                assert(is_digit(u[j]) || u[j] == '.');
            } else {
                if j < k {
                    assert(u.take(k)[j] == u[j]);
                    assert(is_digit(u[j]) || u[j] == '.');
                } else if j == k {
                } else {
                    let x = u.skip(k + 1);
                    assert(x[j - k - 1] == u[j]);
                    if x.len() > 0 && (x[0] == '+' || x[0] == '-') {
                        if j - k - 1 > 0 {
                            assert(x.drop_first()[j - k - 2] == x[j - k - 1]);
                        }
                    }
                }
            }
        }
    }
}

/// A rendering is never empty, and its first character announces its value:
/// one of `n`, `t`, `f`, `"`, `[`, `{`, a digit, or `-`.
proof fn lemma_render_head(v: SpecValue)
    requires
        wf_value(v),
    ensures
        sp_render(v).len() > 0,
        ({
            let ch = sp_render(v)[0];
            ch == 'n' || ch == 't' || ch == 'f' || ch == '"' || ch == '[' || ch == '{'
                || is_digit(ch) || ch == '-'
        }),
{
    reveal_strlit("null");
    reveal_strlit("true");
    reveal_strlit("false");
}

/// A position where every production gives up: the end of the input, or one
/// of the structural characters that close or separate elements.
pub open spec fn stops_value(s: Seq<char>, p: int) -> bool {
    p == s.len() || (0 <= p < s.len() && (s[p] == ',' || s[p] == ']' || s[p] == '}'))
}

/// At a stopping position every production fails without moving the cursor
/// (the object production may differ in its reason, not in its position).
proof fn lemma_tail_inert(s: Seq<char>, c: Cursor)
    requires
        cursor_in(s, c),
        stops_value(s, c.pos),
    ensures
        sp_parse_bool(s, c) == SpResult::Failed(ErrorCode::ExpectedBool, c),
        sp_parse_string(s, c) == SpResult::Failed(ErrorCode::UnclosedStringLiteral, c),
        sp_parse_num(s, c) == SpResult::Failed(ErrorCode::NumberParsing, c),
        sp_parse_null(s, c) == SpResult::Failed(ErrorCode::ExpectedNull, c),
        sp_parse_array(s, c) == SpResult::Failed(ErrorCode::UnclosedArray, c),
        sp_value_of(sp_parse_object(s, c)) is None,
        sp_cursor_of(sp_parse_object(s, c)) == c,
{
    lemma_skip_ws_noop(s, c);
    reveal_strlit("null");
    assert(sp_match(s, c, "null"@) == (false, c));
}

/// Parsing undoes rendering: at a cursor where a well-formed value's
/// rendering sits, followed by a stopping position, the value dispatch yields
/// exactly that value and stops exactly at the rendering's end.
pub proof fn lemma_render_parses_value(s: Seq<char>, c: Cursor, v: SpecValue)
    requires
        wf_value(v),
        cursor_in(s, c),
        c.pos + sp_render(v).len() <= s.len(),
        s.subrange(c.pos, c.pos + sp_render(v).len()) == sp_render(v),
        stops_value(s, c.pos + sp_render(v).len()),
    ensures
        sp_value_of(sp_parse_value(s, c)) == Some(v),
        sp_cursor_of(sp_parse_value(s, c)).pos == c.pos + sp_render(v).len(),
{
    let b = c.pos + sp_render(v).len();
    lemma_render_spells(s, c.pos, v);
    lemma_wsr_parses_value(s, c, c.pos, b, b, v);
}

/// A rendering is the whitespace-free spelling of its value: where it sits in
/// the input, the fragment predicates hold with every whitespace run empty.
proof fn lemma_render_spells(s: Seq<char>, a: int, v: SpecValue)
    requires
        wf_value(v),
        0 <= a,
        a + sp_render(v).len() <= s.len(),
        s.subrange(a, a + sp_render(v).len()) == sp_render(v),
    ensures
        ws_value(s, a, a + sp_render(v).len(), v),
    decreases v, 1int,
{
    let rr = sp_render(v);
    let b = a + rr.len();
    lemma_render_head(v);
    assert forall|i: int| 0 <= i < rr.len() implies s[a + i] == rr[i] by {
        assert(s.subrange(a, b)[i] == s[a + i]);
    }
    match v {
        SpecValue::Array(elems) => {
            assert(s[a] == '[');
            assert(s[b - 1] == rr[rr.len() - 1]);
            assert(rr[rr.len() - 1] == ']');
            if elems.len() == 0 {
                assert(b == a + 2);
                lemma_ws_end_is(s, a + 1, a + 1);
            } else {
                let ri = sp_render_items(elems);
                assert forall|i: int| 0 <= i < ri.len() implies s.subrange(
                    a + 1,
                    a + 1 + ri.len(),
                )[i] == ri[i] by {
                    assert(s.subrange(a + 1, a + 1 + ri.len())[i] == s[a + 1 + i]);
                    assert(rr[1 + i] == ri[i]);
                }
                assert(s.subrange(a + 1, a + 1 + ri.len()) =~= ri);
                lemma_render_spells_items(s, a + 1, elems);
                assert(items_end(s, a + 1, elems) == b - 1);
                lemma_ws_end_is(s, b - 1, b - 1);
            }
        },
        SpecValue::Object(es) => {
            assert(s[a] == '{');
            assert(s[b - 1] == rr[rr.len() - 1]);
            assert(rr[rr.len() - 1] == '}');
            if es.len() == 0 {
                assert(b == a + 2);
                lemma_ws_end_is(s, a + 1, a + 1);
            } else {
                let re = sp_render_entries(es);
                assert forall|i: int| 0 <= i < re.len() implies s.subrange(
                    a + 1,
                    a + 1 + re.len(),
                )[i] == re[i] by {
                    assert(s.subrange(a + 1, a + 1 + re.len())[i] == s[a + 1 + i]);
                    assert(rr[1 + i] == re[i]);
                }
                assert(s.subrange(a + 1, a + 1 + re.len()) =~= re);
                lemma_render_spells_entries(s, a + 1, es);
                assert(entries_end(s, a + 1, es) == b - 1);
                lemma_ws_end_is(s, b - 1, b - 1);
            }
        },
        _ => {},
    }
}

/// The rendering of a non-empty element list is its whitespace-free spelling.
proof fn lemma_render_spells_items(s: Seq<char>, p: int, elems: Seq<SpecValue>)
    requires
        elems.len() > 0,
        forall|i: int| 0 <= i < elems.len() ==> wf_value(#[trigger] elems[i]),
        0 <= p,
        p + sp_render_items(elems).len() <= s.len(),
        s.subrange(p, p + sp_render_items(elems).len()) == sp_render_items(elems),
    ensures
        items_ok(s, p, elems),
        items_end(s, p, elems) == p + sp_render_items(elems).len(),
    decreases elems, 0int,
{
    let ri = sp_render_items(elems);
    assert forall|i: int| 0 <= i < ri.len() implies s[p + i] == ri[i] by {
        assert(s.subrange(p, p + ri.len())[i] == s[p + i]);
    }
    let r0 = sp_render(elems[0]);
    lemma_render_head(elems[0]);
    assert(ri[0] == r0[0]);
    lemma_ws_end_is(s, p, p);
    assert forall|i: int| 0 <= i < r0.len() implies s.subrange(p, p + r0.len())[i] == r0[i] by {
        assert(s.subrange(p, p + r0.len())[i] == s[p + i]);
        assert(ri[i] == r0[i]);
    }
    assert(s.subrange(p, p + r0.len()) =~= r0);
    lemma_render_spells(s, p, elems[0]);
    let e0 = p + r0.len();
    if elems.len() == 1 {
    } else {
        let rest = sp_render_items(elems.drop_first());
        assert(ri == r0 + seq![','] + rest);
        assert(s[e0] == ri[r0.len() as int]);
        assert(ri[r0.len() as int] == ',');
        lemma_ws_end_is(s, e0, e0);
        assert forall|i: int| 0 <= i < rest.len() implies s.subrange(
            e0 + 1,
            e0 + 1 + rest.len(),
        )[i] == rest[i] by {
            assert(s.subrange(e0 + 1, e0 + 1 + rest.len())[i] == s[e0 + 1 + i]);
            assert(ri[r0.len() + 1 + i] == rest[i]);
        }
        assert(s.subrange(e0 + 1, e0 + 1 + rest.len()) =~= rest);
        assert(forall|i: int|
            0 <= i < elems.drop_first().len() ==> wf_value(#[trigger] elems.drop_first()[i]));
        lemma_render_spells_items(s, e0 + 1, elems.drop_first());
    }
}

/// The rendering of a non-empty entry list is its whitespace-free spelling.
#[verifier::rlimit(100)]
proof fn lemma_render_spells_entries(s: Seq<char>, p: int, es: Seq<(Seq<char>, SpecValue)>)
    requires
        es.len() > 0,
        forall|i: int| 0 <= i < es.len() ==> quote_free((#[trigger] es[i]).0) && wf_value(
            es[i].1,
        ),
        0 <= p,
        p + sp_render_entries(es).len() <= s.len(),
        s.subrange(p, p + sp_render_entries(es).len()) == sp_render_entries(es),
    ensures
        entries_ok(s, p, es),
        entries_end(s, p, es) == p + sp_render_entries(es).len(),
    decreases es, 0int,
{
    let re = sp_render_entries(es);
    assert forall|i: int| 0 <= i < re.len() implies s[p + i] == re[i] by {
        assert(s.subrange(p, p + re.len())[i] == s[p + i]);
    }
    let k = es[0].0;
    let v0 = es[0].1;
    let kl = k.len() as int;
    let quoted = seq!['"'] + k + seq!['"'];
    let head = quoted + seq![':'] + sp_render(v0);
    let r0 = sp_render(v0);
    lemma_render_head(v0);
    assert(head.len() == kl + 3 + r0.len());
    assert forall|i: int| 0 <= i < head.len() implies s[p + i] == head[i] by {
        if es.len() == 1 {
            assert(re[i] == head[i]);
        } else {
            assert(re == head + seq![','] + sp_render_entries(es.drop_first()));
            assert(re[i] == head[i]);
        }
    }
    assert(head[0] == '"');
    lemma_ws_end_is(s, p, p);
    let kend = p + kl + 2;
    assert forall|i: int| 0 <= i < kl + 2 implies s.subrange(p, kend)[i] == quoted[i] by {
        assert(s.subrange(p, kend)[i] == s[p + i]);
        assert(head[i] == quoted[i]);
    }
    assert(s.subrange(p, kend) =~= quoted);
    assert(s[kend] == head[kl + 2]);
    assert(head[kl + 2] == ':');
    lemma_ws_end_is(s, kend, kend);
    let vst = kend + 1;
    assert(s[vst] == head[kl + 3]);
    assert(head[kl + 3] == r0[0]);
    lemma_ws_end_is(s, vst, vst);
    assert forall|i: int| 0 <= i < r0.len() implies s.subrange(vst, vst + r0.len())[i] == r0[i]
        by {
        assert(s.subrange(vst, vst + r0.len())[i] == s[vst + i]);
        assert(head[kl + 3 + i] == r0[i]);
    }
    assert(s.subrange(vst, vst + r0.len()) =~= r0);
    lemma_render_spells(s, vst, v0);
    let e0 = vst + r0.len();
    if es.len() == 1 {
    } else {
        let rest = sp_render_entries(es.drop_first());
        assert(re == head + seq![','] + rest);
        assert(s[e0] == re[head.len() as int]);
        assert(re[head.len() as int] == ',');
        lemma_ws_end_is(s, e0, e0);
        assert forall|i: int| 0 <= i < rest.len() implies s.subrange(
            e0 + 1,
            e0 + 1 + rest.len(),
        )[i] == rest[i] by {
            assert(s.subrange(e0 + 1, e0 + 1 + rest.len())[i] == s[e0 + 1 + i]);
            assert(re[head.len() + 1 + i] == rest[i]);
        }
        assert(s.subrange(e0 + 1, e0 + 1 + rest.len()) =~= rest);
        let dd = es.drop_first();
        assert(forall|i: int| 0 <= i < dd.len() ==> dd[i] == es[i + 1]);
        lemma_render_spells_entries(s, e0 + 1, dd);
    }
}

/// Are all characters in `[a, b)` whitespace?
pub open spec fn all_ws(s: Seq<char>, a: int, b: int) -> bool {
    forall|i: int| a <= i < b ==> is_ws(#[trigger] s[i])
}

/// The first position at or after `p` that holds no whitespace (or the end of
/// the input). A whitespace run of any length — including none — may stand
/// between two structural tokens.
pub open spec fn ws_end(s: Seq<char>, p: int) -> int
    decreases s.len() - p,
{
    if 0 <= p < s.len() && is_ws(s[p]) {
        ws_end(s, p + 1)
    } else {
        p
    }
}

/// `ws_end` skips exactly the whitespace run.
proof fn lemma_ws_end(s: Seq<char>, p: int)
    requires
        0 <= p <= s.len(),
    ensures
        p <= ws_end(s, p) <= s.len(),
        all_ws(s, p, ws_end(s, p)),
        ws_end(s, p) < s.len() ==> !is_ws(s[ws_end(s, p)]),
    decreases s.len() - p,
{
    if 0 <= p < s.len() && is_ws(s[p]) {
        lemma_ws_end(s, p + 1);
    }
}

/// When everything from `p` to `q` is whitespace and `q` holds none (or is
/// the end), the whitespace run ends exactly at `q`.
proof fn lemma_ws_end_is(s: Seq<char>, p: int, q: int)
    requires
        0 <= p <= q <= s.len(),
        all_ws(s, p, q),
        q < s.len() ==> !is_ws(s[q]),
    ensures
        ws_end(s, p) == q,
    decreases q - p,
{
    if p < q {
        lemma_ws_end_is(s, p + 1, q);
    }
}

/// The cursor's whitespace skip lands on `ws_end` of its position.
proof fn lemma_skip_ws_to(s: Seq<char>, c: Cursor)
    requires
        cursor_in(s, c),
    ensures
        skip_ws(s, c).pos == ws_end(s, c.pos),
    decreases s.len() - c.pos,
{
    if cur_ch(s, c) matches Some(ch) && is_ws(ch) {
        lemma_skip_ws_to(s, advanced(s, c));
    }
}

/// Skipping whitespace from within a whitespace run lands exactly on the
/// first non-whitespace position.
proof fn lemma_skip_ws_is(s: Seq<char>, c: Cursor, p: int)
    requires
        0 <= c.pos <= p <= s.len(),
        all_ws(s, c.pos, p),
        p < s.len() ==> !is_ws(s[p]),
    ensures
        skip_ws(s, c).pos == p,
    decreases p - c.pos,
{
    if c.pos < p {
        lemma_skip_ws_is(s, advanced(s, c), p);
    }
}

/// Where the fragment of `v` ends when it starts at `a` and the input spells
/// `v` there (see `ws_value`): keywords, numbers and strings are single
/// tokens; brackets close after the last element and a final whitespace run.
pub open spec fn frag_end(s: Seq<char>, a: int, v: SpecValue) -> int
    decreases v, 1int,
{
    match v {
        SpecValue::Array(elems) => if elems.len() == 0 {
            ws_end(s, a + 1) + 1
        } else {
            ws_end(s, items_end(s, a + 1, elems)) + 1
        },
        SpecValue::Object(es) => if es.len() == 0 {
            ws_end(s, a + 1) + 1
        } else {
            ws_end(s, entries_end(s, a + 1, es)) + 1
        },
        _ => a + sp_render(v).len(),
    }
}

/// Where a non-empty element list ends — right after the last element's
/// fragment — when its spelling starts (whitespace first) at `p`.
pub open spec fn items_end(s: Seq<char>, p: int, elems: Seq<SpecValue>) -> int
    decreases elems, 0int,
{
    if elems.len() == 0 {
        p
    } else {
        let e0 = frag_end(s, ws_end(s, p), elems[0]);
        if elems.len() == 1 {
            e0
        } else {
            items_end(s, ws_end(s, e0) + 1, elems.drop_first())
        }
    }
}

/// Where a non-empty entry list ends — right after the last entry's value
/// fragment — when its spelling starts (whitespace first) at `p`.
pub open spec fn entries_end(s: Seq<char>, p: int, es: Seq<(Seq<char>, SpecValue)>) -> int
    decreases es, 0int,
{
    if es.len() == 0 {
        p
    } else {
        let kend = ws_end(s, p) + es[0].0.len() + 2;
        let m = ws_end(s, kend);
        let e0 = frag_end(s, ws_end(s, m + 1), es[0].1);
        if es.len() == 1 {
            e0
        } else {
            entries_end(s, ws_end(s, e0) + 1, es.drop_first())
        }
    }
}

/// Between `a` and `frag_end(s, a, v)`, `s` spells the tokens of `v`, with an
/// arbitrary whitespace run between any two structural tokens — and none
/// before the first or after the last.
pub open spec fn frag_ok(s: Seq<char>, a: int, v: SpecValue) -> bool
    decreases v, 1int,
{
    match v {
        SpecValue::Array(elems) => {
            &&& 0 <= a < s.len()
            &&& s[a] == '['
            &&& if elems.len() == 0 {
                ws_end(s, a + 1) < s.len() && s[ws_end(s, a + 1)] == ']'
            } else {
                &&& items_ok(s, a + 1, elems)
                &&& ws_end(s, items_end(s, a + 1, elems)) < s.len()
                &&& s[ws_end(s, items_end(s, a + 1, elems))] == ']'
            }
        },
        SpecValue::Object(es) => {
            &&& 0 <= a < s.len()
            &&& s[a] == '{'
            &&& if es.len() == 0 {
                ws_end(s, a + 1) < s.len() && s[ws_end(s, a + 1)] == '}'
            } else {
                &&& entries_ok(s, a + 1, es)
                &&& ws_end(s, entries_end(s, a + 1, es)) < s.len()
                &&& s[ws_end(s, entries_end(s, a + 1, es))] == '}'
            }
        },
        _ => {
            &&& 0 <= a
            &&& a + sp_render(v).len() <= s.len()
            &&& s.subrange(a, a + sp_render(v).len()) == sp_render(v)
        },
    }
}

/// A non-empty element list is spelled from `p` on: each element after an
/// optional whitespace run, the elements separated by optionally-padded
/// commas.
pub open spec fn items_ok(s: Seq<char>, p: int, elems: Seq<SpecValue>) -> bool
    decreases elems, 0int,
{
    if elems.len() == 0 {
        false
    } else {
        let st = ws_end(s, p);
        let e0 = frag_end(s, st, elems[0]);
        &&& frag_ok(s, st, elems[0])
        &&& if elems.len() == 1 {
            true
        } else {
            &&& ws_end(s, e0) < s.len()
            &&& s[ws_end(s, e0)] == ','
            &&& items_ok(s, ws_end(s, e0) + 1, elems.drop_first())
        }
    }
}

/// A non-empty entry list is spelled from `p` on: each entry a quoted key, a
/// colon and a value, with optional whitespace runs between the tokens, the
/// entries separated by optionally-padded commas.
pub open spec fn entries_ok(s: Seq<char>, p: int, es: Seq<(Seq<char>, SpecValue)>) -> bool
    decreases es, 0int,
{
    if es.len() == 0 {
        false
    } else {
        let kst = ws_end(s, p);
        let kend = kst + es[0].0.len() + 2;
        let m = ws_end(s, kend);
        let vst = ws_end(s, m + 1);
        let e0 = frag_end(s, vst, es[0].1);
        &&& kend <= s.len()
        &&& s.subrange(kst, kend) == seq!['"'] + es[0].0 + seq!['"']
        &&& m < s.len()
        &&& s[m] == ':'
        &&& frag_ok(s, vst, es[0].1)
        &&& if es.len() == 1 {
            true
        } else {
            &&& ws_end(s, e0) < s.len()
            &&& s[ws_end(s, e0)] == ','
            &&& entries_ok(s, ws_end(s, e0) + 1, es.drop_first())
        }
    }
}

/// The spelling of a value between `a` and `b`: the fragment sits at `a` and
/// ends exactly at `b`.
pub open spec fn ws_value(s: Seq<char>, a: int, b: int, v: SpecValue) -> bool {
    frag_ok(s, a, v) && b == frag_end(s, a, v)
}

/// A fragment is never empty, ends within the input, and starts with a
/// character that announces its value.
proof fn lemma_frag_bounds(s: Seq<char>, a: int, v: SpecValue)
    requires
        wf_value(v),
        frag_ok(s, a, v),
    ensures
        0 <= a < frag_end(s, a, v) <= s.len(),
        ({
            let ch = s[a];
            ch == 'n' || ch == 't' || ch == 'f' || ch == '"' || ch == '[' || ch == '{'
                || is_digit(ch) || ch == '-'
        }),
    decreases v, 1int,
{
    match v {
        SpecValue::Array(elems) => {
            if elems.len() == 0 {
                lemma_ws_end(s, a + 1);
            } else {
                lemma_ws_end(s, a + 1);
                lemma_items_bounds(s, a + 1, elems);
                lemma_ws_end(s, items_end(s, a + 1, elems));
            }
        },
        SpecValue::Object(es) => {
            if es.len() == 0 {
                lemma_ws_end(s, a + 1);
            } else {
                lemma_ws_end(s, a + 1);
                lemma_entries_bounds(s, a + 1, es);
                lemma_ws_end(s, entries_end(s, a + 1, es));
            }
        },
        _ => {
            lemma_render_head(v);
            assert(s[a] == s.subrange(a, a + sp_render(v).len())[0]);
        },
    }
}

/// A spelled element list only grows to the right and stays in the input.
proof fn lemma_items_bounds(s: Seq<char>, p: int, elems: Seq<SpecValue>)
    requires
        0 <= p <= s.len(),
        forall|i: int| 0 <= i < elems.len() ==> wf_value(#[trigger] elems[i]),
        items_ok(s, p, elems),
    ensures
        p <= items_end(s, p, elems) <= s.len(),
    decreases elems, 0int,
{
    lemma_ws_end(s, p);
    let st = ws_end(s, p);
    let e0 = frag_end(s, st, elems[0]);
    lemma_frag_bounds(s, st, elems[0]);
    if elems.len() > 1 {
        lemma_ws_end(s, e0);
        lemma_items_bounds(s, ws_end(s, e0) + 1, elems.drop_first());
    }
}

/// A spelled entry list only grows to the right and stays in the input.
proof fn lemma_entries_bounds(s: Seq<char>, p: int, es: Seq<(Seq<char>, SpecValue)>)
    requires
        0 <= p <= s.len(),
        forall|i: int| 0 <= i < es.len() ==> quote_free((#[trigger] es[i]).0) && wf_value(
            es[i].1,
        ),
        entries_ok(s, p, es),
    ensures
        p <= entries_end(s, p, es) <= s.len(),
    decreases es, 0int,
{
    lemma_ws_end(s, p);
    let kst = ws_end(s, p);
    let kend = kst + es[0].0.len() + 2;
    lemma_ws_end(s, kend);
    let m = ws_end(s, kend);
    lemma_ws_end(s, m + 1);
    let vst = ws_end(s, m + 1);
    let e0 = frag_end(s, vst, es[0].1);
    lemma_frag_bounds(s, vst, es[0].1);
    if es.len() > 1 {
        lemma_ws_end(s, e0);
        lemma_entries_bounds(s, ws_end(s, e0) + 1, es.drop_first());
    }
}

/// Parsing is insensitive to the whitespace a fragment was spelled with: at a
/// cursor that reaches a whitespace-spelled fragment of a well-formed value
/// after a whitespace run, with only whitespace between the fragment and the
/// next stopping position `d`, the dispatch yields exactly that value and
/// leaves the cursor between the fragment's end and `d`.
pub proof fn lemma_wsr_parses_value(s: Seq<char>, c: Cursor, a: int, b: int, d: int, v: SpecValue)
    requires
        wf_value(v),
        cursor_in(s, c),
        c.pos <= a,
        all_ws(s, c.pos, a),
        ws_value(s, a, b, v),
        b <= d <= s.len(),
        all_ws(s, b, d),
        d == s.len() || (s[d] == ',' || s[d] == ']' || s[d] == '}'),
    ensures
        sp_value_of(sp_parse_value(s, c)) == Some(v),
        b <= sp_cursor_of(sp_parse_value(s, c)).pos <= d,
    decreases v, 2int,
{
    match v {
        SpecValue::Null => lemma_wsr_null(s, c, a, b, d),
        SpecValue::Bool(bv) => lemma_wsr_boolean(s, c, a, b, d, bv),
        SpecValue::Num(t) => lemma_wsr_number(s, c, a, b, d, t),
        SpecValue::Str(content) => lemma_wsr_string(s, c, a, b, d, content),
        SpecValue::Array(elems) => lemma_wsr_array(s, c, a, b, d, elems),
        SpecValue::Object(es) => lemma_wsr_object(s, c, a, b, d, es),
    }
}

/// The `lemma_wsr_parses_value` case of a `null` fragment.
proof fn lemma_wsr_null(s: Seq<char>, c: Cursor, a: int, b: int, d: int)
    requires
        cursor_in(s, c),
        c.pos <= a,
        all_ws(s, c.pos, a),
        ws_value(s, a, b, SpecValue::Null),
        b <= d <= s.len(),
        all_ws(s, b, d),
        d == s.len() || (s[d] == ',' || s[d] == ']' || s[d] == '}'),
    ensures
        sp_value_of(sp_parse_value(s, c)) == Some(SpecValue::Null),
        b <= sp_cursor_of(sp_parse_value(s, c)).pos <= d,
{
    let v = SpecValue::Null;
    reveal_strlit("null");
    let rr = sp_render(v);
    assert forall|i: int| 0 <= i < 4 implies s[a + i] == rr[i] by {
        assert(s.subrange(a, b)[i] == s[a + i]);
    }
    assert(s[a] == 'n');
    lemma_skip_ws_is(s, c, a);
    let cb = skip_ws(s, c);
    assert(cur_ch(s, cb) == Some('n'));
    lemma_skip_ws_noop(s, cb);
    lemma_sp_match_at(s, cb, "null"@);
    let cm = advance_n(s, cb, 4);
    lemma_advance_n_pos(s, cb, 4);
    lemma_skip_ws_is(s, cm, d);
    let c4 = skip_ws(s, cm);
    assert(sp_parse_null(s, cb) == SpResult::Parsed(SpecValue::Null, c4));
    lemma_tail_inert(s, c4);
}

/// The `lemma_wsr_parses_value` case of a boolean fragment.
proof fn lemma_wsr_boolean(s: Seq<char>, c: Cursor, a: int, b: int, d: int, bv: bool)
    requires
        cursor_in(s, c),
        c.pos <= a,
        all_ws(s, c.pos, a),
        ws_value(s, a, b, SpecValue::Bool(bv)),
        b <= d <= s.len(),
        all_ws(s, b, d),
        d == s.len() || (s[d] == ',' || s[d] == ']' || s[d] == '}'),
    ensures
        sp_value_of(sp_parse_value(s, c)) == Some(SpecValue::Bool(bv)),
        b <= sp_cursor_of(sp_parse_value(s, c)).pos <= d,
{
    reveal_strlit("null");
    reveal_strlit("true");
    reveal_strlit("false");
    let t = if bv {
        "true"@
    } else {
        "false"@
    };
    assert forall|i: int| 0 <= i < t.len() implies s[a + i] == t[i] by {
        assert(s.subrange(a, b)[i] == s[a + i]);
    }
    lemma_skip_ws_is(s, c, a);
    let cb = skip_ws(s, c);
    assert(cur_ch(s, cb) == Some(s[a]));
    lemma_skip_ws_noop(s, cb);
    lemma_sp_match_at(s, cb, t);
    let cm = advance_n(s, cb, t.len());
    lemma_advance_n_pos(s, cb, t.len());
    lemma_skip_ws_is(s, cm, d);
    let c4 = skip_ws(s, cm);
    assert(sp_parse_bool(s, c) == SpResult::Parsed(SpecValue::Bool(bv), c4));
    lemma_tail_inert(s, c4);
}

/// The `lemma_wsr_parses_value` case of a numeric fragment.
proof fn lemma_wsr_number(s: Seq<char>, c: Cursor, a: int, b: int, d: int, t: Seq<char>)
    requires
        wf_value(SpecValue::Num(t)),
        cursor_in(s, c),
        c.pos <= a,
        all_ws(s, c.pos, a),
        ws_value(s, a, b, SpecValue::Num(t)),
        b <= d <= s.len(),
        all_ws(s, b, d),
        d == s.len() || (s[d] == ',' || s[d] == ']' || s[d] == '}'),
    ensures
        sp_value_of(sp_parse_value(s, c)) == Some(SpecValue::Num(t)),
        b <= sp_cursor_of(sp_parse_value(s, c)).pos <= d,
{
    reveal_strlit("null");
    lemma_float_token_chars(t);
    assert forall|i: int| 0 <= i < t.len() implies s[a + i] == t[i] by {
        assert(s.subrange(a, b)[i] == s[a + i]);
    }
    assert(s[a] == t[0]);
    lemma_skip_ws_is(s, c, a);
    let cb = skip_ws(s, c);
    assert(cur_ch(s, cb) == Some(s[a]));
    lemma_skip_ws_noop(s, cb);
    assert(sp_parse_bool(s, c) == SpResult::Failed(ErrorCode::ExpectedBool, cb));
    assert(sp_parse_string(s, cb) == SpResult::Failed(ErrorCode::UnclosedStringLiteral, cb));
    assert forall|i: int| a <= i < b implies is_num_char(#[trigger] s[i]) by {
        assert(s[i] == t[i - a]);
    }
    assert(b < s.len() ==> !is_num_char(s[b])) by {
        if b < d {
            assert(is_ws(s[b]));
        }
    }
    lemma_num_end_is(s, a, b);
    assert(s.subrange(a, b) == t);
    let cm = advance_n(s, cb, t.len() as nat);
    lemma_advance_n_pos(s, cb, t.len() as nat);
    assert(sp_parse_num(s, cb) == SpResult::Parsed(SpecValue::Num(t), cm));
    lemma_skip_ws_is(s, cm, d);
    let cd = skip_ws(s, cm);
    assert(sp_match(s, cd, "null"@) == (false, cd));
    assert(sp_parse_null(s, cm) == SpResult::Failed(ErrorCode::ExpectedNull, cd));
    lemma_tail_inert(s, cd);
}

/// The `lemma_wsr_parses_value` case of a string fragment.
proof fn lemma_wsr_string(s: Seq<char>, c: Cursor, a: int, b: int, d: int, content: Seq<char>)
    requires
        wf_value(SpecValue::Str(content)),
        cursor_in(s, c),
        c.pos <= a,
        all_ws(s, c.pos, a),
        ws_value(s, a, b, SpecValue::Str(content)),
        b <= d <= s.len(),
        all_ws(s, b, d),
        d == s.len() || (s[d] == ',' || s[d] == ']' || s[d] == '}'),
    ensures
        sp_value_of(sp_parse_value(s, c)) == Some(SpecValue::Str(content)),
        b <= sp_cursor_of(sp_parse_value(s, c)).pos <= d,
{
    reveal_strlit("null");
    let rr = sp_render(SpecValue::Str(content));
    assert forall|i: int| 0 <= i < rr.len() implies s[a + i] == rr[i] by {
        assert(s.subrange(a, b)[i] == s[a + i]);
    }
    assert(rr[0] == '"');
    assert(s[a] == '"');
    lemma_skip_ws_is(s, c, a);
    let cb = skip_ws(s, c);
    assert(cur_ch(s, cb) == Some('"'));
    lemma_skip_ws_noop(s, cb);
    assert(sp_parse_bool(s, c) == SpResult::Failed(ErrorCode::ExpectedBool, cb));
    assert forall|i: int| a + 1 <= i < b - 1 implies #[trigger] s[i] != '"' by {
        assert(s[i] == rr[i - a]);
        assert(rr[i - a] == content[i - a - 1]);
    }
    assert(s[b - 1] == rr[rr.len() - 1]);
    assert(rr[rr.len() - 1] == '"');
    lemma_quote_end_is(s, a + 1, b - 1);
    let cm = advance_n(s, cb, (b - a) as nat);
    lemma_advance_n_pos(s, cb, (b - a) as nat);
    assert forall|i: int| 0 <= i < content.len() implies s.subrange(a + 1, b - 1)[i] == content[i]
        by {
        assert(s.subrange(a + 1, b - 1)[i] == s[a + 1 + i]);
        assert(s[a + 1 + i] == rr[1 + i]);
        assert(rr[1 + i] == content[i]);
    }
    assert(s.subrange(a + 1, b - 1) =~= content);
    assert(sp_parse_string(s, cb) == SpResult::Parsed(SpecValue::Str(content), cm));
    lemma_skip_ws_is(s, cm, d);
    let cd = skip_ws(s, cm);
    assert(sp_parse_num(s, cm) == SpResult::Failed(ErrorCode::NumberParsing, cd));
    assert(sp_match(s, cd, "null"@) == (false, cd));
    assert(sp_parse_null(s, cd) == SpResult::Failed(ErrorCode::ExpectedNull, cd));
    lemma_tail_inert(s, cd);
}

/// The `lemma_wsr_parses_value` case of an array fragment.
#[verifier::rlimit(100)]
proof fn lemma_wsr_array(s: Seq<char>, c: Cursor, a: int, b: int, d: int, elems: Seq<SpecValue>)
    requires
        wf_value(SpecValue::Array(elems)),
        cursor_in(s, c),
        c.pos <= a,
        all_ws(s, c.pos, a),
        ws_value(s, a, b, SpecValue::Array(elems)),
        b <= d <= s.len(),
        all_ws(s, b, d),
        d == s.len() || (s[d] == ',' || s[d] == ']' || s[d] == '}'),
    ensures
        sp_value_of(sp_parse_value(s, c)) == Some(SpecValue::Array(elems)),
        b <= sp_cursor_of(sp_parse_value(s, c)).pos <= d,
    decreases elems, 4int,
{
    reveal_strlit("null");
    assert(s[a] == '[');
    lemma_skip_ws_is(s, c, a);
    let cb = skip_ws(s, c);
    assert(cur_ch(s, cb) == Some('['));
    lemma_skip_ws_noop(s, cb);
    assert(sp_parse_bool(s, c) == SpResult::Failed(ErrorCode::ExpectedBool, cb));
    assert(sp_parse_string(s, cb) == SpResult::Failed(ErrorCode::UnclosedStringLiteral, cb));
    assert(sp_parse_num(s, cb) == SpResult::Failed(ErrorCode::NumberParsing, cb));
    assert(sp_match(s, cb, "null"@) == (false, cb));
    assert(sp_parse_null(s, cb) == SpResult::Failed(ErrorCode::ExpectedNull, cb));
    let c1 = advanced(s, cb);
    assert(c1.pos == a + 1);
    lemma_ws_end(s, a + 1);
    if elems.len() == 0 {
        lemma_skip_ws_to(s, c1);
        let c2 = skip_ws(s, c1);
        assert(c2.pos == ws_end(s, a + 1));
        assert(cur_ch(s, c2) == Some(']'));
        let cm = advanced(s, c2);
        assert(cm.pos == b);
        assert(sp_parse_array(s, cb) == SpResult::Parsed(SpecValue::Array(Seq::empty()), cm));
        assert(Seq::<SpecValue>::empty() =~= elems);
        lemma_object_after(s, cm, d);
    } else {
        let st = ws_end(s, a + 1);
        lemma_frag_bounds(s, st, elems[0]);
        lemma_items_bounds(s, a + 1, elems);
        let ie = items_end(s, a + 1, elems);
        let bnd = ws_end(s, ie);
        lemma_ws_end(s, ie);
        assert(bnd == b - 1);
        lemma_skip_ws_to(s, c1);
        let c2 = skip_ws(s, c1);
        assert(c2.pos == st);
        assert(cur_ch(s, c2) == Some(s[st]));
        lemma_wsr_parses_items(s, c2, bnd, elems, Seq::empty());
        let r5 = sp_array_items(s, c2, Seq::empty());
        assert(sp_value_of(r5) == Some(SpecValue::Array(Seq::empty() + elems)));
        assert(Seq::empty() + elems =~= elems);
        assert(sp_parse_array(s, cb) == r5);
        let cm = sp_cursor_of(r5);
        assert(cm.pos == b);
        lemma_object_after(s, cm, d);
    }
}

/// The `lemma_wsr_parses_value` case of an object fragment.
#[verifier::rlimit(100)]
proof fn lemma_wsr_object(
    s: Seq<char>,
    c: Cursor,
    a: int,
    b: int,
    d: int,
    es: Seq<(Seq<char>, SpecValue)>,
)
    requires
        wf_value(SpecValue::Object(es)),
        cursor_in(s, c),
        c.pos <= a,
        all_ws(s, c.pos, a),
        ws_value(s, a, b, SpecValue::Object(es)),
        b <= d <= s.len(),
        all_ws(s, b, d),
        d == s.len() || (s[d] == ',' || s[d] == ']' || s[d] == '}'),
    ensures
        sp_value_of(sp_parse_value(s, c)) == Some(SpecValue::Object(es)),
        b <= sp_cursor_of(sp_parse_value(s, c)).pos <= d,
    decreases es, 4int,
{
    reveal_strlit("null");
    assert(s[a] == '{');
    lemma_skip_ws_is(s, c, a);
    let cb = skip_ws(s, c);
    assert(cur_ch(s, cb) == Some('{'));
    lemma_skip_ws_noop(s, cb);
    assert(sp_parse_bool(s, c) == SpResult::Failed(ErrorCode::ExpectedBool, cb));
    assert(sp_parse_string(s, cb) == SpResult::Failed(ErrorCode::UnclosedStringLiteral, cb));
    assert(sp_parse_num(s, cb) == SpResult::Failed(ErrorCode::NumberParsing, cb));
    assert(sp_match(s, cb, "null"@) == (false, cb));
    assert(sp_parse_null(s, cb) == SpResult::Failed(ErrorCode::ExpectedNull, cb));
    assert(sp_parse_array(s, cb) == SpResult::Failed(ErrorCode::UnclosedArray, cb));
    let c1 = advanced(s, cb);
    assert(c1.pos == a + 1);
    lemma_ws_end(s, a + 1);
    if es.len() == 0 {
        lemma_skip_ws_to(s, c1);
        let c2 = skip_ws(s, c1);
        assert(cur_ch(s, c2) == Some('}'));
        let cm = advanced(s, c2);
        assert(cm.pos == b);
        assert(sp_parse_object(s, cb) == SpResult::Parsed(SpecValue::Object(Seq::empty()), cm));
        assert(Seq::<(Seq<char>, SpecValue)>::empty() =~= es);
    } else {
        let kst = ws_end(s, a + 1);
        lemma_entries_bounds(s, a + 1, es);
        let ee = entries_end(s, a + 1, es);
        let bnd = ws_end(s, ee);
        lemma_ws_end(s, ee);
        assert(bnd == b - 1);
        assert(s[kst] == (seq!['"'] + es[0].0 + seq!['"'])[0]) by {
            let kend = kst + es[0].0.len() + 2;
            assert(s.subrange(kst, kend)[0] == s[kst]);
        }
        lemma_skip_ws_to(s, c1);
        let c2 = skip_ws(s, c1);
        assert(c2.pos == kst);
        assert(cur_ch(s, c2) == Some('"'));
        lemma_wsr_parses_entries(s, c2, bnd, es, Seq::empty());
        let r6 = sp_obj_items(s, c2, Seq::empty());
        assert(sp_value_of(r6) == Some(SpecValue::Object(Seq::empty() + es)));
        assert(Seq::empty() + es =~= es);
        assert(sp_parse_object(s, cb) == r6);
        assert(sp_cursor_of(r6).pos == b);
    }
}

/// After a closing bracket or brace, the object production — the last to run
/// — only ever skips whitespace before failing, so the dispatch ends between
/// the fragment and the next stopping position.
proof fn lemma_object_after(s: Seq<char>, c: Cursor, d: int)
    requires
        cursor_in(s, c),
        c.pos <= d <= s.len(),
        all_ws(s, c.pos, d),
        d == s.len() || (s[d] == ',' || s[d] == ']' || s[d] == '}'),
    ensures
        sp_value_of(sp_parse_object(s, c)) is None,
        c.pos <= sp_cursor_of(sp_parse_object(s, c)).pos <= d,
{
    if cur_ch(s, c) is None {
    } else {
        lemma_skip_ws_is(s, c, d);
        let c0 = skip_ws(s, c);
        assert(cur_ch(s, c0) != Some('{'));
    }
}

/// Parsing is insensitive to whitespace in a non-empty element list: the
/// element loop collects exactly the spelled elements and stops right after
/// the closing bracket at `bnd`.
#[verifier::rlimit(100)]
proof fn lemma_wsr_parses_items(
    s: Seq<char>,
    c: Cursor,
    bnd: int,
    elems: Seq<SpecValue>,
    acc: Seq<SpecValue>,
)
    requires
        elems.len() > 0,
        forall|i: int| 0 <= i < elems.len() ==> wf_value(#[trigger] elems[i]),
        cursor_in(s, c),
        items_ok(s, c.pos, elems),
        bnd == ws_end(s, items_end(s, c.pos, elems)),
        bnd < s.len(),
        s[bnd] == ']',
    ensures
        sp_value_of(sp_array_items(s, c, acc)) == Some(SpecValue::Array(acc + elems)),
        sp_cursor_of(sp_array_items(s, c, acc)).pos == bnd + 1,
    decreases elems, 3int,
{
    lemma_ws_end(s, c.pos);
    let st = ws_end(s, c.pos);
    let e0 = frag_end(s, st, elems[0]);
    lemma_frag_bounds(s, st, elems[0]);
    lemma_ws_end(s, e0);
    if elems.len() == 1 {
        assert(items_end(s, c.pos, elems) == e0);
        lemma_wsr_parses_value(s, c, st, e0, bnd, elems[0]);
        let rv = sp_parse_value(s, c);
        let cv = sp_cursor_of(rv);
        lemma_skip_ws_is(s, cv, bnd);
        let cw = skip_ws(s, cv);
        assert(cur_ch(s, cw) == Some(']'));
        assert(sp_array_items(s, c, acc) == SpResult::Parsed(
            SpecValue::Array(acc.push(elems[0])),
            advanced(s, cw),
        ));
        assert(acc.push(elems[0]) =~= acc + elems);
    } else {
        let m = ws_end(s, e0);
        assert(s[m] == ',');
        lemma_wsr_parses_value(s, c, st, e0, m, elems[0]);
        let rv = sp_parse_value(s, c);
        let cv = sp_cursor_of(rv);
        lemma_skip_ws_is(s, cv, m);
        let cw = skip_ws(s, cv);
        assert(cur_ch(s, cw) == Some(','));
        let cn = advanced(s, cw);
        assert(cn.pos == m + 1);
        assert(items_end(s, c.pos, elems) == items_end(s, m + 1, elems.drop_first()));
        assert(forall|i: int|
            0 <= i < elems.drop_first().len() ==> wf_value(#[trigger] elems.drop_first()[i]));
        lemma_wsr_parses_items(s, cn, bnd, elems.drop_first(), acc.push(elems[0]));
        assert(sp_array_items(s, c, acc) == sp_array_items(s, cn, acc.push(elems[0])));
        assert(acc.push(elems[0]) + elems.drop_first() =~= acc + elems);
    }
}

/// Parsing is insensitive to whitespace in a non-empty entry list: the entry
/// loop inserts exactly the spelled entries — each key fresh, so each
/// insertion appends — and stops right after the closing brace at `bnd`.
#[verifier::rlimit(100)]
proof fn lemma_wsr_parses_entries(
    s: Seq<char>,
    c: Cursor,
    bnd: int,
    es: Seq<(Seq<char>, SpecValue)>,
    acc: Seq<(Seq<char>, SpecValue)>,
)
    requires
        es.len() > 0,
        keys_unique(es),
        forall|i: int| 0 <= i < es.len() ==> quote_free((#[trigger] es[i]).0) && wf_value(
            es[i].1,
        ),
        forall|i: int, j: int|
            0 <= i < es.len() && 0 <= j < acc.len() ==> (#[trigger] acc[j]).0 != (
            #[trigger] es[i]).0,
        cursor_in(s, c),
        entries_ok(s, c.pos, es),
        bnd == ws_end(s, entries_end(s, c.pos, es)),
        bnd < s.len(),
        s[bnd] == '}',
    ensures
        sp_value_of(sp_obj_items(s, c, acc)) == Some(SpecValue::Object(acc + es)),
        sp_cursor_of(sp_obj_items(s, c, acc)).pos == bnd + 1,
    decreases es, 3int,
{
    let k = es[0].0;
    let v0 = es[0].1;
    let kl = k.len() as int;
    lemma_ws_end(s, c.pos);
    let kst = ws_end(s, c.pos);
    let kend = kst + kl + 2;
    lemma_ws_end(s, kend);
    let m = ws_end(s, kend);
    lemma_ws_end(s, m + 1);
    let vst = ws_end(s, m + 1);
    let e0 = frag_end(s, vst, v0);
    lemma_frag_bounds(s, vst, v0);
    lemma_ws_end(s, e0);
    let quoted = seq!['"'] + k + seq!['"'];
    assert forall|i: int| 0 <= i < kl + 2 implies s[kst + i] == quoted[i] by {
        assert(s.subrange(kst, kend)[i] == s[kst + i]);
    }
    // The key string.
    assert(quoted[0] == '"');
    assert(s[kst] == '"');
    lemma_skip_ws_is(s, c, kst);
    let c0 = skip_ws(s, c);
    assert(c0.pos == kst);
    assert(cur_ch(s, c0) == Some('"'));
    assert forall|i: int| kst + 1 <= i < kst + 1 + kl implies #[trigger] s[i] != '"' by {
        assert(s[i] == quoted[i - kst]);
        assert(quoted[i - kst] == k[i - kst - 1]);
    }
    assert(s[kst + 1 + kl] == quoted[1 + kl]);
    assert(quoted[1 + kl] == '"');
    lemma_quote_end_is(s, kst + 1, kst + 1 + kl);
    let ck = advance_n(s, c0, (kl + 2) as nat);
    lemma_advance_n_pos(s, c0, (kl + 2) as nat);
    assert forall|i: int| 0 <= i < kl implies s.subrange(kst + 1, kst + 1 + kl)[i] == k[i] by {
        assert(s.subrange(kst + 1, kst + 1 + kl)[i] == s[kst + 1 + i]);
        assert(s[kst + 1 + i] == quoted[1 + i]);
        assert(quoted[1 + i] == k[i]);
    }
    assert(s.subrange(kst + 1, kst + 1 + kl) =~= k);
    assert(sp_parse_string(s, c0) == SpResult::Parsed(SpecValue::Str(k), ck));
    // The colon.
    lemma_skip_ws_is(s, ck, m);
    let cc = skip_ws(s, ck);
    assert(cc.pos == m);
    assert(cur_ch(s, cc) == Some(':'));
    lemma_skip_ws_noop(s, cc);
    let c3 = advanced(s, cc);
    assert(c3.pos == m + 1);
    // The value, then the insertion, which appends: the key is fresh.
    lemma_assoc_index_is(acc, k, acc.len() as int);
    assert(assoc_insert(acc, k, v0) == acc.push((k, v0)));
    assert((k, v0) == es[0]);
    if es.len() == 1 {
        assert(entries_end(s, c.pos, es) == e0);
        lemma_wsr_parses_value(s, c3, vst, e0, bnd, v0);
        let rv = sp_parse_value(s, c3);
        let cv = sp_cursor_of(rv);
        lemma_skip_ws_is(s, cv, bnd);
        let cw = skip_ws(s, cv);
        assert(cur_ch(s, cw) == Some('}'));
        assert(sp_obj_items(s, c, acc) == SpResult::Parsed(
            SpecValue::Object(acc.push(es[0])),
            advanced(s, cw),
        ));
        assert(acc.push(es[0]) =~= acc + es);
    } else {
        let w = ws_end(s, e0);
        assert(s[w] == ',');
        lemma_wsr_parses_value(s, c3, vst, e0, w, v0);
        let rv = sp_parse_value(s, c3);
        let cv = sp_cursor_of(rv);
        lemma_skip_ws_is(s, cv, w);
        let cw = skip_ws(s, cv);
        assert(cur_ch(s, cw) == Some(','));
        let cn = advanced(s, cw);
        assert(cn.pos == w + 1);
        assert(entries_end(s, c.pos, es) == entries_end(s, w + 1, es.drop_first()));
        let dd = es.drop_first();
        assert(forall|i: int| 0 <= i < dd.len() ==> dd[i] == es[i + 1]);
        let acc2 = acc.push(es[0]);
        assert forall|i: int, j: int|
            0 <= i < dd.len() && 0 <= j < acc2.len() implies (#[trigger] acc2[j]).0 != (
        #[trigger] dd[i]).0 by {
            assert(dd[i] == es[i + 1]);
            if j < acc.len() {
                assert(acc2[j] == acc[j]);
            } else {
                assert(acc2[j] == es[0]);
            }
        }
        lemma_wsr_parses_entries(s, cn, bnd, dd, acc2);
        assert(sp_obj_items(s, c, acc) == sp_obj_items(s, cn, acc2));
        assert(acc2 + dd =~= acc + es);
    }
}

/// Whitespace insensitivity of whole documents: any input that spells a
/// well-formed value with arbitrary whitespace runs between its structural
/// tokens, under arbitrary leading and trailing whitespace, parses to exactly
/// that value.
pub proof fn lemma_ws_insensitive(s: Seq<char>, a: int, b: int, v: SpecValue)
    requires
        wf_value(v),
        0 <= a <= b <= s.len(),
        all_ws(s, 0, a),
        ws_value(s, a, b, v),
        all_ws(s, b, s.len() as int),
    ensures
        sp_value_of(sp_parse(s)) == Some(v),
{
    let c = start_cursor(s);
    assert(c.pos == 0);
    lemma_wsr_parses_value(s, c, a, b, s.len() as int, v);
}

/// Round trip of structure: rendering a well-formed value and parsing the
/// rendering yields the value back.
pub proof fn lemma_render_round_trip(v: SpecValue)
    requires
        wf_value(v),
    ensures
        sp_value_of(sp_parse(sp_render(v))) == Some(v),
{
    let s = sp_render(v);
    let c = start_cursor(s);
    lemma_render_head(v);
    assert(c.pos == 0);
    assert(s.subrange(0, s.len() as int) =~= s);
    lemma_render_parses_value(s, c, v);
}

/// The full round trip: whatever the parser accepts, rendering the result
/// and parsing the rendering yields a value equal to the first result.
pub proof fn lemma_parse_render_parse(s: Seq<char>)
    ensures
        sp_value_of(sp_parse(s)) matches Some(v) ==> sp_value_of(sp_parse(sp_render(v)))
            == Some(v),
{
    lemma_parse_value_wf(s, start_cursor(s));
    match sp_value_of(sp_parse(s)) {
        Some(v) => lemma_render_round_trip(v),
        None => {},
    }
}

/// The literals `null`, `true` and `false` parse to exactly their value,
/// with no cursor side effect beyond their own characters.
pub proof fn lemma_parse_literal(s: Seq<char>, c: Cursor, v: SpecValue)
    requires
        v is Null || v is Bool,
        cursor_in(s, c),
        c.pos + sp_render(v).len() <= s.len(),
        s.subrange(c.pos, c.pos + sp_render(v).len()) == sp_render(v),
        stops_value(s, c.pos + sp_render(v).len()),
    ensures
        sp_value_of(sp_parse_value(s, c)) == Some(v),
        sp_cursor_of(sp_parse_value(s, c)).pos == c.pos + sp_render(v).len(),
{
    lemma_render_parses_value(s, c, v);
}

/// Whatever the value dispatch parses is well formed.
pub proof fn lemma_parse_value_wf(s: Seq<char>, c: Cursor)
    ensures
        sp_value_of(sp_parse_value(s, c)) matches Some(v) ==> wf_value(v),
    decreases s.len() - c.pos, 3int,
{
    let r1 = sp_parse_bool(s, c);
    let c1 = sp_cursor_of(r1);
    let r2 = sp_parse_string(s, c1);
    let c2 = sp_cursor_of(r2);
    let r3 = sp_parse_num(s, c2);
    let c3 = sp_cursor_of(r3);
    let r4 = sp_parse_null(s, c3);
    let c4 = sp_cursor_of(r4);
    lemma_parse_string_wf(s, c1);
    lemma_parse_num_wf(s, c2);
    if c.pos <= c4.pos <= s.len() {
        lemma_parse_array_wf(s, c4);
        let r5 = sp_parse_array(s, c4);
        let c5 = sp_cursor_of(r5);
        if c4.pos <= c5.pos <= s.len() {
            lemma_parse_object_wf(s, c5);
        }
    }
}

/// Whatever the string production parses is well formed: the payload stops at
/// the first quote, so it holds none.
proof fn lemma_parse_string_wf(s: Seq<char>, c: Cursor)
    ensures
        sp_value_of(sp_parse_string(s, c)) matches Some(v) ==> wf_value(v),
{
    let c0 = skip_ws(s, c);
    if cur_ch(s, c0) == Some('"') {
        lemma_quote_end(s, c0.pos + 1);
    }
}

/// Whatever the number production parses is well formed: the token passed the
/// float grammar and begins with a digit or `-`.
proof fn lemma_parse_num_wf(s: Seq<char>, c: Cursor)
    ensures
        sp_value_of(sp_parse_num(s, c)) matches Some(v) ==> wf_value(v),
{
    let c0 = skip_ws(s, c);
    match cur_ch(s, c0) {
        Some(ch) => if is_digit(ch) || ch == '-' {
            lemma_num_end(s, c0.pos);
        } else {
        },
        None => {},
    }
}

/// Whatever the array production parses is well formed.
proof fn lemma_parse_array_wf(s: Seq<char>, c: Cursor)
    ensures
        sp_value_of(sp_parse_array(s, c)) matches Some(v) ==> wf_value(v),
    decreases s.len() - c.pos, 1int,
{
    if cur_ch(s, c) == Some('[') {
        let c1 = advanced(s, c);
        let c2 = skip_ws(s, c1);
        if cur_ch(s, c2) == Some(']') {
        } else if c.pos < c2.pos <= s.len() {
            lemma_array_items_wf(s, c2, Seq::empty());
        }
    }
}

/// When every accumulated element is well formed, so is whatever the element
/// loop hands back.
proof fn lemma_array_items_wf(s: Seq<char>, c: Cursor, acc: Seq<SpecValue>)
    requires
        forall|i: int| 0 <= i < acc.len() ==> wf_value(#[trigger] acc[i]),
    ensures
        sp_value_of(sp_array_items(s, c, acc)) matches Some(v) ==> wf_value(v),
    decreases s.len() - c.pos, 4int,
{
    if 0 <= c.pos <= s.len() {
        lemma_parse_value_wf(s, c);
        let r = sp_parse_value(s, c);
        match r {
            SpResult::Failed(_, _) => {},
            SpResult::Parsed(v, cv) => {
                let acc2 = acc.push(v);
                assert(forall|i: int| 0 <= i < acc2.len() ==> wf_value(#[trigger] acc2[i]));
                let cw = skip_ws(s, cv);
                if c.pos < cw.pos <= s.len() {
                    if cur_ch(s, cw) == Some(',') {
                        lemma_array_items_wf(s, advanced(s, cw), acc2);
                    } else if cur_ch(s, cw) == Some(']') {
                    } else {
                        lemma_array_items_wf(s, cw, acc2);
                    }
                }
            },
        }
    }
}

/// Whatever the object production parses is well formed.
proof fn lemma_parse_object_wf(s: Seq<char>, c: Cursor)
    ensures
        sp_value_of(sp_parse_object(s, c)) matches Some(v) ==> wf_value(v),
    decreases s.len() - c.pos, 2int,
{
    if cur_ch(s, c) is None {
    } else {
        let c0 = skip_ws(s, c);
        if cur_ch(s, c0) == Some('{') {
            let c1 = advanced(s, c0);
            let c2 = skip_ws(s, c1);
            if cur_ch(s, c2) == Some('}') {
            } else if c.pos < c2.pos <= s.len() {
                lemma_obj_items_wf(s, c2, Seq::empty());
            }
        }
    }
}

/// When the accumulated entries are well formed with unique keys, so is
/// whatever the entry loop hands back.
proof fn lemma_obj_items_wf(s: Seq<char>, c: Cursor, acc: Seq<(Seq<char>, SpecValue)>)
    requires
        keys_unique(acc),
        forall|i: int| 0 <= i < acc.len() ==> quote_free((#[trigger] acc[i]).0) && wf_value(
            acc[i].1,
        ),
    ensures
        sp_value_of(sp_obj_items(s, c, acc)) matches Some(v) ==> wf_value(v),
    decreases s.len() - c.pos, 4int,
{
    if 0 <= c.pos <= s.len() {
        let c0 = skip_ws(s, c);
        let rk = sp_parse_string(s, c0);
        lemma_parse_string_wf(s, c0);
        match rk {
            SpResult::Failed(_, _) => {},
            SpResult::Parsed(key, ck) => {
                let kseq = key->Str_0;
                let cc = skip_ws(s, ck);
                if cur_ch(s, cc) == Some(':') {
                    let c3 = advanced(s, skip_ws(s, cc));
                    if c.pos <= c3.pos <= s.len() {
                        lemma_parse_value_wf(s, c3);
                        let rv = sp_parse_value(s, c3);
                        match rv {
                            SpResult::Failed(_, _) => {},
                            SpResult::Parsed(v, cv) => {
                                assert(quote_free(kseq));
                                lemma_insert_wf(acc, kseq, v);
                                let acc2 = assoc_insert(acc, kseq, v);
                                let cw = skip_ws(s, cv);
                                if c.pos < cw.pos <= s.len() {
                                    if cur_ch(s, cw) == Some(',') {
                                        lemma_obj_items_wf(s, advanced(s, cw), acc2);
                                    } else if cur_ch(s, cw) == Some('}') {
                                    } else {
                                        lemma_obj_items_wf(s, cw, acc2);
                                    }
                                }
                            },
                        }
                    }
                }
            },
        }
    }
}





} // verus!
