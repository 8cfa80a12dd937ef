//! The meaning of each grammar production, as functions from an input and a
//! cursor to a result and a new cursor.
//!
//! Every executable production is proved to return exactly what the
//! corresponding function here says, so quirks of the grammar live here in
//! full: a failed keyword match keeps what it already consumed; the value
//! dispatch runs every production and hands back the first success but the
//! last failure; a failing production can leave the cursor wherever it
//! stopped. The dispatch order is boolean, string, number, null, array,
//! object.
//!
//! The recursive productions carry cursor-sanity guards (`Failed` with
//! `ErrorCode::Other`) solely so that termination is evident from the text;
//! the executable parser's proofs show the guards never fire on any state it
//! reaches.

use vstd::prelude::*;
use crate::cursor::{
    Cursor, cur_ch, advanced, advance_n, skip_ws, sp_text, num_end, quote_end,
};
use crate::error::ErrorCode;
use crate::numtok::{is_digit, is_float_token};
use crate::value::{SpecValue, assoc_insert};

verus! {

/// What a production yields: a value, or a positioned failure; either way the
/// cursor it left behind.
pub enum SpResult {
    Parsed(SpecValue, Cursor),
    Failed(ErrorCode, Cursor),
}

/// The cursor a production left behind.
pub open spec fn sp_cursor_of(r: SpResult) -> Cursor {
    match r {
        SpResult::Parsed(_, c) => c,
        SpResult::Failed(_, c) => c,
    }
}

/// The value a production yielded, if it succeeded.
pub open spec fn sp_value_of(r: SpResult) -> Option<SpecValue> {
    match r {
        SpResult::Parsed(v, _) => Some(v),
        SpResult::Failed(_, _) => None,
    }
}

/// The start cursor over an input: the lookahead sits on the first character,
/// which has already been counted into the line/column bookkeeping.
pub open spec fn start_cursor(s: Seq<char>) -> Cursor {
    advanced(s, Cursor { pos: -1, line: 1, col: 0 })
}

/// The `null` production: match the keyword or fail with `ExpectedNull`.
pub open spec fn sp_parse_null(s: Seq<char>, c: Cursor) -> SpResult {
    let (m, c1) = sp_text(s, c, "null"@);
    if m {
        SpResult::Parsed(SpecValue::Null, c1)
    } else {
        SpResult::Failed(ErrorCode::ExpectedNull, c1)
    }
}

/// The boolean production: an `f` or `t` lookahead commits to the keyword,
/// and the keyword match is not even checked — a lookahead of `f` yields
/// `false` however much of `false` actually follows.
pub open spec fn sp_parse_bool(s: Seq<char>, c: Cursor) -> SpResult {
    let c0 = skip_ws(s, c);
    if cur_ch(s, c0) == Some('f') {
        let (m, c1) = sp_text(s, c0, "false"@);
        SpResult::Parsed(SpecValue::Bool(false), c1)
    } else if cur_ch(s, c0) == Some('t') {
        let (m, c1) = sp_text(s, c0, "true"@);
        SpResult::Parsed(SpecValue::Bool(true), c1)
    } else {
        SpResult::Failed(ErrorCode::ExpectedBool, c0)
    }
}

/// The number production: a digit or `-` lookahead commits; the maximal run
/// of numeric characters is consumed and kept as the token when the float
/// grammar accepts it.
pub open spec fn sp_parse_num(s: Seq<char>, c: Cursor) -> SpResult {
    let c0 = skip_ws(s, c);
    match cur_ch(s, c0) {
        Some(ch) => if is_digit(ch) || ch == '-' {
            let e = num_end(s, c0.pos);
            let tok = s.subrange(c0.pos, e);
            let c1 = advance_n(s, c0, (e - c0.pos) as nat);
            if is_float_token(tok) {
                SpResult::Parsed(SpecValue::Num(tok), c1)
            } else {
                SpResult::Failed(ErrorCode::NumberParsing, c1)
            }
        } else {
            SpResult::Failed(ErrorCode::NumberParsing, c0)
        },
        None => SpResult::Failed(ErrorCode::NumberParsing, c0),
    }
}

/// The string production: an opening quote, then everything up to the next
/// quote, taken verbatim — no escape handling. Without a closing quote the
/// cursor runs to the end of the input and the failure is positioned there.
pub open spec fn sp_parse_string(s: Seq<char>, c: Cursor) -> SpResult {
    let c0 = skip_ws(s, c);
    if cur_ch(s, c0) == Some('"') {
        let q = quote_end(s, c0.pos + 1);
        if q < s.len() {
            SpResult::Parsed(
                SpecValue::Str(s.subrange(c0.pos + 1, q)),
                advance_n(s, c0, (q + 1 - c0.pos) as nat),
            )
        } else {
            SpResult::Failed(
                ErrorCode::UnclosedStringLiteral,
                advance_n(s, c0, (s.len() - c0.pos) as nat),
            )
        }
    } else {
        SpResult::Failed(ErrorCode::UnclosedStringLiteral, c0)
    }
}

/// The value dispatch: every production runs, in the fixed order boolean,
/// string, number, null, array, object, each from wherever the previous one
/// left the cursor. The first success provides the value; when all fail, the
/// last failure is the result. Either way the cursor ends where the object
/// production left it.
pub open spec fn sp_parse_value(s: Seq<char>, c: Cursor) -> SpResult
    decreases s.len() - c.pos, 3int,
{
    let r1 = sp_parse_bool(s, c);
    let c1 = sp_cursor_of(r1);
    let r2 = sp_parse_string(s, c1);
    let c2 = sp_cursor_of(r2);
    let r3 = sp_parse_num(s, c2);
    let c3 = sp_cursor_of(r3);
    let r4 = sp_parse_null(s, c3);
    let c4 = sp_cursor_of(r4);
    if !(c.pos <= c4.pos <= s.len()) {
        SpResult::Failed(ErrorCode::Other, c4)
    } else {
        let r5 = sp_parse_array(s, c4);
        let c5 = sp_cursor_of(r5);
        if !(c4.pos <= c5.pos <= s.len()) {
            SpResult::Failed(ErrorCode::Other, c5)
        } else {
            let r6 = sp_parse_object(s, c5);
            let cfin = sp_cursor_of(r6);
            match sp_value_of(r1) {
                Some(v) => SpResult::Parsed(v, cfin),
                None => match sp_value_of(r2) {
                    Some(v) => SpResult::Parsed(v, cfin),
                    None => match sp_value_of(r3) {
                        Some(v) => SpResult::Parsed(v, cfin),
                        None => match sp_value_of(r4) {
                            Some(v) => SpResult::Parsed(v, cfin),
                            None => match sp_value_of(r5) {
                                Some(v) => SpResult::Parsed(v, cfin),
                                None => r6,
                            },
                        },
                    },
                },
            }
        }
    }
}

/// The array production: `[`, then either an immediate (possibly
/// whitespace-separated) `]` for the empty array, or a run of elements.
pub open spec fn sp_parse_array(s: Seq<char>, c: Cursor) -> SpResult
    decreases s.len() - c.pos, 1int,
{
    if cur_ch(s, c) == Some('[') {
        let c1 = advanced(s, c);
        let c2 = skip_ws(s, c1);
        if cur_ch(s, c2) == Some(']') {
            SpResult::Parsed(SpecValue::Array(Seq::empty()), advanced(s, c2))
        } else if !(c.pos < c2.pos <= s.len()) {
            SpResult::Failed(ErrorCode::Other, c2)
        } else {
            sp_array_items(s, c2, Seq::empty())
        }
    } else {
        SpResult::Failed(ErrorCode::UnclosedArray, c)
    }
}

/// One pass of the array element loop: a value, then whitespace, then `,` to
/// continue or `]` to finish; any other lookahead goes straight back to the
/// value dispatch.
pub open spec fn sp_array_items(s: Seq<char>, c: Cursor, acc: Seq<SpecValue>) -> SpResult
    decreases s.len() - c.pos, 4int,
{
    if !(0 <= c.pos <= s.len()) {
        SpResult::Failed(ErrorCode::Other, c)
    } else {
        let r = sp_parse_value(s, c);
        match r {
            SpResult::Failed(code, ce) => SpResult::Failed(code, ce),
            SpResult::Parsed(v, c1) => {
                let acc2 = acc.push(v);
                let c2 = skip_ws(s, c1);
                if !(c.pos < c2.pos <= s.len()) {
                    SpResult::Failed(ErrorCode::Other, c2)
                } else if cur_ch(s, c2) == Some(',') {
                    sp_array_items(s, advanced(s, c2), acc2)
                } else if cur_ch(s, c2) == Some(']') {
                    SpResult::Parsed(SpecValue::Array(acc2), advanced(s, c2))
                } else {
                    sp_array_items(s, c2, acc2)
                }
            },
        }
    }
}

/// The object production: an end-of-input check first (a distinct `EndOfFile`
/// failure), then `{`, then either an immediate (possibly
/// whitespace-separated) `}` for the empty object, or a run of entries.
pub open spec fn sp_parse_object(s: Seq<char>, c: Cursor) -> SpResult
    decreases s.len() - c.pos, 2int,
{
    if cur_ch(s, c) is None {
        SpResult::Failed(ErrorCode::EndOfFile, c)
    } else {
        let c0 = skip_ws(s, c);
        if cur_ch(s, c0) == Some('{') {
            let c1 = advanced(s, c0);
            let c2 = skip_ws(s, c1);
            if cur_ch(s, c2) == Some('}') {
                SpResult::Parsed(SpecValue::Object(Seq::empty()), advanced(s, c2))
            } else if !(c.pos < c2.pos <= s.len()) {
                SpResult::Failed(ErrorCode::Other, c2)
            } else {
                sp_obj_items(s, c2, Seq::empty())
            }
        } else {
            SpResult::Failed(ErrorCode::UnclosedObject, c0)
        }
    }
}

/// One pass of the object entry loop: a string key, a colon, a value —
/// inserted with the last write winning — then whitespace, then `,` to
/// continue or `}` to finish; any other lookahead loops back to the key.
pub open spec fn sp_obj_items(
    s: Seq<char>,
    c: Cursor,
    acc: Seq<(Seq<char>, SpecValue)>,
) -> SpResult
    decreases s.len() - c.pos, 4int,
{
    if !(0 <= c.pos <= s.len()) {
        SpResult::Failed(ErrorCode::Other, c)
    } else {
        let c0 = skip_ws(s, c);
        let rk = sp_parse_string(s, c0);
        match rk {
            SpResult::Failed(code, ce) => SpResult::Failed(code, ce),
            SpResult::Parsed(key, c1) => {
                let kseq = key->Str_0;
                let c2 = skip_ws(s, c1);
                if cur_ch(s, c2) != Some(':') {
                    SpResult::Failed(ErrorCode::ExpectedColon, c2)
                } else {
                    let c3 = advanced(s, skip_ws(s, c2));
                    if !(c.pos <= c3.pos <= s.len()) {
                        SpResult::Failed(ErrorCode::Other, c3)
                    } else {
                        let rv = sp_parse_value(s, c3);
                        match rv {
                            SpResult::Failed(code, ce) => SpResult::Failed(code, ce),
                            SpResult::Parsed(v, c4) => {
                                let acc2 = assoc_insert(acc, kseq, v);
                                let c5 = skip_ws(s, c4);
                                if !(c.pos < c5.pos <= s.len()) {
                                    SpResult::Failed(ErrorCode::Other, c5)
                                } else if cur_ch(s, c5) == Some(',') {
                                    sp_obj_items(s, advanced(s, c5), acc2)
                                } else if cur_ch(s, c5) == Some('}') {
                                    SpResult::Parsed(
                                        SpecValue::Object(acc2),
                                        advanced(s, c5),
                                    )
                                } else {
                                    sp_obj_items(s, c5, acc2)
                                }
                            },
                        }
                    }
                }
            },
        }
    }
}

/// The whole-input parse: the value dispatch once, from the start cursor.
/// Trailing input after the first value is ignored.
pub open spec fn sp_parse(s: Seq<char>) -> SpResult {
    sp_parse_value(s, start_cursor(s))
}

} // verus!
