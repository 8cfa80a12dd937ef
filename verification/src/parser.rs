//! The parser engine: a single-pass recursive-descent reader over a character
//! buffer, proved to behave exactly as the productions in [`crate::semantics`]
//! say.

use vstd::prelude::*;
use crate::cursor::{
    Cursor, cur_ch, advanced, advance_n, skip_ws, sp_text, sp_match, is_num_char, num_end,
    quote_end, is_ws, lemma_skip_ws_bounds, lemma_sp_match_bounds, lemma_num_end,
    lemma_num_end_is, lemma_quote_end_is, lemma_advance_n_pos, lemma_advance_n_add,
};
use crate::error::{ErrorCode, JsonError};
use crate::numtok::{is_digit, check_float_token};
use crate::semantics::{
    SpResult, start_cursor, sp_parse_null, sp_parse_bool, sp_parse_num, sp_parse_string,
    sp_parse_value, sp_parse_array, sp_array_items, sp_parse_object, sp_obj_items,
};
use crate::value::{
    JsonValue, SpecValue, seq_view, entries_view, assoc_insert, push_char, str_eq,
    lemma_assoc_index_is, lemma_seq_view_push, lemma_entries_view_push, lemma_entries_view_update,
};

verus! {

/// Result of most parsing operations: a value, or a positioned error.
pub type JsonResult = Result<JsonValue, JsonError>;

/// The parser holds the decoded input, the lookahead position, line/column
/// bookkeeping, and the lookahead character itself.
pub struct JsonParser {
    input: Vec<char>,
    pos: usize,
    line: usize,
    col: usize,
    ch: Option<char>,
}

/// Does the exec outcome `r`, together with the cursor `post` the parser was
/// left at, carry out what the production `sp` says?
pub open spec fn matches_sp(sp: SpResult, r: JsonResult, post: Cursor) -> bool {
    match sp {
        SpResult::Parsed(v, c) => (match r {
            Ok(jv) => jv@ == v,
            Err(_) => false,
        }) && post == c,
        SpResult::Failed(code, c) => (match r {
            Ok(_) => false,
            Err(e) => e.reason == code && e.line == c.line && e.col == c.col,
        }) && post == c,
    }
}

impl JsonParser {
    /// The input under the cursor.
    pub closed spec fn text(&self) -> Seq<char> {
        self.input@
    }

    /// The cursor: lookahead position and line/column bookkeeping.
    pub closed spec fn cur(&self) -> Cursor {
        Cursor { pos: self.pos as int, line: self.line as int, col: self.col as int }
    }

    /// The parser's invariant: the cursor sits in the input, the line/column
    /// counters are bounded by how far it has come, and the stored lookahead
    /// is the character under the cursor.
    pub closed spec fn wf(&self) -> bool {
        &&& self.pos <= self.input.len()
        &&& self.input.len() <= usize::MAX - 2
        &&& self.col <= self.pos + 1
        &&& self.line <= self.pos + 2
        &&& self.ch == cur_ch(self.input@, self.cur())
    }

    /// A parser over the given characters, with the lookahead on the first
    /// one. The length bound keeps the line/column counters from overflowing.
    pub fn new(input: Vec<char>) -> (parser: JsonParser)
        requires
            input.len() <= usize::MAX - 2,
        ensures
            parser.wf(),
            parser.text() == input@,
            parser.cur() == start_cursor(input@),
    {
        let mut parser = JsonParser { input, line: 1, col: 0, ch: None, pos: 0 };
        if parser.input.len() > 0 {
            let c = parser.input[0];
            parser.ch = Some(c);
            if c == '\n' {
                parser.line = 2;
                parser.col = 1;
            } else {
                parser.col = 1;
            }
        } else {
            parser.col = 1;
        }
        parser
    }

    /// An error carrying the given reason and the cursor's position.
    fn error(&self, reason: ErrorCode) -> (r: JsonResult)
        ensures
            r matches Err(e) && e == (JsonError {
                reason,
                line: self.cur().line as usize,
                col: self.cur().col as usize,
            }),
            r matches Err(e) && e.line == self.cur().line && e.col == self.cur().col
                && e.reason == reason,
    {
        Err(JsonError { reason, line: self.line, col: self.col })
    }

    /// Advances the cursor by one character and returns the new lookahead
    /// (NUL at end of input).
    fn consume_char(&mut self) -> (r: char)
        requires
            old(self).wf(),
            old(self).cur().pos < old(self).text().len(),
        ensures
            final(self).wf(),
            final(self).text() == old(self).text(),
            final(self).cur() == advanced(old(self).text(), old(self).cur()),
            r == (match cur_ch(final(self).text(), final(self).cur()) {
                Some(c) => c,
                None => '\x00',
            }),
    {
        self.pos = self.pos + 1;
        if self.pos < self.input.len() {
            let c = self.input[self.pos];
            self.ch = Some(c);
            if c == '\n' {
                self.line = self.line + 1;
                self.col = 1;
            } else {
                self.col = self.col + 1;
            }
            c
        } else {
            self.ch = None;
            self.col = self.col + 1;
            '\x00'
        }
    }

    /// Is the lookahead equal to `c`?
    fn ch_is(&self, c: char) -> (r: bool)
        requires
            self.wf(),
        ensures
            r == (cur_ch(self.text(), self.cur()) == Some(c)),
    {
        match self.ch {
            Some(d) => d == c,
            None => false,
        }
    }

    /// Is the cursor past the last character?
    fn eof(&self) -> (r: bool)
        requires
            self.wf(),
        ensures
            r == (cur_ch(self.text(), self.cur()) is None),
    {
        self.ch.is_none()
    }

    /// Is the lookahead a decimal digit?
    fn ch_is_digit(&self) -> (r: bool)
        requires
            self.wf(),
        ensures
            r == (cur_ch(self.text(), self.cur()) matches Some(d) && is_digit(d)),
    {
        match self.ch {
            Some(d) => d >= '0' && d <= '9',
            None => false,
        }
    }

    /// Is the lookahead one of the four whitespace characters?
    fn ch_is_whitespace(&self) -> (r: bool)
        requires
            self.wf(),
        ensures
            r == (cur_ch(self.text(), self.cur()) matches Some(d) && is_ws(d)),
    {
        self.ch_is(' ') || self.ch_is('\n') || self.ch_is('\t') || self.ch_is('\r')
    }

    /// Consumes the maximal whitespace run at the lookahead.
    fn consume_whitespace(&mut self)
        requires
            old(self).wf(),
        ensures
            final(self).wf(),
            final(self).text() == old(self).text(),
            final(self).cur() == skip_ws(old(self).text(), old(self).cur()),
            old(self).cur().pos <= final(self).cur().pos <= final(self).text().len(),
    {
        while self.ch_is_whitespace()
            invariant
                self.wf(),
                self.text() == old(self).text(),
                old(self).cur().pos <= self.cur().pos <= self.text().len(),
                skip_ws(self.text(), self.cur()) == skip_ws(old(self).text(), old(self).cur()),
            decreases self.text().len() - self.cur().pos,
        {
            self.consume_char();
        }
    }

    /// Advances over the given text when it sits at the lookahead (after
    /// whitespace), handing back a copy of what it matched; a partial match
    /// stays consumed and yields `None`.
    fn consume_text(&mut self, text: &str) -> (r: Option<String>)
        requires
            old(self).wf(),
        ensures
            final(self).wf(),
            final(self).text() == old(self).text(),
            ({
                let (m, c2) = sp_text(old(self).text(), old(self).cur(), text@);
                &&& final(self).cur() == c2
                &&& r is Some <==> m
                &&& (r matches Some(b) ==> b@ == text@)
            }),
            old(self).cur().pos <= final(self).cur().pos <= final(self).text().len(),
    {
        let ghost s = self.text();
        let mut buf = String::new();
        self.consume_whitespace();
        let ghost c1 = self.cur();
        let n = text.unicode_len();
        proof {
            assert(text@.skip(0) =~= text@);
            assert(text@.take(0) =~= buf@);
        }
        let mut i: usize = 0;
        while i < n
            invariant
                self.wf(),
                self.text() == s,
                s == old(self).text(),
                n == text@.len(),
                0 <= i <= n,
                c1 == skip_ws(s, old(self).cur()),
                old(self).cur().pos <= c1.pos <= self.cur().pos <= s.len(),
                buf@ == text@.take(i as int),
                sp_match(s, c1, text@) == sp_match(s, self.cur(), text@.skip(i as int)),
            decreases n - i,
        {
            let c = text.get_char(i);
            proof {
                assert(text@.skip(i as int)[0] == c);
            }
            if !self.ch_is(c) {
                proof {
                    assert(sp_match(s, self.cur(), text@.skip(i as int)) == (false, self.cur()));
                }
                return None;
            }
            self.consume_char();
            push_char(&mut buf, c);
            i += 1;
            proof {
                assert(text@.skip(i - 1).drop_first() =~= text@.skip(i as int));
                assert(buf@ =~= text@.take(i as int));
            }
        }
        proof {
            assert(text@.skip(n as int).len() == 0);
            assert(sp_match(s, self.cur(), text@.skip(n as int)) == (true, self.cur()));
            assert(buf@ =~= text@);
        }
        self.consume_whitespace();
        Some(buf)
    }

    /// Consumes a numeric literal: whitespace, then the maximal run of
    /// numeric characters, returned as text.
    fn consume_num(&mut self) -> (r: String)
        requires
            old(self).wf(),
        ensures
            final(self).wf(),
            final(self).text() == old(self).text(),
            ({
                let s = old(self).text();
                let c0 = skip_ws(s, old(self).cur());
                let e = num_end(s, c0.pos);
                &&& r@ == s.subrange(c0.pos, e)
                &&& final(self).cur() == advance_n(s, c0, (e - c0.pos) as nat)
            }),
            old(self).cur().pos <= final(self).cur().pos <= final(self).text().len(),
    {
        let ghost s = self.text();
        let mut result = String::new();
        self.consume_whitespace();
        let ghost c0 = self.cur();
        while self.ch_is_digit() || self.ch_is('.') || self.ch_is('e') || self.ch_is('E')
            || self.ch_is('E') || self.ch_is('-') || self.ch_is('+')
            invariant
                self.wf(),
                self.text() == s,
                s == old(self).text(),
                c0 == skip_ws(s, old(self).cur()),
                old(self).cur().pos <= c0.pos <= self.cur().pos <= s.len(),
                forall|j: int| c0.pos <= j < self.cur().pos ==> is_num_char(#[trigger] s[j]),
                result@ == s.subrange(c0.pos, self.cur().pos),
                self.cur() == advance_n(s, c0, (self.cur().pos - c0.pos) as nat),
            decreases s.len() - self.cur().pos,
        {
            let ghost pre = self.cur();
            let c = self.ch.unwrap();
            push_char(&mut result, c);
            self.consume_char();
            proof {
                lemma_advance_n_add(s, c0, (pre.pos - c0.pos) as nat, 1);
                assert(advance_n(s, advanced(s, pre), 0) == advanced(s, pre));
                assert(advance_n(s, pre, 1) == advanced(s, pre));
                assert(result@ =~= s.subrange(c0.pos, self.cur().pos));
            }
        }
        proof {
            lemma_num_end_is(s, c0.pos, self.cur().pos);
        }
        result
    }

    /// Parses the JSON `null` keyword.
    pub fn parse_null(&mut self) -> (r: JsonResult)
        requires
            old(self).wf(),
        ensures
            final(self).wf(),
            final(self).text() == old(self).text(),
            old(self).cur().pos <= final(self).cur().pos <= final(self).text().len(),
            matches_sp(sp_parse_null(old(self).text(), old(self).cur()), r, final(self).cur()),
            r is Ok ==> old(self).cur().pos < final(self).cur().pos,
    {
        let ghost s = self.text();
        let ghost c = self.cur();
        let m = self.consume_text("null");
        proof {
            reveal_strlit("null");
            lemma_skip_ws_bounds(s, c);
            lemma_sp_match_bounds(s, skip_ws(s, c), "null"@);
            lemma_skip_ws_bounds(s, sp_match(s, skip_ws(s, c), "null"@).1);
        }
        match m {
            Some(_) => Ok(JsonValue::Null),
            None => self.error(ErrorCode::ExpectedNull),
        }
    }

    /// Parses a JSON boolean. A lookahead of `f` or `t` commits to the
    /// keyword without checking that it is complete.
    pub fn parse_bool(&mut self) -> (r: JsonResult)
        requires
            old(self).wf(),
        ensures
            final(self).wf(),
            final(self).text() == old(self).text(),
            old(self).cur().pos <= final(self).cur().pos <= final(self).text().len(),
            matches_sp(sp_parse_bool(old(self).text(), old(self).cur()), r, final(self).cur()),
            r is Ok ==> old(self).cur().pos < final(self).cur().pos,
    {
        let ghost s = self.text();
        let ghost c = self.cur();
        self.consume_whitespace();
        let ghost c0 = self.cur();
        if self.ch_is('f') {
            let _ = self.consume_text("false");
            proof {
                reveal_strlit("false");
                lemma_sp_match_bounds(s, c0, "false"@);
                lemma_sp_match_bounds(s, advanced(s, c0), "false"@.drop_first());
                lemma_skip_ws_bounds(s, sp_match(s, c0, "false"@).1);
            }
            Ok(JsonValue::Bool(false))
        } else if self.ch_is('t') {
            let _ = self.consume_text("true");
            proof {
                reveal_strlit("true");
                lemma_sp_match_bounds(s, c0, "true"@);
                lemma_sp_match_bounds(s, advanced(s, c0), "true"@.drop_first());
                lemma_skip_ws_bounds(s, sp_match(s, c0, "true"@).1);
            }
            Ok(JsonValue::Bool(true))
        } else {
            self.error(ErrorCode::ExpectedBool)
        }
    }

    /// Parses a JSON number: a digit or `-` lookahead commits, the maximal
    /// numeric-character run is taken, and the token is kept when the float
    /// grammar accepts it.
    pub fn parse_num(&mut self) -> (r: JsonResult)
        requires
            old(self).wf(),
        ensures
            final(self).wf(),
            final(self).text() == old(self).text(),
            old(self).cur().pos <= final(self).cur().pos <= final(self).text().len(),
            matches_sp(sp_parse_num(old(self).text(), old(self).cur()), r, final(self).cur()),
            r is Ok ==> old(self).cur().pos < final(self).cur().pos,
    {
        let ghost s = self.text();
        let ghost c = self.cur();
        self.consume_whitespace();
        let ghost c0 = self.cur();
        if self.ch_is_digit() || self.ch_is('-') {
            let num_str = self.consume_num();
            proof {
                lemma_num_end(s, c0.pos);
                lemma_advance_n_pos(s, c0, (num_end(s, c0.pos) - c0.pos) as nat);
            }
            if check_float_token(num_str.as_str()) {
                Ok(JsonValue::Num(num_str))
            } else {
                self.error(ErrorCode::NumberParsing)
            }
        } else {
            self.error(ErrorCode::NumberParsing)
        }
    }

    /// Parses a JSON string value: an opening quote, then everything up to
    /// the next quote, verbatim — no escape handling.
    #[verifier::loop_isolation(false)]
    pub fn parse_string(&mut self) -> (r: JsonResult)
        requires
            old(self).wf(),
        ensures
            final(self).wf(),
            final(self).text() == old(self).text(),
            old(self).cur().pos <= final(self).cur().pos <= final(self).text().len(),
            matches_sp(sp_parse_string(old(self).text(), old(self).cur()), r, final(self).cur()),
            r is Ok ==> old(self).cur().pos < final(self).cur().pos,
    {
        let ghost s = self.text();
        let ghost c = self.cur();
        self.consume_whitespace();
        let ghost c0 = self.cur();
        if self.ch_is('"') {
            self.consume_char();
            let ghost c1 = self.cur();
            let mut found_end = false;
            let mut sbuf = String::new();
            proof {
                assert(sbuf@ =~= s.subrange(c1.pos, c1.pos));
                assert(advance_n(s, advanced(s, c0), 0) == advanced(s, c0));
                assert(advance_n(s, c0, 1) == c1);
            }
            while !self.eof()
                invariant
                    self.wf(),
                    self.text() == s,
                    s == old(self).text(),
                    c0.pos < c1.pos <= self.cur().pos <= s.len(),
                    c1 == advanced(s, c0),
                    !found_end ==> sbuf@ == s.subrange(c1.pos, self.cur().pos),
                    !found_end ==> forall|j: int| c1.pos <= j < self.cur().pos
                        ==> #[trigger] s[j] != '"',
                    !found_end ==> self.cur() == advance_n(
                        s,
                        c0,
                        (self.cur().pos - c0.pos) as nat,
                    ),
                    found_end ==> ({
                        let q = quote_end(s, c1.pos);
                        &&& q < s.len()
                        &&& sbuf@ == s.subrange(c1.pos, q)
                        &&& self.cur() == advance_n(s, c0, (q + 1 - c0.pos) as nat)
                    }),
                decreases s.len() - self.cur().pos + (if found_end { 0int } else { 1int }),
            {
                if found_end {
                    // The closing quote was just consumed; leave the loop.
                    break;
                }
                let ghost pre = self.cur();
                if self.ch_is('"') {
                    found_end = true;
                    self.consume_char();
                    proof {
                        lemma_quote_end_is(s, c1.pos, pre.pos);
                        lemma_advance_n_add(s, c0, (pre.pos - c0.pos) as nat, 1);
                        assert(advance_n(s, advanced(s, pre), 0) == advanced(s, pre));
                        assert(advance_n(s, pre, 1) == advanced(s, pre));
                    }
                } else {
                    let d = self.ch.unwrap();
                    push_char(&mut sbuf, d);
                    self.consume_char();
                    proof {
                        lemma_advance_n_add(s, c0, (pre.pos - c0.pos) as nat, 1);
                        assert(advance_n(s, advanced(s, pre), 0) == advanced(s, pre));
                        assert(advance_n(s, pre, 1) == advanced(s, pre));
                        assert(sbuf@ =~= s.subrange(c1.pos, self.cur().pos));
                    }
                }
            }
            if found_end {
                Ok(JsonValue::Str(sbuf))
            } else {
                proof {
                    lemma_quote_end_is(s, c1.pos, self.cur().pos);
                }
                self.error(ErrorCode::UnclosedStringLiteral)
            }
        } else {
            self.error(ErrorCode::UnclosedStringLiteral)
        }
    }

    /// Parses any JSON value. Every production runs, in the fixed order
    /// boolean, string, number, null, array, object, each from wherever the
    /// previous one left the cursor; the first success provides the value,
    /// and when all fail the most recent failure is returned (not necessarily
    /// the most diagnostic one).
    pub fn parse_value(&mut self) -> (r: JsonResult)
        requires
            old(self).wf(),
        ensures
            final(self).wf(),
            final(self).text() == old(self).text(),
            old(self).cur().pos <= final(self).cur().pos <= final(self).text().len(),
            matches_sp(sp_parse_value(old(self).text(), old(self).cur()), r, final(self).cur()),
            r is Ok ==> old(self).cur().pos < final(self).cur().pos,
        decreases old(self).text().len() - old(self).cur().pos, 3int,
    {
        let ghost s = self.text();
        let ghost c = self.cur();
        let r1 = self.parse_bool();
        let r2 = self.parse_string();
        let r3 = self.parse_num();
        let r4 = self.parse_null();
        let r5 = self.parse_array();
        let r6 = self.parse_object();
        if r1.is_ok() {
            r1
        } else if r2.is_ok() {
            r2
        } else if r3.is_ok() {
            r3
        } else if r4.is_ok() {
            r4
        } else if r5.is_ok() {
            r5
        } else {
            r6
        }
    }

    /// Parses a JSON array of values, such as `[true, false, 1, "hello"]`.
    /// After an element, a comma continues the array and `]` closes it; any
    /// other lookahead goes straight back to the value dispatch.
    #[verifier::loop_isolation(false)]
    pub fn parse_array(&mut self) -> (r: JsonResult)
        requires
            old(self).wf(),
        ensures
            final(self).wf(),
            final(self).text() == old(self).text(),
            old(self).cur().pos <= final(self).cur().pos <= final(self).text().len(),
            matches_sp(sp_parse_array(old(self).text(), old(self).cur()), r, final(self).cur()),
            r is Ok ==> old(self).cur().pos < final(self).cur().pos,
        decreases old(self).text().len() - old(self).cur().pos, 1int,
    {
        let ghost s = self.text();
        let ghost c = self.cur();
        if self.ch_is('[') {
            // Consume the opening bracket.
            self.consume_char();
            self.consume_whitespace();
            if self.ch_is(']') {
                self.consume_char();
                let empty_elems: Vec<JsonValue> = Vec::new();
                proof {
                    assert(seq_view(empty_elems@) =~= Seq::<SpecValue>::empty());
                }
                return Ok(JsonValue::Array(empty_elems));
            }
            let ghost centry = self.cur();
            let ghost target = sp_array_items(s, centry, Seq::<SpecValue>::empty());
            let mut array: Vec<JsonValue> = Vec::new();
            proof {
                assert(seq_view(array@) =~= Seq::<SpecValue>::empty());
            }
            loop
                invariant
                    self.wf(),
                    self.text() == s,
                    centry.pos <= self.cur().pos <= s.len(),
                    c.pos < self.cur().pos,
                    sp_array_items(s, self.cur(), seq_view(array@)) == target,
                decreases s.len() - self.cur().pos,
            {
                let ghost citer = self.cur();
                let ghost acc = seq_view(array@);
                let value = self.parse_value();
                match value {
                    Ok(v) => {
                        proof {
                            lemma_seq_view_push(array@, v);
                        }
                        array.push(v);
                    },
                    Err(e) => {
                        return Err(e);
                    },
                }
                self.consume_whitespace();
                // Continue with the next value in the array.
                if self.ch_is(',') {
                    self.consume_char();
                } else if self.ch_is(']') {
                    // Reached the end of the array; return it.
                    self.consume_char();
                    return Ok(JsonValue::Array(array));
                }
            }
        } else {
            self.error(ErrorCode::UnclosedArray)
        }
    }

    /// Parses a JSON object, such as `{"key": [1, 2, 3]}`. Keys are string
    /// values, a duplicate key overwrites the earlier value, and end of input
    /// at the very start is a distinct `EndOfFile` failure.
    #[verifier::loop_isolation(false)]
    pub fn parse_object(&mut self) -> (r: JsonResult)
        requires
            old(self).wf(),
        ensures
            final(self).wf(),
            final(self).text() == old(self).text(),
            old(self).cur().pos <= final(self).cur().pos <= final(self).text().len(),
            matches_sp(sp_parse_object(old(self).text(), old(self).cur()), r, final(self).cur()),
            r is Ok ==> old(self).cur().pos < final(self).cur().pos,
        decreases old(self).text().len() - old(self).cur().pos, 2int,
    {
        let ghost s = self.text();
        let ghost c = self.cur();
        if self.eof() {
            return self.error(ErrorCode::EndOfFile);
        }
        self.consume_whitespace();
        if self.ch_is('{') {
            self.consume_char();
            self.consume_whitespace();
            if self.ch_is('}') {
                self.consume_char();
                let empty_entries: Vec<(String, JsonValue)> = Vec::new();
                proof {
                    assert(entries_view(empty_entries@) =~= Seq::<(Seq<char>, SpecValue)>::empty());
                }
                return Ok(JsonValue::Object(empty_entries));
            }
            let ghost centry = self.cur();
            let ghost target = sp_obj_items(s, centry, Seq::<(Seq<char>, SpecValue)>::empty());
            let mut object: Vec<(String, JsonValue)> = Vec::new();
            proof {
                assert(entries_view(object@) =~= Seq::<(Seq<char>, SpecValue)>::empty());
            }
            loop
                invariant
                    self.wf(),
                    self.text() == s,
                    centry.pos <= self.cur().pos <= s.len(),
                    c.pos < self.cur().pos,
                    sp_obj_items(s, self.cur(), entries_view(object@)) == target,
                decreases s.len() - self.cur().pos,
            {
                let ghost citer = self.cur();
                let ghost acc = entries_view(object@);
                self.consume_whitespace();
                // The key is always a string value.
                let key = self.parse_string();
                let key_string = match key {
                    Ok(kv) => kv.into_string().unwrap(),
                    Err(e) => {
                        return Err(e);
                    },
                };
                self.consume_whitespace();
                // The separating colon between key and value.
                if !self.ch_is(':') {
                    return self.error(ErrorCode::ExpectedColon);
                }
                self.consume_whitespace();
                self.consume_char();
                // Parse any value.
                let value = self.parse_value();
                match value {
                    Ok(v) => insert_entry(&mut object, key_string, v),
                    Err(e) => {
                        return Err(e);
                    },
                }
                self.consume_whitespace();
                // Continue with the next entry.
                if self.ch_is(',') {
                    self.consume_char();
                } else if self.ch_is('}') {
                    // End of the current object.
                    self.consume_char();
                    return Ok(JsonValue::Object(object));
                }
            }
        } else {
            self.error(ErrorCode::UnclosedObject)
        }
    }

    /// Parses the first JSON value of the input. Whatever follows it is
    /// ignored.
    pub fn parse(&mut self) -> (r: JsonResult)
        requires
            old(self).wf(),
        ensures
            final(self).wf(),
            final(self).text() == old(self).text(),
            old(self).cur().pos <= final(self).cur().pos <= final(self).text().len(),
            matches_sp(sp_parse_value(old(self).text(), old(self).cur()), r, final(self).cur()),
    {
        self.parse_value()
    }
}

/// Puts an entry into an entry vector with the last write winning: a present
/// key keeps its place (and the key text it was first written with) while its value is
/// replaced; an absent key appends a new entry.
#[verifier::loop_isolation(false)]
fn insert_entry(es: &mut Vec<(String, JsonValue)>, k: String, v: JsonValue)
    ensures
        entries_view(final(es)@) == assoc_insert(entries_view(old(es)@), k@, v@),
{
    let ghost esv = entries_view(es@);
    let n = es.len();
    let mut i: usize = 0;
    while i < n
        invariant
            n == es.len(),
            0 <= i <= n,
            esv == entries_view(es@),
            forall|j: int| 0 <= j < i ==> (#[trigger] esv[j]).0 != k@,
        decreases n - i,
    {
        if str_eq(es[i].0.as_str(), k.as_str()) {
            proof {
                lemma_assoc_index_is(esv, k@, i as int);
                lemma_entries_view_update(es@, i as int, k, v);
                assert(entries_view(es@).update(i as int, (k@, v@)) =~= assoc_insert(
                    esv,
                    k@,
                    v@,
                ));
            }
            es[i] = (k, v);
            return;
        }
        i += 1;
    }
    proof {
        lemma_assoc_index_is(esv, k@, n as int);
        lemma_entries_view_push(es@, k, v);
    }
    es.push((k, v));
}

} // verus!
