//! The recursive-descent parser, verified against the model in [`crate::model`].
//!
//! Every method's contract states that it computes exactly the corresponding
//! model function of the scan state, and every loop and recursion carries a
//! `decreases` measure, so a parse terminates on every input.

use vstd::prelude::*;
use vstd::string::StrSliceExecFns;
use vstd::string::StringExecFns;
use crate::model::SpecState;
use crate::model::SpecValue;
use crate::model::init_state;
use crate::model::is_delim;
use crate::model::is_digit;
use crate::model::is_value_start;
use crate::model::is_ws;
use crate::model::unescape;
use crate::model::trim;
use crate::model::classify_text;
use crate::model::num_literal;
use crate::model::dec_val;
use crate::model::trim_start;
use crate::model::trim_end;
use crate::model::lemma_dec_val_nonneg;
use crate::model::lemma_dec_val_step;
use crate::model::lemma_dec_val_grows;
use crate::model::s_skip_hws;
use crate::model::s_skip_line;
use crate::model::s_skip_wsc;
use crate::model::s_ident_run;
use crate::model::s_string;
use crate::model::s_string_body;
use crate::model::s_ident;
use crate::model::s_key;
use crate::model::s_digits;
use crate::model::s_numeric;
use crate::model::s_line_run;
use crate::model::s_tuple_text_run;
use crate::model::s_tuple_text;
use crate::model::s_require_nl;
use crate::model::s_synchronize;
use crate::model::s_value;
use crate::model::s_tuple;
use crate::model::s_tuple_items;
use crate::model::s_array_items;
use crate::model::s_field_value;
use crate::model::s_kv_step;
use crate::model::s_struct_items;
use crate::model::s_root_items;
use crate::model::s_parse_doc;
use crate::model::entries_unique;
use crate::model::lemma_skip_wsc_idem;
use crate::model::lemma_skip_line_evolves;
use crate::laws::entries_values_unique;
use crate::laws::lemma_s_root_items_deep_unique;
use crate::laws::lemma_s_struct_items_deep_unique;
use crate::value::ErrorKind;
use crate::value::ParseError;
use crate::value::Struct;
use crate::value::Value;
use crate::value::view_error;
use crate::value::view_errors;
use crate::value::view_kind;
use crate::value::view_value;
use crate::value::view_values;
use crate::value::lemma_view_values_push;

verus! {

/// Relies on std's `String::push`: appends the given character to the end
/// of the string.
pub assume_specification[ String::push ](s: &mut String, c: char)
    ensures
        final(s)@ == old(s)@.push(c),
;

/// A parser over a fixed text buffer. Construct it once with [`Parser::new`],
/// run [`Parser::parse`] once, then inspect [`Parser::errors`].
pub struct Parser {
    input: Vec<char>,
    pos: usize,
    line: usize,
    column: usize,
    errors: Vec<ParseError>,
}

impl View for Parser {
    type V = SpecState;

    closed spec fn view(&self) -> SpecState {
        SpecState {
            input: self.input@,
            pos: self.pos as int,
            line: self.line as int,
            column: self.column as int,
            errors: view_errors(self.errors@),
        }
    }
}

impl Parser {
    /// Create a new parser over the input text.
    ///
    /// The bound on the text length is what lets every cursor coordinate
    /// fit a machine word.
    pub fn new(input: &str) -> (p: Parser)
        requires
            input@.len() < usize::MAX,
        ensures
            p@ == init_state(input@),
            p@.wf(),
    {
        let n = input.unicode_len();
        let mut chars: Vec<char> = Vec::new();
        let mut i: usize = 0;
        while i < n
            invariant
                n == input@.len(),
                0 <= i <= n,
                chars@ == input@.subrange(0, i as int),
            decreases n - i,
        {
            let c = input.get_char(i);
            chars.push(c);
            i = i + 1;
            proof {
                assert(chars@ =~= input@.subrange(0, i as int));
            }
        }
        proof {
            assert(input@.subrange(0, n as int) =~= input@);
        }
        let p = Parser { input: chars, pos: 0, line: 1, column: 1, errors: Vec::new() };
        proof {
            assert(view_errors(p.errors@) =~= Seq::<crate::model::SpecError>::empty());
            assert(p@ =~= init_state(input@));
        }
        p
    }

    /// Whether the whole input has been consumed.
    pub fn is_eof(&self) -> (r: bool)
        ensures
            r == self@.at_end(),
    {
        self.pos >= self.input.len()
    }

    /// How much input is left.
    fn remaining(&self) -> (r: usize)
        requires
            self@.wf(),
        ensures
            r == self@.rem(),
    {
        self.input.len() - self.pos
    }

    /// The character under the cursor, without consuming it.
    fn peek_byte(&self) -> (r: Option<char>)
        ensures
            r == self@.peek(),
    {
        if self.pos < self.input.len() {
            Some(self.input[self.pos])
        } else {
            None
        }
    }

    /// Consume the character under the cursor, which the caller has already
    /// peeked: a newline starts a new line, anything else moves one column
    /// right.
    pub fn advance_byte(&mut self, c: char)
        requires
            old(self)@.wf(),
            old(self)@.peek() == Some(c),
        ensures
            final(self)@ == old(self)@.advance(),
            final(self)@.wf(),
            final(self)@.input == old(self)@.input,
            old(self)@.pos < final(self)@.pos,
    {
        self.pos = self.pos + 1;
        if c == '\n' {
            self.line = self.line + 1;
            self.column = 1;
        } else {
            self.column = self.column + 1;
        }
        proof {
            assert(self@ =~= old(self)@.advance());
        }
    }

    /// Consume and return the character under the cursor, if any.
    fn next_byte(&mut self) -> (r: Option<char>)
        requires
            old(self)@.wf(),
        ensures
            r == old(self)@.peek(),
            final(self)@ == old(self)@.advance(),
            final(self)@.wf(),
            final(self)@.input == old(self)@.input,
            old(self)@.pos <= final(self)@.pos,
    {
        if self.pos < self.input.len() {
            let c = self.input[self.pos];
            self.advance_byte(c);
            Some(c)
        } else {
            None
        }
    }

    /// Record a diagnostic at the current cursor coordinates.
    fn push_error(&mut self, kind: ErrorKind)
        requires
            old(self)@.wf(),
        ensures
            final(self)@ == old(self)@.push_err(view_kind(kind)),
            final(self)@.wf(),
            final(self)@.input == old(self)@.input,
            old(self)@.pos <= final(self)@.pos,
    {
        let line: usize = self.line;
        let column: usize = self.column;
        let e = ParseError { line, column, kind };
        let ghost ve = view_error(e);
        self.errors.push(e);
        proof {
            assert(view_errors(self.errors@) =~= old(self)@.errors.push(ve));
            assert(self@ =~= old(self)@.push_err(view_kind(kind)));
        }
    }

    /// Skip spaces and tabs; newlines are significant and stay.
    pub fn skip_horizontal_ws(&mut self)
        requires
            old(self)@.wf(),
        ensures
            final(self)@ == s_skip_hws(old(self)@),
            final(self)@.wf(),
            final(self)@.input == old(self)@.input,
            old(self)@.pos <= final(self)@.pos,
    {
        loop
            invariant
                self@.wf(),
                self@.input == old(self)@.input,
                old(self)@.pos <= self@.pos,
                s_skip_hws(old(self)@) == s_skip_hws(self@),
            decreases self@.rem(),
        {
            match self.peek_byte() {
                Some(c) => {
                    if c == ' ' || c == '\t' {
                        self.advance_byte(c);
                    } else {
                        return ;
                    }
                }
                None => {
                    return ;
                }
            }
        }
    }

    /// Consume up to and including the next newline (or to end of input).
    fn skip_to_line_end(&mut self)
        requires
            old(self)@.wf(),
        ensures
            final(self)@ == s_skip_line(old(self)@),
            final(self)@.wf(),
            final(self)@.input == old(self)@.input,
            old(self)@.pos <= final(self)@.pos,
    {
        loop
            invariant
                self@.wf(),
                self@.input == old(self)@.input,
                old(self)@.pos <= self@.pos,
                s_skip_line(old(self)@) == s_skip_line(self@),
            decreases self@.rem(),
        {
            let ghost prev = self@;
            match self.peek_byte() {
                Some(c) => {
                    self.advance_byte(c);
                    if c == '\n' {
                        proof {
                            assert(s_skip_line(prev) == self@);
                        }
                        return ;
                    }
                }
                None => {
                    return ;
                }
            }
        }
    }

    /// Skip whitespace and `#` comments until something significant.
    pub fn skip_ws_and_comments(&mut self)
        requires
            old(self)@.wf(),
        ensures
            final(self)@ == s_skip_wsc(old(self)@),
            final(self)@.wf(),
            final(self)@.input == old(self)@.input,
            old(self)@.pos <= final(self)@.pos,
    {
        loop
            invariant
                self@.wf(),
                self@.input == old(self)@.input,
                old(self)@.pos <= self@.pos,
                s_skip_wsc(old(self)@) == s_skip_wsc(self@),
            decreases self@.rem(),
        {
            let ghost prev = self@;
            match self.peek_byte() {
                Some(c) => {
                    if c == ' ' || c == '\t' || c == '\r' || c == '\n' {
                        self.advance_byte(c);
                    } else if c == '#' {
                        self.advance_byte(c);
                        let ghost mid = self@;
                        self.skip_to_line_end();
                        proof {
                            lemma_skip_line_evolves(mid);
                            assert(s_skip_wsc(prev) == s_skip_wsc(self@));
                        }
                    } else {
                        return ;
                    }
                }
                None => {
                    return ;
                }
            }
        }
    }

    /// Recover from a malformed line: consume through the next newline,
    /// then skip whitespace and comments.
    pub fn synchronize(&mut self)
        requires
            old(self)@.wf(),
        ensures
            final(self)@ == s_synchronize(old(self)@),
            final(self)@.wf(),
            final(self)@.input == old(self)@.input,
            old(self)@.pos <= final(self)@.pos,
    {
        self.skip_to_line_end();
        self.skip_ws_and_comments();
    }

    /// After a value, only horizontal whitespace then a newline, a comment,
    /// or the end of the input may follow; anything else records an
    /// advisory `ExpectedNewlineAfterKeyValue` without consuming anything.
    pub fn require_newline_or_eof(&mut self)
        requires
            old(self)@.wf(),
        ensures
            final(self)@ == s_require_nl(old(self)@),
            final(self)@.wf(),
            final(self)@.input == old(self)@.input,
            old(self)@.pos <= final(self)@.pos,
    {
        self.skip_horizontal_ws();
        match self.peek_byte() {
            None => {}
            Some(c) => {
                if c == '\n' || c == '#' {
                } else {
                    self.push_error(ErrorKind::ExpectedNewlineAfterKeyValue);
                }
            }
        }
    }
}

/// Whitespace, as the skip rules see it.
fn is_ws_c(c: char) -> (r: bool)
    ensures
        r == is_ws(c),
{
    c == ' ' || c == '\t' || c == '\r' || c == '\n'
}

/// A character that ends a bare identifier run.
fn is_delim_c(c: char) -> (r: bool)
    ensures
        r == is_delim(c),
{
    is_ws_c(c) || c == '{' || c == '}' || c == '[' || c == ']' || c == ':' || c == '(' || c == ')'
}

/// An ASCII decimal digit.
fn is_digit_c(c: char) -> (r: bool)
    ensures
        r == is_digit(c),
{
    let u: u32 = c as u32;
    48 <= u && u <= 57
}

/// A character that can start a full value inside a tuple.
fn is_value_start_c(c: char) -> (r: bool)
    ensures
        r == is_value_start(c),
{
    c == '"' || c == '{' || c == '[' || c == '(' || c == '-' || c == ':' || is_digit_c(c)
}

/// Translate the character after a backslash.
fn unescape_c(c: char) -> (r: char)
    ensures
        r == unescape(c),
{
    if c == 'n' {
        '\n'
    } else if c == 't' {
        '\t'
    } else if c == 'r' {
        '\r'
    } else {
        c
    }
}

/// Whether two pieces of text hold the same characters.
fn str_is(s: &str, t: &str) -> (r: bool)
    ensures
        r == (s@ == t@),
{
    let n = s.unicode_len();
    let m = t.unicode_len();
    if n != m {
        return false;
    }
    let mut i: usize = 0;
    while i < n
        invariant
            n == s@.len(),
            n == t@.len(),
            0 <= i <= n,
            forall|j: int| 0 <= j < i ==> s@[j] == t@[j],
        decreases n - i,
    {
        if s.get_char(i) != t.get_char(i) {
            return false;
        }
        i = i + 1;
    }
    proof {
        assert(s@ =~= t@);
    }
    true
}

/// The literal words `true`/`false` are booleans; anything else is text.
fn classify(s: String) -> (v: Value)
    ensures
        view_value(v) == classify_text(s@),
{
    if str_is(s.as_str(), "true") {
        Value::Bool(true)
    } else if str_is(s.as_str(), "false") {
        Value::Bool(false)
    } else {
        Value::Str(s)
    }
}

/// The magnitude of a digit string, when it stays below 2^64.
fn digits_value(ds: &Vec<char>) -> (r: Option<u128>)
    requires
        forall|j: int| 0 <= j < ds@.len() ==> is_digit(ds@[j]),
    ensures
        match r {
            Some(m) => m as int == dec_val(ds@) && m < 0x1_0000_0000_0000_0000u128,
            None => dec_val(ds@) >= 0x1_0000_0000_0000_0000,
        },
{
    let n = ds.len();
    let mut acc: u128 = 0;
    let mut i: usize = 0;
    proof {
        assert(ds@.subrange(0, 0) =~= Seq::<char>::empty());
    }
    while i < n
        invariant
            n == ds@.len(),
            0 <= i <= n,
            forall|j: int| 0 <= j < ds@.len() ==> is_digit(ds@[j]),
            acc as int == dec_val(ds@.subrange(0, i as int)),
            acc < 0x1_0000_0000_0000_0000u128,
        decreases n - i,
    {
        let c = ds[i];
        assert(is_digit(ds@[i as int]));
        let d: u128 = (c as u32 - 48) as u128;
        let new_acc: u128 = acc * 10 + d;
        proof {
            lemma_dec_val_step(ds@, i as int);
        }
        if new_acc >= 0x1_0000_0000_0000_0000u128 {
            proof {
                lemma_dec_val_grows(ds@, i as int + 1);
            }
            return None;
        }
        acc = new_acc;
        i = i + 1;
    }
    proof {
        assert(ds@.subrange(0, n as int) =~= ds@);
    }
    Some(acc)
}

/// Spell a numeric token back out: sign, integer digits, point, fraction.
fn build_literal(neg: bool, ints: &Vec<char>, has_dot: bool, frac: &Vec<char>) -> (r: String)
    ensures
        r@ == num_literal(neg, ints@, has_dot, frac@),
{
    let ghost sign: Seq<char> = if neg { seq!['-'] } else { Seq::<char>::empty() };
    let ghost dot: Seq<char> = if has_dot { seq!['.'] } else { Seq::<char>::empty() };
    let mut out = String::new();
    if neg {
        out.push('-');
    }
    proof {
        assert(out@ =~= sign);
        assert(out@ =~= sign + ints@.subrange(0, 0));
    }
    let mut i: usize = 0;
    while i < ints.len()
        invariant
            0 <= i <= ints@.len(),
            out@ == sign + ints@.subrange(0, i as int),
        decreases ints@.len() - i,
    {
        out.push(ints[i]);
        i = i + 1;
        proof {
            assert(out@ =~= sign + ints@.subrange(0, i as int));
        }
    }
    if has_dot {
        out.push('.');
    }
    proof {
        assert(ints@.subrange(0, ints@.len() as int) =~= ints@);
        assert(out@ =~= sign + ints@ + dot);
        assert(out@ =~= sign + ints@ + dot + frac@.subrange(0, 0));
    }
    let mut j: usize = 0;
    while j < frac.len()
        invariant
            0 <= j <= frac@.len(),
            out@ == sign + ints@ + dot + frac@.subrange(0, j as int),
        decreases frac@.len() - j,
    {
        out.push(frac[j]);
        j = j + 1;
        proof {
            assert(out@ =~= sign + ints@ + dot + frac@.subrange(0, j as int));
        }
    }
    proof {
        assert(frac@.subrange(0, frac@.len() as int) =~= frac@);
        assert(out@ =~= num_literal(neg, ints@, has_dot, frac@));
    }
    out
}

impl Parser {
    /// Scan a maximal run of non-delimiter characters: a variant name, or
    /// a bare identifier.
    fn parse_variant_name(&mut self) -> (r: String)
        requires
            old(self)@.wf(),
        ensures
            ({
                let (st, sq) = s_ident_run(old(self)@, Seq::empty());
                final(self)@ == st && r@ == sq
            }),
            final(self)@.wf(),
            final(self)@.input == old(self)@.input,
            old(self)@.pos <= final(self)@.pos,
    {
        let mut out = String::new();
        loop
            invariant
                self@.wf(),
                self@.input == old(self)@.input,
                old(self)@.pos <= self@.pos,
                s_ident_run(old(self)@, Seq::empty()) == s_ident_run(self@, out@),
            decreases self@.rem(),
        {
            match self.peek_byte() {
                Some(c) => {
                    if is_delim_c(c) {
                        return out;
                    }
                    self.advance_byte(c);
                    out.push(c);
                }
                None => {
                    return out;
                }
            }
        }
    }

    /// Scan a maximal run of decimal digits.
    fn digits_run(&mut self) -> (ds: Vec<char>)
        requires
            old(self)@.wf(),
        ensures
            ({
                let (st, sq) = s_digits(old(self)@, Seq::empty());
                final(self)@ == st && ds@ == sq
            }),
            forall|j: int| 0 <= j < ds@.len() ==> is_digit(ds@[j]),
            final(self)@.wf(),
            final(self)@.input == old(self)@.input,
            old(self)@.pos <= final(self)@.pos,
    {
        let mut out: Vec<char> = Vec::new();
        loop
            invariant
                self@.wf(),
                self@.input == old(self)@.input,
                old(self)@.pos <= self@.pos,
                s_digits(old(self)@, Seq::empty()) == s_digits(self@, out@),
                forall|j: int| 0 <= j < out@.len() ==> is_digit(out@[j]),
            decreases self@.rem(),
        {
            match self.peek_byte() {
                Some(c) => {
                    if !is_digit_c(c) {
                        return out;
                    }
                    self.advance_byte(c);
                    out.push(c);
                }
                None => {
                    return out;
                }
            }
        }
    }

    /// Scan a quoted string from its opening quote, translating the
    /// escapes `\n \t \r \" \\` and passing any other escaped character
    /// through. An unterminated string records `UnterminatedString` and
    /// keeps the partial content.
    fn parse_string(&mut self) -> (r: String)
        requires
            old(self)@.wf(),
        ensures
            ({
                let (st, sq) = s_string(old(self)@);
                final(self)@ == st && r@ == sq
            }),
            final(self)@.wf(),
            final(self)@.input == old(self)@.input,
            old(self)@.pos <= final(self)@.pos,
    {
        let _ = self.next_byte();
        let ghost st0 = self@;
        let mut out = String::new();
        loop
            invariant
                self@.wf(),
                self@.input == old(self)@.input,
                old(self)@.pos <= self@.pos,
                st0 == old(self)@.advance(),
                s_string_body(st0, Seq::empty()) == s_string_body(self@, out@),
            decreases self@.rem(),
        {
            match self.peek_byte() {
                None => {
                    self.push_error(ErrorKind::UnterminatedString);
                    return out;
                }
                Some(c) => {
                    self.advance_byte(c);
                    if c == '"' {
                        return out;
                    }
                    if c == '\\' {
                        match self.peek_byte() {
                            None => {
                                self.push_error(ErrorKind::UnterminatedString);
                                return out;
                            }
                            Some(e) => {
                                self.advance_byte(e);
                                out.push(unescape_c(e));
                            }
                        }
                    } else {
                        out.push(c);
                    }
                }
            }
        }
    }

    /// Scan an identifier or, if the next significant character is a
    /// quote, a quoted string.
    fn parse_identifier_or_string(&mut self) -> (r: String)
        requires
            old(self)@.wf(),
        ensures
            ({
                let (st, sq) = s_ident(old(self)@);
                final(self)@ == st && r@ == sq
            }),
            final(self)@.wf(),
            final(self)@.input == old(self)@.input,
            old(self)@.pos <= final(self)@.pos,
    {
        self.skip_ws_and_comments();
        let quoted = match self.peek_byte() {
            Some(c) => c == '"',
            None => false,
        };
        if quoted {
            self.parse_string()
        } else {
            self.parse_variant_name()
        }
    }

    /// Scan a key: whitespace and comments, then an identifier or string.
    pub fn parse_key(&mut self) -> (r: String)
        requires
            old(self)@.wf(),
        ensures
            ({
                let (st, sq) = s_key(old(self)@);
                final(self)@ == st && r@ == sq
            }),
            final(self)@.wf(),
            final(self)@.input == old(self)@.input,
            old(self)@.pos <= final(self)@.pos,
    {
        self.skip_ws_and_comments();
        self.parse_identifier_or_string()
    }

    /// Copy a range of the input out as text.
    fn slice_to_str(&self, start: usize, end: usize) -> (r: String)
        requires
            self@.wf(),
            start <= end,
            end as int <= self@.len(),
        ensures
            r@ == self@.input.subrange(start as int, end as int),
    {
        let mut out = String::new();
        let mut i: usize = start;
        proof {
            assert(out@ =~= self@.input.subrange(start as int, start as int));
        }
        while i < end
            invariant
                start <= i <= end,
                end as int <= self@.len(),
                out@ == self@.input.subrange(start as int, i as int),
            decreases end - i,
        {
            out.push(self.input[i]);
            i = i + 1;
            proof {
                assert(out@ =~= self@.input.subrange(start as int, i as int));
            }
        }
        out
    }

    /// Copy a range of the input out as text, trimmed of surrounding
    /// whitespace.
    fn trimmed_slice(&self, start: usize, end: usize) -> (r: String)
        requires
            self@.wf(),
            start <= end,
            end as int <= self@.len(),
        ensures
            r@ == trim(self@.input.subrange(start as int, end as int)),
    {
        let ghost orig = self@.input.subrange(start as int, end as int);
        let mut a: usize = start;
        let b0 = end;
        loop
            invariant
                start <= a <= b0,
                b0 == end,
                end as int <= self@.len(),
                trim_start(orig) == trim_start(self@.input.subrange(a as int, b0 as int)),
            ensures
                start <= a <= b0,
                trim_start(orig) == self@.input.subrange(a as int, b0 as int),
            decreases b0 - a,
        {
            if a < b0 {
                let c = self.input[a];
                if is_ws_c(c) {
                    proof {
                        assert(self@.input.subrange(a as int, b0 as int).drop_first() =~= self@.input.subrange(a as int + 1, b0 as int));
                    }
                    a = a + 1;
                } else {
                    proof {
                        assert(self@.input.subrange(a as int, b0 as int)[0] == self@.input[a as int]);
                    }
                    break ;
                }
            } else {
                proof {
                    assert(self@.input.subrange(a as int, b0 as int).len() == 0);
                }
                break ;
            }
        }
        let ghost ts = trim_start(orig);
        let mut b: usize = b0;
        loop
            invariant
                start <= a <= b <= b0,
                end as int <= self@.len(),
                b0 == end,
                trim_end(ts) == trim_end(self@.input.subrange(a as int, b as int)),
            ensures
                start <= a <= b <= b0,
                trim_end(ts) == self@.input.subrange(a as int, b as int),
            decreases b - a,
        {
            if a < b {
                let c = self.input[b - 1];
                if is_ws_c(c) {
                    proof {
                        assert(self@.input.subrange(a as int, b as int).drop_last() =~= self@.input.subrange(a as int, b as int - 1));
                        assert(self@.input.subrange(a as int, b as int).last() == self@.input[b as int - 1]);
                    }
                    b = b - 1;
                } else {
                    proof {
                        assert(self@.input.subrange(a as int, b as int).last() == self@.input[b as int - 1]);
                    }
                    break ;
                }
            } else {
                proof {
                    assert(self@.input.subrange(a as int, b as int).len() == 0);
                }
                break ;
            }
        }
        self.slice_to_str(a, b)
    }

    /// Scan a numeric token: an optional minus sign, digits, and
    /// optionally a decimal point with more digits. With a point the token
    /// becomes a `Num` holding its literal spelling; without one it
    /// becomes an `Int` when it has at least one digit and fits a signed
    /// 64-bit integer; anything else records the matching format
    /// diagnostic and yields a zero placeholder.
    fn parse_numeric(&mut self) -> (v: Value)
        requires
            old(self)@.wf(),
        ensures
            ({
                let (st, sv) = s_numeric(old(self)@);
                final(self)@ == st && view_value(v) == sv
            }),
            final(self)@.wf(),
            final(self)@.input == old(self)@.input,
            old(self)@.pos <= final(self)@.pos,
    {
        let neg = match self.peek_byte() {
            Some(c) => c == '-',
            None => false,
        };
        if neg {
            self.advance_byte('-');
        }
        let ints = self.digits_run();
        let has_dot = match self.peek_byte() {
            Some(c) => c == '.',
            None => false,
        };
        if has_dot {
            self.advance_byte('.');
            let frac = self.digits_run();
            let lit = build_literal(neg, &ints, true, &frac);
            if ints.len() == 0 && frac.len() == 0 {
                self.push_error(ErrorKind::InvalidFloatFormat(lit));
                Value::Num(String::from_str("0.0"))
            } else {
                Value::Num(lit)
            }
        } else {
            let empty_frac: Vec<char> = Vec::new();
            let lit = build_literal(neg, &ints, false, &empty_frac);
            if ints.len() == 0 {
                self.push_error(ErrorKind::InvalidIntegerFormat(lit));
                Value::Int(0)
            } else {
                proof {
                    lemma_dec_val_nonneg(ints@);
                }
                match digits_value(&ints) {
                    Some(m) => {
                        if neg {
                            if m <= 0x8000_0000_0000_0000u128 {
                                let r: i64 = if m == 0x8000_0000_0000_0000u128 {
                                    i64::MIN
                                } else {
                                    -(m as i64)
                                };
                                Value::Int(r)
                            } else {
                                self.push_error(ErrorKind::InvalidIntegerFormat(lit));
                                Value::Int(0)
                            }
                        } else {
                            if m <= 0x7FFF_FFFF_FFFF_FFFFu128 {
                                Value::Int(m as i64)
                            } else {
                                self.push_error(ErrorKind::InvalidIntegerFormat(lit));
                                Value::Int(0)
                            }
                        }
                    }
                    None => {
                        self.push_error(ErrorKind::InvalidIntegerFormat(lit));
                        Value::Int(0)
                    }
                }
            }
        }
    }
}

impl Parser {
    /// Consume up to (not including) the next newline or comment marker.
    fn line_run(&mut self)
        requires
            old(self)@.wf(),
        ensures
            final(self)@ == s_line_run(old(self)@),
            final(self)@.wf(),
            final(self)@.input == old(self)@.input,
            old(self)@.pos <= final(self)@.pos,
    {
        loop
            invariant
                self@.wf(),
                self@.input == old(self)@.input,
                old(self)@.pos <= self@.pos,
                s_line_run(old(self)@) == s_line_run(self@),
            decreases self@.rem(),
        {
            match self.peek_byte() {
                Some(c) => {
                    if c == '\n' || c == '#' {
                        return ;
                    }
                    self.advance_byte(c);
                }
                None => {
                    return ;
                }
            }
        }
    }

    /// Consume free tuple text, up to the next `)`, comment marker or
    /// newline.
    fn tuple_text_scan(&mut self)
        requires
            old(self)@.wf(),
        ensures
            final(self)@ == s_tuple_text_run(old(self)@),
            final(self)@.wf(),
            final(self)@.input == old(self)@.input,
            old(self)@.pos <= final(self)@.pos,
    {
        loop
            invariant
                self@.wf(),
                self@.input == old(self)@.input,
                old(self)@.pos <= self@.pos,
                s_tuple_text_run(old(self)@) == s_tuple_text_run(self@),
            decreases self@.rem(),
        {
            match self.peek_byte() {
                Some(c) => {
                    if c == ')' || c == '#' || c == '\n' {
                        return ;
                    }
                    self.advance_byte(c);
                }
                None => {
                    return ;
                }
            }
        }
    }

    /// One free-text tuple element: capture to `)`, `#` or newline, trim,
    /// classify.
    fn tuple_text(&mut self) -> (v: Value)
        requires
            old(self)@.wf(),
        ensures
            ({
                let (st, sv) = s_tuple_text(old(self)@);
                final(self)@ == st && view_value(v) == sv
            }),
            final(self)@.wf(),
            final(self)@.input == old(self)@.input,
            old(self)@.pos <= final(self)@.pos,
    {
        let start = self.pos;
        self.tuple_text_scan();
        let t = self.trimmed_slice(start, self.pos);
        classify(t)
    }

    /// Parse one value, dispatched on the first significant character; see
    /// the model's value grammar.
    fn parse_value(&mut self) -> (v: Value)
        requires
            old(self)@.wf(),
        ensures
            ({
                let (st, sv) = s_value(old(self)@);
                final(self)@ == st && view_value(v) == sv
            }),
            final(self)@.wf(),
            final(self)@.input == old(self)@.input,
            old(self)@.pos <= final(self)@.pos,
        decreases old(self)@.rem(), 3int,
    {
        self.skip_ws_and_comments();
        match self.peek_byte() {
            None => {
                self.push_error(ErrorKind::UnexpectedEndOfInput);
                let v = Value::Str(String::new());
                proof {
                    assert(view_value(v) == SpecValue::Str(Seq::<char>::empty()));
                    assert(self@ == (s_value(old(self)@)).0);
                }
                v
            }
            Some(c) => {
                if c == '(' {
                    let v = self.parse_tuple();
                    proof {
                        assert(self@ == (s_value(old(self)@)).0);
                    }
                    v
                } else if c == '"' {
                    let s = self.parse_string();
                    proof {
                        assert(self@ == (s_value(old(self)@)).0);
                    }
                    Value::Str(s)
                } else if c == '{' {
                    self.advance_byte(c);
                    let v = Value::Struct(self.parse_struct());
                    proof {
                        assert(self@ == (s_value(old(self)@)).0);
                    }
                    v
                } else if c == '[' {
                    self.advance_byte(c);
                    let v = Value::Array(self.parse_array());
                    proof {
                        assert(self@ == (s_value(old(self)@)).0);
                    }
                    v
                } else if c == ':' {
                    self.advance_byte(c);
                    let name = self.parse_variant_name();
                    match self.peek_byte() {
                        Some(p) => {
                            if p == '(' {
                                let t = self.parse_tuple();
                                let ghost tv = view_value(t);
                                let b = Box::new(t);
                                proof {
                                    assert(view_value(*b) == tv);
                                }
                                let v = Value::Variant(name, Some(b));
                                proof {
                                    assert(self@ == (s_value(old(self)@)).0);
                                    assert(view_value(v) == (s_value(old(self)@)).1);
                                }
                                v
                            } else if p == '{' {
                                self.advance_byte(p);
                                let t = Value::Struct(self.parse_struct());
                                let ghost tv = view_value(t);
                                let b = Box::new(t);
                                proof {
                                    assert(view_value(*b) == tv);
                                }
                                let v = Value::Variant(name, Some(b));
                                proof {
                                    assert(self@ == (s_value(old(self)@)).0);
                                    assert(view_value(v) == (s_value(old(self)@)).1);
                                }
                                v
                            } else if p == '[' {
                                self.advance_byte(p);
                                let t = Value::Array(self.parse_array());
                                let ghost tv = view_value(t);
                                let b = Box::new(t);
                                proof {
                                    assert(view_value(*b) == tv);
                                }
                                let v = Value::Variant(name, Some(b));
                                proof {
                                    assert(self@ == (s_value(old(self)@)).0);
                                    assert(view_value(v) == (s_value(old(self)@)).1);
                                }
                                v
                            } else {
                                Value::Variant(name, None)
                            }
                        }
                        None => Value::Variant(name, None),
                    }
                } else if c == '-' || is_digit_c(c) {
                    let v = self.parse_numeric();
                    proof {
                        assert(self@ == (s_value(old(self)@)).0);
                    }
                    v
                } else {
                    let id = self.parse_identifier_or_string();
                    proof {
                        lemma_skip_wsc_idem(old(self)@);
                        assert(self@ == (s_value(old(self)@)).0);
                    }
                    classify(id)
                }
            }
        }
    }

    /// Parse a parenthesized tuple from its `(`.
    fn parse_tuple(&mut self) -> (v: Value)
        requires
            old(self)@.wf(),
        ensures
            ({
                let (st, sv) = s_tuple(old(self)@);
                final(self)@ == st && view_value(v) == sv
            }),
            final(self)@.wf(),
            final(self)@.input == old(self)@.input,
            old(self)@.pos <= final(self)@.pos,
        decreases old(self)@.rem(), 2int,
    {
        match self.peek_byte() {
            None => {
                let v = Value::Tuple(Vec::new());
                proof {
                    assert(view_values(Seq::<Value>::empty()) =~= Seq::<SpecValue>::empty());
                }
                v
            }
            Some(c0) => {
                self.advance_byte(c0);
                let ghost st0 = self@;
                let mut items: Vec<Value> = Vec::new();
                proof {
                    assert(view_values(items@) =~= Seq::<SpecValue>::empty());
                }
                loop
                    invariant
                        self@.wf(),
                        self@.input == old(self)@.input,
                        old(self)@.pos < self@.pos,
                        st0 == old(self)@.advance(),
                        s_tuple_items(st0, Seq::empty()) == s_tuple_items(self@, view_values(items@)),
                    decreases self@.rem(),
                {
                    let rem0 = self.remaining();
                    self.skip_ws_and_comments();
                    match self.peek_byte() {
                        None => {
                            self.push_error(ErrorKind::UnexpectedEndOfInput);
                            return Value::Tuple(items);
                        }
                        Some(c) => {
                            if c == ')' {
                                self.advance_byte(c);
                                return Value::Tuple(items);
                            }
                            let v = if is_value_start_c(c) {
                                self.parse_value()
                            } else {
                                self.tuple_text()
                            };
                            self.skip_ws_and_comments();
                            let closed = match self.peek_byte() {
                                Some(d) => d == ')',
                                None => false,
                            };
                            if closed {
                                match self.peek_byte() {
                                    Some(d) => self.advance_byte(d),
                                    None => {}
                                }
                            }
                            proof {
                                lemma_view_values_push(items@, v);
                            }
                            items.push(v);
                            if closed {
                                return Value::Tuple(items);
                            }
                            if !(self.remaining() < rem0) {
                                return Value::Tuple(items);
                            }
                        }
                    }
                }
            }
        }
    }

    /// The element loop of an array, after its `[`.
    fn parse_array(&mut self) -> (r: Vec<Value>)
        requires
            old(self)@.wf(),
        ensures
            ({
                let (st, vs) = s_array_items(old(self)@, Seq::empty());
                final(self)@ == st && view_values(r@) == vs
            }),
            final(self)@.wf(),
            final(self)@.input == old(self)@.input,
            old(self)@.pos <= final(self)@.pos,
        decreases old(self)@.rem(), 7int,
    {
        let mut arr: Vec<Value> = Vec::new();
        proof {
            assert(view_values(arr@) =~= Seq::<SpecValue>::empty());
        }
        loop
            invariant
                self@.wf(),
                self@.input == old(self)@.input,
                old(self)@.pos <= self@.pos,
                s_array_items(old(self)@, Seq::empty()) == s_array_items(self@, view_values(arr@)),
            decreases self@.rem(),
        {
            let rem0 = self.remaining();
            self.skip_ws_and_comments();
            match self.peek_byte() {
                None => {
                    self.push_error(ErrorKind::UnexpectedEndOfInput);
                    return arr;
                }
                Some(c) => {
                    if c == ']' {
                        self.advance_byte(c);
                        return arr;
                    }
                    let v = self.parse_value();
                    if self.remaining() < rem0 {
                        proof {
                            lemma_view_values_push(arr@, v);
                        }
                        arr.push(v);
                    } else {
                        self.push_error(ErrorKind::UnexpectedCharacter(c));
                        match self.peek_byte() {
                            Some(c2) => self.advance_byte(c2),
                            None => {}
                        }
                        if !(self.remaining() < rem0) {
                            return arr;
                        }
                    }
                }
            }
        }
    }

    /// Parse the value of a key at document or struct level, with the
    /// unquoted rest-of-line fallback.
    fn parse_field_value(&mut self) -> (v: Value)
        requires
            old(self)@.wf(),
        ensures
            ({
                let (st, sv) = s_field_value(old(self)@);
                final(self)@ == st && view_value(v) == sv
            }),
            final(self)@.wf(),
            final(self)@.input == old(self)@.input,
            old(self)@.pos <= final(self)@.pos,
        decreases old(self)@.rem(), 5int,
    {
        self.skip_horizontal_ws();
        let open_paren = match self.peek_byte() {
            Some(c) => c == '(',
            None => false,
        };
        if open_paren {
            return self.parse_tuple();
        }
        let start = self.pos;
        let line0: usize = self.line;
        let col0: usize = self.column;
        let ghost st1 = self@;
        let first = self.parse_value();
        self.skip_horizontal_ws();
        match self.peek_byte() {
            None => first,
            Some(c) => {
                if c == '\n' || c == '#' || c == '}' {
                    first
                } else {
                    self.line_run();
                    let t = self.trimmed_slice(start, self.pos);
                    if t.as_str().is_empty() {
                        let ghost st4 = self@;
                        self.pos = start;
                        self.line = line0;
                        self.column = col0;
                        proof {
                            assert(self@ =~= (SpecState { errors: st4.errors, ..st1 }));
                        }
                        first
                    } else {
                        Value::Str(t)
                    }
                }
            }
        }
    }

    /// One key/value step of the document or struct loop; see the model's
    /// `s_kv_step`.
    fn parse_entry(&mut self) -> (kv: Option<(String, Value)>)
        requires
            old(self)@.wf(),
        ensures
            ({
                let (st, k) = s_kv_step(old(self)@);
                &&& final(self)@ == st
                &&& match (kv, k) {
                    (Some(p), Some(q)) => p.0@ == q.0 && view_value(p.1) == q.1,
                    (None, None) => true,
                    _ => false,
                }
            }),
            final(self)@.wf(),
            final(self)@.input == old(self)@.input,
            old(self)@.pos <= final(self)@.pos,
        decreases old(self)@.rem(), 6int,
    {
        let key = self.parse_key();
        if key.as_str().is_empty() {
            match self.peek_byte() {
                Some(c) => {
                    self.push_error(ErrorKind::UnexpectedCharacter(c));
                }
                None => {}
            }
            self.synchronize();
            None
        } else {
            match self.peek_byte() {
                Some(c) => {
                    if c == ':' {
                        self.advance_byte(c);
                    }
                }
                None => {}
            }
            self.skip_horizontal_ws();
            let at_nl = match self.peek_byte() {
                Some(c) => c == '\n',
                None => false,
            };
            if at_nl || self.is_eof() {
                self.push_error(ErrorKind::ExpectedValueOnSameLine);
                if at_nl {
                    self.advance_byte('\n');
                }
                None
            } else {
                let v = self.parse_field_value();
                let kv = Some((key, v));
                self.require_newline_or_eof();
                self.skip_ws_and_comments();
                kv
            }
        }
    }

    /// The body of a `{...}` block, after its `{`: key/value lines until
    /// the matching `}`. Reaching the end of the input records
    /// `UnterminatedBlock` and returns what was collected.
    fn parse_struct(&mut self) -> (r: Struct)
        requires
            old(self)@.wf(),
        ensures
            ({
                let (st, es) = s_struct_items(s_skip_wsc(old(self)@), Seq::empty());
                final(self)@ == st && r@ == es
            }),
            entries_unique(r@),
            entries_values_unique(r@),
            final(self)@.wf(),
            final(self)@.input == old(self)@.input,
            old(self)@.pos <= final(self)@.pos,
        decreases old(self)@.rem(), 7int,
    {
        let mut map = Struct::new();
        self.skip_ws_and_comments();
        proof {
            assert(entries_unique(Seq::<(Seq<char>, SpecValue)>::empty()));
            assert(entries_values_unique(Seq::<(Seq<char>, SpecValue)>::empty()));
            lemma_s_struct_items_deep_unique(s_skip_wsc(old(self)@), Seq::empty());
        }
        loop
            invariant
                self@.wf(),
                self@.input == old(self)@.input,
                old(self)@.pos <= self@.pos,
                s_struct_items(s_skip_wsc(old(self)@), Seq::empty()) == s_struct_items(
                    self@,
                    map@,
                ),
                entries_unique(s_struct_items(s_skip_wsc(old(self)@), Seq::empty()).1),
                entries_values_unique(s_struct_items(s_skip_wsc(old(self)@), Seq::empty()).1),
            decreases self@.rem(),
        {
            match self.peek_byte() {
                None => {
                    self.push_error(ErrorKind::UnterminatedBlock);
                    return map;
                }
                Some(c) => {
                    if c == '}' {
                        self.advance_byte(c);
                        return map;
                    }
                    let rem0 = self.remaining();
                    let kv = self.parse_entry();
                    match kv {
                        Some(p) => map.insert(p.0, p.1),
                        None => {}
                    }
                    if !(self.remaining() < rem0) {
                        return map;
                    }
                }
            }
        }
    }

    /// Run the one parse this parser is for: key/value lines until the
    /// input is exhausted. The returned map is the document root; the
    /// diagnostics collected along the way are then available from
    /// [`Parser::errors`].
    pub fn parse(&mut self) -> (r: Struct)
        requires
            old(self)@.wf(),
        ensures
            ({
                let (st, es) = s_parse_doc(old(self)@);
                final(self)@ == st && r@ == es
            }),
            entries_unique(r@),
            entries_values_unique(r@),
            final(self)@.wf(),
            final(self)@.input == old(self)@.input,
            old(self)@.pos <= final(self)@.pos,
    {
        let mut root = Struct::new();
        self.skip_ws_and_comments();
        proof {
            assert(entries_unique(Seq::<(Seq<char>, SpecValue)>::empty()));
            assert(entries_values_unique(Seq::<(Seq<char>, SpecValue)>::empty()));
            lemma_s_root_items_deep_unique(s_skip_wsc(old(self)@), Seq::empty());
        }
        loop
            invariant
                self@.wf(),
                self@.input == old(self)@.input,
                old(self)@.pos <= self@.pos,
                s_root_items(s_skip_wsc(old(self)@), Seq::empty()) == s_root_items(self@, root@),
                entries_unique(s_root_items(s_skip_wsc(old(self)@), Seq::empty()).1),
                entries_values_unique(s_root_items(s_skip_wsc(old(self)@), Seq::empty()).1),
            decreases self@.rem(),
        {
            if self.is_eof() {
                return root;
            }
            let rem0 = self.remaining();
            let kv = self.parse_entry();
            match kv {
                Some(p) => root.insert(p.0, p.1),
                None => {}
            }
            if !(self.remaining() < rem0) {
                return root;
            }
        }
    }

    /// The diagnostics recorded so far, in the order they were detected.
    pub fn errors(&self) -> (r: &[ParseError])
        ensures
            view_errors(r@) == self@.errors,
    {
        self.errors.as_slice()
    }
}

} // verus!
