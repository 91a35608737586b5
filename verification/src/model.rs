//! The mathematical model of the format.
//!
//! Everything here is specification-level: the document grammar is defined as
//! a family of total functions over a scan state holding a sequence of
//! characters, a cursor position, the derived line/column coordinates, and
//! the diagnostics recorded so far. The executable parser is verified to
//! compute exactly these functions.

use vstd::prelude::*;

verus! {

/// The kinds of defect a parse can record.
pub enum SpecErrorKind {
    ExpectedValueOnSameLine,
    ExpectedNewlineAfterKeyValue,
    UnterminatedBlock,
    UnterminatedString,
    InvalidUtf8InNumber,
    InvalidFloatFormat(Seq<char>),
    InvalidIntegerFormat(Seq<char>),
    UnexpectedEndOfInput,
    UnexpectedCharacter(char),
}

/// A diagnostic: the cursor coordinates at the moment the defect was seen.
#[verifier::ext_equal]
pub struct SpecError {
    pub line: int,
    pub column: int,
    pub kind: SpecErrorKind,
}

/// The model of a parsed value tree.
///
/// Text is a sequence of characters; a decimal number keeps its literal
/// spelling; a struct is its ordered sequence of key/value entries.
#[verifier::ext_equal]
pub enum SpecValue {
    Str(Seq<char>),
    Int(int),
    Num(Seq<char>),
    Bool(bool),
    Variant(Seq<char>, Option<Box<SpecValue>>),
    Struct(Seq<(Seq<char>, SpecValue)>),
    Array(Seq<SpecValue>),
    Tuple(Seq<SpecValue>),
}

/// The scan state: the fixed input text, the cursor, and the diagnostics.
#[verifier::ext_equal]
pub struct SpecState {
    pub input: Seq<char>,
    pub pos: int,
    pub line: int,
    pub column: int,
    pub errors: Seq<SpecError>,
}

/// The state a freshly constructed parser is in.
pub open spec fn init_state(text: Seq<char>) -> SpecState {
    SpecState { input: text, pos: 0, line: 1, column: 1, errors: Seq::empty() }
}

impl SpecState {
    /// Length of the input text.
    pub open spec fn len(self) -> int {
        self.input.len() as int
    }

    /// The cursor sits at or past the end of the input.
    pub open spec fn at_end(self) -> bool {
        self.pos >= self.len()
    }

    /// The character under the cursor, if any.
    pub open spec fn peek(self) -> Option<char> {
        if 0 <= self.pos && self.pos < self.len() {
            Some(self.input[self.pos])
        } else {
            None
        }
    }

    /// How much input is left; drives every termination argument.
    pub open spec fn rem(self) -> nat {
        if 0 <= self.pos && self.pos <= self.len() {
            (self.len() - self.pos) as nat
        } else {
            0
        }
    }

    /// Well-formedness: the cursor is inside the text, and line/column are
    /// 1-based and bounded by how much has been consumed (which keeps every
    /// coordinate increment free of overflow in the executable parser).
    pub open spec fn wf(self) -> bool {
        &&& 0 <= self.pos <= self.len()
        &&& self.input.len() < usize::MAX
        &&& 1 <= self.line <= self.pos + 1
        &&& 1 <= self.column <= self.pos + 1
    }

    /// Consume the character under the cursor: a newline starts a new
    /// 1-based line, anything else moves one column right. Past the end of
    /// the input this is the identity.
    pub open spec fn advance(self) -> SpecState {
        match self.peek() {
            Some(c) => SpecState {
                pos: self.pos + 1,
                line: if c == '\n' { self.line + 1 } else { self.line },
                column: if c == '\n' { 1 } else { self.column + 1 },
                ..self
            },
            None => self,
        }
    }

    /// Record a diagnostic at the current coordinates.
    pub open spec fn push_err(self, kind: SpecErrorKind) -> SpecState {
        SpecState {
            errors: self.errors.push(SpecError { line: self.line, column: self.column, kind }),
            ..self
        }
    }

    /// What one scan step may do to the state: the input never changes, the
    /// cursor never moves backwards, diagnostics are append-only, and
    /// well-formedness is preserved.
    pub open spec fn evolves_to(self, other: SpecState) -> bool {
        &&& other.input == self.input
        &&& self.pos <= other.pos
        &&& self.errors.is_prefix_of(other.errors)
        &&& (self.wf() ==> other.wf())
    }
}

/// Whitespace: space, tab, carriage return, line feed.
pub open spec fn is_ws(c: char) -> bool {
    c == ' ' || c == '\t' || c == '\r' || c == '\n'
}

/// Horizontal whitespace: space and tab only; newlines are significant.
pub open spec fn is_hws(c: char) -> bool {
    c == ' ' || c == '\t'
}

/// The characters that end a bare identifier run.
pub open spec fn is_delim(c: char) -> bool {
    is_ws(c) || c == '{' || c == '}' || c == '[' || c == ']' || c == ':' || c == '(' || c == ')'
}

/// An ASCII decimal digit.
pub open spec fn is_digit(c: char) -> bool {
    48 <= c as u32 <= 57
}

/// The numeric value of a decimal digit.
pub open spec fn digit_val(c: char) -> int {
    c as u32 - 48
}

/// A character that can start a full value inside a tuple: quote, block,
/// array, tuple, sign or digit, or a variant marker.
pub open spec fn is_value_start(c: char) -> bool {
    c == '"' || c == '{' || c == '[' || c == '(' || c == '-' || c == ':' || is_digit(c)
}

/// Skip spaces and tabs.
pub open spec fn s_skip_hws(st: SpecState) -> SpecState
    decreases st.rem(),
{
    match st.peek() {
        Some(c) => if is_hws(c) {
            s_skip_hws(st.advance())
        } else {
            st
        },
        None => st,
    }
}

/// Consume up to and including the next newline (or to end of input).
pub open spec fn s_skip_line(st: SpecState) -> SpecState
    decreases st.rem(),
{
    match st.peek() {
        Some(c) => if c == '\n' {
            st.advance()
        } else {
            s_skip_line(st.advance())
        },
        None => st,
    }
}

/// Basic facts about one consuming step.
pub proof fn lemma_advance_evolves(st: SpecState)
    ensures
        st.evolves_to(st.advance()),
        st.advance().errors == st.errors,
{
    assert(st.errors.is_prefix_of(st.errors));
    assert(st.errors.is_prefix_of(st.advance().errors));
}

/// Recording a diagnostic only appends to the diagnostics.
pub proof fn lemma_push_err_evolves(st: SpecState, kind: SpecErrorKind)
    ensures
        st.evolves_to(st.push_err(kind)),
{
    assert(st.errors.is_prefix_of(st.push_err(kind).errors));
}

/// Evolution is transitive.
pub proof fn lemma_evolves_trans(a: SpecState, b: SpecState, c: SpecState)
    requires
        a.evolves_to(b),
        b.evolves_to(c),
    ensures
        a.evolves_to(c),
{
    assert(a.errors.is_prefix_of(c.errors)) by {
        assert(forall|i: int| 0 <= i < a.errors.len() ==> a.errors[i] == b.errors[i]);
        assert(a.errors =~= c.errors.subrange(0, a.errors.len() as int));
    }
}

pub proof fn lemma_skip_hws_evolves(st: SpecState)
    ensures
        st.evolves_to(s_skip_hws(st)),
        s_skip_hws(st).errors == st.errors,
    decreases st.rem(),
{
    match st.peek() {
        Some(c) => if is_hws(c) {
            lemma_advance_evolves(st);
            lemma_skip_hws_evolves(st.advance());
            lemma_evolves_trans(st, st.advance(), s_skip_hws(st));
        } else {
            lemma_advance_evolves(st);
        },
        None => {
            lemma_advance_evolves(st);
        }
    }
}

pub proof fn lemma_skip_line_evolves(st: SpecState)
    ensures
        st.evolves_to(s_skip_line(st)),
        s_skip_line(st).errors == st.errors,
    decreases st.rem(),
{
    match st.peek() {
        Some(c) => if c == '\n' {
            lemma_advance_evolves(st);
        } else {
            lemma_advance_evolves(st);
            lemma_skip_line_evolves(st.advance());
            lemma_evolves_trans(st, st.advance(), s_skip_line(st));
        },
        None => {
            lemma_advance_evolves(st);
        }
    }
}

/// Skip whitespace and `#` comments: a comment runs to the end of its line.
pub open spec fn s_skip_wsc(st: SpecState) -> SpecState
    decreases st.rem(),
    via s_skip_wsc_dec
{
    match st.peek() {
        Some(c) => if is_ws(c) {
            s_skip_wsc(st.advance())
        } else if c == '#' {
            s_skip_wsc(s_skip_line(st.advance()))
        } else {
            st
        },
        None => st,
    }
}

#[via_fn]
proof fn s_skip_wsc_dec(st: SpecState) {
    match st.peek() {
        Some(c) => {
            if c == '#' {
                lemma_skip_line_evolves(st.advance());
            }
        }
        None => {}
    }
}

pub proof fn lemma_skip_wsc_evolves(st: SpecState)
    ensures
        st.evolves_to(s_skip_wsc(st)),
        s_skip_wsc(st).errors == st.errors,
    decreases st.rem(),
{
    match st.peek() {
        Some(c) => if is_ws(c) {
            lemma_advance_evolves(st);
            lemma_skip_wsc_evolves(st.advance());
            lemma_evolves_trans(st, st.advance(), s_skip_wsc(st));
        } else if c == '#' {
            lemma_advance_evolves(st);
            lemma_skip_line_evolves(st.advance());
            lemma_evolves_trans(st, st.advance(), s_skip_line(st.advance()));
            lemma_skip_wsc_evolves(s_skip_line(st.advance()));
            lemma_evolves_trans(st, s_skip_line(st.advance()), s_skip_wsc(st));
        } else {
            lemma_advance_evolves(st);
        },
        None => {
            lemma_advance_evolves(st);
        }
    }
}

/// Skipping whitespace and comments twice is the same as skipping once.
pub proof fn lemma_skip_wsc_idem(st: SpecState)
    ensures
        s_skip_wsc(s_skip_wsc(st)) == s_skip_wsc(st),
    decreases st.rem(),
{
    match st.peek() {
        Some(c) => {
            if is_ws(c) {
                lemma_skip_wsc_idem(st.advance());
            } else if c == '#' {
                lemma_skip_line_evolves(st.advance());
                lemma_skip_wsc_idem(s_skip_line(st.advance()));
            }
        }
        None => {}
    }
}

/// Scan a maximal run of non-delimiter characters, accumulating them.
pub open spec fn s_ident_run(st: SpecState, acc: Seq<char>) -> (SpecState, Seq<char>)
    decreases st.rem(),
{
    match st.peek() {
        Some(c) => if !is_delim(c) {
            s_ident_run(st.advance(), acc.push(c))
        } else {
            (st, acc)
        },
        None => (st, acc),
    }
}

/// Translate the character after a backslash; unknown escapes pass through.
pub open spec fn unescape(c: char) -> char {
    if c == 'n' {
        '\n'
    } else if c == 't' {
        '\t'
    } else if c == 'r' {
        '\r'
    } else {
        c
    }
}

/// Scan the body of a quoted string, the opening quote already consumed.
/// Reaching the end of the input before the closing quote records
/// `UnterminatedString` and keeps the partial content.
pub open spec fn s_string_body(st: SpecState, acc: Seq<char>) -> (SpecState, Seq<char>)
    decreases st.rem(),
{
    match st.peek() {
        None => (st.push_err(SpecErrorKind::UnterminatedString), acc),
        Some(c) => {
            let st1 = st.advance();
            if c == '"' {
                (st1, acc)
            } else if c == '\\' {
                match st1.peek() {
                    None => (st1.push_err(SpecErrorKind::UnterminatedString), acc),
                    Some(e) => s_string_body(st1.advance(), acc.push(unescape(e))),
                }
            } else {
                s_string_body(st1, acc.push(c))
            }
        }
    }
}

/// Scan a quoted string from its opening quote.
pub open spec fn s_string(st: SpecState) -> (SpecState, Seq<char>) {
    s_string_body(st.advance(), Seq::empty())
}

/// Scan an identifier or, if the next character is a quote, a string.
pub open spec fn s_ident(st: SpecState) -> (SpecState, Seq<char>) {
    let st1 = s_skip_wsc(st);
    if st1.peek() == Some('"') {
        s_string(st1)
    } else {
        s_ident_run(st1, Seq::empty())
    }
}

/// Scan a key at the start of a line.
pub open spec fn s_key(st: SpecState) -> (SpecState, Seq<char>) {
    s_ident(s_skip_wsc(st))
}

pub proof fn lemma_ident_run_evolves(st: SpecState, acc: Seq<char>)
    ensures
        st.evolves_to(s_ident_run(st, acc).0),
        s_ident_run(st, acc).0.errors == st.errors,
    decreases st.rem(),
{
    match st.peek() {
        Some(c) => if !is_delim(c) {
            lemma_advance_evolves(st);
            lemma_ident_run_evolves(st.advance(), acc.push(c));
            lemma_evolves_trans(st, st.advance(), s_ident_run(st, acc).0);
        } else {
            lemma_advance_evolves(st);
        },
        None => {
            lemma_advance_evolves(st);
        }
    }
}

pub proof fn lemma_string_body_evolves(st: SpecState, acc: Seq<char>)
    ensures
        st.evolves_to(s_string_body(st, acc).0),
    decreases st.rem(),
{
    match st.peek() {
        None => {
            lemma_push_err_evolves(st, SpecErrorKind::UnterminatedString);
        }
        Some(c) => {
            let st1 = st.advance();
            lemma_advance_evolves(st);
            if c == '"' {
            } else if c == '\\' {
                match st1.peek() {
                    None => {
                        lemma_push_err_evolves(st1, SpecErrorKind::UnterminatedString);
                        lemma_evolves_trans(st, st1, st1.push_err(SpecErrorKind::UnterminatedString));
                    }
                    Some(e) => {
                        lemma_advance_evolves(st1);
                        lemma_string_body_evolves(st1.advance(), acc.push(unescape(e)));
                        lemma_evolves_trans(st1, st1.advance(), s_string_body(st1.advance(), acc.push(unescape(e))).0);
                        lemma_evolves_trans(st, st1, s_string_body(st, acc).0);
                    }
                }
            } else {
                lemma_string_body_evolves(st1, acc.push(c));
                lemma_evolves_trans(st, st1, s_string_body(st, acc).0);
            }
        }
    }
}

pub proof fn lemma_string_evolves(st: SpecState)
    ensures
        st.evolves_to(s_string(st).0),
{
    lemma_advance_evolves(st);
    lemma_string_body_evolves(st.advance(), Seq::empty());
    lemma_evolves_trans(st, st.advance(), s_string(st).0);
}

pub proof fn lemma_ident_evolves(st: SpecState)
    ensures
        st.evolves_to(s_ident(st).0),
{
    let st1 = s_skip_wsc(st);
    lemma_skip_wsc_evolves(st);
    if st1.peek() == Some('"') {
        lemma_string_evolves(st1);
        lemma_evolves_trans(st, st1, s_string(st1).0);
    } else {
        lemma_ident_run_evolves(st1, Seq::empty());
        lemma_evolves_trans(st, st1, s_ident_run(st1, Seq::empty()).0);
    }
}

pub proof fn lemma_key_evolves(st: SpecState)
    ensures
        st.evolves_to(s_key(st).0),
{
    lemma_skip_wsc_evolves(st);
    lemma_ident_evolves(s_skip_wsc(st));
    lemma_evolves_trans(st, s_skip_wsc(st), s_key(st).0);
}

/// Scan a maximal run of decimal digits, accumulating them.
pub open spec fn s_digits(st: SpecState, acc: Seq<char>) -> (SpecState, Seq<char>)
    decreases st.rem(),
{
    match st.peek() {
        Some(c) => if is_digit(c) {
            s_digits(st.advance(), acc.push(c))
        } else {
            (st, acc)
        },
        None => (st, acc),
    }
}

/// The non-negative numeric value of a digit string, most significant first.
pub open spec fn dec_val(ds: Seq<char>) -> int
    decreases ds.len(),
{
    if ds.len() == 0 {
        0
    } else {
        dec_val(ds.drop_last()) * 10 + digit_val(ds.last())
    }
}

/// The literal spelling of a numeric token.
pub open spec fn num_literal(neg: bool, ints: Seq<char>, has_dot: bool, frac: Seq<char>) -> Seq<char> {
    let sign: Seq<char> = if neg { seq!['-'] } else { Seq::empty() };
    let dot: Seq<char> = if has_dot { seq!['.'] } else { Seq::empty() };
    sign + ints + dot + frac
}

/// Scan a numeric token: an optional minus sign, digits, and optionally a
/// decimal point with more digits. A token with a point becomes a `Num`
/// holding its literal spelling; one without becomes an `Int` when it has at
/// least one digit and its value fits a signed 64-bit integer. Anything else
/// records the matching format diagnostic and yields a zero placeholder.
pub open spec fn s_numeric(st: SpecState) -> (SpecState, SpecValue) {
    let neg = st.peek() == Some('-');
    let st1 = if neg { st.advance() } else { st };
    let (st2, ints) = s_digits(st1, Seq::empty());
    if st2.peek() == Some('.') {
        let (st3, frac) = s_digits(st2.advance(), Seq::empty());
        let lit = num_literal(neg, ints, true, frac);
        if ints.len() == 0 && frac.len() == 0 {
            (st3.push_err(SpecErrorKind::InvalidFloatFormat(lit)), SpecValue::Num("0.0"@))
        } else {
            (st3, SpecValue::Num(lit))
        }
    } else {
        let lit = num_literal(neg, ints, false, Seq::empty());
        if ints.len() == 0 {
            (st2.push_err(SpecErrorKind::InvalidIntegerFormat(lit)), SpecValue::Int(0))
        } else {
            let v: int = if neg { -dec_val(ints) } else { dec_val(ints) };
            if i64::MIN <= v <= i64::MAX {
                (st2, SpecValue::Int(v))
            } else {
                (st2.push_err(SpecErrorKind::InvalidIntegerFormat(lit)), SpecValue::Int(0))
            }
        }
    }
}

pub proof fn lemma_dec_val_nonneg(ds: Seq<char>)
    requires
        forall|j: int| 0 <= j < ds.len() ==> is_digit(ds[j]),
    ensures
        dec_val(ds) >= 0,
    decreases ds.len(),
{
    if ds.len() > 0 {
        assert(forall|j: int| 0 <= j < ds.len() - 1 ==> ds.drop_last()[j] == ds[j]);
        lemma_dec_val_nonneg(ds.drop_last());
        assert(is_digit(ds.last()));
    }
}

pub proof fn lemma_dec_val_step(ds: Seq<char>, i: int)
    requires
        0 <= i < ds.len(),
    ensures
        dec_val(ds.subrange(0, i + 1)) == dec_val(ds.subrange(0, i)) * 10 + digit_val(ds[i]),
{
    assert(ds.subrange(0, i + 1).drop_last() =~= ds.subrange(0, i));
    assert(ds.subrange(0, i + 1).last() == ds[i]);
}

/// Appending digits never shrinks the value.
pub proof fn lemma_dec_val_grows(ds: Seq<char>, i: int)
    requires
        0 <= i <= ds.len(),
        forall|j: int| 0 <= j < ds.len() ==> is_digit(ds[j]),
    ensures
        dec_val(ds) >= dec_val(ds.subrange(0, i)),
    decreases ds.len() - i,
{
    if i < ds.len() {
        lemma_dec_val_step(ds, i);
        assert(forall|j: int| 0 <= j < i ==> ds.subrange(0, i)[j] == ds[j]);
        lemma_dec_val_nonneg(ds.subrange(0, i));
        assert(is_digit(ds[i]));
        lemma_dec_val_grows(ds, i + 1);
    } else {
        assert(ds.subrange(0, ds.len() as int) =~= ds);
    }
}

/// Drop leading whitespace.
pub open spec fn trim_start(s: Seq<char>) -> Seq<char>
    decreases s.len(),
{
    if s.len() > 0 && is_ws(s[0]) {
        trim_start(s.drop_first())
    } else {
        s
    }
}

/// Drop trailing whitespace.
pub open spec fn trim_end(s: Seq<char>) -> Seq<char>
    decreases s.len(),
{
    if s.len() > 0 && is_ws(s.last()) {
        trim_end(s.drop_last())
    } else {
        s
    }
}

/// Drop surrounding whitespace.
pub open spec fn trim(s: Seq<char>) -> Seq<char> {
    trim_end(trim_start(s))
}

/// Consume up to (not including) the next newline or comment marker.
pub open spec fn s_line_run(st: SpecState) -> SpecState
    decreases st.rem(),
{
    match st.peek() {
        Some(c) => if c == '\n' || c == '#' {
            st
        } else {
            s_line_run(st.advance())
        },
        None => st,
    }
}

/// Consume free tuple text: up to the next `)`, comment marker, or newline.
pub open spec fn s_tuple_text_run(st: SpecState) -> SpecState
    decreases st.rem(),
{
    match st.peek() {
        Some(c) => if c == ')' || c == '#' || c == '\n' {
            st
        } else {
            s_tuple_text_run(st.advance())
        },
        None => st,
    }
}

pub proof fn lemma_line_run_evolves(st: SpecState)
    ensures
        st.evolves_to(s_line_run(st)),
        s_line_run(st).errors == st.errors,
    decreases st.rem(),
{
    match st.peek() {
        Some(c) => if c == '\n' || c == '#' {
            lemma_advance_evolves(st);
        } else {
            lemma_advance_evolves(st);
            lemma_line_run_evolves(st.advance());
            lemma_evolves_trans(st, st.advance(), s_line_run(st));
        },
        None => {
            lemma_advance_evolves(st);
        }
    }
}

pub proof fn lemma_tuple_text_run_evolves(st: SpecState)
    ensures
        st.evolves_to(s_tuple_text_run(st)),
        s_tuple_text_run(st).errors == st.errors,
    decreases st.rem(),
{
    match st.peek() {
        Some(c) => if c == ')' || c == '#' || c == '\n' {
            lemma_advance_evolves(st);
        } else {
            lemma_advance_evolves(st);
            lemma_tuple_text_run_evolves(st.advance());
            lemma_evolves_trans(st, st.advance(), s_tuple_text_run(st));
        },
        None => {
            lemma_advance_evolves(st);
        }
    }
}

/// Free text inside a tuple or after a key: `true`/`false` are booleans,
/// anything else is literal text.
pub open spec fn classify_text(t: Seq<char>) -> SpecValue {
    if t == "true"@ {
        SpecValue::Bool(true)
    } else if t == "false"@ {
        SpecValue::Bool(false)
    } else {
        SpecValue::Str(t)
    }
}

/// A free-text tuple element: the trimmed run up to `)`, `#` or newline.
pub open spec fn s_tuple_text(st: SpecState) -> (SpecState, SpecValue) {
    let st1 = s_tuple_text_run(st);
    (st1, classify_text(trim(st.input.subrange(st.pos, st1.pos))))
}

/// The index of the first entry with the given key, or -1.
pub open spec fn find_key(entries: Seq<(Seq<char>, SpecValue)>, key: Seq<char>) -> int
    decreases entries.len(),
{
    if entries.len() == 0 {
        -1
    } else if entries[0].0 == key {
        0
    } else {
        let r = find_key(entries.drop_first(), key);
        if r < 0 {
            -1
        } else {
            r + 1
        }
    }
}

/// Whether some entry has the given key.
pub open spec fn entries_has_key(entries: Seq<(Seq<char>, SpecValue)>, key: Seq<char>) -> bool {
    find_key(entries, key) >= 0
}

/// The value under the given key.
pub open spec fn entries_get(entries: Seq<(Seq<char>, SpecValue)>, key: Seq<char>) -> SpecValue {
    entries[find_key(entries, key)].1
}

/// Insert a key/value pair: an existing key has its value replaced in
/// place, a new key is appended.
pub open spec fn entries_insert(
    entries: Seq<(Seq<char>, SpecValue)>,
    key: Seq<char>,
    v: SpecValue,
) -> Seq<(Seq<char>, SpecValue)> {
    let i = find_key(entries, key);
    if i >= 0 {
        entries.update(i, (key, v))
    } else {
        entries.push((key, v))
    }
}

/// What `find_key` finds: the first entry with the key, if there is one.
pub proof fn lemma_find_key(entries: Seq<(Seq<char>, SpecValue)>, key: Seq<char>)
    ensures
        find_key(entries, key) >= 0 ==> {
            &&& find_key(entries, key) < entries.len()
            &&& entries[find_key(entries, key)].0 == key
            &&& forall|j: int| 0 <= j < find_key(entries, key) ==> entries[j].0 != key
        },
        find_key(entries, key) < 0 ==> forall|j: int|
            0 <= j < entries.len() ==> entries[j].0 != key,
    decreases entries.len(),
{
    if entries.len() > 0 && entries[0].0 != key {
        lemma_find_key(entries.drop_first(), key);
        assert(forall|j: int|
            1 <= j < entries.len() ==> entries[j] == entries.drop_first()[j - 1]);
    }
}

pub proof fn lemma_digits_evolves(st: SpecState, acc: Seq<char>)
    ensures
        st.evolves_to(s_digits(st, acc).0),
        s_digits(st, acc).0.errors == st.errors,
    decreases st.rem(),
{
    match st.peek() {
        Some(c) => if is_digit(c) {
            lemma_advance_evolves(st);
            lemma_digits_evolves(st.advance(), acc.push(c));
            lemma_evolves_trans(st, st.advance(), s_digits(st, acc).0);
        } else {
            lemma_advance_evolves(st);
        },
        None => {
            lemma_advance_evolves(st);
        }
    }
}

/// No two entries share a key.
pub open spec fn entries_unique(es: Seq<(Seq<char>, SpecValue)>) -> bool {
    forall|i: int, j: int| 0 <= i < j < es.len() ==> es[i].0 != es[j].0
}

/// `find_key` returns exactly the first index whose entry has the key.
pub proof fn lemma_find_key_first(es: Seq<(Seq<char>, SpecValue)>, key: Seq<char>, i: int)
    requires
        0 <= i < es.len(),
        es[i].0 == key,
        forall|j: int| 0 <= j < i ==> es[j].0 != key,
    ensures
        find_key(es, key) == i,
{
    lemma_find_key(es, key);
    let fk = find_key(es, key);
    if fk < 0 {
        assert(es[i].0 != key);
    } else if fk < i {
        assert(es[fk].0 != key);
        assert(es[fk].0 == key);
    } else if fk > i {
        assert(es[i].0 != key);
    }
}

/// After any value, horizontal whitespace may be followed only by a
/// newline, a comment, or the end of the input; anything else records an
/// advisory diagnostic without consuming anything.
pub open spec fn s_require_nl(st: SpecState) -> SpecState {
    let st1 = s_skip_hws(st);
    match st1.peek() {
        None => st1,
        Some(c) => if c == '\n' || c == '#' {
            st1
        } else {
            st1.push_err(SpecErrorKind::ExpectedNewlineAfterKeyValue)
        },
    }
}

/// Recover from a malformed line: consume through the next newline, then
/// skip whitespace and comments.
pub open spec fn s_synchronize(st: SpecState) -> SpecState {
    s_skip_wsc(s_skip_line(st))
}

pub proof fn lemma_require_nl_evolves(st: SpecState)
    ensures
        st.evolves_to(s_require_nl(st)),
{
    let st1 = s_skip_hws(st);
    lemma_skip_hws_evolves(st);
    match st1.peek() {
        None => {}
        Some(c) => if c == '\n' || c == '#' {
        } else {
            lemma_push_err_evolves(st1, SpecErrorKind::ExpectedNewlineAfterKeyValue);
            lemma_evolves_trans(st, st1, s_require_nl(st));
        },
    }
}

pub proof fn lemma_synchronize_evolves(st: SpecState)
    ensures
        st.evolves_to(s_synchronize(st)),
{
    lemma_skip_line_evolves(st);
    lemma_skip_wsc_evolves(s_skip_line(st));
    lemma_evolves_trans(st, s_skip_line(st), s_synchronize(st));
}

/// Parse one value, dispatched on the first significant character:
/// `(` a tuple, `"` a string, `{` a struct, `[` an array, `:` a variant
/// (whose payload, with no intervening whitespace, may be a tuple, struct
/// or array), a sign or digit a number; any other character starts a bare
/// identifier, where the words `true`/`false` are booleans and anything
/// else is text. At the end of the input an `UnexpectedEndOfInput`
/// diagnostic is recorded and the value is empty text.
pub open spec fn s_value(st: SpecState) -> (SpecState, SpecValue)
    decreases st.rem(), 3int,
    via s_value_dec
{
    let st1 = s_skip_wsc(st);
    match st1.peek() {
        None => (st1.push_err(SpecErrorKind::UnexpectedEndOfInput), SpecValue::Str(Seq::empty())),
        Some(c) => {
            if c == '(' {
                s_tuple(st1)
            } else if c == '"' {
                let (st2, s) = s_string(st1);
                (st2, SpecValue::Str(s))
            } else if c == '{' {
                let (st2, es) = s_struct_items(s_skip_wsc(st1.advance()), Seq::empty());
                (st2, SpecValue::Struct(es))
            } else if c == '[' {
                let (st2, vs) = s_array_items(st1.advance(), Seq::empty());
                (st2, SpecValue::Array(vs))
            } else if c == ':' {
                let (st2, name) = s_ident_run(st1.advance(), Seq::empty());
                match st2.peek() {
                    Some(p) => {
                        if p == '(' {
                            let (st3, pv) = s_tuple(st2);
                            (st3, SpecValue::Variant(name, Some(Box::new(pv))))
                        } else if p == '{' {
                            let (st3, es) = s_struct_items(s_skip_wsc(st2.advance()), Seq::empty());
                            (st3, SpecValue::Variant(name, Some(Box::new(SpecValue::Struct(es)))))
                        } else if p == '[' {
                            let (st3, vs) = s_array_items(st2.advance(), Seq::empty());
                            (st3, SpecValue::Variant(name, Some(Box::new(SpecValue::Array(vs)))))
                        } else {
                            (st2, SpecValue::Variant(name, None))
                        }
                    }
                    None => (st2, SpecValue::Variant(name, None)),
                }
            } else if c == '-' || is_digit(c) {
                s_numeric(st1)
            } else {
                let (st2, id) = s_ident_run(st1, Seq::empty());
                (st2, classify_text(id))
            }
        }
    }
}

#[via_fn]
proof fn s_value_dec(st: SpecState) {
    let st1 = s_skip_wsc(st);
    lemma_skip_wsc_evolves(st);
    match st1.peek() {
        Some(c) => {
            if c == '{' {
                lemma_advance_evolves(st1);
                lemma_skip_wsc_evolves(st1.advance());
            } else if c == ':' {
                lemma_advance_evolves(st1);
                lemma_ident_run_evolves(st1.advance(), Seq::empty());
                let (st2, name) = s_ident_run(st1.advance(), Seq::empty());
                lemma_advance_evolves(st2);
                lemma_skip_wsc_evolves(st2.advance());
            }
        }
        None => {}
    }
}

/// Parse a parenthesized tuple from its `(`.
pub open spec fn s_tuple(st: SpecState) -> (SpecState, SpecValue)
    decreases st.rem(), 2int,
{
    match st.peek() {
        Some(_) => {
            let (st1, items) = s_tuple_items(st.advance(), Seq::empty());
            (st1, SpecValue::Tuple(items))
        }
        None => (st, SpecValue::Tuple(Seq::empty())),
    }
}

/// The element loop of a tuple. Elements are separated by whitespace alone;
/// comments and newlines are tolerated; `)` closes the tuple; reaching the
/// end of the input records `UnexpectedEndOfInput` and closes it early. An
/// element that can start a full value is parsed as one; any other run of
/// text up to `)`, `#` or a newline is captured, trimmed and classified.
pub open spec fn s_tuple_items(st: SpecState, acc: Seq<SpecValue>) -> (SpecState, Seq<SpecValue>)
    decreases st.rem(), 4int,
    via s_tuple_items_dec
{
    let st1 = s_skip_wsc(st);
    match st1.peek() {
        None => (st1.push_err(SpecErrorKind::UnexpectedEndOfInput), acc),
        Some(c) => {
            if c == ')' {
                (st1.advance(), acc)
            } else {
                let (st2, v) = if is_value_start(c) {
                    s_value(st1)
                } else {
                    s_tuple_text(st1)
                };
                let st3 = s_skip_wsc(st2);
                let closed = st3.peek() == Some(')');
                let st4 = if closed {
                    st3.advance()
                } else {
                    st3
                };
                let acc1 = acc.push(v);
                if !closed && st4.rem() < st.rem() {
                    s_tuple_items(st4, acc1)
                } else {
                    (st4, acc1)
                }
            }
        }
    }
}

#[via_fn]
proof fn s_tuple_items_dec(st: SpecState, acc: Seq<SpecValue>) {
    lemma_skip_wsc_evolves(st);
}

/// The element loop of an array. Elements are separated by whitespace
/// alone; `]` closes the array; reaching the end of the input records
/// `UnexpectedEndOfInput` and closes it early. A character that cannot
/// start or continue any element (so the cursor would not move) records
/// `UnexpectedCharacter` and is skipped.
pub open spec fn s_array_items(st: SpecState, acc: Seq<SpecValue>) -> (SpecState, Seq<SpecValue>)
    decreases st.rem(), 7int,
    via s_array_items_dec
{
    let st1 = s_skip_wsc(st);
    match st1.peek() {
        None => (st1.push_err(SpecErrorKind::UnexpectedEndOfInput), acc),
        Some(c) => {
            if c == ']' {
                (st1.advance(), acc)
            } else {
                let (st2, v) = s_value(st1);
                if st2.rem() < st.rem() {
                    s_array_items(st2, acc.push(v))
                } else {
                    let st3 = st2.push_err(SpecErrorKind::UnexpectedCharacter(c)).advance();
                    if st3.rem() < st.rem() {
                        s_array_items(st3, acc)
                    } else {
                        (st3, acc)
                    }
                }
            }
        }
    }
}

#[via_fn]
proof fn s_array_items_dec(st: SpecState, acc: Seq<SpecValue>) {
    lemma_skip_wsc_evolves(st);
}

/// Parse the value of a key at document or struct level. A `(` starts a
/// tuple. Otherwise one value is parsed; if, after horizontal whitespace,
/// the line still goes on (not a newline, comment, `}` or the end of the
/// input), the whole remainder of the line from just after the key is taken
/// as one literal string, trimmed; if that text is empty the single value
/// stands and the cursor returns to where it was parsed.
pub open spec fn s_field_value(st: SpecState) -> (SpecState, SpecValue)
    decreases st.rem(), 5int,
    via s_field_value_dec
{
    let st1 = s_skip_hws(st);
    if st1.peek() == Some('(') {
        s_tuple(st1)
    } else {
        let start = st1.pos;
        let (st2, first) = s_value(st1);
        let st3 = s_skip_hws(st2);
        match st3.peek() {
            None => (st3, first),
            Some(c) => {
                if c == '\n' || c == '#' || c == '}' {
                    (st3, first)
                } else {
                    let st4 = s_line_run(st3);
                    let t = trim(st4.input.subrange(start, st4.pos));
                    if t.len() == 0 {
                        (SpecState { errors: st4.errors, ..st1 }, first)
                    } else {
                        (st4, SpecValue::Str(t))
                    }
                }
            }
        }
    }
}

#[via_fn]
proof fn s_field_value_dec(st: SpecState) {
    lemma_skip_hws_evolves(st);
}

/// One key/value step of the document or struct loop. An empty key records
/// `UnexpectedCharacter` and resynchronizes at the next line; a key with
/// nothing after it on its line records `ExpectedValueOnSameLine` and drops
/// the key; otherwise the field value is parsed, the line ending is
/// checked, and whitespace and comments are skipped. The returned pair, if
/// any, is the entry to insert.
pub open spec fn s_kv_step(st: SpecState) -> (SpecState, Option<(Seq<char>, SpecValue)>)
    decreases st.rem(), 6int,
    via s_kv_step_dec
{
    let (st1, key) = s_key(st);
    if key.len() == 0 {
        let st2 = match st1.peek() {
            Some(c) => st1.push_err(SpecErrorKind::UnexpectedCharacter(c)),
            None => st1,
        };
        (s_synchronize(st2), None)
    } else {
        let st2 = if st1.peek() == Some(':') {
            st1.advance()
        } else {
            st1
        };
        let st3 = s_skip_hws(st2);
        if st3.peek() == Some('\n') || st3.at_end() {
            let st4 = st3.push_err(SpecErrorKind::ExpectedValueOnSameLine);
            let st5 = if st4.peek() == Some('\n') {
                st4.advance()
            } else {
                st4
            };
            (st5, None)
        } else {
            let (st4, v) = s_field_value(st3);
            let st5 = s_require_nl(st4);
            let st6 = s_skip_wsc(st5);
            (st6, Some((key, v)))
        }
    }
}

#[via_fn]
proof fn s_kv_step_dec(st: SpecState) {
    let (st1, key) = s_key(st);
    lemma_key_evolves(st);
    if key.len() > 0 {
        let st2 = if st1.peek() == Some(':') {
            st1.advance()
        } else {
            st1
        };
        lemma_advance_evolves(st1);
        lemma_skip_hws_evolves(st2);
    }
}

/// The body loop of a `{...}` block: `}` closes it; reaching the end of
/// the input records `UnterminatedBlock` and keeps the entries collected
/// so far; otherwise one key/value step runs and its entry, if any, is
/// inserted.
pub open spec fn s_struct_items(
    st: SpecState,
    acc: Seq<(Seq<char>, SpecValue)>,
) -> (SpecState, Seq<(Seq<char>, SpecValue)>)
    decreases st.rem(), 7int,
{
    match st.peek() {
        None => (st.push_err(SpecErrorKind::UnterminatedBlock), acc),
        Some(c) => {
            if c == '}' {
                (st.advance(), acc)
            } else {
                let (st1, kv) = s_kv_step(st);
                let acc1 = match kv {
                    Some(p) => entries_insert(acc, p.0, p.1),
                    None => acc,
                };
                if st1.rem() < st.rem() {
                    s_struct_items(st1, acc1)
                } else {
                    (st1, acc1)
                }
            }
        }
    }
}

/// The document loop: key/value steps until the input is exhausted.
pub open spec fn s_root_items(
    st: SpecState,
    acc: Seq<(Seq<char>, SpecValue)>,
) -> (SpecState, Seq<(Seq<char>, SpecValue)>)
    decreases st.rem(), 7int,
{
    if st.at_end() {
        (st, acc)
    } else {
        let (st1, kv) = s_kv_step(st);
        let acc1 = match kv {
            Some(p) => entries_insert(acc, p.0, p.1),
            None => acc,
        };
        if st1.rem() < st.rem() {
            s_root_items(st1, acc1)
        } else {
            (st1, acc1)
        }
    }
}

/// One whole parse from a given state: leading whitespace and comments,
/// then the document loop. Yields the final state (whose diagnostics are
/// those of the parse) and the root entries.
pub open spec fn s_parse_doc(st: SpecState) -> (SpecState, Seq<(Seq<char>, SpecValue)>) {
    s_root_items(s_skip_wsc(st), Seq::empty())
}

} // verus!
