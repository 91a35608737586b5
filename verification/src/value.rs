//! The value tree a parse produces, and its ordered key/value map.

use vstd::prelude::*;
use vstd::string::StringExecFns;
use crate::model::SpecValue;
use crate::model::SpecError;
use crate::model::SpecErrorKind;
use crate::model::entries_get;
use crate::model::entries_has_key;
use crate::model::entries_insert;
use crate::model::find_key;
use crate::model::lemma_find_key;

verus! {

/// The kinds of defect a parse can record.
#[derive(Debug, Clone)]
pub enum ErrorKind {
    ExpectedValueOnSameLine,
    ExpectedNewlineAfterKeyValue,
    UnterminatedBlock,
    UnterminatedString,
    InvalidUtf8InNumber,
    InvalidFloatFormat(String),
    InvalidIntegerFormat(String),
    UnexpectedEndOfInput,
    UnexpectedCharacter(char),
}

/// A diagnostic with the 1-based cursor coordinates at which the defect was
/// detected.
#[derive(Debug, Clone)]
pub struct ParseError {
    pub line: usize,
    pub column: usize,
    pub kind: ErrorKind,
}

/// A parsed value.
///
/// A decimal number (`Num`) keeps its literal spelling, so no precision is
/// lost; callers convert it to their floating-point type of choice.
#[derive(Debug)]
pub enum Value {
    Str(String),
    Int(i64),
    Num(String),
    Bool(bool),
    Variant(String, Option<Box<Value>>),
    Struct(Struct),
    Array(Vec<Value>),
    Tuple(Vec<Value>),
}

/// An ordered mapping from string keys to values: iteration follows
/// insertion order, and inserting an existing key replaces its value in
/// place, so the map never holds two entries with the same key.
#[derive(Debug)]
pub struct Struct {
    entries: Vec<(String, Value)>,
}

/// The model of a value: text becomes its character sequence, and nested
/// collections become sequences of models.
pub open spec fn view_value(v: Value) -> SpecValue
    decreases v,
{
    match v {
        Value::Str(s) => SpecValue::Str(s@),
        Value::Int(i) => SpecValue::Int(i as int),
        Value::Num(s) => SpecValue::Num(s@),
        Value::Bool(b) => SpecValue::Bool(b),
        Value::Variant(n, p) => SpecValue::Variant(
            n@,
            match p {
                Some(bx) => Some(Box::new(view_value(*bx))),
                None => None,
            },
        ),
        Value::Struct(m) => SpecValue::Struct(struct_view(m)),
        Value::Array(vs) => SpecValue::Array(view_values(vs@)),
        Value::Tuple(vs) => SpecValue::Tuple(view_values(vs@)),
    }
}

/// The models of a sequence of values, in order.
pub open spec fn view_values(vs: Seq<Value>) -> Seq<SpecValue>
    decreases vs,
{
    if vs.len() == 0 {
        Seq::empty()
    } else {
        view_values(vs.drop_last()).push(view_value(vs.last()))
    }
}

/// The models of a sequence of map entries, in order.
pub open spec fn view_entries(es: Seq<(String, Value)>) -> Seq<(Seq<char>, SpecValue)>
    decreases es,
{
    if es.len() == 0 {
        Seq::empty()
    } else {
        view_entries(es.drop_last()).push((es.last().0@, view_value(es.last().1)))
    }
}

/// The model of an ordered map: its entries in insertion order.
pub closed spec fn struct_view(m: Struct) -> Seq<(Seq<char>, SpecValue)>
    decreases m,
{
    view_entries(m.entries@)
}

impl View for Struct {
    type V = Seq<(Seq<char>, SpecValue)>;

    open spec fn view(&self) -> Seq<(Seq<char>, SpecValue)> {
        struct_view(*self)
    }
}

pub proof fn lemma_view_values_index(vs: Seq<Value>)
    ensures
        view_values(vs).len() == vs.len(),
        forall|i: int| 0 <= i < vs.len() ==> view_values(vs)[i] == view_value(vs[i]),
    decreases vs.len(),
{
    if vs.len() > 0 {
        lemma_view_values_index(vs.drop_last());
        assert(forall|i: int| 0 <= i < vs.len() - 1 ==> vs.drop_last()[i] == vs[i]);
    }
}

pub proof fn lemma_view_values_push(vs: Seq<Value>, v: Value)
    ensures
        view_values(vs.push(v)) == view_values(vs).push(view_value(v)),
{
    assert(vs.push(v).drop_last() =~= vs);
    assert(vs.push(v).last() == v);
}

pub proof fn lemma_view_entries_index(es: Seq<(String, Value)>)
    ensures
        view_entries(es).len() == es.len(),
        forall|i: int| 0 <= i < es.len() ==> view_entries(es)[i] == (es[i].0@, view_value(
            es[i].1,
        )),
    decreases es.len(),
{
    if es.len() > 0 {
        lemma_view_entries_index(es.drop_last());
        assert(forall|i: int| 0 <= i < es.len() - 1 ==> es.drop_last()[i] == es[i]);
    }
}

impl Struct {
    /// An empty map.
    pub fn new() -> (r: Struct)
        ensures
            r@ == Seq::<(Seq<char>, SpecValue)>::empty(),
    {
        Struct { entries: Vec::new() }
    }

    /// How many entries the map holds.
    pub fn len(&self) -> (r: usize)
        ensures
            r == self@.len(),
    {
        proof {
            lemma_view_entries_index(self.entries@);
        }
        self.entries.len()
    }

    /// The position of the first entry with this key, if any.
    fn find_index(&self, key: &String) -> (r: Option<usize>)
        ensures
            match r {
                Some(i) => i as int == find_key(self@, key@),
                None => find_key(self@, key@) < 0,
            },
    {
        proof {
            lemma_view_entries_index(self.entries@);
            lemma_find_key(self@, key@);
        }
        let n = self.entries.len();
        let mut i: usize = 0;
        while i < n
            invariant
                n == self.entries.len(),
                0 <= i <= n,
                forall|j: int| 0 <= j < i ==> self@[j].0 != key@,
                self@.len() == n,
                forall|j: int| 0 <= j < n ==> self@[j] == (self.entries@[j].0@, view_value(
                    self.entries@[j].1,
                )),
            decreases n - i,
        {
            if self.entries[i].0 == *key {
                proof {
                    assert(self@[i as int].0 == key@);
                    lemma_find_key(self@, key@);
                    let fk = find_key(self@, key@);
                    if fk < 0 {
                        assert(self@[i as int].0 != key@);
                    } else if fk < i as int {
                        assert(self@[fk].0 != key@);
                        assert(self@[fk].0 == key@);
                    } else if fk > i as int {
                        assert(self@[i as int].0 != key@);
                    }
                }
                return Some(i);
            }
            i = i + 1;
        }
        proof {
            lemma_find_key(self@, key@);
        }
        None
    }

    /// Look a key up: the value under it, or nothing when the key is
    /// absent.
    pub fn get(&self, key: &str) -> (r: Option<&Value>)
        ensures
            match r {
                Some(v) => entries_has_key(self@, key@) && view_value(*v) == entries_get(
                    self@,
                    key@,
                ),
                None => !entries_has_key(self@, key@),
            },
    {
        let k = String::from_str(key);
        match self.find_index(&k) {
            Some(i) => {
                proof {
                    lemma_view_entries_index(self.entries@);
                    lemma_find_key(self@, key@);
                }
                Some(&self.entries[i].1)
            }
            None => None,
        }
    }

    /// Insert a key/value pair: an existing key has its value replaced in
    /// place, a new key is appended at the end.
    pub fn insert(&mut self, key: String, v: Value)
        ensures
            final(self)@ == entries_insert(old(self)@, key@, view_value(v)),
    {
        proof {
            lemma_find_key(self@, key@);
        }
        match self.find_index(&key) {
            Some(i) => {
                proof {
                    lemma_view_entries_index(self.entries@);
                    lemma_view_entries_index(self.entries@.update(i as int, (key, v)));
                }
                let ghost old_entries = self.entries@;
                self.entries.set(i, (key, v));
                proof {
                    assert(self.entries@ == old_entries.update(
                        i as int,
                        (self.entries@[i as int].0, self.entries@[i as int].1),
                    ));
                    lemma_view_entries_index(old_entries);
                    lemma_view_entries_index(self.entries@);
                    assert(self@ =~= entries_insert(old(self)@, key@, view_value(v)));
                }
            }
            None => {
                let ghost old_entries = self.entries@;
                self.entries.push((key, v));
                proof {
                    lemma_view_entries_index(old_entries);
                    lemma_view_entries_index(self.entries@);
                    assert(self@ =~= entries_insert(old(self)@, key@, view_value(v)));
                }
            }
        }
    }
}

/// The model of a diagnostic kind.
pub open spec fn view_kind(k: ErrorKind) -> SpecErrorKind {
    match k {
        ErrorKind::ExpectedValueOnSameLine => SpecErrorKind::ExpectedValueOnSameLine,
        ErrorKind::ExpectedNewlineAfterKeyValue => SpecErrorKind::ExpectedNewlineAfterKeyValue,
        ErrorKind::UnterminatedBlock => SpecErrorKind::UnterminatedBlock,
        ErrorKind::UnterminatedString => SpecErrorKind::UnterminatedString,
        ErrorKind::InvalidUtf8InNumber => SpecErrorKind::InvalidUtf8InNumber,
        ErrorKind::InvalidFloatFormat(s) => SpecErrorKind::InvalidFloatFormat(s@),
        ErrorKind::InvalidIntegerFormat(s) => SpecErrorKind::InvalidIntegerFormat(s@),
        ErrorKind::UnexpectedEndOfInput => SpecErrorKind::UnexpectedEndOfInput,
        ErrorKind::UnexpectedCharacter(c) => SpecErrorKind::UnexpectedCharacter(c),
    }
}

/// The model of a diagnostic.
pub open spec fn view_error(e: ParseError) -> SpecError {
    SpecError { line: e.line as int, column: e.column as int, kind: view_kind(e.kind) }
}

/// The models of a list of diagnostics, in order.
pub open spec fn view_errors(es: Seq<ParseError>) -> Seq<SpecError> {
    Seq::new(es.len(), |i: int| view_error(es[i]))
}

impl Value {
    /// The entries of a struct value, or nothing for any other shape.
    pub fn as_struct(&self) -> (r: Option<&Struct>)
        ensures
            match r {
                Some(m) => view_value(*self) == SpecValue::Struct(m@),
                None => !(view_value(*self) is Struct),
            },
    {
        match self {
            Value::Struct(m) => Some(m),
            _ => None,
        }
    }

    /// The text of a string value, or nothing for any other shape.
    pub fn as_str(&self) -> (r: Option<&str>)
        ensures
            match r {
                Some(s) => view_value(*self) == SpecValue::Str(s@),
                None => !(view_value(*self) is Str),
            },
    {
        match self {
            Value::Str(s) => Some(s.as_str()),
            _ => None,
        }
    }

    /// The literal spelling of a decimal number value, or nothing for any
    /// other shape.
    pub fn as_num(&self) -> (r: Option<&str>)
        ensures
            match r {
                Some(s) => view_value(*self) == SpecValue::Num(s@),
                None => !(view_value(*self) is Num),
            },
    {
        match self {
            Value::Num(s) => Some(s.as_str()),
            _ => None,
        }
    }

    /// The value of an integer, or nothing for any other shape.
    pub fn as_int(&self) -> (r: Option<i64>)
        ensures
            match r {
                Some(i) => view_value(*self) == SpecValue::Int(i as int),
                None => !(view_value(*self) is Int),
            },
    {
        match self {
            Value::Int(i) => Some(*i),
            _ => None,
        }
    }

    /// The value of a boolean, or nothing for any other shape.
    pub fn as_bool(&self) -> (r: Option<bool>)
        ensures
            match r {
                Some(b) => view_value(*self) == SpecValue::Bool(b),
                None => !(view_value(*self) is Bool),
            },
    {
        match self {
            Value::Bool(b) => Some(*b),
            _ => None,
        }
    }

    /// The elements of an array value, or nothing for any other shape.
    pub fn as_array(&self) -> (r: Option<&Vec<Value>>)
        ensures
            match r {
                Some(a) => view_value(*self) == SpecValue::Array(view_values(a@)),
                None => !(view_value(*self) is Array),
            },
    {
        match self {
            Value::Array(a) => Some(a),
            _ => None,
        }
    }

    /// The name of a variant value, or nothing for any other shape.
    pub fn as_variant(&self) -> (r: Option<&str>)
        ensures
            match r {
                Some(n) => view_value(*self) matches SpecValue::Variant(nm, _) && nm == n@,
                None => !(view_value(*self) is Variant),
            },
    {
        match self {
            Value::Variant(n, _) => Some(n.as_str()),
            _ => None,
        }
    }

    /// The name and optional payload of a variant value, or nothing for
    /// any other shape.
    pub fn as_variant_with_payload(&self) -> (r: Option<(&str, Option<&Value>)>)
        ensures
            match r {
                Some(p) => view_value(*self) == SpecValue::Variant(
                    p.0@,
                    match p.1 {
                        Some(pv) => Some(Box::new(view_value(*pv))),
                        None => None,
                    },
                ),
                None => !(view_value(*self) is Variant),
            },
    {
        match self {
            Value::Variant(n, p) => {
                let pr: Option<&Value> = match p {
                    Some(b) => Some(&**b),
                    None => None,
                };
                Some((n.as_str(), pr))
            }
            _ => None,
        }
    }

    /// The elements of a tuple value, or nothing for any other shape.
    pub fn as_tuple(&self) -> (r: Option<&[Value]>)
        ensures
            match r {
                Some(t) => view_value(*self) == SpecValue::Tuple(view_values(t@)),
                None => !(view_value(*self) is Tuple),
            },
    {
        match self {
            Value::Tuple(t) => Some(t.as_slice()),
            _ => None,
        }
    }

    /// The first two elements of a tuple value of at least two elements,
    /// or nothing otherwise.
    pub fn as_pair(&self) -> (r: Option<(&Value, &Value)>)
        ensures
            match r {
                Some(p) => {
                    &&& view_value(*self) matches SpecValue::Tuple(vs)
                    &&& view_values_of(*self).len() >= 2
                    &&& view_value(*p.0) == view_values_of(*self)[0]
                    &&& view_value(*p.1) == view_values_of(*self)[1]
                },
                None => !(view_value(*self) matches SpecValue::Tuple(vs) && vs.len() >= 2),
            },
    {
        match self {
            Value::Tuple(items) => {
                if items.len() >= 2 {
                    proof {
                        lemma_view_values_index(items@);
                    }
                    Some((&items[0], &items[1]))
                } else {
                    proof {
                        lemma_view_values_index(items@);
                    }
                    None
                }
            }
            _ => None,
        }
    }
}

/// The element models of a tuple value; empty for any other shape.
pub open spec fn view_values_of(v: Value) -> Seq<SpecValue> {
    match view_value(v) {
        SpecValue::Tuple(vs) => vs,
        _ => Seq::empty(),
    }
}

} // verus!
