//! Laws that hold of the parser as a whole.
//!
//! Termination on every finite input is not stated here as a lemma: it is
//! checked directly, since every loop and every recursive function of this
//! crate carries a `decreases` measure.

use vstd::prelude::*;
use crate::model::SpecState;
use crate::model::SpecValue;
use crate::model::dec_val;
use crate::model::entries_get;
use crate::model::entries_has_key;
use crate::model::entries_insert;
use crate::model::entries_unique;
use crate::model::find_key;
use crate::model::is_digit;
use crate::model::lemma_advance_evolves;
use crate::model::lemma_find_key;
use crate::model::lemma_find_key_first;
use crate::model::num_literal;
use crate::model::s_digits;
use crate::model::s_kv_step;
use crate::model::s_numeric;
use crate::model::s_parse_doc;
use crate::model::s_root_items;
use crate::model::s_skip_wsc;
use crate::model::s_struct_items;
use crate::model::s_value;
use crate::model::s_tuple;
use crate::model::s_tuple_items;
use crate::model::s_array_items;
use crate::model::s_field_value;

verus! {

/// Determinism: parsing the same text from equal starting states yields
/// structurally identical value trees and identical diagnostics, with the
/// same kinds, coordinates, and order.
pub proof fn lemma_parse_deterministic(a: SpecState, b: SpecState)
    requires
        a.input == b.input,
        a.pos == b.pos,
        a.line == b.line,
        a.column == b.column,
        a.errors == b.errors,
    ensures
        s_parse_doc(a) == s_parse_doc(b),
{
    assert(a =~= b);
}

/// `s_digits` collects exactly a maximal digit run of length `k` under the
/// cursor, consuming it and recording nothing.
pub proof fn lemma_digits_run(st: SpecState, k: int, acc: Seq<char>)
    requires
        st.wf(),
        0 <= k,
        st.pos + k <= st.len(),
        forall|p: int| st.pos <= p < st.pos + k ==> is_digit(#[trigger] st.input[p]),
        st.pos + k < st.len() ==> !is_digit(st.input[st.pos + k]),
    ensures
        ({
            let (st2, ds) = s_digits(st, acc);
            &&& ds == acc + st.input.subrange(st.pos, st.pos + k)
            &&& st2.pos == st.pos + k
            &&& st2.input == st.input
            &&& st2.line == st.line
            &&& st2.column == st.column + k
            &&& st2.errors == st.errors
            &&& st2.wf()
        }),
    decreases k,
{
    lemma_advance_evolves(st);
    if k == 0 {
        assert(acc + st.input.subrange(st.pos, st.pos) =~= acc);
    } else {
        let c = st.input[st.pos];
        assert(is_digit(c));
        assert(c != '\n');
        let stn = st.advance();
        assert forall|p: int| stn.pos <= p < stn.pos + (k - 1) implies is_digit(
            #[trigger] stn.input[p],
        ) by {
            assert(is_digit(st.input[p]));
        }
        lemma_digits_run(st.advance(), k - 1, acc.push(c));
        assert(acc.push(c) + st.input.subrange(st.pos + 1, st.pos + k) =~= acc + st.input.subrange(
            st.pos,
            st.pos + k,
        ));
    }
}

/// Round-trip integer fidelity: for a token `-?[0-9]+` of `k` digits,
/// ended by any character that can extend neither the digit run nor a
/// decimal fraction, whose signed value fits a 64-bit integer, the scanned
/// value is exactly that integer and no diagnostic is recorded.
pub proof fn lemma_integer_token_exact(st: SpecState, neg: bool, k: int)
    requires
        st.wf(),
        neg ==> st.peek() == Some('-'),
        !neg ==> (st.pos < st.len() && is_digit(st.input[st.pos])),
        1 <= k,
        ({
            let base = st.pos + if neg { 1int } else { 0int };
            &&& base + k <= st.len()
            &&& forall|p: int| base <= p < base + k ==> is_digit(#[trigger] st.input[p])
            &&& (base + k < st.len() ==> (!is_digit(st.input[base + k]) && st.input[base + k]
                != '.'))
        }),
        ({
            let base = st.pos + if neg { 1int } else { 0int };
            let v = if neg {
                -dec_val(st.input.subrange(base, base + k))
            } else {
                dec_val(st.input.subrange(base, base + k))
            };
            i64::MIN <= v <= i64::MAX
        }),
    ensures
        ({
            let base = st.pos + if neg { 1int } else { 0int };
            let v = if neg {
                -dec_val(st.input.subrange(base, base + k))
            } else {
                dec_val(st.input.subrange(base, base + k))
            };
            let (st2, sv) = s_numeric(st);
            &&& sv == SpecValue::Int(v)
            &&& st2.errors == st.errors
            &&& st2.pos == base + k
            &&& st2.input == st.input
        }),
{
    let base = st.pos + if neg { 1int } else { 0int };
    lemma_advance_evolves(st);
    let st1 = if neg {
        st.advance()
    } else {
        st
    };
    assert(st1.pos == base);
    assert forall|p: int| st1.pos <= p < st1.pos + k implies is_digit(#[trigger] st1.input[p]) by {
        assert(is_digit(st.input[p]));
    }
    lemma_digits_run(st1, k, Seq::empty());
    let (st2, ints) = s_digits(st1, Seq::empty());
    assert(ints =~= st.input.subrange(base, base + k));
    assert(st2.peek() != Some('.'));
    assert(ints.len() == k);
}

/// Round-trip decimal fidelity: for a token `-?[0-9]*.[0-9]*` with `k`
/// digits before the point, `m` digits after it, and at least one digit in
/// all, ended by any non-digit character, the scanned value is a `Num`
/// holding exactly the token's text, and no diagnostic is recorded.
pub proof fn lemma_decimal_token_exact(st: SpecState, neg: bool, k: int, m: int)
    requires
        st.wf(),
        neg ==> st.peek() == Some('-'),
        !neg ==> (st.pos < st.len() && is_digit(st.input[st.pos])),
        0 <= k,
        0 <= m,
        1 <= k + m,
        ({
            let base = st.pos + if neg { 1int } else { 0int };
            &&& base + k + 1 + m <= st.len()
            &&& forall|p: int| base <= p < base + k ==> is_digit(#[trigger] st.input[p])
            &&& st.input[base + k] == '.'
            &&& forall|p: int| base + k + 1 <= p < base + k + 1 + m ==> is_digit(
                #[trigger] st.input[p],
            )
            &&& (base + k + 1 + m < st.len() ==> !is_digit(st.input[base + k + 1 + m]))
        }),
    ensures
        ({
            let base = st.pos + if neg { 1int } else { 0int };
            let (st2, sv) = s_numeric(st);
            &&& sv == SpecValue::Num(st.input.subrange(st.pos, base + k + 1 + m))
            &&& st2.errors == st.errors
            &&& st2.pos == base + k + 1 + m
            &&& st2.input == st.input
        }),
{
    let base = st.pos + if neg { 1int } else { 0int };
    lemma_advance_evolves(st);
    let st1 = if neg {
        st.advance()
    } else {
        st
    };
    assert(st1.pos == base);
    assert forall|p: int| st1.pos <= p < st1.pos + k implies is_digit(#[trigger] st1.input[p]) by {
        assert(is_digit(st.input[p]));
    }
    lemma_digits_run(st1, k, Seq::empty());
    let (st2, ints) = s_digits(st1, Seq::empty());
    assert(ints =~= st.input.subrange(base, base + k));
    assert(st2.peek() == Some('.'));
    lemma_advance_evolves(st2);
    let stf = st2.advance();
    assert forall|p: int| stf.pos <= p < stf.pos + m implies is_digit(#[trigger] stf.input[p]) by {
        assert(is_digit(st.input[p]));
    }
    lemma_digits_run(st2.advance(), m, Seq::empty());
    let (st3, frac) = s_digits(st2.advance(), Seq::empty());
    assert(frac =~= st.input.subrange(base + k + 1, base + k + 1 + m));
    assert(num_literal(neg, ints, true, frac) =~= st.input.subrange(st.pos, base + k + 1 + m));
}

/// Inserting never breaks key uniqueness.
pub proof fn lemma_insert_preserves_unique(
    es: Seq<(Seq<char>, SpecValue)>,
    key: Seq<char>,
    v: SpecValue,
)
    requires
        entries_unique(es),
    ensures
        entries_unique(entries_insert(es, key, v)),
{
    lemma_find_key(es, key);
    let fk = find_key(es, key);
    if fk >= 0 {
        let es2 = es.update(fk, (key, v));
        assert forall|i: int, j: int| 0 <= i < j < es2.len() implies es2[i].0 != es2[j].0 by {
            if i == fk {
                assert(es[j].0 != es[fk].0);
            } else if j == fk {
                assert(es[i].0 != es[fk].0);
            }
        }
    } else {
        let es2 = es.push((key, v));
        assert forall|i: int, j: int| 0 <= i < j < es2.len() implies es2[i].0 != es2[j].0 by {
            if j == es.len() {
                assert(es[i].0 != key);
            }
        }
    }
}

/// An insertion leaves exactly the inserted value under its key: a later
/// duplicate key overwrites the earlier entry, and the map never holds two
/// entries with the same key.
pub proof fn lemma_insert_overwrites(es: Seq<(Seq<char>, SpecValue)>, key: Seq<char>, v: SpecValue)
    ensures
        entries_has_key(entries_insert(es, key, v), key),
        entries_get(entries_insert(es, key, v), key) == v,
        entries_insert(es, key, v).len() == if entries_has_key(es, key) {
            es.len()
        } else {
            es.len() + 1
        },
{
    lemma_find_key(es, key);
    let fk = find_key(es, key);
    if fk >= 0 {
        let es2 = es.update(fk, (key, v));
        lemma_find_key_first(es2, key, fk);
    } else {
        let es2 = es.push((key, v));
        lemma_find_key_first(es2, key, es.len() as int);
    }
}

/// Every struct inside the value, however deeply nested, has pairwise
/// distinct keys.
pub open spec fn value_keys_unique(sv: SpecValue) -> bool
    decreases sv,
{
    match sv {
        SpecValue::Variant(_, p) => match p {
            Some(b) => value_keys_unique(*b),
            None => true,
        },
        SpecValue::Struct(es) => entries_unique(es) && entries_values_unique(es),
        SpecValue::Array(vs) => values_keys_unique(vs),
        SpecValue::Tuple(vs) => values_keys_unique(vs),
        _ => true,
    }
}

/// `value_keys_unique` over each element.
pub open spec fn values_keys_unique(vs: Seq<SpecValue>) -> bool
    decreases vs,
{
    if vs.len() == 0 {
        true
    } else {
        values_keys_unique(vs.drop_last()) && value_keys_unique(vs.last())
    }
}

/// `value_keys_unique` over each entry's value.
pub open spec fn entries_values_unique(es: Seq<(Seq<char>, SpecValue)>) -> bool
    decreases es,
{
    if es.len() == 0 {
        true
    } else {
        entries_values_unique(es.drop_last()) && value_keys_unique(es.last().1)
    }
}

pub proof fn lemma_values_keys_unique_index(vs: Seq<SpecValue>)
    ensures
        values_keys_unique(vs) <==> forall|i: int|
            0 <= i < vs.len() ==> value_keys_unique(#[trigger] vs[i]),
    decreases vs.len(),
{
    if vs.len() > 0 {
        lemma_values_keys_unique_index(vs.drop_last());
        assert(forall|i: int| 0 <= i < vs.len() - 1 ==> vs.drop_last()[i] == vs[i]);
    }
}

pub proof fn lemma_entries_values_unique_index(es: Seq<(Seq<char>, SpecValue)>)
    ensures
        entries_values_unique(es) <==> forall|i: int|
            0 <= i < es.len() ==> value_keys_unique(#[trigger] es[i].1),
    decreases es.len(),
{
    if es.len() > 0 {
        lemma_entries_values_unique_index(es.drop_last());
        assert(forall|i: int| 0 <= i < es.len() - 1 ==> es.drop_last()[i] == es[i]);
    }
}

/// Inserting a value with unique nested keys keeps every entry's value so.
pub proof fn lemma_insert_values_unique(
    es: Seq<(Seq<char>, SpecValue)>,
    key: Seq<char>,
    v: SpecValue,
)
    requires
        entries_values_unique(es),
        value_keys_unique(v),
    ensures
        entries_values_unique(entries_insert(es, key, v)),
{
    lemma_find_key(es, key);
    lemma_entries_values_unique_index(es);
    let fk = find_key(es, key);
    if fk >= 0 {
        lemma_entries_values_unique_index(es.update(fk, (key, v)));
    } else {
        lemma_entries_values_unique_index(es.push((key, v)));
    }
}

/// A variant wrapping a payload with unique nested keys has them too.
proof fn lemma_variant_unique(name: Seq<char>, pv: SpecValue)
    requires
        value_keys_unique(pv),
    ensures
        value_keys_unique(SpecValue::Variant(name, Some(Box::new(pv)))),
{
    assert(*Box::new(pv) == pv);
}

pub proof fn lemma_s_value_deep_unique(st: SpecState)
    ensures
        value_keys_unique(s_value(st).1),
    decreases st.rem(), 3int,
{
    let st1 = s_skip_wsc(st);
    crate::model::lemma_skip_wsc_evolves(st);
    match st1.peek() {
        None => {}
        Some(c) => {
            if c == '(' {
                lemma_s_tuple_deep_unique(st1);
            } else if c == '"' {
            } else if c == '{' {
                crate::model::lemma_advance_evolves(st1);
                crate::model::lemma_skip_wsc_evolves(st1.advance());
                assert(entries_values_unique(Seq::<(Seq<char>, SpecValue)>::empty()));
                lemma_s_struct_items_deep_unique(s_skip_wsc(st1.advance()), Seq::empty());
            } else if c == '[' {
                crate::model::lemma_advance_evolves(st1);
                assert(values_keys_unique(Seq::<SpecValue>::empty()));
                lemma_s_array_items_deep_unique(st1.advance(), Seq::empty());
            } else if c == ':' {
                crate::model::lemma_advance_evolves(st1);
                crate::model::lemma_ident_run_evolves(st1.advance(), Seq::empty());
                let (st2, name) = crate::model::s_ident_run(st1.advance(), Seq::empty());
                match st2.peek() {
                    Some(p) => {
                        if p == '(' {
                            lemma_s_tuple_deep_unique(st2);
                            lemma_variant_unique(name, s_tuple(st2).1);
                        } else if p == '{' {
                            crate::model::lemma_advance_evolves(st2);
                            crate::model::lemma_skip_wsc_evolves(st2.advance());
                            assert(entries_values_unique(Seq::<(Seq<char>, SpecValue)>::empty()));
                            lemma_s_struct_items_deep_unique(
                                s_skip_wsc(st2.advance()),
                                Seq::empty(),
                            );
                            let es = s_struct_items(s_skip_wsc(st2.advance()), Seq::empty()).1;
                            lemma_variant_unique(name, SpecValue::Struct(es));
                        } else if p == '[' {
                            crate::model::lemma_advance_evolves(st2);
                            assert(values_keys_unique(Seq::<SpecValue>::empty()));
                            lemma_s_array_items_deep_unique(st2.advance(), Seq::empty());
                            let vs = s_array_items(st2.advance(), Seq::empty()).1;
                            lemma_variant_unique(name, SpecValue::Array(vs));
                        }
                    }
                    None => {}
                }
            }
        }
    }
}

pub proof fn lemma_s_tuple_deep_unique(st: SpecState)
    ensures
        value_keys_unique(s_tuple(st).1),
    decreases st.rem(), 2int,
{
    assert(values_keys_unique(Seq::<SpecValue>::empty()));
    match st.peek() {
        Some(_) => {
            crate::model::lemma_advance_evolves(st);
            lemma_s_tuple_items_deep_unique(st.advance(), Seq::empty());
        }
        None => {}
    }
}

pub proof fn lemma_s_tuple_items_deep_unique(st: SpecState, acc: Seq<SpecValue>)
    requires
        values_keys_unique(acc),
    ensures
        values_keys_unique(s_tuple_items(st, acc).1),
    decreases st.rem(), 4int,
{
    let st1 = s_skip_wsc(st);
    crate::model::lemma_skip_wsc_evolves(st);
    match st1.peek() {
        None => {}
        Some(c) => {
            if c != ')' {
                let (st2, v) = if crate::model::is_value_start(c) {
                    lemma_s_value_deep_unique(st1);
                    crate::model::s_value(st1)
                } else {
                    crate::model::s_tuple_text(st1)
                };
                assert(value_keys_unique(v));
                let st3 = s_skip_wsc(st2);
                let closed = st3.peek() == Some(')');
                let st4 = if closed {
                    st3.advance()
                } else {
                    st3
                };
                let acc1 = acc.push(v);
                assert(acc1.drop_last() =~= acc);
                assert(values_keys_unique(acc1));
                if !closed && st4.rem() < st.rem() {
                    lemma_s_tuple_items_deep_unique(st4, acc1);
                }
            }
        }
    }
}

pub proof fn lemma_s_array_items_deep_unique(st: SpecState, acc: Seq<SpecValue>)
    requires
        values_keys_unique(acc),
    ensures
        values_keys_unique(s_array_items(st, acc).1),
    decreases st.rem(), 7int,
{
    let st1 = s_skip_wsc(st);
    crate::model::lemma_skip_wsc_evolves(st);
    match st1.peek() {
        None => {}
        Some(c) => {
            if c != ']' {
                lemma_s_value_deep_unique(st1);
                let (st2, v) = crate::model::s_value(st1);
                if st2.rem() < st.rem() {
                    let acc1 = acc.push(v);
                    assert(acc1.drop_last() =~= acc);
                    lemma_s_array_items_deep_unique(st2, acc1);
                } else {
                    let st3 = st2.push_err(
                        crate::model::SpecErrorKind::UnexpectedCharacter(c),
                    ).advance();
                    if st3.rem() < st.rem() {
                        lemma_s_array_items_deep_unique(st3, acc);
                    }
                }
            }
        }
    }
}

pub proof fn lemma_s_field_value_deep_unique(st: SpecState)
    ensures
        value_keys_unique(s_field_value(st).1),
    decreases st.rem(), 5int,
{
    let st1 = crate::model::s_skip_hws(st);
    crate::model::lemma_skip_hws_evolves(st);
    if st1.peek() == Some('(') {
        lemma_s_tuple_deep_unique(st1);
    } else {
        lemma_s_value_deep_unique(st1);
    }
}

pub proof fn lemma_s_kv_step_deep_unique(st: SpecState)
    ensures
        match s_kv_step(st).1 {
            Some(p) => value_keys_unique(p.1),
            None => true,
        },
    decreases st.rem(), 6int,
{
    let (st1, key) = crate::model::s_key(st);
    crate::model::lemma_key_evolves(st);
    if key.len() > 0 {
        let st2 = if st1.peek() == Some(':') {
            st1.advance()
        } else {
            st1
        };
        crate::model::lemma_advance_evolves(st1);
        let st3 = crate::model::s_skip_hws(st2);
        crate::model::lemma_skip_hws_evolves(st2);
        if !(st3.peek() == Some('\n') || st3.at_end()) {
            lemma_s_field_value_deep_unique(st3);
        }
    }
}

pub proof fn lemma_s_struct_items_deep_unique(st: SpecState, acc: Seq<(Seq<char>, SpecValue)>)
    requires
        entries_unique(acc),
        entries_values_unique(acc),
    ensures
        entries_unique(s_struct_items(st, acc).1),
        entries_values_unique(s_struct_items(st, acc).1),
    decreases st.rem(), 7int,
{
    match st.peek() {
        None => {}
        Some(c) => {
            if c != '}' {
                lemma_s_kv_step_deep_unique(st);
                let (st1, kv) = s_kv_step(st);
                match kv {
                    Some(p) => {
                        lemma_insert_preserves_unique(acc, p.0, p.1);
                        lemma_insert_values_unique(acc, p.0, p.1);
                        if st1.rem() < st.rem() {
                            lemma_s_struct_items_deep_unique(
                                st1,
                                entries_insert(acc, p.0, p.1),
                            );
                        }
                    }
                    None => {
                        if st1.rem() < st.rem() {
                            lemma_s_struct_items_deep_unique(st1, acc);
                        }
                    }
                }
            }
        }
    }
}

pub proof fn lemma_s_root_items_deep_unique(st: SpecState, acc: Seq<(Seq<char>, SpecValue)>)
    requires
        entries_unique(acc),
        entries_values_unique(acc),
    ensures
        entries_unique(s_root_items(st, acc).1),
        entries_values_unique(s_root_items(st, acc).1),
    decreases st.rem(),
{
    if !st.at_end() {
        lemma_s_kv_step_deep_unique(st);
        let (st1, kv) = s_kv_step(st);
        match kv {
            Some(p) => {
                lemma_insert_preserves_unique(acc, p.0, p.1);
                lemma_insert_values_unique(acc, p.0, p.1);
                if st1.rem() < st.rem() {
                    lemma_s_root_items_deep_unique(st1, entries_insert(acc, p.0, p.1));
                }
            }
            None => {
                if st1.rem() < st.rem() {
                    lemma_s_root_items_deep_unique(st1, acc);
                }
            }
        }
    }
}

pub proof fn lemma_s_value_evolves(st: SpecState)
    ensures
        st.evolves_to(s_value(st).0),
    decreases st.rem(), 3int,
{
    let st1 = s_skip_wsc(st);
    crate::model::lemma_skip_wsc_evolves(st);
    match st1.peek() {
        None => {
            crate::model::lemma_push_err_evolves(
                st1,
                crate::model::SpecErrorKind::UnexpectedEndOfInput,
            );
            crate::model::lemma_evolves_trans(st, st1, s_value(st).0);
        }
        Some(c) => {
            if c == '(' {
                lemma_s_tuple_evolves(st1);
                crate::model::lemma_evolves_trans(st, st1, s_value(st).0);
            } else if c == '"' {
                crate::model::lemma_string_evolves(st1);
                crate::model::lemma_evolves_trans(st, st1, s_value(st).0);
            } else if c == '{' {
                crate::model::lemma_advance_evolves(st1);
                crate::model::lemma_skip_wsc_evolves(st1.advance());
                let stb = s_skip_wsc(st1.advance());
                lemma_s_struct_items_evolves(stb, Seq::empty());
                crate::model::lemma_evolves_trans(st1, st1.advance(), stb);
                crate::model::lemma_evolves_trans(st1, stb, s_value(st).0);
                crate::model::lemma_evolves_trans(st, st1, s_value(st).0);
            } else if c == '[' {
                crate::model::lemma_advance_evolves(st1);
                lemma_s_array_items_evolves(st1.advance(), Seq::empty());
                crate::model::lemma_evolves_trans(st1, st1.advance(), s_value(st).0);
                crate::model::lemma_evolves_trans(st, st1, s_value(st).0);
            } else if c == ':' {
                crate::model::lemma_advance_evolves(st1);
                crate::model::lemma_ident_run_evolves(st1.advance(), Seq::empty());
                let (st2, _name) = crate::model::s_ident_run(st1.advance(), Seq::empty());
                crate::model::lemma_evolves_trans(st1, st1.advance(), st2);
                match st2.peek() {
                    Some(p) => {
                        if p == '(' {
                            lemma_s_tuple_evolves(st2);
                            crate::model::lemma_evolves_trans(st1, st2, s_value(st).0);
                            crate::model::lemma_evolves_trans(st, st1, s_value(st).0);
                        } else if p == '{' {
                            crate::model::lemma_advance_evolves(st2);
                            crate::model::lemma_skip_wsc_evolves(st2.advance());
                            let stb = s_skip_wsc(st2.advance());
                            lemma_s_struct_items_evolves(stb, Seq::empty());
                            crate::model::lemma_evolves_trans(st2, st2.advance(), stb);
                            crate::model::lemma_evolves_trans(st2, stb, s_value(st).0);
                            crate::model::lemma_evolves_trans(st1, st2, s_value(st).0);
                            crate::model::lemma_evolves_trans(st, st1, s_value(st).0);
                        } else if p == '[' {
                            crate::model::lemma_advance_evolves(st2);
                            lemma_s_array_items_evolves(st2.advance(), Seq::empty());
                            crate::model::lemma_evolves_trans(st2, st2.advance(), s_value(st).0);
                            crate::model::lemma_evolves_trans(st1, st2, s_value(st).0);
                            crate::model::lemma_evolves_trans(st, st1, s_value(st).0);
                        } else {
                            crate::model::lemma_evolves_trans(st, st1, st2);
                        }
                    }
                    None => {
                        crate::model::lemma_evolves_trans(st, st1, st2);
                    }
                }
            } else if c == '-' || crate::model::is_digit(c) {
                lemma_s_numeric_evolves(st1);
                crate::model::lemma_evolves_trans(st, st1, s_value(st).0);
            } else {
                crate::model::lemma_ident_run_evolves(st1, Seq::empty());
                crate::model::lemma_evolves_trans(st, st1, s_value(st).0);
            }
        }
    }
}

pub proof fn lemma_s_numeric_evolves(st: SpecState)
    ensures
        st.evolves_to(s_numeric(st).0),
{
    let neg = st.peek() == Some('-');
    crate::model::lemma_advance_evolves(st);
    let st1 = if neg {
        st.advance()
    } else {
        st
    };
    crate::model::lemma_digits_evolves(st1, Seq::empty());
    let (st2, _ints) = s_digits(st1, Seq::empty());
    crate::model::lemma_evolves_trans(st, st1, st2);
    if st2.peek() == Some('.') {
        crate::model::lemma_advance_evolves(st2);
        crate::model::lemma_digits_evolves(st2.advance(), Seq::empty());
        let (st3, _frac) = s_digits(st2.advance(), Seq::empty());
        crate::model::lemma_evolves_trans(st2, st2.advance(), st3);
        crate::model::lemma_push_err_evolves(
            st3,
            crate::model::SpecErrorKind::InvalidFloatFormat(Seq::empty()),
        );
        assert(st3.evolves_to(s_numeric(st).0));
        crate::model::lemma_evolves_trans(st2, st3, s_numeric(st).0);
        crate::model::lemma_evolves_trans(st, st2, s_numeric(st).0);
    } else {
        assert(st2.evolves_to(s_numeric(st).0));
        crate::model::lemma_evolves_trans(st, st2, s_numeric(st).0);
    }
}

pub proof fn lemma_s_tuple_evolves(st: SpecState)
    ensures
        st.evolves_to(s_tuple(st).0),
    decreases st.rem(), 2int,
{
    match st.peek() {
        Some(_) => {
            crate::model::lemma_advance_evolves(st);
            lemma_s_tuple_items_evolves(st.advance(), Seq::empty());
            crate::model::lemma_evolves_trans(st, st.advance(), s_tuple(st).0);
        }
        None => {}
    }
}

pub proof fn lemma_s_tuple_items_evolves(st: SpecState, acc: Seq<SpecValue>)
    ensures
        st.evolves_to(s_tuple_items(st, acc).0),
    decreases st.rem(), 4int,
{
    let st1 = s_skip_wsc(st);
    crate::model::lemma_skip_wsc_evolves(st);
    match st1.peek() {
        None => {
            crate::model::lemma_push_err_evolves(
                st1,
                crate::model::SpecErrorKind::UnexpectedEndOfInput,
            );
            crate::model::lemma_evolves_trans(st, st1, s_tuple_items(st, acc).0);
        }
        Some(c) => {
            if c == ')' {
                crate::model::lemma_advance_evolves(st1);
                crate::model::lemma_evolves_trans(st, st1, s_tuple_items(st, acc).0);
            } else {
                let (st2, v) = if crate::model::is_value_start(c) {
                    lemma_s_value_evolves(st1);
                    crate::model::s_value(st1)
                } else {
                    crate::model::lemma_tuple_text_run_evolves(st1);
                    crate::model::s_tuple_text(st1)
                };
                crate::model::lemma_evolves_trans(st, st1, st2);
                let st3 = s_skip_wsc(st2);
                crate::model::lemma_skip_wsc_evolves(st2);
                crate::model::lemma_evolves_trans(st, st2, st3);
                let closed = st3.peek() == Some(')');
                let st4 = if closed {
                    st3.advance()
                } else {
                    st3
                };
                crate::model::lemma_advance_evolves(st3);
                crate::model::lemma_evolves_trans(st, st3, st4);
                if !closed && st4.rem() < st.rem() {
                    lemma_s_tuple_items_evolves(st4, acc.push(v));
                    crate::model::lemma_evolves_trans(st, st4, s_tuple_items(st, acc).0);
                }
            }
        }
    }
}

pub proof fn lemma_s_array_items_evolves(st: SpecState, acc: Seq<SpecValue>)
    ensures
        st.evolves_to(s_array_items(st, acc).0),
    decreases st.rem(), 7int,
{
    let st1 = s_skip_wsc(st);
    crate::model::lemma_skip_wsc_evolves(st);
    match st1.peek() {
        None => {
            crate::model::lemma_push_err_evolves(
                st1,
                crate::model::SpecErrorKind::UnexpectedEndOfInput,
            );
            crate::model::lemma_evolves_trans(st, st1, s_array_items(st, acc).0);
        }
        Some(c) => {
            if c == ']' {
                crate::model::lemma_advance_evolves(st1);
                crate::model::lemma_evolves_trans(st, st1, s_array_items(st, acc).0);
            } else {
                lemma_s_value_evolves(st1);
                let (st2, v) = s_value(st1);
                crate::model::lemma_evolves_trans(st, st1, st2);
                if st2.rem() < st.rem() {
                    lemma_s_array_items_evolves(st2, acc.push(v));
                    crate::model::lemma_evolves_trans(st, st2, s_array_items(st, acc).0);
                } else {
                    let st2e = st2.push_err(crate::model::SpecErrorKind::UnexpectedCharacter(c));
                    crate::model::lemma_push_err_evolves(
                        st2,
                        crate::model::SpecErrorKind::UnexpectedCharacter(c),
                    );
                    crate::model::lemma_advance_evolves(st2e);
                    let st3 = st2e.advance();
                    crate::model::lemma_evolves_trans(st2, st2e, st3);
                    crate::model::lemma_evolves_trans(st, st2, st3);
                    if st3.rem() < st.rem() {
                        lemma_s_array_items_evolves(st3, acc);
                        crate::model::lemma_evolves_trans(st, st3, s_array_items(st, acc).0);
                    }
                }
            }
        }
    }
}

pub proof fn lemma_s_field_value_evolves(st: SpecState)
    ensures
        st.evolves_to(s_field_value(st).0),
    decreases st.rem(), 5int,
{
    let st1 = crate::model::s_skip_hws(st);
    crate::model::lemma_skip_hws_evolves(st);
    if st1.peek() == Some('(') {
        lemma_s_tuple_evolves(st1);
        crate::model::lemma_evolves_trans(st, st1, s_field_value(st).0);
    } else {
        let start = st1.pos;
        lemma_s_value_evolves(st1);
        let (st2, _first) = s_value(st1);
        let st3 = crate::model::s_skip_hws(st2);
        crate::model::lemma_skip_hws_evolves(st2);
        crate::model::lemma_evolves_trans(st1, st2, st3);
        match st3.peek() {
            None => {
                crate::model::lemma_evolves_trans(st, st1, st3);
            }
            Some(c) => {
                if c == '\n' || c == '#' || c == '}' {
                    crate::model::lemma_evolves_trans(st, st1, st3);
                } else {
                    let st4 = crate::model::s_line_run(st3);
                    crate::model::lemma_line_run_evolves(st3);
                    crate::model::lemma_evolves_trans(st1, st3, st4);
                    let t = crate::model::trim(st4.input.subrange(start, st4.pos));
                    if t.len() == 0 {
                        let stf = SpecState { errors: st4.errors, ..st1 };
                        assert(st1.evolves_to(stf));
                        crate::model::lemma_evolves_trans(st, st1, stf);
                    } else {
                        crate::model::lemma_evolves_trans(st, st1, st4);
                    }
                }
            }
        }
    }
}

pub proof fn lemma_s_kv_step_evolves(st: SpecState)
    ensures
        st.evolves_to(s_kv_step(st).0),
    decreases st.rem(), 6int,
{
    let (st1, key) = crate::model::s_key(st);
    crate::model::lemma_key_evolves(st);
    if key.len() == 0 {
        let st2 = match st1.peek() {
            Some(c) => st1.push_err(crate::model::SpecErrorKind::UnexpectedCharacter(c)),
            None => st1,
        };
        match st1.peek() {
            Some(c) => {
                crate::model::lemma_push_err_evolves(
                    st1,
                    crate::model::SpecErrorKind::UnexpectedCharacter(c),
                );
            }
            None => {}
        }
        crate::model::lemma_synchronize_evolves(st2);
        crate::model::lemma_evolves_trans(st1, st2, crate::model::s_synchronize(st2));
        crate::model::lemma_evolves_trans(st, st1, s_kv_step(st).0);
    } else {
        let st2 = if st1.peek() == Some(':') {
            st1.advance()
        } else {
            st1
        };
        crate::model::lemma_advance_evolves(st1);
        let st3 = crate::model::s_skip_hws(st2);
        crate::model::lemma_skip_hws_evolves(st2);
        crate::model::lemma_evolves_trans(st1, st2, st3);
        if st3.peek() == Some('\n') || st3.at_end() {
            let st4 = st3.push_err(crate::model::SpecErrorKind::ExpectedValueOnSameLine);
            crate::model::lemma_push_err_evolves(
                st3,
                crate::model::SpecErrorKind::ExpectedValueOnSameLine,
            );
            let st5 = if st4.peek() == Some('\n') {
                st4.advance()
            } else {
                st4
            };
            crate::model::lemma_advance_evolves(st4);
            crate::model::lemma_evolves_trans(st3, st4, st5);
            crate::model::lemma_evolves_trans(st1, st3, st5);
            crate::model::lemma_evolves_trans(st, st1, st5);
        } else {
            lemma_s_field_value_evolves(st3);
            let (st4, _v) = s_field_value(st3);
            crate::model::lemma_evolves_trans(st1, st3, st4);
            let st5 = crate::model::s_require_nl(st4);
            crate::model::lemma_require_nl_evolves(st4);
            crate::model::lemma_evolves_trans(st1, st4, st5);
            let st6 = s_skip_wsc(st5);
            crate::model::lemma_skip_wsc_evolves(st5);
            crate::model::lemma_evolves_trans(st1, st5, st6);
            crate::model::lemma_evolves_trans(st, st1, st6);
        }
    }
}

pub proof fn lemma_s_struct_items_evolves(st: SpecState, acc: Seq<(Seq<char>, SpecValue)>)
    ensures
        st.evolves_to(s_struct_items(st, acc).0),
    decreases st.rem(), 7int,
{
    match st.peek() {
        None => {
            crate::model::lemma_push_err_evolves(
                st,
                crate::model::SpecErrorKind::UnterminatedBlock,
            );
        }
        Some(c) => {
            if c == '}' {
                crate::model::lemma_advance_evolves(st);
            } else {
                lemma_s_kv_step_evolves(st);
                let (st1, kv) = s_kv_step(st);
                let acc1 = match kv {
                    Some(p) => entries_insert(acc, p.0, p.1),
                    None => acc,
                };
                if st1.rem() < st.rem() {
                    lemma_s_struct_items_evolves(st1, acc1);
                    crate::model::lemma_evolves_trans(st, st1, s_struct_items(st, acc).0);
                }
            }
        }
    }
}

pub proof fn lemma_s_root_items_evolves(st: SpecState, acc: Seq<(Seq<char>, SpecValue)>)
    ensures
        st.evolves_to(s_root_items(st, acc).0),
    decreases st.rem(),
{
    if !st.at_end() {
        lemma_s_kv_step_evolves(st);
        let (st1, kv) = s_kv_step(st);
        let acc1 = match kv {
            Some(p) => entries_insert(acc, p.0, p.1),
            None => acc,
        };
        if st1.rem() < st.rem() {
            lemma_s_root_items_evolves(st1, acc1);
            crate::model::lemma_evolves_trans(st, st1, s_root_items(st, acc).0);
        }
    }
}

/// Diagnostics are append-only: whatever was recorded before a parse step
/// is still there, in the same order, when the whole parse is done — and
/// the cursor only ever moves forward.
pub proof fn lemma_parse_appends_diagnostics(st: SpecState)
    ensures
        st.evolves_to(s_parse_doc(st).0),
        st.errors.is_prefix_of(s_parse_doc(st).0.errors),
{
    crate::model::lemma_skip_wsc_evolves(st);
    lemma_s_root_items_evolves(s_skip_wsc(st), Seq::empty());
    crate::model::lemma_evolves_trans(st, s_skip_wsc(st), s_parse_doc(st).0);
}

/// Key uniqueness, in depth: every struct anywhere in a parsed tree — the
/// root, a nested block, a block inside an array, tuple or variant payload
/// — has pairwise distinct keys.
pub proof fn lemma_parse_keys_unique(st: SpecState)
    ensures
        entries_unique(s_parse_doc(st).1),
        entries_values_unique(s_parse_doc(st).1),
{
    assert(entries_unique(Seq::<(Seq<char>, SpecValue)>::empty()));
    assert(entries_values_unique(Seq::<(Seq<char>, SpecValue)>::empty()));
    lemma_s_root_items_deep_unique(s_skip_wsc(st), Seq::empty());
}

} // verus!
