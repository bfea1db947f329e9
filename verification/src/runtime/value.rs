//! Runtime values: what handler expressions produce.
//!
//! `Unit` is the value of a handler whose body has no trailing expression.
//! `Record` exists so io results can carry records; the interpreter reads
//! its fields but does not build records itself. A float keeps the text
//! of the literal it came from.
use vstd::prelude::*;

use crate::printer::{escaped, int_text, joined, write_escaped, write_int};

verus! {

#[derive(Debug, PartialEq)]
pub enum Value {
    Int(i64),
    Float(String),
    Str(String),
    List(Vec<Value>),
    Record(Vec<(String, Value)>),
    /// The value of a handler with no tail expression.
    Unit,
}

/// The model of a value.
pub enum SpecValue {
    Int(int),
    Float(Seq<char>),
    Str(Seq<char>),
    List(Seq<SpecValue>),
    Record(Seq<(Seq<char>, SpecValue)>),
    Unit,
}

pub open spec fn value_view(v: &Value) -> SpecValue
    decreases v, 1int,
{
    match v {
        Value::Int(n) => SpecValue::Int(*n as int),
        Value::Float(t) => SpecValue::Float(t@),
        Value::Str(s) => SpecValue::Str(s@),
        Value::List(items) => SpecValue::List(values_view(items)),
        Value::Record(fields) => SpecValue::Record(pairs_view(fields)),
        Value::Unit => SpecValue::Unit,
    }
}

/// The model of a list of values.
pub open spec fn values_view(v: &Vec<Value>) -> Seq<SpecValue>
    decreases v, 0int,
{
    Seq::new(
        v@.len(),
        |i: int|
            if 0 <= i < v@.len() {
                proof {
                    broadcast use vstd::std_specs::vec::axiom_vec_index_decreases;
                }
                value_view(&v@[i])
            } else {
                SpecValue::Unit
            },
    )
}

/// The model of a list of `(name, value)` pairs.
pub open spec fn pairs_view(v: &Vec<(String, Value)>) -> Seq<(Seq<char>, SpecValue)>
    decreases v, 0int,
{
    Seq::new(
        v@.len(),
        |i: int|
            if 0 <= i < v@.len() {
                proof {
                    broadcast use vstd::std_specs::vec::axiom_vec_index_decreases;
                }
                (v@[i].0@, value_view(&v@[i].1))
            } else {
                (Seq::empty(), SpecValue::Unit)
            },
    )
}

impl View for Value {
    type V = SpecValue;

    open spec fn view(&self) -> SpecValue {
        value_view(self)
    }
}

impl Value {
    /// The integer inside an `Int`, if it is one.
    pub fn as_int(&self) -> (r: Option<i64>)
        ensures
            r == (match self {
                Value::Int(n) => Some(*n),
                _ => None::<i64>,
            }),
    {
        match self {
            Value::Int(n) => Some(*n),
            _ => None,
        }
    }
}

/// A copy of `v`, all the way down.
pub fn copy_value(v: &Value) -> (r: Value)
    ensures
        r@ == v@,
    decreases v, 1int,
{
    match v {
        Value::Int(n) => Value::Int(*n),
        Value::Float(t) => Value::Float(t.clone()),
        Value::Str(s) => Value::Str(s.clone()),
        Value::List(items) => Value::List(copy_values(items)),
        Value::Record(fields) => Value::Record(copy_pairs(fields)),
        Value::Unit => Value::Unit,
    }
}

/// A copy of a list of values.
pub fn copy_values(v: &Vec<Value>) -> (r: Vec<Value>)
    ensures
        values_view(&r) == values_view(v),
    decreases v, 0int,
{
    let mut out: Vec<Value> = Vec::new();
    let mut i: usize = 0;
    while i < v.len()
        invariant
            i <= v.len(),
            out@.len() == i,
            forall|k: int| 0 <= k < i ==> (#[trigger] out@[k])@ == v@[k]@,
        decreases v.len() - i,
    {
        proof {
            broadcast use vstd::std_specs::vec::axiom_vec_index_decreases;
        }
        let c = copy_value(&v[i]);
        out.push(c);
        i = i + 1;
    }
    assert(values_view(&out) =~= values_view(v));
    out
}

/// A copy of a list of `(name, value)` pairs.
pub fn copy_pairs(v: &Vec<(String, Value)>) -> (r: Vec<(String, Value)>)
    ensures
        pairs_view(&r) == pairs_view(v),
    decreases v, 0int,
{
    let mut out: Vec<(String, Value)> = Vec::new();
    let mut i: usize = 0;
    while i < v.len()
        invariant
            i <= v.len(),
            out@.len() == i,
            forall|k: int| 0 <= k < i ==> (#[trigger] out@[k]).0@ == v@[k].0@ && out@[k].1@ == v@[k].1@,
        decreases v.len() - i,
    {
        proof {
            broadcast use vstd::std_specs::vec::axiom_vec_index_decreases;
        }
        let name = v[i].0.clone();
        let c = copy_value(&v[i].1);
        out.push((name, c));
        i = i + 1;
    }
    assert(pairs_view(&out) =~= pairs_view(v));
    out
}

/// `Debug`-style text of a value, as error messages show it.
pub open spec fn value_debug(v: SpecValue) -> Seq<char>
    decreases v, 1int,
{
    match v {
        SpecValue::Int(n) => "Int("@ + int_text(n) + ")"@,
        SpecValue::Float(t) => "Float("@ + t + ")"@,
        SpecValue::Str(s) => "Str(\""@ + escaped(s) + "\")"@,
        SpecValue::List(items) => "List(["@ + joined(values_debug(items), ", "@) + "])"@,
        SpecValue::Record(fields) => "Record(["@ + joined(pairs_debug(fields), ", "@) + "])"@,
        SpecValue::Unit => "Unit"@,
    }
}

pub open spec fn values_debug(items: Seq<SpecValue>) -> Seq<Seq<char>>
    decreases items, 0int,
{
    Seq::new(
        items.len(),
        |i: int|
            if 0 <= i < items.len() {
                value_debug(items[i])
            } else {
                Seq::empty()
            },
    )
}

pub open spec fn pairs_debug(fields: Seq<(Seq<char>, SpecValue)>) -> Seq<Seq<char>>
    decreases fields, 0int,
{
    Seq::new(
        fields.len(),
        |i: int|
            if 0 <= i < fields.len() {
                "(\""@ + escaped(fields[i].0) + "\", "@ + value_debug(fields[i].1) + ")"@
            } else {
                Seq::empty()
            },
    )
}

/// Appends `value_debug(v@)`.
pub fn write_value_debug(out: &mut String, v: &Value)
    ensures
        final(out)@ == old(out)@ + value_debug(v@),
    decreases v, 1int,
{
    match v {
        Value::Int(n) => {
            out.append("Int(");
            write_int(out, *n);
            out.append(")");
        },
        Value::Float(t) => {
            out.append("Float(");
            out.append(t.as_str());
            out.append(")");
        },
        Value::Str(s) => {
            out.append("Str(\"");
            write_escaped(out, s);
            out.append("\")");
        },
        Value::List(items) => {
            out.append("List([");
            write_values_debug(out, items);
            out.append("])");
        },
        Value::Record(fields) => {
            out.append("Record([");
            write_pairs_debug(out, fields);
            out.append("])");
        },
        Value::Unit => {
            out.append("Unit");
        },
    }
}

fn write_values_debug(out: &mut String, items: &Vec<Value>)
    ensures
        final(out)@ == old(out)@ + joined(values_debug(values_view(items)), ", "@),
    decreases items, 0int,
{
    let ghost start = out@;
    let ghost texts = values_debug(values_view(items));
    let mut i: usize = 0;
    while i < items.len()
        invariant
            i <= items.len(),
            texts == values_debug(values_view(items)),
            out@ == start + joined(texts.take(i as int), ", "@),
        decreases items.len() - i,
    {
        if i > 0 {
            out.append(", ");
        }
        proof {
            broadcast use vstd::std_specs::vec::axiom_vec_index_decreases;
        }
        write_value_debug(out, &items[i]);
        proof {
            let tk = texts.take(i + 1);
            assert(tk.drop_last() =~= texts.take(i as int));
            if i == 0 {
                assert(joined(texts.take(0), ", "@) =~= Seq::<char>::empty());
            }
        }
        i = i + 1;
        assert(out@ =~= start + joined(texts.take(i as int), ", "@));
    }
    assert(texts.take(items.len() as int) =~= texts);
}

fn write_pairs_debug(out: &mut String, fields: &Vec<(String, Value)>)
    ensures
        final(out)@ == old(out)@ + joined(pairs_debug(pairs_view(fields)), ", "@),
    decreases fields, 0int,
{
    let ghost start = out@;
    let ghost texts = pairs_debug(pairs_view(fields));
    let mut i: usize = 0;
    while i < fields.len()
        invariant
            i <= fields.len(),
            texts == pairs_debug(pairs_view(fields)),
            out@ == start + joined(texts.take(i as int), ", "@),
        decreases fields.len() - i,
    {
        if i > 0 {
            out.append(", ");
        }
        proof {
            broadcast use vstd::std_specs::vec::axiom_vec_index_decreases;
        }
        out.append("(\"");
        write_escaped(out, &fields[i].0);
        out.append("\", ");
        write_value_debug(out, &fields[i].1);
        out.append(")");
        proof {
            let tk = texts.take(i + 1);
            assert(tk.drop_last() =~= texts.take(i as int));
            if i == 0 {
                assert(joined(texts.take(0), ", "@) =~= Seq::<char>::empty());
            }
        }
        i = i + 1;
        assert(out@ =~= start + joined(texts.take(i as int), ", "@));
    }
    assert(texts.take(fields.len() as int) =~= texts);
}

} // verus!
