//! Tree-walking interpreter for facet handlers.
//!
//! Statements and expressions are evaluated against an `Env` (transient
//! locals) and a `FacetState` (persistent state fields). An assignment
//! whose name is a state field updates the field and emits a
//! `state_assign` event; an assignment to any other name makes a local
//! binding.
//!
//! `~>` (`Binary(StateShift, lhs, rhs)`) evaluates to its right side;
//! the swap itself happens at the enclosing assignment. A handler's value
//! is the value of its trailing expression statement, or `Unit`.
//!
//! Integer arithmetic that leaves the range of `i64`, and division by
//! zero, are errors. Arithmetic on floats is not evaluated here and is
//! reported as an unsupported operation.
use vstd::prelude::*;

use crate::ast::{
    exprs_view, stmts_view, BinOp, Expr, Handler, SpecExpr, SpecHandler, SpecStmt, Stmt,
};
use crate::runtime::env::{lookup, bind, Bindings, Env, FacetState};
use crate::runtime::events::{SpecEvent, Event, EventSink, VecSink, lemma_log_push};
use crate::runtime::value::{copy_value, value_debug, values_view, write_value_debug, SpecValue, Value};

verus! {

// ---------------------------------------------------------------------
// The semantics.

pub open spec fn result_view(r: Result<Value, String>) -> Result<SpecValue, Seq<char>> {
    match r {
        Ok(v) => Ok(v@),
        Err(m) => Err(m@),
    }
}

pub open spec fn fits_i64(n: int) -> bool {
    i64::MIN <= n <= i64::MAX
}

pub open spec fn abs_int(n: int) -> int {
    if n < 0 {
        -n
    } else {
        n
    }
}

/// Integer division rounding toward zero.
pub open spec fn trunc_div(a: int, b: int) -> int {
    let q = abs_int(a) / abs_int(b);
    if (a < 0) != (b < 0) {
        -q
    } else {
        q
    }
}

pub open spec fn op_name(op: BinOp) -> Seq<char> {
    match op {
        BinOp::Add => "Add"@,
        BinOp::Sub => "Sub"@,
        BinOp::Mul => "Mul"@,
        BinOp::Div => "Div"@,
        BinOp::Lt => "Lt"@,
        BinOp::Gt => "Gt"@,
        BinOp::Eq => "Eq"@,
        BinOp::Pipe => "Pipe"@,
        BinOp::StateShift => "StateShift"@,
    }
}

pub open spec fn unsupported_op(op: BinOp, l: SpecValue, r: SpecValue) -> Seq<char> {
    "unsupported op "@ + op_name(op) + " on "@ + value_debug(l) + " / "@ + value_debug(r)
}

pub open spec fn checked_int(n: int, overflow: Seq<char>) -> Result<SpecValue, Seq<char>> {
    if fits_i64(n) {
        Ok(SpecValue::Int(n))
    } else {
        Err(overflow)
    }
}

pub open spec fn bool_int(b: bool) -> SpecValue {
    SpecValue::Int(if b {
        1
    } else {
        0
    })
}

/// A binary operator applied to two values.
pub open spec fn binop_value(op: BinOp, l: SpecValue, r: SpecValue) -> Result<SpecValue, Seq<char>> {
    match (l, r) {
        (SpecValue::Int(a), SpecValue::Int(b)) => match op {
            BinOp::Add => checked_int(a + b, "attempt to add with overflow"@),
            BinOp::Sub => checked_int(a - b, "attempt to subtract with overflow"@),
            BinOp::Mul => checked_int(a * b, "attempt to multiply with overflow"@),
            BinOp::Div => if b == 0 {
                Err("attempt to divide by zero"@)
            } else {
                checked_int(trunc_div(a, b), "attempt to divide with overflow"@)
            },
            BinOp::Lt => Ok(bool_int(a < b)),
            BinOp::Gt => Ok(bool_int(a > b)),
            BinOp::Eq => Ok(bool_int(a == b)),
            _ => Err(unsupported_op(op, l, r)),
        },
        _ => Err(unsupported_op(op, l, r)),
    }
}

/// `Int(0)` and `Unit` are false; every other value is true.
pub open spec fn truthy(v: SpecValue) -> bool {
    !(v == SpecValue::Int(0) || v == SpecValue::Unit)
}

/// The value of an expression.
pub open spec fn eval(e: SpecExpr, env: Bindings, st: Bindings) -> Result<SpecValue, Seq<char>>
    decreases e, 1int,
{
    match e {
        SpecExpr::Int(n) => Ok(SpecValue::Int(n)),
        SpecExpr::Float(t) => Ok(SpecValue::Float(t)),
        SpecExpr::Str(s) => Ok(SpecValue::Str(s)),
        SpecExpr::Ident(n) => match lookup(env, n) {
            Some(v) => Ok(v),
            None => match lookup(st, n) {
                Some(v) => Ok(v),
                None => Err("unbound name: "@ + n),
            },
        },
        SpecExpr::Binary(op, l, r) => if op == BinOp::StateShift {
            eval(*r, env, st)
        } else {
            match eval(*l, env, st) {
                Err(m) => Err(m),
                Ok(lv) => match eval(*r, env, st) {
                    Err(m) => Err(m),
                    Ok(rv) => binop_value(op, lv, rv),
                },
            }
        },
        SpecExpr::List(items) => match eval_list(items, env, st) {
            Ok(vs) => Ok(SpecValue::List(vs)),
            Err(m) => Err(m),
        },
        SpecExpr::FieldAccess { object, field } => match eval(*object, env, st) {
            Err(m) => Err(m),
            Ok(v) => match v {
                SpecValue::Record(fs) => match lookup(fs, field) {
                    Some(x) => Ok(x),
                    None => Err("no field `"@ + field + "` on record"@),
                },
                _ => Err("field access on non-record: "@ + value_debug(v)),
            },
        },
        SpecExpr::Call { callee, args } => Err(
            "call to `"@ + callee + "` not supported in milestone-1 runtime"@,
        ),
        SpecExpr::Match { .. } => Err("match expressions not supported in milestone-1 runtime"@),
    }
}

/// The values of a list of expressions, left to right; the first error
/// stops the evaluation.
pub open spec fn eval_list(items: Seq<SpecExpr>, env: Bindings, st: Bindings) -> Result<
    Seq<SpecValue>,
    Seq<char>,
>
    decreases items, 0int,
{
    if items.len() == 0 {
        Ok(Seq::empty())
    } else {
        match eval_list(items.drop_last(), env, st) {
            Err(m) => Err(m),
            Ok(vs) => match eval(items.last(), env, st) {
                Err(m) => Err(m),
                Ok(v) => Ok(vs.push(v)),
            },
        }
    }
}

/// What running statements does: the result (or the error that stopped
/// them), the locals and state afterwards, and the events emitted.
pub struct Outcome {
    pub res: Result<SpecValue, Seq<char>>,
    pub env: Bindings,
    pub st: Bindings,
    pub evs: Seq<SpecEvent>,
}

pub open spec fn as_unit(x: Outcome) -> Outcome {
    Outcome {
        res: match x.res {
            Ok(_) => Ok(SpecValue::Unit),
            Err(m) => Err(m),
        },
        ..x
    }
}

/// One statement.
pub open spec fn exec_stmt(
    s: SpecStmt,
    env: Bindings,
    st: Bindings,
    scheme: Seq<char>,
    inst: Seq<char>,
) -> Outcome
    decreases s, 1int,
{
    match s {
        SpecStmt::Assign { name, value } => match eval(value, env, st) {
            Err(m) => Outcome { res: Err(m), env, st, evs: Seq::empty() },
            Ok(new) => match lookup(st, name) {
                Some(old_v) => Outcome {
                    res: Ok(SpecValue::Unit),
                    env,
                    st: bind(st, name, new),
                    evs: seq![
                        SpecEvent::StateAssign {
                            scheme,
                            instance: inst,
                            field: name,
                            old_value: old_v,
                            new_value: new,
                        },
                    ],
                },
                None => Outcome {
                    res: Ok(SpecValue::Unit),
                    env: bind(env, name, new),
                    st,
                    evs: Seq::empty(),
                },
            },
        },
        SpecStmt::If { cond, then_body, else_body } => match eval(cond, env, st) {
            Err(m) => Outcome { res: Err(m), env, st, evs: Seq::empty() },
            Ok(c) => if truthy(c) {
                as_unit(exec_block(then_body, env, st, scheme, inst))
            } else {
                match else_body {
                    Some(b) => as_unit(exec_block(b, env, st, scheme, inst)),
                    None => Outcome { res: Ok(SpecValue::Unit), env, st, evs: Seq::empty() },
                }
            },
        },
        SpecStmt::ExprStmt(e) => Outcome { res: eval(e, env, st), env, st, evs: Seq::empty() },
    }
}

/// Statements in order; the first error stops them. The result is that
/// of the last statement run (`Unit` for none).
pub open spec fn exec_block(
    body: Seq<SpecStmt>,
    env: Bindings,
    st: Bindings,
    scheme: Seq<char>,
    inst: Seq<char>,
) -> Outcome
    decreases body, 0int,
{
    if body.len() == 0 {
        Outcome { res: Ok(SpecValue::Unit), env, st, evs: Seq::empty() }
    } else {
        let x = exec_block(body.drop_last(), env, st, scheme, inst);
        match x.res {
            Err(_) => x,
            Ok(_) => {
                let y = exec_stmt(body.last(), x.env, x.st, scheme, inst);
                Outcome { res: y.res, env: y.env, st: y.st, evs: x.evs + y.evs }
            },
        }
    }
}

/// The locals a handler starts with.
pub open spec fn initial_env(h: SpecHandler, msg: Option<SpecValue>) -> Bindings {
    match (h.binding, msg) {
        (Some(n), Some(v)) => bind(Seq::empty(), n, v),
        _ => Seq::empty(),
    }
}

/// A handler invocation: its body run from the initial locals; its value
/// is that of a trailing expression statement, else `Unit`.
pub open spec fn handler_outcome(
    h: SpecHandler,
    msg: Option<SpecValue>,
    st: Bindings,
    scheme: Seq<char>,
    inst: Seq<char>,
) -> Outcome {
    let x = exec_block(h.body, initial_env(h, msg), st, scheme, inst);
    Outcome {
        res: match x.res {
            Err(m) => Err(m),
            Ok(v) => if h.body.len() > 0 && h.body.last() is ExprStmt {
                Ok(v)
            } else {
                Ok(SpecValue::Unit)
            },
        },
        ..x
    }
}

// ---------------------------------------------------------------------
// Execution.

fn int_result(r: Option<i64>, overflow: &str) -> (v: Result<Value, String>)
    ensures
        result_view(v) == match r {
            Some(n) => Ok(SpecValue::Int(n as int)),
            None => Err(overflow@),
        },
{
    match r {
        Some(n) => Ok(Value::Int(n)),
        None => Err(overflow.to_owned()),
    }
}

fn bool_value(b: bool) -> (v: Value)
    ensures
        v@ == bool_int(b),
{
    if b {
        Value::Int(1)
    } else {
        Value::Int(0)
    }
}

fn op_text(op: BinOp) -> (r: &'static str)
    ensures
        r@ == op_name(op),
{
    match op {
        BinOp::Add => "Add",
        BinOp::Sub => "Sub",
        BinOp::Mul => "Mul",
        BinOp::Div => "Div",
        BinOp::Lt => "Lt",
        BinOp::Gt => "Gt",
        BinOp::Eq => "Eq",
        BinOp::Pipe => "Pipe",
        BinOp::StateShift => "StateShift",
    }
}

fn unsupported(op: BinOp, l: &Value, r: &Value) -> (m: String)
    ensures
        m@ == unsupported_op(op, l@, r@),
{
    let mut out = String::new();
    out.append("unsupported op ");
    out.append(op_text(op));
    out.append(" on ");
    write_value_debug(&mut out, l);
    out.append(" / ");
    write_value_debug(&mut out, r);
    out
}

/// Integer division rounding toward zero, for `b != 0` and a quotient
/// that fits.
fn int_div(a: i64, b: i64) -> (v: Result<Value, String>)
    requires
        b != 0,
    ensures
        result_view(v) == checked_int(trunc_div(a as int, b as int), "attempt to divide with overflow"@),
{
    let na: i128 = a as i128;
    let nb: i128 = b as i128;
    let ma: i128 = if na < 0 { -na } else { na };
    let mb: i128 = if nb < 0 { -nb } else { nb };
    let mq: i128 = ma / mb;
    assert(mq <= ma) by (nonlinear_arith)
        requires
            ma >= 0,
            mb >= 1,
            mq == ma / mb,
    ;
    let q: i128 = if (na < 0) != (nb < 0) { -mq } else { mq };
    if q > i64::MAX as i128 || q < i64::MIN as i128 {
        Err("attempt to divide with overflow".to_owned())
    } else {
        Ok(Value::Int(q as i64))
    }
}

/// Applies a binary operator (not `~>`) to two values.
pub fn apply_binop(op: BinOp, l: Value, r: Value) -> (v: Result<Value, String>)
    ensures
        result_view(v) == binop_value(op, l@, r@),
{
    match (&l, &r) {
        (Value::Int(a), Value::Int(b)) => match op {
            BinOp::Add => int_result(a.checked_add(*b), "attempt to add with overflow"),
            BinOp::Sub => int_result(a.checked_sub(*b), "attempt to subtract with overflow"),
            BinOp::Mul => int_result(a.checked_mul(*b), "attempt to multiply with overflow"),
            BinOp::Div => if *b == 0 {
                Err("attempt to divide by zero".to_owned())
            } else {
                int_div(*a, *b)
            },
            BinOp::Lt => Ok(bool_value(*a < *b)),
            BinOp::Gt => Ok(bool_value(*a > *b)),
            BinOp::Eq => Ok(bool_value(*a == *b)),
            _ => Err(unsupported(op, &l, &r)),
        },
        _ => Err(unsupported(op, &l, &r)),
    }
}

/// Whether a value counts as true in an `if`.
pub fn is_truthy(v: &Value) -> (r: bool)
    ensures
        r == truthy(v@),
{
    match v {
        Value::Int(n) => *n != 0,
        Value::Unit => false,
        _ => true,
    }
}

fn unbound(n: &String) -> (m: String)
    ensures
        m@ == "unbound name: "@ + n@,
{
    let mut out = String::new();
    out.append("unbound name: ");
    out.append(n.as_str());
    out
}

fn no_field(field: &String) -> (m: String)
    ensures
        m@ == "no field `"@ + field@ + "` on record"@,
{
    let mut out = String::new();
    out.append("no field `");
    out.append(field.as_str());
    out.append("` on record");
    out
}

fn not_a_record(v: &Value) -> (m: String)
    ensures
        m@ == "field access on non-record: "@ + value_debug(v@),
{
    let mut out = String::new();
    out.append("field access on non-record: ");
    write_value_debug(&mut out, v);
    out
}

fn call_unsupported(callee: &String) -> (m: String)
    ensures
        m@ == "call to `"@ + callee@ + "` not supported in milestone-1 runtime"@,
{
    let mut out = String::new();
    out.append("call to `");
    out.append(callee.as_str());
    out.append("` not supported in milestone-1 runtime");
    out
}

/// Evaluates an expression against the locals and the state.
pub fn eval_expr(e: &Expr, env: &Env, state: &FacetState) -> (r: Result<Value, String>)
    ensures
        result_view(r) == eval(e@, env@, state@),
    decreases e, 1int,
{
    match e {
        Expr::Int(n) => Ok(Value::Int(*n)),
        Expr::Float(t) => Ok(Value::Float(t.clone())),
        Expr::Str(s) => Ok(Value::Str(s.clone())),
        Expr::Ident(n) => match env.get(n.as_str()) {
            Some(v) => Ok(copy_value(v)),
            None => match state.get(n.as_str()) {
                Some(v) => Ok(copy_value(v)),
                None => Err(unbound(n)),
            },
        },
        Expr::Binary(op, l, r) => {
            if matches!(op, BinOp::StateShift) {
                return eval_expr(r, env, state);
            }
            let lv = match eval_expr(l, env, state) {
                Ok(v) => v,
                Err(m) => return Err(m),
            };
            let rv = match eval_expr(r, env, state) {
                Ok(v) => v,
                Err(m) => return Err(m),
            };
            apply_binop(*op, lv, rv)
        },
        Expr::List(items) => {
            proof {
                assert(exprs_view(items@) =~= match e@ {
                    SpecExpr::List(s) => s,
                    _ => Seq::empty(),
                });
            }
            match eval_items(items, env, state) {
                Ok(vs) => Ok(Value::List(vs)),
                Err(m) => Err(m),
            }
        },
        Expr::FieldAccess { object, field } => {
            let obj = match eval_expr(object, env, state) {
                Ok(v) => v,
                Err(m) => return Err(m),
            };
            match &obj {
                Value::Record(fields) => match crate::runtime::env::key_index(fields, field.as_str()) {
                    Some(i) => Ok(copy_value(&fields[i].1)),
                    None => Err(no_field(field)),
                },
                _ => Err(not_a_record(&obj)),
            }
        },
        Expr::Call { callee, args: _ } => Err(call_unsupported(callee)),
        Expr::Match { .. } => Err("match expressions not supported in milestone-1 runtime".to_owned()),
    }
}

/// Evaluates a list of expressions left to right.
fn eval_items(items: &Vec<Expr>, env: &Env, state: &FacetState) -> (r: Result<Vec<Value>, String>)
    ensures
        match r {
            Ok(vs) => eval_list(exprs_view(items@), env@, state@) == Ok::<Seq<SpecValue>, Seq<char>>(
                values_view(&vs),
            ),
            Err(m) => eval_list(exprs_view(items@), env@, state@) == Err::<Seq<SpecValue>, Seq<char>>(
                m@,
            ),
        },
    decreases items, 0int,
{
    let ghost es = exprs_view(items@);
    let mut out: Vec<Value> = Vec::new();
    let mut i: usize = 0;
    assert(values_view(&out) =~= Seq::<SpecValue>::empty());
    assert(es.take(0) =~= Seq::<SpecExpr>::empty());
    while i < items.len()
        invariant
            i <= items.len(),
            es == exprs_view(items@),
            eval_list(es.take(i as int), env@, state@) == Ok::<Seq<SpecValue>, Seq<char>>(
                values_view(&out),
            ),
        decreases items.len() - i,
    {
        proof {
            broadcast use vstd::std_specs::vec::axiom_vec_index_decreases;

            let t = es.take(i + 1);
            assert(t.drop_last() =~= es.take(i as int));
            assert(t.last() == items@[i as int]@);
        }
        let ghost before = values_view(&out);
        match eval_expr(&items[i], env, state) {
            Ok(v) => {
                let ghost vv = v@;
                out.push(v);
                assert(values_view(&out) =~= before.push(vv));
            },
            Err(m) => {
                proof {
                    lemma_eval_list_err(es, i + 1, env@, state@);
                }
                return Err(m);
            },
        }
        i = i + 1;
    }
    assert(es.take(items.len() as int) =~= es);
    Ok(out)
}

/// Once a prefix of a list fails, the whole list fails the same way.
proof fn lemma_eval_list_err(s: Seq<SpecExpr>, j: int, env: Bindings, st: Bindings)
    requires
        0 <= j <= s.len(),
        eval_list(s.take(j), env, st) is Err,
    ensures
        eval_list(s, env, st) == eval_list(s.take(j), env, st),
    decreases s.len() - j,
{
    if j < s.len() {
        assert(s.take(j + 1).drop_last() =~= s.take(j));
        lemma_eval_list_err(s, j + 1, env, st);
    } else {
        assert(s.take(j) =~= s);
    }
}

/// Once a prefix of a block fails, the whole block stops there.
proof fn lemma_exec_block_err(
    s: Seq<SpecStmt>,
    j: int,
    env: Bindings,
    st: Bindings,
    scheme: Seq<char>,
    inst: Seq<char>,
)
    requires
        0 <= j <= s.len(),
        exec_block(s.take(j), env, st, scheme, inst).res is Err,
    ensures
        exec_block(s, env, st, scheme, inst) == exec_block(s.take(j), env, st, scheme, inst),
    decreases s.len() - j,
{
    if j < s.len() {
        assert(s.take(j + 1).drop_last() =~= s.take(j));
        lemma_exec_block_err(s, j + 1, env, st, scheme, inst);
    } else {
        assert(s.take(j) =~= s);
    }
}

fn state_assign_event(
    scheme: &str,
    instance: &str,
    field: &String,
    old_value: Value,
    new_value: Value,
) -> (e: Event)
    ensures
        e@ == (SpecEvent::StateAssign {
            scheme: scheme@,
            instance: instance@,
            field: field@,
            old_value: old_value@,
            new_value: new_value@,
        }),
{
    Event::StateAssign {
        scheme: scheme.to_owned(),
        instance: instance.to_owned(),
        field: field.clone(),
        old_value,
        new_value,
    }
}

/// Runs one statement.
fn run_stmt(
    stmt: &Stmt,
    env: &mut Env,
    state: &mut FacetState,
    scheme: &str,
    instance: &str,
    sink: &mut VecSink,
) -> (r: Result<Value, String>)
    ensures
        ({
            let x = exec_stmt(stmt@, old(env)@, old(state)@, scheme@, instance@);
            &&& result_view(r) == x.res
            &&& final(env)@ == x.env
            &&& final(state)@ == x.st
            &&& final(sink).log() == old(sink).log() + x.evs
        }),
    decreases stmt, 1int,
{
    let ghost log0 = sink.log();
    match stmt {
        Stmt::Assign { name, value } => {
            let new = match eval_expr(value, env, state) {
                Ok(v) => v,
                Err(m) => {
                    assert(sink.log() =~= log0 + Seq::<SpecEvent>::empty());
                    return Err(m);
                },
            };
            if state.contains(name.as_str()) {
                let old_v = match state.get(name.as_str()) {
                    Some(v) => copy_value(v),
                    None => Value::Unit,
                };
                let new_copy = copy_value(&new);
                state.set(name.as_str(), new);
                let e = state_assign_event(scheme, instance, name, old_v, new_copy);
                let ghost before = sink.events@;
                sink.emit(e);
                proof {
                    lemma_log_push(before, e);
                    assert(sink.log() =~= log0 + seq![e@]);
                }
            } else {
                env.set(name.as_str(), new);
                assert(sink.log() =~= log0 + Seq::<SpecEvent>::empty());
            }
            Ok(Value::Unit)
        },
        Stmt::If { cond, then_body, else_body } => {
            let c = match eval_expr(cond, env, state) {
                Ok(v) => v,
                Err(m) => {
                    assert(sink.log() =~= log0 + Seq::<SpecEvent>::empty());
                    return Err(m);
                },
            };
            if is_truthy(&c) {
                match run_block(then_body, env, state, scheme, instance, sink) {
                    Ok(_) => Ok(Value::Unit),
                    Err(m) => Err(m),
                }
            } else {
                match else_body {
                    Some(b) => match run_block(b, env, state, scheme, instance, sink) {
                        Ok(_) => Ok(Value::Unit),
                        Err(m) => Err(m),
                    },
                    None => {
                        assert(sink.log() =~= log0 + Seq::<SpecEvent>::empty());
                        Ok(Value::Unit)
                    },
                }
            }
        },
        Stmt::ExprStmt(e) => {
            assert(sink.log() =~= log0 + Seq::<SpecEvent>::empty());
            eval_expr(e, env, state)
        },
    }
}

/// Runs statements in order, stopping at the first error; returns the
/// value of the last one run.
fn run_block(
    body: &Vec<Stmt>,
    env: &mut Env,
    state: &mut FacetState,
    scheme: &str,
    instance: &str,
    sink: &mut VecSink,
) -> (r: Result<Value, String>)
    ensures
        ({
            let x = exec_block(stmts_view(body), old(env)@, old(state)@, scheme@, instance@);
            &&& result_view(r) == x.res
            &&& final(env)@ == x.env
            &&& final(state)@ == x.st
            &&& final(sink).log() == old(sink).log() + x.evs
        }),
    decreases body, 0int,
{
    let ghost sv = stmts_view(body);
    let ghost env0 = env@;
    let ghost st0 = state@;
    let ghost log0 = sink.log();
    let mut last = Value::Unit;
    let mut i: usize = 0;
    assert(sv.take(0) =~= Seq::<SpecStmt>::empty());
    assert(log0 + Seq::<SpecEvent>::empty() =~= log0);
    while i < body.len()
        invariant
            i <= body.len(),
            sv == stmts_view(body),
            env0 == old(env)@,
            st0 == old(state)@,
            log0 == old(sink).log(),
            ({
                let x = exec_block(sv.take(i as int), env0, st0, scheme@, instance@);
                &&& x.res == Ok::<SpecValue, Seq<char>>(last@)
                &&& env@ == x.env
                &&& state@ == x.st
                &&& sink.log() == log0 + x.evs
            }),
        decreases body.len() - i,
    {
        let ghost x = exec_block(sv.take(i as int), env0, st0, scheme@, instance@);
        proof {
            broadcast use vstd::std_specs::vec::axiom_vec_index_decreases;

            let t = sv.take(i + 1);
            assert(t.drop_last() =~= sv.take(i as int));
            assert(t.last() == body@[i as int]@);
        }
        match run_stmt(&body[i], env, state, scheme, instance, sink) {
            Ok(v) => {
                last = v;
            },
            Err(m) => {
                proof {
                    assert(sink.log() =~= log0 + exec_block(sv.take(i + 1), env0, st0, scheme@, instance@).evs);
                    lemma_exec_block_err(sv, i + 1, env0, st0, scheme@, instance@);
                }
                return Err(m);
            },
        }
        i = i + 1;
        assert(sink.log() =~= log0 + exec_block(sv.take(i as int), env0, st0, scheme@, instance@).evs);
    }
    assert(sv.take(body.len() as int) =~= sv);
    Ok(last)
}

pub open spec fn opt_value_view(o: Option<Value>) -> Option<SpecValue> {
    match o {
        Some(v) => Some(v@),
        None => None,
    }
}

/// Runs a handler: binds the message (when the handler names a binding
/// and a message is given), runs the body, and returns the value of a
/// trailing expression statement, else `Unit`.
pub fn run_handler(
    handler: &Handler,
    state: &mut FacetState,
    msg_binding: Option<Value>,
    scheme: &str,
    instance: &str,
    sink: &mut VecSink,
) -> (r: Result<Value, String>)
    ensures
        ({
            let x = handler_outcome(handler@, opt_value_view(msg_binding), old(state)@, scheme@, instance@);
            &&& result_view(r) == x.res
            &&& final(state)@ == x.st
            &&& final(sink).log() == old(sink).log() + x.evs
        }),
{
    let ghost mv = opt_value_view(msg_binding);
    let mut env = Env::new();
    match (&handler.binding, msg_binding) {
        (Some(name), Some(val)) => {
            env.set(name.as_str(), val);
        },
        _ => {},
    }
    assert(env@ == initial_env(handler@, mv));
    let v = match run_block(&handler.body, &mut env, state, scheme, instance, sink) {
        Ok(v) => v,
        Err(m) => return Err(m),
    };
    let n = handler.body.len();
    if n > 0 && matches!(handler.body[n - 1], Stmt::ExprStmt(_)) {
        Ok(v)
    } else {
        Ok(Value::Unit)
    }
}

/// Evaluates a state field's initializer against the state built so far
/// (with no locals).
pub fn eval_init(init: &Expr, state: &FacetState) -> (r: Result<Value, String>)
    ensures
        result_view(r) == eval(init@, Seq::empty(), state@),
{
    let env = Env::new();
    eval_expr(init, &env, state)
}

// ---------------------------------------------------------------------
// Laws.

/// `lhs ~> rhs` evaluates to the value of `rhs`.
pub proof fn law_state_shift_is_rhs(l: SpecExpr, r: SpecExpr, env: Bindings, st: Bindings)
    ensures
        eval(SpecExpr::Binary(BinOp::StateShift, Box::new(l), Box::new(r)), env, st) == eval(r, env, st),
{
}

/// An assignment to a name that is not a state field makes a local
/// binding: the state is unchanged and no event is emitted.
pub proof fn law_local_assignment(
    name: Seq<char>,
    value: SpecExpr,
    env: Bindings,
    st: Bindings,
    scheme: Seq<char>,
    inst: Seq<char>,
)
    requires
        lookup(st, name) is None,
        eval(value, env, st) is Ok,
    ensures
        ({
            let x = exec_stmt(SpecStmt::Assign { name, value }, env, st, scheme, inst);
            &&& x.res == Ok::<SpecValue, Seq<char>>(SpecValue::Unit)
            &&& x.st == st
            &&& x.evs.len() == 0
            &&& lookup(x.env, name) == Some(eval(value, env, st)->Ok_0)
        }),
{
    crate::runtime::env::law_lookup_after_bind(env, name, eval(value, env, st)->Ok_0);
}

/// An assignment to a state field gives the field its new value, leaves
/// the locals alone, and emits exactly one `state_assign` event carrying
/// the old and the new value.
pub proof fn law_state_assignment(
    name: Seq<char>,
    value: SpecExpr,
    env: Bindings,
    st: Bindings,
    scheme: Seq<char>,
    inst: Seq<char>,
)
    requires
        lookup(st, name) is Some,
        eval(value, env, st) is Ok,
    ensures
        ({
            let x = exec_stmt(SpecStmt::Assign { name, value }, env, st, scheme, inst);
            let new = eval(value, env, st)->Ok_0;
            &&& x.res == Ok::<SpecValue, Seq<char>>(SpecValue::Unit)
            &&& x.env == env
            &&& lookup(x.st, name) == Some(new)
            &&& x.evs == seq![
                SpecEvent::StateAssign {
                    scheme,
                    instance: inst,
                    field: name,
                    old_value: lookup(st, name)->Some_0,
                    new_value: new,
                },
            ]
        }),
{
    crate::runtime::env::law_lookup_after_bind(st, name, eval(value, env, st)->Ok_0);
}

/// Comparisons of two integers give `1` when they hold and `0` when they
/// do not: `>` and `<` are strict, `==` is equality. In particular a value
/// is never `>` itself.
pub proof fn law_int_comparisons(a: int, b: int)
    ensures
        binop_value(BinOp::Gt, SpecValue::Int(a), SpecValue::Int(b))
            == Ok::<SpecValue, Seq<char>>(SpecValue::Int(if a > b { 1 } else { 0 })),
        binop_value(BinOp::Lt, SpecValue::Int(a), SpecValue::Int(b))
            == Ok::<SpecValue, Seq<char>>(SpecValue::Int(if a < b { 1 } else { 0 })),
        binop_value(BinOp::Eq, SpecValue::Int(a), SpecValue::Int(b))
            == Ok::<SpecValue, Seq<char>>(SpecValue::Int(if a == b { 1 } else { 0 })),
        (binop_value(BinOp::Gt, SpecValue::Int(a), SpecValue::Int(b))
            == Ok::<SpecValue, Seq<char>>(SpecValue::Int(1))) <==> a > b,
        binop_value(BinOp::Gt, SpecValue::Int(a), SpecValue::Int(a))
            == Ok::<SpecValue, Seq<char>>(SpecValue::Int(0)),
{
}

/// Sums, differences and products of integers are the mathematical ones
/// whenever they fit in 64 signed bits.
pub proof fn law_int_arithmetic(a: int, b: int)
    ensures
        i64::MIN <= a + b <= i64::MAX ==> binop_value(BinOp::Add, SpecValue::Int(a), SpecValue::Int(b))
            == Ok::<SpecValue, Seq<char>>(SpecValue::Int(a + b)),
        i64::MIN <= a - b <= i64::MAX ==> binop_value(BinOp::Sub, SpecValue::Int(a), SpecValue::Int(b))
            == Ok::<SpecValue, Seq<char>>(SpecValue::Int(a - b)),
        i64::MIN <= a * b <= i64::MAX ==> binop_value(BinOp::Mul, SpecValue::Int(a), SpecValue::Int(b))
            == Ok::<SpecValue, Seq<char>>(SpecValue::Int(a * b)),
{
}

/// An `if` whose condition evaluates to `0` or `Unit` runs its `else`
/// block, when it has one: the state, the locals, the events and any
/// error are those of that block, and a block that succeeds gives `Unit`.
/// Without an `else` block nothing changes and nothing is emitted.
pub proof fn law_if_falsy_runs_else(
    cond: SpecExpr,
    then_body: Seq<SpecStmt>,
    else_body: Option<Seq<SpecStmt>>,
    env: Bindings,
    st: Bindings,
    scheme: Seq<char>,
    inst: Seq<char>,
)
    requires
        eval(cond, env, st) == Ok::<SpecValue, Seq<char>>(SpecValue::Int(0))
            || eval(cond, env, st) == Ok::<SpecValue, Seq<char>>(SpecValue::Unit),
    ensures
        ({
            let x = exec_stmt(SpecStmt::If { cond, then_body, else_body }, env, st, scheme, inst);
            match else_body {
                Some(b) => {
                    let y = exec_block(b, env, st, scheme, inst);
                    &&& x.st == y.st
                    &&& x.env == y.env
                    &&& x.evs == y.evs
                    &&& (y.res is Ok ==> x.res == Ok::<SpecValue, Seq<char>>(SpecValue::Unit))
                    &&& (y.res is Err ==> x.res == y.res)
                },
                None => {
                    &&& x.res == Ok::<SpecValue, Seq<char>>(SpecValue::Unit)
                    &&& x.st == st
                    &&& x.env == env
                    &&& x.evs.len() == 0
                },
            }
        }),
{
}

/// An `if` whose condition evaluates to anything but `0` or `Unit` runs
/// its `then` block: the state, the locals, the events and any error are
/// those of that block, and a block that succeeds gives `Unit`.
pub proof fn law_if_truthy_runs_then(
    cond: SpecExpr,
    then_body: Seq<SpecStmt>,
    else_body: Option<Seq<SpecStmt>>,
    env: Bindings,
    st: Bindings,
    scheme: Seq<char>,
    inst: Seq<char>,
    c: SpecValue,
)
    requires
        eval(cond, env, st) == Ok::<SpecValue, Seq<char>>(c),
        c != SpecValue::Int(0),
        c != SpecValue::Unit,
    ensures
        ({
            let x = exec_stmt(SpecStmt::If { cond, then_body, else_body }, env, st, scheme, inst);
            let y = exec_block(then_body, env, st, scheme, inst);
            &&& x.st == y.st
            &&& x.env == y.env
            &&& x.evs == y.evs
            &&& (y.res is Ok ==> x.res == Ok::<SpecValue, Seq<char>>(SpecValue::Unit))
            &&& (y.res is Err ==> x.res == y.res)
        }),
{
}

/// Only assignments to state fields emit events, and those events are
/// `state_assign` events.
pub open spec fn only_assigns(evs: Seq<SpecEvent>) -> bool {
    forall|i: int| 0 <= i < evs.len() ==> (#[trigger] evs[i]) is StateAssign
}

/// Running a statement emits only `state_assign` events.
pub proof fn law_stmt_emits_only_assigns(
    s: SpecStmt,
    env: Bindings,
    st: Bindings,
    scheme: Seq<char>,
    inst: Seq<char>,
)
    ensures
        only_assigns(exec_stmt(s, env, st, scheme, inst).evs),
    decreases s, 1int,
{
    match s {
        SpecStmt::If { cond, then_body, else_body } => {
            law_block_emits_only_assigns(then_body, env, st, scheme, inst);
            match else_body {
                Some(b) => law_block_emits_only_assigns(b, env, st, scheme, inst),
                None => {},
            }
        },
        _ => {},
    }
}

/// Running a block emits only `state_assign` events.
pub proof fn law_block_emits_only_assigns(
    body: Seq<SpecStmt>,
    env: Bindings,
    st: Bindings,
    scheme: Seq<char>,
    inst: Seq<char>,
)
    ensures
        only_assigns(exec_block(body, env, st, scheme, inst).evs),
    decreases body, 0int,
{
    if body.len() > 0 {
        law_block_emits_only_assigns(body.drop_last(), env, st, scheme, inst);
        let x = exec_block(body.drop_last(), env, st, scheme, inst);
        law_stmt_emits_only_assigns(body.last(), x.env, x.st, scheme, inst);
    }
}

/// The state after applying the `state_assign` events `evs`, in order,
/// to `st`.
pub open spec fn replay(st: Bindings, evs: Seq<SpecEvent>) -> Bindings
    decreases evs.len(),
{
    if evs.len() == 0 {
        st
    } else {
        let p = replay(st, evs.drop_last());
        match evs.last() {
            SpecEvent::StateAssign { field, new_value, .. } => bind(p, field, new_value),
            _ => p,
        }
    }
}

/// Each event of `evs` is a `state_assign` of instance `inst` of scheme
/// `scheme`, naming a field that the state holds at that point and
/// carrying its value there as the old value.
pub open spec fn faithful(st: Bindings, evs: Seq<SpecEvent>, scheme: Seq<char>, inst: Seq<char>) -> bool {
    forall|i: int|
        0 <= i < evs.len() ==> match #[trigger] evs[i] {
            SpecEvent::StateAssign { scheme: s, instance, field, old_value, .. } => s == scheme
                && instance == inst && lookup(replay(st, evs.take(i)), field) == Some(old_value),
            _ => false,
        }
}

proof fn lemma_replay_concat(st: Bindings, a: Seq<SpecEvent>, b: Seq<SpecEvent>)
    ensures
        replay(st, a + b) == replay(replay(st, a), b),
    decreases b.len(),
{
    if b.len() == 0 {
        assert(a + b =~= a);
    } else {
        lemma_replay_concat(st, a, b.drop_last());
        assert((a + b).drop_last() =~= a + b.drop_last());
        assert((a + b).last() == b.last());
    }
}

proof fn lemma_faithful_concat(
    st: Bindings,
    a: Seq<SpecEvent>,
    b: Seq<SpecEvent>,
    scheme: Seq<char>,
    inst: Seq<char>,
)
    requires
        faithful(st, a, scheme, inst),
        faithful(replay(st, a), b, scheme, inst),
    ensures
        faithful(st, a + b, scheme, inst),
{
    let w = a + b;
    assert forall|i: int| 0 <= i < w.len() implies match #[trigger] w[i] {
        SpecEvent::StateAssign { scheme: s, instance, field, old_value, .. } => s == scheme
            && instance == inst && lookup(replay(st, w.take(i)), field) == Some(old_value),
        _ => false,
    } by {
        if i < a.len() {
            assert(w[i] == a[i]);
            assert(w.take(i) =~= a.take(i));
        } else {
            let j = i - a.len();
            assert(w[i] == b[j]);
            assert(w.take(i) =~= a + b.take(j));
            lemma_replay_concat(st, a, b.take(j));
        }
    }
}

/// Statements change the state exactly as their events say.
proof fn lemma_stmt_replays(s: SpecStmt, env: Bindings, st: Bindings, scheme: Seq<char>, inst: Seq<char>)
    ensures
        ({
            let x = exec_stmt(s, env, st, scheme, inst);
            replay(st, x.evs) == x.st && faithful(st, x.evs, scheme, inst)
        }),
    decreases s, 1int,
{
    let x = exec_stmt(s, env, st, scheme, inst);
    match s {
        SpecStmt::Assign { name, value } => {
            assert(replay(st, Seq::<SpecEvent>::empty()) == st);
            if x.evs.len() == 1 {
                assert(x.evs.drop_last() =~= Seq::<SpecEvent>::empty());
                assert(x.evs.take(0) =~= Seq::<SpecEvent>::empty());
                let new = eval(value, env, st)->Ok_0;
                assert(replay(st, x.evs) == bind(replay(st, x.evs.drop_last()), name, new));
                assert forall|i: int| 0 <= i < x.evs.len() implies match #[trigger] x.evs[i] {
                    SpecEvent::StateAssign { scheme: sc, instance, field, old_value, .. } => sc == scheme
                        && instance == inst && lookup(replay(st, x.evs.take(i)), field) == Some(old_value),
                    _ => false,
                } by {
                    assert(i == 0);
                }
            }
        },
        SpecStmt::If { cond, then_body, else_body } => {
            lemma_block_replays(then_body, env, st, scheme, inst);
            match else_body {
                Some(b) => lemma_block_replays(b, env, st, scheme, inst),
                None => {},
            }
        },
        _ => {},
    }
}

proof fn lemma_block_replays(
    body: Seq<SpecStmt>,
    env: Bindings,
    st: Bindings,
    scheme: Seq<char>,
    inst: Seq<char>,
)
    ensures
        ({
            let x = exec_block(body, env, st, scheme, inst);
            replay(st, x.evs) == x.st && faithful(st, x.evs, scheme, inst)
        }),
    decreases body, 0int,
{
    if body.len() > 0 {
        lemma_block_replays(body.drop_last(), env, st, scheme, inst);
        let x = exec_block(body.drop_last(), env, st, scheme, inst);
        if x.res is Ok {
            lemma_stmt_replays(body.last(), x.env, x.st, scheme, inst);
            let y = exec_stmt(body.last(), x.env, x.st, scheme, inst);
            lemma_replay_concat(st, x.evs, y.evs);
            lemma_faithful_concat(st, x.evs, y.evs, scheme, inst);
        }
    }
}

/// Faithful events keep the set of state fields.
proof fn lemma_replay_keeps_fields(
    st: Bindings,
    evs: Seq<SpecEvent>,
    scheme: Seq<char>,
    inst: Seq<char>,
    n: Seq<char>,
)
    requires
        faithful(st, evs, scheme, inst),
    ensures
        (lookup(replay(st, evs), n) is Some) == (lookup(st, n) is Some),
    decreases evs.len(),
{
    if evs.len() > 0 {
        let dl = evs.drop_last();
        assert(faithful(st, dl, scheme, inst)) by {
            assert forall|i: int| 0 <= i < dl.len() implies match #[trigger] dl[i] {
                SpecEvent::StateAssign { scheme: s, instance, field, old_value, .. } => s == scheme
                    && instance == inst && lookup(replay(st, dl.take(i)), field) == Some(old_value),
                _ => false,
            } by {
                assert(dl[i] == evs[i]);
                assert(dl.take(i) =~= evs.take(i));
            }
        }
        lemma_replay_keeps_fields(st, dl, scheme, inst, n);
        let k = evs.len() - 1;
        assert(evs[k] == evs.last());
        assert(evs.take(k) =~= dl);
        match evs.last() {
            SpecEvent::StateAssign { field, new_value, .. } => {
                crate::runtime::env::law_bind_keeps_names(replay(st, dl), field, new_value, n);
            },
            _ => {},
        }
    }
}

/// A handler run changes the state only through the `state_assign`
/// events it emits, one for each assignment to a state field that runs,
/// in order: each names a field the state holds at that point and
/// carries its value there as the old value, and applying them in order
/// to the old state gives the new state, also where the run stops on an
/// error (nothing is rolled back). The set of state fields is unchanged.
pub proof fn law_handler_state_follows_events(
    h: SpecHandler,
    msg: Option<SpecValue>,
    st: Bindings,
    scheme: Seq<char>,
    inst: Seq<char>,
)
    ensures
        ({
            let x = handler_outcome(h, msg, st, scheme, inst);
            &&& replay(st, x.evs) == x.st
            &&& faithful(st, x.evs, scheme, inst)
            &&& forall|n: Seq<char>| (#[trigger] lookup(x.st, n) is Some) == (lookup(st, n) is Some)
        }),
{
    let x = handler_outcome(h, msg, st, scheme, inst);
    lemma_block_replays(h.body, initial_env(h, msg), st, scheme, inst);
    assert forall|n: Seq<char>| (#[trigger] lookup(x.st, n) is Some) == (lookup(st, n) is Some) by {
        lemma_replay_keeps_fields(st, x.evs, scheme, inst, n);
    }
}

} // verus!
