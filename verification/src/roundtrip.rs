//! Round trip of the printer and the parser, at the level of tokens.
//!
//! `*_toks` give the token sequence that the printer lays out for each
//! node (the printer's text is these tokens separated by blanks, line
//! breaks and indentation). The law at the end: for a well-formed module,
//! parsing the printed tokens gives back the module.
//!
//! Well-formed excludes exactly the shapes the layout cannot carry:
//! empty paths; a function type with effects whose result is a function
//! type without effects (`A -> B -> C / {e}` reads back with the effects
//! on the inner arrow); an empty `sequence()`; and a statement that ends
//! with a bare name followed by one that starts with `(`, which reads
//! back as a call.
use vstd::prelude::*;

use crate::ast::{
    BinOp, Name, SpecArg, SpecArm, SpecDispatch, SpecExpr, SpecFacet, SpecHandler, SpecInstance,
    SpecIoDecl, SpecIoEntry, SpecMode, SpecModule, SpecPattern, SpecScheme, SpecSpine,
    SpecStateField, SpecStmt, SpecType, SpecTypeAlias, SpecConnHandler,
};
use crate::lexer::SpecToken;
use crate::parser::{
    adv, binop_at, ident_at, w_facet, w_state, w_handlers, w_scheme, w_io, w_facets,
    w_dispatch_scripts, w_parallel, w_async, w_sequence, w_event, w_method, w_interface,
    w_requests, w_api_contracts, w_connection_handlers, is_section, is_tok, is_word, parse_arg, parse_args, parse_arm,
    parse_arms, parse_atom, parse_binary, parse_block, parse_expr, parse_items, parse_left_rest,
    parse_path, parse_path_tail, parse_postfix, parse_postfix_rest, parse_stmt, parse_stmts, tk,
    add_front, empty_module, parse_decl, parse_module_from, spec_parse, SpecDecl,
};
use crate::printer::{expr_prec, prec_of};

verus! {

// ---------------------------------------------------------------------
// Token layout.

pub open spec fn tail_toks(s: Seq<Name>) -> Seq<SpecToken>
    decreases s.len(),
{
    if s.len() == 0 {
        Seq::empty()
    } else {
        seq![SpecToken::Dot, SpecToken::Ident(s[0])] + tail_toks(s.drop_first())
    }
}

/// `a.b.c`
pub open spec fn path_toks(s: Seq<Name>) -> Seq<SpecToken> {
    seq![SpecToken::Ident(s[0])] + tail_toks(s.drop_first())
}

pub open spec fn op_tok(op: BinOp) -> SpecToken {
    match op {
        BinOp::Add => SpecToken::Plus,
        BinOp::Sub => SpecToken::Minus,
        BinOp::Mul => SpecToken::Star,
        BinOp::Div => SpecToken::Slash,
        BinOp::Lt => SpecToken::Lt,
        BinOp::Gt => SpecToken::Gt,
        BinOp::Eq => SpecToken::EqEq,
        BinOp::Pipe => SpecToken::Pipe,
        BinOp::StateShift => SpecToken::StateShift,
    }
}

/// Context of the left operand of `op`.
pub open spec fn lctx(op: BinOp) -> int {
    if op == BinOp::StateShift {
        2
    } else {
        prec_of(op) as int
    }
}

/// Context of the right operand of `op`.
pub open spec fn rctx(op: BinOp) -> int {
    if op == BinOp::StateShift {
        1
    } else {
        prec_of(op) + 1
    }
}

/// `e` needs parentheses in a context of precedence `c`.
pub open spec fn paren(e: SpecExpr, c: int) -> bool {
    (expr_prec(e) as int) < c
}

pub open spec fn expr_toks(e: SpecExpr, c: int) -> Seq<SpecToken>
    decreases e, 3int,
{
    let body = match e {
        SpecExpr::Int(n) => seq![SpecToken::Int(n)],
        SpecExpr::Float(t) => seq![SpecToken::Float(t)],
        SpecExpr::Str(s) => seq![SpecToken::Str(s)],
        SpecExpr::Ident(n) => seq![SpecToken::Ident(n)],
        SpecExpr::Binary(op, l, r) => expr_toks(*l, lctx(op)) + seq![op_tok(op)] + expr_toks(*r, rctx(op)),
        SpecExpr::Call { callee, args } => seq![SpecToken::Ident(callee), SpecToken::LParen] + if args.len()
            == 0 {
            seq![SpecToken::RParen]
        } else {
            args_close(args)
        },
        SpecExpr::List(items) => seq![SpecToken::LBracket] + if items.len() == 0 {
            seq![SpecToken::RBracket]
        } else {
            items_close(items)
        },
        SpecExpr::FieldAccess { object, field } => expr_toks(*object, 255) + seq![
            SpecToken::Dot,
            SpecToken::Ident(field),
        ],
        SpecExpr::Match { scrutinee, arms } => seq![SpecToken::KwMatch] + expr_toks(*scrutinee, 0) + seq![
            SpecToken::LBrace,
        ] + arms_close(arms),
    };
    if paren(e, c) {
        seq![SpecToken::LParen] + body + seq![SpecToken::RParen]
    } else {
        body
    }
}

pub open spec fn arg_toks(a: SpecArg) -> Seq<SpecToken>
    decreases a, 3int,
{
    match a {
        SpecArg::Positional(e) => expr_toks(e, 0),
        SpecArg::Named { name, value } => seq![SpecToken::Ident(name), SpecToken::Colon] + expr_toks(
            value,
            0,
        ),
    }
}

/// `arg (',' arg)* ')'`
pub open spec fn args_close(args: Seq<SpecArg>) -> Seq<SpecToken>
    decreases args, 3int,
{
    if args.len() == 0 {
        seq![SpecToken::RParen]
    } else {
        arg_toks(args[0]) + if args.len() == 1 {
            seq![SpecToken::RParen]
        } else {
            seq![SpecToken::Comma] + args_close(args.drop_first())
        }
    }
}

/// `expr (',' expr)* ']'`
pub open spec fn items_close(items: Seq<SpecExpr>) -> Seq<SpecToken>
    decreases items, 3int,
{
    if items.len() == 0 {
        seq![SpecToken::RBracket]
    } else {
        expr_toks(items[0], 0) + if items.len() == 1 {
            seq![SpecToken::RBracket]
        } else {
            seq![SpecToken::Comma] + items_close(items.drop_first())
        }
    }
}

pub open spec fn pattern_toks(p: SpecPattern) -> Seq<SpecToken> {
    match p {
        SpecPattern::Wildcard => seq![SpecToken::Underscore],
        SpecPattern::Constructor(path) => path_toks(path),
    }
}

/// A single statement other than `if` stands inline; anything else is a
/// block.
pub open spec fn inline_body(body: Seq<SpecStmt>) -> bool {
    body.len() == 1 && !(body[0] is If)
}

pub open spec fn arm_body_toks(body: Seq<SpecStmt>) -> Seq<SpecToken>
    decreases body, 2int,
{
    if inline_body(body) {
        stmt_toks(body[0])
    } else {
        block_toks(body)
    }
}

pub open spec fn arm_toks(a: SpecArm) -> Seq<SpecToken>
    decreases a, 3int,
{
    pattern_toks(a.pattern) + seq![SpecToken::Arrow] + arm_body_toks(a.body)
}

/// `arm* '}'`
pub open spec fn arms_close(arms: Seq<SpecArm>) -> Seq<SpecToken>
    decreases arms, 3int,
{
    if arms.len() == 0 {
        seq![SpecToken::RBrace]
    } else {
        arm_toks(arms[0]) + arms_close(arms.drop_first())
    }
}

pub open spec fn stmt_toks(s: SpecStmt) -> Seq<SpecToken>
    decreases s, 3int,
{
    match s {
        SpecStmt::Assign { name, value } => seq![SpecToken::Ident(name), SpecToken::Assign] + expr_toks(
            value,
            0,
        ),
        SpecStmt::If { cond, then_body, else_body } => seq![SpecToken::KwIf] + expr_toks(cond, 0)
            + block_toks(then_body) + match else_body {
            Some(b) => seq![SpecToken::KwElse] + block_toks(b),
            None => Seq::empty(),
        },
        SpecStmt::ExprStmt(e) => expr_toks(e, 0),
    }
}

/// `'{' stmt* '}'`
pub open spec fn block_toks(body: Seq<SpecStmt>) -> Seq<SpecToken>
    decreases body, 1int,
{
    seq![SpecToken::LBrace] + stmts_close(body)
}

/// `stmt* '}'`
pub open spec fn stmts_close(body: Seq<SpecStmt>) -> Seq<SpecToken>
    decreases body, 0int,
{
    if body.len() == 0 {
        seq![SpecToken::RBrace]
    } else {
        stmt_toks(body[0]) + stmts_close(body.drop_first())
    }
}

// ---------------------------------------------------------------------
// Well-formedness.

/// The printed tokens of `e` (in context `c`) end with a name that is not
/// a call: a `(` right after it would make it one.
pub open spec fn ends_ident(e: SpecExpr, c: int) -> bool
    decreases e,
{
    if paren(e, c) {
        false
    } else {
        match e {
            SpecExpr::Ident(_) => true,
            SpecExpr::Binary(op, _, r) => ends_ident(*r, rctx(op)),
            _ => false,
        }
    }
}

/// The printed tokens of `e` (in context `c`) start with `(`.
pub open spec fn starts_paren(e: SpecExpr, c: int) -> bool
    decreases e,
{
    if paren(e, c) {
        true
    } else {
        match e {
            SpecExpr::Binary(op, l, _) => starts_paren(*l, lctx(op)),
            SpecExpr::FieldAccess { object, .. } => starts_paren(*object, 255),
            _ => false,
        }
    }
}

pub open spec fn stmt_ends_ident(s: SpecStmt) -> bool {
    match s {
        SpecStmt::Assign { value, .. } => ends_ident(value, 0),
        SpecStmt::ExprStmt(e) => ends_ident(e, 0),
        _ => false,
    }
}

pub open spec fn stmt_starts_paren(s: SpecStmt) -> bool {
    match s {
        SpecStmt::ExprStmt(e) => starts_paren(e, 0),
        _ => false,
    }
}

pub open spec fn wf_expr(e: SpecExpr) -> bool
    decreases e, 3int,
{
    match e {
        SpecExpr::Binary(_, l, r) => wf_expr(*l) && wf_expr(*r),
        SpecExpr::Call { args, .. } => wf_args(args),
        SpecExpr::List(items) => wf_items(items),
        SpecExpr::FieldAccess { object, .. } => wf_expr(*object),
        SpecExpr::Match { scrutinee, arms } => wf_expr(*scrutinee) && wf_arms(arms),
        _ => true,
    }
}

pub open spec fn wf_args(args: Seq<SpecArg>) -> bool
    decreases args, 3int,
{
    args.len() > 0 ==> match args[0] {
        SpecArg::Positional(e) => wf_expr(e),
        SpecArg::Named { value, .. } => wf_expr(value),
    } && wf_args(args.drop_first())
}

pub open spec fn wf_items(items: Seq<SpecExpr>) -> bool
    decreases items, 3int,
{
    items.len() > 0 ==> wf_expr(items[0]) && wf_items(items.drop_first())
}

pub open spec fn wf_pattern(p: SpecPattern) -> bool {
    match p {
        SpecPattern::Constructor(path) => path.len() > 0,
        _ => true,
    }
}

pub open spec fn wf_arms(arms: Seq<SpecArm>) -> bool
    decreases arms, 3int,
{
    arms.len() > 0 ==> wf_pattern(arms[0].pattern) && wf_stmts(arms[0].body) && wf_arms(
        arms.drop_first(),
    )
}

pub open spec fn wf_stmt(s: SpecStmt) -> bool
    decreases s, 3int,
{
    match s {
        SpecStmt::Assign { value, .. } => wf_expr(value),
        SpecStmt::If { cond, then_body, else_body } => wf_expr(cond) && wf_stmts(then_body) && match else_body {
            Some(b) => wf_stmts(b),
            None => true,
        },
        SpecStmt::ExprStmt(e) => wf_expr(e),
    }
}

/// Each statement well-formed, and no statement that ends with a bare
/// name is followed by one that starts with `(`.
pub open spec fn wf_stmts(body: Seq<SpecStmt>) -> bool
    decreases body, 0int,
{
    body.len() > 0 ==> wf_stmt(body[0]) && (body.len() > 1 && stmt_ends_ident(body[0])
        ==> !stmt_starts_paren(body[1])) && wf_stmts(body.drop_first())
}

// ---------------------------------------------------------------------
// Positions.

/// The tokens `t` stand in `ts` from `p` on.
pub open spec fn at(ts: Seq<SpecToken>, p: int, t: Seq<SpecToken>) -> bool {
    0 <= p && p + t.len() <= ts.len() && forall|i: int| 0 <= i < t.len() ==> ts[p + i] == #[trigger] t[i]
}

pub proof fn lemma_at_split(ts: Seq<SpecToken>, p: int, a: Seq<SpecToken>, b: Seq<SpecToken>)
    requires
        at(ts, p, a + b),
    ensures
        at(ts, p, a),
        at(ts, p + a.len(), b),
        b.len() > 0 ==> tk(ts, p + a.len()) == Some(b[0]),
{
    assert forall|i: int| 0 <= i < a.len() implies ts[p + i] == #[trigger] a[i] by {
        assert((a + b)[i] == a[i]);
    }
    assert forall|i: int| 0 <= i < b.len() implies ts[p + a.len() + i] == #[trigger] b[i] by {
        assert((a + b)[a.len() + i] == b[i]);
    }
    if b.len() > 0 {
        assert(ts[p + a.len() + 0] == b[0]);
    }
}

pub proof fn lemma_at_first(ts: Seq<SpecToken>, p: int, a: Seq<SpecToken>)
    requires
        at(ts, p, a),
        a.len() > 0,
    ensures
        tk(ts, p) == Some(a[0]),
{
    assert(ts[p + 0] == a[0]);
}

// ---------------------------------------------------------------------
// Paths.

proof fn lemma_tail(s: Seq<Name>, ts: Seq<SpecToken>, p: int)
    requires
        at(ts, p, tail_toks(s)),
        tk(ts, p + tail_toks(s).len()) != Some(SpecToken::Dot),
    ensures
        parse_path_tail(ts, p) == (s, p + tail_toks(s).len()),
    decreases s.len(),
{
    if s.len() == 0 {
        assert(s =~= Seq::<Name>::empty());
    } else {
        let a = seq![SpecToken::Dot, SpecToken::Ident(s[0])];
        lemma_at_split(ts, p, a, tail_toks(s.drop_first()));
        lemma_at_first(ts, p, a);
        assert(ts[p + 1] == a[1]);
        lemma_tail(s.drop_first(), ts, p + 2);
        assert(seq![s[0]] + s.drop_first() =~= s);
    }
}

proof fn lemma_path(s: Seq<Name>, ts: Seq<SpecToken>, p: int)
    requires
        s.len() > 0,
        at(ts, p, path_toks(s)),
        tk(ts, p + path_toks(s).len()) != Some(SpecToken::Dot),
    ensures
        parse_path(ts, p) == Some((s, p + path_toks(s).len())),
{
    let a = seq![SpecToken::Ident(s[0])];
    lemma_at_split(ts, p, a, tail_toks(s.drop_first()));
    lemma_at_first(ts, p, a);
    lemma_tail(s.drop_first(), ts, p + 1);
    assert(seq![s[0]] + s.drop_first() =~= s);
}

// ---------------------------------------------------------------------
// Expressions.

/// The binding level of an operator token (0 for any other token).
pub open spec fn op_level(f: Option<SpecToken>) -> int {
    match f {
        Some(SpecToken::StateShift) => 1,
        Some(SpecToken::Pipe) => 2,
        Some(SpecToken::Lt) => 3,
        Some(SpecToken::Gt) => 3,
        Some(SpecToken::EqEq) => 3,
        Some(SpecToken::Plus) => 4,
        Some(SpecToken::Minus) => 4,
        Some(SpecToken::Star) => 5,
        Some(SpecToken::Slash) => 5,
        _ => 0,
    }
}

/// After an expression, the token `f` lets a parse at level `lvl` stop:
/// it continues no operator of that level or tighter, no field access,
/// and (after a bare name) no call.
pub open spec fn stops(f: Option<SpecToken>, lvl: int, ends: bool) -> bool {
    op_level(f) < lvl && f != Some(SpecToken::Dot) && (ends ==> f != Some(SpecToken::LParen))
}

/// The printing context of parse level `lvl` (1: `~>`, 2..5: binary
/// levels, 6: postfix).
pub open spec fn ctx(lvl: int) -> int {
    if lvl >= 6 {
        255
    } else {
        lvl
    }
}

pub open spec fn parse_lvl(ts: Seq<SpecToken>, p: int, lvl: int) -> Option<(SpecExpr, int)> {
    if lvl <= 1 {
        parse_expr(ts, p)
    } else if lvl <= 5 {
        parse_binary(ts, p, lvl)
    } else {
        parse_postfix(ts, p)
    }
}

pub open spec fn rank_full(e: SpecExpr, lvl: int) -> int {
    if paren(e, ctx(lvl)) {
        40 + 2 * (6 - lvl) + 1
    } else {
        2 * (6 - lvl) + 1
    }
}

pub open spec fn rank_pp(e: SpecExpr) -> int {
    if e is Binary {
        20
    } else {
        0
    }
}

/// Whether the token may start a printed expression.
pub open spec fn expr_start(t: SpecToken) -> bool {
    t is Int || t is Float || t is Str || t is Ident || t is LParen || t is LBracket || t is KwMatch
}

proof fn lemma_expr_first(e: SpecExpr, c: int)
    ensures
        expr_toks(e, c).len() > 0,
        expr_start(expr_toks(e, c)[0]),
        (expr_toks(e, c)[0] == SpecToken::LParen) == starts_paren(e, c),
        expr_toks(e, c)[0] is Ident && expr_toks(e, c).len() > 1 ==> !(expr_toks(e, c)[1] is Colon)
            && !(expr_toks(e, c)[1] is Assign),
        expr_toks(e, c).len() == 1 && expr_toks(e, c)[0] is Ident ==> ends_ident(e, c),
    decreases e,
{
    if !paren(e, c) {
        match e {
            SpecExpr::Binary(op, l, r) => {
                lemma_expr_first(*l, lctx(op));
                lemma_expr_first(*r, rctx(op));
                let lt = expr_toks(*l, lctx(op));
                assert(expr_toks(e, c) == lt + seq![op_tok(op)] + expr_toks(*r, rctx(op)));
                assert(expr_toks(e, c)[0] == lt[0]);
                if lt.len() == 1 {
                    assert(expr_toks(e, c)[1] == op_tok(op));
                } else {
                    assert(expr_toks(e, c)[1] == lt[1]);
                }
            },
            SpecExpr::FieldAccess { object, field } => {
                lemma_expr_first(*object, 255);
                let ot = expr_toks(*object, 255);
                assert(expr_toks(e, c) == ot + seq![SpecToken::Dot, SpecToken::Ident(field)]);
                assert(expr_toks(e, c)[0] == ot[0]);
                if ot.len() == 1 {
                    assert(expr_toks(e, c)[1] == SpecToken::Dot);
                } else {
                    assert(expr_toks(e, c)[1] == ot[1]);
                }
            },
            SpecExpr::Match { scrutinee, arms } => {},
            _ => {},
        }
    }
}

/// The context only matters through the parentheses it calls for.
proof fn lemma_ctx_same(e: SpecExpr, c1: int, c2: int)
    requires
        paren(e, c1) == paren(e, c2),
    ensures
        expr_toks(e, c1) == expr_toks(e, c2),
        ends_ident(e, c1) == ends_ident(e, c2),
        starts_paren(e, c1) == starts_paren(e, c2),
{
}

proof fn lemma_full(e: SpecExpr, lvl: int, ts: Seq<SpecToken>, p: int)
    requires
        1 <= lvl <= 6,
        wf_expr(e),
        at(ts, p, expr_toks(e, ctx(lvl))),
        stops(tk(ts, p + expr_toks(e, ctx(lvl)).len()), lvl, ends_ident(e, ctx(lvl))),
    ensures
        parse_lvl(ts, p, lvl) == Some((e, p + expr_toks(e, ctx(lvl)).len())),
    decreases e, rank_full(e, lvl),
{
    let n = expr_toks(e, ctx(lvl)).len();
    if lvl == 6 {
        lemma_pp(e, ts, p);
    } else if 2 <= lvl <= 5 {
        lemma_bin(e, lvl, ts, p);
        assert(binop_at(ts, p + n, lvl) is None);
    } else {
        match e {
            SpecExpr::Binary(BinOp::StateShift, l, r) => {
                let lt = expr_toks(*l, 2);
                let rt = expr_toks(*r, 1);
                assert(expr_toks(e, 1) == lt + seq![SpecToken::StateShift] + rt);
                lemma_at_split(ts, p, lt + seq![SpecToken::StateShift], rt);
                lemma_at_split(ts, p, lt, seq![SpecToken::StateShift]);
                lemma_full(*l, 2, ts, p);
                lemma_full(*r, 1, ts, p + lt.len() + 1);
            },
            _ => {
                lemma_ctx_same(e, 1, 2);
                lemma_full(e, 2, ts, p);
            },
        }
    }
}

proof fn lemma_bin(e: SpecExpr, lvl: int, ts: Seq<SpecToken>, p: int)
    requires
        2 <= lvl <= 5,
        wf_expr(e),
        at(ts, p, expr_toks(e, lvl)),
        stops(tk(ts, p + expr_toks(e, lvl).len()), lvl + 1, ends_ident(e, lvl)),
    ensures
        parse_binary(ts, p, lvl) == parse_left_rest(ts, e, p + expr_toks(e, lvl).len(), lvl),
    decreases e, rank_full(e, lvl) - 1,
{
    let n = expr_toks(e, lvl).len();
    match e {
        SpecExpr::Binary(op, l, r) => {
            if prec_of(op) as int == lvl {
                let lt = expr_toks(*l, lvl);
                let rt = expr_toks(*r, lvl + 1);
                assert(expr_toks(e, lvl) == lt + seq![op_tok(op)] + rt);
                lemma_at_split(ts, p, lt + seq![op_tok(op)], rt);
                lemma_at_split(ts, p, lt, seq![op_tok(op)]);
                lemma_bin(*l, lvl, ts, p);
                if lvl == 5 {
                    lemma_ctx_same(*r, 6, 255);
                }
                lemma_full(*r, lvl + 1, ts, p + lt.len() + 1);
            } else {
                lemma_ctx_same(e, lvl, lvl + 1);
                if lvl == 5 {
                    lemma_ctx_same(e, 6, 255);
                }
                lemma_full(e, lvl + 1, ts, p);
            }
        },
        _ => {
            lemma_ctx_same(e, lvl, lvl + 1);
            if lvl == 5 {
                lemma_ctx_same(e, 6, 255);
            }
            lemma_full(e, lvl + 1, ts, p);
        },
    }
}

proof fn lemma_pp(e: SpecExpr, ts: Seq<SpecToken>, p: int)
    requires
        wf_expr(e),
        at(ts, p, expr_toks(e, 255)),
        ends_ident(e, 255) ==> tk(ts, p + expr_toks(e, 255).len()) != Some(SpecToken::LParen),
    ensures
        parse_postfix(ts, p) == parse_postfix_rest(ts, e, p + expr_toks(e, 255).len()),
    decreases e, rank_pp(e),
{
    let t = expr_toks(e, 255);
    lemma_at_first(ts, p, t);
    match e {
        SpecExpr::Binary(op, l, r) => {
            let inner = expr_toks(e, 0);
            assert(t == seq![SpecToken::LParen] + inner + seq![SpecToken::RParen]);
            lemma_at_split(ts, p, seq![SpecToken::LParen] + inner, seq![SpecToken::RParen]);
            lemma_at_split(ts, p, seq![SpecToken::LParen], inner);
            lemma_ctx_same(e, 0, 1);
            lemma_full(e, 1, ts, p + 1);
            assert(parse_expr(ts, p + 1) == Some((e, p + 1 + inner.len())));
            assert(tk(ts, p + 1 + inner.len()) == Some(SpecToken::RParen));
            assert(parse_atom(ts, p) == Some((e, p + t.len())));
            assert(adv(ts, p, p + t.len()));
            assert(parse_postfix(ts, p) == parse_postfix_rest(ts, e, p + t.len()));
            assert(parse_postfix(ts, p) == parse_postfix_rest(ts, e, p + expr_toks(e, 255).len()));
        },
        SpecExpr::FieldAccess { object, field } => {
            let ot = expr_toks(*object, 255);
            assert(t == ot + seq![SpecToken::Dot, SpecToken::Ident(field)]);
            lemma_at_split(ts, p, ot, seq![SpecToken::Dot, SpecToken::Ident(field)]);
            assert(ts[p + ot.len() + 1] == SpecToken::Ident(field));
            lemma_pp(*object, ts, p);
            assert(parse_postfix(ts, p) == parse_postfix_rest(ts, e, p + t.len()));
        },
        SpecExpr::Call { callee, args } => {
            let head = seq![SpecToken::Ident(callee), SpecToken::LParen];
            assert(ts[p + 1] == t[1]);
            if args.len() == 0 {
                assert(ts[p + 2] == t[2]);
                assert(args =~= Seq::<SpecArg>::empty());
            } else {
                assert(t == head + args_close(args));
                lemma_at_split(ts, p, head, args_close(args));
                lemma_args(args, ts, p + 2);
                lemma_arg_first(args[0]);
                assert(args_close(args)[0] == arg_toks(args[0])[0]);
                assert(ts[p + 2] == t[2]);
            }
            assert(parse_postfix(ts, p) == parse_postfix_rest(ts, e, p + t.len()));
        },
        SpecExpr::List(items) => {
            if items.len() == 0 {
                assert(ts[p + 1] == t[1]);
                assert(items =~= Seq::<SpecExpr>::empty());
            } else {
                assert(t == seq![SpecToken::LBracket] + items_close(items));
                lemma_at_split(ts, p, seq![SpecToken::LBracket], items_close(items));
                lemma_items(items, ts, p + 1);
                lemma_expr_first(items[0], 0);
                assert(ts[p + 1] == t[1]);
                assert(t[1] == expr_toks(items[0], 0)[0]);
            }
            assert(parse_postfix(ts, p) == parse_postfix_rest(ts, e, p + t.len()));
        },
        SpecExpr::Match { scrutinee, arms } => {
            let st = expr_toks(*scrutinee, 0);
            assert(t == seq![SpecToken::KwMatch] + st + seq![SpecToken::LBrace] + arms_close(arms));
            lemma_at_split(ts, p, seq![SpecToken::KwMatch] + st + seq![SpecToken::LBrace], arms_close(arms));
            lemma_at_split(ts, p, seq![SpecToken::KwMatch] + st, seq![SpecToken::LBrace]);
            lemma_at_split(ts, p, seq![SpecToken::KwMatch], st);
            lemma_ctx_same(*scrutinee, 0, 1);
            lemma_full(*scrutinee, 1, ts, p + 1);
            lemma_arms(arms, ts, p + 1 + st.len() + 1);
            assert(parse_postfix(ts, p) == parse_postfix_rest(ts, e, p + t.len()));
        },
        _ => {
            assert(parse_postfix(ts, p) == parse_postfix_rest(ts, e, p + t.len()));
        },
    }
}

proof fn lemma_arg_first(a: SpecArg)
    ensures
        arg_toks(a).len() > 0,
        arg_toks(a)[0] != SpecToken::RParen,
{
    match a {
        SpecArg::Positional(e) => lemma_expr_first(e, 0),
        SpecArg::Named { .. } => {},
    }
}

proof fn lemma_arg(a: SpecArg, ts: Seq<SpecToken>, p: int)
    requires
        match a {
            SpecArg::Positional(e) => wf_expr(e),
            SpecArg::Named { value, .. } => wf_expr(value),
        },
        at(ts, p, arg_toks(a)),
        tk(ts, p + arg_toks(a).len()) == Some(SpecToken::Comma) || tk(ts, p + arg_toks(a).len())
            == Some(SpecToken::RParen),
    ensures
        parse_arg(ts, p) == Some((a, p + arg_toks(a).len())),
    decreases a, 0int,
{
    match a {
        SpecArg::Positional(e) => {
            let t = expr_toks(e, 0);
            lemma_expr_first(e, 0);
            lemma_at_first(ts, p, t);
            if t.len() > 1 {
                assert(ts[p + 1] == t[1]);
            }
            lemma_ctx_same(e, 0, 1);
            lemma_full(e, 1, ts, p);
        },
        SpecArg::Named { name, value } => {
            let head = seq![SpecToken::Ident(name), SpecToken::Colon];
            lemma_at_split(ts, p, head, expr_toks(value, 0));
            lemma_at_first(ts, p, head);
            assert(ts[p + 1] == head[1]);
            lemma_ctx_same(value, 0, 1);
            lemma_full(value, 1, ts, p + 2);
        },
    }
}

proof fn lemma_args(args: Seq<SpecArg>, ts: Seq<SpecToken>, p: int)
    requires
        args.len() > 0,
        wf_args(args),
        at(ts, p, args_close(args)),
    ensures
        parse_args(ts, p) == Some((args, p + args_close(args).len())),
    decreases args, 0int,
{
    let a0 = args[0];
    let rest = if args.len() == 1 {
        seq![SpecToken::RParen]
    } else {
        seq![SpecToken::Comma] + args_close(args.drop_first())
    };
    assert(args_close(args) == arg_toks(a0) + rest);
    lemma_at_split(ts, p, arg_toks(a0), rest);
    lemma_arg(a0, ts, p);
    lemma_arg_first(a0);
    let q = p + arg_toks(a0).len();
    if args.len() == 1 {
        assert(seq![a0] =~= args);
    } else {
        lemma_at_split(ts, q, seq![SpecToken::Comma], args_close(args.drop_first()));
        lemma_args(args.drop_first(), ts, q + 1);
        assert(seq![a0] + args.drop_first() =~= args);
    }
}

proof fn lemma_items(items: Seq<SpecExpr>, ts: Seq<SpecToken>, p: int)
    requires
        items.len() > 0,
        wf_items(items),
        at(ts, p, items_close(items)),
    ensures
        parse_items(ts, p) == Some((items, p + items_close(items).len())),
    decreases items, 0int,
{
    let e0 = items[0];
    let rest = if items.len() == 1 {
        seq![SpecToken::RBracket]
    } else {
        seq![SpecToken::Comma] + items_close(items.drop_first())
    };
    assert(items_close(items) == expr_toks(e0, 0) + rest);
    lemma_at_split(ts, p, expr_toks(e0, 0), rest);
    lemma_ctx_same(e0, 0, 1);
    lemma_expr_first(e0, 0);
    lemma_full(e0, 1, ts, p);
    let q = p + expr_toks(e0, 0).len();
    if items.len() == 1 {
        assert(seq![e0] =~= items);
    } else {
        lemma_at_split(ts, q, seq![SpecToken::Comma], items_close(items.drop_first()));
        lemma_items(items.drop_first(), ts, q + 1);
        assert(seq![e0] + items.drop_first() =~= items);
    }
}

/// Whether the token may start a printed statement.
pub open spec fn stmt_start(t: SpecToken) -> bool {
    expr_start(t) || t is KwIf
}

proof fn lemma_stmt_first(s: SpecStmt)
    ensures
        stmt_toks(s).len() > 0,
        stmt_start(stmt_toks(s)[0]),
        (stmt_toks(s)[0] == SpecToken::LParen) == stmt_starts_paren(s),
{
    match s {
        SpecStmt::ExprStmt(e) => lemma_expr_first(e, 0),
        _ => {},
    }
}

/// After a statement, the token `f` ends it.
pub open spec fn stmt_stops(f: Option<SpecToken>, ends: bool) -> bool {
    op_level(f) == 0 && f != Some(SpecToken::Dot) && f != Some(SpecToken::Assign) && f != Some(
        SpecToken::KwElse,
    ) && (ends ==> f != Some(SpecToken::LParen))
}

proof fn lemma_stmt(s: SpecStmt, ts: Seq<SpecToken>, p: int)
    requires
        wf_stmt(s),
        at(ts, p, stmt_toks(s)),
        stmt_stops(tk(ts, p + stmt_toks(s).len()), stmt_ends_ident(s)),
    ensures
        parse_stmt(ts, p) == Some((s, p + stmt_toks(s).len())),
    decreases s, 0int,
{
    let t = stmt_toks(s);
    lemma_stmt_first(s);
    lemma_at_first(ts, p, t);
    match s {
        SpecStmt::Assign { name, value } => {
            let head = seq![SpecToken::Ident(name), SpecToken::Assign];
            lemma_at_split(ts, p, head, expr_toks(value, 0));
            assert(ts[p + 1] == head[1]);
            lemma_ctx_same(value, 0, 1);
            lemma_full(value, 1, ts, p + 2);
        },
        SpecStmt::ExprStmt(e) => {
            lemma_expr_first(e, 0);
            if t.len() > 1 {
                assert(ts[p + 1] == t[1]);
            }
            lemma_ctx_same(e, 0, 1);
            lemma_full(e, 1, ts, p);
        },
        SpecStmt::If { cond, then_body, else_body } => {
            let ct = expr_toks(cond, 0);
            let bt = block_toks(then_body);
            let et = match else_body {
                Some(b) => seq![SpecToken::KwElse] + block_toks(b),
                None => Seq::empty(),
            };
            assert(t == seq![SpecToken::KwIf] + ct + bt + et);
            lemma_at_split(ts, p, seq![SpecToken::KwIf] + ct + bt, et);
            lemma_at_split(ts, p, seq![SpecToken::KwIf] + ct, bt);
            lemma_at_split(ts, p, seq![SpecToken::KwIf], ct);
            lemma_ctx_same(cond, 0, 1);
            lemma_full(cond, 1, ts, p + 1);
            lemma_block(then_body, ts, p + 1 + ct.len());
            match else_body {
                Some(b) => {
                    lemma_at_split(ts, p + 1 + ct.len() + bt.len(), seq![SpecToken::KwElse], block_toks(b));
                    lemma_block(b, ts, p + 1 + ct.len() + bt.len() + 1);
                },
                None => {
                    assert(et.len() == 0);
                },
            }
        },
    }
}

proof fn lemma_block(body: Seq<SpecStmt>, ts: Seq<SpecToken>, p: int)
    requires
        wf_stmts(body),
        at(ts, p, block_toks(body)),
    ensures
        parse_block(ts, p) == Some((body, p + block_toks(body).len())),
    decreases body, 1int,
{
    lemma_at_split(ts, p, seq![SpecToken::LBrace], stmts_close(body));
    lemma_at_first(ts, p, seq![SpecToken::LBrace]);
    lemma_stmts(body, ts, p + 1);
}

proof fn lemma_stmts(body: Seq<SpecStmt>, ts: Seq<SpecToken>, p: int)
    requires
        wf_stmts(body),
        at(ts, p, stmts_close(body)),
    ensures
        parse_stmts(ts, p) == Some((body, p + stmts_close(body).len())),
    decreases body, 0int,
{
    if body.len() == 0 {
        lemma_at_first(ts, p, stmts_close(body));
        assert(body =~= Seq::<SpecStmt>::empty());
    } else {
        let b0 = body[0];
        let rest = body.drop_first();
        lemma_at_split(ts, p, stmt_toks(b0), stmts_close(rest));
        lemma_stmt_first(b0);
        lemma_at_first(ts, p, stmt_toks(b0));
        if rest.len() > 0 {
            lemma_stmt_first(rest[0]);
            assert(stmts_close(rest)[0] == stmt_toks(rest[0])[0]);
            assert(rest[0] == body[1]);
        }
        lemma_stmt(b0, ts, p);
        lemma_stmts(rest, ts, p + stmt_toks(b0).len());
        assert(seq![b0] + rest =~= body);
    }
}

proof fn lemma_arm(a: SpecArm, ts: Seq<SpecToken>, p: int)
    requires
        wf_pattern(a.pattern),
        wf_stmts(a.body),
        at(ts, p, arm_toks(a)),
        ({
            let f = tk(ts, p + arm_toks(a).len());
            f == Some(SpecToken::RBrace) || f == Some(SpecToken::Underscore) || f matches Some(
                SpecToken::Ident(_),
            )
        }),
    ensures
        parse_arm(ts, p) == Some((a, p + arm_toks(a).len())),
    decreases a, 0int,
{
    let pt = pattern_toks(a.pattern);
    let bt = arm_body_toks(a.body);
    assert(arm_toks(a) == pt + seq![SpecToken::Arrow] + bt);
    lemma_at_split(ts, p, pt + seq![SpecToken::Arrow], bt);
    lemma_at_split(ts, p, pt, seq![SpecToken::Arrow]);
    match a.pattern {
        SpecPattern::Wildcard => {
            lemma_at_first(ts, p, pt);
        },
        SpecPattern::Constructor(path) => {
            lemma_at_first(ts, p, pt);
            lemma_path(path, ts, p);
        },
    }
    let q = p + pt.len() + 1;
    if inline_body(a.body) {
        lemma_stmt_first(a.body[0]);
        lemma_at_first(ts, q, bt);
        lemma_stmt(a.body[0], ts, q);
        assert(seq![a.body[0]] =~= a.body);
    } else {
        lemma_at_first(ts, q, bt);
        lemma_block(a.body, ts, q);
    }
}

proof fn lemma_arms(arms: Seq<SpecArm>, ts: Seq<SpecToken>, p: int)
    requires
        wf_arms(arms),
        at(ts, p, arms_close(arms)),
    ensures
        parse_arms(ts, p) == Some((arms, p + arms_close(arms).len())),
    decreases arms, 0int,
{
    if arms.len() == 0 {
        lemma_at_first(ts, p, arms_close(arms));
        assert(arms =~= Seq::<SpecArm>::empty());
    } else {
        let a0 = arms[0];
        let rest = arms.drop_first();
        lemma_at_split(ts, p, arm_toks(a0), arms_close(rest));
        let pt = pattern_toks(a0.pattern);
        assert(arm_toks(a0) == pt + seq![SpecToken::Arrow] + arm_body_toks(a0.body));
        assert(arm_toks(a0)[0] == pt[0]);
        lemma_at_first(ts, p, arm_toks(a0));
        if rest.len() > 0 {
            assert(arms_close(rest)[0] == arm_toks(rest[0])[0]);
            assert(arm_toks(rest[0]) == pattern_toks(rest[0].pattern) + seq![SpecToken::Arrow]
                + arm_body_toks(rest[0].body));
            assert(arm_toks(rest[0])[0] == pattern_toks(rest[0].pattern)[0]);
        }
        lemma_arm(a0, ts, p);
        lemma_arms(rest, ts, p + arm_toks(a0).len());
        assert(seq![a0] + rest =~= arms);
    }
}

// ---------------------------------------------------------------------
// Types.

pub open spec fn type_toks(t: SpecType) -> Seq<SpecToken>
    decreases t, 1int,
{
    match t {
        SpecType::Path(segs) => path_toks(segs),
        SpecType::List(inner) => seq![SpecToken::LBracket] + type_toks(*inner) + seq![SpecToken::RBracket],
        SpecType::Function { from, to, effects } => (if *from is Function {
            seq![SpecToken::LParen] + type_toks(*from) + seq![SpecToken::RParen]
        } else {
            type_toks(*from)
        }) + seq![SpecToken::Arrow] + type_toks(*to) + if effects.len() == 0 {
            Seq::empty()
        } else {
            seq![SpecToken::Slash, SpecToken::LBrace] + effs_close(effects)
        },
        SpecType::Record(fields) => seq![SpecToken::LBrace] + if fields.len() == 0 {
            seq![SpecToken::RBrace]
        } else {
            named_close(fields)
        },
    }
}

/// `path (',' path)* '}'`
pub open spec fn effs_close(effs: Seq<Seq<Name>>) -> Seq<SpecToken>
    decreases effs.len(),
{
    if effs.len() == 0 {
        seq![SpecToken::RBrace]
    } else {
        path_toks(effs[0]) + if effs.len() == 1 {
            seq![SpecToken::RBrace]
        } else {
            seq![SpecToken::Comma] + effs_close(effs.drop_first())
        }
    }
}

/// `ident ':' type (',' ident ':' type)* '}'`
pub open spec fn named_close(fs: Seq<(Name, SpecType)>) -> Seq<SpecToken>
    decreases fs, 0int,
{
    if fs.len() == 0 {
        seq![SpecToken::RBrace]
    } else {
        seq![SpecToken::Ident(fs[0].0), SpecToken::Colon] + type_toks(fs[0].1) + if fs.len() == 1 {
            seq![SpecToken::RBrace]
        } else {
            seq![SpecToken::Comma] + named_close(fs.drop_first())
        }
    }
}

/// A function type without effects.
pub open spec fn bare_function(t: SpecType) -> bool {
    match t {
        SpecType::Function { effects, .. } => effects.len() == 0,
        _ => false,
    }
}

pub open spec fn wf_type(t: SpecType) -> bool
    decreases t, 1int,
{
    match t {
        SpecType::Path(segs) => segs.len() > 0,
        SpecType::List(inner) => wf_type(*inner),
        SpecType::Function { from, to, effects } => wf_type(*from) && wf_type(*to) && (forall|i: int|
            0 <= i < effects.len() ==> (#[trigger] effects[i]).len() > 0) && (effects.len() > 0
            ==> !bare_function(*to)),
        SpecType::Record(fields) => wf_named(fields),
    }
}

pub open spec fn wf_named(fs: Seq<(Name, SpecType)>) -> bool
    decreases fs, 0int,
{
    fs.len() > 0 ==> wf_type(fs[0].1) && wf_named(fs.drop_first())
}

/// After a type, the token `f` ends it.
pub open spec fn type_stops(f: Option<SpecToken>, t: SpecType) -> bool {
    f != Some(SpecToken::Arrow) && f != Some(SpecToken::Dot) && (f == Some(SpecToken::Slash)
        ==> !bare_function(t))
}

proof fn lemma_type_first(t: SpecType)
    ensures
        type_toks(t).len() > 0,
        type_toks(t)[0] is Ident || type_toks(t)[0] is LBracket || type_toks(t)[0] is LBrace
            || type_toks(t)[0] is LParen,
        !(t is Function) ==> !(type_toks(t)[0] is LParen),
    decreases t,
{
    match t {
        SpecType::Function { from, to, effects } => {
            lemma_type_first(*from);
        },
        _ => {},
    }
}

proof fn lemma_type(t: SpecType, ts: Seq<SpecToken>, p: int)
    requires
        wf_type(t),
        at(ts, p, type_toks(t)),
        type_stops(tk(ts, p + type_toks(t).len()), t),
    ensures
        crate::parser::parse_type(ts, p) == Some((t, p + type_toks(t).len())),
    decreases t, 1int,
{
    match t {
        SpecType::Function { from, to, effects } => {
            let ft = if *from is Function {
                seq![SpecToken::LParen] + type_toks(*from) + seq![SpecToken::RParen]
            } else {
                type_toks(*from)
            };
            let tt = type_toks(*to);
            let et = if effects.len() == 0 {
                Seq::<SpecToken>::empty()
            } else {
                seq![SpecToken::Slash, SpecToken::LBrace] + effs_close(effects)
            };
            assert(type_toks(t) == ft + seq![SpecToken::Arrow] + tt + et);
            lemma_at_split(ts, p, ft + seq![SpecToken::Arrow] + tt, et);
            lemma_at_split(ts, p, ft + seq![SpecToken::Arrow], tt);
            lemma_at_split(ts, p, ft, seq![SpecToken::Arrow]);
            if *from is Function {
                lemma_at_split(ts, p, seq![SpecToken::LParen] + type_toks(*from), seq![SpecToken::RParen]);
                lemma_at_split(ts, p, seq![SpecToken::LParen], type_toks(*from));
                lemma_at_first(ts, p, ft);
                lemma_type(*from, ts, p + 1);
                assert(crate::parser::parse_type_atom(ts, p) == Some((*from, p + ft.len())));
            } else {
                lemma_type_atom(*from, ts, p);
            }
            let q = p + ft.len();
            if effects.len() > 0 {
                lemma_at_split(ts, q + 1 + tt.len(), seq![SpecToken::Slash, SpecToken::LBrace], effs_close(effects));
                assert(ts[q + 1 + tt.len() + 1] == SpecToken::LBrace);
            } else {
                assert(et.len() == 0);
            }
            lemma_type(*to, ts, q + 1);
            let r = q + 1 + tt.len();
            if effects.len() > 0 {
                lemma_effs(effects, ts, r + 2);
            } else {
                assert(effects =~= Seq::<Seq<Name>>::empty());
            }
        },
        _ => {
            lemma_type_atom(t, ts, p);
        },
    }
}

proof fn lemma_type_atom(t: SpecType, ts: Seq<SpecToken>, p: int)
    requires
        wf_type(t),
        !(t is Function),
        at(ts, p, type_toks(t)),
        tk(ts, p + type_toks(t).len()) != Some(SpecToken::Dot),
    ensures
        crate::parser::parse_type_atom(ts, p) == Some((t, p + type_toks(t).len())),
    decreases t, 0int,
{
    lemma_at_first(ts, p, type_toks(t));
    match t {
        SpecType::Path(segs) => {
            lemma_path(segs, ts, p);
        },
        SpecType::List(inner) => {
            let it = type_toks(*inner);
            lemma_at_split(ts, p, seq![SpecToken::LBracket] + it, seq![SpecToken::RBracket]);
            lemma_at_split(ts, p, seq![SpecToken::LBracket], it);
            lemma_type(*inner, ts, p + 1);
        },
        SpecType::Record(fields) => {
            if fields.len() == 0 {
                assert(ts[p + 1] == type_toks(t)[1]);
                assert(fields =~= Seq::<(Name, SpecType)>::empty());
            } else {
                lemma_at_split(ts, p, seq![SpecToken::LBrace], named_close(fields));
                lemma_named(fields, ts, p + 1);
                assert(ts[p + 1] == type_toks(t)[1]);
            }
        },
        _ => {},
    }
}

proof fn lemma_named(fs: Seq<(Name, SpecType)>, ts: Seq<SpecToken>, p: int)
    requires
        fs.len() > 0,
        wf_named(fs),
        at(ts, p, named_close(fs)),
    ensures
        crate::parser::parse_named_types(ts, p, SpecToken::RBrace) == Some((fs, p + named_close(fs).len())),
    decreases fs, 0int,
{
    let head = seq![SpecToken::Ident(fs[0].0), SpecToken::Colon];
    let tt = type_toks(fs[0].1);
    let rest = if fs.len() == 1 {
        seq![SpecToken::RBrace]
    } else {
        seq![SpecToken::Comma] + named_close(fs.drop_first())
    };
    assert(named_close(fs) == head + tt + rest);
    lemma_at_split(ts, p, head + tt, rest);
    lemma_at_split(ts, p, head, tt);
    lemma_at_first(ts, p, head);
    assert(ts[p + 1] == head[1]);
    lemma_type(fs[0].1, ts, p + 2);
    let q = p + 2 + tt.len();
    if fs.len() == 1 {
        assert(seq![(fs[0].0, fs[0].1)] =~= fs);
    } else {
        lemma_at_split(ts, q, seq![SpecToken::Comma], named_close(fs.drop_first()));
        lemma_named(fs.drop_first(), ts, q + 1);
        assert(seq![(fs[0].0, fs[0].1)] + fs.drop_first() =~= fs);
    }
}

proof fn lemma_effs(effs: Seq<Seq<Name>>, ts: Seq<SpecToken>, p: int)
    requires
        effs.len() > 0,
        forall|i: int| 0 <= i < effs.len() ==> (#[trigger] effs[i]).len() > 0,
        at(ts, p, effs_close(effs)),
    ensures
        crate::parser::parse_effects(ts, p) == Some((effs, p + effs_close(effs).len())),
    decreases effs.len(),
{
    let pt = path_toks(effs[0]);
    let rest = if effs.len() == 1 {
        seq![SpecToken::RBrace]
    } else {
        seq![SpecToken::Comma] + effs_close(effs.drop_first())
    };
    assert(effs_close(effs) == pt + rest);
    lemma_at_split(ts, p, pt, rest);
    lemma_path(effs[0], ts, p);
    let q = p + pt.len();
    if effs.len() == 1 {
        assert(seq![effs[0]] =~= effs);
    } else {
        lemma_at_split(ts, q, seq![SpecToken::Comma], effs_close(effs.drop_first()));
        assert forall|i: int| 0 <= i < effs.drop_first().len() implies (#[trigger] effs.drop_first()[i]).len() > 0 by {
            assert(effs.drop_first()[i] == effs[i + 1]);
        }
        lemma_effs(effs.drop_first(), ts, q + 1);
        assert(seq![effs[0]] + effs.drop_first() =~= effs);
    }
}

// ---------------------------------------------------------------------
// Facets.

pub open spec fn field_toks(f: SpecStateField) -> Seq<SpecToken> {
    seq![SpecToken::Ident(f.name)] + match f.ty {
        Some(t) => seq![SpecToken::Colon] + type_toks(t),
        None => Seq::empty(),
    } + seq![SpecToken::Assign] + expr_toks(f.init, 0)
}

pub open spec fn fields_toks(fs: Seq<SpecStateField>) -> Seq<SpecToken>
    decreases fs.len(),
{
    if fs.len() == 0 {
        Seq::empty()
    } else {
        field_toks(fs[0]) + fields_toks(fs.drop_first())
    }
}

pub open spec fn handler_toks(h: SpecHandler) -> Seq<SpecToken> {
    seq![SpecToken::KwOn] + path_toks(h.message_type) + match h.binding {
        Some(b) => seq![SpecToken::Ident(b)],
        None => Seq::empty(),
    } + match h.return_ty {
        Some(t) => seq![SpecToken::Arrow] + type_toks(t),
        None => Seq::empty(),
    } + block_toks(h.body)
}

pub open spec fn handlers_toks(hs: Seq<SpecHandler>) -> Seq<SpecToken>
    decreases hs.len(),
{
    if hs.len() == 0 {
        Seq::empty()
    } else {
        handler_toks(hs[0]) + handlers_toks(hs.drop_first())
    }
}

pub open spec fn facet_toks(f: SpecFacet) -> Seq<SpecToken> {
    seq![SpecToken::Ident(w_facet()), SpecToken::Ident(f.name), SpecToken::LBrace] + (if f.state.len()
        > 0 {
        seq![SpecToken::Section(w_state())] + fields_toks(f.state)
    } else {
        Seq::empty()
    }) + (if f.handlers.len() > 0 {
        seq![SpecToken::Section(w_handlers())] + handlers_toks(f.handlers)
    } else {
        Seq::empty()
    }) + seq![SpecToken::RBrace]
}

pub open spec fn wf_field(f: SpecStateField) -> bool {
    &&& match f.ty {
        Some(t) => wf_type(t),
        None => true,
    }
    &&& wf_expr(f.init)
}

pub open spec fn wf_handler(h: SpecHandler) -> bool {
    &&& h.message_type.len() > 0
    &&& match h.return_ty {
        Some(t) => wf_type(t),
        None => true,
    }
    &&& wf_stmts(h.body)
}

pub open spec fn wf_facet(f: SpecFacet) -> bool {
    &&& forall|i: int| 0 <= i < f.state.len() ==> wf_field(#[trigger] f.state[i])
    &&& forall|i: int| 0 <= i < f.handlers.len() ==> wf_handler(#[trigger] f.handlers[i])
}

/// A token that may follow a declaration section: the next section
/// marker or the closing brace.
pub open spec fn section_end(f: Option<SpecToken>) -> bool {
    f == Some(SpecToken::RBrace) || f matches Some(SpecToken::Section(_))
}

proof fn lemma_field(f: SpecStateField, ts: Seq<SpecToken>, p: int)
    requires
        wf_field(f),
        at(ts, p, field_toks(f)),
        section_end(tk(ts, p + field_toks(f).len())) || tk(ts, p + field_toks(f).len()) matches Some(
            SpecToken::Ident(_),
        ),
    ensures
        crate::parser::parse_field(ts, p) == Some((f, p + field_toks(f).len())),
{
    let tyt = match f.ty {
        Some(t) => seq![SpecToken::Colon] + type_toks(t),
        None => Seq::empty(),
    };
    let it = expr_toks(f.init, 0);
    assert(field_toks(f) == seq![SpecToken::Ident(f.name)] + tyt + seq![SpecToken::Assign] + it);
    lemma_at_split(ts, p, seq![SpecToken::Ident(f.name)] + tyt + seq![SpecToken::Assign], it);
    lemma_at_split(ts, p, seq![SpecToken::Ident(f.name)] + tyt, seq![SpecToken::Assign]);
    lemma_at_split(ts, p, seq![SpecToken::Ident(f.name)], tyt);
    lemma_at_first(ts, p, seq![SpecToken::Ident(f.name)]);
    match f.ty {
        Some(t) => {
            lemma_at_split(ts, p + 1, seq![SpecToken::Colon], type_toks(t));
            lemma_type(t, ts, p + 2);
        },
        None => {},
    }
    lemma_ctx_same(f.init, 0, 1);
    lemma_full(f.init, 1, ts, p + 1 + tyt.len() + 1);
}

proof fn lemma_fields(fs: Seq<SpecStateField>, ts: Seq<SpecToken>, p: int)
    requires
        forall|i: int| 0 <= i < fs.len() ==> wf_field(#[trigger] fs[i]),
        at(ts, p, fields_toks(fs)),
        section_end(tk(ts, p + fields_toks(fs).len())),
    ensures
        crate::parser::parse_fields(ts, p) == Some((fs, p + fields_toks(fs).len())),
    decreases fs.len(),
{
    if fs.len() == 0 {
        assert(fs =~= Seq::<SpecStateField>::empty());
    } else {
        let rest = fs.drop_first();
        lemma_at_split(ts, p, field_toks(fs[0]), fields_toks(rest));
        lemma_at_first(ts, p, field_toks(fs[0]));
        if rest.len() > 0 {
            assert(fields_toks(rest)[0] == field_toks(rest[0])[0]);
        }
        assert(wf_field(fs[0]));
        lemma_field(fs[0], ts, p);
        assert forall|i: int| 0 <= i < rest.len() implies wf_field(#[trigger] rest[i]) by {
            assert(rest[i] == fs[i + 1]);
        }
        lemma_fields(rest, ts, p + field_toks(fs[0]).len());
        assert(seq![fs[0]] + rest =~= fs);
    }
}

proof fn lemma_handler(h: SpecHandler, ts: Seq<SpecToken>, p: int)
    requires
        wf_handler(h),
        at(ts, p, handler_toks(h)),
    ensures
        crate::parser::parse_handler(ts, p) == Some((h, p + handler_toks(h).len())),
{
    let mt = path_toks(h.message_type);
    let bt = match h.binding {
        Some(b) => seq![SpecToken::Ident(b)],
        None => Seq::empty(),
    };
    let rt = match h.return_ty {
        Some(t) => seq![SpecToken::Arrow] + type_toks(t),
        None => Seq::empty(),
    };
    let kt = block_toks(h.body);
    assert(handler_toks(h) == seq![SpecToken::KwOn] + mt + bt + rt + kt);
    lemma_at_split(ts, p, seq![SpecToken::KwOn] + mt + bt + rt, kt);
    lemma_at_split(ts, p, seq![SpecToken::KwOn] + mt + bt, rt);
    lemma_at_split(ts, p, seq![SpecToken::KwOn] + mt, bt);
    lemma_at_split(ts, p, seq![SpecToken::KwOn], mt);
    lemma_at_first(ts, p, seq![SpecToken::KwOn]);
    let q = p + 1 + mt.len();
    let q2 = q + bt.len();
    let r = q2 + rt.len();
    lemma_at_first(ts, r, kt);
    if rt.len() > 0 {
        lemma_at_first(ts, q2, rt);
    }
    if bt.len() > 0 {
        lemma_at_first(ts, q, bt);
    }
    lemma_path(h.message_type, ts, p + 1);
    match h.return_ty {
        Some(t) => {
            lemma_at_split(ts, q2, seq![SpecToken::Arrow], type_toks(t));
            lemma_type(t, ts, q2 + 1);
        },
        None => {},
    }
    lemma_block(h.body, ts, r);
}

proof fn lemma_handlers(hs: Seq<SpecHandler>, ts: Seq<SpecToken>, p: int)
    requires
        forall|i: int| 0 <= i < hs.len() ==> wf_handler(#[trigger] hs[i]),
        at(ts, p, handlers_toks(hs)),
        tk(ts, p + handlers_toks(hs).len()) == Some(SpecToken::RBrace),
    ensures
        crate::parser::parse_handlers(ts, p) == Some((hs, p + handlers_toks(hs).len())),
    decreases hs.len(),
{
    if hs.len() == 0 {
        assert(hs =~= Seq::<SpecHandler>::empty());
    } else {
        let rest = hs.drop_first();
        lemma_at_split(ts, p, handler_toks(hs[0]), handlers_toks(rest));
        lemma_at_first(ts, p, handler_toks(hs[0]));
        assert(wf_handler(hs[0]));
        lemma_handler(hs[0], ts, p);
        assert forall|i: int| 0 <= i < rest.len() implies wf_handler(#[trigger] rest[i]) by {
            assert(rest[i] == hs[i + 1]);
        }
        lemma_handlers(rest, ts, p + handler_toks(hs[0]).len());
        assert(seq![hs[0]] + rest =~= hs);
    }
}

proof fn lemma_facet(f: SpecFacet, ts: Seq<SpecToken>, p: int)
    requires
        wf_facet(f),
        at(ts, p, facet_toks(f)),
    ensures
        crate::parser::parse_facet(ts, p) == Some((f, p + facet_toks(f).len())),
{
    reveal(crate::parser::parse_facet);
    let head = seq![SpecToken::Ident(w_facet()), SpecToken::Ident(f.name), SpecToken::LBrace];
    let st = if f.state.len() > 0 {
        seq![SpecToken::Section(w_state())] + fields_toks(f.state)
    } else {
        Seq::empty()
    };
    let ht = if f.handlers.len() > 0 {
        seq![SpecToken::Section(w_handlers())] + handlers_toks(f.handlers)
    } else {
        Seq::empty()
    };
    assert(facet_toks(f) == head + st + ht + seq![SpecToken::RBrace]);
    lemma_at_split(ts, p, head + st + ht, seq![SpecToken::RBrace]);
    lemma_at_split(ts, p, head + st, ht);
    lemma_at_split(ts, p, head, st);
    lemma_at_first(ts, p, head);
    assert(ts[p + 1] == head[1]);
    assert(ts[p + 2] == head[2]);
    let q = p + 3;
    let q1 = q + st.len();
    let q2 = q1 + ht.len();
    if ht.len() > 0 {
        lemma_at_first(ts, q1, ht);
        lemma_at_split(ts, q1, seq![SpecToken::Section(w_handlers())], handlers_toks(f.handlers));
    }
    if st.len() > 0 {
        lemma_at_first(ts, q, st);
        lemma_at_split(ts, q, seq![SpecToken::Section(w_state())], fields_toks(f.state));
        lemma_fields(f.state, ts, q + 1);
    } else {
        assert(f.state =~= Seq::<SpecStateField>::empty());
    }
    assert(w_state() != w_handlers()) by {
        assert(w_state().len() != w_handlers().len());
    }
    if ht.len() > 0 {
        lemma_handlers(f.handlers, ts, q1 + 1);
    } else {
        assert(f.handlers =~= Seq::<SpecHandler>::empty());
    }
}

// ---------------------------------------------------------------------
// Schemes.

/// `ident (sep ident)* ')'`
pub open spec fn idents_close(ns: Seq<Name>, sep: SpecToken) -> Seq<SpecToken>
    decreases ns.len(),
{
    if ns.len() == 0 {
        seq![SpecToken::RParen]
    } else {
        seq![SpecToken::Ident(ns[0])] + if ns.len() == 1 {
            seq![SpecToken::RParen]
        } else {
            seq![sep] + idents_close(ns.drop_first(), sep)
        }
    }
}

pub open spec fn spine_toks(sp: SpecSpine) -> Seq<SpecToken> {
    seq![SpecToken::Ident(sp.name), SpecToken::Colon] + path_toks(sp.io_path)
}

pub open spec fn spines_toks(v: Seq<SpecSpine>) -> Seq<SpecToken>
    decreases v.len(),
{
    if v.len() == 0 {
        Seq::empty()
    } else {
        spine_toks(v[0]) + spines_toks(v.drop_first())
    }
}

pub open spec fn instance_toks(i: SpecInstance) -> Seq<SpecToken> {
    seq![SpecToken::Ident(i.name), SpecToken::LParen] + if i.io_args.len() == 0 {
        seq![SpecToken::RParen]
    } else {
        idents_close(i.io_args, SpecToken::Comma)
    }
}

pub open spec fn instances_toks(v: Seq<SpecInstance>) -> Seq<SpecToken>
    decreases v.len(),
{
    if v.len() == 0 {
        Seq::empty()
    } else {
        instance_toks(v[0]) + instances_toks(v.drop_first())
    }
}

pub open spec fn mode_toks(m: SpecMode) -> Seq<SpecToken> {
    match m {
        SpecMode::Parallel => seq![SpecToken::Ident(w_parallel())],
        SpecMode::Async => seq![SpecToken::Ident(w_async())],
        SpecMode::Sequence(ns) => seq![SpecToken::Ident(w_sequence()), SpecToken::LParen] + idents_close(
            ns,
            SpecToken::Arrow,
        ),
    }
}

pub open spec fn dispatch_toks(d: SpecDispatch) -> Seq<SpecToken> {
    seq![SpecToken::KwOn, SpecToken::Ident(d.spine), SpecToken::Dot, SpecToken::Ident(d.event)]
        + mode_toks(d.mode)
}

pub open spec fn dispatches_toks(v: Seq<SpecDispatch>) -> Seq<SpecToken>
    decreases v.len(),
{
    if v.len() == 0 {
        Seq::empty()
    } else {
        dispatch_toks(v[0]) + dispatches_toks(v.drop_first())
    }
}

pub open spec fn scheme_toks(s: SpecScheme) -> Seq<SpecToken> {
    seq![SpecToken::Ident(w_scheme()), SpecToken::Ident(s.name)] + match s.parent {
        Some(par) => seq![SpecToken::At, SpecToken::Ident(par)],
        None => Seq::empty(),
    } + seq![SpecToken::LBrace] + (if s.io_spines.len() > 0 {
        seq![SpecToken::Section(w_io())] + spines_toks(s.io_spines)
    } else {
        Seq::empty()
    }) + (if s.facet_instances.len() > 0 {
        seq![SpecToken::Section(w_facets())] + instances_toks(s.facet_instances)
    } else {
        Seq::empty()
    }) + (if s.dispatch.len() > 0 {
        seq![SpecToken::Section(w_dispatch_scripts())] + dispatches_toks(s.dispatch)
    } else {
        Seq::empty()
    }) + seq![SpecToken::RBrace]
}

pub open spec fn wf_scheme(s: SpecScheme) -> bool {
    &&& forall|i: int| 0 <= i < s.io_spines.len() ==> (#[trigger] s.io_spines[i]).io_path.len() > 0
    &&& forall|i: int|
        0 <= i < s.dispatch.len() ==> match (#[trigger] s.dispatch[i]).mode {
            SpecMode::Sequence(ns) => ns.len() > 0,
            _ => true,
        }
}

proof fn lemma_idents(ns: Seq<Name>, sep: SpecToken, ts: Seq<SpecToken>, p: int)
    requires
        ns.len() > 0,
        sep == SpecToken::Comma || sep == SpecToken::Arrow,
        at(ts, p, idents_close(ns, sep)),
    ensures
        crate::parser::parse_idents(ts, p, sep, SpecToken::RParen) == Some(
            (ns, p + idents_close(ns, sep).len()),
        ),
    decreases ns.len(),
{
    let rest = if ns.len() == 1 {
        seq![SpecToken::RParen]
    } else {
        seq![sep] + idents_close(ns.drop_first(), sep)
    };
    assert(idents_close(ns, sep) == seq![SpecToken::Ident(ns[0])] + rest);
    lemma_at_split(ts, p, seq![SpecToken::Ident(ns[0])], rest);
    lemma_at_first(ts, p, seq![SpecToken::Ident(ns[0])]);
    if ns.len() == 1 {
        assert(seq![ns[0]] =~= ns);
    } else {
        lemma_at_split(ts, p + 1, seq![sep], idents_close(ns.drop_first(), sep));
        lemma_idents(ns.drop_first(), sep, ts, p + 2);
        assert(seq![ns[0]] + ns.drop_first() =~= ns);
    }
}

proof fn lemma_spines(v: Seq<SpecSpine>, ts: Seq<SpecToken>, p: int)
    requires
        forall|i: int| 0 <= i < v.len() ==> (#[trigger] v[i]).io_path.len() > 0,
        at(ts, p, spines_toks(v)),
        section_end(tk(ts, p + spines_toks(v).len())),
    ensures
        crate::parser::parse_spines(ts, p) == Some((v, p + spines_toks(v).len())),
    decreases v.len(),
{
    if v.len() == 0 {
        assert(v =~= Seq::<SpecSpine>::empty());
    } else {
        let rest = v.drop_first();
        let sp = v[0];
        lemma_at_split(ts, p, spine_toks(sp), spines_toks(rest));
        lemma_at_split(ts, p, seq![SpecToken::Ident(sp.name), SpecToken::Colon], path_toks(sp.io_path));
        lemma_at_first(ts, p, spine_toks(sp));
        assert(ts[p + 1] == spine_toks(sp)[1]);
        if rest.len() > 0 {
            assert(spines_toks(rest)[0] == spine_toks(rest[0])[0]);
        }
        lemma_path(sp.io_path, ts, p + 2);
        assert forall|i: int| 0 <= i < rest.len() implies (#[trigger] rest[i]).io_path.len() > 0 by {
            assert(rest[i] == v[i + 1]);
        }
        lemma_spines(rest, ts, p + spine_toks(sp).len());
        assert(seq![SpecSpine { name: sp.name, io_path: sp.io_path }] + rest =~= v);
    }
}

proof fn lemma_instances(v: Seq<SpecInstance>, ts: Seq<SpecToken>, p: int)
    requires
        at(ts, p, instances_toks(v)),
        section_end(tk(ts, p + instances_toks(v).len())),
    ensures
        crate::parser::parse_instances(ts, p) == Some((v, p + instances_toks(v).len())),
    decreases v.len(),
{
    if v.len() == 0 {
        assert(v =~= Seq::<SpecInstance>::empty());
    } else {
        let rest = v.drop_first();
        let i0 = v[0];
        let it = instance_toks(i0);
        lemma_at_split(ts, p, it, instances_toks(rest));
        lemma_at_first(ts, p, it);
        assert(ts[p + 1] == it[1]);
        assert(ts[p + 2] == it[2]);
        if i0.io_args.len() > 0 {
            lemma_at_split(ts, p, seq![SpecToken::Ident(i0.name), SpecToken::LParen], idents_close(i0.io_args, SpecToken::Comma));
            lemma_idents(i0.io_args, SpecToken::Comma, ts, p + 2);
        } else {
            assert(i0.io_args =~= Seq::<Name>::empty());
        }
        if rest.len() > 0 {
            assert(instances_toks(rest)[0] == instance_toks(rest[0])[0]);
        }
        lemma_instances(rest, ts, p + it.len());
        assert(seq![SpecInstance { name: i0.name, io_args: i0.io_args }] + rest =~= v);
    }
}

proof fn lemma_mode(m: SpecMode, ts: Seq<SpecToken>, p: int)
    requires
        match m {
            SpecMode::Sequence(ns) => ns.len() > 0,
            _ => true,
        },
        at(ts, p, mode_toks(m)),
    ensures
        crate::parser::parse_mode(ts, p) == Some((m, p + mode_toks(m).len())),
{
    lemma_at_first(ts, p, mode_toks(m));
    assert(w_parallel() != w_async()) by {
        assert(w_parallel().len() != w_async().len());
    }
    assert(w_sequence() != w_async()) by {
        assert(w_sequence().len() != w_async().len());
    }
    assert(w_sequence() != w_parallel()) by {
        assert(w_sequence()[0] != w_parallel()[0]);
    }
    match m {
        SpecMode::Sequence(ns) => {
            let head = seq![SpecToken::Ident(w_sequence()), SpecToken::LParen];
            lemma_at_split(ts, p, head, idents_close(ns, SpecToken::Arrow));
            assert(ts[p + 1] == head[1]);
            lemma_idents(ns, SpecToken::Arrow, ts, p + 2);
        },
        _ => {},
    }
}

proof fn lemma_dispatches(v: Seq<SpecDispatch>, ts: Seq<SpecToken>, p: int)
    requires
        forall|i: int|
            0 <= i < v.len() ==> match (#[trigger] v[i]).mode {
                SpecMode::Sequence(ns) => ns.len() > 0,
                _ => true,
            },
        at(ts, p, dispatches_toks(v)),
        tk(ts, p + dispatches_toks(v).len()) == Some(SpecToken::RBrace),
    ensures
        crate::parser::parse_dispatches(ts, p) == Some((v, p + dispatches_toks(v).len())),
    decreases v.len(),
{
    if v.len() == 0 {
        assert(v =~= Seq::<SpecDispatch>::empty());
    } else {
        let rest = v.drop_first();
        let d = v[0];
        let dt = dispatch_toks(d);
        let head = seq![SpecToken::KwOn, SpecToken::Ident(d.spine), SpecToken::Dot, SpecToken::Ident(d.event)];
        lemma_at_split(ts, p, dt, dispatches_toks(rest));
        lemma_at_split(ts, p, head, mode_toks(d.mode));
        lemma_at_first(ts, p, dt);
        assert(ts[p + 1] == head[1]);
        assert(ts[p + 2] == head[2]);
        assert(ts[p + 3] == head[3]);
        lemma_mode(d.mode, ts, p + 4);
        if rest.len() > 0 {
            assert(dispatches_toks(rest)[0] == dispatch_toks(rest[0])[0]);
        }
        assert forall|i: int|
            0 <= i < rest.len() implies match (#[trigger] rest[i]).mode {
                SpecMode::Sequence(ns) => ns.len() > 0,
                _ => true,
            } by {
            assert(rest[i] == v[i + 1]);
        }
        lemma_dispatches(rest, ts, p + dt.len());
        assert(seq![SpecDispatch { spine: d.spine, event: d.event, mode: d.mode }] + rest =~= v);
    }
}

#[verifier::rlimit(40)]
proof fn lemma_scheme(s: SpecScheme, ts: Seq<SpecToken>, p: int)
    requires
        wf_scheme(s),
        at(ts, p, scheme_toks(s)),
    ensures
        crate::parser::parse_scheme(ts, p) == Some((s, p + scheme_toks(s).len())),
{
    reveal(crate::parser::parse_scheme);
    let head = seq![SpecToken::Ident(w_scheme()), SpecToken::Ident(s.name)];
    let pt = match s.parent {
        Some(par) => seq![SpecToken::At, SpecToken::Ident(par)],
        None => Seq::empty(),
    };
    let sp = if s.io_spines.len() > 0 {
        seq![SpecToken::Section(w_io())] + spines_toks(s.io_spines)
    } else {
        Seq::empty()
    };
    let ins = if s.facet_instances.len() > 0 {
        seq![SpecToken::Section(w_facets())] + instances_toks(s.facet_instances)
    } else {
        Seq::empty()
    };
    let ds = if s.dispatch.len() > 0 {
        seq![SpecToken::Section(w_dispatch_scripts())] + dispatches_toks(s.dispatch)
    } else {
        Seq::empty()
    };
    let close = seq![SpecToken::RBrace];
    assert(scheme_toks(s) == head + pt + seq![SpecToken::LBrace] + sp + ins + ds + close);
    lemma_at_split(ts, p, head + pt + seq![SpecToken::LBrace] + sp + ins + ds, close);
    lemma_at_split(ts, p, head + pt + seq![SpecToken::LBrace] + sp + ins, ds);
    lemma_at_split(ts, p, head + pt + seq![SpecToken::LBrace] + sp, ins);
    lemma_at_split(ts, p, head + pt + seq![SpecToken::LBrace], sp);
    lemma_at_split(ts, p, head + pt, seq![SpecToken::LBrace]);
    lemma_at_split(ts, p, head, pt);
    lemma_at_first(ts, p, head);
    assert(ts[p + 1] == head[1]);
    let q = p + 2 + pt.len();
    if pt.len() > 0 {
        lemma_at_first(ts, p + 2, pt);
        assert(ts[p + 3] == pt[1]);
    }
    let q1 = q + 1 + sp.len();
    let q2 = q1 + ins.len();
    let q3 = q2 + ds.len();
    assert(w_io() != w_facets() && w_io() != w_dispatch_scripts() && w_facets() != w_dispatch_scripts()) by {
        assert(w_io().len() != w_facets().len());
        assert(w_io().len() != w_dispatch_scripts().len());
        assert(w_facets().len() != w_dispatch_scripts().len());
    }
    if ds.len() > 0 {
        lemma_at_first(ts, q2, ds);
        lemma_at_split(ts, q2, seq![SpecToken::Section(w_dispatch_scripts())], dispatches_toks(s.dispatch));
        lemma_dispatches(s.dispatch, ts, q2 + 1);
    } else {
        assert(s.dispatch =~= Seq::<SpecDispatch>::empty());
    }
    if ins.len() > 0 {
        lemma_at_first(ts, q1, ins);
        lemma_at_split(ts, q1, seq![SpecToken::Section(w_facets())], instances_toks(s.facet_instances));
        lemma_instances(s.facet_instances, ts, q1 + 1);
    } else {
        assert(s.facet_instances =~= Seq::<SpecInstance>::empty());
    }
    if sp.len() > 0 {
        lemma_at_first(ts, q + 1, sp);
        lemma_at_split(ts, q + 1, seq![SpecToken::Section(w_io())], spines_toks(s.io_spines));
        lemma_spines(s.io_spines, ts, q + 2);
    } else {
        assert(s.io_spines =~= Seq::<SpecSpine>::empty());
    }
}

// ---------------------------------------------------------------------
// Io declarations.

pub open spec fn entry_toks(e: SpecIoEntry) -> Seq<SpecToken> {
    match e {
        SpecIoEntry::Event { name, ty } => seq![
            SpecToken::Ident(w_event()),
            SpecToken::Ident(name),
            SpecToken::Colon,
        ] + type_toks(ty),
        SpecIoEntry::Method { name, ty } => seq![
            SpecToken::Ident(w_method()),
            SpecToken::Ident(name),
            SpecToken::Colon,
        ] + type_toks(ty),
    }
}

pub open spec fn entries_toks(v: Seq<SpecIoEntry>) -> Seq<SpecToken>
    decreases v.len(),
{
    if v.len() == 0 {
        Seq::empty()
    } else {
        entry_toks(v[0]) + entries_toks(v.drop_first())
    }
}

pub open spec fn alias_toks(a: SpecTypeAlias) -> Seq<SpecToken> {
    seq![SpecToken::Ident(a.name), SpecToken::Colon] + type_toks(a.ty)
}

pub open spec fn aliases_toks(v: Seq<SpecTypeAlias>) -> Seq<SpecToken>
    decreases v.len(),
{
    if v.len() == 0 {
        Seq::empty()
    } else {
        alias_toks(v[0]) + aliases_toks(v.drop_first())
    }
}

pub open spec fn conn_toks(c: SpecConnHandler) -> Seq<SpecToken> {
    seq![SpecToken::Ident(c.name), SpecToken::Assign] + expr_toks(c.init, 0)
}

pub open spec fn conns_toks(v: Seq<SpecConnHandler>) -> Seq<SpecToken>
    decreases v.len(),
{
    if v.len() == 0 {
        Seq::empty()
    } else {
        conn_toks(v[0]) + conns_toks(v.drop_first())
    }
}

pub open spec fn io_toks(d: SpecIoDecl) -> Seq<SpecToken> {
    seq![SpecToken::Ident(w_io()), SpecToken::Ident(d.name), SpecToken::LBrace] + (if d.interface.len()
        > 0 {
        seq![SpecToken::Section(w_interface())] + entries_toks(d.interface)
    } else {
        Seq::empty()
    }) + (if d.api_contracts.len() > 0 {
        seq![SpecToken::Section(w_api_contracts())] + aliases_toks(d.api_contracts)
    } else {
        Seq::empty()
    }) + (if d.connection_handlers.len() > 0 {
        seq![SpecToken::Section(w_connection_handlers())] + conns_toks(d.connection_handlers)
    } else {
        Seq::empty()
    }) + seq![SpecToken::RBrace]
}

pub open spec fn entry_type(e: SpecIoEntry) -> SpecType {
    match e {
        SpecIoEntry::Event { ty, .. } => ty,
        SpecIoEntry::Method { ty, .. } => ty,
    }
}

pub open spec fn wf_io(d: SpecIoDecl) -> bool {
    &&& forall|i: int| 0 <= i < d.interface.len() ==> wf_type(entry_type(#[trigger] d.interface[i]))
    &&& forall|i: int| 0 <= i < d.api_contracts.len() ==> wf_type((#[trigger] d.api_contracts[i]).ty)
    &&& forall|i: int|
        0 <= i < d.connection_handlers.len() ==> wf_expr((#[trigger] d.connection_handlers[i]).init)
}

proof fn lemma_entries(v: Seq<SpecIoEntry>, ts: Seq<SpecToken>, p: int)
    requires
        forall|i: int| 0 <= i < v.len() ==> wf_type(entry_type(#[trigger] v[i])),
        at(ts, p, entries_toks(v)),
        section_end(tk(ts, p + entries_toks(v).len())),
    ensures
        crate::parser::parse_entries(ts, p) == Some((v, p + entries_toks(v).len())),
    decreases v.len(),
{
    assert(w_event() != w_method()) by {
        assert(w_event().len() != w_method().len());
    }
    if v.len() == 0 {
        assert(v =~= Seq::<SpecIoEntry>::empty());
    } else {
        let rest = v.drop_first();
        let e = v[0];
        let et = entry_toks(e);
        lemma_at_split(ts, p, et, entries_toks(rest));
        lemma_at_first(ts, p, et);
        assert(ts[p + 1] == et[1]);
        assert(ts[p + 2] == et[2]);
        assert(wf_type(entry_type(e)));
        match e {
            SpecIoEntry::Event { name, ty } => {
                lemma_at_split(ts, p, seq![SpecToken::Ident(w_event()), SpecToken::Ident(name), SpecToken::Colon], type_toks(ty));
                if rest.len() > 0 {
                    assert(entries_toks(rest)[0] == entry_toks(rest[0])[0]);
                }
                lemma_type(ty, ts, p + 3);
            },
            SpecIoEntry::Method { name, ty } => {
                lemma_at_split(ts, p, seq![SpecToken::Ident(w_method()), SpecToken::Ident(name), SpecToken::Colon], type_toks(ty));
                if rest.len() > 0 {
                    assert(entries_toks(rest)[0] == entry_toks(rest[0])[0]);
                }
                lemma_type(ty, ts, p + 3);
            },
        }
        assert forall|i: int| 0 <= i < rest.len() implies wf_type(entry_type(#[trigger] rest[i])) by {
            assert(rest[i] == v[i + 1]);
        }
        lemma_entries(rest, ts, p + et.len());
        assert(seq![e] + rest =~= v);
    }
}

proof fn lemma_aliases(v: Seq<SpecTypeAlias>, ts: Seq<SpecToken>, p: int)
    requires
        forall|i: int| 0 <= i < v.len() ==> wf_type((#[trigger] v[i]).ty),
        at(ts, p, aliases_toks(v)),
        section_end(tk(ts, p + aliases_toks(v).len())),
    ensures
        crate::parser::parse_aliases(ts, p) == Some((v, p + aliases_toks(v).len())),
    decreases v.len(),
{
    if v.len() == 0 {
        assert(v =~= Seq::<SpecTypeAlias>::empty());
    } else {
        let rest = v.drop_first();
        let a = v[0];
        let at_ = alias_toks(a);
        lemma_at_split(ts, p, at_, aliases_toks(rest));
        lemma_at_split(ts, p, seq![SpecToken::Ident(a.name), SpecToken::Colon], type_toks(a.ty));
        lemma_at_first(ts, p, at_);
        assert(ts[p + 1] == at_[1]);
        if rest.len() > 0 {
            assert(aliases_toks(rest)[0] == alias_toks(rest[0])[0]);
        }
        assert(wf_type(a.ty));
        lemma_type(a.ty, ts, p + 2);
        assert forall|i: int| 0 <= i < rest.len() implies wf_type((#[trigger] rest[i]).ty) by {
            assert(rest[i] == v[i + 1]);
        }
        lemma_aliases(rest, ts, p + at_.len());
        assert(seq![SpecTypeAlias { name: a.name, ty: a.ty }] + rest =~= v);
    }
}

proof fn lemma_conns(v: Seq<SpecConnHandler>, ts: Seq<SpecToken>, p: int)
    requires
        forall|i: int| 0 <= i < v.len() ==> wf_expr((#[trigger] v[i]).init),
        at(ts, p, conns_toks(v)),
        tk(ts, p + conns_toks(v).len()) == Some(SpecToken::RBrace),
    ensures
        crate::parser::parse_conns(ts, p) == Some((v, p + conns_toks(v).len())),
    decreases v.len(),
{
    if v.len() == 0 {
        assert(v =~= Seq::<SpecConnHandler>::empty());
    } else {
        let rest = v.drop_first();
        let c = v[0];
        let ct = conn_toks(c);
        lemma_at_split(ts, p, ct, conns_toks(rest));
        lemma_at_split(ts, p, seq![SpecToken::Ident(c.name), SpecToken::Assign], expr_toks(c.init, 0));
        lemma_at_first(ts, p, ct);
        assert(ts[p + 1] == ct[1]);
        if rest.len() > 0 {
            assert(conns_toks(rest)[0] == conn_toks(rest[0])[0]);
        }
        assert(wf_expr(c.init));
        lemma_ctx_same(c.init, 0, 1);
        lemma_full(c.init, 1, ts, p + 2);
        assert forall|i: int| 0 <= i < rest.len() implies wf_expr((#[trigger] rest[i]).init) by {
            assert(rest[i] == v[i + 1]);
        }
        lemma_conns(rest, ts, p + ct.len());
        assert(seq![SpecConnHandler { name: c.name, init: c.init }] + rest =~= v);
    }
}

#[verifier::rlimit(40)]
proof fn lemma_io(d: SpecIoDecl, ts: Seq<SpecToken>, p: int)
    requires
        wf_io(d),
        at(ts, p, io_toks(d)),
    ensures
        crate::parser::parse_io(ts, p) == Some((d, p + io_toks(d).len())),
{
    reveal(crate::parser::parse_io);
    let head = seq![SpecToken::Ident(w_io()), SpecToken::Ident(d.name), SpecToken::LBrace];
    let it = if d.interface.len() > 0 {
        seq![SpecToken::Section(w_interface())] + entries_toks(d.interface)
    } else {
        Seq::empty()
    };
    let at_ = if d.api_contracts.len() > 0 {
        seq![SpecToken::Section(w_api_contracts())] + aliases_toks(d.api_contracts)
    } else {
        Seq::empty()
    };
    let ct = if d.connection_handlers.len() > 0 {
        seq![SpecToken::Section(w_connection_handlers())] + conns_toks(d.connection_handlers)
    } else {
        Seq::empty()
    };
    let close = seq![SpecToken::RBrace];
    assert(io_toks(d) == head + it + at_ + ct + close);
    lemma_at_split(ts, p, head + it + at_ + ct, close);
    lemma_at_split(ts, p, head + it + at_, ct);
    lemma_at_split(ts, p, head + it, at_);
    lemma_at_split(ts, p, head, it);
    lemma_at_first(ts, p, head);
    assert(ts[p + 1] == head[1]);
    assert(ts[p + 2] == head[2]);
    let q = p + 3;
    let q1 = q + it.len();
    let q3 = q1 + at_.len();
    let q4 = q3 + ct.len();
    assert(w_requests() != w_api_contracts() && w_requests() != w_connection_handlers()
        && w_api_contracts() != w_connection_handlers() && w_interface() != w_api_contracts()
        && w_interface() != w_connection_handlers()) by {
        assert(w_requests().len() != w_api_contracts().len());
        assert(w_requests().len() != w_connection_handlers().len());
        assert(w_api_contracts().len() != w_connection_handlers().len());
        assert(w_interface().len() != w_api_contracts().len());
        assert(w_interface().len() != w_connection_handlers().len());
    }
    if ct.len() > 0 {
        lemma_at_first(ts, q3, ct);
        lemma_at_split(ts, q3, seq![SpecToken::Section(w_connection_handlers())], conns_toks(d.connection_handlers));
        lemma_conns(d.connection_handlers, ts, q3 + 1);
    } else {
        assert(d.connection_handlers =~= Seq::<SpecConnHandler>::empty());
    }
    if at_.len() > 0 {
        lemma_at_first(ts, q1, at_);
        lemma_at_split(ts, q1, seq![SpecToken::Section(w_api_contracts())], aliases_toks(d.api_contracts));
        lemma_aliases(d.api_contracts, ts, q1 + 1);
    } else {
        assert(d.api_contracts =~= Seq::<SpecTypeAlias>::empty());
    }
    if it.len() > 0 {
        lemma_at_first(ts, q, it);
        lemma_at_split(ts, q, seq![SpecToken::Section(w_interface())], entries_toks(d.interface));
        lemma_entries(d.interface, ts, q + 1);
    } else {
        assert(d.interface =~= Seq::<SpecIoEntry>::empty());
    }
    assert(d.interface + Seq::<SpecIoEntry>::empty() =~= d.interface);
}

// ---------------------------------------------------------------------
// Modules.

pub open spec fn decl_toks(d: SpecDecl) -> Seq<SpecToken> {
    match d {
        SpecDecl::Facet(f) => facet_toks(f),
        SpecDecl::Scheme(s) => scheme_toks(s),
        SpecDecl::Io(i) => io_toks(i),
    }
}

pub open spec fn decls_toks(ds: Seq<SpecDecl>) -> Seq<SpecToken>
    decreases ds.len(),
{
    if ds.len() == 0 {
        Seq::empty()
    } else {
        decl_toks(ds[0]) + decls_toks(ds.drop_first())
    }
}

/// The declarations of a module in printing order: facets, schemes, io.
pub open spec fn module_decls(m: SpecModule) -> Seq<SpecDecl> {
    m.facets.map_values(|f: SpecFacet| SpecDecl::Facet(f)) + m.schemes.map_values(
        |s: SpecScheme| SpecDecl::Scheme(s),
    ) + m.io_decls.map_values(|i: SpecIoDecl| SpecDecl::Io(i))
}

/// The tokens the printer lays out for a module.
pub open spec fn module_toks(m: SpecModule) -> Seq<SpecToken> {
    decls_toks(module_decls(m))
}

pub open spec fn wf_decl(d: SpecDecl) -> bool {
    match d {
        SpecDecl::Facet(f) => wf_facet(f),
        SpecDecl::Scheme(s) => wf_scheme(s),
        SpecDecl::Io(i) => wf_io(i),
    }
}

/// A module the printer's layout carries faithfully.
pub open spec fn wf_module(m: SpecModule) -> bool {
    &&& forall|i: int| 0 <= i < m.facets.len() ==> wf_facet(#[trigger] m.facets[i])
    &&& forall|i: int| 0 <= i < m.schemes.len() ==> wf_scheme(#[trigger] m.schemes[i])
    &&& forall|i: int| 0 <= i < m.io_decls.len() ==> wf_io(#[trigger] m.io_decls[i])
}

pub open spec fn fold_decls(ds: Seq<SpecDecl>) -> SpecModule
    decreases ds.len(),
{
    if ds.len() == 0 {
        empty_module()
    } else {
        add_front(ds[0], fold_decls(ds.drop_first()))
    }
}

proof fn lemma_decl(d: SpecDecl, ts: Seq<SpecToken>, p: int)
    requires
        wf_decl(d),
        at(ts, p, decl_toks(d)),
    ensures
        parse_decl(ts, p) == Some((d, p + decl_toks(d).len())),
{
    assert(w_facet() != w_scheme() && w_facet() != w_io() && w_scheme() != w_io()) by {
        assert(w_facet().len() != w_scheme().len());
        assert(w_facet().len() != w_io().len());
        assert(w_scheme().len() != w_io().len());
    }
    match d {
        SpecDecl::Facet(f) => {
            lemma_at_first(ts, p, facet_toks(f));
            lemma_facet(f, ts, p);
        },
        SpecDecl::Scheme(s) => {
            lemma_at_first(ts, p, scheme_toks(s));
            lemma_scheme(s, ts, p);
        },
        SpecDecl::Io(i) => {
            lemma_at_first(ts, p, io_toks(i));
            lemma_io(i, ts, p);
        },
    }
}

proof fn lemma_decl_len(d: SpecDecl)
    ensures
        decl_toks(d).len() > 0,
{
}

proof fn lemma_decls(ds: Seq<SpecDecl>, ts: Seq<SpecToken>, p: int)
    requires
        forall|i: int| 0 <= i < ds.len() ==> wf_decl(#[trigger] ds[i]),
        at(ts, p, decls_toks(ds)),
        p + decls_toks(ds).len() == ts.len(),
    ensures
        parse_module_from(ts, p) == Some(fold_decls(ds)),
    decreases ds.len(),
{
    if ds.len() > 0 {
        let rest = ds.drop_first();
        lemma_at_split(ts, p, decl_toks(ds[0]), decls_toks(rest));
        assert(wf_decl(ds[0]));
        lemma_decl(ds[0], ts, p);
        lemma_decl_len(ds[0]);
        assert forall|i: int| 0 <= i < rest.len() implies wf_decl(#[trigger] rest[i]) by {
            assert(rest[i] == ds[i + 1]);
        }
        lemma_decls(rest, ts, p + decl_toks(ds[0]).len());
    }
}

proof fn lemma_fold_ios(v: Seq<SpecIoDecl>)
    ensures
        fold_decls(v.map_values(|i: SpecIoDecl| SpecDecl::Io(i))) == (SpecModule {
            facets: Seq::empty(),
            schemes: Seq::empty(),
            io_decls: v,
        }),
    decreases v.len(),
{
    let ds = v.map_values(|i: SpecIoDecl| SpecDecl::Io(i));
    if v.len() == 0 {
        assert(v =~= Seq::<SpecIoDecl>::empty());
    } else {
        lemma_fold_ios(v.drop_first());
        assert(ds.drop_first() =~= v.drop_first().map_values(|i: SpecIoDecl| SpecDecl::Io(i)));
        assert(seq![v[0]] + v.drop_first() =~= v);
    }
}

proof fn lemma_fold_schemes(v: Seq<SpecScheme>, tail: Seq<SpecDecl>)
    ensures
        fold_decls(v.map_values(|s: SpecScheme| SpecDecl::Scheme(s)) + tail) == (SpecModule {
            schemes: v + fold_decls(tail).schemes,
            ..fold_decls(tail)
        }),
    decreases v.len(),
{
    let ds = v.map_values(|s: SpecScheme| SpecDecl::Scheme(s)) + tail;
    if v.len() == 0 {
        assert(ds =~= tail);
        assert(v + fold_decls(tail).schemes =~= fold_decls(tail).schemes);
    } else {
        lemma_fold_schemes(v.drop_first(), tail);
        assert(ds.drop_first() =~= v.drop_first().map_values(|s: SpecScheme| SpecDecl::Scheme(s)) + tail);
        assert(seq![v[0]] + (v.drop_first() + fold_decls(tail).schemes) =~= v + fold_decls(tail).schemes);
    }
}

proof fn lemma_fold_facets(v: Seq<SpecFacet>, tail: Seq<SpecDecl>)
    ensures
        fold_decls(v.map_values(|f: SpecFacet| SpecDecl::Facet(f)) + tail) == (SpecModule {
            facets: v + fold_decls(tail).facets,
            ..fold_decls(tail)
        }),
    decreases v.len(),
{
    let ds = v.map_values(|f: SpecFacet| SpecDecl::Facet(f)) + tail;
    if v.len() == 0 {
        assert(ds =~= tail);
        assert(v + fold_decls(tail).facets =~= fold_decls(tail).facets);
    } else {
        lemma_fold_facets(v.drop_first(), tail);
        assert(ds.drop_first() =~= v.drop_first().map_values(|f: SpecFacet| SpecDecl::Facet(f)) + tail);
        assert(seq![v[0]] + (v.drop_first() + fold_decls(tail).facets) =~= v + fold_decls(tail).facets);
    }
}

/// Round trip: parsing the tokens the printer lays out for a well-formed
/// module gives back that module.
pub proof fn law_parse_printed_tokens(m: SpecModule)
    requires
        wf_module(m),
    ensures
        spec_parse(module_toks(m)) == Some(m),
{
    let ds = module_decls(m);
    let fd = m.facets.map_values(|f: SpecFacet| SpecDecl::Facet(f));
    let sd = m.schemes.map_values(|s: SpecScheme| SpecDecl::Scheme(s));
    let id = m.io_decls.map_values(|i: SpecIoDecl| SpecDecl::Io(i));
    assert forall|i: int| 0 <= i < ds.len() implies wf_decl(#[trigger] ds[i]) by {
        if i < fd.len() {
            assert(ds[i] == fd[i]);
        } else if i < fd.len() + sd.len() {
            assert(ds[i] == sd[i - fd.len()]);
        } else {
            assert(ds[i] == id[i - fd.len() - sd.len()]);
        }
    }
    let ts = module_toks(m);
    assert forall|i: int| 0 <= i < ts.len() implies ts[0 + i] == #[trigger] ts[i] by {}
    lemma_decls(ds, ts, 0);
    lemma_fold_ios(m.io_decls);
    lemma_fold_schemes(m.schemes, id);
    lemma_fold_facets(m.facets, sd + id);
    assert(ds == fd + (sd + id));
    assert(m.facets + Seq::<SpecFacet>::empty() =~= m.facets);
    assert(m.schemes + Seq::<SpecScheme>::empty() =~= m.schemes);
}

} // verus!
