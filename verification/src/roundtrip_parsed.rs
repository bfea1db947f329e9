//! Modules that the parser reads from source text: every name in them is
//! an identifier the lexer reads back, every integer is non-negative and
//! every float is digits, a point and digits. With the text round trip
//! this gives the round trip for parsed modules that are well-formed.
use vstd::prelude::*;

use crate::ast::{
    Name, SpecArg, SpecArm, SpecDispatch, SpecExpr, SpecFacet, SpecHandler, SpecInstance,
    SpecIoDecl, SpecIoEntry, SpecMode, SpecModule, SpecPattern, SpecScheme, SpecSpine,
    SpecStateField, SpecStmt, SpecType, SpecTypeAlias, SpecConnHandler,
};
use crate::lexer::{
    digit_value, digits_end, digits_value, ident_end, is_digit, is_ident_continue,
    is_ident_start, lemma_digits_end, lemma_ident_end, lemma_skip_trivia, lex_from, marker_at,
    skip_trivia, spec_lex, token_at, tokens_of_spanned, word_token, SpecSpanned, SpecToken,
};
use crate::parser::{
    adv, ident_at, is_section, is_tok, is_word, parse_aliases, parse_arg, parse_args, parse_arm,
    parse_arms, parse_atom, parse_binary, parse_block, parse_conns, parse_decl, parse_dispatches,
    parse_effects, parse_entries, parse_expr, parse_facet, parse_field, parse_fields,
    parse_handler, parse_handlers, parse_idents, parse_instances, parse_io, parse_items,
    parse_left_rest, parse_mode, parse_module_from, parse_named_types, parse_path,
    parse_path_tail, parse_postfix, parse_postfix_rest, parse_requests, parse_scheme,
    parse_spines, parse_stmt, parse_stmts, parse_type, parse_type_atom, spec_parse,
    spec_parse_source, tk, SpecDecl,
};
use crate::printer::module_text;
use crate::roundtrip::wf_module;
use crate::roundtrip_text::{
    all_digits, entry_name, float_shape, law_parse_printed_text, lexable_arg, lexable_arm,
    lexable_expr, lexable_facet, lexable_field, lexable_handler, lexable_io, lexable_module,
    lexable_names, lexable_path, lexable_pattern, lexable_scheme, lexable_stmt, lexable_stmts,
    lexable_type, valid_name,
};

verus! {

// ---------------------------------------------------------------------
// What the lexer gives.

/// A token whose name, number or float the printer writes back as read.
pub open spec fn good_tok(t: SpecToken) -> bool {
    match t {
        SpecToken::Ident(n) => valid_name(n),
        SpecToken::Int(v) => 0 <= v <= i64::MAX,
        SpecToken::Float(f) => float_shape(f),
        _ => true,
    }
}

pub open spec fn good(ts: Seq<SpecToken>) -> bool {
    forall|i: int| 0 <= i < ts.len() ==> good_tok(#[trigger] ts[i])
}

proof fn lemma_digits_value_nonneg(d: Seq<char>)
    requires
        all_digits(d),
    ensures
        digits_value(d) >= 0,
    decreases d.len(),
{
    if d.len() > 0 {
        assert(is_digit(d[d.len() - 1]));
        assert(all_digits(d.drop_last())) by {
            assert forall|k: int| 0 <= k < d.drop_last().len() implies is_digit(
                #[trigger] d.drop_last()[k],
            ) by {
                assert(d.drop_last()[k] == d[k]);
            }
        }
        lemma_digits_value_nonneg(d.drop_last());
        assert(digit_value(d.last()) >= 0);
    }
}

proof fn lemma_token_good(s: Seq<char>, i: int)
    requires
        0 <= i < s.len(),
        token_at(s, i) is Some,
    ensures
        good_tok(token_at(s, i)->Some_0.0),
{
    if marker_at(s, i) {
    } else if is_ident_start(s[i]) {
        let k = ident_end(s, i + 1);
        lemma_ident_end(s, i + 1);
        let w = s.subrange(i, k);
        if word_token(w) is Ident {
            assert(w[0] == s[i]);
            assert forall|m: int| 0 <= m < w.len() implies is_ident_continue(#[trigger] w[m]) by {
                assert(w[m] == s[i + m]);
                if m > 0 {
                    assert(is_ident_continue(s[i + m]));
                }
            }
        }
    } else if is_digit(s[i]) {
        let k = digits_end(s, i + 1);
        lemma_digits_end(s, i + 1);
        if k + 1 < s.len() && s[k] == '.' && is_digit(s[k + 1]) {
            let k2 = digits_end(s, k + 2);
            lemma_digits_end(s, k + 2);
            let f = s.subrange(i, k2);
            let a = k - i;
            assert(f[a] == '.');
            assert(all_digits(f.take(a))) by {
                assert forall|m: int| 0 <= m < f.take(a).len() implies is_digit(#[trigger] f.take(a)[m]) by {
                    assert(f.take(a)[m] == s[i + m]);
                }
            }
            assert(all_digits(f.skip(a + 1))) by {
                assert forall|m: int| 0 <= m < f.skip(a + 1).len() implies is_digit(
                    #[trigger] f.skip(a + 1)[m],
                ) by {
                    assert(f.skip(a + 1)[m] == s[k + 1 + m]);
                }
            }
            assert(float_shape(f));
        } else {
            let d = s.subrange(i, k);
            assert(all_digits(d)) by {
                assert forall|m: int| 0 <= m < d.len() implies is_digit(#[trigger] d[m]) by {
                    assert(d[m] == s[i + m]);
                }
            }
            lemma_digits_value_nonneg(d);
        }
    }
}

proof fn lemma_lex_good(s: Seq<char>, i: int)
    requires
        lex_from(s, i) is Some,
    ensures
        good(tokens_of_spanned(lex_from(s, i)->Some_0)),
    decreases s.len() - i,
{
    lemma_skip_trivia(s, i);
    let j = skip_trivia(s, i);
    let v = lex_from(s, i)->Some_0;
    if j < s.len() {
        let (t, k) = token_at(s, j)->Some_0;
        lemma_token_good(s, j);
        lemma_lex_good(s, k);
        let rest = lex_from(s, k)->Some_0;
        assert(v == seq![(t, j, k)] + rest);
        let tv = tokens_of_spanned(v);
        assert forall|m: int| 0 <= m < tv.len() implies good_tok(#[trigger] tv[m]) by {
            if m > 0 {
                assert(tv[m] == tokens_of_spanned(rest)[m - 1]);
            }
        }
    }
}

proof fn lemma_ident_good(ts: Seq<SpecToken>, p: int)
    requires
        good(ts),
        ident_at(ts, p) is Some,
    ensures
        valid_name(ident_at(ts, p)->Some_0),
{
    assert(good_tok(ts[p]));
}

// ---------------------------------------------------------------------
// Paths and types.

proof fn lemma_path_tail(ts: Seq<SpecToken>, p: int)
    requires
        good(ts),
    ensures
        lexable_path(parse_path_tail(ts, p).0),
    decreases ts.len() - p,
{
    if 0 <= p && is_tok(ts, p, SpecToken::Dot) && ident_at(ts, p + 1) is Some {
        lemma_path_tail(ts, p + 2);
        lemma_ident_good(ts, p + 1);
        let rest = parse_path_tail(ts, p + 2).0;
        let w = seq![ident_at(ts, p + 1)->0] + rest;
        assert forall|k: int| 0 <= k < w.len() implies valid_name(#[trigger] w[k]) by {
            if k > 0 {
                assert(w[k] == rest[k - 1]);
            }
        }
    }
}

proof fn lemma_path(ts: Seq<SpecToken>, p: int)
    requires
        good(ts),
        parse_path(ts, p) is Some,
    ensures
        lexable_path(parse_path(ts, p)->Some_0.0),
        parse_path(ts, p)->Some_0.0.len() > 0,
{
    lemma_ident_good(ts, p);
    lemma_path_tail(ts, p + 1);
    let rest = parse_path_tail(ts, p + 1).0;
    let w = seq![ident_at(ts, p)->0] + rest;
    assert forall|k: int| 0 <= k < w.len() implies valid_name(#[trigger] w[k]) by {
        if k > 0 {
            assert(w[k] == rest[k - 1]);
        }
    }
}

proof fn lemma_effects(ts: Seq<SpecToken>, p: int)
    requires
        good(ts),
        parse_effects(ts, p) is Some,
    ensures
        ({
            let effs = parse_effects(ts, p)->Some_0.0;
            forall|k: int| 0 <= k < effs.len() ==> lexable_path(#[trigger] effs[k])
        }),
    decreases ts.len() - p,
{
    lemma_path(ts, p);
    let (path, q) = parse_path(ts, p)->Some_0;
    let effs = parse_effects(ts, p)->Some_0.0;
    if is_tok(ts, q, SpecToken::Comma) {
        lemma_effects(ts, q + 1);
        let rest = parse_effects(ts, q + 1)->Some_0.0;
        assert(effs == seq![path] + rest);
        assert forall|k: int| 0 <= k < effs.len() implies lexable_path(#[trigger] effs[k]) by {
            if k > 0 {
                assert(effs[k] == rest[k - 1]);
            }
        }
    } else {
        assert(effs == seq![path]);
    }
}

proof fn lemma_type(ts: Seq<SpecToken>, p: int)
    requires
        good(ts),
        parse_type(ts, p) is Some,
    ensures
        lexable_type(parse_type(ts, p)->Some_0.0),
    decreases ts.len() - p, 2int,
{
    lemma_type_atom(ts, p);
    let (t, q) = parse_type_atom(ts, p)->Some_0;
    if is_tok(ts, q, SpecToken::Arrow) {
        lemma_type(ts, q + 1);
        let (to, r) = parse_type(ts, q + 1)->Some_0;
        if is_tok(ts, r, SpecToken::Slash) && is_tok(ts, r + 1, SpecToken::LBrace) {
            lemma_effects(ts, r + 2);
        }
    }
}

proof fn lemma_type_atom(ts: Seq<SpecToken>, p: int)
    requires
        good(ts),
        parse_type_atom(ts, p) is Some,
    ensures
        lexable_type(parse_type_atom(ts, p)->Some_0.0),
    decreases ts.len() - p, 1int,
{
    if ident_at(ts, p) is Some {
        lemma_path(ts, p);
    } else if is_tok(ts, p, SpecToken::LBracket) {
        lemma_type(ts, p + 1);
    } else if is_tok(ts, p, SpecToken::LBrace) {
        if !is_tok(ts, p + 1, SpecToken::RBrace) {
            lemma_named_types(ts, p + 1, SpecToken::RBrace);
        }
    } else if is_tok(ts, p, SpecToken::LParen) {
        lemma_type(ts, p + 1);
    }
}

pub open spec fn lexable_named(fs: Seq<(Name, SpecType)>) -> bool {
    forall|k: int| 0 <= k < fs.len() ==> valid_name((#[trigger] fs[k]).0) && lexable_type(fs[k].1)
}

proof fn lemma_named_types(ts: Seq<SpecToken>, p: int, close: SpecToken)
    requires
        good(ts),
        parse_named_types(ts, p, close) is Some,
    ensures
        lexable_named(parse_named_types(ts, p, close)->Some_0.0),
    decreases ts.len() - p, 0int,
{
    lemma_ident_good(ts, p);
    let n = ident_at(ts, p)->0;
    lemma_type(ts, p + 2);
    let (t, q) = parse_type(ts, p + 2)->Some_0;
    let fs = parse_named_types(ts, p, close)->Some_0.0;
    if is_tok(ts, q, SpecToken::Comma) {
        lemma_named_types(ts, q + 1, close);
        let rest = parse_named_types(ts, q + 1, close)->Some_0.0;
        assert(fs == seq![(n, t)] + rest);
        assert forall|k: int| 0 <= k < fs.len() implies valid_name((#[trigger] fs[k]).0)
            && lexable_type(fs[k].1) by {
            if k > 0 {
                assert(fs[k] == rest[k - 1]);
            }
        }
    } else {
        assert(fs == seq![(n, t)]);
    }
}

// ---------------------------------------------------------------------
// Expressions and statements.

proof fn lemma_expr(ts: Seq<SpecToken>, p: int)
    requires
        good(ts),
        parse_expr(ts, p) is Some,
    ensures
        lexable_expr(parse_expr(ts, p)->Some_0.0),
    decreases ts.len() - p, 40int,
{
    lemma_binary(ts, p, 2);
    let (lhs, q) = parse_binary(ts, p, 2)->Some_0;
    if is_tok(ts, q, SpecToken::StateShift) {
        lemma_expr(ts, q + 1);
    }
}

proof fn lemma_binary(ts: Seq<SpecToken>, p: int, lvl: int)
    requires
        good(ts),
        parse_binary(ts, p, lvl) is Some,
    ensures
        lexable_expr(parse_binary(ts, p, lvl)->Some_0.0),
    decreases ts.len() - p, 39 - 2 * lvl,
{
    if lvl == 5 {
        lemma_postfix(ts, p);
        let (lhs, q) = parse_postfix(ts, p)->Some_0;
        lemma_left_rest(ts, lhs, q, lvl);
    } else {
        lemma_binary(ts, p, lvl + 1);
        let (lhs, q) = parse_binary(ts, p, lvl + 1)->Some_0;
        lemma_left_rest(ts, lhs, q, lvl);
    }
}

proof fn lemma_left_rest(ts: Seq<SpecToken>, lhs: SpecExpr, q: int, lvl: int)
    requires
        good(ts),
        lexable_expr(lhs),
        parse_left_rest(ts, lhs, q, lvl) is Some,
    ensures
        lexable_expr(parse_left_rest(ts, lhs, q, lvl)->Some_0.0),
    decreases ts.len() - q, 38 - 2 * lvl,
{
    match crate::parser::binop_at(ts, q, lvl) {
        Some(op) => {
            if lvl == 5 {
                lemma_postfix(ts, q + 1);
                let (rhs, r) = parse_postfix(ts, q + 1)->Some_0;
                lemma_left_rest(ts, SpecExpr::Binary(op, Box::new(lhs), Box::new(rhs)), r, lvl);
            } else {
                lemma_binary(ts, q + 1, lvl + 1);
                let (rhs, r) = parse_binary(ts, q + 1, lvl + 1)->Some_0;
                lemma_left_rest(ts, SpecExpr::Binary(op, Box::new(lhs), Box::new(rhs)), r, lvl);
            }
        },
        None => {},
    }
}

proof fn lemma_postfix(ts: Seq<SpecToken>, p: int)
    requires
        good(ts),
        parse_postfix(ts, p) is Some,
    ensures
        lexable_expr(parse_postfix(ts, p)->Some_0.0),
    decreases ts.len() - p, 20int,
{
    lemma_atom(ts, p);
    let (e, q) = parse_atom(ts, p)->Some_0;
    lemma_postfix_rest(ts, e, q);
}

proof fn lemma_postfix_rest(ts: Seq<SpecToken>, e: SpecExpr, q: int)
    requires
        good(ts),
        lexable_expr(e),
        parse_postfix_rest(ts, e, q) is Some,
    ensures
        lexable_expr(parse_postfix_rest(ts, e, q)->Some_0.0),
    decreases ts.len() - q, 19int,
{
    if 0 <= q && is_tok(ts, q, SpecToken::Dot) && ident_at(ts, q + 1) is Some {
        lemma_ident_good(ts, q + 1);
        lemma_postfix_rest(
            ts,
            SpecExpr::FieldAccess { object: Box::new(e), field: ident_at(ts, q + 1)->0 },
            q + 2,
        );
    }
}

proof fn lemma_atom(ts: Seq<SpecToken>, p: int)
    requires
        good(ts),
        parse_atom(ts, p) is Some,
    ensures
        lexable_expr(parse_atom(ts, p)->Some_0.0),
    decreases ts.len() - p, 18int,
{
    assert(good_tok(ts[p]));
    match ts[p] {
        SpecToken::Ident(n) => {
            if is_tok(ts, p + 1, SpecToken::LParen) && !is_tok(ts, p + 2, SpecToken::RParen) {
                lemma_args(ts, p + 2);
            }
        },
        SpecToken::LParen => {
            lemma_expr(ts, p + 1);
        },
        SpecToken::LBracket => {
            if !is_tok(ts, p + 1, SpecToken::RBracket) {
                lemma_items(ts, p + 1);
            }
        },
        SpecToken::KwMatch => {
            lemma_expr(ts, p + 1);
            let (s, q) = parse_expr(ts, p + 1)->Some_0;
            lemma_arms(ts, q + 1);
        },
        _ => {},
    }
}

proof fn lemma_args(ts: Seq<SpecToken>, p: int)
    requires
        good(ts),
        parse_args(ts, p) is Some,
    ensures
        ({
            let v = parse_args(ts, p)->Some_0.0;
            forall|k: int| 0 <= k < v.len() ==> lexable_arg(#[trigger] v[k])
        }),
    decreases ts.len() - p, 50int,
{
    lemma_arg(ts, p);
    let (a, q) = parse_arg(ts, p)->Some_0;
    let v = parse_args(ts, p)->Some_0.0;
    if is_tok(ts, q, SpecToken::Comma) {
        lemma_args(ts, q + 1);
        let rest = parse_args(ts, q + 1)->Some_0.0;
        assert(v == seq![a] + rest);
        assert forall|k: int| 0 <= k < v.len() implies lexable_arg(#[trigger] v[k]) by {
            if k > 0 {
                assert(v[k] == rest[k - 1]);
            }
        }
    } else {
        assert(v == seq![a]);
    }
}

proof fn lemma_arg(ts: Seq<SpecToken>, p: int)
    requires
        good(ts),
        parse_arg(ts, p) is Some,
    ensures
        lexable_arg(parse_arg(ts, p)->Some_0.0),
    decreases ts.len() - p, 45int,
{
    if 0 <= p && ident_at(ts, p) is Some && is_tok(ts, p + 1, SpecToken::Colon) {
        lemma_ident_good(ts, p);
        lemma_expr(ts, p + 2);
    } else {
        lemma_expr(ts, p);
    }
}

proof fn lemma_items(ts: Seq<SpecToken>, p: int)
    requires
        good(ts),
        parse_items(ts, p) is Some,
    ensures
        ({
            let v = parse_items(ts, p)->Some_0.0;
            forall|k: int| 0 <= k < v.len() ==> lexable_expr(#[trigger] v[k])
        }),
    decreases ts.len() - p, 50int,
{
    lemma_expr(ts, p);
    let (e, q) = parse_expr(ts, p)->Some_0;
    let v = parse_items(ts, p)->Some_0.0;
    if is_tok(ts, q, SpecToken::Comma) {
        lemma_items(ts, q + 1);
        let rest = parse_items(ts, q + 1)->Some_0.0;
        assert(v == seq![e] + rest);
        assert forall|k: int| 0 <= k < v.len() implies lexable_expr(#[trigger] v[k]) by {
            if k > 0 {
                assert(v[k] == rest[k - 1]);
            }
        }
    } else {
        assert(v == seq![e]);
    }
}

proof fn lemma_arms(ts: Seq<SpecToken>, p: int)
    requires
        good(ts),
        parse_arms(ts, p) is Some,
    ensures
        ({
            let v = parse_arms(ts, p)->Some_0.0;
            forall|k: int| 0 <= k < v.len() ==> lexable_arm(#[trigger] v[k])
        }),
    decreases ts.len() - p, 60int,
{
    if !is_tok(ts, p, SpecToken::RBrace) {
        lemma_arm(ts, p);
        let (a, q) = parse_arm(ts, p)->Some_0;
        lemma_arms(ts, q);
        let rest = parse_arms(ts, q)->Some_0.0;
        let v = parse_arms(ts, p)->Some_0.0;
        assert(v == seq![a] + rest);
        assert forall|k: int| 0 <= k < v.len() implies lexable_arm(#[trigger] v[k]) by {
            if k > 0 {
                assert(v[k] == rest[k - 1]);
            }
        }
    }
}

proof fn lemma_arm(ts: Seq<SpecToken>, p: int)
    requires
        good(ts),
        parse_arm(ts, p) is Some,
    ensures
        lexable_arm(parse_arm(ts, p)->Some_0.0),
    decreases ts.len() - p, 55int,
{
    let q = if is_tok(ts, p, SpecToken::Underscore) {
        p + 1
    } else {
        lemma_path(ts, p);
        parse_path(ts, p)->Some_0.1
    };
    if is_tok(ts, q + 1, SpecToken::LBrace) {
        lemma_block(ts, q + 1);
    } else {
        lemma_stmt(ts, q + 1);
        let st = parse_stmt(ts, q + 1)->Some_0.0;
        assert forall|k: int| 0 <= k < seq![st].len() implies lexable_stmt(#[trigger] seq![st][k]) by {}
    }
}

proof fn lemma_block(ts: Seq<SpecToken>, p: int)
    requires
        good(ts),
        parse_block(ts, p) is Some,
    ensures
        lexable_stmts(parse_block(ts, p)->Some_0.0),
    decreases ts.len() - p, 70int,
{
    lemma_stmts(ts, p + 1);
}

proof fn lemma_stmts(ts: Seq<SpecToken>, p: int)
    requires
        good(ts),
        parse_stmts(ts, p) is Some,
    ensures
        lexable_stmts(parse_stmts(ts, p)->Some_0.0),
    decreases ts.len() - p, 66int,
{
    if !is_tok(ts, p, SpecToken::RBrace) {
        lemma_stmt(ts, p);
        let (st, q) = parse_stmt(ts, p)->Some_0;
        lemma_stmts(ts, q);
        let rest = parse_stmts(ts, q)->Some_0.0;
        let v = parse_stmts(ts, p)->Some_0.0;
        assert(v == seq![st] + rest);
        assert forall|k: int| 0 <= k < v.len() implies lexable_stmt(#[trigger] v[k]) by {
            if k > 0 {
                assert(v[k] == rest[k - 1]);
            }
        }
    }
}

proof fn lemma_stmt(ts: Seq<SpecToken>, p: int)
    requires
        good(ts),
        parse_stmt(ts, p) is Some,
    ensures
        lexable_stmt(parse_stmt(ts, p)->Some_0.0),
    decreases ts.len() - p, 65int,
{
    if is_tok(ts, p, SpecToken::KwIf) {
        lemma_expr(ts, p + 1);
        let (cond, q) = parse_expr(ts, p + 1)->Some_0;
        lemma_block(ts, q);
        let (tb, r) = parse_block(ts, q)->Some_0;
        if is_tok(ts, r, SpecToken::KwElse) {
            lemma_block(ts, r + 1);
        }
    } else if ident_at(ts, p) is Some && is_tok(ts, p + 1, SpecToken::Assign) {
        lemma_ident_good(ts, p);
        lemma_expr(ts, p + 2);
    } else {
        lemma_expr(ts, p);
    }
}

// ---------------------------------------------------------------------
// Declarations.

proof fn lemma_idents(ts: Seq<SpecToken>, p: int, sep: SpecToken, close: SpecToken)
    requires
        good(ts),
        parse_idents(ts, p, sep, close) is Some,
    ensures
        lexable_names(parse_idents(ts, p, sep, close)->Some_0.0),
    decreases ts.len() - p,
{
    lemma_ident_good(ts, p);
    let n = ident_at(ts, p)->0;
    let v = parse_idents(ts, p, sep, close)->Some_0.0;
    if is_tok(ts, p + 1, sep) {
        lemma_idents(ts, p + 2, sep, close);
        let rest = parse_idents(ts, p + 2, sep, close)->Some_0.0;
        assert(v == seq![n] + rest);
        assert forall|k: int| 0 <= k < v.len() implies valid_name(#[trigger] v[k]) by {
            if k > 0 {
                assert(v[k] == rest[k - 1]);
            }
        }
    } else {
        assert(v == seq![n]);
    }
}

proof fn lemma_field(ts: Seq<SpecToken>, p: int)
    requires
        good(ts),
        parse_field(ts, p) is Some,
    ensures
        lexable_field(parse_field(ts, p)->Some_0.0),
{
    lemma_ident_good(ts, p);
    if is_tok(ts, p + 1, SpecToken::Colon) {
        lemma_type(ts, p + 2);
        let (t, q) = parse_type(ts, p + 2)->Some_0;
        lemma_expr(ts, q + 1);
    } else {
        lemma_expr(ts, p + 2);
    }
}

proof fn lemma_fields(ts: Seq<SpecToken>, p: int)
    requires
        good(ts),
        parse_fields(ts, p) is Some,
    ensures
        ({
            let v = parse_fields(ts, p)->Some_0.0;
            forall|k: int| 0 <= k < v.len() ==> lexable_field(#[trigger] v[k])
        }),
    decreases ts.len() - p,
{
    if 0 <= p && ident_at(ts, p) is Some {
        lemma_field(ts, p);
        let (f, q) = parse_field(ts, p)->Some_0;
        lemma_fields(ts, q);
        let rest = parse_fields(ts, q)->Some_0.0;
        let v = parse_fields(ts, p)->Some_0.0;
        assert(v == seq![f] + rest);
        assert forall|k: int| 0 <= k < v.len() implies lexable_field(#[trigger] v[k]) by {
            if k > 0 {
                assert(v[k] == rest[k - 1]);
            }
        }
    }
}

proof fn lemma_handler(ts: Seq<SpecToken>, p: int)
    requires
        good(ts),
        parse_handler(ts, p) is Some,
    ensures
        lexable_handler(parse_handler(ts, p)->Some_0.0),
{
    lemma_path(ts, p + 1);
    let (mt, q) = parse_path(ts, p + 1)->Some_0;
    let q2 = if ident_at(ts, q) is Some {
        lemma_ident_good(ts, q);
        q + 1
    } else {
        q
    };
    let r = if is_tok(ts, q2, SpecToken::Arrow) {
        lemma_type(ts, q2 + 1);
        parse_type(ts, q2 + 1)->Some_0.1
    } else {
        q2
    };
    lemma_block(ts, r);
}

proof fn lemma_handlers(ts: Seq<SpecToken>, p: int)
    requires
        good(ts),
        parse_handlers(ts, p) is Some,
    ensures
        ({
            let v = parse_handlers(ts, p)->Some_0.0;
            forall|k: int| 0 <= k < v.len() ==> lexable_handler(#[trigger] v[k])
        }),
    decreases ts.len() - p,
{
    if 0 <= p && is_tok(ts, p, SpecToken::KwOn) {
        lemma_handler(ts, p);
        let (h, q) = parse_handler(ts, p)->Some_0;
        lemma_handlers(ts, q);
        let rest = parse_handlers(ts, q)->Some_0.0;
        let v = parse_handlers(ts, p)->Some_0.0;
        assert(v == seq![h] + rest);
        assert forall|k: int| 0 <= k < v.len() implies lexable_handler(#[trigger] v[k]) by {
            if k > 0 {
                assert(v[k] == rest[k - 1]);
            }
        }
    }
}

proof fn lemma_facet(ts: Seq<SpecToken>, p: int)
    requires
        good(ts),
        parse_facet(ts, p) is Some,
    ensures
        lexable_facet(parse_facet(ts, p)->Some_0.0),
{
    reveal(parse_facet);
    lemma_ident_good(ts, p + 1);
    let q = p + 3;
    let q1 = if is_section(ts, q, crate::parser::w_state()) {
        lemma_fields(ts, q + 1);
        parse_fields(ts, q + 1)->Some_0.1
    } else {
        q
    };
    if is_section(ts, q1, crate::parser::w_handlers()) {
        lemma_handlers(ts, q1 + 1);
    }
}

proof fn lemma_spines(ts: Seq<SpecToken>, p: int)
    requires
        good(ts),
        parse_spines(ts, p) is Some,
    ensures
        ({
            let v = parse_spines(ts, p)->Some_0.0;
            forall|k: int|
                0 <= k < v.len() ==> valid_name((#[trigger] v[k]).name) && lexable_path(v[k].io_path)
        }),
    decreases ts.len() - p,
{
    if 0 <= p && ident_at(ts, p) is Some {
        lemma_ident_good(ts, p);
        lemma_path(ts, p + 2);
        let (io_path, q) = parse_path(ts, p + 2)->Some_0;
        lemma_spines(ts, q);
        let rest = parse_spines(ts, q)->Some_0.0;
        let v = parse_spines(ts, p)->Some_0.0;
        assert(v == seq![SpecSpine { name: ident_at(ts, p)->0, io_path }] + rest);
        assert forall|k: int| 0 <= k < v.len() implies valid_name((#[trigger] v[k]).name)
            && lexable_path(v[k].io_path) by {
            if k > 0 {
                assert(v[k] == rest[k - 1]);
            }
        }
    }
}

proof fn lemma_instances(ts: Seq<SpecToken>, p: int)
    requires
        good(ts),
        parse_instances(ts, p) is Some,
    ensures
        ({
            let v = parse_instances(ts, p)->Some_0.0;
            forall|k: int|
                0 <= k < v.len() ==> valid_name((#[trigger] v[k]).name) && lexable_names(v[k].io_args)
        }),
    decreases ts.len() - p,
{
    if 0 <= p && ident_at(ts, p) is Some {
        lemma_ident_good(ts, p);
        let q = if is_tok(ts, p + 2, SpecToken::RParen) {
            p + 3
        } else {
            lemma_idents(ts, p + 2, SpecToken::Comma, SpecToken::RParen);
            parse_idents(ts, p + 2, SpecToken::Comma, SpecToken::RParen)->Some_0.1
        };
        lemma_instances(ts, q);
        let rest = parse_instances(ts, q)->Some_0.0;
        let v = parse_instances(ts, p)->Some_0.0;
        assert(v[0].name == ident_at(ts, p)->0);
        assert forall|k: int| 0 <= k < v.len() implies valid_name((#[trigger] v[k]).name)
            && lexable_names(v[k].io_args) by {
            if k > 0 {
                assert(v[k] == rest[k - 1]);
            }
        }
    }
}

proof fn lemma_mode(ts: Seq<SpecToken>, p: int)
    requires
        good(ts),
        parse_mode(ts, p) is Some,
    ensures
        match parse_mode(ts, p)->Some_0.0 {
            SpecMode::Sequence(ns) => lexable_names(ns),
            _ => true,
        },
{
    if !is_word(ts, p, crate::parser::w_parallel()) && !is_word(ts, p, crate::parser::w_async()) {
        lemma_idents(ts, p + 2, SpecToken::Arrow, SpecToken::RParen);
    }
}

proof fn lemma_dispatches(ts: Seq<SpecToken>, p: int)
    requires
        good(ts),
        parse_dispatches(ts, p) is Some,
    ensures
        ({
            let v = parse_dispatches(ts, p)->Some_0.0;
            forall|k: int|
                0 <= k < v.len() ==> valid_name((#[trigger] v[k]).spine) && valid_name(v[k].event)
                    && match v[k].mode {
                    SpecMode::Sequence(ns) => lexable_names(ns),
                    _ => true,
                }
        }),
    decreases ts.len() - p,
{
    if 0 <= p && is_tok(ts, p, SpecToken::KwOn) {
        lemma_ident_good(ts, p + 1);
        lemma_ident_good(ts, p + 3);
        lemma_mode(ts, p + 4);
        let (mode, q) = parse_mode(ts, p + 4)->Some_0;
        lemma_dispatches(ts, q);
        let rest = parse_dispatches(ts, q)->Some_0.0;
        let v = parse_dispatches(ts, p)->Some_0.0;
        assert forall|k: int| 0 <= k < v.len() implies valid_name((#[trigger] v[k]).spine)
            && valid_name(v[k].event) && match v[k].mode {
            SpecMode::Sequence(ns) => lexable_names(ns),
            _ => true,
        } by {
            if k > 0 {
                assert(v[k] == rest[k - 1]);
            }
        }
    }
}

proof fn lemma_scheme(ts: Seq<SpecToken>, p: int)
    requires
        good(ts),
        parse_scheme(ts, p) is Some,
    ensures
        lexable_scheme(parse_scheme(ts, p)->Some_0.0),
{
    reveal(parse_scheme);
    lemma_ident_good(ts, p + 1);
    let q = if is_tok(ts, p + 2, SpecToken::At) {
        lemma_ident_good(ts, p + 3);
        p + 4
    } else {
        p + 2
    };
    let q1 = if is_section(ts, q + 1, crate::parser::w_io()) {
        lemma_spines(ts, q + 2);
        parse_spines(ts, q + 2)->Some_0.1
    } else {
        q + 1
    };
    let q2 = if is_section(ts, q1, crate::parser::w_facets()) {
        lemma_instances(ts, q1 + 1);
        parse_instances(ts, q1 + 1)->Some_0.1
    } else {
        q1
    };
    if is_section(ts, q2, crate::parser::w_dispatch_scripts()) {
        lemma_dispatches(ts, q2 + 1);
    }
}

pub open spec fn lexable_entries(v: Seq<SpecIoEntry>) -> bool {
    forall|k: int|
        0 <= k < v.len() ==> valid_name(entry_name(#[trigger] v[k])) && lexable_type(
            crate::roundtrip::entry_type(v[k]),
        )
}

proof fn lemma_entries(ts: Seq<SpecToken>, p: int)
    requires
        good(ts),
        parse_entries(ts, p) is Some,
    ensures
        lexable_entries(parse_entries(ts, p)->Some_0.0),
    decreases ts.len() - p,
{
    if 0 <= p && (is_word(ts, p, crate::parser::w_event()) || is_word(ts, p, crate::parser::w_method())) {
        lemma_ident_good(ts, p + 1);
        lemma_type(ts, p + 3);
        let (ty, q) = parse_type(ts, p + 3)->Some_0;
        lemma_entries(ts, q);
        let rest = parse_entries(ts, q)->Some_0.0;
        let v = parse_entries(ts, p)->Some_0.0;
        assert forall|k: int| 0 <= k < v.len() implies valid_name(entry_name(#[trigger] v[k]))
            && lexable_type(crate::roundtrip::entry_type(v[k])) by {
            if k > 0 {
                assert(v[k] == rest[k - 1]);
            }
        }
    }
}

proof fn lemma_requests(ts: Seq<SpecToken>, p: int)
    requires
        good(ts),
        parse_requests(ts, p) is Some,
    ensures
        lexable_entries(parse_requests(ts, p)->Some_0.0),
    decreases ts.len() - p,
{
    if 0 <= p && ident_at(ts, p) is Some {
        lemma_ident_good(ts, p);
        let (fields, q) = if is_tok(ts, p + 2, SpecToken::RParen) {
            (Seq::<(Name, SpecType)>::empty(), p + 3)
        } else {
            lemma_named_types(ts, p + 2, SpecToken::RParen);
            parse_named_types(ts, p + 2, SpecToken::RParen)->Some_0
        };
        assert(lexable_named(fields));
        assert(lexable_type(SpecType::Record(fields)));
        lemma_type(ts, q + 1);
        let (ret, r) = parse_type(ts, q + 1)->Some_0;
        lemma_requests(ts, r);
        let rest = parse_requests(ts, r)->Some_0.0;
        let v = parse_requests(ts, p)->Some_0.0;
        let ty = SpecType::Function {
            from: Box::new(SpecType::Record(fields)),
            to: Box::new(ret),
            effects: Seq::empty(),
        };
        assert(lexable_type(ty));
        assert(v[0] == SpecIoEntry::Method { name: ident_at(ts, p)->0, ty });
        assert forall|k: int| 0 <= k < v.len() implies valid_name(entry_name(#[trigger] v[k]))
            && lexable_type(crate::roundtrip::entry_type(v[k])) by {
            if k > 0 {
                assert(v[k] == rest[k - 1]);
            }
        }
    }
}

proof fn lemma_aliases(ts: Seq<SpecToken>, p: int)
    requires
        good(ts),
        parse_aliases(ts, p) is Some,
    ensures
        ({
            let v = parse_aliases(ts, p)->Some_0.0;
            forall|k: int|
                0 <= k < v.len() ==> valid_name((#[trigger] v[k]).name) && lexable_type(v[k].ty)
        }),
    decreases ts.len() - p,
{
    if 0 <= p && ident_at(ts, p) is Some {
        lemma_ident_good(ts, p);
        lemma_type(ts, p + 2);
        let (ty, q) = parse_type(ts, p + 2)->Some_0;
        lemma_aliases(ts, q);
        let rest = parse_aliases(ts, q)->Some_0.0;
        let v = parse_aliases(ts, p)->Some_0.0;
        assert forall|k: int| 0 <= k < v.len() implies valid_name((#[trigger] v[k]).name)
            && lexable_type(v[k].ty) by {
            if k > 0 {
                assert(v[k] == rest[k - 1]);
            }
        }
    }
}

proof fn lemma_conns(ts: Seq<SpecToken>, p: int)
    requires
        good(ts),
        parse_conns(ts, p) is Some,
    ensures
        ({
            let v = parse_conns(ts, p)->Some_0.0;
            forall|k: int|
                0 <= k < v.len() ==> valid_name((#[trigger] v[k]).name) && lexable_expr(v[k].init)
        }),
    decreases ts.len() - p,
{
    if 0 <= p && ident_at(ts, p) is Some {
        lemma_ident_good(ts, p);
        lemma_expr(ts, p + 2);
        let (init, q) = parse_expr(ts, p + 2)->Some_0;
        lemma_conns(ts, q);
        let rest = parse_conns(ts, q)->Some_0.0;
        let v = parse_conns(ts, p)->Some_0.0;
        assert forall|k: int| 0 <= k < v.len() implies valid_name((#[trigger] v[k]).name)
            && lexable_expr(v[k].init) by {
            if k > 0 {
                assert(v[k] == rest[k - 1]);
            }
        }
    }
}

proof fn lemma_io(ts: Seq<SpecToken>, p: int)
    requires
        good(ts),
        parse_io(ts, p) is Some,
    ensures
        lexable_io(parse_io(ts, p)->Some_0.0),
{
    reveal(parse_io);
    lemma_ident_good(ts, p + 1);
    let q = p + 3;
    let e0 = Seq::<SpecIoEntry>::empty();
    let (entries, q1) = if is_section(ts, q, crate::parser::w_interface()) {
        lemma_entries(ts, q + 1);
        parse_entries(ts, q + 1)->Some_0
    } else {
        (e0, q)
    };
    let (requests, q2) = if is_section(ts, q1, crate::parser::w_requests()) {
        lemma_requests(ts, q1 + 1);
        parse_requests(ts, q1 + 1)->Some_0
    } else {
        (e0, q1)
    };
    assert(lexable_entries(entries) && lexable_entries(requests));
    let q3 = if is_section(ts, q2, crate::parser::w_api_contracts()) {
        lemma_aliases(ts, q2 + 1);
        parse_aliases(ts, q2 + 1)->Some_0.1
    } else {
        q2
    };
    if is_section(ts, q3, crate::parser::w_connection_handlers()) {
        lemma_conns(ts, q3 + 1);
    }
    let d = parse_io(ts, p)->Some_0.0;
    assert(d.interface == entries + requests);
    assert forall|k: int| 0 <= k < d.interface.len() implies valid_name(
        entry_name(#[trigger] d.interface[k]),
    ) && lexable_type(crate::roundtrip::entry_type(d.interface[k])) by {
        if k < entries.len() {
            assert(d.interface[k] == entries[k]);
        } else {
            assert(d.interface[k] == requests[k - entries.len()]);
        }
    }
}

proof fn lemma_module_from(ts: Seq<SpecToken>, p: int)
    requires
        good(ts),
        parse_module_from(ts, p) is Some,
    ensures
        lexable_module(parse_module_from(ts, p)->Some_0),
    decreases ts.len() - p,
{
    if p < ts.len() {
        let (d, q) = parse_decl(ts, p)->Some_0;
        lemma_module_from(ts, q);
        let m = parse_module_from(ts, q)->Some_0;
        let r = parse_module_from(ts, p)->Some_0;
        match d {
            SpecDecl::Facet(f) => {
                lemma_facet(ts, p);
                assert(r.facets == seq![f] + m.facets);
                assert forall|i: int| 0 <= i < r.facets.len() implies lexable_facet(#[trigger] r.facets[i]) by {
                    if i > 0 {
                        assert(r.facets[i] == m.facets[i - 1]);
                    }
                }
            },
            SpecDecl::Scheme(s) => {
                lemma_scheme(ts, p);
                assert(r.schemes == seq![s] + m.schemes);
                assert forall|i: int| 0 <= i < r.schemes.len() implies lexable_scheme(#[trigger] r.schemes[i]) by {
                    if i > 0 {
                        assert(r.schemes[i] == m.schemes[i - 1]);
                    }
                }
            },
            SpecDecl::Io(x) => {
                lemma_io(ts, p);
                assert(r.io_decls == seq![x] + m.io_decls);
                assert forall|i: int| 0 <= i < r.io_decls.len() implies lexable_io(#[trigger] r.io_decls[i]) by {
                    if i > 0 {
                        assert(r.io_decls[i] == m.io_decls[i - 1]);
                    }
                }
            },
        }
    }
}

// ---------------------------------------------------------------------
// Laws.

/// Every module that source text parses to has names that are
/// identifiers other than keywords, non-negative integers, and floats
/// of digits, a point and digits: the printer's text of it lexes back to
/// the same names, numbers and floats.
pub proof fn law_parsed_modules_are_lexable(s: Seq<char>)
    requires
        spec_parse_source(s) is Some,
    ensures
        lexable_module(spec_parse_source(s)->Some_0),
{
    let v = spec_lex(s)->Some_0;
    lemma_lex_good(s, 0);
    lemma_module_from(tokens_of_spanned(v), 0);
}

/// Round trip for parsed modules: where source text parses to a
/// well-formed module, parsing that module's printed text gives it back.
/// (A parsed module need not be well-formed: `A -> (B -> C) / {e}` parses
/// to a function type with effects whose result is a function type
/// without effects, which prints as `A -> B -> C / {e}` and reads back
/// with the effects on the inner arrow.)
pub proof fn law_reparse_parsed(s: Seq<char>)
    requires
        spec_parse_source(s) is Some,
        wf_module(spec_parse_source(s)->Some_0),
    ensures
        spec_parse_source(module_text(spec_parse_source(s)->Some_0)) == spec_parse_source(s),
{
    law_parsed_modules_are_lexable(s);
    law_parse_printed_text(spec_parse_source(s)->Some_0);
}

} // verus!
