//! Parser — consumes the token sequence from `lexer` and produces a
//! `Module`.
//!
//! The grammar is given by the `parse_*` spec functions below, one per
//! nonterminal, each mapping a token sequence and a position to the node
//! read there and the position after it. The executable `read_*`
//! functions follow them one for one.
//!
//! ```text
//! module      = decl*
//! decl        = 'facet' ident '{' ('/// _state' field*)? ('/// _handlers' handler*)? '}'
//!             | 'scheme' ident ('@' ident)? '{' ('/// _io' spine*)? ('/// _facets' instance*)?
//!                   ('/// _dispatch_scripts' dispatch*)? '}'
//!             | 'io' ident '{' ('/// _interface' entry*)? ('/// _requests' request*)?
//!                   ('/// _api_contracts' alias*)? ('/// _connection_handlers' conn*)? '}'
//! field       = ident (':' type)? '=' expr
//! handler     = 'on' path ident? ('->' type)? block
//! spine       = ident ':' path
//! instance    = ident '(' (ident (',' ident)*)? ')'
//! dispatch    = 'on' ident '.' ident ('parallel' | 'async' | 'sequence' '(' ident ('->' ident)* ')')
//! entry       = ('event' | 'method') ident ':' type
//! request     = ident '(' (ident ':' type (',' ident ':' type)*)? ')' '->' type
//! alias       = ident ':' type
//! conn        = ident '=' expr
//! type        = atom ('->' type ('/' '{' path (',' path)* '}')?)?
//! atom        = path | '[' type ']' | '{' (ident ':' type (',' ident ':' type)*)? '}' | '(' type ')'
//! block       = '{' stmt* '}'
//! stmt        = 'if' expr block ('else' block)? | ident '=' expr | expr
//! expr        = e2 ('~>' expr)?                       -- right-associative
//! e2 .. e5    = operand (op operand)*                 -- left-associative:
//!               e2: '|>'   e3: '<' '>' '=='   e4: '+' '-'   e5: '*' '/'
//! postfix     = primary ('.' ident)*
//! primary     = int | float | string | ident | ident '(' args ')' | '(' expr ')'
//!             | '[' (expr (',' expr)*)? ']' | 'match' expr '{' arm* '}'
//! arg         = ident ':' expr | expr
//! arm         = ('_' | path) '->' (block | stmt)
//! ```
use vstd::prelude::*;

use crate::ast::{
    BinOp, CallArg, ConnectionHandler, DispatchDecl, DispatchMode, Expr, FacetDecl, FacetInstance,
    Handler, IoDecl, IoInterfaceEntry, IoSpine, MatchArm, Module, Name, Pattern, RecordField,
    SchemeDecl, SpecArg, SpecArm, SpecConnHandler, SpecDispatch, SpecExpr, SpecFacet, SpecHandler,
    SpecInstance, SpecIoDecl, SpecIoEntry, SpecMode, SpecModule, SpecPattern, SpecScheme,
    SpecSpine, SpecStateField, SpecStmt, SpecType, SpecTypeAlias, SpineEvent, StateField, Stmt,
    TypeAlias, TypeExpr,
};
use crate::lexer::{Span, SpecToken, Token, lex, lex_fail_at, spec_lex, spanned_view, tokens_of_spanned};
use crate::ParseError;
use crate::text::string_is;
use crate::ast::{args_view, exprs_view, arms_view, names_view, paths_view, type_view, expr_view, stmt_view, arg_view, arm_view, stmts_view};

verus! {

pub open spec fn toks(ts: Seq<(Token, Span)>) -> Seq<SpecToken> {
    ts.map_values(|p: (Token, Span)| p.0@)
}

pub open spec fn tk(ts: Seq<SpecToken>, p: int) -> Option<SpecToken> {
    if 0 <= p < ts.len() {
        Some(ts[p])
    } else {
        None
    }
}

pub open spec fn is_tok(ts: Seq<SpecToken>, p: int, t: SpecToken) -> bool {
    tk(ts, p) == Some(t)
}

pub open spec fn ident_at(ts: Seq<SpecToken>, p: int) -> Option<Name> {
    match tk(ts, p) {
        Some(SpecToken::Ident(n)) => Some(n),
        _ => None,
    }
}

/// `q` is a position strictly after `p` and within the tokens.
pub open spec fn adv(ts: Seq<SpecToken>, p: int, q: int) -> bool {
    p < q <= ts.len()
}

// Contextual words.
pub open spec fn w_facet() -> Seq<char> { seq!['f', 'a', 'c', 'e', 't'] }
pub open spec fn w_scheme() -> Seq<char> { seq!['s', 'c', 'h', 'e', 'm', 'e'] }
pub open spec fn w_io() -> Seq<char> { seq!['i', 'o'] }
pub open spec fn w_event() -> Seq<char> { seq!['e', 'v', 'e', 'n', 't'] }
pub open spec fn w_method() -> Seq<char> { seq!['m', 'e', 't', 'h', 'o', 'd'] }
pub open spec fn w_parallel() -> Seq<char> { seq!['p', 'a', 'r', 'a', 'l', 'l', 'e', 'l'] }
pub open spec fn w_async() -> Seq<char> { seq!['a', 's', 'y', 'n', 'c'] }
pub open spec fn w_sequence() -> Seq<char> { seq!['s', 'e', 'q', 'u', 'e', 'n', 'c', 'e'] }
pub open spec fn w_state() -> Seq<char> { seq!['s', 't', 'a', 't', 'e'] }
pub open spec fn w_handlers() -> Seq<char> { seq!['h', 'a', 'n', 'd', 'l', 'e', 'r', 's'] }
pub open spec fn w_facets() -> Seq<char> { seq!['f', 'a', 'c', 'e', 't', 's'] }
pub open spec fn w_dispatch_scripts() -> Seq<char> {
    seq!['d', 'i', 's', 'p', 'a', 't', 'c', 'h', '_', 's', 'c', 'r', 'i', 'p', 't', 's']
}
pub open spec fn w_interface() -> Seq<char> { seq!['i', 'n', 't', 'e', 'r', 'f', 'a', 'c', 'e'] }
pub open spec fn w_requests() -> Seq<char> { seq!['r', 'e', 'q', 'u', 'e', 's', 't', 's'] }
pub open spec fn w_api_contracts() -> Seq<char> {
    seq!['a', 'p', 'i', '_', 'c', 'o', 'n', 't', 'r', 'a', 'c', 't', 's']
}
pub open spec fn w_connection_handlers() -> Seq<char> {
    seq!['c', 'o', 'n', 'n', 'e', 'c', 't', 'i', 'o', 'n', '_', 'h', 'a', 'n', 'd', 'l', 'e', 'r', 's']
}

pub open spec fn is_word(ts: Seq<SpecToken>, p: int, w: Seq<char>) -> bool {
    ident_at(ts, p) == Some(w)
}

pub open spec fn is_section(ts: Seq<SpecToken>, p: int, w: Seq<char>) -> bool {
    tk(ts, p) == Some(SpecToken::Section(w))
}

// ---------------------------------------------------------------------
// Paths.

/// `('.' ident)*` after the first segment of a path.
pub open spec fn parse_path_tail(ts: Seq<SpecToken>, p: int) -> (Seq<Name>, int)
    decreases ts.len() - p,
{
    if 0 <= p && is_tok(ts, p, SpecToken::Dot) && ident_at(ts, p + 1) is Some {
        let (rest, q) = parse_path_tail(ts, p + 2);
        (seq![ident_at(ts, p + 1)->0] + rest, q)
    } else {
        (Seq::empty(), p)
    }
}

/// `ident ('.' ident)*`
pub open spec fn parse_path(ts: Seq<SpecToken>, p: int) -> Option<(Seq<Name>, int)> {
    match ident_at(ts, p) {
        Some(n) => {
            let (rest, q) = parse_path_tail(ts, p + 1);
            Some((seq![n] + rest, q))
        },
        None => None,
    }
}

// ---------------------------------------------------------------------
// Types.

pub open spec fn parse_type(ts: Seq<SpecToken>, p: int) -> Option<(SpecType, int)>
    decreases ts.len() - p, 2int,
{
    match parse_type_atom(ts, p) {
        Some((t, q)) => if adv(ts, p, q) {
            if is_tok(ts, q, SpecToken::Arrow) {
                match parse_type(ts, q + 1) {
                    Some((to, r)) => if adv(ts, q, r) {
                        if is_tok(ts, r, SpecToken::Slash) && is_tok(ts, r + 1, SpecToken::LBrace) {
                            match parse_effects(ts, r + 2) {
                                Some((effs, e)) => Some(
                                    (SpecType::Function { from: Box::new(t), to: Box::new(to), effects: effs }, e),
                                ),
                                None => None,
                            }
                        } else {
                            Some(
                                (SpecType::Function { from: Box::new(t), to: Box::new(to), effects: Seq::empty() }, r),
                            )
                        }
                    } else {
                        None
                    },
                    None => None,
                }
            } else {
                Some((t, q))
            }
        } else {
            None
        },
        None => None,
    }
}

pub open spec fn parse_type_atom(ts: Seq<SpecToken>, p: int) -> Option<(SpecType, int)>
    decreases ts.len() - p, 1int,
{
    if !(0 <= p < ts.len()) {
        None
    } else if ident_at(ts, p) is Some {
        match parse_path(ts, p) {
            Some((path, q)) => Some((SpecType::Path(path), q)),
            None => None,
        }
    } else if is_tok(ts, p, SpecToken::LBracket) {
        match parse_type(ts, p + 1) {
            Some((t, q)) => if adv(ts, p, q) && is_tok(ts, q, SpecToken::RBracket) {
                Some((SpecType::List(Box::new(t)), q + 1))
            } else {
                None
            },
            None => None,
        }
    } else if is_tok(ts, p, SpecToken::LBrace) {
        if is_tok(ts, p + 1, SpecToken::RBrace) {
            Some((SpecType::Record(Seq::empty()), p + 2))
        } else {
            match parse_named_types(ts, p + 1, SpecToken::RBrace) {
                Some((fs, q)) => Some((SpecType::Record(fs), q)),
                None => None,
            }
        }
    } else if is_tok(ts, p, SpecToken::LParen) {
        match parse_type(ts, p + 1) {
            Some((t, q)) => if adv(ts, p, q) && is_tok(ts, q, SpecToken::RParen) {
                Some((t, q + 1))
            } else {
                None
            },
            None => None,
        }
    } else {
        None
    }
}

/// `ident ':' type (',' ident ':' type)* close` — the named types and
/// the position after `close`.
pub open spec fn parse_named_types(ts: Seq<SpecToken>, p: int, close: SpecToken) -> Option<
    (Seq<(Name, SpecType)>, int),
>
    decreases ts.len() - p, 0int,
{
    match ident_at(ts, p) {
        Some(n) => if 0 <= p && is_tok(ts, p + 1, SpecToken::Colon) {
            match parse_type(ts, p + 2) {
                Some((t, q)) => if adv(ts, p, q) {
                    if is_tok(ts, q, SpecToken::Comma) {
                        match parse_named_types(ts, q + 1, close) {
                            Some((rest, e)) => Some((seq![(n, t)] + rest, e)),
                            None => None,
                        }
                    } else if is_tok(ts, q, close) {
                        Some((seq![(n, t)], q + 1))
                    } else {
                        None
                    }
                } else {
                    None
                },
                None => None,
            }
        } else {
            None
        },
        None => None,
    }
}

/// `path (',' path)* '}'` — the effect set of a function type.
pub open spec fn parse_effects(ts: Seq<SpecToken>, p: int) -> Option<(Seq<Seq<Name>>, int)>
    decreases ts.len() - p,
{
    match parse_path(ts, p) {
        Some((path, q)) => if adv(ts, p, q) {
            if is_tok(ts, q, SpecToken::Comma) {
                match parse_effects(ts, q + 1) {
                    Some((rest, e)) => Some((seq![path] + rest, e)),
                    None => None,
                }
            } else if is_tok(ts, q, SpecToken::RBrace) {
                Some((seq![path], q + 1))
            } else {
                None
            }
        } else {
            None
        },
        None => None,
    }
}


// ---------------------------------------------------------------------
// Expressions and statements.

/// The binary operator of precedence level `lvl` (2..5) at `p`.
pub open spec fn binop_at(ts: Seq<SpecToken>, p: int, lvl: int) -> Option<BinOp> {
    match tk(ts, p) {
        Some(SpecToken::Pipe) => if lvl == 2 { Some(BinOp::Pipe) } else { None },
        Some(SpecToken::Lt) => if lvl == 3 { Some(BinOp::Lt) } else { None },
        Some(SpecToken::Gt) => if lvl == 3 { Some(BinOp::Gt) } else { None },
        Some(SpecToken::EqEq) => if lvl == 3 { Some(BinOp::Eq) } else { None },
        Some(SpecToken::Plus) => if lvl == 4 { Some(BinOp::Add) } else { None },
        Some(SpecToken::Minus) => if lvl == 4 { Some(BinOp::Sub) } else { None },
        Some(SpecToken::Star) => if lvl == 5 { Some(BinOp::Mul) } else { None },
        Some(SpecToken::Slash) => if lvl == 5 { Some(BinOp::Div) } else { None },
        _ => None,
    }
}

/// `expr = e2 ('~>' expr)?`
pub open spec fn parse_expr(ts: Seq<SpecToken>, p: int) -> Option<(SpecExpr, int)>
    decreases ts.len() - p, 40int,
{
    match parse_binary(ts, p, 2) {
        Some((lhs, q)) => if adv(ts, p, q) {
            if is_tok(ts, q, SpecToken::StateShift) {
                match parse_expr(ts, q + 1) {
                    Some((rhs, r)) => if adv(ts, q, r) {
                        Some((SpecExpr::Binary(BinOp::StateShift, Box::new(lhs), Box::new(rhs)), r))
                    } else {
                        None
                    },
                    None => None,
                }
            } else {
                Some((lhs, q))
            }
        } else {
            None
        },
        None => None,
    }
}

/// Left-associative level `lvl` (2..5).
pub open spec fn parse_binary(ts: Seq<SpecToken>, p: int, lvl: int) -> Option<(SpecExpr, int)>
    decreases ts.len() - p, 39 - 2 * lvl,
{
    if !(2 <= lvl <= 5) {
        None
    } else {
        let operand = if lvl == 5 {
            parse_postfix(ts, p)
        } else {
            parse_binary(ts, p, lvl + 1)
        };
        match operand {
            Some((lhs, q)) => if adv(ts, p, q) {
                parse_left_rest(ts, lhs, q, lvl)
            } else {
                None
            },
            None => None,
        }
    }
}

/// `(op operand)*` of level `lvl`, folding onto `lhs`.
pub open spec fn parse_left_rest(ts: Seq<SpecToken>, lhs: SpecExpr, q: int, lvl: int) -> Option<
    (SpecExpr, int),
>
    decreases ts.len() - q, 38 - 2 * lvl,
{
    if !(2 <= lvl <= 5 && 0 <= q <= ts.len()) {
        None
    } else {
        match binop_at(ts, q, lvl) {
            Some(op) => {
                let operand = if lvl == 5 {
                    parse_postfix(ts, q + 1)
                } else {
                    parse_binary(ts, q + 1, lvl + 1)
                };
                match operand {
                    Some((rhs, r)) => if adv(ts, q, r) {
                        parse_left_rest(ts, SpecExpr::Binary(op, Box::new(lhs), Box::new(rhs)), r, lvl)
                    } else {
                        None
                    },
                    None => None,
                }
            },
            None => Some((lhs, q)),
        }
    }
}

/// `primary ('.' ident)*`
pub open spec fn parse_postfix(ts: Seq<SpecToken>, p: int) -> Option<(SpecExpr, int)>
    decreases ts.len() - p, 20int,
{
    match parse_atom(ts, p) {
        Some((e, q)) => if adv(ts, p, q) {
            parse_postfix_rest(ts, e, q)
        } else {
            None
        },
        None => None,
    }
}

pub open spec fn parse_postfix_rest(ts: Seq<SpecToken>, e: SpecExpr, q: int) -> Option<(SpecExpr, int)>
    decreases ts.len() - q, 19int,
{
    if 0 <= q && is_tok(ts, q, SpecToken::Dot) && ident_at(ts, q + 1) is Some {
        parse_postfix_rest(
            ts,
            SpecExpr::FieldAccess { object: Box::new(e), field: ident_at(ts, q + 1)->0 },
            q + 2,
        )
    } else {
        Some((e, q))
    }
}

pub open spec fn parse_atom(ts: Seq<SpecToken>, p: int) -> Option<(SpecExpr, int)>
    decreases ts.len() - p, 18int,
{
    if !(0 <= p < ts.len()) {
        None
    } else {
        match ts[p] {
            SpecToken::Int(n) => Some((SpecExpr::Int(n), p + 1)),
            SpecToken::Float(t) => Some((SpecExpr::Float(t), p + 1)),
            SpecToken::Str(t) => Some((SpecExpr::Str(t), p + 1)),
            SpecToken::Ident(n) => if is_tok(ts, p + 1, SpecToken::LParen) {
                if is_tok(ts, p + 2, SpecToken::RParen) {
                    Some((SpecExpr::Call { callee: n, args: Seq::empty() }, p + 3))
                } else {
                    match parse_args(ts, p + 2) {
                        Some((args, q)) => Some((SpecExpr::Call { callee: n, args }, q)),
                        None => None,
                    }
                }
            } else {
                Some((SpecExpr::Ident(n), p + 1))
            },
            SpecToken::LParen => match parse_expr(ts, p + 1) {
                Some((e, q)) => if adv(ts, p, q) && is_tok(ts, q, SpecToken::RParen) {
                    Some((e, q + 1))
                } else {
                    None
                },
                None => None,
            },
            SpecToken::LBracket => if is_tok(ts, p + 1, SpecToken::RBracket) {
                Some((SpecExpr::List(Seq::empty()), p + 2))
            } else {
                match parse_items(ts, p + 1) {
                    Some((items, q)) => Some((SpecExpr::List(items), q)),
                    None => None,
                }
            },
            SpecToken::KwMatch => match parse_expr(ts, p + 1) {
                Some((scrutinee, q)) => if adv(ts, p, q) && is_tok(ts, q, SpecToken::LBrace) {
                    match parse_arms(ts, q + 1) {
                        Some((arms, r)) => Some(
                            (SpecExpr::Match { scrutinee: Box::new(scrutinee), arms }, r),
                        ),
                        None => None,
                    }
                } else {
                    None
                },
                None => None,
            },
            _ => None,
        }
    }
}

/// `arg (',' arg)* ')'`
pub open spec fn parse_args(ts: Seq<SpecToken>, p: int) -> Option<(Seq<SpecArg>, int)>
    decreases ts.len() - p, 50int,
{
    match parse_arg(ts, p) {
        Some((a, q)) => if adv(ts, p, q) {
            if is_tok(ts, q, SpecToken::Comma) {
                match parse_args(ts, q + 1) {
                    Some((rest, e)) => Some((seq![a] + rest, e)),
                    None => None,
                }
            } else if is_tok(ts, q, SpecToken::RParen) {
                Some((seq![a], q + 1))
            } else {
                None
            }
        } else {
            None
        },
        None => None,
    }
}

/// `ident ':' expr | expr`
pub open spec fn parse_arg(ts: Seq<SpecToken>, p: int) -> Option<(SpecArg, int)>
    decreases ts.len() - p, 45int,
{
    if 0 <= p && ident_at(ts, p) is Some && is_tok(ts, p + 1, SpecToken::Colon) {
        match parse_expr(ts, p + 2) {
            Some((v, q)) => Some((SpecArg::Named { name: ident_at(ts, p)->0, value: v }, q)),
            None => None,
        }
    } else {
        match parse_expr(ts, p) {
            Some((v, q)) => Some((SpecArg::Positional(v), q)),
            None => None,
        }
    }
}

/// `expr (',' expr)* ']'`
pub open spec fn parse_items(ts: Seq<SpecToken>, p: int) -> Option<(Seq<SpecExpr>, int)>
    decreases ts.len() - p, 50int,
{
    match parse_expr(ts, p) {
        Some((e, q)) => if adv(ts, p, q) {
            if is_tok(ts, q, SpecToken::Comma) {
                match parse_items(ts, q + 1) {
                    Some((rest, r)) => Some((seq![e] + rest, r)),
                    None => None,
                }
            } else if is_tok(ts, q, SpecToken::RBracket) {
                Some((seq![e], q + 1))
            } else {
                None
            }
        } else {
            None
        },
        None => None,
    }
}

/// `arm* '}'`
pub open spec fn parse_arms(ts: Seq<SpecToken>, p: int) -> Option<(Seq<SpecArm>, int)>
    decreases ts.len() - p, 60int,
{
    if !(0 <= p < ts.len()) {
        None
    } else if is_tok(ts, p, SpecToken::RBrace) {
        Some((Seq::empty(), p + 1))
    } else {
        match parse_arm(ts, p) {
            Some((a, q)) => if adv(ts, p, q) {
                match parse_arms(ts, q) {
                    Some((rest, r)) => Some((seq![a] + rest, r)),
                    None => None,
                }
            } else {
                None
            },
            None => None,
        }
    }
}

/// `('_' | path) '->' (block | stmt)`
pub open spec fn parse_arm(ts: Seq<SpecToken>, p: int) -> Option<(SpecArm, int)>
    decreases ts.len() - p, 55int,
{
    let pat: Option<(SpecPattern, int)> = if is_tok(ts, p, SpecToken::Underscore) {
        Some((SpecPattern::Wildcard, p + 1))
    } else {
        match parse_path(ts, p) {
            Some((path, q)) => Some((SpecPattern::Constructor(path), q)),
            None => None,
        }
    };
    match pat {
        Some((pattern, q)) => if adv(ts, p, q) && is_tok(ts, q, SpecToken::Arrow) {
            if is_tok(ts, q + 1, SpecToken::LBrace) {
                match parse_block(ts, q + 1) {
                    Some((body, r)) => Some((SpecArm { pattern, body }, r)),
                    None => None,
                }
            } else {
                match parse_stmt(ts, q + 1) {
                    Some((st, r)) => Some((SpecArm { pattern, body: seq![st] }, r)),
                    None => None,
                }
            }
        } else {
            None
        },
        None => None,
    }
}

/// `'{' stmt* '}'`
pub open spec fn parse_block(ts: Seq<SpecToken>, p: int) -> Option<(Seq<SpecStmt>, int)>
    decreases ts.len() - p, 70int,
{
    if 0 <= p && is_tok(ts, p, SpecToken::LBrace) {
        parse_stmts(ts, p + 1)
    } else {
        None
    }
}

/// `stmt* '}'`
pub open spec fn parse_stmts(ts: Seq<SpecToken>, p: int) -> Option<(Seq<SpecStmt>, int)>
    decreases ts.len() - p, 66int,
{
    if !(0 <= p < ts.len()) {
        None
    } else if is_tok(ts, p, SpecToken::RBrace) {
        Some((Seq::empty(), p + 1))
    } else {
        match parse_stmt(ts, p) {
            Some((st, q)) => if adv(ts, p, q) {
                match parse_stmts(ts, q) {
                    Some((rest, r)) => Some((seq![st] + rest, r)),
                    None => None,
                }
            } else {
                None
            },
            None => None,
        }
    }
}

pub open spec fn parse_stmt(ts: Seq<SpecToken>, p: int) -> Option<(SpecStmt, int)>
    decreases ts.len() - p, 65int,
{
    if !(0 <= p < ts.len()) {
        None
    } else if is_tok(ts, p, SpecToken::KwIf) {
        match parse_expr(ts, p + 1) {
            Some((cond, q)) => if adv(ts, p, q) {
                match parse_block(ts, q) {
                    Some((then_body, r)) => if adv(ts, q, r) {
                        if is_tok(ts, r, SpecToken::KwElse) {
                            match parse_block(ts, r + 1) {
                                Some((else_body, e)) => Some(
                                    (SpecStmt::If { cond, then_body, else_body: Some(else_body) }, e),
                                ),
                                None => None,
                            }
                        } else {
                            Some((SpecStmt::If { cond, then_body, else_body: None }, r))
                        }
                    } else {
                        None
                    },
                    None => None,
                }
            } else {
                None
            },
            None => None,
        }
    } else if ident_at(ts, p) is Some && is_tok(ts, p + 1, SpecToken::Assign) {
        match parse_expr(ts, p + 2) {
            Some((value, q)) => Some((SpecStmt::Assign { name: ident_at(ts, p)->0, value }, q)),
            None => None,
        }
    } else {
        match parse_expr(ts, p) {
            Some((e, q)) => Some((SpecStmt::ExprStmt(e), q)),
            None => None,
        }
    }
}


// ---------------------------------------------------------------------
// Declarations.

/// `ident (sep ident)* close`
pub open spec fn parse_idents(ts: Seq<SpecToken>, p: int, sep: SpecToken, close: SpecToken) -> Option<
    (Seq<Name>, int),
>
    decreases ts.len() - p,
{
    match ident_at(ts, p) {
        Some(n) => if 0 <= p && is_tok(ts, p + 1, sep) {
            match parse_idents(ts, p + 2, sep, close) {
                Some((rest, e)) => Some((seq![n] + rest, e)),
                None => None,
            }
        } else if 0 <= p && is_tok(ts, p + 1, close) {
            Some((seq![n], p + 2))
        } else {
            None
        },
        None => None,
    }
}

/// `ident (':' type)? '=' expr`
pub open spec fn parse_field(ts: Seq<SpecToken>, p: int) -> Option<(SpecStateField, int)> {
    match ident_at(ts, p) {
        Some(name) => if 0 <= p && is_tok(ts, p + 1, SpecToken::Colon) {
            match parse_type(ts, p + 2) {
                Some((t, q)) => if adv(ts, p, q) && is_tok(ts, q, SpecToken::Assign) {
                    match parse_expr(ts, q + 1) {
                        Some((init, r)) => Some((SpecStateField { name, ty: Some(t), init }, r)),
                        None => None,
                    }
                } else {
                    None
                },
                None => None,
            }
        } else if 0 <= p && is_tok(ts, p + 1, SpecToken::Assign) {
            match parse_expr(ts, p + 2) {
                Some((init, r)) => Some((SpecStateField { name, ty: None, init }, r)),
                None => None,
            }
        } else {
            None
        },
        None => None,
    }
}

/// `field*`, as long as an identifier follows.
pub open spec fn parse_fields(ts: Seq<SpecToken>, p: int) -> Option<(Seq<SpecStateField>, int)>
    decreases ts.len() - p,
{
    if 0 <= p && ident_at(ts, p) is Some {
        match parse_field(ts, p) {
            Some((f, q)) => if adv(ts, p, q) {
                match parse_fields(ts, q) {
                    Some((rest, r)) => Some((seq![f] + rest, r)),
                    None => None,
                }
            } else {
                None
            },
            None => None,
        }
    } else {
        Some((Seq::empty(), p))
    }
}

/// `'on' path ident? ('->' type)? block`
pub open spec fn parse_handler(ts: Seq<SpecToken>, p: int) -> Option<(SpecHandler, int)> {
    if 0 <= p && is_tok(ts, p, SpecToken::KwOn) {
        match parse_path(ts, p + 1) {
            Some((message_type, q)) => if adv(ts, p, q) {
                let (binding, q2) = match ident_at(ts, q) {
                    Some(b) => (Some(b), q + 1),
                    None => (None::<Name>, q),
                };
                let ret: Option<(Option<SpecType>, int)> = if is_tok(ts, q2, SpecToken::Arrow) {
                    match parse_type(ts, q2 + 1) {
                        Some((t, r)) => Some((Some(t), r)),
                        None => None,
                    }
                } else {
                    Some((None, q2))
                };
                match ret {
                    Some((return_ty, r)) => match parse_block(ts, r) {
                        Some((body, e)) => Some(
                            (SpecHandler { message_type, binding, return_ty, body }, e),
                        ),
                        None => None,
                    },
                    None => None,
                }
            } else {
                None
            },
            None => None,
        }
    } else {
        None
    }
}

/// `handler*`, as long as `on` follows.
pub open spec fn parse_handlers(ts: Seq<SpecToken>, p: int) -> Option<(Seq<SpecHandler>, int)>
    decreases ts.len() - p,
{
    if 0 <= p && is_tok(ts, p, SpecToken::KwOn) {
        match parse_handler(ts, p) {
            Some((h, q)) => if adv(ts, p, q) {
                match parse_handlers(ts, q) {
                    Some((rest, r)) => Some((seq![h] + rest, r)),
                    None => None,
                }
            } else {
                None
            },
            None => None,
        }
    } else {
        Some((Seq::empty(), p))
    }
}

#[verifier::opaque]
pub open spec fn parse_facet(ts: Seq<SpecToken>, p: int) -> Option<(SpecFacet, int)> {
    if 0 <= p && is_word(ts, p, w_facet()) && ident_at(ts, p + 1) is Some && is_tok(
        ts,
        p + 2,
        SpecToken::LBrace,
    ) {
        let name = ident_at(ts, p + 1)->0;
        let q = p + 3;
        let st: Option<(Seq<SpecStateField>, int)> = if is_section(ts, q, w_state()) {
            parse_fields(ts, q + 1)
        } else {
            Some((Seq::empty(), q))
        };
        match st {
            Some((state, q1)) => {
                let hs: Option<(Seq<SpecHandler>, int)> = if is_section(ts, q1, w_handlers()) {
                    parse_handlers(ts, q1 + 1)
                } else {
                    Some((Seq::empty(), q1))
                };
                match hs {
                    Some((handlers, q2)) => if is_tok(ts, q2, SpecToken::RBrace) {
                        Some((SpecFacet { name, state, handlers }, q2 + 1))
                    } else {
                        None
                    },
                    None => None,
                }
            },
            None => None,
        }
    } else {
        None
    }
}

/// `(ident ':' path)*`
pub open spec fn parse_spines(ts: Seq<SpecToken>, p: int) -> Option<(Seq<SpecSpine>, int)>
    decreases ts.len() - p,
{
    if 0 <= p && ident_at(ts, p) is Some {
        if is_tok(ts, p + 1, SpecToken::Colon) {
            match parse_path(ts, p + 2) {
                Some((io_path, q)) => if adv(ts, p, q) {
                    match parse_spines(ts, q) {
                        Some((rest, r)) => Some(
                            (seq![SpecSpine { name: ident_at(ts, p)->0, io_path }] + rest, r),
                        ),
                        None => None,
                    }
                } else {
                    None
                },
                None => None,
            }
        } else {
            None
        }
    } else {
        Some((Seq::empty(), p))
    }
}

/// `(ident '(' (ident (',' ident)*)? ')')*`
pub open spec fn parse_instances(ts: Seq<SpecToken>, p: int) -> Option<(Seq<SpecInstance>, int)>
    decreases ts.len() - p,
{
    if 0 <= p && ident_at(ts, p) is Some {
        if is_tok(ts, p + 1, SpecToken::LParen) {
            let args: Option<(Seq<Name>, int)> = if is_tok(ts, p + 2, SpecToken::RParen) {
                Some((Seq::empty(), p + 3))
            } else {
                parse_idents(ts, p + 2, SpecToken::Comma, SpecToken::RParen)
            };
            match args {
                Some((io_args, q)) => if adv(ts, p, q) {
                    match parse_instances(ts, q) {
                        Some((rest, r)) => Some(
                            (seq![SpecInstance { name: ident_at(ts, p)->0, io_args }] + rest, r),
                        ),
                        None => None,
                    }
                } else {
                    None
                },
                None => None,
            }
        } else {
            None
        }
    } else {
        Some((Seq::empty(), p))
    }
}

/// `'parallel' | 'async' | 'sequence' '(' ident ('->' ident)* ')'`
pub open spec fn parse_mode(ts: Seq<SpecToken>, p: int) -> Option<(SpecMode, int)> {
    if is_word(ts, p, w_parallel()) {
        Some((SpecMode::Parallel, p + 1))
    } else if is_word(ts, p, w_async()) {
        Some((SpecMode::Async, p + 1))
    } else if is_word(ts, p, w_sequence()) && is_tok(ts, p + 1, SpecToken::LParen) {
        match parse_idents(ts, p + 2, SpecToken::Arrow, SpecToken::RParen) {
            Some((names, q)) => Some((SpecMode::Sequence(names), q)),
            None => None,
        }
    } else {
        None
    }
}

/// `('on' ident '.' ident mode)*`
pub open spec fn parse_dispatches(ts: Seq<SpecToken>, p: int) -> Option<(Seq<SpecDispatch>, int)>
    decreases ts.len() - p,
{
    if 0 <= p && is_tok(ts, p, SpecToken::KwOn) {
        if ident_at(ts, p + 1) is Some && is_tok(ts, p + 2, SpecToken::Dot) && ident_at(ts, p + 3) is Some {
            match parse_mode(ts, p + 4) {
                Some((mode, q)) => if adv(ts, p, q) {
                    match parse_dispatches(ts, q) {
                        Some((rest, r)) => Some(
                            (
                                seq![
                                    SpecDispatch {
                                        spine: ident_at(ts, p + 1)->0,
                                        event: ident_at(ts, p + 3)->0,
                                        mode,
                                    },
                                ] + rest,
                                r,
                            ),
                        ),
                        None => None,
                    }
                } else {
                    None
                },
                None => None,
            }
        } else {
            None
        }
    } else {
        Some((Seq::empty(), p))
    }
}

#[verifier::opaque]
pub open spec fn parse_scheme(ts: Seq<SpecToken>, p: int) -> Option<(SpecScheme, int)> {
    if 0 <= p && is_word(ts, p, w_scheme()) && ident_at(ts, p + 1) is Some {
        let name = ident_at(ts, p + 1)->0;
        let head: Option<(Option<Name>, int)> = if is_tok(ts, p + 2, SpecToken::At) {
            match ident_at(ts, p + 3) {
                Some(par) => Some((Some(par), p + 4)),
                None => None,
            }
        } else {
            Some((None, p + 2))
        };
        match head {
            Some((parent, q)) => if is_tok(ts, q, SpecToken::LBrace) {
                let sp: Option<(Seq<SpecSpine>, int)> = if is_section(ts, q + 1, w_io()) {
                    parse_spines(ts, q + 2)
                } else {
                    Some((Seq::empty(), q + 1))
                };
                match sp {
                    Some((io_spines, q1)) => {
                        let ins: Option<(Seq<SpecInstance>, int)> = if is_section(ts, q1, w_facets()) {
                            parse_instances(ts, q1 + 1)
                        } else {
                            Some((Seq::empty(), q1))
                        };
                        match ins {
                            Some((facet_instances, q2)) => {
                                let ds: Option<(Seq<SpecDispatch>, int)> = if is_section(
                                    ts,
                                    q2,
                                    w_dispatch_scripts(),
                                ) {
                                    parse_dispatches(ts, q2 + 1)
                                } else {
                                    Some((Seq::empty(), q2))
                                };
                                match ds {
                                    Some((dispatch, q3)) => if is_tok(ts, q3, SpecToken::RBrace) {
                                        Some(
                                            (
                                                SpecScheme {
                                                    name,
                                                    parent,
                                                    io_spines,
                                                    facet_instances,
                                                    dispatch,
                                                },
                                                q3 + 1,
                                            ),
                                        )
                                    } else {
                                        None
                                    },
                                    None => None,
                                }
                            },
                            None => None,
                        }
                    },
                    None => None,
                }
            } else {
                None
            },
            None => None,
        }
    } else {
        None
    }
}

/// `(('event' | 'method') ident ':' type)*`
pub open spec fn parse_entries(ts: Seq<SpecToken>, p: int) -> Option<(Seq<SpecIoEntry>, int)>
    decreases ts.len() - p,
{
    if 0 <= p && (is_word(ts, p, w_event()) || is_word(ts, p, w_method())) {
        if ident_at(ts, p + 1) is Some && is_tok(ts, p + 2, SpecToken::Colon) {
            match parse_type(ts, p + 3) {
                Some((ty, q)) => if adv(ts, p, q) {
                    let name = ident_at(ts, p + 1)->0;
                    let e = if is_word(ts, p, w_event()) {
                        SpecIoEntry::Event { name, ty }
                    } else {
                        SpecIoEntry::Method { name, ty }
                    };
                    match parse_entries(ts, q) {
                        Some((rest, r)) => Some((seq![e] + rest, r)),
                        None => None,
                    }
                } else {
                    None
                },
                None => None,
            }
        } else {
            None
        }
    } else {
        Some((Seq::empty(), p))
    }
}

/// `(ident '(' params ')' '->' type)*` — each request becomes a method
/// whose argument type is the record of its parameters.
pub open spec fn parse_requests(ts: Seq<SpecToken>, p: int) -> Option<(Seq<SpecIoEntry>, int)>
    decreases ts.len() - p,
{
    if 0 <= p && ident_at(ts, p) is Some {
        if is_tok(ts, p + 1, SpecToken::LParen) {
            let params: Option<(Seq<(Name, SpecType)>, int)> = if is_tok(ts, p + 2, SpecToken::RParen) {
                Some((Seq::empty(), p + 3))
            } else {
                parse_named_types(ts, p + 2, SpecToken::RParen)
            };
            match params {
                Some((fields, q)) => if adv(ts, p, q) && is_tok(ts, q, SpecToken::Arrow) {
                    match parse_type(ts, q + 1) {
                        Some((ret, r)) => if adv(ts, q, r) {
                            let e = SpecIoEntry::Method {
                                name: ident_at(ts, p)->0,
                                ty: SpecType::Function {
                                    from: Box::new(SpecType::Record(fields)),
                                    to: Box::new(ret),
                                    effects: Seq::empty(),
                                },
                            };
                            match parse_requests(ts, r) {
                                Some((rest, e2)) => Some((seq![e] + rest, e2)),
                                None => None,
                            }
                        } else {
                            None
                        },
                        None => None,
                    }
                } else {
                    None
                },
                None => None,
            }
        } else {
            None
        }
    } else {
        Some((Seq::empty(), p))
    }
}

/// `(ident ':' type)*`
pub open spec fn parse_aliases(ts: Seq<SpecToken>, p: int) -> Option<(Seq<SpecTypeAlias>, int)>
    decreases ts.len() - p,
{
    if 0 <= p && ident_at(ts, p) is Some {
        if is_tok(ts, p + 1, SpecToken::Colon) {
            match parse_type(ts, p + 2) {
                Some((ty, q)) => if adv(ts, p, q) {
                    match parse_aliases(ts, q) {
                        Some((rest, r)) => Some(
                            (seq![SpecTypeAlias { name: ident_at(ts, p)->0, ty }] + rest, r),
                        ),
                        None => None,
                    }
                } else {
                    None
                },
                None => None,
            }
        } else {
            None
        }
    } else {
        Some((Seq::empty(), p))
    }
}

/// `(ident '=' expr)*`
pub open spec fn parse_conns(ts: Seq<SpecToken>, p: int) -> Option<(Seq<SpecConnHandler>, int)>
    decreases ts.len() - p,
{
    if 0 <= p && ident_at(ts, p) is Some {
        if is_tok(ts, p + 1, SpecToken::Assign) {
            match parse_expr(ts, p + 2) {
                Some((init, q)) => if adv(ts, p, q) {
                    match parse_conns(ts, q) {
                        Some((rest, r)) => Some(
                            (seq![SpecConnHandler { name: ident_at(ts, p)->0, init }] + rest, r),
                        ),
                        None => None,
                    }
                } else {
                    None
                },
                None => None,
            }
        } else {
            None
        }
    } else {
        Some((Seq::empty(), p))
    }
}

#[verifier::opaque]
pub open spec fn parse_io(ts: Seq<SpecToken>, p: int) -> Option<(SpecIoDecl, int)> {
    if 0 <= p && is_word(ts, p, w_io()) && ident_at(ts, p + 1) is Some && is_tok(
        ts,
        p + 2,
        SpecToken::LBrace,
    ) {
        let name = ident_at(ts, p + 1)->0;
        let q = p + 3;
        let ifc: Option<(Seq<SpecIoEntry>, int)> = if is_section(ts, q, w_interface()) {
            parse_entries(ts, q + 1)
        } else {
            Some((Seq::empty(), q))
        };
        match ifc {
            Some((entries, q1)) => {
                let req: Option<(Seq<SpecIoEntry>, int)> = if is_section(ts, q1, w_requests()) {
                    parse_requests(ts, q1 + 1)
                } else {
                    Some((Seq::empty(), q1))
                };
                match req {
                    Some((requests, q2)) => {
                        let al: Option<(Seq<SpecTypeAlias>, int)> = if is_section(
                            ts,
                            q2,
                            w_api_contracts(),
                        ) {
                            parse_aliases(ts, q2 + 1)
                        } else {
                            Some((Seq::empty(), q2))
                        };
                        match al {
                            Some((api_contracts, q3)) => {
                                let cs: Option<(Seq<SpecConnHandler>, int)> = if is_section(
                                    ts,
                                    q3,
                                    w_connection_handlers(),
                                ) {
                                    parse_conns(ts, q3 + 1)
                                } else {
                                    Some((Seq::empty(), q3))
                                };
                                match cs {
                                    Some((connection_handlers, q4)) => if is_tok(
                                        ts,
                                        q4,
                                        SpecToken::RBrace,
                                    ) {
                                        Some(
                                            (
                                                SpecIoDecl {
                                                    name,
                                                    interface: entries + requests,
                                                    api_contracts,
                                                    connection_handlers,
                                                },
                                                q4 + 1,
                                            ),
                                        )
                                    } else {
                                        None
                                    },
                                    None => None,
                                }
                            },
                            None => None,
                        }
                    },
                    None => None,
                }
            },
            None => None,
        }
    } else {
        None
    }
}

pub enum SpecDecl {
    Facet(SpecFacet),
    Scheme(SpecScheme),
    Io(SpecIoDecl),
}

pub open spec fn parse_decl(ts: Seq<SpecToken>, p: int) -> Option<(SpecDecl, int)> {
    if is_word(ts, p, w_facet()) {
        match parse_facet(ts, p) {
            Some((f, q)) => Some((SpecDecl::Facet(f), q)),
            None => None,
        }
    } else if is_word(ts, p, w_scheme()) {
        match parse_scheme(ts, p) {
            Some((s, q)) => Some((SpecDecl::Scheme(s), q)),
            None => None,
        }
    } else if is_word(ts, p, w_io()) {
        match parse_io(ts, p) {
            Some((d, q)) => Some((SpecDecl::Io(d), q)),
            None => None,
        }
    } else {
        None
    }
}

pub open spec fn empty_module() -> SpecModule {
    SpecModule { facets: Seq::empty(), schemes: Seq::empty(), io_decls: Seq::empty() }
}

/// `m` with the declaration `d` placed before its own declarations of that kind.
pub open spec fn add_front(d: SpecDecl, m: SpecModule) -> SpecModule {
    match d {
        SpecDecl::Facet(f) => SpecModule { facets: seq![f] + m.facets, ..m },
        SpecDecl::Scheme(s) => SpecModule { schemes: seq![s] + m.schemes, ..m },
        SpecDecl::Io(i) => SpecModule { io_decls: seq![i] + m.io_decls, ..m },
    }
}

/// The declarations of `m` followed by those of `n`, kind by kind.
pub open spec fn concat_modules(m: SpecModule, n: SpecModule) -> SpecModule {
    SpecModule {
        facets: m.facets + n.facets,
        schemes: m.schemes + n.schemes,
        io_decls: m.io_decls + n.io_decls,
    }
}

pub open spec fn parse_module_from(ts: Seq<SpecToken>, p: int) -> Option<SpecModule>
    decreases ts.len() - p,
{
    if !(0 <= p <= ts.len()) {
        None
    } else if p == ts.len() {
        Some(empty_module())
    } else {
        match parse_decl(ts, p) {
            Some((d, q)) => if adv(ts, p, q) {
                match parse_module_from(ts, q) {
                    Some(m) => Some(add_front(d, m)),
                    None => None,
                }
            } else {
                None
            },
            None => None,
        }
    }
}

/// The module a token sequence stands for, if it is one.
pub open spec fn spec_parse(ts: Seq<SpecToken>) -> Option<SpecModule> {
    parse_module_from(ts, 0)
}


// =====================================================================
// Where reading stops.
//
// `*_stop(ts, p)` is the position that the reader of the same nonterminal
// reports where reading from `p` fails: the token it could not take.
// Where reading succeeds its value is of no account.

pub open spec fn path_stop(ts: Seq<SpecToken>, p: int) -> int {
    p
}

pub open spec fn type_stop(ts: Seq<SpecToken>, p: int) -> int
    decreases ts.len() - p, 2int,
{
    match parse_type_atom(ts, p) {
        None => type_atom_stop(ts, p),
        Some((_, q)) => if adv(ts, p, q) {
            if is_tok(ts, q, SpecToken::Arrow) {
                match parse_type(ts, q + 1) {
                    None => type_stop(ts, q + 1),
                    Some((_, r)) => if adv(ts, q, r) {
                        if is_tok(ts, r, SpecToken::Slash) && is_tok(ts, r + 1, SpecToken::LBrace) {
                            effects_stop(ts, r + 2)
                        } else {
                            p
                        }
                    } else {
                        q
                    },
                }
            } else {
                p
            }
        } else {
            p
        },
    }
}

pub open spec fn type_atom_stop(ts: Seq<SpecToken>, p: int) -> int
    decreases ts.len() - p, 1int,
{
    if !(0 <= p < ts.len()) {
        p
    } else if ident_at(ts, p) is Some {
        p
    } else if is_tok(ts, p, SpecToken::LBracket) {
        match parse_type(ts, p + 1) {
            None => type_stop(ts, p + 1),
            Some((_, q)) => q,
        }
    } else if is_tok(ts, p, SpecToken::LBrace) {
        if is_tok(ts, p + 1, SpecToken::RBrace) {
            p
        } else {
            named_types_stop(ts, p + 1, SpecToken::RBrace)
        }
    } else if is_tok(ts, p, SpecToken::LParen) {
        match parse_type(ts, p + 1) {
            None => type_stop(ts, p + 1),
            Some((_, q)) => q,
        }
    } else {
        p
    }
}

pub open spec fn named_types_stop(ts: Seq<SpecToken>, p: int, close: SpecToken) -> int
    decreases ts.len() - p, 0int,
{
    if ident_at(ts, p) is None {
        p
    } else if !(0 <= p && is_tok(ts, p + 1, SpecToken::Colon)) {
        p + 1
    } else {
        match parse_type(ts, p + 2) {
            None => type_stop(ts, p + 2),
            Some((_, q)) => if adv(ts, p, q) {
                if is_tok(ts, q, SpecToken::Comma) {
                    named_types_stop(ts, q + 1, close)
                } else {
                    q
                }
            } else {
                p
            },
        }
    }
}

pub open spec fn effects_stop(ts: Seq<SpecToken>, p: int) -> int
    decreases ts.len() - p,
{
    match parse_path(ts, p) {
        None => p,
        Some((_, q)) => if adv(ts, p, q) {
            if is_tok(ts, q, SpecToken::Comma) {
                effects_stop(ts, q + 1)
            } else {
                q
            }
        } else {
            p
        },
    }
}

pub open spec fn expr_stop(ts: Seq<SpecToken>, p: int) -> int
    decreases ts.len() - p, 40int,
{
    match parse_binary(ts, p, 2) {
        None => binary_stop(ts, p, 2),
        Some((_, q)) => if adv(ts, p, q) {
            if is_tok(ts, q, SpecToken::StateShift) {
                match parse_expr(ts, q + 1) {
                    None => expr_stop(ts, q + 1),
                    Some((_, r)) => q,
                }
            } else {
                p
            }
        } else {
            p
        },
    }
}

pub open spec fn binary_stop(ts: Seq<SpecToken>, p: int, lvl: int) -> int
    decreases ts.len() - p, 39 - 2 * lvl,
{
    if !(2 <= lvl <= 5) {
        p
    } else {
        let operand = if lvl == 5 {
            parse_postfix(ts, p)
        } else {
            parse_binary(ts, p, lvl + 1)
        };
        match operand {
            None => if lvl == 5 {
                postfix_stop(ts, p)
            } else {
                binary_stop(ts, p, lvl + 1)
            },
            Some((_, q)) => if adv(ts, p, q) {
                left_rest_stop(ts, q, lvl)
            } else {
                p
            },
        }
    }
}

pub open spec fn left_rest_stop(ts: Seq<SpecToken>, q: int, lvl: int) -> int
    decreases ts.len() - q, 38 - 2 * lvl,
{
    if !(2 <= lvl <= 5 && 0 <= q <= ts.len()) {
        q
    } else {
        match binop_at(ts, q, lvl) {
            Some(_) => {
                let operand = if lvl == 5 {
                    parse_postfix(ts, q + 1)
                } else {
                    parse_binary(ts, q + 1, lvl + 1)
                };
                match operand {
                    None => if lvl == 5 {
                        postfix_stop(ts, q + 1)
                    } else {
                        binary_stop(ts, q + 1, lvl + 1)
                    },
                    Some((_, r)) => if adv(ts, q, r) {
                        left_rest_stop(ts, r, lvl)
                    } else {
                        q
                    },
                }
            },
            None => q,
        }
    }
}

pub open spec fn postfix_stop(ts: Seq<SpecToken>, p: int) -> int
    decreases ts.len() - p, 20int,
{
    match parse_atom(ts, p) {
        None => atom_stop(ts, p),
        Some(_) => p,
    }
}

pub open spec fn atom_stop(ts: Seq<SpecToken>, p: int) -> int
    decreases ts.len() - p, 18int,
{
    if !(0 <= p < ts.len()) {
        p
    } else {
        match ts[p] {
            SpecToken::Ident(_) => if is_tok(ts, p + 1, SpecToken::LParen) && !is_tok(
                ts,
                p + 2,
                SpecToken::RParen,
            ) {
                args_stop(ts, p + 2)
            } else {
                p
            },
            SpecToken::LParen => match parse_expr(ts, p + 1) {
                None => expr_stop(ts, p + 1),
                Some((_, q)) => q,
            },
            SpecToken::LBracket => if is_tok(ts, p + 1, SpecToken::RBracket) {
                p
            } else {
                items_stop(ts, p + 1)
            },
            SpecToken::KwMatch => match parse_expr(ts, p + 1) {
                None => expr_stop(ts, p + 1),
                Some((_, q)) => if adv(ts, p, q) && is_tok(ts, q, SpecToken::LBrace) {
                    arms_stop(ts, q + 1)
                } else {
                    q
                },
            },
            SpecToken::Int(_) | SpecToken::Float(_) | SpecToken::Str(_) => p,
            _ => p,
        }
    }
}

pub open spec fn args_stop(ts: Seq<SpecToken>, p: int) -> int
    decreases ts.len() - p, 50int,
{
    match parse_arg(ts, p) {
        None => arg_stop(ts, p),
        Some((_, q)) => if adv(ts, p, q) {
            if is_tok(ts, q, SpecToken::Comma) {
                args_stop(ts, q + 1)
            } else {
                q
            }
        } else {
            p
        },
    }
}

pub open spec fn arg_stop(ts: Seq<SpecToken>, p: int) -> int
    decreases ts.len() - p, 45int,
{
    if 0 <= p && ident_at(ts, p) is Some && is_tok(ts, p + 1, SpecToken::Colon) {
        expr_stop(ts, p + 2)
    } else {
        expr_stop(ts, p)
    }
}

pub open spec fn items_stop(ts: Seq<SpecToken>, p: int) -> int
    decreases ts.len() - p, 50int,
{
    match parse_expr(ts, p) {
        None => expr_stop(ts, p),
        Some((_, q)) => if adv(ts, p, q) {
            if is_tok(ts, q, SpecToken::Comma) {
                items_stop(ts, q + 1)
            } else {
                q
            }
        } else {
            p
        },
    }
}

pub open spec fn arms_stop(ts: Seq<SpecToken>, p: int) -> int
    decreases ts.len() - p, 60int,
{
    if !(0 <= p < ts.len()) {
        p
    } else if is_tok(ts, p, SpecToken::RBrace) {
        p
    } else {
        match parse_arm(ts, p) {
            None => arm_stop(ts, p),
            Some((_, q)) => if adv(ts, p, q) {
                arms_stop(ts, q)
            } else {
                p
            },
        }
    }
}

pub open spec fn arm_stop(ts: Seq<SpecToken>, p: int) -> int
    decreases ts.len() - p, 55int,
{
    let pat: Option<int> = if is_tok(ts, p, SpecToken::Underscore) {
        Some(p + 1)
    } else {
        match parse_path(ts, p) {
            Some((_, q)) => Some(q),
            None => None,
        }
    };
    match pat {
        None => p,
        Some(q) => if adv(ts, p, q) && is_tok(ts, q, SpecToken::Arrow) {
            if is_tok(ts, q + 1, SpecToken::LBrace) {
                block_stop(ts, q + 1)
            } else {
                stmt_stop(ts, q + 1)
            }
        } else {
            q
        },
    }
}

pub open spec fn block_stop(ts: Seq<SpecToken>, p: int) -> int
    decreases ts.len() - p, 70int,
{
    if 0 <= p && is_tok(ts, p, SpecToken::LBrace) {
        stmts_stop(ts, p + 1)
    } else {
        p
    }
}

pub open spec fn stmts_stop(ts: Seq<SpecToken>, p: int) -> int
    decreases ts.len() - p, 66int,
{
    if !(0 <= p < ts.len()) {
        p
    } else if is_tok(ts, p, SpecToken::RBrace) {
        p
    } else {
        match parse_stmt(ts, p) {
            None => stmt_stop(ts, p),
            Some((_, q)) => if adv(ts, p, q) {
                stmts_stop(ts, q)
            } else {
                p
            },
        }
    }
}

pub open spec fn stmt_stop(ts: Seq<SpecToken>, p: int) -> int
    decreases ts.len() - p, 65int,
{
    if !(0 <= p < ts.len()) {
        p
    } else if is_tok(ts, p, SpecToken::KwIf) {
        match parse_expr(ts, p + 1) {
            None => expr_stop(ts, p + 1),
            Some((_, q)) => if adv(ts, p, q) {
                match parse_block(ts, q) {
                    None => block_stop(ts, q),
                    Some((_, r)) => if adv(ts, q, r) {
                        if is_tok(ts, r, SpecToken::KwElse) {
                            block_stop(ts, r + 1)
                        } else {
                            p
                        }
                    } else {
                        q
                    },
                }
            } else {
                p
            },
        }
    } else if ident_at(ts, p) is Some && is_tok(ts, p + 1, SpecToken::Assign) {
        expr_stop(ts, p + 2)
    } else {
        expr_stop(ts, p)
    }
}

pub open spec fn idents_stop(ts: Seq<SpecToken>, p: int, sep: SpecToken, close: SpecToken) -> int
    decreases ts.len() - p,
{
    if ident_at(ts, p) is None {
        p
    } else if 0 <= p && is_tok(ts, p + 1, sep) {
        idents_stop(ts, p + 2, sep, close)
    } else {
        p + 1
    }
}

pub open spec fn field_stop(ts: Seq<SpecToken>, p: int) -> int {
    if ident_at(ts, p) is None {
        p
    } else if 0 <= p && is_tok(ts, p + 1, SpecToken::Colon) {
        match parse_type(ts, p + 2) {
            None => type_stop(ts, p + 2),
            Some((_, q)) => if adv(ts, p, q) && is_tok(ts, q, SpecToken::Assign) {
                expr_stop(ts, q + 1)
            } else {
                q
            },
        }
    } else if 0 <= p && is_tok(ts, p + 1, SpecToken::Assign) {
        expr_stop(ts, p + 2)
    } else {
        p + 1
    }
}

pub open spec fn fields_stop(ts: Seq<SpecToken>, p: int) -> int
    decreases ts.len() - p,
{
    if 0 <= p && ident_at(ts, p) is Some {
        match parse_field(ts, p) {
            None => field_stop(ts, p),
            Some((_, q)) => if adv(ts, p, q) {
                fields_stop(ts, q)
            } else {
                p
            },
        }
    } else {
        p
    }
}

pub open spec fn handler_stop(ts: Seq<SpecToken>, p: int) -> int {
    if !(0 <= p && is_tok(ts, p, SpecToken::KwOn)) {
        p
    } else {
        match parse_path(ts, p + 1) {
            None => p + 1,
            Some((_, q)) => if adv(ts, p, q) {
                let q2 = if ident_at(ts, q) is Some {
                    q + 1
                } else {
                    q
                };
                if is_tok(ts, q2, SpecToken::Arrow) {
                    match parse_type(ts, q2 + 1) {
                        None => type_stop(ts, q2 + 1),
                        Some((_, r)) => block_stop(ts, r),
                    }
                } else {
                    block_stop(ts, q2)
                }
            } else {
                p
            },
        }
    }
}

pub open spec fn handlers_stop(ts: Seq<SpecToken>, p: int) -> int
    decreases ts.len() - p,
{
    if 0 <= p && is_tok(ts, p, SpecToken::KwOn) {
        match parse_handler(ts, p) {
            None => handler_stop(ts, p),
            Some((_, q)) => if adv(ts, p, q) {
                handlers_stop(ts, q)
            } else {
                p
            },
        }
    } else {
        p
    }
}

pub open spec fn facet_stop(ts: Seq<SpecToken>, p: int) -> int {
    if !(0 <= p && is_word(ts, p, w_facet())) {
        p
    } else if ident_at(ts, p + 1) is None {
        p + 1
    } else if !is_tok(ts, p + 2, SpecToken::LBrace) {
        p + 2
    } else {
        let q = p + 3;
        let st: Option<(Seq<SpecStateField>, int)> = if is_section(ts, q, w_state()) {
            parse_fields(ts, q + 1)
        } else {
            Some((Seq::empty(), q))
        };
        match st {
            None => fields_stop(ts, q + 1),
            Some((_, q1)) => {
                let hs: Option<(Seq<SpecHandler>, int)> = if is_section(ts, q1, w_handlers()) {
                    parse_handlers(ts, q1 + 1)
                } else {
                    Some((Seq::empty(), q1))
                };
                match hs {
                    None => handlers_stop(ts, q1 + 1),
                    Some((_, q2)) => q2,
                }
            },
        }
    }
}

pub open spec fn spines_stop(ts: Seq<SpecToken>, p: int) -> int
    decreases ts.len() - p,
{
    if 0 <= p && ident_at(ts, p) is Some {
        if is_tok(ts, p + 1, SpecToken::Colon) {
            match parse_path(ts, p + 2) {
                None => p + 2,
                Some((_, q)) => if adv(ts, p, q) {
                    spines_stop(ts, q)
                } else {
                    p
                },
            }
        } else {
            p + 1
        }
    } else {
        p
    }
}

pub open spec fn instances_stop(ts: Seq<SpecToken>, p: int) -> int
    decreases ts.len() - p,
{
    if 0 <= p && ident_at(ts, p) is Some {
        if is_tok(ts, p + 1, SpecToken::LParen) {
            let args: Option<(Seq<Name>, int)> = if is_tok(ts, p + 2, SpecToken::RParen) {
                Some((Seq::empty(), p + 3))
            } else {
                parse_idents(ts, p + 2, SpecToken::Comma, SpecToken::RParen)
            };
            match args {
                None => idents_stop(ts, p + 2, SpecToken::Comma, SpecToken::RParen),
                Some((_, q)) => if adv(ts, p, q) {
                    instances_stop(ts, q)
                } else {
                    p
                },
            }
        } else {
            p + 1
        }
    } else {
        p
    }
}

pub open spec fn mode_stop(ts: Seq<SpecToken>, p: int) -> int {
    if is_word(ts, p, w_parallel()) || is_word(ts, p, w_async()) {
        p
    } else if is_word(ts, p, w_sequence()) && is_tok(ts, p + 1, SpecToken::LParen) {
        idents_stop(ts, p + 2, SpecToken::Arrow, SpecToken::RParen)
    } else {
        p
    }
}

pub open spec fn dispatches_stop(ts: Seq<SpecToken>, p: int) -> int
    decreases ts.len() - p,
{
    if 0 <= p && is_tok(ts, p, SpecToken::KwOn) {
        if ident_at(ts, p + 1) is None {
            p + 1
        } else if !is_tok(ts, p + 2, SpecToken::Dot) {
            p + 2
        } else if ident_at(ts, p + 3) is None {
            p + 3
        } else {
            match parse_mode(ts, p + 4) {
                None => mode_stop(ts, p + 4),
                Some((_, q)) => if adv(ts, p, q) {
                    dispatches_stop(ts, q)
                } else {
                    p
                },
            }
        }
    } else {
        p
    }
}

pub open spec fn scheme_stop(ts: Seq<SpecToken>, p: int) -> int {
    if !(0 <= p && is_word(ts, p, w_scheme())) {
        p
    } else if ident_at(ts, p + 1) is None {
        p + 1
    } else if is_tok(ts, p + 2, SpecToken::At) && ident_at(ts, p + 3) is None {
        p + 3
    } else {
        let q = if is_tok(ts, p + 2, SpecToken::At) {
            p + 4
        } else {
            p + 2
        };
        if !is_tok(ts, q, SpecToken::LBrace) {
            q
        } else {
            let sp: Option<(Seq<SpecSpine>, int)> = if is_section(ts, q + 1, w_io()) {
                parse_spines(ts, q + 2)
            } else {
                Some((Seq::empty(), q + 1))
            };
            match sp {
                None => spines_stop(ts, q + 2),
                Some((_, q1)) => {
                    let ins: Option<(Seq<SpecInstance>, int)> = if is_section(ts, q1, w_facets()) {
                        parse_instances(ts, q1 + 1)
                    } else {
                        Some((Seq::empty(), q1))
                    };
                    match ins {
                        None => instances_stop(ts, q1 + 1),
                        Some((_, q2)) => {
                            let ds: Option<(Seq<SpecDispatch>, int)> = if is_section(
                                ts,
                                q2,
                                w_dispatch_scripts(),
                            ) {
                                parse_dispatches(ts, q2 + 1)
                            } else {
                                Some((Seq::empty(), q2))
                            };
                            match ds {
                                None => dispatches_stop(ts, q2 + 1),
                                Some((_, q3)) => q3,
                            }
                        },
                    }
                },
            }
        }
    }
}

pub open spec fn entries_stop(ts: Seq<SpecToken>, p: int) -> int
    decreases ts.len() - p,
{
    if 0 <= p && (is_word(ts, p, w_event()) || is_word(ts, p, w_method())) {
        if ident_at(ts, p + 1) is None {
            p + 1
        } else if !is_tok(ts, p + 2, SpecToken::Colon) {
            p + 2
        } else {
            match parse_type(ts, p + 3) {
                None => type_stop(ts, p + 3),
                Some((_, q)) => if adv(ts, p, q) {
                    entries_stop(ts, q)
                } else {
                    p
                },
            }
        }
    } else {
        p
    }
}

pub open spec fn requests_stop(ts: Seq<SpecToken>, p: int) -> int
    decreases ts.len() - p,
{
    if 0 <= p && ident_at(ts, p) is Some {
        if is_tok(ts, p + 1, SpecToken::LParen) {
            let params: Option<(Seq<(Name, SpecType)>, int)> = if is_tok(ts, p + 2, SpecToken::RParen) {
                Some((Seq::empty(), p + 3))
            } else {
                parse_named_types(ts, p + 2, SpecToken::RParen)
            };
            match params {
                None => named_types_stop(ts, p + 2, SpecToken::RParen),
                Some((_, q)) => if adv(ts, p, q) && is_tok(ts, q, SpecToken::Arrow) {
                    match parse_type(ts, q + 1) {
                        None => type_stop(ts, q + 1),
                        Some((_, r)) => if adv(ts, q, r) {
                            requests_stop(ts, r)
                        } else {
                            q
                        },
                    }
                } else {
                    q
                },
            }
        } else {
            p + 1
        }
    } else {
        p
    }
}

pub open spec fn aliases_stop(ts: Seq<SpecToken>, p: int) -> int
    decreases ts.len() - p,
{
    if 0 <= p && ident_at(ts, p) is Some {
        if is_tok(ts, p + 1, SpecToken::Colon) {
            match parse_type(ts, p + 2) {
                None => type_stop(ts, p + 2),
                Some((_, q)) => if adv(ts, p, q) {
                    aliases_stop(ts, q)
                } else {
                    p
                },
            }
        } else {
            p + 1
        }
    } else {
        p
    }
}

pub open spec fn conns_stop(ts: Seq<SpecToken>, p: int) -> int
    decreases ts.len() - p,
{
    if 0 <= p && ident_at(ts, p) is Some {
        if is_tok(ts, p + 1, SpecToken::Assign) {
            match parse_expr(ts, p + 2) {
                None => expr_stop(ts, p + 2),
                Some((_, q)) => if adv(ts, p, q) {
                    conns_stop(ts, q)
                } else {
                    p
                },
            }
        } else {
            p + 1
        }
    } else {
        p
    }
}

pub open spec fn io_stop(ts: Seq<SpecToken>, p: int) -> int {
    if !(0 <= p && is_word(ts, p, w_io())) {
        p
    } else if ident_at(ts, p + 1) is None {
        p + 1
    } else if !is_tok(ts, p + 2, SpecToken::LBrace) {
        p + 2
    } else {
        let q = p + 3;
        let ifc: Option<(Seq<SpecIoEntry>, int)> = if is_section(ts, q, w_interface()) {
            parse_entries(ts, q + 1)
        } else {
            Some((Seq::empty(), q))
        };
        match ifc {
            None => entries_stop(ts, q + 1),
            Some((_, q1)) => {
                let req: Option<(Seq<SpecIoEntry>, int)> = if is_section(ts, q1, w_requests()) {
                    parse_requests(ts, q1 + 1)
                } else {
                    Some((Seq::empty(), q1))
                };
                match req {
                    None => requests_stop(ts, q1 + 1),
                    Some((_, q2)) => {
                        let al: Option<(Seq<SpecTypeAlias>, int)> = if is_section(
                            ts,
                            q2,
                            w_api_contracts(),
                        ) {
                            parse_aliases(ts, q2 + 1)
                        } else {
                            Some((Seq::empty(), q2))
                        };
                        match al {
                            None => aliases_stop(ts, q2 + 1),
                            Some((_, q3)) => {
                                let cs: Option<(Seq<SpecConnHandler>, int)> = if is_section(
                                    ts,
                                    q3,
                                    w_connection_handlers(),
                                ) {
                                    parse_conns(ts, q3 + 1)
                                } else {
                                    Some((Seq::empty(), q3))
                                };
                                match cs {
                                    None => conns_stop(ts, q3 + 1),
                                    Some((_, q4)) => q4,
                                }
                            },
                        }
                    },
                }
            },
        }
    }
}

pub open spec fn decl_stop(ts: Seq<SpecToken>, p: int) -> int {
    if is_word(ts, p, w_facet()) {
        facet_stop(ts, p)
    } else if is_word(ts, p, w_scheme()) {
        scheme_stop(ts, p)
    } else if is_word(ts, p, w_io()) {
        io_stop(ts, p)
    } else {
        p
    }
}

/// The token position at which reading a module from `p` stops, where
/// the tokens from `p` on are no module.
pub open spec fn module_stop(ts: Seq<SpecToken>, p: int) -> int
    decreases ts.len() - p,
{
    if !(0 <= p < ts.len()) {
        p
    } else {
        match parse_decl(ts, p) {
            None => decl_stop(ts, p),
            Some((_, q)) => if adv(ts, p, q) {
                module_stop(ts, q)
            } else {
                p
            },
        }
    }
}

// =====================================================================
// Executable parser.

/// Tokens that carry no text or number.
pub open spec fn simple(t: SpecToken) -> bool {
    !(t is Ident || t is Int || t is Float || t is Str || t is Section)
}

fn same_simple(a: &Token, b: &Token) -> (r: bool)
    requires
        simple(b@),
    ensures
        r == (a@ == b@),
{
    match b {
        Token::KwOn => matches!(a, Token::KwOn),
        Token::KwIf => matches!(a, Token::KwIf),
        Token::KwElse => matches!(a, Token::KwElse),
        Token::KwMatch => matches!(a, Token::KwMatch),
        Token::Tilde => matches!(a, Token::Tilde),
        Token::Colon => matches!(a, Token::Colon),
        Token::LBrace => matches!(a, Token::LBrace),
        Token::RBrace => matches!(a, Token::RBrace),
        Token::LParen => matches!(a, Token::LParen),
        Token::RParen => matches!(a, Token::RParen),
        Token::LBracket => matches!(a, Token::LBracket),
        Token::RBracket => matches!(a, Token::RBracket),
        Token::Dot => matches!(a, Token::Dot),
        Token::Comma => matches!(a, Token::Comma),
        Token::At => matches!(a, Token::At),
        Token::Underscore => matches!(a, Token::Underscore),
        Token::Arrow => matches!(a, Token::Arrow),
        Token::StateShift => matches!(a, Token::StateShift),
        Token::Pipe => matches!(a, Token::Pipe),
        Token::Plus => matches!(a, Token::Plus),
        Token::Minus => matches!(a, Token::Minus),
        Token::Star => matches!(a, Token::Star),
        Token::Slash => matches!(a, Token::Slash),
        Token::Lt => matches!(a, Token::Lt),
        Token::Gt => matches!(a, Token::Gt),
        Token::EqEq => matches!(a, Token::EqEq),
        Token::Assign => matches!(a, Token::Assign),
        _ => false,
    }
}

type Toks = Vec<(Token, Span)>;

fn at(ts: &Toks, p: usize, k: &Token) -> (r: bool)
    requires
        simple(k@),
    ensures
        r == is_tok(toks(ts@), p as int, k@),
        r ==> p < ts.len(),
{
    p < ts.len() && same_simple(&ts[p].0, k)
}

fn ident_ref(ts: &Toks, p: usize) -> (r: Option<&String>)
    ensures
        match r {
            Some(s) => ident_at(toks(ts@), p as int) == Some(s@) && p < ts.len(),
            None => ident_at(toks(ts@), p as int) is None,
        },
{
    if p < ts.len() {
        match &ts[p].0 {
            Token::Ident(s) => Some(s),
            _ => None,
        }
    } else {
        None
    }
}

fn word_at(ts: &Toks, p: usize, w: &[char]) -> (r: bool)
    ensures
        r == is_word(toks(ts@), p as int, w@),
        r ==> p < ts.len(),
{
    match ident_ref(ts, p) {
        Some(s) => string_is(s, w),
        None => false,
    }
}

fn section_at(ts: &Toks, p: usize, w: &[char]) -> (r: bool)
    ensures
        r == is_section(toks(ts@), p as int, w@),
        r ==> p < ts.len(),
{
    if p < ts.len() {
        match &ts[p].0 {
            Token::Section(s) => string_is(s, w),
            _ => false,
        }
    } else {
        false
    }
}

/// `ident ('.' ident)*`
fn read_path(ts: &Toks, p: usize) -> (r: Result<(Vec<String>, usize), usize>)
    requires
        p <= ts.len(),
    ensures
        match r {
            Ok((v, q)) => parse_path(toks(ts@), p as int) == Some((names_view(v@), q as int)) && q
                <= ts.len(),
            Err(e) => parse_path(toks(ts@), p as int) is None && e <= ts.len() && e == path_stop(toks(ts@), p as int),
        },
{
    let ghost t = toks(ts@);
    let first = match ident_ref(ts, p) {
        Some(s) => s.clone(),
        None => return Err(p),
    };
    let mut out: Vec<String> = Vec::new();
    out.push(first);
    let mut q = p + 1;
    assert(names_view(out@) == seq![ident_at(t, p as int)->0]);
    loop
        invariant
            p < q <= ts.len(),
            t == toks(ts@),
            ident_at(t, p as int) is Some,
            parse_path(t, p as int) == ({
                let (rest, e) = parse_path_tail(t, q as int);
                Some((names_view(out@) + rest, e))
            }),
        decreases ts.len() - q,
    {
        if at(ts, q, &Token::Dot) {
            match ident_ref(ts, q + 1) {
                Some(s) => {
                    let ghost old_out = out@;
                    out.push(s.clone());
                    proof {
                        let (rest, e) = parse_path_tail(t, q + 2);
                        assert(names_view(out@) == names_view(old_out).push(s@));
                        assert(names_view(old_out) + (seq![s@] + rest) == names_view(out@) + rest);
                    }
                    q = q + 2;
                },
                None => {
                    assert(names_view(out@) + Seq::<Name>::empty() == names_view(out@));
                    return Ok((out, q));
                },
            }
        } else {
            assert(names_view(out@) + Seq::<Name>::empty() == names_view(out@));
            return Ok((out, q));
        }
    }
}

fn read_type(ts: &Toks, p: usize) -> (r: Result<(TypeExpr, usize), usize>)
    requires
        p <= ts.len(),
    ensures
        match r {
            Ok((t, q)) => parse_type(toks(ts@), p as int) == Some((t@, q as int)) && q <= ts.len(),
            Err(e) => parse_type(toks(ts@), p as int) is None && e <= ts.len() && e == type_stop(toks(ts@), p as int),
        },
    decreases ts.len() - p, 2int,
{
    let (t, q) = read_type_atom(ts, p)?;
    if !(p < q && q <= ts.len()) {
        return Err(p);
    }
    if at(ts, q, &Token::Arrow) {
        let (to, r) = read_type(ts, q + 1)?;
        if !(q < r && r <= ts.len()) {
            return Err(q);
        }
        if at(ts, r, &Token::Slash) && at(ts, r + 1, &Token::LBrace) {
            let (effects, e) = read_effects(ts, r + 2)?;
            Ok((TypeExpr::Function { from: Box::new(t), to: Box::new(to), effects }, e))
        } else {
            let effects: Vec<Vec<String>> = Vec::new();
            assert(paths_view(effects@) =~= Seq::<Seq<Name>>::empty());
            Ok((TypeExpr::Function { from: Box::new(t), to: Box::new(to), effects }, r))
        }
    } else {
        Ok((t, q))
    }
}

fn read_type_atom(ts: &Toks, p: usize) -> (r: Result<(TypeExpr, usize), usize>)
    requires
        p <= ts.len(),
    ensures
        match r {
            Ok((t, q)) => parse_type_atom(toks(ts@), p as int) == Some((t@, q as int)) && q
                <= ts.len(),
            Err(e) => parse_type_atom(toks(ts@), p as int) is None && e <= ts.len() && e == type_atom_stop(toks(ts@), p as int),
        },
    decreases ts.len() - p, 1int,
{
    if p >= ts.len() {
        return Err(p);
    }
    if ident_ref(ts, p).is_some() {
        let (path, q) = read_path(ts, p)?;
        Ok((TypeExpr::Path(path), q))
    } else if at(ts, p, &Token::LBracket) {
        let (t, q) = read_type(ts, p + 1)?;
        if p < q && at(ts, q, &Token::RBracket) {
            Ok((TypeExpr::List(Box::new(t)), q + 1))
        } else {
            Err(q)
        }
    } else if at(ts, p, &Token::LBrace) {
        if at(ts, p + 1, &Token::RBrace) {
            let fields: Vec<RecordField> = Vec::new();
            let r = TypeExpr::Record(fields);
            assert(r@->Record_0 =~= Seq::<(Name, SpecType)>::empty());
            Ok((r, p + 2))
        } else {
            let (fields, q) = read_named_types(ts, p + 1, Token::RBrace)?;
            let r = TypeExpr::Record(fields);
            assert(r@->Record_0 =~= named_types_view(fields@));
            Ok((r, q))
        }
    } else if at(ts, p, &Token::LParen) {
        let (t, q) = read_type(ts, p + 1)?;
        if p < q && at(ts, q, &Token::RParen) {
            Ok((t, q + 1))
        } else {
            Err(q)
        }
    } else {
        Err(p)
    }
}

pub open spec fn named_types_view(v: Seq<RecordField>) -> Seq<(Name, SpecType)> {
    v.map_values(|f: RecordField| (f.name@, type_view(&f.ty)))
}

/// `ident ':' type (',' ident ':' type)* close`
fn read_named_types(ts: &Toks, p: usize, close: Token) -> (r: Result<(Vec<RecordField>, usize), usize>)
    requires
        p <= ts.len(),
        simple(close@),
    ensures
        match r {
            Ok((v, q)) => parse_named_types(toks(ts@), p as int, close@) == Some(
                (named_types_view(v@), q as int),
            ) && q <= ts.len(),
            Err(e) => parse_named_types(toks(ts@), p as int, close@) is None && e <= ts.len() && e == named_types_stop(toks(ts@), p as int, close@),
        },
    decreases ts.len() - p, 0int,
{
    let ghost t = toks(ts@);
    let ghost p0 = p;
    let mut out: Vec<RecordField> = Vec::new();
    let mut pos = p;
    loop
        invariant
            p0 <= pos <= ts.len(),
            p0 == p,
            t == toks(ts@),
            simple(close@),
            named_types_stop(t, p0 as int, close@) == named_types_stop(t, pos as int, close@),
            parse_named_types(t, p0 as int, close@) == match parse_named_types(t, pos as int, close@) {
                Some((rest, e)) => Some((named_types_view(out@) + rest, e)),
                None => None,
            },
        decreases ts.len() - pos,
    {
        let name = match ident_ref(ts, pos) {
            Some(s) => s.clone(),
            None => return Err(pos),
        };
        if !at(ts, pos + 1, &Token::Colon) {
            return Err(pos + 1);
        }
        let (ty, q) = read_type(ts, pos + 2)?;
        if !(pos < q && q <= ts.len()) {
            return Err(pos);
        }
        let ghost old_out = out@;
        let ghost fv = (name@, ty@);
        out.push(RecordField { name, ty });
        assert(named_types_view(out@) == named_types_view(old_out).push(fv));
        if at(ts, q, &Token::Comma) {
            proof {
                match parse_named_types(t, q + 1, close@) {
                    Some((rest, e)) => {
                        assert(named_types_view(old_out) + (seq![fv] + rest) == named_types_view(
                            out@,
                        ) + rest);
                    },
                    None => {},
                }
            }
            pos = q + 1;
        } else if at(ts, q, &close) {
            assert(named_types_view(old_out) + seq![fv] == named_types_view(out@));
            return Ok((out, q + 1));
        } else {
            return Err(q);
        }
    }
}

fn read_effects(ts: &Toks, p: usize) -> (r: Result<(Vec<Vec<String>>, usize), usize>)
    requires
        p <= ts.len(),
    ensures
        match r {
            Ok((v, q)) => parse_effects(toks(ts@), p as int) == Some((paths_view(v@), q as int))
                && q <= ts.len(),
            Err(e) => parse_effects(toks(ts@), p as int) is None && e <= ts.len() && e == effects_stop(toks(ts@), p as int),
        },
{
    let ghost t = toks(ts@);
    let ghost p0 = p;
    let mut out: Vec<Vec<String>> = Vec::new();
    let mut pos = p;
    loop
        invariant
            p0 <= pos <= ts.len(),
            p0 == p,
            t == toks(ts@),
            effects_stop(t, p0 as int) == effects_stop(t, pos as int),
            parse_effects(t, p0 as int) == match parse_effects(t, pos as int) {
                Some((rest, e)) => Some((paths_view(out@) + rest, e)),
                None => None,
            },
        decreases ts.len() - pos,
    {
        let (path, q) = read_path(ts, pos)?;
        if !(pos < q && q <= ts.len()) {
            return Err(pos);
        }
        let ghost old_out = out@;
        let ghost pv = names_view(path@);
        out.push(path);
        assert(paths_view(out@) == paths_view(old_out).push(pv));
        if at(ts, q, &Token::Comma) {
            proof {
                match parse_effects(t, q + 1) {
                    Some((rest, e)) => {
                        assert(paths_view(old_out) + (seq![pv] + rest) == paths_view(out@) + rest);
                    },
                    None => {},
                }
            }
            pos = q + 1;
        } else if at(ts, q, &Token::RBrace) {
            assert(paths_view(old_out) + seq![pv] == paths_view(out@));
            return Ok((out, q + 1));
        } else {
            return Err(q);
        }
    }
}


fn binop_exec(ts: &Toks, p: usize, lvl: usize) -> (r: Option<BinOp>)
    ensures
        r == binop_at(toks(ts@), p as int, lvl as int),
        r is Some ==> p < ts.len(),
{
    if p >= ts.len() {
        return None;
    }
    match &ts[p].0 {
        Token::Pipe => if lvl == 2 { Some(BinOp::Pipe) } else { None },
        Token::Lt => if lvl == 3 { Some(BinOp::Lt) } else { None },
        Token::Gt => if lvl == 3 { Some(BinOp::Gt) } else { None },
        Token::EqEq => if lvl == 3 { Some(BinOp::Eq) } else { None },
        Token::Plus => if lvl == 4 { Some(BinOp::Add) } else { None },
        Token::Minus => if lvl == 4 { Some(BinOp::Sub) } else { None },
        Token::Star => if lvl == 5 { Some(BinOp::Mul) } else { None },
        Token::Slash => if lvl == 5 { Some(BinOp::Div) } else { None },
        _ => None,
    }
}

fn read_expr(ts: &Toks, p: usize) -> (r: Result<(Expr, usize), usize>)
    requires
        p <= ts.len(),
    ensures
        match r {
            Ok((e, q)) => parse_expr(toks(ts@), p as int) == Some((e@, q as int)) && q <= ts.len(),
            Err(e) => parse_expr(toks(ts@), p as int) is None && e <= ts.len() && e == expr_stop(toks(ts@), p as int),
        },
    decreases ts.len() - p, 40int,
{
    let (lhs, q) = read_binary(ts, p, 2)?;
    if !(p < q && q <= ts.len()) {
        return Err(p);
    }
    if at(ts, q, &Token::StateShift) {
        let (rhs, r) = read_expr(ts, q + 1)?;
        if !(q < r && r <= ts.len()) {
            return Err(q);
        }
        Ok((Expr::Binary(BinOp::StateShift, Box::new(lhs), Box::new(rhs)), r))
    } else {
        Ok((lhs, q))
    }
}

fn read_binary(ts: &Toks, p: usize, lvl: usize) -> (r: Result<(Expr, usize), usize>)
    requires
        p <= ts.len(),
        2 <= lvl <= 5,
    ensures
        match r {
            Ok((e, q)) => parse_binary(toks(ts@), p as int, lvl as int) == Some((e@, q as int)) && q
                <= ts.len(),
            Err(e) => parse_binary(toks(ts@), p as int, lvl as int) is None && e <= ts.len() && e == binary_stop(toks(ts@), p as int, lvl as int),
        },
    decreases ts.len() - p, 39 - 2 * lvl,
{
    let ghost t = toks(ts@);
    let (first, q0) = if lvl == 5 {
        read_postfix(ts, p)?
    } else {
        read_binary(ts, p, lvl + 1)?
    };
    if !(p < q0 && q0 <= ts.len()) {
        return Err(p);
    }
    let mut lhs = first;
    let mut q = q0;
    loop
        invariant
            p < q <= ts.len(),
            2 <= lvl <= 5,
            t == toks(ts@),
            parse_binary(t, p as int, lvl as int) == parse_left_rest(t, lhs@, q as int, lvl as int),
            binary_stop(t, p as int, lvl as int) == left_rest_stop(t, q as int, lvl as int),
        decreases ts.len() - q,
    {
        match binop_exec(ts, q, lvl) {
            Some(op) => {
                let (rhs, r) = if lvl == 5 {
                    read_postfix(ts, q + 1)?
                } else {
                    read_binary(ts, q + 1, lvl + 1)?
                };
                if !(q < r && r <= ts.len()) {
                    return Err(q);
                }
                lhs = Expr::Binary(op, Box::new(lhs), Box::new(rhs));
                q = r;
            },
            None => {
                return Ok((lhs, q));
            },
        }
    }
}

fn read_postfix(ts: &Toks, p: usize) -> (r: Result<(Expr, usize), usize>)
    requires
        p <= ts.len(),
    ensures
        match r {
            Ok((e, q)) => parse_postfix(toks(ts@), p as int) == Some((e@, q as int)) && q <= ts.len(),
            Err(e) => parse_postfix(toks(ts@), p as int) is None && e <= ts.len() && e == postfix_stop(toks(ts@), p as int),
        },
    decreases ts.len() - p, 20int,
{
    let ghost t = toks(ts@);
    let (first, q0) = read_atom(ts, p)?;
    if !(p < q0 && q0 <= ts.len()) {
        return Err(p);
    }
    let mut e = first;
    let mut q = q0;
    loop
        invariant
            p < q <= ts.len(),
            t == toks(ts@),
            parse_postfix(t, p as int) == parse_postfix_rest(t, e@, q as int),
        decreases ts.len() - q,
    {
        if at(ts, q, &Token::Dot) {
            match ident_ref(ts, q + 1) {
                Some(f) => {
                    e = Expr::FieldAccess { object: Box::new(e), field: f.clone() };
                    q = q + 2;
                },
                None => {
                    return Ok((e, q));
                },
            }
        } else {
            return Ok((e, q));
        }
    }
}

fn read_atom(ts: &Toks, p: usize) -> (r: Result<(Expr, usize), usize>)
    requires
        p <= ts.len(),
    ensures
        match r {
            Ok((e, q)) => parse_atom(toks(ts@), p as int) == Some((e@, q as int)) && q <= ts.len(),
            Err(e) => parse_atom(toks(ts@), p as int) is None && e <= ts.len() && e == atom_stop(toks(ts@), p as int),
        },
    decreases ts.len() - p, 18int,
{
    if p >= ts.len() {
        return Err(p);
    }
    match &ts[p].0 {
        Token::Int(n) => Ok((Expr::Int(*n), p + 1)),
        Token::Float(x) => Ok((Expr::Float(x.clone()), p + 1)),
        Token::Str(x) => Ok((Expr::Str(x.clone()), p + 1)),
        Token::Ident(n) => {
            if at(ts, p + 1, &Token::LParen) {
                if at(ts, p + 2, &Token::RParen) {
                    let args: Vec<CallArg> = Vec::new();
                    let e = Expr::Call { callee: n.clone(), args };
                    assert(e@->Call_args =~= Seq::<SpecArg>::empty());
                    Ok((e, p + 3))
                } else {
                    let (args, q) = read_args(ts, p + 2)?;
                    let e = Expr::Call { callee: n.clone(), args };
                    assert(e@->Call_args =~= args_view(args@));
                    Ok((e, q))
                }
            } else {
                Ok((Expr::Ident(n.clone()), p + 1))
            }
        },
        Token::LParen => {
            let (e, q) = read_expr(ts, p + 1)?;
            if p < q && at(ts, q, &Token::RParen) {
                Ok((e, q + 1))
            } else {
                Err(q)
            }
        },
        Token::LBracket => {
            if at(ts, p + 1, &Token::RBracket) {
                let items: Vec<Expr> = Vec::new();
                let e = Expr::List(items);
                assert(e@->List_0 =~= Seq::<SpecExpr>::empty());
                Ok((e, p + 2))
            } else {
                let (items, q) = read_items(ts, p + 1)?;
                let e = Expr::List(items);
                assert(e@->List_0 =~= exprs_view(items@));
                Ok((e, q))
            }
        },
        Token::KwMatch => {
            let (scrutinee, q) = read_expr(ts, p + 1)?;
            if p < q && at(ts, q, &Token::LBrace) {
                let (arms, r) = read_arms(ts, q + 1)?;
                let e = Expr::Match { scrutinee: Box::new(scrutinee), arms };
                assert(e@->arms =~= arms_view(arms@));
                Ok((e, r))
            } else {
                Err(q)
            }
        },
        _ => Err(p),
    }
}

fn read_args(ts: &Toks, p: usize) -> (r: Result<(Vec<CallArg>, usize), usize>)
    requires
        p <= ts.len(),
    ensures
        match r {
            Ok((v, q)) => parse_args(toks(ts@), p as int) == Some(
                (args_view(v@), q as int),
            ) && q <= ts.len(),
            Err(e) => parse_args(toks(ts@), p as int) is None && e <= ts.len() && e == args_stop(toks(ts@), p as int),
        },
    decreases ts.len() - p, 50int,
{
    let ghost t = toks(ts@);
    let ghost p0 = p;
    let mut out: Vec<CallArg> = Vec::new();
    let ghost mut sacc: Seq<SpecArg> = Seq::empty();
    let mut pos = p;
    loop
        invariant
            p0 <= pos <= ts.len(),
            p0 == p,
            t == toks(ts@),
            out@.len() == sacc.len(),
            forall|i: int| 0 <= i < out@.len() ==> #[trigger] out@[i]@ == sacc[i],
            args_stop(t, p0 as int) == args_stop(t, pos as int),
            parse_args(t, p0 as int) == match parse_args(t, pos as int) {
                Some((rest, e)) => Some((sacc + rest, e)),
                None => None,
            },
        decreases ts.len() - pos,
    {
        let (a, q) = read_arg(ts, pos)?;
        if !(pos < q && q <= ts.len()) {
            return Err(pos);
        }
        let ghost av = a@;
        let ghost old_sacc = sacc;
        out.push(a);
        proof {
            sacc = sacc.push(av);
        }
        if at(ts, q, &Token::Comma) {
            proof {
                match parse_args(t, q + 1) {
                    Some((rest, e)) => {
                        assert(old_sacc + (seq![av] + rest) == sacc + rest);
                    },
                    None => {},
                }
            }
            pos = q + 1;
        } else if at(ts, q, &Token::RParen) {
            assert(old_sacc + seq![av] == sacc);
            assert(args_view(out@) =~= sacc);
            return Ok((out, q + 1));
        } else {
            return Err(q);
        }
    }
}

fn read_arg(ts: &Toks, p: usize) -> (r: Result<(CallArg, usize), usize>)
    requires
        p <= ts.len(),
    ensures
        match r {
            Ok((a, q)) => parse_arg(toks(ts@), p as int) == Some((a@, q as int)) && q <= ts.len(),
            Err(e) => parse_arg(toks(ts@), p as int) is None && e <= ts.len() && e == arg_stop(toks(ts@), p as int),
        },
    decreases ts.len() - p, 45int,
{
    match ident_ref(ts, p) {
        Some(n) => {
            if at(ts, p + 1, &Token::Colon) {
                let (v, q) = read_expr(ts, p + 2)?;
                return Ok((CallArg::Named { name: n.clone(), value: v }, q));
            }
        },
        None => {},
    }
    let (v, q) = read_expr(ts, p)?;
    Ok((CallArg::Positional(v), q))
}

fn read_items(ts: &Toks, p: usize) -> (r: Result<(Vec<Expr>, usize), usize>)
    requires
        p <= ts.len(),
    ensures
        match r {
            Ok((v, q)) => parse_items(toks(ts@), p as int) == Some(
                (exprs_view(v@), q as int),
            ) && q <= ts.len(),
            Err(e) => parse_items(toks(ts@), p as int) is None && e <= ts.len() && e == items_stop(toks(ts@), p as int),
        },
    decreases ts.len() - p, 50int,
{
    let ghost t = toks(ts@);
    let ghost p0 = p;
    let mut out: Vec<Expr> = Vec::new();
    let ghost mut sacc: Seq<SpecExpr> = Seq::empty();
    let mut pos = p;
    loop
        invariant
            p0 <= pos <= ts.len(),
            p0 == p,
            t == toks(ts@),
            out@.len() == sacc.len(),
            forall|i: int| 0 <= i < out@.len() ==> #[trigger] out@[i]@ == sacc[i],
            items_stop(t, p0 as int) == items_stop(t, pos as int),
            parse_items(t, p0 as int) == match parse_items(t, pos as int) {
                Some((rest, e)) => Some((sacc + rest, e)),
                None => None,
            },
        decreases ts.len() - pos,
    {
        let (x, q) = read_expr(ts, pos)?;
        if !(pos < q && q <= ts.len()) {
            return Err(pos);
        }
        let ghost xv = x@;
        let ghost old_sacc = sacc;
        out.push(x);
        proof {
            sacc = sacc.push(xv);
        }
        if at(ts, q, &Token::Comma) {
            proof {
                match parse_items(t, q + 1) {
                    Some((rest, e)) => {
                        assert(old_sacc + (seq![xv] + rest) == sacc + rest);
                    },
                    None => {},
                }
            }
            pos = q + 1;
        } else if at(ts, q, &Token::RBracket) {
            assert(old_sacc + seq![xv] == sacc);
            assert(exprs_view(out@) =~= sacc);
            return Ok((out, q + 1));
        } else {
            return Err(q);
        }
    }
}

fn read_arms(ts: &Toks, p: usize) -> (r: Result<(Vec<MatchArm>, usize), usize>)
    requires
        p <= ts.len(),
    ensures
        match r {
            Ok((v, q)) => parse_arms(toks(ts@), p as int) == Some(
                (arms_view(v@), q as int),
            ) && q <= ts.len(),
            Err(e) => parse_arms(toks(ts@), p as int) is None && e <= ts.len() && e == arms_stop(toks(ts@), p as int),
        },
    decreases ts.len() - p, 60int,
{
    let ghost t = toks(ts@);
    let ghost p0 = p;
    let mut out: Vec<MatchArm> = Vec::new();
    let ghost mut sacc: Seq<SpecArm> = Seq::empty();
    let mut pos = p;
    loop
        invariant
            p0 <= pos <= ts.len(),
            p0 == p,
            t == toks(ts@),
            out@.len() == sacc.len(),
            forall|i: int| 0 <= i < out@.len() ==> #[trigger] out@[i]@ == sacc[i],
            arms_stop(t, p0 as int) == arms_stop(t, pos as int),
            parse_arms(t, p0 as int) == match parse_arms(t, pos as int) {
                Some((rest, e)) => Some((sacc + rest, e)),
                None => None,
            },
        decreases ts.len() - pos,
    {
        if pos >= ts.len() {
            return Err(pos);
        }
        if at(ts, pos, &Token::RBrace) {
            assert(sacc + Seq::<SpecArm>::empty() == sacc);
            assert(arms_view(out@) =~= sacc);
            return Ok((out, pos + 1));
        }
        let (a, q) = read_arm(ts, pos)?;
        if !(pos < q && q <= ts.len()) {
            return Err(pos);
        }
        let ghost av = a@;
        let ghost old_sacc = sacc;
        out.push(a);
        proof {
            sacc = sacc.push(av);
            match parse_arms(t, q as int) {
                Some((rest, e)) => {
                    assert(old_sacc + (seq![av] + rest) == sacc + rest);
                },
                None => {},
            }
        }
        pos = q;
    }
}

fn read_arm(ts: &Toks, p: usize) -> (r: Result<(MatchArm, usize), usize>)
    requires
        p <= ts.len(),
    ensures
        match r {
            Ok((a, q)) => parse_arm(toks(ts@), p as int) == Some((a@, q as int)) && q <= ts.len(),
            Err(e) => parse_arm(toks(ts@), p as int) is None && e <= ts.len() && e == arm_stop(toks(ts@), p as int),
        },
    decreases ts.len() - p, 55int,
{
    let (pattern, q) = if at(ts, p, &Token::Underscore) {
        (Pattern::Wildcard, p + 1)
    } else {
        let (path, q) = read_path(ts, p)?;
        (Pattern::Constructor(path), q)
    };
    if !(p < q && q <= ts.len() && at(ts, q, &Token::Arrow)) {
        return Err(q);
    }
    if at(ts, q + 1, &Token::LBrace) {
        let (body, r) = read_block(ts, q + 1)?;
        Ok((MatchArm { pattern, body }, r))
    } else {
        let (st, r) = read_stmt(ts, q + 1)?;
        let ghost sv = st@;
        let mut body: Vec<Stmt> = Vec::new();
        body.push(st);
        let a = MatchArm { pattern, body };
        assert(a@.body =~= seq![sv]);
        Ok((a, r))
    }
}

fn read_block(ts: &Toks, p: usize) -> (r: Result<(Vec<Stmt>, usize), usize>)
    requires
        p <= ts.len(),
    ensures
        match r {
            Ok((v, q)) => parse_block(toks(ts@), p as int) == Some((stmts_view(&v), q as int)) && q
                <= ts.len(),
            Err(e) => parse_block(toks(ts@), p as int) is None && e <= ts.len() && e == block_stop(toks(ts@), p as int),
        },
    decreases ts.len() - p, 70int,
{
    if at(ts, p, &Token::LBrace) {
        read_stmts(ts, p + 1)
    } else {
        Err(p)
    }
}

fn read_stmts(ts: &Toks, p: usize) -> (r: Result<(Vec<Stmt>, usize), usize>)
    requires
        p <= ts.len(),
    ensures
        match r {
            Ok((v, q)) => parse_stmts(toks(ts@), p as int) == Some((stmts_view(&v), q as int)) && q
                <= ts.len(),
            Err(e) => parse_stmts(toks(ts@), p as int) is None && e <= ts.len() && e == stmts_stop(toks(ts@), p as int),
        },
    decreases ts.len() - p, 66int,
{
    let ghost t = toks(ts@);
    let ghost p0 = p;
    let mut out: Vec<Stmt> = Vec::new();
    let ghost mut sacc: Seq<SpecStmt> = Seq::empty();
    let mut pos = p;
    loop
        invariant
            p0 <= pos <= ts.len(),
            p0 == p,
            t == toks(ts@),
            out@.len() == sacc.len(),
            forall|i: int| 0 <= i < out@.len() ==> #[trigger] out@[i]@ == sacc[i],
            stmts_stop(t, p0 as int) == stmts_stop(t, pos as int),
            parse_stmts(t, p0 as int) == match parse_stmts(t, pos as int) {
                Some((rest, e)) => Some((sacc + rest, e)),
                None => None,
            },
        decreases ts.len() - pos,
    {
        if pos >= ts.len() {
            return Err(pos);
        }
        if at(ts, pos, &Token::RBrace) {
            assert(sacc + Seq::<SpecStmt>::empty() == sacc);
            assert forall|i: int| 0 <= i < sacc.len() implies stmts_view(&out)[i] == sacc[i] by {
                assert(out@[i]@ == sacc[i]);
            }
            assert(stmts_view(&out) =~= sacc);
            return Ok((out, pos + 1));
        }
        let (st, q) = read_stmt(ts, pos)?;
        if !(pos < q && q <= ts.len()) {
            return Err(pos);
        }
        let ghost sv = st@;
        let ghost old_sacc = sacc;
        out.push(st);
        proof {
            sacc = sacc.push(sv);
            match parse_stmts(t, q as int) {
                Some((rest, e)) => {
                    assert(old_sacc + (seq![sv] + rest) == sacc + rest);
                },
                None => {},
            }
        }
        pos = q;
    }
}

fn read_stmt(ts: &Toks, p: usize) -> (r: Result<(Stmt, usize), usize>)
    requires
        p <= ts.len(),
    ensures
        match r {
            Ok((st, q)) => parse_stmt(toks(ts@), p as int) == Some((st@, q as int)) && q <= ts.len(),
            Err(e) => parse_stmt(toks(ts@), p as int) is None && e <= ts.len() && e == stmt_stop(toks(ts@), p as int),
        },
    decreases ts.len() - p, 65int,
{
    if p >= ts.len() {
        return Err(p);
    }
    if at(ts, p, &Token::KwIf) {
        let (cond, q) = read_expr(ts, p + 1)?;
        if !(p < q && q <= ts.len()) {
            return Err(p);
        }
        let (then_body, r) = read_block(ts, q)?;
        if !(q < r && r <= ts.len()) {
            return Err(q);
        }
        if at(ts, r, &Token::KwElse) {
            let (else_body, e) = read_block(ts, r + 1)?;
            Ok((Stmt::If { cond, then_body, else_body: Some(else_body) }, e))
        } else {
            Ok((Stmt::If { cond, then_body, else_body: None }, r))
        }
    } else {
        match ident_ref(ts, p) {
            Some(n) => {
                if at(ts, p + 1, &Token::Assign) {
                    let (value, q) = read_expr(ts, p + 2)?;
                    return Ok((Stmt::Assign { name: n.clone(), value }, q));
                }
            },
            None => {},
        }
        let (e, q) = read_expr(ts, p)?;
        Ok((Stmt::ExprStmt(e), q))
    }
}


// Contextual words and section markers.

fn word_facet(ts: &Toks, p: usize) -> (r: bool)
    ensures
        r == is_word(toks(ts@), p as int, w_facet()),
        r ==> p < ts.len(),
{
    let w = ['f', 'a', 'c', 'e', 't'];
    assert(w@ =~= w_facet());
    word_at(ts, p, &w)
}

fn word_scheme(ts: &Toks, p: usize) -> (r: bool)
    ensures
        r == is_word(toks(ts@), p as int, w_scheme()),
        r ==> p < ts.len(),
{
    let w = ['s', 'c', 'h', 'e', 'm', 'e'];
    assert(w@ =~= w_scheme());
    word_at(ts, p, &w)
}

fn word_io(ts: &Toks, p: usize) -> (r: bool)
    ensures
        r == is_word(toks(ts@), p as int, w_io()),
        r ==> p < ts.len(),
{
    let w = ['i', 'o'];
    assert(w@ =~= w_io());
    word_at(ts, p, &w)
}

fn word_event(ts: &Toks, p: usize) -> (r: bool)
    ensures
        r == is_word(toks(ts@), p as int, w_event()),
        r ==> p < ts.len(),
{
    let w = ['e', 'v', 'e', 'n', 't'];
    assert(w@ =~= w_event());
    word_at(ts, p, &w)
}

fn word_method(ts: &Toks, p: usize) -> (r: bool)
    ensures
        r == is_word(toks(ts@), p as int, w_method()),
        r ==> p < ts.len(),
{
    let w = ['m', 'e', 't', 'h', 'o', 'd'];
    assert(w@ =~= w_method());
    word_at(ts, p, &w)
}

fn word_parallel(ts: &Toks, p: usize) -> (r: bool)
    ensures
        r == is_word(toks(ts@), p as int, w_parallel()),
        r ==> p < ts.len(),
{
    let w = ['p', 'a', 'r', 'a', 'l', 'l', 'e', 'l'];
    assert(w@ =~= w_parallel());
    word_at(ts, p, &w)
}

fn word_async(ts: &Toks, p: usize) -> (r: bool)
    ensures
        r == is_word(toks(ts@), p as int, w_async()),
        r ==> p < ts.len(),
{
    let w = ['a', 's', 'y', 'n', 'c'];
    assert(w@ =~= w_async());
    word_at(ts, p, &w)
}

fn word_sequence(ts: &Toks, p: usize) -> (r: bool)
    ensures
        r == is_word(toks(ts@), p as int, w_sequence()),
        r ==> p < ts.len(),
{
    let w = ['s', 'e', 'q', 'u', 'e', 'n', 'c', 'e'];
    assert(w@ =~= w_sequence());
    word_at(ts, p, &w)
}

fn section_state(ts: &Toks, p: usize) -> (r: bool)
    ensures
        r == is_section(toks(ts@), p as int, w_state()),
        r ==> p < ts.len(),
{
    let w = ['s', 't', 'a', 't', 'e'];
    assert(w@ =~= w_state());
    section_at(ts, p, &w)
}

fn section_handlers(ts: &Toks, p: usize) -> (r: bool)
    ensures
        r == is_section(toks(ts@), p as int, w_handlers()),
        r ==> p < ts.len(),
{
    let w = ['h', 'a', 'n', 'd', 'l', 'e', 'r', 's'];
    assert(w@ =~= w_handlers());
    section_at(ts, p, &w)
}

fn section_facets(ts: &Toks, p: usize) -> (r: bool)
    ensures
        r == is_section(toks(ts@), p as int, w_facets()),
        r ==> p < ts.len(),
{
    let w = ['f', 'a', 'c', 'e', 't', 's'];
    assert(w@ =~= w_facets());
    section_at(ts, p, &w)
}

fn section_dispatch_scripts(ts: &Toks, p: usize) -> (r: bool)
    ensures
        r == is_section(toks(ts@), p as int, w_dispatch_scripts()),
        r ==> p < ts.len(),
{
    let w = ['d', 'i', 's', 'p', 'a', 't', 'c', 'h', '_', 's', 'c', 'r', 'i', 'p', 't', 's'];
    assert(w@ =~= w_dispatch_scripts());
    section_at(ts, p, &w)
}

fn section_interface(ts: &Toks, p: usize) -> (r: bool)
    ensures
        r == is_section(toks(ts@), p as int, w_interface()),
        r ==> p < ts.len(),
{
    let w = ['i', 'n', 't', 'e', 'r', 'f', 'a', 'c', 'e'];
    assert(w@ =~= w_interface());
    section_at(ts, p, &w)
}

fn section_requests(ts: &Toks, p: usize) -> (r: bool)
    ensures
        r == is_section(toks(ts@), p as int, w_requests()),
        r ==> p < ts.len(),
{
    let w = ['r', 'e', 'q', 'u', 'e', 's', 't', 's'];
    assert(w@ =~= w_requests());
    section_at(ts, p, &w)
}

fn section_api_contracts(ts: &Toks, p: usize) -> (r: bool)
    ensures
        r == is_section(toks(ts@), p as int, w_api_contracts()),
        r ==> p < ts.len(),
{
    let w = ['a', 'p', 'i', '_', 'c', 'o', 'n', 't', 'r', 'a', 'c', 't', 's'];
    assert(w@ =~= w_api_contracts());
    section_at(ts, p, &w)
}

fn section_connection_handlers(ts: &Toks, p: usize) -> (r: bool)
    ensures
        r == is_section(toks(ts@), p as int, w_connection_handlers()),
        r ==> p < ts.len(),
{
    let w = ['c', 'o', 'n', 'n', 'e', 'c', 't', 'i', 'o', 'n', '_', 'h', 'a', 'n', 'd', 'l', 'e', 'r', 's'];
    assert(w@ =~= w_connection_handlers());
    section_at(ts, p, &w)
}

fn section_io(ts: &Toks, p: usize) -> (r: bool)
    ensures
        r == is_section(toks(ts@), p as int, w_io()),
        r ==> p < ts.len(),
{
    let w = ['i', 'o'];
    assert(w@ =~= w_io());
    section_at(ts, p, &w)
}


// Declarations.

fn read_idents(ts: &Toks, p: usize, sep: Token, close: Token) -> (r: Result<(Vec<String>, usize), usize>)
    requires
        p <= ts.len(),
        simple(sep@),
        simple(close@),
    ensures
        match r {
            Ok((v, q)) => parse_idents(toks(ts@), p as int, sep@, close@) == Some(
                (names_view(v@), q as int),
            ) && q <= ts.len(),
            Err(e) => parse_idents(toks(ts@), p as int, sep@, close@) is None && e <= ts.len() && e == idents_stop(toks(ts@), p as int, sep@, close@),
        },
{
    let ghost t = toks(ts@);
    let mut out: Vec<String> = Vec::new();
    let mut pos = p;
    loop
        invariant
            p <= pos <= ts.len(),
            t == toks(ts@),
            simple(sep@),
            simple(close@),
            idents_stop(t, p as int, sep@, close@) == idents_stop(t, pos as int, sep@, close@),
            parse_idents(t, p as int, sep@, close@) == match parse_idents(t, pos as int, sep@, close@) {
                Some((rest, e)) => Some((names_view(out@) + rest, e)),
                None => None,
            },
        decreases ts.len() - pos,
    {
        let n = match ident_ref(ts, pos) {
            Some(n) => n.clone(),
            None => return Err(pos),
        };
        let ghost nv = n@;
        let ghost old_out = out@;
        out.push(n);
        assert(names_view(out@) == names_view(old_out).push(nv));
        if at(ts, pos + 1, &sep) {
            proof {
                match parse_idents(t, pos + 2, sep@, close@) {
                    Some((rest, e)) => {
                        assert(names_view(old_out) + (seq![nv] + rest) == names_view(out@) + rest);
                    },
                    None => {},
                }
            }
            pos = pos + 2;
        } else if at(ts, pos + 1, &close) {
            assert(names_view(old_out) + seq![nv] == names_view(out@));
            return Ok((out, pos + 2));
        } else {
            return Err(pos + 1);
        }
    }
}

fn read_field(ts: &Toks, p: usize) -> (r: Result<(StateField, usize), usize>)
    requires
        p <= ts.len(),
    ensures
        match r {
            Ok((f, q)) => parse_field(toks(ts@), p as int) == Some((f@, q as int)) && q <= ts.len(),
            Err(e) => parse_field(toks(ts@), p as int) is None && e <= ts.len() && e == field_stop(toks(ts@), p as int),
        },
{
    let name = match ident_ref(ts, p) {
        Some(n) => n.clone(),
        None => return Err(p),
    };
    if at(ts, p + 1, &Token::Colon) {
        let (t, q) = read_type(ts, p + 2)?;
        if !(p < q && q <= ts.len() && at(ts, q, &Token::Assign)) {
            return Err(q);
        }
        let (init, r) = read_expr(ts, q + 1)?;
        Ok((StateField { name, ty: Some(t), init }, r))
    } else if at(ts, p + 1, &Token::Assign) {
        let (init, r) = read_expr(ts, p + 2)?;
        Ok((StateField { name, ty: None, init }, r))
    } else {
        Err(p + 1)
    }
}

fn read_fields(ts: &Toks, p: usize) -> (r: Result<(Vec<StateField>, usize), usize>)
    requires
        p <= ts.len(),
    ensures
        match r {
            Ok((v, q)) => parse_fields(toks(ts@), p as int) == Some(
                (v@.map_values(|f: StateField| f@), q as int),
            ) && q <= ts.len(),
            Err(e) => parse_fields(toks(ts@), p as int) is None && e <= ts.len() && e == fields_stop(toks(ts@), p as int),
        },
{
    let ghost t = toks(ts@);
    let mut out: Vec<StateField> = Vec::new();
    let mut pos = p;
    loop
        invariant
            p <= pos <= ts.len(),
            t == toks(ts@),
            fields_stop(t, p as int) == fields_stop(t, pos as int),
            parse_fields(t, p as int) == match parse_fields(t, pos as int) {
                Some((rest, e)) => Some((out@.map_values(|f: StateField| f@) + rest, e)),
                None => None,
            },
        decreases ts.len() - pos,
    {
        if ident_ref(ts, pos).is_none() {
            assert(out@.map_values(|f: StateField| f@) + Seq::<SpecStateField>::empty()
                == out@.map_values(|f: StateField| f@));
            return Ok((out, pos));
        }
        let (f, q) = read_field(ts, pos)?;
        if !(pos < q && q <= ts.len()) {
            return Err(pos);
        }
        let ghost fv = f@;
        let ghost old_out = out@;
        out.push(f);
        proof {
            assert(out@.map_values(|f: StateField| f@) == old_out.map_values(|f: StateField| f@).push(
                fv,
            ));
            match parse_fields(t, q as int) {
                Some((rest, e)) => {
                    assert(old_out.map_values(|f: StateField| f@) + (seq![fv] + rest)
                        == out@.map_values(|f: StateField| f@) + rest);
                },
                None => {},
            }
        }
        pos = q;
    }
}

fn read_handler(ts: &Toks, p: usize) -> (r: Result<(Handler, usize), usize>)
    requires
        p <= ts.len(),
    ensures
        match r {
            Ok((h, q)) => parse_handler(toks(ts@), p as int) == Some((h@, q as int)) && q <= ts.len(),
            Err(e) => parse_handler(toks(ts@), p as int) is None && e <= ts.len() && e == handler_stop(toks(ts@), p as int),
        },
{
    if !at(ts, p, &Token::KwOn) {
        return Err(p);
    }
    let (message_type, q) = read_path(ts, p + 1)?;
    if !(p < q && q <= ts.len()) {
        return Err(p);
    }
    let (binding, q2) = match ident_ref(ts, q) {
        Some(b) => (Some(b.clone()), q + 1),
        None => (None, q),
    };
    let (return_ty, r) = if at(ts, q2, &Token::Arrow) {
        let (t, r) = read_type(ts, q2 + 1)?;
        (Some(t), r)
    } else {
        (None, q2)
    };
    let (body, e) = read_block(ts, r)?;
    Ok((Handler { message_type, binding, return_ty, body }, e))
}

fn read_handlers(ts: &Toks, p: usize) -> (r: Result<(Vec<Handler>, usize), usize>)
    requires
        p <= ts.len(),
    ensures
        match r {
            Ok((v, q)) => parse_handlers(toks(ts@), p as int) == Some(
                (v@.map_values(|h: Handler| h@), q as int),
            ) && q <= ts.len(),
            Err(e) => parse_handlers(toks(ts@), p as int) is None && e <= ts.len() && e == handlers_stop(toks(ts@), p as int),
        },
{
    let ghost t = toks(ts@);
    let mut out: Vec<Handler> = Vec::new();
    let mut pos = p;
    loop
        invariant
            p <= pos <= ts.len(),
            t == toks(ts@),
            handlers_stop(t, p as int) == handlers_stop(t, pos as int),
            parse_handlers(t, p as int) == match parse_handlers(t, pos as int) {
                Some((rest, e)) => Some((out@.map_values(|h: Handler| h@) + rest, e)),
                None => None,
            },
        decreases ts.len() - pos,
    {
        if !at(ts, pos, &Token::KwOn) {
            assert(out@.map_values(|h: Handler| h@) + Seq::<SpecHandler>::empty() == out@.map_values(
                |h: Handler| h@,
            ));
            return Ok((out, pos));
        }
        let (h, q) = read_handler(ts, pos)?;
        if !(pos < q && q <= ts.len()) {
            return Err(pos);
        }
        let ghost hv = h@;
        let ghost old_out = out@;
        out.push(h);
        proof {
            assert(out@.map_values(|h: Handler| h@) == old_out.map_values(|h: Handler| h@).push(hv));
            match parse_handlers(t, q as int) {
                Some((rest, e)) => {
                    assert(old_out.map_values(|h: Handler| h@) + (seq![hv] + rest) == out@.map_values(
                        |h: Handler| h@,
                    ) + rest);
                },
                None => {},
            }
        }
        pos = q;
    }
}

fn read_facet(ts: &Toks, p: usize) -> (r: Result<(FacetDecl, usize), usize>)
    requires
        p <= ts.len(),
    ensures
        match r {
            Ok((f, q)) => parse_facet(toks(ts@), p as int) == Some((f@, q as int)) && q <= ts.len(),
            Err(e) => parse_facet(toks(ts@), p as int) is None && e <= ts.len() && e == facet_stop(toks(ts@), p as int),
        },
{
    reveal(parse_facet);
    if !word_facet(ts, p) {
        return Err(p);
    }
    let name = match ident_ref(ts, p + 1) {
        Some(n) => n.clone(),
        None => return Err(p + 1),
    };
    if !at(ts, p + 2, &Token::LBrace) {
        return Err(p + 2);
    }
    let q = p + 3;
    let (state, q1) = if section_state(ts, q) {
        read_fields(ts, q + 1)?
    } else {
        let v: Vec<StateField> = Vec::new();
        assert(v@.map_values(|f: StateField| f@) =~= Seq::<SpecStateField>::empty());
        (v, q)
    };
    let (handlers, q2) = if section_handlers(ts, q1) {
        read_handlers(ts, q1 + 1)?
    } else {
        let v: Vec<Handler> = Vec::new();
        assert(v@.map_values(|h: Handler| h@) =~= Seq::<SpecHandler>::empty());
        (v, q1)
    };
    if !at(ts, q2, &Token::RBrace) {
        return Err(q2);
    }
    Ok((FacetDecl { name, state, handlers }, q2 + 1))
}

fn read_spines(ts: &Toks, p: usize) -> (r: Result<(Vec<IoSpine>, usize), usize>)
    requires
        p <= ts.len(),
    ensures
        match r {
            Ok((v, q)) => parse_spines(toks(ts@), p as int) == Some(
                (v@.map_values(|s: IoSpine| s@), q as int),
            ) && q <= ts.len(),
            Err(e) => parse_spines(toks(ts@), p as int) is None && e <= ts.len() && e == spines_stop(toks(ts@), p as int),
        },
{
    let ghost t = toks(ts@);
    let mut out: Vec<IoSpine> = Vec::new();
    let mut pos = p;
    loop
        invariant
            p <= pos <= ts.len(),
            t == toks(ts@),
            spines_stop(t, p as int) == spines_stop(t, pos as int),
            parse_spines(t, p as int) == match parse_spines(t, pos as int) {
                Some((rest, e)) => Some((out@.map_values(|s: IoSpine| s@) + rest, e)),
                None => None,
            },
        decreases ts.len() - pos,
    {
        let name = match ident_ref(ts, pos) {
            Some(n) => n.clone(),
            None => {
                assert(out@.map_values(|s: IoSpine| s@) + Seq::<SpecSpine>::empty() == out@.map_values(
                    |s: IoSpine| s@,
                ));
                return Ok((out, pos));
            },
        };
        if !at(ts, pos + 1, &Token::Colon) {
            return Err(pos + 1);
        }
        let (io_path, q) = read_path(ts, pos + 2)?;
        if !(pos < q && q <= ts.len()) {
            return Err(pos);
        }
        let sp = IoSpine { name, io_path };
        let ghost sv = sp@;
        let ghost old_out = out@;
        out.push(sp);
        proof {
            assert(out@.map_values(|s: IoSpine| s@) == old_out.map_values(|s: IoSpine| s@).push(sv));
            match parse_spines(t, q as int) {
                Some((rest, e)) => {
                    assert(old_out.map_values(|s: IoSpine| s@) + (seq![sv] + rest) == out@.map_values(
                        |s: IoSpine| s@,
                    ) + rest);
                },
                None => {},
            }
        }
        pos = q;
    }
}

fn read_instances(ts: &Toks, p: usize) -> (r: Result<(Vec<FacetInstance>, usize), usize>)
    requires
        p <= ts.len(),
    ensures
        match r {
            Ok((v, q)) => parse_instances(toks(ts@), p as int) == Some(
                (v@.map_values(|i: FacetInstance| i@), q as int),
            ) && q <= ts.len(),
            Err(e) => parse_instances(toks(ts@), p as int) is None && e <= ts.len() && e == instances_stop(toks(ts@), p as int),
        },
{
    let ghost t = toks(ts@);
    let mut out: Vec<FacetInstance> = Vec::new();
    let mut pos = p;
    loop
        invariant
            p <= pos <= ts.len(),
            t == toks(ts@),
            instances_stop(t, p as int) == instances_stop(t, pos as int),
            parse_instances(t, p as int) == match parse_instances(t, pos as int) {
                Some((rest, e)) => Some((out@.map_values(|i: FacetInstance| i@) + rest, e)),
                None => None,
            },
        decreases ts.len() - pos,
    {
        let name = match ident_ref(ts, pos) {
            Some(n) => n.clone(),
            None => {
                assert(out@.map_values(|i: FacetInstance| i@) + Seq::<SpecInstance>::empty()
                    == out@.map_values(|i: FacetInstance| i@));
                return Ok((out, pos));
            },
        };
        if !at(ts, pos + 1, &Token::LParen) {
            return Err(pos + 1);
        }
        let (io_args, q) = if at(ts, pos + 2, &Token::RParen) {
            let v: Vec<String> = Vec::new();
            assert(names_view(v@) =~= Seq::<Name>::empty());
            (v, pos + 3)
        } else {
            read_idents(ts, pos + 2, Token::Comma, Token::RParen)?
        };
        if !(pos < q && q <= ts.len()) {
            return Err(pos);
        }
        let inst = FacetInstance { name, io_args };
        let ghost iv = inst@;
        let ghost old_out = out@;
        out.push(inst);
        proof {
            assert(out@.map_values(|i: FacetInstance| i@) == old_out.map_values(
                |i: FacetInstance| i@,
            ).push(iv));
            match parse_instances(t, q as int) {
                Some((rest, e)) => {
                    assert(old_out.map_values(|i: FacetInstance| i@) + (seq![iv] + rest)
                        == out@.map_values(|i: FacetInstance| i@) + rest);
                },
                None => {},
            }
        }
        pos = q;
    }
}

fn read_mode(ts: &Toks, p: usize) -> (r: Result<(DispatchMode, usize), usize>)
    requires
        p <= ts.len(),
    ensures
        match r {
            Ok((m, q)) => parse_mode(toks(ts@), p as int) == Some((m@, q as int)) && q <= ts.len(),
            Err(e) => parse_mode(toks(ts@), p as int) is None && e <= ts.len() && e == mode_stop(toks(ts@), p as int),
        },
{
    if word_parallel(ts, p) {
        Ok((DispatchMode::Parallel, p + 1))
    } else if word_async(ts, p) {
        Ok((DispatchMode::Async, p + 1))
    } else if word_sequence(ts, p) && at(ts, p + 1, &Token::LParen) {
        let (names, q) = read_idents(ts, p + 2, Token::Arrow, Token::RParen)?;
        Ok((DispatchMode::Sequence(names), q))
    } else {
        Err(p)
    }
}

fn read_dispatches(ts: &Toks, p: usize) -> (r: Result<(Vec<DispatchDecl>, usize), usize>)
    requires
        p <= ts.len(),
    ensures
        match r {
            Ok((v, q)) => parse_dispatches(toks(ts@), p as int) == Some(
                (v@.map_values(|d: DispatchDecl| d@), q as int),
            ) && q <= ts.len(),
            Err(e) => parse_dispatches(toks(ts@), p as int) is None && e <= ts.len() && e == dispatches_stop(toks(ts@), p as int),
        },
{
    let ghost t = toks(ts@);
    let mut out: Vec<DispatchDecl> = Vec::new();
    let mut pos = p;
    loop
        invariant
            p <= pos <= ts.len(),
            t == toks(ts@),
            dispatches_stop(t, p as int) == dispatches_stop(t, pos as int),
            parse_dispatches(t, p as int) == match parse_dispatches(t, pos as int) {
                Some((rest, e)) => Some((out@.map_values(|d: DispatchDecl| d@) + rest, e)),
                None => None,
            },
        decreases ts.len() - pos,
    {
        if !at(ts, pos, &Token::KwOn) {
            assert(out@.map_values(|d: DispatchDecl| d@) + Seq::<SpecDispatch>::empty()
                == out@.map_values(|d: DispatchDecl| d@));
            return Ok((out, pos));
        }
        let spine = match ident_ref(ts, pos + 1) {
            Some(n) => n.clone(),
            None => return Err(pos + 1),
        };
        if !at(ts, pos + 2, &Token::Dot) {
            return Err(pos + 2);
        }
        let event = match ident_ref(ts, pos + 3) {
            Some(n) => n.clone(),
            None => return Err(pos + 3),
        };
        let (mode, q) = read_mode(ts, pos + 4)?;
        if !(pos < q && q <= ts.len()) {
            return Err(pos);
        }
        let d = DispatchDecl { event: SpineEvent { spine, event }, mode };
        let ghost dv = d@;
        let ghost old_out = out@;
        out.push(d);
        proof {
            assert(out@.map_values(|d: DispatchDecl| d@) == old_out.map_values(
                |d: DispatchDecl| d@,
            ).push(dv));
            match parse_dispatches(t, q as int) {
                Some((rest, e)) => {
                    assert(old_out.map_values(|d: DispatchDecl| d@) + (seq![dv] + rest)
                        == out@.map_values(|d: DispatchDecl| d@) + rest);
                },
                None => {},
            }
        }
        pos = q;
    }
}

fn read_scheme(ts: &Toks, p: usize) -> (r: Result<(SchemeDecl, usize), usize>)
    requires
        p <= ts.len(),
    ensures
        match r {
            Ok((s, q)) => parse_scheme(toks(ts@), p as int) == Some((s@, q as int)) && q <= ts.len(),
            Err(e) => parse_scheme(toks(ts@), p as int) is None && e <= ts.len() && e == scheme_stop(toks(ts@), p as int),
        },
{
    reveal(parse_scheme);
    if !word_scheme(ts, p) {
        return Err(p);
    }
    let name = match ident_ref(ts, p + 1) {
        Some(n) => n.clone(),
        None => return Err(p + 1),
    };
    let (parent, q) = if at(ts, p + 2, &Token::At) {
        match ident_ref(ts, p + 3) {
            Some(n) => (Some(n.clone()), p + 4),
            None => return Err(p + 3),
        }
    } else {
        (None, p + 2)
    };
    if !at(ts, q, &Token::LBrace) {
        return Err(q);
    }
    let (io_spines, q1) = if section_io(ts, q + 1) {
        read_spines(ts, q + 2)?
    } else {
        let v: Vec<IoSpine> = Vec::new();
        assert(v@.map_values(|s: IoSpine| s@) =~= Seq::<SpecSpine>::empty());
        (v, q + 1)
    };
    let (facet_instances, q2) = if section_facets(ts, q1) {
        read_instances(ts, q1 + 1)?
    } else {
        let v: Vec<FacetInstance> = Vec::new();
        assert(v@.map_values(|i: FacetInstance| i@) =~= Seq::<SpecInstance>::empty());
        (v, q1)
    };
    let (dispatch, q3) = if section_dispatch_scripts(ts, q2) {
        read_dispatches(ts, q2 + 1)?
    } else {
        let v: Vec<DispatchDecl> = Vec::new();
        assert(v@.map_values(|d: DispatchDecl| d@) =~= Seq::<SpecDispatch>::empty());
        (v, q2)
    };
    if !at(ts, q3, &Token::RBrace) {
        return Err(q3);
    }
    Ok((SchemeDecl { name, parent, io_spines, facet_instances, dispatch }, q3 + 1))
}

fn read_entries(ts: &Toks, p: usize) -> (r: Result<(Vec<IoInterfaceEntry>, usize), usize>)
    requires
        p <= ts.len(),
    ensures
        match r {
            Ok((v, q)) => parse_entries(toks(ts@), p as int) == Some(
                (v@.map_values(|e: IoInterfaceEntry| e@), q as int),
            ) && q <= ts.len(),
            Err(e) => parse_entries(toks(ts@), p as int) is None && e <= ts.len() && e == entries_stop(toks(ts@), p as int),
        },
{
    let ghost t = toks(ts@);
    let mut out: Vec<IoInterfaceEntry> = Vec::new();
    let mut pos = p;
    loop
        invariant
            p <= pos <= ts.len(),
            t == toks(ts@),
            entries_stop(t, p as int) == entries_stop(t, pos as int),
            parse_entries(t, p as int) == match parse_entries(t, pos as int) {
                Some((rest, e)) => Some((out@.map_values(|e: IoInterfaceEntry| e@) + rest, e)),
                None => None,
            },
        decreases ts.len() - pos,
    {
        let is_event = word_event(ts, pos);
        if !is_event && !word_method(ts, pos) {
            assert(out@.map_values(|e: IoInterfaceEntry| e@) + Seq::<SpecIoEntry>::empty()
                == out@.map_values(|e: IoInterfaceEntry| e@));
            return Ok((out, pos));
        }
        let name = match ident_ref(ts, pos + 1) {
            Some(n) => n.clone(),
            None => return Err(pos + 1),
        };
        if !at(ts, pos + 2, &Token::Colon) {
            return Err(pos + 2);
        }
        let (ty, q) = read_type(ts, pos + 3)?;
        if !(pos < q && q <= ts.len()) {
            return Err(pos);
        }
        let e = if is_event {
            IoInterfaceEntry::Event { name, ty }
        } else {
            IoInterfaceEntry::Method { name, ty }
        };
        let ghost ev = e@;
        let ghost old_out = out@;
        out.push(e);
        proof {
            assert(out@.map_values(|e: IoInterfaceEntry| e@) == old_out.map_values(
                |e: IoInterfaceEntry| e@,
            ).push(ev));
            match parse_entries(t, q as int) {
                Some((rest, e)) => {
                    assert(old_out.map_values(|e: IoInterfaceEntry| e@) + (seq![ev] + rest)
                        == out@.map_values(|e: IoInterfaceEntry| e@) + rest);
                },
                None => {},
            }
        }
        pos = q;
    }
}

fn read_requests(ts: &Toks, p: usize) -> (r: Result<(Vec<IoInterfaceEntry>, usize), usize>)
    requires
        p <= ts.len(),
    ensures
        match r {
            Ok((v, q)) => parse_requests(toks(ts@), p as int) == Some(
                (v@.map_values(|e: IoInterfaceEntry| e@), q as int),
            ) && q <= ts.len(),
            Err(e) => parse_requests(toks(ts@), p as int) is None && e <= ts.len() && e == requests_stop(toks(ts@), p as int),
        },
{
    let ghost t = toks(ts@);
    let mut out: Vec<IoInterfaceEntry> = Vec::new();
    let mut pos = p;
    loop
        invariant
            p <= pos <= ts.len(),
            t == toks(ts@),
            requests_stop(t, p as int) == requests_stop(t, pos as int),
            parse_requests(t, p as int) == match parse_requests(t, pos as int) {
                Some((rest, e)) => Some((out@.map_values(|e: IoInterfaceEntry| e@) + rest, e)),
                None => None,
            },
        decreases ts.len() - pos,
    {
        let name = match ident_ref(ts, pos) {
            Some(n) => n.clone(),
            None => {
                assert(out@.map_values(|e: IoInterfaceEntry| e@) + Seq::<SpecIoEntry>::empty()
                    == out@.map_values(|e: IoInterfaceEntry| e@));
                return Ok((out, pos));
            },
        };
        if !at(ts, pos + 1, &Token::LParen) {
            return Err(pos + 1);
        }
        let (fields, q) = if at(ts, pos + 2, &Token::RParen) {
            let v: Vec<RecordField> = Vec::new();
            assert(named_types_view(v@) =~= Seq::<(Name, SpecType)>::empty());
            (v, pos + 3)
        } else {
            read_named_types(ts, pos + 2, Token::RParen)?
        };
        if !(pos < q && q <= ts.len() && at(ts, q, &Token::Arrow)) {
            return Err(q);
        }
        let (ret, r) = read_type(ts, q + 1)?;
        if !(q < r && r <= ts.len()) {
            return Err(q);
        }
        let from = TypeExpr::Record(fields);
        assert(from@->Record_0 =~= named_types_view(fields@));
        let effects: Vec<Vec<String>> = Vec::new();
        assert(paths_view(effects@) =~= Seq::<Seq<Name>>::empty());
        let e = IoInterfaceEntry::Method {
            name,
            ty: TypeExpr::Function { from: Box::new(from), to: Box::new(ret), effects },
        };
        let ghost ev = e@;
        let ghost old_out = out@;
        out.push(e);
        proof {
            assert(out@.map_values(|e: IoInterfaceEntry| e@) == old_out.map_values(
                |e: IoInterfaceEntry| e@,
            ).push(ev));
            match parse_requests(t, r as int) {
                Some((rest, e)) => {
                    assert(old_out.map_values(|e: IoInterfaceEntry| e@) + (seq![ev] + rest)
                        == out@.map_values(|e: IoInterfaceEntry| e@) + rest);
                },
                None => {},
            }
        }
        pos = r;
    }
}

fn read_aliases(ts: &Toks, p: usize) -> (r: Result<(Vec<TypeAlias>, usize), usize>)
    requires
        p <= ts.len(),
    ensures
        match r {
            Ok((v, q)) => parse_aliases(toks(ts@), p as int) == Some(
                (v@.map_values(|a: TypeAlias| a@), q as int),
            ) && q <= ts.len(),
            Err(e) => parse_aliases(toks(ts@), p as int) is None && e <= ts.len() && e == aliases_stop(toks(ts@), p as int),
        },
{
    let ghost t = toks(ts@);
    let mut out: Vec<TypeAlias> = Vec::new();
    let mut pos = p;
    loop
        invariant
            p <= pos <= ts.len(),
            t == toks(ts@),
            aliases_stop(t, p as int) == aliases_stop(t, pos as int),
            parse_aliases(t, p as int) == match parse_aliases(t, pos as int) {
                Some((rest, e)) => Some((out@.map_values(|a: TypeAlias| a@) + rest, e)),
                None => None,
            },
        decreases ts.len() - pos,
    {
        let name = match ident_ref(ts, pos) {
            Some(n) => n.clone(),
            None => {
                assert(out@.map_values(|a: TypeAlias| a@) + Seq::<SpecTypeAlias>::empty()
                    == out@.map_values(|a: TypeAlias| a@));
                return Ok((out, pos));
            },
        };
        if !at(ts, pos + 1, &Token::Colon) {
            return Err(pos + 1);
        }
        let (ty, q) = read_type(ts, pos + 2)?;
        if !(pos < q && q <= ts.len()) {
            return Err(pos);
        }
        let a = TypeAlias { name, ty };
        let ghost av = a@;
        let ghost old_out = out@;
        out.push(a);
        proof {
            assert(out@.map_values(|a: TypeAlias| a@) == old_out.map_values(|a: TypeAlias| a@).push(
                av,
            ));
            match parse_aliases(t, q as int) {
                Some((rest, e)) => {
                    assert(old_out.map_values(|a: TypeAlias| a@) + (seq![av] + rest)
                        == out@.map_values(|a: TypeAlias| a@) + rest);
                },
                None => {},
            }
        }
        pos = q;
    }
}

fn read_conns(ts: &Toks, p: usize) -> (r: Result<(Vec<ConnectionHandler>, usize), usize>)
    requires
        p <= ts.len(),
    ensures
        match r {
            Ok((v, q)) => parse_conns(toks(ts@), p as int) == Some(
                (v@.map_values(|c: ConnectionHandler| c@), q as int),
            ) && q <= ts.len(),
            Err(e) => parse_conns(toks(ts@), p as int) is None && e <= ts.len() && e == conns_stop(toks(ts@), p as int),
        },
{
    let ghost t = toks(ts@);
    let mut out: Vec<ConnectionHandler> = Vec::new();
    let mut pos = p;
    loop
        invariant
            p <= pos <= ts.len(),
            t == toks(ts@),
            conns_stop(t, p as int) == conns_stop(t, pos as int),
            parse_conns(t, p as int) == match parse_conns(t, pos as int) {
                Some((rest, e)) => Some((out@.map_values(|c: ConnectionHandler| c@) + rest, e)),
                None => None,
            },
        decreases ts.len() - pos,
    {
        let name = match ident_ref(ts, pos) {
            Some(n) => n.clone(),
            None => {
                assert(out@.map_values(|c: ConnectionHandler| c@) + Seq::<SpecConnHandler>::empty()
                    == out@.map_values(|c: ConnectionHandler| c@));
                return Ok((out, pos));
            },
        };
        if !at(ts, pos + 1, &Token::Assign) {
            return Err(pos + 1);
        }
        let (init, q) = read_expr(ts, pos + 2)?;
        if !(pos < q && q <= ts.len()) {
            return Err(pos);
        }
        let c = ConnectionHandler { name, init };
        let ghost cv = c@;
        let ghost old_out = out@;
        out.push(c);
        proof {
            assert(out@.map_values(|c: ConnectionHandler| c@) == old_out.map_values(
                |c: ConnectionHandler| c@,
            ).push(cv));
            match parse_conns(t, q as int) {
                Some((rest, e)) => {
                    assert(old_out.map_values(|c: ConnectionHandler| c@) + (seq![cv] + rest)
                        == out@.map_values(|c: ConnectionHandler| c@) + rest);
                },
                None => {},
            }
        }
        pos = q;
    }
}

fn read_io(ts: &Toks, p: usize) -> (r: Result<(IoDecl, usize), usize>)
    requires
        p <= ts.len(),
    ensures
        match r {
            Ok((d, q)) => parse_io(toks(ts@), p as int) == Some((d@, q as int)) && q <= ts.len(),
            Err(e) => parse_io(toks(ts@), p as int) is None && e <= ts.len() && e == io_stop(toks(ts@), p as int),
        },
{
    reveal(parse_io);
    if !word_io(ts, p) {
        return Err(p);
    }
    let name = match ident_ref(ts, p + 1) {
        Some(n) => n.clone(),
        None => return Err(p + 1),
    };
    if !at(ts, p + 2, &Token::LBrace) {
        return Err(p + 2);
    }
    let q = p + 3;
    let (mut interface, q1) = if section_interface(ts, q) {
        read_entries(ts, q + 1)?
    } else {
        let v: Vec<IoInterfaceEntry> = Vec::new();
        assert(v@.map_values(|e: IoInterfaceEntry| e@) =~= Seq::<SpecIoEntry>::empty());
        (v, q)
    };
    let (mut requests, q2) = if section_requests(ts, q1) {
        read_requests(ts, q1 + 1)?
    } else {
        let v: Vec<IoInterfaceEntry> = Vec::new();
        assert(v@.map_values(|e: IoInterfaceEntry| e@) =~= Seq::<SpecIoEntry>::empty());
        (v, q1)
    };
    let (api_contracts, q3) = if section_api_contracts(ts, q2) {
        read_aliases(ts, q2 + 1)?
    } else {
        let v: Vec<TypeAlias> = Vec::new();
        assert(v@.map_values(|a: TypeAlias| a@) =~= Seq::<SpecTypeAlias>::empty());
        (v, q2)
    };
    let (connection_handlers, q4) = if section_connection_handlers(ts, q3) {
        read_conns(ts, q3 + 1)?
    } else {
        let v: Vec<ConnectionHandler> = Vec::new();
        assert(v@.map_values(|c: ConnectionHandler| c@) =~= Seq::<SpecConnHandler>::empty());
        (v, q3)
    };
    if !at(ts, q4, &Token::RBrace) {
        return Err(q4);
    }
    let ghost iv = interface@;
    let ghost rv = requests@;
    interface.append(&mut requests);
    assert(interface@.map_values(|e: IoInterfaceEntry| e@) =~= iv.map_values(
        |e: IoInterfaceEntry| e@,
    ) + rv.map_values(|e: IoInterfaceEntry| e@));
    Ok((IoDecl { name, interface, api_contracts, connection_handlers }, q4 + 1))
}

/// Parse a token sequence into a module. `Err` carries the position of
/// the token where reading stopped.
pub fn parse_tokens(ts: &Vec<(Token, Span)>) -> (r: Result<Module, usize>)
    ensures
        r is Ok <==> spec_parse(toks(ts@)) is Some,
        r matches Ok(m) ==> m@ == spec_parse(toks(ts@)).unwrap(),
        r matches Err(e) ==> e <= ts.len() && e == module_stop(toks(ts@), 0),
{
    let ghost t = toks(ts@);
    let mut facets: Vec<FacetDecl> = Vec::new();
    let mut schemes: Vec<SchemeDecl> = Vec::new();
    let mut io_decls: Vec<IoDecl> = Vec::new();
    let mut pos: usize = 0;
    loop
        invariant
            pos <= ts.len(),
            t == toks(ts@),
            module_stop(t, 0) == module_stop(t, pos as int),
            spec_parse(t) == match parse_module_from(t, pos as int) {
                Some(rest) => Some(
                    concat_modules(
                        (Module { facets, schemes, io_decls })@,
                        rest,
                    ),
                ),
                None => None,
            },
        decreases ts.len() - pos,
    {
        if pos == ts.len() {
            let m = Module { facets, schemes, io_decls };
            assert(concat_modules(m@, empty_module()) == m@) by {
                assert(m@.facets + Seq::<SpecFacet>::empty() =~= m@.facets);
                assert(m@.schemes + Seq::<SpecScheme>::empty() =~= m@.schemes);
                assert(m@.io_decls + Seq::<SpecIoDecl>::empty() =~= m@.io_decls);
            }
            return Ok(m);
        }
        let ghost before = (Module { facets, schemes, io_decls })@;
        let q: usize;
        let ghost dv: SpecDecl;
        if word_facet(ts, pos) {
            let (f, q1) = read_facet(ts, pos)?;
            proof {
                dv = SpecDecl::Facet(f@);
            }
            facets.push(f);
            q = q1;
        } else if word_scheme(ts, pos) {
            let (s, q1) = read_scheme(ts, pos)?;
            proof {
                dv = SpecDecl::Scheme(s@);
            }
            schemes.push(s);
            q = q1;
        } else if word_io(ts, pos) {
            let (d, q1) = read_io(ts, pos)?;
            proof {
                dv = SpecDecl::Io(d@);
            }
            io_decls.push(d);
            q = q1;
        } else {
            return Err(pos);
        }
        if !(pos < q && q <= ts.len()) {
            return Err(pos);
        }
        proof {
            let after = (Module { facets, schemes, io_decls })@;
            assert(parse_decl(t, pos as int) == Some((dv, q as int)));
            match parse_module_from(t, q as int) {
                Some(rest) => {
                    let lhs = concat_modules(before, add_front(dv, rest));
                    let rhs = concat_modules(after, rest);
                    assert(lhs.facets =~= rhs.facets);
                    assert(lhs.schemes =~= rhs.schemes);
                    assert(lhs.io_decls =~= rhs.io_decls);
                },
                None => {},
            }
        }
        pos = q;
    }
}


/// The module that source text stands for, if it lexes and parses.
pub open spec fn spec_parse_source(s: Seq<char>) -> Option<SpecModule> {
    match spec_lex(s) {
        Some(ts) => spec_parse(tokens_of_spanned(ts)),
        None => None,
    }
}

/// Public entry point. Lex then parse `source`. On failure the single
/// error names the character range where lexing or parsing stopped.
pub fn parse(source: &str) -> (r: Result<Module, Vec<ParseError>>)
    ensures
        r is Ok <==> spec_parse_source(source@) is Some,
        r matches Ok(m) ==> m@ == spec_parse_source(source@).unwrap(),
        r matches Err(e) ==> e@.len() == 1,
        spec_lex(source@) is None ==> (r matches Err(e) && e@[0].message@
            == "lex error: unexpected character"@ && e@[0].span.start == lex_fail_at(source@, 0)
            && e@[0].span.end == lex_fail_at(source@, 0) + 1),
        spec_lex(source@) matches Some(ts) ==> (r matches Err(e) ==> {
            let k = module_stop(tokens_of_spanned(ts), 0);
            if k < ts.len() {
                e@[0].message@ == "parse error: unexpected token"@ && e@[0].span.start == ts[k].1
                    && e@[0].span.end == ts[k].2
            } else {
                e@[0].message@ == "parse error: unexpected end of input"@ && e@[0].span.start
                    == source@.len() && e@[0].span.end == source@.len()
            }
        }),
{
    let ts = match lex(source) {
        Ok(ts) => ts,
        Err(e) => {
            return Err(e);
        },
    };
    assert(toks(ts@) =~= tokens_of_spanned(spanned_view(ts@)));
    match parse_tokens(&ts) {
        Ok(m) => Ok(m),
        Err(pos) => {
            proof {
                reveal_strlit("parse error: ");
                reveal_strlit("unexpected token");
                reveal_strlit("unexpected end of input");
                reveal_strlit("parse error: unexpected token");
                reveal_strlit("parse error: unexpected end of input");
                assert("parse error: "@ + "unexpected token"@ =~= "parse error: unexpected token"@);
                assert("parse error: "@ + "unexpected end of input"@
                    =~= "parse error: unexpected end of input"@);
            }
            let (span, what) = if pos < ts.len() {
                proof {
                    assert(spanned_view(ts@)[pos as int] == (ts@[pos as int].0@, ts@[pos as int].1.start as int, ts@[pos as int].1.end as int));
                }
                (std::ops::Range { start: ts[pos].1.start, end: ts[pos].1.end }, "unexpected token")
            } else {
                let n = source.unicode_len();
                (std::ops::Range { start: n, end: n }, "unexpected end of input")
            };
            let mut message = String::from_str("parse error: ");
            message.append(what);
            Err(vec![ParseError { message, span }])
        },
    }
}

} // verus!
