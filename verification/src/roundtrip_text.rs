//! Round trip of the printer and the parser, at the level of text.
//!
//! `rd(x, t, free)` says that wherever the text `x` stands, the lexer
//! reads it as the tokens `t` (unless `free`, only where the character
//! after it ends its last token). Each printer text is shown to read as
//! the tokens that `roundtrip` lays out for the same node; with the
//! token-level law this gives the law at the end: parsing the printed
//! text of a well-formed module gives back the module, where its names,
//! numbers and floats are ones the lexer reads back (names are
//! identifiers other than keywords, integers are not negative, floats are
//! digits, a point and digits).
use vstd::prelude::*;

use crate::lexer::{
    blank_end, digits_end, digits_value, digit_value, escape_char, ident_end, is_blank, is_digit,
    is_ident_continue, is_ident_start, is_ws, lex_from, marker_at, punct_at, skip_trivia, str_body,
    token_at, tokens_of_spanned, triple_slash_at, word_token, SpecSpanned, SpecToken,
};
use crate::ast::{
    BinOp, Name, SpecArg, SpecArm, SpecDispatch, SpecExpr, SpecFacet, SpecHandler, SpecInstance,
    SpecMode, SpecPattern, SpecScheme, SpecSpine, SpecStateField, SpecStmt, SpecType,
    SpecIoEntry, SpecIoDecl, SpecTypeAlias, SpecConnHandler, SpecModule,
};
use crate::printer::{
    arg_text, args_texts, arm_body_text, arms_text, blank_if, block_text, concat_all, deeper,
    digit_char, dotted_text, escaped, expr_prec, expr_text, facet_text, field_text, field_texts,
    handler_text, handlers_text, indent_text, instance_text, instances_section, int_text,
    items_texts, mode_text, scheme_head, scheme_text, spine_text, spines_section, dispatch_section,
    dispatch_text, entry_text, alias_text, conn_text, interface_section, contracts_section,
    connections_section, io_text, decl_texts, module_text,
    joined, nat_text, op_text, pattern_text, pipe_chain_text, pipe_stages, prec_of, stmt_lines,
    stmt_text, type_text,
};
use crate::parser::{
    spec_parse_source, SpecDecl, w_api_contracts, w_async, w_connection_handlers, w_dispatch_scripts, w_event, w_facet, w_facets,
    w_handlers, w_interface, w_io, w_method, w_parallel, w_scheme, w_sequence, w_state,
};
use crate::roundtrip::{
    arg_toks, args_close, arm_body_toks, arm_toks, arms_close, block_toks, effs_close, expr_toks,
    facet_toks, field_toks, fields_toks, handler_toks, handlers_toks, items_close, lctx,
    named_close, op_tok, paren, path_toks, pattern_toks, rctx, stmt_toks, stmts_close, tail_toks,
    type_toks, wf_facet, wf_field, wf_handler, wf_named, wf_type, idents_close, spine_toks,
    spines_toks, instance_toks, instances_toks, mode_toks, dispatch_toks, dispatches_toks,
    scheme_toks, wf_scheme, entry_toks, entries_toks, alias_toks, aliases_toks, conn_toks,
    conns_toks, io_toks, entry_type, wf_io, decl_toks, decls_toks, module_decls, module_toks,
    wf_module, law_parse_printed_tokens,
};

verus! {

// ---------------------------------------------------------------------
// Reading text.

/// The tokens the lexer reads from `i` on.
pub open spec fn lex_toks(s: Seq<char>, i: int) -> Option<Seq<SpecToken>> {
    match lex_from(s, i) {
        Some(v) => Some(tokens_of_spanned(v)),
        None => None,
    }
}

pub open spec fn cat(t: Seq<SpecToken>, o: Option<Seq<SpecToken>>) -> Option<Seq<SpecToken>> {
    match o {
        Some(r) => Some(t + r),
        None => None,
    }
}

/// Reading from `i` gives `t`, then whatever reading from `j` gives.
pub open spec fn lexes(s: Seq<char>, i: int, j: int, t: Seq<SpecToken>) -> bool {
    0 <= i <= j <= s.len() && lex_toks(s, i) == cat(t, lex_toks(s, j))
}

/// The characters `t` stand in `s` from `i` on.
pub open spec fn at_chars(s: Seq<char>, i: int, t: Seq<char>) -> bool {
    0 <= i && i + t.len() <= s.len() && forall|k: int| 0 <= k < t.len() ==> s[i + k] == #[trigger] t[k]
}

pub proof fn lemma_chars_split(s: Seq<char>, i: int, a: Seq<char>, b: Seq<char>)
    requires
        at_chars(s, i, a + b),
    ensures
        at_chars(s, i, a),
        at_chars(s, i + a.len(), b),
{
    assert forall|k: int| 0 <= k < a.len() implies s[i + k] == #[trigger] a[k] by {
        assert((a + b)[k] == a[k]);
    }
    assert forall|k: int| 0 <= k < b.len() implies s[i + a.len() + k] == #[trigger] b[k] by {
        assert((a + b)[a.len() + k] == b[k]);
    }
}

pub proof fn lemma_lexes_trans(s: Seq<char>, i: int, j: int, k: int, a: Seq<SpecToken>, b: Seq<SpecToken>)
    requires
        lexes(s, i, j, a),
        lexes(s, j, k, b),
    ensures
        lexes(s, i, k, a + b),
{
    match lex_toks(s, k) {
        Some(r) => {
            assert(a + (b + r) =~= (a + b) + r);
        },
        None => {},
    }
}

proof fn lemma_skip_ws(s: Seq<char>, i: int, j: int)
    requires
        0 <= i <= j <= s.len(),
        forall|k: int| i <= k < j ==> is_ws(#[trigger] s[k]),
    ensures
        skip_trivia(s, i) == skip_trivia(s, j),
    decreases j - i,
{
    if i < j {
        assert(is_ws(s[i]));
        lemma_skip_ws(s, i + 1, j);
    }
}

/// Whitespace reads as nothing.
pub proof fn lemma_lexes_ws(s: Seq<char>, i: int, j: int)
    requires
        0 <= i <= j <= s.len(),
        forall|k: int| i <= k < j ==> is_ws(#[trigger] s[k]),
    ensures
        lexes(s, i, j, Seq::empty()),
{
    lemma_skip_ws(s, i, j);
    match lex_toks(s, j) {
        Some(r) => {
            assert(Seq::<SpecToken>::empty() + r =~= r);
        },
        None => {},
    }
}

// ---------------------------------------------------------------------
// Tokens as text.

pub open spec fn w_on() -> Seq<char> {
    seq!['o', 'n']
}

pub open spec fn w_if() -> Seq<char> {
    seq!['i', 'f']
}

pub open spec fn w_else() -> Seq<char> {
    seq!['e', 'l', 's', 'e']
}

pub open spec fn w_match() -> Seq<char> {
    seq!['m', 'a', 't', 'c', 'h']
}

/// The text the printer writes for a token.
pub open spec fn tok_text(t: SpecToken) -> Seq<char> {
    match t {
        SpecToken::KwOn => w_on(),
        SpecToken::KwIf => w_if(),
        SpecToken::KwElse => w_else(),
        SpecToken::KwMatch => w_match(),
        SpecToken::Ident(n) => n,
        SpecToken::Int(v) => nat_text(v as nat),
        SpecToken::Float(t) => t,
        SpecToken::Str(v) => seq!['"'] + escaped(v) + seq!['"'],
        SpecToken::Section(w) => seq!['/', '/', '/', ' ', '_'] + w,
        SpecToken::Tilde => seq!['~'],
        SpecToken::Colon => seq![':'],
        SpecToken::LBrace => seq!['{'],
        SpecToken::RBrace => seq!['}'],
        SpecToken::LParen => seq!['('],
        SpecToken::RParen => seq![')'],
        SpecToken::LBracket => seq!['['],
        SpecToken::RBracket => seq![']'],
        SpecToken::Dot => seq!['.'],
        SpecToken::Comma => seq![','],
        SpecToken::At => seq!['@'],
        SpecToken::Underscore => seq!['_'],
        SpecToken::Arrow => seq!['-', '>'],
        SpecToken::StateShift => seq!['~', '>'],
        SpecToken::Pipe => seq!['|', '>'],
        SpecToken::Plus => seq!['+'],
        SpecToken::Minus => seq!['-'],
        SpecToken::Star => seq!['*'],
        SpecToken::Slash => seq!['/'],
        SpecToken::Lt => seq!['<'],
        SpecToken::Gt => seq!['>'],
        SpecToken::EqEq => seq!['=', '='],
        SpecToken::Assign => seq!['='],
    }
}

/// A name the lexer reads back as that name: identifier characters, not
/// starting with a digit, and not a keyword or `_`.
pub open spec fn valid_name(n: Seq<char>) -> bool {
    &&& n.len() > 0
    &&& is_ident_start(n[0])
    &&& forall|k: int| 0 <= k < n.len() ==> is_ident_continue(#[trigger] n[k])
    &&& word_token(n) == SpecToken::Ident(n)
}

pub open spec fn all_digits(t: Seq<char>) -> bool {
    forall|k: int| 0 <= k < t.len() ==> is_digit(#[trigger] t[k])
}

/// Digits, a point, digits.
pub open spec fn float_shape(t: Seq<char>) -> bool {
    exists|a: int|
        0 < a && a + 1 < t.len() && t[a] == '.' && all_digits(#[trigger] t.take(a)) && all_digits(
            t.skip(a + 1),
        )
}

/// A token the printer's text carries faithfully.
pub open spec fn tok_ok(t: SpecToken) -> bool {
    match t {
        SpecToken::Ident(n) => valid_name(n),
        SpecToken::Int(v) => 0 <= v <= i64::MAX,
        SpecToken::Float(f) => float_shape(f),
        SpecToken::Section(w) => w.len() > 0 && forall|k: int|
            0 <= k < w.len() ==> is_ident_continue(#[trigger] w[k]),
        SpecToken::Tilde => false,
        _ => true,
    }
}

/// The character at `j` (if any) does not run on into the token `t` that
/// ends there.
pub open spec fn ends_cleanly(t: SpecToken, s: Seq<char>, j: int) -> bool {
    j >= s.len() || match t {
        SpecToken::Ident(_) => !is_ident_continue(s[j]),
        SpecToken::KwOn => !is_ident_continue(s[j]),
        SpecToken::KwIf => !is_ident_continue(s[j]),
        SpecToken::KwElse => !is_ident_continue(s[j]),
        SpecToken::KwMatch => !is_ident_continue(s[j]),
        SpecToken::Underscore => !is_ident_continue(s[j]),
        SpecToken::Section(_) => !is_ident_continue(s[j]),
        SpecToken::Int(_) => !is_digit(s[j]) && !(s[j] == '.' && j + 1 < s.len() && is_digit(s[j + 1])),
        SpecToken::Float(_) => !is_digit(s[j]),
        SpecToken::Assign => s[j] != '=',
        SpecToken::Minus => s[j] != '>',
        SpecToken::Slash => s[j] != '/',
        _ => true,
    }
}

proof fn lemma_ident_end_at(s: Seq<char>, a: int, b: int)
    requires
        0 <= a <= b <= s.len(),
        forall|k: int| a <= k < b ==> is_ident_continue(#[trigger] s[k]),
        b == s.len() || !is_ident_continue(s[b]),
    ensures
        ident_end(s, a) == b,
    decreases b - a,
{
    if a < b {
        assert(is_ident_continue(s[a]));
        lemma_ident_end_at(s, a + 1, b);
    }
}

proof fn lemma_digits_end_at(s: Seq<char>, a: int, b: int)
    requires
        0 <= a <= b <= s.len(),
        forall|k: int| a <= k < b ==> is_digit(#[trigger] s[k]),
        b == s.len() || !is_digit(s[b]),
    ensures
        digits_end(s, a) == b,
    decreases b - a,
{
    if a < b {
        assert(is_digit(s[a]));
        lemma_digits_end_at(s, a + 1, b);
    }
}

proof fn lemma_digit_char(d: int)
    requires
        0 <= d < 10,
    ensures
        is_digit(digit_char(d)),
        digit_value(digit_char(d)) == d,
{
}

proof fn lemma_nat_text(v: nat)
    ensures
        nat_text(v).len() > 0,
        all_digits(nat_text(v)),
        digits_value(nat_text(v)) == v,
    decreases v,
{
    let t = nat_text(v);
    lemma_digit_char((v % 10) as int);
    if v >= 10 {
        lemma_nat_text(v / 10);
        let h = nat_text(v / 10);
        assert(t == h + seq![digit_char((v % 10) as int)]);
        assert(t.drop_last() =~= h);
        assert(t.last() == digit_char((v % 10) as int));
        assert(digits_value(t) == digits_value(t.drop_last()) * 10 + digit_value(t.last()));
        assert(digits_value(t) == (v / 10) * 10 + v % 10);
        assert(v == (v / 10) * 10 + v % 10) by (nonlinear_arith);
        assert forall|k: int| 0 <= k < t.len() implies is_digit(#[trigger] t[k]) by {
            if k < h.len() {
                assert(t[k] == h[k]);
            }
        }
    } else {
        assert(t == seq![digit_char(v as int)]);
        assert(t.drop_last() =~= Seq::<char>::empty());
        assert(v % 10 == v);
        assert(digits_value(t) == digits_value(t.drop_last()) * 10 + digit_value(t.last()));
        assert(digits_value(Seq::<char>::empty()) == 0);
    }
}

/// The escape of one character.
pub open spec fn esc1(c: char) -> Seq<char> {
    if c == '\\' {
        seq!['\\', '\\']
    } else if c == '"' {
        seq!['\\', '"']
    } else if c == '\n' {
        seq!['\\', 'n']
    } else if c == '\t' {
        seq!['\\', 't']
    } else if c == '\r' {
        seq!['\\', 'r']
    } else {
        seq![c]
    }
}

proof fn lemma_escaped_step(s: Seq<char>)
    requires
        s.len() > 0,
    ensures
        escaped(s) == escaped(s.drop_last()) + esc1(s.last()),
{
}

proof fn lemma_escaped_one(c: char)
    ensures
        escaped(seq![c]) == esc1(c),
{
    lemma_escaped_step(seq![c]);
    assert(seq![c].drop_last() =~= Seq::<char>::empty());
    assert(escaped(Seq::<char>::empty()) == Seq::<char>::empty());
    assert(Seq::<char>::empty() + esc1(c) =~= esc1(c));
}

/// `escaped` splits over concatenation.
proof fn lemma_escaped_concat(a: Seq<char>, b: Seq<char>)
    ensures
        escaped(a + b) == escaped(a) + escaped(b),
    decreases b.len(),
{
    if b.len() == 0 {
        assert(a + b =~= a);
        assert(escaped(b) == Seq::<char>::empty());
        assert(escaped(a) + escaped(b) =~= escaped(a));
    } else {
        lemma_escaped_concat(a, b.drop_last());
        assert((a + b).drop_last() =~= a + b.drop_last());
        assert((a + b).last() == b.last());
        lemma_escaped_step(a + b);
        lemma_escaped_step(b);
        assert(escaped(a) + escaped(b.drop_last()) + esc1(b.last()) =~= escaped(a) + escaped(b));
    }
}

proof fn lemma_str_body(v: Seq<char>, s: Seq<char>, i: int)
    requires
        at_chars(s, i, escaped(v) + seq!['"']),
    ensures
        str_body(s, i) == Some((v, i + escaped(v).len() + 1)),
    decreases v.len(),
{
    let t = escaped(v) + seq!['"'];
    if v.len() == 0 {
        assert(escaped(v).len() == 0);
        assert(s[i + 0] == t[0]);
        assert(v =~= Seq::<char>::empty());
    } else {
        let c = v[0];
        let rest = v.drop_first();
        lemma_escaped_concat(seq![c], rest);
        assert(seq![c] + rest =~= v);
        lemma_escaped_one(c);
        let ec = escaped(seq![c]);
        assert(t == ec + (escaped(rest) + seq!['"']));
        lemma_chars_split(s, i, ec, escaped(rest) + seq!['"']);
        assert(s[i + 0] == ec[0]);
        if c == '\\' || c == '"' || c == '\n' || c == '\t' || c == '\r' {
            assert(ec.len() == 2);
            assert(s[i + 1] == ec[1]);
            lemma_str_body(rest, s, i + 2);
        } else {
            assert(ec == seq![c]);
            lemma_str_body(rest, s, i + 1);
        }
    }
}

/// Where a token's text stands, cleanly ended, the lexer reads exactly
/// that token.
pub proof fn lemma_lex_token(s: Seq<char>, i: int, t: SpecToken)
    requires
        tok_ok(t),
        at_chars(s, i, tok_text(t)),
        ends_cleanly(t, s, i + tok_text(t).len()),
    ensures
        lexes(s, i, i + tok_text(t).len(), seq![t]),
{
    let x = tok_text(t);
    let n = x.len();
    let k = i + n;
    assert(n > 0) by {
        match t {
            SpecToken::Int(v) => lemma_nat_text(v as nat),
            SpecToken::Float(f) => {},
            _ => {},
        }
    }
    assert(s[i + 0] == x[0]);
    assert(token_at(s, i) == Some((t, k))) by {
        match t {
            SpecToken::Ident(m) => {
                assert forall|q: int| i + 1 <= q < k implies is_ident_continue(#[trigger] s[q]) by {
                    assert(s[i + (q - i)] == m[q - i]);
                }
                lemma_ident_end_at(s, i + 1, k);
                assert(s.subrange(i, k) =~= m);
            },
            SpecToken::KwOn | SpecToken::KwIf | SpecToken::KwElse | SpecToken::KwMatch | SpecToken::Underscore => {
                assert forall|q: int| i + 1 <= q < k implies is_ident_continue(#[trigger] s[q]) by {
                    assert(s[i + (q - i)] == x[q - i]);
                    let m = q - i;
                    if m == 1 {
                        assert(is_ident_continue(x[1]));
                    } else if m == 2 {
                        assert(is_ident_continue(x[2]));
                    } else if m == 3 {
                        assert(is_ident_continue(x[3]));
                    } else {
                        assert(is_ident_continue(x[4]));
                    }
                }
                lemma_ident_end_at(s, i + 1, k);
                assert(s.subrange(i, k) =~= x);
            },
            SpecToken::Int(v) => {
                lemma_nat_text(v as nat);
                assert forall|q: int| i + 1 <= q < k implies is_digit(#[trigger] s[q]) by {
                    assert(s[i + (q - i)] == x[q - i]);
                }
                lemma_digits_end_at(s, i + 1, k);
                assert(s.subrange(i, k) =~= x);
            },
            SpecToken::Float(f) => {
                let a = choose|a: int|
                    0 < a && a + 1 < f.len() && f[a] == '.' && all_digits(#[trigger] f.take(a))
                        && all_digits(f.skip(a + 1));
                assert forall|q: int| i + 1 <= q < i + a implies is_digit(#[trigger] s[q]) by {
                    assert(s[i + (q - i)] == f[q - i]);
                    assert(f.take(a)[q - i] == f[q - i]);
                }
                assert(f.take(a)[0] == f[0]);
                assert(s[i + a] == f[a]);
                lemma_digits_end_at(s, i + 1, i + a);
                assert forall|q: int| i + a + 2 <= q < k implies is_digit(#[trigger] s[q]) by {
                    assert(s[i + (q - i)] == f[q - i]);
                    assert(f.skip(a + 1)[q - i - a - 1] == f[q - i]);
                }
                assert(s[i + a + 1] == f[a + 1]);
                assert(f.skip(a + 1)[0] == f[a + 1]);
                lemma_digits_end_at(s, i + a + 2, k);
                assert(s.subrange(i, k) =~= f);
            },
            SpecToken::Str(v) => {
                assert(seq!['"'] + escaped(v) + seq!['"'] =~= seq!['"'] + (escaped(v) + seq!['"']));
                lemma_chars_split(s, i, seq!['"'], escaped(v) + seq!['"']);
                lemma_str_body(v, s, i + 1);
            },
            SpecToken::Section(w) => {
                assert(s[i + 1] == x[1]);
                assert(s[i + 2] == x[2]);
                assert(s[i + 3] == x[3]);
                assert(s[i + 4] == x[4]);
                assert(s[i + 5] == x[5]);
                assert(blank_end(s, i + 4) == i + 4);
                assert(blank_end(s, i + 3) == i + 4);
                assert forall|q: int| i + 5 <= q < k implies is_ident_continue(#[trigger] s[q]) by {
                    assert(s[i + (q - i)] == x[q - i]);
                    assert(x[q - i] == w[q - i - 5]);
                }
                lemma_ident_end_at(s, i + 5, k);
                assert forall|m: int| 0 <= m < w.len() implies s.subrange(i + 5, k)[m] == w[m] by {
                    assert(s[i + (5 + m)] == x[5 + m]);
                    assert(x[5 + m] == w[m]);
                }
                assert(s.subrange(i + 5, k) =~= w);
            },
            SpecToken::Arrow | SpecToken::StateShift | SpecToken::Pipe | SpecToken::EqEq => {
                assert(s[i + 1] == x[1]);
            },
            _ => {
                if n > 1 {
                    assert(s[i + 1] == x[1]);
                }
            },
        }
    }
    assert(skip_trivia(s, i) == i) by {
        if t == SpecToken::Slash {
            assert(!triple_slash_at(s, i));
        }
    }
    match lex_toks(s, k) {
        Some(r) => {
            let v = lex_from(s, k)->Some_0;
            assert(tokens_of_spanned(seq![(t, i, k)] + v) =~= seq![t] + r);
        },
        None => {},
    }
}

// ---------------------------------------------------------------------
// Reading pieces of text.

/// The character at `j` (if any) ends whatever token stands before it.
pub open spec fn follow_ok(s: Seq<char>, j: int) -> bool {
    j >= s.len() || {
        let c = s[j];
        ||| is_ws(c)
        ||| c == '(' || c == ')' || c == '[' || c == ']' || c == '{' || c == '}'
        ||| c == ',' || c == ':'
        ||| c == '.' && j + 1 < s.len() && !is_digit(s[j + 1])
    }
}

/// `y` begins with characters that end whatever token stands before it.
pub open spec fn starts_ok(y: Seq<char>) -> bool {
    y.len() > 0 && {
        let c = y[0];
        ||| is_ws(c)
        ||| c == '(' || c == ')' || c == '[' || c == ']' || c == '{' || c == '}'
        ||| c == ',' || c == ':'
        ||| c == '.' && y.len() > 1 && !is_digit(y[1])
    }
}

/// Wherever the text `x` stands, the lexer reads it as the tokens `t`;
/// unless `free`, only where the character after it ends its last token.
#[verifier::opaque]
pub open spec fn rd(x: Seq<char>, t: Seq<SpecToken>, free: bool) -> bool {
    forall|s: Seq<char>, i: int|
        #[trigger] at_chars(s, i, x) && (free || follow_ok(s, i + x.len())) ==> lexes(
            s,
            i,
            i + x.len(),
            t,
        )
}

/// Tokens that end where their text ends, whatever follows.
pub open spec fn free_tok(t: SpecToken) -> bool {
    match t {
        SpecToken::Ident(_) | SpecToken::Int(_) | SpecToken::Float(_) | SpecToken::KwOn
        | SpecToken::KwIf | SpecToken::KwElse | SpecToken::KwMatch | SpecToken::Underscore
        | SpecToken::Section(_) | SpecToken::Assign | SpecToken::Minus | SpecToken::Slash
        | SpecToken::Tilde => false,
        _ => true,
    }
}

proof fn lemma_follow_ends(t: SpecToken, s: Seq<char>, j: int)
    requires
        0 <= j,
        follow_ok(s, j),
    ensures
        ends_cleanly(t, s, j),
{
}

proof fn lemma_tok(t: SpecToken)
    requires
        tok_ok(t),
    ensures
        rd(tok_text(t), seq![t], free_tok(t)),
{
    reveal(rd);
    let x = tok_text(t);
    assert forall|s: Seq<char>, i: int|
        #[trigger] at_chars(s, i, x) && (free_tok(t) || follow_ok(s, i + x.len())) implies lexes(
            s,
            i,
            i + x.len(),
            seq![t],
        ) by {
        if !free_tok(t) {
            lemma_follow_ends(t, s, i + x.len());
        }
        lemma_lex_token(s, i, t);
    }
}

pub open spec fn all_ws(w: Seq<char>) -> bool {
    forall|k: int| 0 <= k < w.len() ==> is_ws(#[trigger] w[k])
}

proof fn lemma_ws(w: Seq<char>)
    requires
        all_ws(w),
    ensures
        rd(w, Seq::empty(), true),
{
    reveal(rd);
    assert forall|s: Seq<char>, i: int|
        #[trigger] at_chars(s, i, w) && (true || follow_ok(s, i + w.len())) implies lexes(
            s,
            i,
            i + w.len(),
            Seq::empty(),
        ) by {
        assert forall|k: int| i <= k < i + w.len() implies is_ws(#[trigger] s[k]) by {
            assert(s[i + (k - i)] == w[k - i]);
        }
        lemma_lexes_ws(s, i, i + w.len());
    }
}

proof fn lemma_weaken(x: Seq<char>, t: Seq<SpecToken>)
    requires
        rd(x, t, true),
    ensures
        rd(x, t, false),
{
    reveal(rd);
}

/// Text read piece by piece.
proof fn lemma_cat(x: Seq<char>, a: Seq<SpecToken>, fx: bool, y: Seq<char>, b: Seq<SpecToken>, fy: bool)
    requires
        rd(x, a, fx),
        rd(y, b, fy),
        fx || starts_ok(y) || y.len() == 0,
    ensures
        rd(x + y, a + b, if y.len() == 0 { fx && fy } else { fy }),
{
    reveal(rd);
    let f = if y.len() == 0 { fx && fy } else { fy };
    assert forall|s: Seq<char>, i: int|
        #[trigger] at_chars(s, i, x + y) && (f || follow_ok(s, i + (x + y).len())) implies lexes(
            s,
            i,
            i + (x + y).len(),
            a + b,
        ) by {
        lemma_chars_split(s, i, x, y);
        let j = i + x.len();
        if !fx && y.len() > 0 {
            assert(s[j] == y[0]) by {
                assert(s[j + 0] == y[0]);
            }
            if y.len() > 1 {
                assert(s[j + 1] == y[1]);
            }
        }
        assert(at_chars(s, i, x));
        assert(at_chars(s, j, y));
        assert(lexes(s, i, j, a));
        assert(lexes(s, j, j + y.len(), b));
        lemma_lexes_trans(s, i, j, j + y.len(), a, b);
    }
}

proof fn lemma_empty()
    ensures
        rd(Seq::empty(), Seq::empty(), true),
{
    lemma_ws(Seq::empty());
}

// ---------------------------------------------------------------------
// Literal pieces of the printer's text.

proof fn lemma_sp()
    ensures
        rd(" "@, Seq::empty(), true),
        starts_ok(" "@),
{
    reveal_strlit(" ");
    lemma_ws(" "@);
}

proof fn lemma_nl()
    ensures
        rd("\n"@, Seq::empty(), true),
        starts_ok("\n"@),
{
    reveal_strlit("\n");
    lemma_ws("\n"@);
}

proof fn lemma_indent(d: nat)
    ensures
        all_ws(indent_text(d)),
        rd(indent_text(d), Seq::empty(), true),
        indent_text(d).len() > 0 ==> starts_ok(indent_text(d)),
    decreases d,
{
    reveal_strlit("  ");
    if d > 0 {
        lemma_indent((d - 1) as nat);
        let a = indent_text((d - 1) as nat);
        assert forall|k: int| 0 <= k < indent_text(d).len() implies is_ws(#[trigger] indent_text(d)[k]) by {
            if k < a.len() {
                assert(indent_text(d)[k] == a[k]);
            } else {
                assert(indent_text(d)[k] == "  "@[k - a.len()]);
            }
        }
    }
    lemma_ws(indent_text(d));
}

/// A token with a blank on either side.
proof fn lemma_padded(t: SpecToken)
    requires
        tok_ok(t),
    ensures
        rd(" "@ + tok_text(t) + " "@, seq![t], true),
{
    lemma_sp();
    lemma_tok(t);
    lemma_cat(" "@, Seq::empty(), true, tok_text(t), seq![t], free_tok(t));
    lemma_cat(" "@ + tok_text(t), Seq::empty() + seq![t], free_tok(t), " "@, Seq::empty(), true);
    assert(Seq::<SpecToken>::empty() + seq![t] + Seq::empty() =~= seq![t]);
}

/// A token followed by a blank.
proof fn lemma_tok_sp(t: SpecToken)
    requires
        tok_ok(t),
    ensures
        rd(tok_text(t) + " "@, seq![t], true),
{
    lemma_sp();
    lemma_tok(t);
    lemma_cat(tok_text(t), seq![t], free_tok(t), " "@, Seq::empty(), true);
    assert(seq![t] + Seq::empty() =~= seq![t]);
}

/// A blank followed by a token.
proof fn lemma_sp_tok(t: SpecToken)
    requires
        tok_ok(t),
    ensures
        rd(" "@ + tok_text(t), seq![t], free_tok(t)),
{
    lemma_sp();
    lemma_tok(t);
    lemma_cat(" "@, Seq::empty(), true, tok_text(t), seq![t], free_tok(t));
    assert(Seq::<SpecToken>::empty() + seq![t] =~= seq![t]);
}

/// `.name`
proof fn lemma_dot_name(n: Name)
    requires
        valid_name(n),
    ensures
        rd("."@ + n, seq![SpecToken::Dot, SpecToken::Ident(n)], false),
        starts_ok("."@ + n),
{
    reveal_strlit(".");
    lemma_tok(SpecToken::Dot);
    lemma_tok(SpecToken::Ident(n));
    assert(tok_text(SpecToken::Dot) =~= "."@);
    lemma_cat("."@, seq![SpecToken::Dot], true, n, seq![SpecToken::Ident(n)], false);
    assert(seq![SpecToken::Dot] + seq![SpecToken::Ident(n)] =~= seq![SpecToken::Dot, SpecToken::Ident(n)]);
    assert(("."@ + n)[1] == n[0]);
}

/// A name followed by a blank.
proof fn lemma_name_sp(n: Name)
    requires
        valid_name(n),
    ensures
        rd(n + " "@, seq![SpecToken::Ident(n)], true),
{
    lemma_tok_sp(SpecToken::Ident(n));
}

pub open spec fn lexable_path(p: Seq<Name>) -> bool {
    forall|k: int| 0 <= k < p.len() ==> valid_name(#[trigger] p[k])
}

proof fn lemma_tail_back(s: Seq<Name>)
    requires
        s.len() > 0,
    ensures
        tail_toks(s) == tail_toks(s.drop_last()) + seq![SpecToken::Dot, SpecToken::Ident(s.last())],
    decreases s.len(),
{
    if s.len() == 1 {
        assert(s.drop_first() =~= Seq::<Name>::empty());
        assert(s.drop_last() =~= Seq::<Name>::empty());
        assert(tail_toks(s.drop_first()) == Seq::<SpecToken>::empty());
        assert(tail_toks(s) =~= seq![SpecToken::Dot, SpecToken::Ident(s[0])] + Seq::empty());
        assert(tail_toks(s.drop_last()) == Seq::<SpecToken>::empty());
        assert(Seq::<SpecToken>::empty() + seq![SpecToken::Dot, SpecToken::Ident(s.last())]
            =~= seq![SpecToken::Dot, SpecToken::Ident(s[0])] + Seq::empty());
    } else {
        lemma_tail_back(s.drop_first());
        assert(s.drop_first().drop_last() =~= s.drop_last().drop_first());
        assert(s.drop_first().last() == s.last());
        assert(s.drop_last()[0] == s[0]);
        let a = seq![SpecToken::Dot, SpecToken::Ident(s[0])];
        let b = seq![SpecToken::Dot, SpecToken::Ident(s.last())];
        let m = tail_toks(s.drop_first().drop_last());
        assert(tail_toks(s) == a + tail_toks(s.drop_first()));
        assert(tail_toks(s.drop_last()) == a + m);
        assert(a + (m + b) =~= (a + m) + b);
    }
}

/// `a.b.c`
proof fn lemma_dotted(segs: Seq<Name>)
    requires
        segs.len() > 0,
        lexable_path(segs),
    ensures
        rd(dotted_text(segs), path_toks(segs), false),
    decreases segs.len(),
{
    if segs.len() == 1 {
        assert(valid_name(segs[0]));
        lemma_tok(SpecToken::Ident(segs[0]));
        assert(segs.drop_first() =~= Seq::<Name>::empty());
        assert(path_toks(segs) =~= seq![SpecToken::Ident(segs[0])]);
    } else {
        let dl = segs.drop_last();
        assert(lexable_path(dl)) by {
            assert forall|k: int| 0 <= k < dl.len() implies valid_name(#[trigger] dl[k]) by {
                assert(dl[k] == segs[k]);
            }
        }
        lemma_dotted(dl);
        assert(valid_name(segs[segs.len() - 1]));
        let n = segs.last();
        let y = "."@ + n;
        lemma_dot_name(n);
        lemma_cat(dotted_text(dl), path_toks(dl), false, y, seq![SpecToken::Dot, SpecToken::Ident(n)], false);
        assert(dotted_text(segs) =~= dotted_text(dl) + y);
        lemma_tail_back(segs.drop_first());
        assert(segs.drop_first().drop_last() =~= dl.drop_first());
        assert(segs.drop_first().last() == n);
        assert(dl[0] == segs[0]);
        assert(path_toks(segs) =~= path_toks(dl) + seq![SpecToken::Dot, SpecToken::Ident(n)]);
    }
}

// ---------------------------------------------------------------------
// Lists.

/// Token sequences with `sep` between each two.
pub open spec fn interleave(ts: Seq<Seq<SpecToken>>, sep: Seq<SpecToken>) -> Seq<SpecToken>
    decreases ts.len(),
{
    if ts.len() == 0 {
        Seq::empty()
    } else if ts.len() == 1 {
        ts[0]
    } else {
        interleave(ts.drop_last(), sep) + sep + ts.last()
    }
}

proof fn lemma_interleave_front(ts: Seq<Seq<SpecToken>>, sep: Seq<SpecToken>)
    requires
        ts.len() >= 2,
    ensures
        interleave(ts, sep) == ts[0] + (sep + interleave(ts.drop_first(), sep)),
    decreases ts.len(),
{
    let dl = ts.drop_last();
    let df = ts.drop_first();
    if ts.len() == 2 {
        assert(dl.len() == 1);
        assert(interleave(dl, sep) == dl[0]);
        assert(df.len() == 1);
        assert(interleave(df, sep) == df[0]);
        assert(ts[0] + sep + ts[1] =~= ts[0] + (sep + ts[1]));
    } else {
        lemma_interleave_front(dl, sep);
        assert(dl.drop_first() =~= df.drop_last());
        assert(df.last() == ts.last());
        let m = interleave(df.drop_last(), sep);
        assert(interleave(df, sep) == m + sep + ts.last());
        assert(interleave(ts, sep) == ts[0] + (sep + m) + sep + ts.last());
        assert(ts[0] + (sep + m) + sep + ts.last() =~= ts[0] + (sep + (m + sep + ts.last())));
    }
}

/// Items joined by a separator read as their tokens joined by its tokens.
proof fn lemma_joined(xs: Seq<Seq<char>>, ts: Seq<Seq<SpecToken>>, sep: Seq<char>, st: Seq<SpecToken>)
    requires
        xs.len() == ts.len(),
        forall|k: int| 0 <= k < xs.len() ==> rd(#[trigger] xs[k], ts[k], false),
        rd(sep, st, true),
        starts_ok(sep),
    ensures
        rd(joined(xs, sep), interleave(ts, st), false),
    decreases xs.len(),
{
    if xs.len() == 0 {
        lemma_empty();
        lemma_weaken(Seq::empty(), Seq::empty());
    } else if xs.len() == 1 {
        assert(rd(xs[0], ts[0], false));
    } else {
        let xd = xs.drop_last();
        let td = ts.drop_last();
        assert forall|k: int| 0 <= k < xd.len() implies rd(#[trigger] xd[k], td[k], false) by {
            assert(xd[k] == xs[k]);
            assert(td[k] == ts[k]);
        }
        lemma_joined(xd, td, sep, st);
        let j = joined(xd, sep);
        lemma_cat(j, interleave(td, st), false, sep, st, true);
        assert(rd(xs[xs.len() - 1], ts[ts.len() - 1], false));
        lemma_cat(j + sep, interleave(td, st) + st, true, xs.last(), ts.last(), false);
    }
}

/// Pieces that each end freely read as their tokens in turn.
proof fn lemma_concat(xs: Seq<Seq<char>>, ts: Seq<Seq<SpecToken>>)
    requires
        xs.len() == ts.len(),
        forall|k: int| 0 <= k < xs.len() ==> rd(#[trigger] xs[k], ts[k], true),
    ensures
        rd(concat_all(xs), ts.flatten(), true),
    decreases xs.len(),
{
    ts.lemma_flatten_and_flatten_alt_are_equivalent();
    if xs.len() == 0 {
        lemma_empty();
    } else {
        let xd = xs.drop_last();
        let td = ts.drop_last();
        assert forall|k: int| 0 <= k < xd.len() implies rd(#[trigger] xd[k], td[k], true) by {
            assert(xd[k] == xs[k]);
            assert(td[k] == ts[k]);
        }
        lemma_concat(xd, td);
        td.lemma_flatten_and_flatten_alt_are_equivalent();
        assert(rd(xs[xs.len() - 1], ts[ts.len() - 1], true));
        lemma_cat(concat_all(xd), td.flatten(), true, xs.last(), ts.last(), true);
    }
}

// ---------------------------------------------------------------------
// The printer's literals.

proof fn lemma_lit_arrow()
    ensures
        rd(" -> "@, seq![SpecToken::Arrow], true),
        starts_ok(" -> "@),
{
    reveal_strlit(" -> ");
    reveal_strlit(" ");
    lemma_padded(SpecToken::Arrow);
    assert(" -> "@ =~= " "@ + tok_text(SpecToken::Arrow) + " "@);
}

proof fn lemma_lit_assign()
    ensures
        rd(" = "@, seq![SpecToken::Assign], true),
        starts_ok(" = "@),
{
    reveal_strlit(" = ");
    reveal_strlit(" ");
    lemma_padded(SpecToken::Assign);
    assert(" = "@ =~= " "@ + tok_text(SpecToken::Assign) + " "@);
}

proof fn lemma_lit_at()
    ensures
        rd(" @ "@, seq![SpecToken::At], true),
        starts_ok(" @ "@),
{
    reveal_strlit(" @ ");
    reveal_strlit(" ");
    lemma_padded(SpecToken::At);
    assert(" @ "@ =~= " "@ + tok_text(SpecToken::At) + " "@);
}

proof fn lemma_lit_comma()
    ensures
        rd(", "@, seq![SpecToken::Comma], true),
        starts_ok(", "@),
{
    reveal_strlit(", ");
    reveal_strlit(" ");
    lemma_tok_sp(SpecToken::Comma);
    assert(", "@ =~= tok_text(SpecToken::Comma) + " "@);
}

proof fn lemma_lit_colon()
    ensures
        rd(": "@, seq![SpecToken::Colon], true),
        starts_ok(": "@),
{
    reveal_strlit(": ");
    reveal_strlit(" ");
    lemma_tok_sp(SpecToken::Colon);
    assert(": "@ =~= tok_text(SpecToken::Colon) + " "@);
}

proof fn lemma_lit_pipe()
    ensures
        rd("|> "@, seq![SpecToken::Pipe], true),
{
    reveal_strlit("|> ");
    reveal_strlit(" ");
    lemma_tok_sp(SpecToken::Pipe);
    assert("|> "@ =~= tok_text(SpecToken::Pipe) + " "@);
}

/// A single punctuation token.
proof fn lemma_lit_punct(t: SpecToken, x: Seq<char>)
    requires
        tok_ok(t),
        free_tok(t),
        x =~= tok_text(t),
        tok_text(t).len() == 1,
        tok_text(t)[0] == '(' || tok_text(t)[0] == ')' || tok_text(t)[0] == '['
            || tok_text(t)[0] == ']' || tok_text(t)[0] == '{' || tok_text(t)[0] == '}',
    ensures
        rd(x, seq![t], true),
        starts_ok(x),
{
    lemma_tok(t);
}

proof fn lemma_lit_lparen()
    ensures
        rd("("@, seq![SpecToken::LParen], true),
        starts_ok("("@),
{
    reveal_strlit("(");
    lemma_lit_punct(SpecToken::LParen, "("@);
}

proof fn lemma_lit_rparen()
    ensures
        rd(")"@, seq![SpecToken::RParen], true),
        starts_ok(")"@),
{
    reveal_strlit(")");
    lemma_lit_punct(SpecToken::RParen, ")"@);
}

proof fn lemma_lit_lbracket()
    ensures
        rd("["@, seq![SpecToken::LBracket], true),
        starts_ok("["@),
{
    reveal_strlit("[");
    lemma_lit_punct(SpecToken::LBracket, "["@);
}

proof fn lemma_lit_rbracket()
    ensures
        rd("]"@, seq![SpecToken::RBracket], true),
        starts_ok("]"@),
{
    reveal_strlit("]");
    lemma_lit_punct(SpecToken::RBracket, "]"@);
}

proof fn lemma_lit_lbrace()
    ensures
        rd("{"@, seq![SpecToken::LBrace], true),
        starts_ok("{"@),
{
    reveal_strlit("{");
    lemma_lit_punct(SpecToken::LBrace, "{"@);
}

proof fn lemma_lit_rbrace()
    ensures
        rd("}"@, seq![SpecToken::RBrace], true),
        starts_ok("}"@),
{
    reveal_strlit("}");
    lemma_lit_punct(SpecToken::RBrace, "}"@);
}

/// ` / {`
proof fn lemma_lit_effects()
    ensures
        rd(" / {"@, seq![SpecToken::Slash, SpecToken::LBrace], true),
        starts_ok(" / {"@),
{
    reveal_strlit(" / {");
    reveal_strlit(" ");
    reveal_strlit("{");
    lemma_padded(SpecToken::Slash);
    lemma_lit_lbrace();
    let a = " "@ + tok_text(SpecToken::Slash) + " "@;
    lemma_cat(a, seq![SpecToken::Slash], true, "{"@, seq![SpecToken::LBrace], true);
    assert(" / {"@ =~= a + "{"@);
    assert(seq![SpecToken::Slash] + seq![SpecToken::LBrace] =~= seq![SpecToken::Slash, SpecToken::LBrace]);
}

/// ` {\n`, ` {`, ` {}`, `{}` and `{\n`.
proof fn lemma_lit_braces()
    ensures
        rd(" {\n"@, seq![SpecToken::LBrace], true),
        starts_ok(" {\n"@),
        rd(" {"@, seq![SpecToken::LBrace], true),
        starts_ok(" {"@),
        rd(" {}"@, seq![SpecToken::LBrace, SpecToken::RBrace], true),
        starts_ok(" {}"@),
        rd("{}"@, seq![SpecToken::LBrace, SpecToken::RBrace], true),
        rd("{\n"@, seq![SpecToken::LBrace], true),
{
    reveal_strlit(" {\n");
    reveal_strlit(" {");
    reveal_strlit(" {}");
    reveal_strlit("{}");
    reveal_strlit("{\n");
    reveal_strlit(" ");
    reveal_strlit("\n");
    reveal_strlit("{");
    reveal_strlit("}");
    lemma_sp();
    lemma_nl();
    lemma_lit_lbrace();
    lemma_lit_rbrace();
    let o = seq![SpecToken::LBrace];
    let c = seq![SpecToken::RBrace];
    let e = Seq::<SpecToken>::empty();
    lemma_cat(" "@, e, true, "{"@, o, true);
    assert(" {"@ =~= " "@ + "{"@);
    assert(e + o =~= o);
    lemma_cat(" {"@, o, true, "\n"@, e, true);
    assert(" {\n"@ =~= " {"@ + "\n"@);
    assert(o + e =~= o);
    lemma_cat(" {"@, o, true, "}"@, c, true);
    assert(" {}"@ =~= " {"@ + "}"@);
    assert(o + c =~= seq![SpecToken::LBrace, SpecToken::RBrace]);
    lemma_cat("{"@, o, true, "}"@, c, true);
    assert("{}"@ =~= "{"@ + "}"@);
    lemma_cat("{"@, o, true, "\n"@, e, true);
    assert("{\n"@ =~= "{"@ + "\n"@);
}

/// An operator with a blank on either side.
proof fn lemma_lit_op(op: BinOp)
    ensures
        rd(" "@ + op_text(op) + " "@, seq![op_tok(op)], true),
        starts_ok(" "@ + op_text(op) + " "@),
{
    reveal_strlit(" ");
    reveal_strlit("+");
    reveal_strlit("-");
    reveal_strlit("*");
    reveal_strlit("/");
    reveal_strlit("<");
    reveal_strlit(">");
    reveal_strlit("==");
    reveal_strlit("|>");
    reveal_strlit("~>");
    assert(op_text(op) =~= tok_text(op_tok(op)));
    lemma_padded(op_tok(op));
}

// ---------------------------------------------------------------------
// Types.

pub open spec fn lexable_type(t: SpecType) -> bool
    decreases t,
{
    match t {
        SpecType::Path(segs) => lexable_path(segs),
        SpecType::List(inner) => lexable_type(*inner),
        SpecType::Function { from, to, effects } => lexable_type(*from) && lexable_type(*to) && forall|
            k: int,
        |
            0 <= k < effects.len() ==> lexable_path(#[trigger] effects[k]),
        SpecType::Record(fields) => forall|k: int|
            0 <= k < fields.len() ==> valid_name((#[trigger] fields[k]).0) && lexable_type(fields[k].1),
    }
}

proof fn lemma_effs_close(effs: Seq<Seq<Name>>)
    requires
        effs.len() > 0,
    ensures
        effs_close(effs) == interleave(
            Seq::new(effs.len(), |k: int| path_toks(effs[k])),
            seq![SpecToken::Comma],
        ) + seq![SpecToken::RBrace],
    decreases effs.len(),
{
    let ts = Seq::new(effs.len(), |k: int| path_toks(effs[k]));
    let c = seq![SpecToken::Comma];
    let r = seq![SpecToken::RBrace];
    if effs.len() > 1 {
        let rest = effs.drop_first();
        lemma_effs_close(rest);
        assert(Seq::new(rest.len(), |k: int| path_toks(rest[k])) =~= ts.drop_first());
        lemma_interleave_front(ts, c);
        let m = interleave(ts.drop_first(), c);
        assert(effs_close(effs) == ts[0] + (c + (m + r)));
        assert(ts[0] + (c + (m + r)) =~= ts[0] + (c + m) + r);
    }
}

proof fn lemma_named_close(fs: Seq<(Name, SpecType)>)
    requires
        fs.len() > 0,
    ensures
        named_close(fs) == interleave(
            Seq::new(
                fs.len(),
                |k: int| seq![SpecToken::Ident(fs[k].0), SpecToken::Colon] + type_toks(fs[k].1),
            ),
            seq![SpecToken::Comma],
        ) + seq![SpecToken::RBrace],
    decreases fs.len(),
{
    let ts = Seq::new(
        fs.len(),
        |k: int| seq![SpecToken::Ident(fs[k].0), SpecToken::Colon] + type_toks(fs[k].1),
    );
    let c = seq![SpecToken::Comma];
    let r = seq![SpecToken::RBrace];
    if fs.len() > 1 {
        let rest = fs.drop_first();
        lemma_named_close(rest);
        assert(Seq::new(
            rest.len(),
            |k: int| seq![SpecToken::Ident(rest[k].0), SpecToken::Colon] + type_toks(rest[k].1),
        ) =~= ts.drop_first());
        lemma_interleave_front(ts, c);
        let m = interleave(ts.drop_first(), c);
        assert(named_close(fs) == ts[0] + (c + (m + r)));
        assert(ts[0] + (c + (m + r)) =~= ts[0] + (c + m) + r);
    } else {
        assert(named_close(fs) == ts[0] + r);
    }
}

/// `[` inner `]`, or any text between two free pieces.
proof fn lemma_wrapped(
    o: Seq<char>,
    ot: Seq<SpecToken>,
    x: Seq<char>,
    xt: Seq<SpecToken>,
    fx: bool,
    c: Seq<char>,
    ct: Seq<SpecToken>,
)
    requires
        rd(o, ot, true),
        rd(x, xt, fx),
        rd(c, ct, true),
        starts_ok(c),
    ensures
        rd(o + x + c, ot + xt + ct, true),
{
    lemma_cat(o, ot, true, x, xt, fx);
    lemma_cat(o + x, ot + xt, fx, c, ct, true);
}

proof fn lemma_type(t: SpecType)
    requires
        wf_type(t),
        lexable_type(t),
    ensures
        rd(type_text(t), type_toks(t), false),
    decreases t,
{
    match t {
        SpecType::Path(segs) => {
            lemma_dotted(segs);
        },
        SpecType::List(inner) => {
            lemma_type(*inner);
            lemma_lit_lbracket();
            lemma_lit_rbracket();
            lemma_wrapped("["@, seq![SpecToken::LBracket], type_text(*inner), type_toks(*inner), false, "]"@, seq![SpecToken::RBracket]);
            lemma_weaken(type_text(t), type_toks(t));
        },
        SpecType::Function { from, to, effects } => {
            lemma_type(*from);
            lemma_type(*to);
            let (f, ft) = if *from is Function {
                ("("@ + type_text(*from) + ")"@, seq![SpecToken::LParen] + type_toks(*from) + seq![SpecToken::RParen])
            } else {
                (type_text(*from), type_toks(*from))
            };
            if *from is Function {
                lemma_lit_lparen();
                lemma_lit_rparen();
                lemma_wrapped("("@, seq![SpecToken::LParen], type_text(*from), type_toks(*from), false, ")"@, seq![SpecToken::RParen]);
                lemma_weaken(f, ft);
            }
            lemma_lit_arrow();
            let a = seq![SpecToken::Arrow];
            lemma_cat(f, ft, false, " -> "@, a, true);
            lemma_cat(f + " -> "@, ft + a, true, type_text(*to), type_toks(*to), false);
            let head = f + " -> "@ + type_text(*to);
            let headt = ft + a + type_toks(*to);
            assert(rd(head, headt, false));
            if effects.len() == 0 {
                assert(type_text(t) =~= head + Seq::empty());
                assert(type_toks(t) =~= headt + Seq::empty());
                assert(type_text(t) =~= head);
                assert(type_toks(t) =~= headt);
            } else {
                let xs = effects.map_values(|e: Seq<Name>| dotted_text(e));
                let ts = Seq::new(effects.len(), |k: int| path_toks(effects[k]));
                assert forall|k: int| 0 <= k < xs.len() implies rd(#[trigger] xs[k], ts[k], false) by {
                    assert(effects[k].len() > 0);
                    assert(lexable_path(effects[k]));
                    lemma_dotted(effects[k]);
                }
                lemma_lit_comma();
                lemma_joined(xs, ts, ", "@, seq![SpecToken::Comma]);
                lemma_lit_effects();
                lemma_lit_rbrace();
                let j = joined(xs, ", "@);
                let jt = interleave(ts, seq![SpecToken::Comma]);
                lemma_wrapped(" / {"@, seq![SpecToken::Slash, SpecToken::LBrace], j, jt, false, "}"@, seq![SpecToken::RBrace]);
                let tail = " / {"@ + j + "}"@;
                let tailt = seq![SpecToken::Slash, SpecToken::LBrace] + jt + seq![SpecToken::RBrace];
                lemma_cat(head, headt, false, tail, tailt, true);
                lemma_weaken(head + tail, headt + tailt);
                lemma_effs_close(effects);
                assert(type_text(t) =~= head + tail);
                assert(type_toks(t) =~= headt + tailt);
            }
        },
        SpecType::Record(fields) => {
            lemma_lit_lbrace();
            lemma_lit_rbrace();
            let o = seq![SpecToken::LBrace];
            let c = seq![SpecToken::RBrace];
            if fields.len() == 0 {
                assert(joined(field_texts(fields), ", "@) == Seq::<char>::empty());
                lemma_cat("{"@, o, true, "}"@, c, true);
                assert(type_text(t) =~= "{"@ + "}"@);
                assert(type_toks(t) =~= o + c);
                lemma_weaken(type_text(t), type_toks(t));
            } else {
                let xs = field_texts(fields);
                let ts = Seq::new(
                    fields.len(),
                    |k: int| seq![SpecToken::Ident(fields[k].0), SpecToken::Colon] + type_toks(fields[k].1),
                );
                lemma_lit_colon();
                assert forall|k: int| 0 <= k < xs.len() implies rd(#[trigger] xs[k], ts[k], false) by {
                    let (n, ty) = fields[k];
                    assert(valid_name(n) && lexable_type(ty));
                    assert(wf_type(ty)) by {
                        lemma_wf_named_at(fields, k);
                    }
                    lemma_type(ty);
                    lemma_tok(SpecToken::Ident(n));
                    let id = seq![SpecToken::Ident(n)];
                    let co = seq![SpecToken::Colon];
                    lemma_cat(n, id, false, ": "@, co, true);
                    lemma_cat(n + ": "@, id + co, true, type_text(ty), type_toks(ty), false);
                    assert(id + co =~= seq![SpecToken::Ident(n), SpecToken::Colon]);
                }
                lemma_lit_comma();
                lemma_joined(xs, ts, ", "@, seq![SpecToken::Comma]);
                let j = joined(xs, ", "@);
                let jt = interleave(ts, seq![SpecToken::Comma]);
                lemma_wrapped("{"@, o, j, jt, false, "}"@, c);
                lemma_weaken("{"@ + j + "}"@, o + jt + c);
                lemma_named_close(fields);
                assert(type_toks(t) =~= o + jt + c);
            }
        },
    }
}

proof fn lemma_wf_named_at(fs: Seq<(Name, SpecType)>, k: int)
    requires
        wf_named(fs),
        0 <= k < fs.len(),
    ensures
        wf_type(fs[k].1),
    decreases k,
{
    if k > 0 {
        lemma_wf_named_at(fs.drop_first(), k - 1);
        assert(fs.drop_first()[k - 1] == fs[k]);
    }
}

// ---------------------------------------------------------------------
// Expressions and statements.

pub open spec fn lexable_pattern(p: SpecPattern) -> bool {
    match p {
        SpecPattern::Wildcard => true,
        SpecPattern::Constructor(path) => path.len() > 0 && lexable_path(path),
    }
}

pub open spec fn lexable_expr(e: SpecExpr) -> bool
    decreases e,
{
    match e {
        SpecExpr::Int(n) => 0 <= n <= i64::MAX,
        SpecExpr::Float(t) => float_shape(t),
        SpecExpr::Str(_) => true,
        SpecExpr::Ident(n) => valid_name(n),
        SpecExpr::Binary(_, l, r) => lexable_expr(*l) && lexable_expr(*r),
        SpecExpr::Call { callee, args } => valid_name(callee) && forall|k: int|
            0 <= k < args.len() ==> lexable_arg(#[trigger] args[k]),
        SpecExpr::List(items) => forall|k: int| 0 <= k < items.len() ==> lexable_expr(#[trigger] items[k]),
        SpecExpr::FieldAccess { object, field } => lexable_expr(*object) && valid_name(field),
        SpecExpr::Match { scrutinee, arms } => lexable_expr(*scrutinee) && forall|k: int|
            0 <= k < arms.len() ==> lexable_arm(#[trigger] arms[k]),
    }
}

pub open spec fn lexable_arg(a: SpecArg) -> bool
    decreases a,
{
    match a {
        SpecArg::Positional(e) => lexable_expr(e),
        SpecArg::Named { name, value } => valid_name(name) && lexable_expr(value),
    }
}

pub open spec fn lexable_arm(a: SpecArm) -> bool
    decreases a,
{
    lexable_pattern(a.pattern) && forall|k: int| 0 <= k < a.body.len() ==> lexable_stmt(#[trigger] a.body[k])
}

pub open spec fn lexable_stmt(s: SpecStmt) -> bool
    decreases s,
{
    match s {
        SpecStmt::Assign { name, value } => valid_name(name) && lexable_expr(value),
        SpecStmt::If { cond, then_body, else_body } => lexable_expr(cond) && (forall|k: int|
            0 <= k < then_body.len() ==> lexable_stmt(#[trigger] then_body[k])) && match else_body {
            Some(b) => forall|k: int| 0 <= k < b.len() ==> lexable_stmt(#[trigger] b[k]),
            None => true,
        },
        SpecStmt::ExprStmt(e) => lexable_expr(e),
    }
}

pub open spec fn lexable_stmts(body: Seq<SpecStmt>) -> bool {
    forall|k: int| 0 <= k < body.len() ==> lexable_stmt(#[trigger] body[k])
}

pub open spec fn stmts_flat(body: Seq<SpecStmt>) -> Seq<SpecToken> {
    Seq::new(body.len(), |k: int| stmt_toks(body[k])).flatten()
}

pub open spec fn arms_flat(arms: Seq<SpecArm>) -> Seq<SpecToken> {
    Seq::new(arms.len(), |k: int| arm_toks(arms[k])).flatten()
}

proof fn lemma_flat_back(ts: Seq<Seq<SpecToken>>)
    requires
        ts.len() > 0,
    ensures
        ts.flatten() == ts.drop_last().flatten() + ts.last(),
{
    ts.lemma_flatten_and_flatten_alt_are_equivalent();
    ts.drop_last().lemma_flatten_and_flatten_alt_are_equivalent();
}

proof fn lemma_stmts_back(body: Seq<SpecStmt>)
    requires
        body.len() > 0,
    ensures
        stmts_flat(body) == stmts_flat(body.drop_last()) + stmt_toks(body.last()),
{
    let ts = Seq::new(body.len(), |k: int| stmt_toks(body[k]));
    let dl = body.drop_last();
    lemma_flat_back(ts);
    assert(ts.drop_last() =~= Seq::new(dl.len(), |k: int| stmt_toks(dl[k])));
}

proof fn lemma_arms_back(arms: Seq<SpecArm>)
    requires
        arms.len() > 0,
    ensures
        arms_flat(arms) == arms_flat(arms.drop_last()) + arm_toks(arms.last()),
{
    let ts = Seq::new(arms.len(), |k: int| arm_toks(arms[k]));
    let dl = arms.drop_last();
    lemma_flat_back(ts);
    assert(ts.drop_last() =~= Seq::new(dl.len(), |k: int| arm_toks(dl[k])));
}

proof fn lemma_stmts_close(body: Seq<SpecStmt>)
    ensures
        stmts_close(body) == stmts_flat(body) + seq![SpecToken::RBrace],
    decreases body.len(),
{
    let ts = Seq::new(body.len(), |k: int| stmt_toks(body[k]));
    if body.len() > 0 {
        let rest = body.drop_first();
        lemma_stmts_close(rest);
        assert(Seq::new(rest.len(), |k: int| stmt_toks(rest[k])) =~= ts.drop_first());
        assert(stmts_flat(body) == ts[0] + stmts_flat(rest));
        assert(stmts_close(body) == ts[0] + (stmts_flat(rest) + seq![SpecToken::RBrace]));
        assert(ts[0] + (stmts_flat(rest) + seq![SpecToken::RBrace]) =~= ts[0] + stmts_flat(rest) + seq![
            SpecToken::RBrace,
        ]);
    } else {
        assert(stmts_flat(body) == Seq::<SpecToken>::empty());
        assert(stmts_close(body) =~= Seq::<SpecToken>::empty() + seq![SpecToken::RBrace]);
    }
}

proof fn lemma_arms_close(arms: Seq<SpecArm>)
    ensures
        arms_close(arms) == arms_flat(arms) + seq![SpecToken::RBrace],
    decreases arms.len(),
{
    let ts = Seq::new(arms.len(), |k: int| arm_toks(arms[k]));
    if arms.len() > 0 {
        let rest = arms.drop_first();
        lemma_arms_close(rest);
        assert(Seq::new(rest.len(), |k: int| arm_toks(rest[k])) =~= ts.drop_first());
        assert(arms_flat(arms) == ts[0] + arms_flat(rest));
        assert(arms_close(arms) == ts[0] + (arms_flat(rest) + seq![SpecToken::RBrace]));
        assert(ts[0] + (arms_flat(rest) + seq![SpecToken::RBrace]) =~= ts[0] + arms_flat(rest) + seq![
            SpecToken::RBrace,
        ]);
    } else {
        assert(arms_flat(arms) == Seq::<SpecToken>::empty());
        assert(arms_close(arms) =~= Seq::<SpecToken>::empty() + seq![SpecToken::RBrace]);
    }
}

proof fn lemma_args_close(args: Seq<SpecArg>)
    requires
        args.len() > 0,
    ensures
        args_close(args) == interleave(
            Seq::new(args.len(), |k: int| arg_toks(args[k])),
            seq![SpecToken::Comma],
        ) + seq![SpecToken::RParen],
    decreases args.len(),
{
    let ts = Seq::new(args.len(), |k: int| arg_toks(args[k]));
    let c = seq![SpecToken::Comma];
    let r = seq![SpecToken::RParen];
    if args.len() > 1 {
        let rest = args.drop_first();
        lemma_args_close(rest);
        assert(Seq::new(rest.len(), |k: int| arg_toks(rest[k])) =~= ts.drop_first());
        lemma_interleave_front(ts, c);
        let m = interleave(ts.drop_first(), c);
        assert(args_close(args) == ts[0] + (c + (m + r)));
        assert(ts[0] + (c + (m + r)) =~= ts[0] + (c + m) + r);
    }
}

proof fn lemma_items_close(items: Seq<SpecExpr>)
    requires
        items.len() > 0,
    ensures
        items_close(items) == interleave(
            Seq::new(items.len(), |k: int| expr_toks(items[k], 0)),
            seq![SpecToken::Comma],
        ) + seq![SpecToken::RBracket],
    decreases items.len(),
{
    let ts = Seq::new(items.len(), |k: int| expr_toks(items[k], 0));
    let c = seq![SpecToken::Comma];
    let r = seq![SpecToken::RBracket];
    if items.len() > 1 {
        let rest = items.drop_first();
        lemma_items_close(rest);
        assert(Seq::new(rest.len(), |k: int| expr_toks(rest[k], 0)) =~= ts.drop_first());
        lemma_interleave_front(ts, c);
        let m = interleave(ts.drop_first(), c);
        assert(items_close(items) == ts[0] + (c + (m + r)));
        assert(ts[0] + (c + (m + r)) =~= ts[0] + (c + m) + r);
    }
}

proof fn lemma_lit_match()
    ensures
        rd("match "@, seq![SpecToken::KwMatch], true),
{
    reveal_strlit("match ");
    reveal_strlit(" ");
    lemma_tok_sp(SpecToken::KwMatch);
    assert("match "@ =~= tok_text(SpecToken::KwMatch) + " "@);
}

proof fn lemma_lit_if()
    ensures
        rd("if "@, seq![SpecToken::KwIf], true),
        rd(" else"@, seq![SpecToken::KwElse], false),
        starts_ok(" else"@),
{
    reveal_strlit("if ");
    reveal_strlit(" else");
    reveal_strlit(" ");
    lemma_tok_sp(SpecToken::KwIf);
    assert("if "@ =~= tok_text(SpecToken::KwIf) + " "@);
    lemma_sp_tok(SpecToken::KwElse);
    assert(" else"@ =~= " "@ + tok_text(SpecToken::KwElse));
}

/// A body between parentheses where `p` holds.
proof fn lemma_paren(bt: Seq<char>, bk: Seq<SpecToken>, p: bool)
    requires
        rd(bt, bk, false),
    ensures
        rd(
            if p { "("@ + bt + ")"@ } else { bt },
            if p { seq![SpecToken::LParen] + bk + seq![SpecToken::RParen] } else { bk },
            false,
        ),
{
    if p {
        lemma_lit_lparen();
        lemma_lit_rparen();
        lemma_wrapped("("@, seq![SpecToken::LParen], bt, bk, false, ")"@, seq![SpecToken::RParen]);
        lemma_weaken("("@ + bt + ")"@, seq![SpecToken::LParen] + bk + seq![SpecToken::RParen]);
    }
}

proof fn lemma_expr(e: SpecExpr, outer: u8, depth: nat)
    requires
        lexable_expr(e),
    ensures
        rd(expr_text(e, outer, depth), expr_toks(e, outer as int), false),
    decreases e, 1int,
{
    let p = expr_prec(e) < outer;
    assert(p == paren(e, outer as int));
    match e {
        SpecExpr::Int(n) => {
            lemma_tok(SpecToken::Int(n));
            lemma_paren(int_text(n), seq![SpecToken::Int(n)], p);
        },
        SpecExpr::Float(t) => {
            lemma_tok(SpecToken::Float(t));
            lemma_paren(t, seq![SpecToken::Float(t)], p);
        },
        SpecExpr::Str(v) => {
            reveal_strlit("\"");
            lemma_tok(SpecToken::Str(v));
            let bt = "\""@ + escaped(v) + "\""@;
            assert(bt =~= tok_text(SpecToken::Str(v)));
            lemma_weaken(bt, seq![SpecToken::Str(v)]);
            lemma_paren(bt, seq![SpecToken::Str(v)], p);
        },
        SpecExpr::Ident(n) => {
            lemma_tok(SpecToken::Ident(n));
            lemma_paren(n, seq![SpecToken::Ident(n)], p);
        },
        SpecExpr::Binary(op, l, r) => {
            let bk = expr_toks(*l, lctx(op)) + seq![op_tok(op)] + expr_toks(*r, rctx(op));
            if op == BinOp::Pipe && pipe_stages(e).len() >= 3 {
                lemma_pipe_chain(e, depth);
                lemma_paren(pipe_chain_text(e, depth), bk, p);
            } else {
                let q = prec_of(op);
                let (lp, rp) = if op == BinOp::StateShift {
                    ((q + 1) as u8, q)
                } else {
                    (q, (q + 1) as u8)
                };
                assert(lp as int == lctx(op) && rp as int == rctx(op));
                lemma_expr(*l, lp, depth);
                lemma_expr(*r, rp, depth);
                let lt = expr_text(*l, lp, depth);
                let o = " "@ + op_text(op) + " "@;
                lemma_lit_op(op);
                lemma_cat(lt, expr_toks(*l, lctx(op)), false, o, seq![op_tok(op)], true);
                lemma_cat(lt + o, expr_toks(*l, lctx(op)) + seq![op_tok(op)], true, expr_text(*r, rp, depth), expr_toks(*r, rctx(op)), false);
                let bt = lt + " "@ + op_text(op) + " "@ + expr_text(*r, rp, depth);
                assert(bt =~= lt + o + expr_text(*r, rp, depth));
                lemma_paren(bt, bk, p);
            }
        },
        SpecExpr::Call { callee, args } => {
            let xs = args_texts(args, depth);
            let ts = Seq::new(args.len(), |k: int| arg_toks(args[k]));
            assert forall|k: int| 0 <= k < xs.len() implies rd(#[trigger] xs[k], ts[k], false) by {
                lemma_arg(args[k], depth);
            }
            lemma_lit_comma();
            lemma_joined(xs, ts, ", "@, seq![SpecToken::Comma]);
            let j = joined(xs, ", "@);
            let jt = interleave(ts, seq![SpecToken::Comma]);
            lemma_lit_lparen();
            lemma_lit_rparen();
            lemma_wrapped("("@, seq![SpecToken::LParen], j, jt, false, ")"@, seq![SpecToken::RParen]);
            let w = "("@ + j + ")"@;
            let wt = seq![SpecToken::LParen] + jt + seq![SpecToken::RParen];
            reveal_strlit("(");
            assert(starts_ok(w)) by {
                assert(w[0] == '(');
            }
            lemma_tok(SpecToken::Ident(callee));
            lemma_cat(callee, seq![SpecToken::Ident(callee)], false, w, wt, true);
            lemma_weaken(callee + w, seq![SpecToken::Ident(callee)] + wt);
            let bt = callee + "("@ + j + ")"@;
            assert(bt =~= callee + w);
            let bk = seq![SpecToken::Ident(callee), SpecToken::LParen] + if args.len() == 0 {
                seq![SpecToken::RParen]
            } else {
                args_close(args)
            };
            if args.len() > 0 {
                lemma_args_close(args);
            }
            assert(bk =~= seq![SpecToken::Ident(callee)] + wt);
            lemma_paren(bt, bk, p);
        },
        SpecExpr::List(items) => {
            let xs = items_texts(items, depth);
            let ts = Seq::new(items.len(), |k: int| expr_toks(items[k], 0));
            assert forall|k: int| 0 <= k < xs.len() implies rd(#[trigger] xs[k], ts[k], false) by {
                lemma_expr(items[k], 0, depth);
            }
            lemma_lit_comma();
            lemma_joined(xs, ts, ", "@, seq![SpecToken::Comma]);
            let j = joined(xs, ", "@);
            let jt = interleave(ts, seq![SpecToken::Comma]);
            lemma_lit_lbracket();
            lemma_lit_rbracket();
            lemma_wrapped("["@, seq![SpecToken::LBracket], j, jt, false, "]"@, seq![SpecToken::RBracket]);
            let bt = "["@ + j + "]"@;
            let bk = seq![SpecToken::LBracket] + jt + seq![SpecToken::RBracket];
            lemma_weaken(bt, bk);
            if items.len() > 0 {
                lemma_items_close(items);
            }
            assert(bk =~= seq![SpecToken::LBracket] + if items.len() == 0 {
                seq![SpecToken::RBracket]
            } else {
                items_close(items)
            });
            lemma_paren(bt, bk, p);
        },
        SpecExpr::FieldAccess { object, field } => {
            lemma_expr(*object, 255, depth);
            lemma_dot_name(field);
            let ot = expr_text(*object, 255, depth);
            let y = "."@ + field;
            lemma_cat(ot, expr_toks(*object, 255), false, y, seq![SpecToken::Dot, SpecToken::Ident(field)], false);
            let bt = ot + "."@ + field;
            assert(bt =~= ot + y);
            lemma_paren(bt, expr_toks(*object, 255) + seq![SpecToken::Dot, SpecToken::Ident(field)], p);
        },
        SpecExpr::Match { scrutinee, arms } => {
            lemma_lit_match();
            lemma_expr(*scrutinee, 0, depth);
            lemma_lit_braces();
            lemma_arms(arms, depth);
            lemma_indent(depth);
            lemma_lit_rbrace();
            let m = seq![SpecToken::KwMatch];
            let st = expr_text(*scrutinee, 0, depth);
            let sk = expr_toks(*scrutinee, 0);
            let o = seq![SpecToken::LBrace];
            let e0 = Seq::<SpecToken>::empty();
            let at = arms_text(arms, depth);
            let ak = arms_flat(arms);
            let ind = indent_text(depth);
            lemma_cat("match "@, m, true, st, sk, false);
            lemma_cat("match "@ + st, m + sk, false, " {\n"@, o, true);
            lemma_cat("match "@ + st + " {\n"@, m + sk + o, true, at, ak, true);
            lemma_cat("match "@ + st + " {\n"@ + at, m + sk + o + ak, true, ind, e0, true);
            lemma_cat("match "@ + st + " {\n"@ + at + ind, m + sk + o + ak + e0, true, "}"@, seq![SpecToken::RBrace], true);
            let bt = "match "@ + st + " {\n"@ + at + ind + "}"@;
            let bk = m + sk + o + ak + e0 + seq![SpecToken::RBrace];
            lemma_weaken(bt, bk);
            lemma_arms_close(arms);
            assert(bk =~= seq![SpecToken::KwMatch] + sk + seq![SpecToken::LBrace] + arms_close(arms));
            lemma_paren(bt, bk, p);
        },
    }
}

proof fn lemma_pipe_chain(e: SpecExpr, depth: nat)
    requires
        e matches SpecExpr::Binary(BinOp::Pipe, _, _),
        lexable_expr(e),
    ensures
        rd(pipe_chain_text(e, depth), expr_toks(*e->1, 2) + seq![SpecToken::Pipe] + expr_toks(*e->2, 3), false),
    decreases e, 0int,
{
    if let SpecExpr::Binary(_, l, r) = e {
        let hk = expr_toks(*l, 2);
        let head = if (*l) matches SpecExpr::Binary(BinOp::Pipe, _, _) {
            pipe_chain_text(*l, depth)
        } else {
            expr_text(*l, 2, depth)
        };
        if (*l) matches SpecExpr::Binary(BinOp::Pipe, _, _) {
            lemma_pipe_chain(*l, depth);
            assert(!paren(*l, 2));
        } else {
            lemma_expr(*l, 2, depth);
        }
        assert(rd(head, hk, false));
        let d2 = deeper(depth);
        lemma_nl();
        lemma_indent(d2);
        lemma_lit_pipe();
        lemma_expr(*r, 3, d2);
        let e0 = Seq::<SpecToken>::empty();
        let pk = seq![SpecToken::Pipe];
        let ind = indent_text(d2);
        let rt = expr_text(*r, 3, d2);
        lemma_cat(head, hk, false, "\n"@, e0, true);
        lemma_cat(head + "\n"@, hk + e0, true, ind, e0, true);
        lemma_cat(head + "\n"@ + ind, hk + e0 + e0, true, "|> "@, pk, true);
        lemma_cat(head + "\n"@ + ind + "|> "@, hk + e0 + e0 + pk, true, rt, expr_toks(*r, 3), false);
        assert(hk + e0 + e0 + pk + expr_toks(*r, 3) =~= hk + pk + expr_toks(*r, 3));
    }
}

proof fn lemma_arg(a: SpecArg, depth: nat)
    requires
        lexable_arg(a),
    ensures
        rd(arg_text(a, depth), arg_toks(a), false),
    decreases a, 0int,
{
    match a {
        SpecArg::Positional(e) => {
            lemma_expr(e, 0, depth);
        },
        SpecArg::Named { name, value } => {
            lemma_tok(SpecToken::Ident(name));
            lemma_lit_colon();
            lemma_expr(value, 0, depth);
            let id = seq![SpecToken::Ident(name)];
            let co = seq![SpecToken::Colon];
            lemma_cat(name, id, false, ": "@, co, true);
            lemma_cat(name + ": "@, id + co, true, expr_text(value, 0, depth), expr_toks(value, 0), false);
            assert(id + co =~= seq![SpecToken::Ident(name), SpecToken::Colon]);
        },
    }
}

proof fn lemma_arms(arms: Seq<SpecArm>, depth: nat)
    requires
        forall|k: int| 0 <= k < arms.len() ==> lexable_arm(#[trigger] arms[k]),
    ensures
        rd(arms_text(arms, depth), arms_flat(arms), true),
    decreases arms, 0int,
{
    if arms.len() == 0 {
        lemma_empty();
        assert(arms_flat(arms) == Seq::<SpecToken>::empty());
    } else {
        let dl = arms.drop_last();
        assert forall|k: int| 0 <= k < dl.len() implies lexable_arm(#[trigger] dl[k]) by {
            assert(dl[k] == arms[k]);
        }
        lemma_arms(dl, depth);
        let a = arms.last();
        assert(lexable_arm(arms[arms.len() - 1]));
        let d2 = deeper(depth);
        lemma_indent(d2);
        let ind = indent_text(d2);
        let pt = pattern_text(a.pattern);
        let pk = pattern_toks(a.pattern);
        assert(rd(pt, pk, false)) by {
            match a.pattern {
                SpecPattern::Wildcard => {
                    reveal_strlit("_");
                    lemma_tok(SpecToken::Underscore);
                    assert(pt =~= tok_text(SpecToken::Underscore));
                },
                SpecPattern::Constructor(path) => {
                    lemma_dotted(path);
                },
            }
        }
        lemma_lit_arrow();
        lemma_arm_body(a.body, d2);
        lemma_nl();
        let bt = arm_body_text(a.body, d2);
        let bk = arm_body_toks(a.body);
        let e0 = Seq::<SpecToken>::empty();
        let ar = seq![SpecToken::Arrow];
        lemma_cat(ind, e0, true, pt, pk, false);
        lemma_cat(ind + pt, e0 + pk, false, " -> "@, ar, true);
        lemma_cat(ind + pt + " -> "@, e0 + pk + ar, true, bt, bk, false);
        lemma_cat(ind + pt + " -> "@ + bt, e0 + pk + ar + bk, false, "\n"@, e0, true);
        let piece = ind + pt + " -> "@ + bt + "\n"@;
        let pk2 = e0 + pk + ar + bk + e0;
        assert(pk2 =~= arm_toks(a));
        let prev = arms_text(dl, depth);
        lemma_cat(prev, arms_flat(dl), true, piece, pk2, true);
        assert(arms_text(arms, depth) =~= prev + piece);
        lemma_arms_back(arms);
    }
}

proof fn lemma_arm_body(body: Seq<SpecStmt>, depth: nat)
    requires
        lexable_stmts(body),
    ensures
        rd(arm_body_text(body, depth), arm_body_toks(body), false),
    decreases body, 1int,
{
    lemma_lit_braces();
    if body.len() == 1 && !(body[0] is If) {
        lemma_stmt(body[0], 0);
    } else if body.len() == 0 {
        lemma_stmts_close(body);
        assert(stmts_flat(body) == Seq::<SpecToken>::empty());
        assert(arm_body_toks(body) =~= seq![SpecToken::LBrace, SpecToken::RBrace]);
        lemma_weaken("{}"@, seq![SpecToken::LBrace, SpecToken::RBrace]);
    } else {
        let d2 = deeper(depth);
        lemma_stmt_lines(body, d2);
        lemma_indent(depth);
        lemma_lit_rbrace();
        let o = seq![SpecToken::LBrace];
        let e0 = Seq::<SpecToken>::empty();
        let sl = stmt_lines(body, d2);
        let ind = indent_text(depth);
        lemma_cat("{\n"@, o, true, sl, stmts_flat(body), true);
        lemma_cat("{\n"@ + sl, o + stmts_flat(body), true, ind, e0, true);
        lemma_cat("{\n"@ + sl + ind, o + stmts_flat(body) + e0, true, "}"@, seq![SpecToken::RBrace], true);
        lemma_weaken("{\n"@ + sl + ind + "}"@, o + stmts_flat(body) + e0 + seq![SpecToken::RBrace]);
        lemma_stmts_close(body);
        assert(o + stmts_flat(body) + e0 + seq![SpecToken::RBrace] =~= arm_body_toks(body));
    }
}

proof fn lemma_stmt_lines(body: Seq<SpecStmt>, depth: nat)
    requires
        lexable_stmts(body),
    ensures
        rd(stmt_lines(body, depth), stmts_flat(body), true),
    decreases body, 0int,
{
    if body.len() == 0 {
        lemma_empty();
        assert(stmts_flat(body) == Seq::<SpecToken>::empty());
    } else {
        let dl = body.drop_last();
        assert(lexable_stmts(dl)) by {
            assert forall|k: int| 0 <= k < dl.len() implies lexable_stmt(#[trigger] dl[k]) by {
                assert(dl[k] == body[k]);
            }
        }
        lemma_stmt_lines(dl, depth);
        assert(lexable_stmt(body[body.len() - 1]));
        lemma_stmt(body.last(), depth);
        lemma_nl();
        let e0 = Seq::<SpecToken>::empty();
        let st = stmt_text(body.last(), depth);
        let sk = stmt_toks(body.last());
        lemma_cat(st, sk, false, "\n"@, e0, true);
        let prev = stmt_lines(dl, depth);
        lemma_cat(prev, stmts_flat(dl), true, st + "\n"@, sk + e0, true);
        assert(stmt_lines(body, depth) =~= prev + (st + "\n"@));
        lemma_stmts_back(body);
        assert(sk + e0 =~= sk);
    }
}

proof fn lemma_block(body: Seq<SpecStmt>, depth: nat)
    requires
        lexable_stmts(body),
    ensures
        rd(block_text(body, depth), block_toks(body), true),
        starts_ok(block_text(body, depth)),
    decreases body, 1int,
{
    lemma_lit_braces();
    lemma_stmts_close(body);
    if body.len() == 0 {
        assert(stmts_flat(body) == Seq::<SpecToken>::empty());
        assert(block_toks(body) =~= seq![SpecToken::LBrace, SpecToken::RBrace]);
    } else {
        let d2 = deeper(depth);
        lemma_stmt_lines(body, d2);
        lemma_indent(depth);
        lemma_lit_rbrace();
        let o = seq![SpecToken::LBrace];
        let e0 = Seq::<SpecToken>::empty();
        let sl = stmt_lines(body, d2);
        let ind = indent_text(depth);
        lemma_cat(" {\n"@, o, true, sl, stmts_flat(body), true);
        lemma_cat(" {\n"@ + sl, o + stmts_flat(body), true, ind, e0, true);
        lemma_cat(" {\n"@ + sl + ind, o + stmts_flat(body) + e0, true, "}"@, seq![SpecToken::RBrace], true);
        assert(o + stmts_flat(body) + e0 + seq![SpecToken::RBrace] =~= block_toks(body));
        let bt = " {\n"@ + sl + ind + "}"@;
        assert(bt[0] == (" {\n"@)[0]);
    }
}

proof fn lemma_stmt(s: SpecStmt, depth: nat)
    requires
        lexable_stmt(s),
    ensures
        rd(stmt_text(s, depth), stmt_toks(s), false),
    decreases s, 0int,
{
    lemma_indent(depth);
    let ind = indent_text(depth);
    let e0 = Seq::<SpecToken>::empty();
    let (x, xk): (Seq<char>, Seq<SpecToken>) = match s {
        SpecStmt::Assign { name, value } => {
            lemma_tok(SpecToken::Ident(name));
            lemma_lit_assign();
            lemma_expr(value, 0, depth);
            let id = seq![SpecToken::Ident(name)];
            let asg = seq![SpecToken::Assign];
            lemma_cat(name, id, false, " = "@, asg, true);
            lemma_cat(name + " = "@, id + asg, true, expr_text(value, 0, depth), expr_toks(value, 0), false);
            assert(id + asg + expr_toks(value, 0) =~= stmt_toks(s));
            (name + " = "@ + expr_text(value, 0, depth), id + asg + expr_toks(value, 0))
        },
        SpecStmt::If { cond, then_body, else_body } => {
            lemma_lit_if();
            lemma_expr(cond, 0, depth);
            lemma_block(then_body, depth);
            let ik = seq![SpecToken::KwIf];
            let ct = expr_text(cond, 0, depth);
            let ck = expr_toks(cond, 0);
            let tt = block_text(then_body, depth);
            let tk = block_toks(then_body);
            lemma_cat("if "@, ik, true, ct, ck, false);
            lemma_cat("if "@ + ct, ik + ck, false, tt, tk, true);
            let (et, ek): (Seq<char>, Seq<SpecToken>) = match else_body {
                Some(eb) => {
                    lemma_block(eb, depth);
                    let bt = block_text(eb, depth);
                    lemma_cat(" else"@, seq![SpecToken::KwElse], false, bt, block_toks(eb), true);
                    (" else"@ + bt, seq![SpecToken::KwElse] + block_toks(eb))
                },
                None => {
                    lemma_empty();
                    (Seq::empty(), Seq::empty())
                },
            };
            assert(rd(et, ek, true));
            assert(et.len() > 0 ==> starts_ok(et)) by {
                if et.len() > 0 {
                    reveal_strlit(" else");
                    assert(et[0] == (" else"@)[0]);
                }
            }
            lemma_cat("if "@ + ct + tt, ik + ck + tk, true, et, ek, true);
            lemma_weaken("if "@ + ct + tt + et, ik + ck + tk + ek);
            assert(ik + ck + tk + ek =~= stmt_toks(s));
            ("if "@ + ct + tt + et, ik + ck + tk + ek)
        },
        SpecStmt::ExprStmt(e) => {
            lemma_expr(e, 0, depth);
            (expr_text(e, 0, depth), expr_toks(e, 0))
        },
    };
    assert(rd(x, xk, false));
    assert(xk == stmt_toks(s));
    assert(stmt_text(s, depth) =~= ind + x);
    lemma_cat(ind, e0, true, x, xk, false);
    assert(e0 + xk =~= xk);
}

// ---------------------------------------------------------------------
// Declarations.

proof fn lemma_words()
    ensures
        valid_name(w_facet()),
        valid_name(w_scheme()),
        valid_name(w_io()),
        valid_name(w_event()),
        valid_name(w_method()),
        valid_name(w_parallel()),
        valid_name(w_async()),
        valid_name(w_sequence()),
{
    assert forall|k: int| 0 <= k < w_facet().len() implies is_ident_continue(#[trigger] w_facet()[k]) by {}
    assert forall|k: int| 0 <= k < w_scheme().len() implies is_ident_continue(#[trigger] w_scheme()[k]) by {}
    assert forall|k: int| 0 <= k < w_io().len() implies is_ident_continue(#[trigger] w_io()[k]) by {}
    assert forall|k: int| 0 <= k < w_event().len() implies is_ident_continue(#[trigger] w_event()[k]) by {}
    assert forall|k: int| 0 <= k < w_method().len() implies is_ident_continue(#[trigger] w_method()[k]) by {}
    assert forall|k: int| 0 <= k < w_parallel().len() implies is_ident_continue(#[trigger] w_parallel()[k]) by {}
    assert forall|k: int| 0 <= k < w_async().len() implies is_ident_continue(#[trigger] w_async()[k]) by {}
    assert forall|k: int| 0 <= k < w_sequence().len() implies is_ident_continue(#[trigger] w_sequence()[k]) by {}
    assert(w_io() != seq!['o', 'n']) by {
        assert(w_io()[0] != seq!['o', 'n'][0]);
    }
    assert(w_io() != seq!['i', 'f']) by {
        assert(w_io()[1] != seq!['i', 'f'][1]);
    }
    assert(w_async() != seq!['m', 'a', 't', 'c', 'h']) by {
        assert(w_async()[0] != seq!['m', 'a', 't', 'c', 'h'][0]);
    }
    assert(w_event() != seq!['m', 'a', 't', 'c', 'h']) by {
        assert(w_event()[0] != seq!['m', 'a', 't', 'c', 'h'][0]);
    }
    assert(w_facet() != seq!['m', 'a', 't', 'c', 'h']) by {
        assert(w_facet()[0] != seq!['m', 'a', 't', 'c', 'h'][0]);
    }
}

pub open spec fn section_word(w: Seq<char>) -> bool {
    w.len() > 0 && forall|k: int| 0 <= k < w.len() ==> is_ident_continue(#[trigger] w[k])
}

proof fn lemma_section(w: Seq<char>, x: Seq<char>)
    requires
        section_word(w),
        x =~= seq!['/', '/', '/', ' ', '_'] + w + seq!['\n'],
    ensures
        rd(x, seq![SpecToken::Section(w)], true),
{
    reveal_strlit("\n");
    lemma_tok(SpecToken::Section(w));
    lemma_nl();
    lemma_cat(tok_text(SpecToken::Section(w)), seq![SpecToken::Section(w)], false, "\n"@, Seq::empty(), true);
    assert(seq![SpecToken::Section(w)] + Seq::<SpecToken>::empty() =~= seq![SpecToken::Section(w)]);
    assert(x =~= tok_text(SpecToken::Section(w)) + "\n"@);
}

proof fn lemma_section_words()
    ensures
        section_word(w_state()),
        section_word(w_handlers()),
        section_word(w_io()),
        section_word(w_facets()),
        section_word(w_dispatch_scripts()),
        section_word(w_interface()),
        section_word(w_api_contracts()),
        section_word(w_connection_handlers()),
{
    assert forall|k: int| 0 <= k < w_state().len() implies is_ident_continue(#[trigger] w_state()[k]) by {}
    assert forall|k: int| 0 <= k < w_handlers().len() implies is_ident_continue(#[trigger] w_handlers()[k]) by {}
    assert forall|k: int| 0 <= k < w_io().len() implies is_ident_continue(#[trigger] w_io()[k]) by {}
    assert forall|k: int| 0 <= k < w_facets().len() implies is_ident_continue(#[trigger] w_facets()[k]) by {}
    assert forall|k: int| 0 <= k < w_dispatch_scripts().len() implies is_ident_continue(#[trigger] w_dispatch_scripts()[k]) by {}
    assert forall|k: int| 0 <= k < w_interface().len() implies is_ident_continue(#[trigger] w_interface()[k]) by {}
    assert forall|k: int| 0 <= k < w_api_contracts().len() implies is_ident_continue(#[trigger] w_api_contracts()[k]) by {}
    assert forall|k: int| 0 <= k < w_connection_handlers().len() implies is_ident_continue(#[trigger] w_connection_handlers()[k]) by {}
}

/// A section marker line at depth one.
proof fn lemma_marker(w: Seq<char>, x: Seq<char>)
    requires
        section_word(w),
        x =~= seq!['/', '/', '/', ' ', '_'] + w + seq!['\n'],
    ensures
        rd(indent_text(1) + x, seq![SpecToken::Section(w)], true),
{
    lemma_section(w, x);
    lemma_indent(1);
    lemma_cat(indent_text(1), Seq::empty(), true, x, seq![SpecToken::Section(w)], true);
    assert(Seq::<SpecToken>::empty() + seq![SpecToken::Section(w)] =~= seq![SpecToken::Section(w)]);
}

/// A word followed by a blank.
proof fn lemma_word_sp(w: Seq<char>, x: Seq<char>)
    requires
        valid_name(w),
        x =~= w + " "@,
    ensures
        rd(x, seq![SpecToken::Ident(w)], true),
{
    lemma_name_sp(w);
}

pub open spec fn lexable_field(x: SpecStateField) -> bool {
    &&& valid_name(x.name)
    &&& match x.ty {
        Some(t) => lexable_type(t),
        None => true,
    }
    &&& lexable_expr(x.init)
}

pub open spec fn lexable_handler(h: SpecHandler) -> bool {
    &&& lexable_path(h.message_type)
    &&& match h.binding {
        Some(b) => valid_name(b),
        None => true,
    }
    &&& match h.return_ty {
        Some(t) => lexable_type(t),
        None => true,
    }
    &&& lexable_stmts(h.body)
}

pub open spec fn lexable_facet(f: SpecFacet) -> bool {
    &&& valid_name(f.name)
    &&& forall|k: int| 0 <= k < f.state.len() ==> lexable_field(#[trigger] f.state[k])
    &&& forall|k: int| 0 <= k < f.handlers.len() ==> lexable_handler(#[trigger] f.handlers[k])
}

proof fn lemma_fields_flat(v: Seq<SpecStateField>)
    ensures
        fields_toks(v) == Seq::new(v.len(), |k: int| field_toks(v[k])).flatten(),
    decreases v.len(),
{
    let ts = Seq::new(v.len(), |k: int| field_toks(v[k]));
    if v.len() > 0 {
        let rest = v.drop_first();
        lemma_fields_flat(rest);
        assert(Seq::new(rest.len(), |k: int| field_toks(rest[k])) =~= ts.drop_first());
    } else {
        assert(ts.flatten() == Seq::<SpecToken>::empty());
    }
}

proof fn lemma_handlers_flat(v: Seq<SpecHandler>)
    ensures
        handlers_toks(v) == Seq::new(v.len(), |k: int| handler_toks(v[k])).flatten(),
    decreases v.len(),
{
    let ts = Seq::new(v.len(), |k: int| handler_toks(v[k]));
    if v.len() > 0 {
        let rest = v.drop_first();
        lemma_handlers_flat(rest);
        assert(Seq::new(rest.len(), |k: int| handler_toks(rest[k])) =~= ts.drop_first());
    } else {
        assert(ts.flatten() == Seq::<SpecToken>::empty());
    }
}

/// `name: type` or `name` alone, then ` = value`, on a line of its own.
proof fn lemma_field(x: SpecStateField)
    requires
        wf_field(x),
        lexable_field(x),
    ensures
        rd(field_text(x), field_toks(x), true),
{
    lemma_indent(1);
    lemma_tok(SpecToken::Ident(x.name));
    lemma_lit_assign();
    lemma_lit_colon();
    lemma_expr(x.init, 0, 1);
    lemma_nl();
    let e0 = Seq::<SpecToken>::empty();
    let id = seq![SpecToken::Ident(x.name)];
    let (tt, tk): (Seq<char>, Seq<SpecToken>) = match x.ty {
        Some(t) => {
            lemma_type(t);
            lemma_cat(": "@, seq![SpecToken::Colon], true, type_text(t), type_toks(t), false);
            (": "@ + type_text(t), seq![SpecToken::Colon] + type_toks(t))
        },
        None => {
            lemma_empty();
            lemma_weaken(Seq::empty(), Seq::empty());
            (Seq::empty(), Seq::empty())
        },
    };
    assert(rd(tt, tk, false));
    assert(tt.len() > 0 ==> starts_ok(tt)) by {
        if tt.len() > 0 {
            reveal_strlit(": ");
            assert(tt[0] == (": "@)[0]);
        }
    }
    lemma_cat(indent_text(1), e0, true, x.name, id, false);
    lemma_cat(indent_text(1) + x.name, e0 + id, false, tt, tk, false);
    let a = indent_text(1) + x.name + tt;
    let ak = e0 + id + tk;
    assert(rd(a, ak, false));
    lemma_cat(a, ak, false, " = "@, seq![SpecToken::Assign], true);
    let it = expr_text(x.init, 0, 1);
    lemma_cat(a + " = "@, ak + seq![SpecToken::Assign], true, it, expr_toks(x.init, 0), false);
    lemma_cat(a + " = "@ + it, ak + seq![SpecToken::Assign] + expr_toks(x.init, 0), false, "\n"@, e0, true);
    assert(field_text(x) =~= a + " = "@ + it + "\n"@);
    assert(field_toks(x) =~= ak + seq![SpecToken::Assign] + expr_toks(x.init, 0) + e0);
}

proof fn lemma_handler(h: SpecHandler, depth: nat)
    requires
        wf_handler(h),
        lexable_handler(h),
    ensures
        rd(handler_text(h, depth), handler_toks(h), true),
{
    lemma_indent(depth);
    reveal_strlit("on ");
    reveal_strlit(" ");
    lemma_tok_sp(SpecToken::KwOn);
    assert("on "@ =~= tok_text(SpecToken::KwOn) + " "@);
    lemma_dotted(h.message_type);
    lemma_lit_arrow();
    lemma_block(h.body, depth);
    lemma_nl();
    let e0 = Seq::<SpecToken>::empty();
    let ind = indent_text(depth);
    let on = seq![SpecToken::KwOn];
    let mt = dotted_text(h.message_type);
    let mk = path_toks(h.message_type);
    lemma_cat(ind, e0, true, "on "@, on, true);
    lemma_cat(ind + "on "@, e0 + on, true, mt, mk, false);
    let (bt, bk): (Seq<char>, Seq<SpecToken>) = match h.binding {
        Some(b) => {
            lemma_sp_tok(SpecToken::Ident(b));
            (" "@ + b, seq![SpecToken::Ident(b)])
        },
        None => {
            lemma_empty();
            lemma_weaken(Seq::empty(), Seq::empty());
            (Seq::empty(), Seq::empty())
        },
    };
    assert(rd(bt, bk, false));
    assert(bt.len() > 0 ==> starts_ok(bt)) by {
        if bt.len() > 0 {
            assert(bt[0] == (" "@)[0]);
        }
    }
    let a = ind + "on "@ + mt;
    let ak = e0 + on + mk;
    lemma_cat(a, ak, false, bt, bk, false);
    let (rt, rk): (Seq<char>, Seq<SpecToken>) = match h.return_ty {
        Some(t) => {
            lemma_type(t);
            lemma_cat(" -> "@, seq![SpecToken::Arrow], true, type_text(t), type_toks(t), false);
            (" -> "@ + type_text(t), seq![SpecToken::Arrow] + type_toks(t))
        },
        None => {
            lemma_empty();
            lemma_weaken(Seq::empty(), Seq::empty());
            (Seq::empty(), Seq::empty())
        },
    };
    assert(rd(rt, rk, false));
    assert(rt.len() > 0 ==> starts_ok(rt)) by {
        if rt.len() > 0 {
            assert(rt[0] == (" -> "@)[0]);
        }
    }
    lemma_cat(a + bt, ak + bk, false, rt, rk, false);
    let blk = block_text(h.body, depth);
    lemma_cat(a + bt + rt, ak + bk + rk, false, blk, block_toks(h.body), true);
    lemma_cat(a + bt + rt + blk, ak + bk + rk + block_toks(h.body), true, "\n"@, e0, true);
    assert(handler_text(h, depth) =~= a + bt + rt + blk + "\n"@);
    assert(handler_toks(h) =~= ak + bk + rk + block_toks(h.body) + e0);
}

proof fn lemma_handlers(hs: Seq<SpecHandler>)
    requires
        forall|k: int| 0 <= k < hs.len() ==> wf_handler(#[trigger] hs[k]) && lexable_handler(hs[k]),
    ensures
        rd(handlers_text(hs), Seq::new(hs.len(), |k: int| handler_toks(hs[k])).flatten(), true),
    decreases hs.len(),
{
    let ts = Seq::new(hs.len(), |k: int| handler_toks(hs[k]));
    if hs.len() == 0 {
        lemma_empty();
        assert(ts.flatten() == Seq::<SpecToken>::empty());
    } else {
        let dl = hs.drop_last();
        assert forall|k: int| 0 <= k < dl.len() implies wf_handler(#[trigger] dl[k]) && lexable_handler(dl[k]) by {
            assert(dl[k] == hs[k]);
        }
        lemma_handlers(dl);
        let e0 = Seq::<SpecToken>::empty();
        let gap: Seq<char> = if hs.len() > 1 { "\n"@ } else { Seq::empty() };
        lemma_nl();
        lemma_empty();
        assert(rd(gap, e0, true));
        let prev = handlers_text(dl);
        let pk = Seq::new(dl.len(), |k: int| handler_toks(dl[k])).flatten();
        lemma_cat(prev, pk, true, gap, e0, true);
        assert(wf_handler(hs[hs.len() - 1]) && lexable_handler(hs[hs.len() - 1]));
        lemma_handler(hs.last(), 1);
        lemma_cat(prev + gap, pk + e0, true, handler_text(hs.last(), 1), handler_toks(hs.last()), true);
        assert(handlers_text(hs) =~= prev + gap + handler_text(hs.last(), 1));
        lemma_flat_back(ts);
        assert(ts.drop_last() =~= Seq::new(dl.len(), |k: int| handler_toks(dl[k])));
        assert(pk + e0 + handler_toks(hs.last()) =~= ts.drop_last().flatten() + ts.last());
    }
}

proof fn lemma_facet(f: SpecFacet)
    requires
        wf_facet(f),
        lexable_facet(f),
    ensures
        rd(facet_text(f), facet_toks(f), true),
{
    lemma_words();
    lemma_section_words();
    reveal_strlit("facet ");
    reveal_strlit(" ");
    lemma_word_sp(w_facet(), "facet "@);
    lemma_tok(SpecToken::Ident(f.name));
    lemma_lit_braces();
    lemma_lit_rbrace();
    lemma_nl();
    let e0 = Seq::<SpecToken>::empty();
    let has_state = f.state.len() > 0;
    let has_handlers = f.handlers.len() > 0;
    let fw = seq![SpecToken::Ident(w_facet())];
    let nm = seq![SpecToken::Ident(f.name)];
    let o = seq![SpecToken::LBrace];
    let c = seq![SpecToken::RBrace];
    lemma_cat("facet "@, fw, true, f.name, nm, false);
    lemma_cat("facet "@ + f.name, fw + nm, false, " {"@, o, true);
    let head = "facet "@ + f.name + " {"@;
    let headk = fw + nm + o;
    // the state section
    let (st, sk): (Seq<char>, Seq<SpecToken>) = if has_state {
        reveal_strlit("/// _state\n");
        lemma_marker(w_state(), "/// _state\n"@);
        let xs = f.state.map_values(|x: SpecStateField| field_text(x));
        let ts = Seq::new(f.state.len(), |k: int| field_toks(f.state[k]));
        assert forall|k: int| 0 <= k < xs.len() implies rd(#[trigger] xs[k], ts[k], true) by {
            assert(wf_field(f.state[k]) && lexable_field(f.state[k]));
            lemma_field(f.state[k]);
        }
        lemma_concat(xs, ts);
        lemma_fields_flat(f.state);
        let mk = indent_text(1) + "/// _state\n"@;
        lemma_cat(mk, seq![SpecToken::Section(w_state())], true, concat_all(xs), ts.flatten(), true);
        (mk + concat_all(xs), seq![SpecToken::Section(w_state())] + fields_toks(f.state))
    } else {
        lemma_empty();
        (Seq::empty(), Seq::empty())
    };
    assert(rd(st, sk, true));
    // the handlers section
    let (ht, hk): (Seq<char>, Seq<SpecToken>) = if has_handlers {
        reveal_strlit("/// _handlers\n");
        lemma_marker(w_handlers(), "/// _handlers\n"@);
        lemma_handlers(f.handlers);
        lemma_handlers_flat(f.handlers);
        let gap = blank_if(has_state);
        lemma_empty();
        assert(rd(gap, e0, true));
        let mk = indent_text(1) + "/// _handlers\n"@;
        lemma_cat(gap, e0, true, mk, seq![SpecToken::Section(w_handlers())], true);
        lemma_cat(gap + mk, e0 + seq![SpecToken::Section(w_handlers())], true, handlers_text(f.handlers), handlers_toks(f.handlers), true);
        assert(e0 + seq![SpecToken::Section(w_handlers())] + handlers_toks(f.handlers) =~= seq![SpecToken::Section(w_handlers())] + handlers_toks(f.handlers));
        (gap + mk + handlers_text(f.handlers), seq![SpecToken::Section(w_handlers())] + handlers_toks(f.handlers))
    } else {
        lemma_empty();
        (Seq::empty(), Seq::empty())
    };
    assert(rd(ht, hk, true));
    if !has_state && !has_handlers {
        lemma_cat(head, headk, true, "}"@, c, true);
        assert(facet_text(f) =~= head + "}"@);
        assert(facet_toks(f) =~= headk + e0 + e0 + c);
    } else {
        lemma_cat("\n"@, e0, true, st, sk, true);
        lemma_cat("\n"@ + st, e0 + sk, true, ht, hk, true);
        lemma_cat("\n"@ + st + ht, e0 + sk + hk, true, "}"@, c, true);
        let body = "\n"@ + st + ht + "}"@;
        let bodyk = e0 + sk + hk + c;
        reveal_strlit("\n");
        assert(body[0] == '\n');
        lemma_cat(head, headk, true, body, bodyk, true);
        assert(facet_text(f) =~= head + body);
        assert(facet_toks(f) =~= headk + bodyk);
    }
}

pub open spec fn lexable_names(ns: Seq<Name>) -> bool {
    forall|k: int| 0 <= k < ns.len() ==> valid_name(#[trigger] ns[k])
}

pub open spec fn lexable_scheme(s: SpecScheme) -> bool {
    &&& valid_name(s.name)
    &&& match s.parent {
        Some(p) => valid_name(p),
        None => true,
    }
    &&& forall|k: int|
        0 <= k < s.io_spines.len() ==> valid_name((#[trigger] s.io_spines[k]).name) && lexable_path(
            s.io_spines[k].io_path,
        )
    &&& forall|k: int|
        0 <= k < s.facet_instances.len() ==> valid_name((#[trigger] s.facet_instances[k]).name)
            && lexable_names(s.facet_instances[k].io_args)
    &&& forall|k: int|
        0 <= k < s.dispatch.len() ==> valid_name((#[trigger] s.dispatch[k]).spine) && valid_name(
            s.dispatch[k].event,
        ) && match s.dispatch[k].mode {
            SpecMode::Sequence(ns) => lexable_names(ns),
            _ => true,
        }
}

proof fn lemma_spines_flat(v: Seq<SpecSpine>)
    ensures
        spines_toks(v) == Seq::new(v.len(), |k: int| spine_toks(v[k])).flatten(),
    decreases v.len(),
{
    let ts = Seq::new(v.len(), |k: int| spine_toks(v[k]));
    if v.len() > 0 {
        let rest = v.drop_first();
        lemma_spines_flat(rest);
        assert(Seq::new(rest.len(), |k: int| spine_toks(rest[k])) =~= ts.drop_first());
    } else {
        assert(ts.flatten() == Seq::<SpecToken>::empty());
    }
}

proof fn lemma_instances_flat(v: Seq<SpecInstance>)
    ensures
        instances_toks(v) == Seq::new(v.len(), |k: int| instance_toks(v[k])).flatten(),
    decreases v.len(),
{
    let ts = Seq::new(v.len(), |k: int| instance_toks(v[k]));
    if v.len() > 0 {
        let rest = v.drop_first();
        lemma_instances_flat(rest);
        assert(Seq::new(rest.len(), |k: int| instance_toks(rest[k])) =~= ts.drop_first());
    } else {
        assert(ts.flatten() == Seq::<SpecToken>::empty());
    }
}

proof fn lemma_dispatches_flat(v: Seq<SpecDispatch>)
    ensures
        dispatches_toks(v) == Seq::new(v.len(), |k: int| dispatch_toks(v[k])).flatten(),
    decreases v.len(),
{
    let ts = Seq::new(v.len(), |k: int| dispatch_toks(v[k]));
    if v.len() > 0 {
        let rest = v.drop_first();
        lemma_dispatches_flat(rest);
        assert(Seq::new(rest.len(), |k: int| dispatch_toks(rest[k])) =~= ts.drop_first());
    } else {
        assert(ts.flatten() == Seq::<SpecToken>::empty());
    }
}

proof fn lemma_idents_close(ns: Seq<Name>, sep: SpecToken)
    requires
        ns.len() > 0,
    ensures
        idents_close(ns, sep) == interleave(
            Seq::new(ns.len(), |k: int| seq![SpecToken::Ident(ns[k])]),
            seq![sep],
        ) + seq![SpecToken::RParen],
    decreases ns.len(),
{
    let ts = Seq::new(ns.len(), |k: int| seq![SpecToken::Ident(ns[k])]);
    let c = seq![sep];
    let r = seq![SpecToken::RParen];
    if ns.len() > 1 {
        let rest = ns.drop_first();
        lemma_idents_close(rest, sep);
        assert(Seq::new(rest.len(), |k: int| seq![SpecToken::Ident(rest[k])]) =~= ts.drop_first());
        lemma_interleave_front(ts, c);
        let m = interleave(ts.drop_first(), c);
        assert(idents_close(ns, sep) == ts[0] + (c + (m + r)));
        assert(ts[0] + (c + (m + r)) =~= ts[0] + (c + m) + r);
    } else {
        assert(idents_close(ns, sep) =~= ts[0] + r);
    }
}

/// Names between parentheses, joined by `sep`.
proof fn lemma_name_list(ns: Seq<Name>, sep: Seq<char>, st: SpecToken)
    requires
        lexable_names(ns),
        rd(sep, seq![st], true),
        starts_ok(sep),
    ensures
        rd("("@ + joined(ns, sep) + ")"@, seq![SpecToken::LParen] + if ns.len() == 0 {
            seq![SpecToken::RParen]
        } else {
            idents_close(ns, st)
        }, true),
        starts_ok("("@ + joined(ns, sep) + ")"@),
{
    let ts = Seq::new(ns.len(), |k: int| seq![SpecToken::Ident(ns[k])]);
    assert forall|k: int| 0 <= k < ns.len() implies rd(#[trigger] ns[k], ts[k], false) by {
        lemma_tok(SpecToken::Ident(ns[k]));
    }
    lemma_joined(ns, ts, sep, seq![st]);
    lemma_lit_lparen();
    lemma_lit_rparen();
    let j = joined(ns, sep);
    let jt = interleave(ts, seq![st]);
    lemma_wrapped("("@, seq![SpecToken::LParen], j, jt, false, ")"@, seq![SpecToken::RParen]);
    if ns.len() > 0 {
        lemma_idents_close(ns, st);
    } else {
        assert(jt == Seq::<SpecToken>::empty());
    }
    assert(seq![SpecToken::LParen] + jt + seq![SpecToken::RParen] =~= seq![SpecToken::LParen] + if ns.len() == 0 {
        seq![SpecToken::RParen]
    } else {
        idents_close(ns, st)
    });
    reveal_strlit("(");
    assert(("("@ + j + ")"@)[0] == '(');
}

proof fn lemma_spine(x: SpecSpine)
    requires
        x.io_path.len() > 0,
        valid_name(x.name),
        lexable_path(x.io_path),
    ensures
        rd(spine_text(x), spine_toks(x), true),
{
    lemma_indent(1);
    lemma_tok(SpecToken::Ident(x.name));
    lemma_lit_colon();
    lemma_dotted(x.io_path);
    lemma_nl();
    let e0 = Seq::<SpecToken>::empty();
    let id = seq![SpecToken::Ident(x.name)];
    let co = seq![SpecToken::Colon];
    let pt = dotted_text(x.io_path);
    lemma_cat(indent_text(1), e0, true, x.name, id, false);
    lemma_cat(indent_text(1) + x.name, e0 + id, false, ": "@, co, true);
    lemma_cat(indent_text(1) + x.name + ": "@, e0 + id + co, true, pt, path_toks(x.io_path), false);
    lemma_cat(indent_text(1) + x.name + ": "@ + pt, e0 + id + co + path_toks(x.io_path), false, "\n"@, e0, true);
    assert(spine_toks(x) =~= e0 + id + co + path_toks(x.io_path) + e0);
}

proof fn lemma_instance(x: SpecInstance)
    requires
        valid_name(x.name),
        lexable_names(x.io_args),
    ensures
        rd(instance_text(x, 1) + "\n"@, instance_toks(x), true),
{
    lemma_indent(1);
    lemma_tok(SpecToken::Ident(x.name));
    lemma_lit_comma();
    lemma_name_list(x.io_args, ", "@, SpecToken::Comma);
    lemma_nl();
    let e0 = Seq::<SpecToken>::empty();
    let id = seq![SpecToken::Ident(x.name)];
    let w = "("@ + joined(x.io_args, ", "@) + ")"@;
    let wk = seq![SpecToken::LParen] + if x.io_args.len() == 0 {
        seq![SpecToken::RParen]
    } else {
        idents_close(x.io_args, SpecToken::Comma)
    };
    lemma_cat(indent_text(1), e0, true, x.name, id, false);
    lemma_cat(indent_text(1) + x.name, e0 + id, false, w, wk, true);
    lemma_cat(indent_text(1) + x.name + w, e0 + id + wk, true, "\n"@, e0, true);
    assert(instance_text(x, 1) =~= indent_text(1) + x.name + w);
    assert(instance_toks(x) =~= e0 + id + wk + e0);
}

proof fn lemma_mode(md: SpecMode)
    requires
        match md {
            SpecMode::Sequence(ns) => lexable_names(ns),
            _ => true,
        },
    ensures
        rd(mode_text(md), mode_toks(md), false),
{
    lemma_words();
    match md {
        SpecMode::Parallel => {
            reveal_strlit("parallel");
            assert("parallel"@ =~= w_parallel());
            lemma_tok(SpecToken::Ident(w_parallel()));
        },
        SpecMode::Async => {
            reveal_strlit("async");
            assert("async"@ =~= w_async());
            lemma_tok(SpecToken::Ident(w_async()));
        },
        SpecMode::Sequence(ns) => {
            reveal_strlit("sequence(");
            reveal_strlit("(");
            reveal_strlit(")");
            lemma_tok(SpecToken::Ident(w_sequence()));
            lemma_lit_arrow();
            lemma_name_list(ns, " -> "@, SpecToken::Arrow);
            let w = "("@ + joined(ns, " -> "@) + ")"@;
            let wk = seq![SpecToken::LParen] + if ns.len() == 0 {
                seq![SpecToken::RParen]
            } else {
                idents_close(ns, SpecToken::Arrow)
            };
            lemma_cat(w_sequence(), seq![SpecToken::Ident(w_sequence())], false, w, wk, true);
            lemma_weaken(w_sequence() + w, seq![SpecToken::Ident(w_sequence())] + wk);
            assert(mode_text(md) =~= w_sequence() + w);
            assert(mode_toks(md) =~= seq![SpecToken::Ident(w_sequence())] + wk);
        },
    }
}

proof fn lemma_dispatch(d: SpecDispatch)
    requires
        valid_name(d.spine),
        valid_name(d.event),
        match d.mode {
            SpecMode::Sequence(ns) => lexable_names(ns),
            _ => true,
        },
    ensures
        rd(dispatch_text(d), dispatch_toks(d), true),
{
    lemma_indent(1);
    reveal_strlit("on ");
    reveal_strlit(" ");
    lemma_tok_sp(SpecToken::KwOn);
    assert("on "@ =~= tok_text(SpecToken::KwOn) + " "@);
    lemma_tok(SpecToken::Ident(d.spine));
    lemma_dot_name(d.event);
    lemma_sp();
    lemma_mode(d.mode);
    lemma_nl();
    let e0 = Seq::<SpecToken>::empty();
    let on = seq![SpecToken::KwOn];
    let sp = seq![SpecToken::Ident(d.spine)];
    let ev = seq![SpecToken::Dot, SpecToken::Ident(d.event)];
    let ind = indent_text(1);
    let de = "."@ + d.event;
    let mt = mode_text(d.mode);
    let mk = mode_toks(d.mode);
    lemma_cat(ind, e0, true, "on "@, on, true);
    lemma_cat(ind + "on "@, e0 + on, true, d.spine, sp, false);
    lemma_cat(ind + "on "@ + d.spine, e0 + on + sp, false, de, ev, false);
    lemma_cat(ind + "on "@ + d.spine + de, e0 + on + sp + ev, false, " "@, e0, true);
    lemma_cat(ind + "on "@ + d.spine + de + " "@, e0 + on + sp + ev + e0, true, mt, mk, false);
    lemma_cat(ind + "on "@ + d.spine + de + " "@ + mt, e0 + on + sp + ev + e0 + mk, false, "\n"@, e0, true);
    assert(dispatch_text(d) =~= ind + "on "@ + d.spine + de + " "@ + mt + "\n"@);
    assert(dispatch_toks(d) =~= e0 + on + sp + ev + e0 + mk + e0);
}

proof fn lemma_spines_section(s: SpecScheme)
    requires
        wf_scheme(s),
        lexable_scheme(s),
    ensures
        rd(spines_section(s), if s.io_spines.len() > 0 {
            seq![SpecToken::Section(w_io())] + spines_toks(s.io_spines)
        } else {
            Seq::empty()
        }, true),
{
    lemma_section_words();
    lemma_empty();
    lemma_nl();
    let has_sp = s.io_spines.len() > 0;
    if has_sp {
        reveal_strlit("/// _io\n");
        lemma_marker(w_io(), "/// _io\n"@);
        let xs = s.io_spines.map_values(|x: SpecSpine| spine_text(x));
        let ts = Seq::new(s.io_spines.len(), |k: int| spine_toks(s.io_spines[k]));
        assert forall|k: int| 0 <= k < xs.len() implies rd(#[trigger] xs[k], ts[k], true) by {
            assert(s.io_spines[k].io_path.len() > 0);
            assert(valid_name(s.io_spines[k].name) && lexable_path(s.io_spines[k].io_path));
            lemma_spine(s.io_spines[k]);
        }
        lemma_concat(xs, ts);
        lemma_spines_flat(s.io_spines);
        lemma_cat(indent_text(1) + "/// _io\n"@, seq![SpecToken::Section(w_io())], true, concat_all(xs), ts.flatten(), true);
    }
}

proof fn lemma_instances_section(s: SpecScheme)
    requires
        wf_scheme(s),
        lexable_scheme(s),
    ensures
        rd(instances_section(s), if s.facet_instances.len() > 0 {
            seq![SpecToken::Section(w_facets())] + instances_toks(s.facet_instances)
        } else {
            Seq::empty()
        }, true),
{
    lemma_section_words();
    lemma_empty();
    lemma_nl();
    let e0 = Seq::<SpecToken>::empty();
    let has_sp = s.io_spines.len() > 0;
    let has_in = s.facet_instances.len() > 0;
    let ink = if has_in {
        seq![SpecToken::Section(w_facets())] + instances_toks(s.facet_instances)
    } else {
        e0
    };
    if has_in {
        reveal_strlit("/// _facets\n");
        lemma_marker(w_facets(), "/// _facets\n"@);
        let xs = s.facet_instances.map_values(|x: SpecInstance| instance_text(x, 1) + "\n"@);
        let ts = Seq::new(s.facet_instances.len(), |k: int| instance_toks(s.facet_instances[k]));
        assert forall|k: int| 0 <= k < xs.len() implies rd(#[trigger] xs[k], ts[k], true) by {
            assert(valid_name(s.facet_instances[k].name) && lexable_names(s.facet_instances[k].io_args));
            lemma_instance(s.facet_instances[k]);
        }
        lemma_concat(xs, ts);
        lemma_instances_flat(s.facet_instances);
        let gap = blank_if(has_sp);
        assert(rd(gap, e0, true));
        let mk = indent_text(1) + "/// _facets\n"@;
        lemma_cat(gap, e0, true, mk, seq![SpecToken::Section(w_facets())], true);
        lemma_cat(gap + mk, e0 + seq![SpecToken::Section(w_facets())], true, concat_all(xs), ts.flatten(), true);
        assert(e0 + seq![SpecToken::Section(w_facets())] + ts.flatten() =~= ink);
        assert(instances_section(s) =~= gap + mk + concat_all(xs));
    }
}

proof fn lemma_dispatch_section(s: SpecScheme)
    requires
        wf_scheme(s),
        lexable_scheme(s),
    ensures
        rd(dispatch_section(s), if s.dispatch.len() > 0 {
            seq![SpecToken::Section(w_dispatch_scripts())] + dispatches_toks(s.dispatch)
        } else {
            Seq::empty()
        }, true),
{
    lemma_section_words();
    lemma_empty();
    lemma_nl();
    let e0 = Seq::<SpecToken>::empty();
    let has_sp = s.io_spines.len() > 0;
    let has_in = s.facet_instances.len() > 0;
    let has_di = s.dispatch.len() > 0;
    let dik = if has_di {
        seq![SpecToken::Section(w_dispatch_scripts())] + dispatches_toks(s.dispatch)
    } else {
        e0
    };
    if has_di {
        reveal_strlit("/// _dispatch_scripts\n");
        lemma_marker(w_dispatch_scripts(), "/// _dispatch_scripts\n"@);
        let xs = s.dispatch.map_values(|x: SpecDispatch| dispatch_text(x));
        let ts = Seq::new(s.dispatch.len(), |k: int| dispatch_toks(s.dispatch[k]));
        assert forall|k: int| 0 <= k < xs.len() implies rd(#[trigger] xs[k], ts[k], true) by {
            let d = s.dispatch[k];
            assert(valid_name(d.spine) && valid_name(d.event) && match d.mode {
                SpecMode::Sequence(ns) => lexable_names(ns),
                _ => true,
            });
            lemma_dispatch(d);
        }
        lemma_concat(xs, ts);
        lemma_dispatches_flat(s.dispatch);
        let gap = blank_if(has_sp || has_in);
        assert(rd(gap, e0, true));
        let mk = indent_text(1) + "/// _dispatch_scripts\n"@;
        lemma_cat(gap, e0, true, mk, seq![SpecToken::Section(w_dispatch_scripts())], true);
        lemma_cat(gap + mk, e0 + seq![SpecToken::Section(w_dispatch_scripts())], true, concat_all(xs), ts.flatten(), true);
        assert(e0 + seq![SpecToken::Section(w_dispatch_scripts())] + ts.flatten() =~= dik);
        assert(dispatch_section(s) =~= gap + mk + concat_all(xs));
    }
}

/// The tokens of a scheme's head.
pub open spec fn scheme_head_toks(s: SpecScheme) -> Seq<SpecToken> {
    seq![SpecToken::Ident(w_scheme()), SpecToken::Ident(s.name)] + match s.parent {
        Some(par) => seq![SpecToken::At, SpecToken::Ident(par)],
        None => Seq::empty(),
    } + seq![SpecToken::LBrace]
}

proof fn lemma_scheme_head(s: SpecScheme)
    requires
        lexable_scheme(s),
    ensures
        rd(scheme_head(s), scheme_head_toks(s), true),
{
    lemma_words();
    reveal_strlit("scheme ");
    reveal_strlit(" ");
    lemma_word_sp(w_scheme(), "scheme "@);
    lemma_tok(SpecToken::Ident(s.name));
    lemma_lit_braces();
    lemma_lit_at();
    lemma_empty();
    let sw = seq![SpecToken::Ident(w_scheme())];
    let nm = seq![SpecToken::Ident(s.name)];
    let o = seq![SpecToken::LBrace];
    lemma_cat("scheme "@, sw, true, s.name, nm, false);
    let (pt, pk): (Seq<char>, Seq<SpecToken>) = match s.parent {
        Some(p) => {
            lemma_tok(SpecToken::Ident(p));
            lemma_cat(" @ "@, seq![SpecToken::At], true, p, seq![SpecToken::Ident(p)], false);
            (" @ "@ + p, seq![SpecToken::At] + seq![SpecToken::Ident(p)])
        },
        None => {
            lemma_weaken(Seq::empty(), Seq::empty());
            (Seq::empty(), Seq::empty())
        },
    };
    assert(rd(pt, pk, false));
    assert(pt.len() > 0 ==> starts_ok(pt)) by {
        if pt.len() > 0 {
            assert(pt[0] == (" @ "@)[0]);
        }
    }
    lemma_cat("scheme "@ + s.name, sw + nm, false, pt, pk, false);
    lemma_cat("scheme "@ + s.name + pt, sw + nm + pk, false, " {"@, o, true);
    assert(scheme_head(s) =~= "scheme "@ + s.name + pt + " {"@);
    assert(scheme_head_toks(s) =~= sw + nm + pk + o);
}

proof fn lemma_scheme(s: SpecScheme)
    requires
        wf_scheme(s),
        lexable_scheme(s),
    ensures
        rd(scheme_text(s), scheme_toks(s), true),
{
    reveal_strlit("\n");
    lemma_scheme_head(s);
    lemma_lit_rbrace();
    lemma_nl();
    let e0 = Seq::<SpecToken>::empty();
    let c = seq![SpecToken::RBrace];
    let head = scheme_head(s);
    let headk = scheme_head_toks(s);
    let has_sp = s.io_spines.len() > 0;
    let has_in = s.facet_instances.len() > 0;
    let has_di = s.dispatch.len() > 0;
    let spk = if has_sp {
        seq![SpecToken::Section(w_io())] + spines_toks(s.io_spines)
    } else {
        e0
    };
    let ink = if has_in {
        seq![SpecToken::Section(w_facets())] + instances_toks(s.facet_instances)
    } else {
        e0
    };
    let dik = if has_di {
        seq![SpecToken::Section(w_dispatch_scripts())] + dispatches_toks(s.dispatch)
    } else {
        e0
    };
    if !has_sp && !has_in && !has_di {
        lemma_cat(head, headk, true, "}"@, c, true);
        assert(scheme_text(s) == head + "}"@);
        assert(scheme_toks(s) =~= headk + c);
    } else {
        lemma_spines_section(s);
        lemma_instances_section(s);
        lemma_dispatch_section(s);
        let a = spines_section(s);
        let b = instances_section(s);
        let d = dispatch_section(s);
        lemma_cat("\n"@, e0, true, a, spk, true);
        lemma_cat("\n"@ + a, e0 + spk, true, b, ink, true);
        lemma_cat("\n"@ + a + b, e0 + spk + ink, true, d, dik, true);
        lemma_cat("\n"@ + a + b + d, e0 + spk + ink + dik, true, "}"@, c, true);
        let body = "\n"@ + a + b + d + "}"@;
        assert(body[0] == '\n');
        lemma_cat(head, headk, true, body, e0 + spk + ink + dik + c, true);
        assert(scheme_text(s) == head + body);
        assert(scheme_toks(s) =~= headk + (e0 + spk + ink + dik + c));
    }
}

pub open spec fn entry_name(e: SpecIoEntry) -> Name {
    match e {
        SpecIoEntry::Event { name, .. } => name,
        SpecIoEntry::Method { name, .. } => name,
    }
}

pub open spec fn lexable_io(d: SpecIoDecl) -> bool {
    &&& valid_name(d.name)
    &&& forall|k: int|
        0 <= k < d.interface.len() ==> valid_name(entry_name(#[trigger] d.interface[k])) && lexable_type(
            entry_type(d.interface[k]),
        )
    &&& forall|k: int|
        0 <= k < d.api_contracts.len() ==> valid_name((#[trigger] d.api_contracts[k]).name)
            && lexable_type(d.api_contracts[k].ty)
    &&& forall|k: int|
        0 <= k < d.connection_handlers.len() ==> valid_name((#[trigger] d.connection_handlers[k]).name)
            && lexable_expr(d.connection_handlers[k].init)
}

proof fn lemma_entries_flat(v: Seq<SpecIoEntry>)
    ensures
        entries_toks(v) == Seq::new(v.len(), |k: int| entry_toks(v[k])).flatten(),
    decreases v.len(),
{
    let ts = Seq::new(v.len(), |k: int| entry_toks(v[k]));
    if v.len() > 0 {
        let rest = v.drop_first();
        lemma_entries_flat(rest);
        assert(Seq::new(rest.len(), |k: int| entry_toks(rest[k])) =~= ts.drop_first());
    } else {
        assert(ts.flatten() == Seq::<SpecToken>::empty());
    }
}

proof fn lemma_aliases_flat(v: Seq<SpecTypeAlias>)
    ensures
        aliases_toks(v) == Seq::new(v.len(), |k: int| alias_toks(v[k])).flatten(),
    decreases v.len(),
{
    let ts = Seq::new(v.len(), |k: int| alias_toks(v[k]));
    if v.len() > 0 {
        let rest = v.drop_first();
        lemma_aliases_flat(rest);
        assert(Seq::new(rest.len(), |k: int| alias_toks(rest[k])) =~= ts.drop_first());
    } else {
        assert(ts.flatten() == Seq::<SpecToken>::empty());
    }
}

proof fn lemma_conns_flat(v: Seq<SpecConnHandler>)
    ensures
        conns_toks(v) == Seq::new(v.len(), |k: int| conn_toks(v[k])).flatten(),
    decreases v.len(),
{
    let ts = Seq::new(v.len(), |k: int| conn_toks(v[k]));
    if v.len() > 0 {
        let rest = v.drop_first();
        lemma_conns_flat(rest);
        assert(Seq::new(rest.len(), |k: int| conn_toks(rest[k])) =~= ts.drop_first());
    } else {
        assert(ts.flatten() == Seq::<SpecToken>::empty());
    }
}

proof fn lemma_decls_flat(v: Seq<SpecDecl>)
    ensures
        decls_toks(v) == Seq::new(v.len(), |k: int| decl_toks(v[k])).flatten(),
    decreases v.len(),
{
    let ts = Seq::new(v.len(), |k: int| decl_toks(v[k]));
    if v.len() > 0 {
        let rest = v.drop_first();
        lemma_decls_flat(rest);
        assert(Seq::new(rest.len(), |k: int| decl_toks(rest[k])) =~= ts.drop_first());
    } else {
        assert(ts.flatten() == Seq::<SpecToken>::empty());
    }
}

/// `name: type` on a line of its own at depth one.
proof fn lemma_typed_line(pre: Seq<char>, prek: Seq<SpecToken>, n: Name, t: SpecType)
    requires
        rd(pre, prek, true),
        valid_name(n),
        wf_type(t),
        lexable_type(t),
    ensures
        rd(indent_text(1) + pre + n + ": "@ + type_text(t) + "\n"@, prek + seq![
            SpecToken::Ident(n),
            SpecToken::Colon,
        ] + type_toks(t), true),
{
    lemma_indent(1);
    lemma_tok(SpecToken::Ident(n));
    lemma_lit_colon();
    lemma_type(t);
    lemma_nl();
    let e0 = Seq::<SpecToken>::empty();
    let id = seq![SpecToken::Ident(n)];
    let co = seq![SpecToken::Colon];
    let ind = indent_text(1);
    let tt = type_text(t);
    lemma_cat(ind, e0, true, pre, prek, true);
    lemma_cat(ind + pre, e0 + prek, true, n, id, false);
    lemma_cat(ind + pre + n, e0 + prek + id, false, ": "@, co, true);
    lemma_cat(ind + pre + n + ": "@, e0 + prek + id + co, true, tt, type_toks(t), false);
    lemma_cat(ind + pre + n + ": "@ + tt, e0 + prek + id + co + type_toks(t), false, "\n"@, e0, true);
    assert(e0 + prek + id + co + type_toks(t) + e0 =~= prek + seq![SpecToken::Ident(n), SpecToken::Colon]
        + type_toks(t));
}

proof fn lemma_entry(e: SpecIoEntry)
    requires
        valid_name(entry_name(e)),
        wf_type(entry_type(e)),
        lexable_type(entry_type(e)),
    ensures
        rd(entry_text(e), entry_toks(e), true),
{
    lemma_words();
    reveal_strlit("event ");
    reveal_strlit("method ");
    reveal_strlit(" ");
    match e {
        SpecIoEntry::Event { name, ty } => {
            lemma_word_sp(w_event(), "event "@);
            lemma_typed_line("event "@, seq![SpecToken::Ident(w_event())], name, ty);
            assert(entry_text(e) =~= indent_text(1) + "event "@ + name + ": "@ + type_text(ty) + "\n"@);
            assert(entry_toks(e) =~= seq![SpecToken::Ident(w_event())] + seq![SpecToken::Ident(name), SpecToken::Colon] + type_toks(ty));
        },
        SpecIoEntry::Method { name, ty } => {
            lemma_word_sp(w_method(), "method "@);
            lemma_typed_line("method "@, seq![SpecToken::Ident(w_method())], name, ty);
            assert(entry_text(e) =~= indent_text(1) + "method "@ + name + ": "@ + type_text(ty) + "\n"@);
            assert(entry_toks(e) =~= seq![SpecToken::Ident(w_method())] + seq![SpecToken::Ident(name), SpecToken::Colon] + type_toks(ty));
        },
    }
}

proof fn lemma_alias(a: SpecTypeAlias)
    requires
        valid_name(a.name),
        wf_type(a.ty),
        lexable_type(a.ty),
    ensures
        rd(alias_text(a), alias_toks(a), true),
{
    lemma_empty();
    lemma_typed_line(Seq::empty(), Seq::empty(), a.name, a.ty);
    assert(alias_text(a) =~= indent_text(1) + Seq::empty() + a.name + ": "@ + type_text(a.ty) + "\n"@);
    assert(alias_toks(a) =~= Seq::<SpecToken>::empty() + seq![SpecToken::Ident(a.name), SpecToken::Colon]
        + type_toks(a.ty));
}

proof fn lemma_conn(c: SpecConnHandler)
    requires
        valid_name(c.name),
        lexable_expr(c.init),
    ensures
        rd(conn_text(c), conn_toks(c), true),
{
    lemma_indent(1);
    lemma_tok(SpecToken::Ident(c.name));
    lemma_lit_assign();
    lemma_expr(c.init, 0, 1);
    lemma_nl();
    let e0 = Seq::<SpecToken>::empty();
    let id = seq![SpecToken::Ident(c.name)];
    let asg = seq![SpecToken::Assign];
    let ind = indent_text(1);
    let it = expr_text(c.init, 0, 1);
    let ik = expr_toks(c.init, 0);
    lemma_cat(ind, e0, true, c.name, id, false);
    lemma_cat(ind + c.name, e0 + id, false, " = "@, asg, true);
    lemma_cat(ind + c.name + " = "@, e0 + id + asg, true, it, ik, false);
    lemma_cat(ind + c.name + " = "@ + it, e0 + id + asg + ik, false, "\n"@, e0, true);
    assert(conn_toks(c) =~= e0 + id + asg + ik + e0);
}

proof fn lemma_interface_section(d: SpecIoDecl)
    requires
        wf_io(d),
        lexable_io(d),
    ensures
        rd(interface_section(d), if d.interface.len() > 0 {
            seq![SpecToken::Section(w_interface())] + entries_toks(d.interface)
        } else {
            Seq::empty()
        }, true),
{
    lemma_section_words();
    lemma_empty();
    lemma_nl();
    let has_if = d.interface.len() > 0;
    if has_if {
        reveal_strlit("/// _interface\n");
        lemma_marker(w_interface(), "/// _interface\n"@);
        let xs = d.interface.map_values(|x: SpecIoEntry| entry_text(x));
        let ts = Seq::new(d.interface.len(), |k: int| entry_toks(d.interface[k]));
        assert forall|k: int| 0 <= k < xs.len() implies rd(#[trigger] xs[k], ts[k], true) by {
            let x = d.interface[k];
            assert(wf_type(entry_type(x)));
            assert(valid_name(entry_name(x)) && lexable_type(entry_type(x)));
            lemma_entry(x);
        }
        lemma_concat(xs, ts);
        lemma_entries_flat(d.interface);
        lemma_cat(indent_text(1) + "/// _interface\n"@, seq![SpecToken::Section(w_interface())], true, concat_all(xs), ts.flatten(), true);
    }
}

proof fn lemma_contracts_section(d: SpecIoDecl)
    requires
        wf_io(d),
        lexable_io(d),
    ensures
        rd(contracts_section(d), if d.api_contracts.len() > 0 {
            seq![SpecToken::Section(w_api_contracts())] + aliases_toks(d.api_contracts)
        } else {
            Seq::empty()
        }, true),
{
    lemma_section_words();
    lemma_empty();
    lemma_nl();
    let e0 = Seq::<SpecToken>::empty();
    let has_if = d.interface.len() > 0;
    let has_ac = d.api_contracts.len() > 0;
    let ack = if has_ac {
        seq![SpecToken::Section(w_api_contracts())] + aliases_toks(d.api_contracts)
    } else {
        e0
    };
    if has_ac {
        reveal_strlit("/// _api_contracts\n");
        lemma_marker(w_api_contracts(), "/// _api_contracts\n"@);
        let xs = d.api_contracts.map_values(|x: SpecTypeAlias| alias_text(x));
        let ts = Seq::new(d.api_contracts.len(), |k: int| alias_toks(d.api_contracts[k]));
        assert forall|k: int| 0 <= k < xs.len() implies rd(#[trigger] xs[k], ts[k], true) by {
            let x = d.api_contracts[k];
            assert(wf_type(x.ty));
            assert(valid_name(x.name) && lexable_type(x.ty));
            lemma_alias(x);
        }
        lemma_concat(xs, ts);
        lemma_aliases_flat(d.api_contracts);
        let gap = blank_if(has_if);
        assert(rd(gap, e0, true));
        let mk = indent_text(1) + "/// _api_contracts\n"@;
        lemma_cat(gap, e0, true, mk, seq![SpecToken::Section(w_api_contracts())], true);
        lemma_cat(gap + mk, e0 + seq![SpecToken::Section(w_api_contracts())], true, concat_all(xs), ts.flatten(), true);
        assert(e0 + seq![SpecToken::Section(w_api_contracts())] + ts.flatten() =~= ack);
        assert(contracts_section(d) =~= gap + mk + concat_all(xs));
    }
}

proof fn lemma_connections_section(d: SpecIoDecl)
    requires
        wf_io(d),
        lexable_io(d),
    ensures
        rd(connections_section(d), if d.connection_handlers.len() > 0 {
            seq![SpecToken::Section(w_connection_handlers())] + conns_toks(d.connection_handlers)
        } else {
            Seq::empty()
        }, true),
{
    lemma_section_words();
    lemma_empty();
    lemma_nl();
    let e0 = Seq::<SpecToken>::empty();
    let has_if = d.interface.len() > 0;
    let has_ac = d.api_contracts.len() > 0;
    let has_ch = d.connection_handlers.len() > 0;
    let chk = if has_ch {
        seq![SpecToken::Section(w_connection_handlers())] + conns_toks(d.connection_handlers)
    } else {
        e0
    };
    if has_ch {
        reveal_strlit("/// _connection_handlers\n");
        lemma_marker(w_connection_handlers(), "/// _connection_handlers\n"@);
        let xs = d.connection_handlers.map_values(|x: SpecConnHandler| conn_text(x));
        let ts = Seq::new(d.connection_handlers.len(), |k: int| conn_toks(d.connection_handlers[k]));
        assert forall|k: int| 0 <= k < xs.len() implies rd(#[trigger] xs[k], ts[k], true) by {
            let x = d.connection_handlers[k];
            assert(valid_name(x.name) && lexable_expr(x.init));
            lemma_conn(x);
        }
        lemma_concat(xs, ts);
        lemma_conns_flat(d.connection_handlers);
        let gap = blank_if(has_if || has_ac);
        assert(rd(gap, e0, true));
        let mk = indent_text(1) + "/// _connection_handlers\n"@;
        lemma_cat(gap, e0, true, mk, seq![SpecToken::Section(w_connection_handlers())], true);
        lemma_cat(gap + mk, e0 + seq![SpecToken::Section(w_connection_handlers())], true, concat_all(xs), ts.flatten(), true);
        assert(e0 + seq![SpecToken::Section(w_connection_handlers())] + ts.flatten() =~= chk);
        assert(connections_section(d) =~= gap + mk + concat_all(xs));
    }
}

proof fn lemma_io(d: SpecIoDecl)
    requires
        wf_io(d),
        lexable_io(d),
    ensures
        rd(io_text(d), io_toks(d), true),
{
    lemma_words();
    reveal_strlit("io ");
    reveal_strlit(" ");
    reveal_strlit("\n");
    lemma_word_sp(w_io(), "io "@);
    lemma_tok(SpecToken::Ident(d.name));
    lemma_lit_braces();
    lemma_lit_rbrace();
    lemma_nl();
    let e0 = Seq::<SpecToken>::empty();
    let iw = seq![SpecToken::Ident(w_io())];
    let nm = seq![SpecToken::Ident(d.name)];
    let o = seq![SpecToken::LBrace];
    let c = seq![SpecToken::RBrace];
    lemma_cat("io "@, iw, true, d.name, nm, false);
    lemma_cat("io "@ + d.name, iw + nm, false, " {"@, o, true);
    let head = "io "@ + d.name + " {"@;
    let headk = iw + nm + o;
    let has_if = d.interface.len() > 0;
    let has_ac = d.api_contracts.len() > 0;
    let has_ch = d.connection_handlers.len() > 0;
    let ifk = if has_if {
        seq![SpecToken::Section(w_interface())] + entries_toks(d.interface)
    } else {
        e0
    };
    let ack = if has_ac {
        seq![SpecToken::Section(w_api_contracts())] + aliases_toks(d.api_contracts)
    } else {
        e0
    };
    let chk = if has_ch {
        seq![SpecToken::Section(w_connection_handlers())] + conns_toks(d.connection_handlers)
    } else {
        e0
    };
    if !has_if && !has_ac && !has_ch {
        lemma_cat(head, headk, true, "}"@, c, true);
        assert(io_text(d) =~= head + "}"@);
        assert(io_toks(d) =~= headk + c);
    } else {
        lemma_interface_section(d);
        lemma_contracts_section(d);
        lemma_connections_section(d);
        let a = interface_section(d);
        let b = contracts_section(d);
        let x = connections_section(d);
        lemma_cat("\n"@, e0, true, a, ifk, true);
        lemma_cat("\n"@ + a, e0 + ifk, true, b, ack, true);
        lemma_cat("\n"@ + a + b, e0 + ifk + ack, true, x, chk, true);
        lemma_cat("\n"@ + a + b + x, e0 + ifk + ack + chk, true, "}"@, c, true);
        let body = "\n"@ + a + b + x + "}"@;
        assert(body[0] == '\n');
        lemma_cat(head, headk, true, body, e0 + ifk + ack + chk + c, true);
        assert(io_text(d) =~= head + body);
        assert(io_toks(d) =~= headk + (e0 + ifk + ack + chk + c));
    }
}

// ---------------------------------------------------------------------
// Modules.

pub open spec fn lexable_module(m: SpecModule) -> bool {
    &&& forall|i: int| 0 <= i < m.facets.len() ==> lexable_facet(#[trigger] m.facets[i])
    &&& forall|i: int| 0 <= i < m.schemes.len() ==> lexable_scheme(#[trigger] m.schemes[i])
    &&& forall|i: int| 0 <= i < m.io_decls.len() ==> lexable_io(#[trigger] m.io_decls[i])
}

proof fn lemma_interleave_empty(ts: Seq<Seq<SpecToken>>)
    ensures
        interleave(ts, Seq::empty()) == ts.flatten(),
    decreases ts.len(),
{
    if ts.len() == 1 {
        assert(ts.drop_first().flatten() == Seq::<SpecToken>::empty());
        assert(ts.flatten() =~= ts[0]);
    } else if ts.len() > 1 {
        lemma_interleave_empty(ts.drop_last());
        lemma_flat_back(ts);
        assert(ts.drop_last().flatten() + Seq::<SpecToken>::empty() + ts.last() =~= ts.drop_last().flatten()
            + ts.last());
    }
}

proof fn lemma_module(m: SpecModule)
    requires
        wf_module(m),
        lexable_module(m),
    ensures
        rd(module_text(m), module_toks(m), false),
{
    let ds = module_decls(m);
    let xs = decl_texts(m);
    let ts = Seq::new(ds.len(), |k: int| decl_toks(ds[k]));
    let nf = m.facets.len();
    let ns = m.schemes.len();
    assert(xs.len() == ds.len());
    assert forall|k: int| 0 <= k < xs.len() implies rd(#[trigger] xs[k], ts[k], false) by {
        if k < nf {
            assert(xs[k] == facet_text(m.facets[k]));
            assert(ds[k] == SpecDecl::Facet(m.facets[k]));
            assert(wf_facet(m.facets[k]) && lexable_facet(m.facets[k]));
            lemma_facet(m.facets[k]);
            lemma_weaken(xs[k], ts[k]);
        } else if k < nf + ns {
            assert(xs[k] == scheme_text(m.schemes[k - nf]));
            assert(ds[k] == SpecDecl::Scheme(m.schemes[k - nf]));
            assert(wf_scheme(m.schemes[k - nf]) && lexable_scheme(m.schemes[k - nf]));
            lemma_scheme(m.schemes[k - nf]);
            lemma_weaken(xs[k], ts[k]);
        } else {
            assert(xs[k] == io_text(m.io_decls[k - nf - ns]));
            assert(ds[k] == SpecDecl::Io(m.io_decls[k - nf - ns]));
            assert(wf_io(m.io_decls[k - nf - ns]) && lexable_io(m.io_decls[k - nf - ns]));
            lemma_io(m.io_decls[k - nf - ns]);
            lemma_weaken(xs[k], ts[k]);
        }
    }
    reveal_strlit("\n\n");
    let e0 = Seq::<SpecToken>::empty();
    lemma_ws("\n\n"@);
    lemma_joined(xs, ts, "\n\n"@, e0);
    lemma_interleave_empty(ts);
    lemma_decls_flat(ds);
    let j = joined(xs, "\n\n"@);
    let tail: Seq<char> = if xs.len() > 0 { "\n"@ } else { Seq::empty() };
    lemma_nl();
    lemma_empty();
    assert(rd(tail, e0, true));
    lemma_cat(j, module_toks(m), false, tail, e0, true);
    if tail.len() > 0 {
        lemma_weaken(j + tail, module_toks(m) + e0);
    }
    assert(module_text(m) =~= j + tail);
    assert(module_toks(m) + e0 =~= module_toks(m));
}

/// Round trip through text: for a well-formed module whose names,
/// numbers and floats are ones the lexer reads back, lexing and parsing
/// the printed text gives back the module.
pub proof fn law_parse_printed_text(m: SpecModule)
    requires
        wf_module(m),
        lexable_module(m),
    ensures
        spec_parse_source(module_text(m)) == Some(m),
{
    lemma_module(m);
    let s = module_text(m);
    let t = module_toks(m);
    assert(lexes(s, 0, s.len() as int, t)) by {
        reveal(rd);
        assert(at_chars(s, 0, s));
    }
    assert(lex_from(s, s.len() as int) == Some(Seq::<SpecSpanned>::empty()));
    assert(tokens_of_spanned(Seq::<SpecSpanned>::empty()) =~= Seq::<SpecToken>::empty());
    assert(lex_toks(s, 0) == Some(t + Seq::<SpecToken>::empty()));
    assert(t + Seq::<SpecToken>::empty() =~= t);
    law_parse_printed_tokens(m);
}

/// Formatting is idempotent: the module that the printed text of a
/// well-formed module parses back to prints as the same text.
pub proof fn law_format_idempotent(m: SpecModule)
    requires
        wf_module(m),
        lexable_module(m),
    ensures
        spec_parse_source(module_text(m)) is Some,
        module_text(spec_parse_source(module_text(m)).unwrap()) == module_text(m),
{
    law_parse_printed_text(m);
}

} // verus!
