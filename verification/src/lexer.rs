//! Lexer — turns source text into a sequence of `(Token, Span)`.
//!
//! Whitespace is skipped. `///` starts a comment that runs to the end of
//! the line, except that `/// _name` (an underscore directly followed by
//! identifier characters, after optional blanks) is a section marker and
//! becomes a `Token::Section(name)`.
use vstd::prelude::*;

use crate::ParseError;
use crate::text::{chars_to_string, str_to_chars};

verus! {

/// Tokens of the Urchin surface syntax.
#[derive(Debug, Clone, PartialEq, Eq, Hash)]
pub enum Token {
    /// `on`
    KwOn,
    /// `if`
    KwIf,
    /// `else`
    KwElse,
    /// `match`
    KwMatch,
    /// camelCase / PascalCase / snake_case identifier.
    Ident(String),
    /// Decimal integer literal.
    Int(i64),
    /// Decimal literal with a fractional part, as written.
    Float(String),
    /// String literal, escapes resolved.
    Str(String),
    /// `/// _name` section marker; holds `name`.
    Section(String),
    /// `~`
    Tilde,
    /// `:`
    Colon,
    /// `{`
    LBrace,
    /// `}`
    RBrace,
    /// `(`
    LParen,
    /// `)`
    RParen,
    /// `[`
    LBracket,
    /// `]`
    RBracket,
    /// `.`
    Dot,
    /// `,`
    Comma,
    /// `@`
    At,
    /// `_`
    Underscore,
    /// `->`
    Arrow,
    /// `~>`
    StateShift,
    /// `|>`
    Pipe,
    /// `+`
    Plus,
    /// `-`
    Minus,
    /// `*`
    Star,
    /// `/`
    Slash,
    /// `<`
    Lt,
    /// `>`
    Gt,
    /// `==`
    EqEq,
    /// `=`
    Assign,
}

/// A character range `start..end` of the source.
#[derive(Debug, Clone, Copy, PartialEq, Eq)]
pub struct Span {
    pub start: usize,
    pub end: usize,
}

/// The model of a token.
pub enum SpecToken {
    KwOn,
    KwIf,
    KwElse,
    KwMatch,
    Ident(Seq<char>),
    Int(int),
    Float(Seq<char>),
    Str(Seq<char>),
    Section(Seq<char>),
    Tilde,
    Colon,
    LBrace,
    RBrace,
    LParen,
    RParen,
    LBracket,
    RBracket,
    Dot,
    Comma,
    At,
    Underscore,
    Arrow,
    StateShift,
    Pipe,
    Plus,
    Minus,
    Star,
    Slash,
    Lt,
    Gt,
    EqEq,
    Assign,
}

impl View for Token {
    type V = SpecToken;

    open spec fn view(&self) -> SpecToken {
        match self {
            Token::KwOn => SpecToken::KwOn,
            Token::KwIf => SpecToken::KwIf,
            Token::KwElse => SpecToken::KwElse,
            Token::KwMatch => SpecToken::KwMatch,
            Token::Ident(s) => SpecToken::Ident(s@),
            Token::Int(n) => SpecToken::Int(*n as int),
            Token::Float(s) => SpecToken::Float(s@),
            Token::Str(s) => SpecToken::Str(s@),
            Token::Section(s) => SpecToken::Section(s@),
            Token::Tilde => SpecToken::Tilde,
            Token::Colon => SpecToken::Colon,
            Token::LBrace => SpecToken::LBrace,
            Token::RBrace => SpecToken::RBrace,
            Token::LParen => SpecToken::LParen,
            Token::RParen => SpecToken::RParen,
            Token::LBracket => SpecToken::LBracket,
            Token::RBracket => SpecToken::RBracket,
            Token::Dot => SpecToken::Dot,
            Token::Comma => SpecToken::Comma,
            Token::At => SpecToken::At,
            Token::Underscore => SpecToken::Underscore,
            Token::Arrow => SpecToken::Arrow,
            Token::StateShift => SpecToken::StateShift,
            Token::Pipe => SpecToken::Pipe,
            Token::Plus => SpecToken::Plus,
            Token::Minus => SpecToken::Minus,
            Token::Star => SpecToken::Star,
            Token::Slash => SpecToken::Slash,
            Token::Lt => SpecToken::Lt,
            Token::Gt => SpecToken::Gt,
            Token::EqEq => SpecToken::EqEq,
            Token::Assign => SpecToken::Assign,
        }
    }
}

/// A token with the character range it was read from.
pub type SpecSpanned = (SpecToken, int, int);

pub open spec fn spanned_view(v: Seq<(Token, Span)>) -> Seq<SpecSpanned> {
    v.map_values(|p: (Token, Span)| (p.0@, p.1.start as int, p.1.end as int))
}

/// The tokens alone, without their ranges.
pub open spec fn tokens_of_spanned(v: Seq<SpecSpanned>) -> Seq<SpecToken> {
    v.map_values(|p: SpecSpanned| p.0)
}

// ---------------------------------------------------------------------
// Character classes.

pub open spec fn is_ws(c: char) -> bool {
    let u = c as u32;
    ||| u == 0x20 || (0x09 <= u && u <= 0x0d)
    ||| u == 0x85 || u == 0xa0 || u == 0x1680
    ||| (0x2000 <= u && u <= 0x200a)
    ||| u == 0x2028 || u == 0x2029 || u == 0x202f || u == 0x205f || u == 0x3000
}

pub open spec fn is_digit(c: char) -> bool {
    0x30 <= (c as u32) && (c as u32) <= 0x39
}

pub open spec fn is_ident_start(c: char) -> bool {
    let u = c as u32;
    (0x41 <= u && u <= 0x5a) || (0x61 <= u && u <= 0x7a) || u == 0x5f
}

pub open spec fn is_ident_continue(c: char) -> bool {
    is_ident_start(c) || is_digit(c)
}

pub open spec fn is_blank(c: char) -> bool {
    c == ' ' || c == '\t'
}

// ---------------------------------------------------------------------
// Scanning helpers. Each returns the first index at or after `i` where
// the scanned class ends.

pub open spec fn ident_end(s: Seq<char>, i: int) -> int
    decreases s.len() - i,
{
    if 0 <= i < s.len() && is_ident_continue(s[i]) {
        ident_end(s, i + 1)
    } else {
        i
    }
}

pub open spec fn digits_end(s: Seq<char>, i: int) -> int
    decreases s.len() - i,
{
    if 0 <= i < s.len() && is_digit(s[i]) {
        digits_end(s, i + 1)
    } else {
        i
    }
}

pub open spec fn blank_end(s: Seq<char>, i: int) -> int
    decreases s.len() - i,
{
    if 0 <= i < s.len() && is_blank(s[i]) {
        blank_end(s, i + 1)
    } else {
        i
    }
}

pub open spec fn line_end(s: Seq<char>, i: int) -> int
    decreases s.len() - i,
{
    if 0 <= i < s.len() && s[i] != '\n' {
        line_end(s, i + 1)
    } else {
        i
    }
}

pub proof fn lemma_ident_end(s: Seq<char>, i: int)
    requires
        0 <= i <= s.len(),
    ensures
        i <= ident_end(s, i) <= s.len(),
        forall|k: int| i <= k < ident_end(s, i) ==> is_ident_continue(#[trigger] s[k]),
        ident_end(s, i) < s.len() ==> !is_ident_continue(s[ident_end(s, i)]),
    decreases s.len() - i,
{
    if i < s.len() && is_ident_continue(s[i]) {
        lemma_ident_end(s, i + 1);
    }
}

pub proof fn lemma_digits_end(s: Seq<char>, i: int)
    requires
        0 <= i <= s.len(),
    ensures
        i <= digits_end(s, i) <= s.len(),
        forall|k: int| i <= k < digits_end(s, i) ==> is_digit(#[trigger] s[k]),
        digits_end(s, i) < s.len() ==> !is_digit(s[digits_end(s, i)]),
    decreases s.len() - i,
{
    if i < s.len() && is_digit(s[i]) {
        lemma_digits_end(s, i + 1);
    }
}

pub proof fn lemma_blank_end(s: Seq<char>, i: int)
    requires
        0 <= i <= s.len(),
    ensures
        i <= blank_end(s, i) <= s.len(),
    decreases s.len() - i,
{
    if i < s.len() && is_blank(s[i]) {
        lemma_blank_end(s, i + 1);
    }
}

pub proof fn lemma_line_end(s: Seq<char>, i: int)
    requires
        0 <= i <= s.len(),
    ensures
        i <= line_end(s, i) <= s.len(),
    decreases s.len() - i,
{
    if i < s.len() && s[i] != '\n' {
        lemma_line_end(s, i + 1);
    }
}

/// `///` starts at `i`.
pub open spec fn triple_slash_at(s: Seq<char>, i: int) -> bool {
    0 <= i && i + 2 < s.len() && s[i] == '/' && s[i + 1] == '/' && s[i + 2] == '/'
}

/// `///`, optional blanks, `_`, then at least one identifier character.
pub open spec fn marker_at(s: Seq<char>, i: int) -> bool {
    triple_slash_at(s, i) && {
        let j = blank_end(s, i + 3);
        j + 1 < s.len() && s[j] == '_' && is_ident_continue(s[j + 1])
    }
}

/// Skips whitespace and comments that are not section markers.
pub open spec fn skip_trivia(s: Seq<char>, i: int) -> int
    decreases s.len() - i,
{
    if 0 <= i < s.len() {
        if is_ws(s[i]) {
            skip_trivia(s, i + 1)
        } else if triple_slash_at(s, i) && !marker_at(s, i) {
            proof {
                lemma_line_end(s, i + 3);
            }
            skip_trivia(s, line_end(s, i + 3))
        } else {
            i
        }
    } else {
        i
    }
}

pub proof fn lemma_skip_trivia(s: Seq<char>, i: int)
    requires
        0 <= i <= s.len(),
    ensures
        i <= skip_trivia(s, i) <= s.len(),
    decreases s.len() - i,
{
    if i < s.len() {
        if is_ws(s[i]) {
            lemma_skip_trivia(s, i + 1);
        } else if triple_slash_at(s, i) && !marker_at(s, i) {
            lemma_line_end(s, i + 3);
            lemma_skip_trivia(s, line_end(s, i + 3));
        }
    }
}

pub open spec fn digit_value(c: char) -> int {
    (c as u32) as int - 0x30
}

/// The value of a sequence of decimal digits.
pub open spec fn digits_value(d: Seq<char>) -> int
    decreases d.len(),
{
    if d.len() == 0 {
        0
    } else {
        digits_value(d.drop_last()) * 10 + digit_value(d.last())
    }
}

/// The character an escape `\c` stands for inside a string literal.
pub open spec fn escape_char(c: char) -> Option<char> {
    if c == '\\' {
        Some('\\')
    } else if c == '"' {
        Some('"')
    } else if c == 'n' {
        Some('\n')
    } else if c == 't' {
        Some('\t')
    } else if c == 'r' {
        Some('\r')
    } else {
        None
    }
}

/// The body of a string literal starting at `i` (after the opening quote):
/// its characters and the index after the closing quote.
pub open spec fn str_body(s: Seq<char>, i: int) -> Option<(Seq<char>, int)>
    decreases s.len() - i,
{
    if 0 <= i < s.len() {
        if s[i] == '"' {
            Some((Seq::empty(), i + 1))
        } else if s[i] == '\\' {
            if i + 1 < s.len() {
                match escape_char(s[i + 1]) {
                    Some(c) => match str_body(s, i + 2) {
                        Some((rest, e)) => Some((seq![c] + rest, e)),
                        None => None,
                    },
                    None => None,
                }
            } else {
                None
            }
        } else {
            match str_body(s, i + 1) {
                Some((rest, e)) => Some((seq![s[i]] + rest, e)),
                None => None,
            }
        }
    } else {
        None
    }
}

/// Keywords, `_`, or an identifier.
pub open spec fn word_token(w: Seq<char>) -> SpecToken {
    if w == seq!['o', 'n'] {
        SpecToken::KwOn
    } else if w == seq!['i', 'f'] {
        SpecToken::KwIf
    } else if w == seq!['e', 'l', 's', 'e'] {
        SpecToken::KwElse
    } else if w == seq!['m', 'a', 't', 'c', 'h'] {
        SpecToken::KwMatch
    } else if w == seq!['_'] {
        SpecToken::Underscore
    } else {
        SpecToken::Ident(w)
    }
}

/// The punctuation token at `i`, with its end index.
pub open spec fn punct_at(s: Seq<char>, i: int) -> Option<(SpecToken, int)> {
    let c = s[i];
    let next = if i + 1 < s.len() { s[i + 1] } else { '\0' };
    if c == '~' {
        if next == '>' { Some((SpecToken::StateShift, i + 2)) } else { Some((SpecToken::Tilde, i + 1)) }
    } else if c == '-' {
        if next == '>' { Some((SpecToken::Arrow, i + 2)) } else { Some((SpecToken::Minus, i + 1)) }
    } else if c == '|' {
        if next == '>' { Some((SpecToken::Pipe, i + 2)) } else { None }
    } else if c == '=' {
        if next == '=' { Some((SpecToken::EqEq, i + 2)) } else { Some((SpecToken::Assign, i + 1)) }
    } else if c == ':' {
        Some((SpecToken::Colon, i + 1))
    } else if c == '{' {
        Some((SpecToken::LBrace, i + 1))
    } else if c == '}' {
        Some((SpecToken::RBrace, i + 1))
    } else if c == '(' {
        Some((SpecToken::LParen, i + 1))
    } else if c == ')' {
        Some((SpecToken::RParen, i + 1))
    } else if c == '[' {
        Some((SpecToken::LBracket, i + 1))
    } else if c == ']' {
        Some((SpecToken::RBracket, i + 1))
    } else if c == '.' {
        Some((SpecToken::Dot, i + 1))
    } else if c == ',' {
        Some((SpecToken::Comma, i + 1))
    } else if c == '@' {
        Some((SpecToken::At, i + 1))
    } else if c == '+' {
        Some((SpecToken::Plus, i + 1))
    } else if c == '*' {
        Some((SpecToken::Star, i + 1))
    } else if c == '/' {
        Some((SpecToken::Slash, i + 1))
    } else if c == '<' {
        Some((SpecToken::Lt, i + 1))
    } else if c == '>' {
        Some((SpecToken::Gt, i + 1))
    } else {
        None
    }
}

/// The token that starts at `i` (where no trivia starts), with its end.
pub open spec fn token_at(s: Seq<char>, i: int) -> Option<(SpecToken, int)> {
    if !(0 <= i < s.len()) {
        None
    } else if marker_at(s, i) {
        let j = blank_end(s, i + 3);
        let k = ident_end(s, j + 1);
        Some((SpecToken::Section(s.subrange(j + 1, k)), k))
    } else if is_ident_start(s[i]) {
        let k = ident_end(s, i + 1);
        Some((word_token(s.subrange(i, k)), k))
    } else if is_digit(s[i]) {
        let k = digits_end(s, i + 1);
        if k + 1 < s.len() && s[k] == '.' && is_digit(s[k + 1]) {
            let k2 = digits_end(s, k + 2);
            Some((SpecToken::Float(s.subrange(i, k2)), k2))
        } else if digits_value(s.subrange(i, k)) <= i64::MAX {
            Some((SpecToken::Int(digits_value(s.subrange(i, k))), k))
        } else {
            None
        }
    } else if s[i] == '"' {
        match str_body(s, i + 1) {
            Some((body, e)) => Some((SpecToken::Str(body), e)),
            None => None,
        }
    } else {
        punct_at(s, i)
    }
}

/// The tokens of `s` from index `i` on, or `None` where `s` holds text
/// that is no token.
pub open spec fn lex_from(s: Seq<char>, i: int) -> Option<Seq<SpecSpanned>>
    decreases s.len() - i,
{
    if !(0 <= i <= s.len()) {
        None
    } else {
        let j = skip_trivia(s, i);
        proof {
            lemma_skip_trivia(s, i);
        }
        if j >= s.len() {
            Some(Seq::empty())
        } else {
            match token_at(s, j) {
                Some((t, k)) => if j < k && k <= s.len() {
                    match lex_from(s, k) {
                        Some(rest) => Some(seq![(t, j, k)] + rest),
                        None => None,
                    }
                } else {
                    None
                },
                None => None,
            }
        }
    }
}

/// Where lexing from `i` on stops on text that is no token (the start of
/// that text); meaningful only where `lex_from(s, i)` is `None`.
pub open spec fn lex_fail_at(s: Seq<char>, i: int) -> int
    decreases s.len() - i,
{
    if !(0 <= i <= s.len()) {
        i
    } else {
        let j = skip_trivia(s, i);
        proof {
            lemma_skip_trivia(s, i);
        }
        if j >= s.len() {
            j
        } else {
            match token_at(s, j) {
                Some((t, k)) => if j < k && k <= s.len() {
                    lex_fail_at(s, k)
                } else {
                    j
                },
                None => j,
            }
        }
    }
}

/// The token sequence of a whole source text.
pub open spec fn spec_lex(s: Seq<char>) -> Option<Seq<SpecSpanned>> {
    lex_from(s, 0)
}


// ---------------------------------------------------------------------
// Executable lexer.

pub(crate) fn is_ws_exec(c: char) -> (r: bool)
    ensures
        r == is_ws(c),
{
    let u = c as u32;
    u == 0x20 || (0x09 <= u && u <= 0x0d) || u == 0x85 || u == 0xa0 || u == 0x1680 || (0x2000 <= u
        && u <= 0x200a) || u == 0x2028 || u == 0x2029 || u == 0x202f || u == 0x205f || u == 0x3000
}

fn is_digit_exec(c: char) -> (r: bool)
    ensures
        r == is_digit(c),
{
    0x30 <= (c as u32) && (c as u32) <= 0x39
}

fn is_ident_start_exec(c: char) -> (r: bool)
    ensures
        r == is_ident_start(c),
{
    let u = c as u32;
    (0x41 <= u && u <= 0x5a) || (0x61 <= u && u <= 0x7a) || u == 0x5f
}

fn is_ident_continue_exec(c: char) -> (r: bool)
    ensures
        r == is_ident_continue(c),
{
    is_ident_start_exec(c) || is_digit_exec(c)
}

fn ident_end_exec(s: &Vec<char>, i: usize) -> (r: usize)
    requires
        i <= s.len(),
    ensures
        r == ident_end(s@, i as int),
{
    let mut j = i;
    while j < s.len() && is_ident_continue_exec(s[j])
        invariant
            i <= j <= s.len(),
            ident_end(s@, j as int) == ident_end(s@, i as int),
        decreases s.len() - j,
    {
        j = j + 1;
    }
    j
}

fn digits_end_exec(s: &Vec<char>, i: usize) -> (r: usize)
    requires
        i <= s.len(),
    ensures
        r == digits_end(s@, i as int),
{
    let mut j = i;
    while j < s.len() && is_digit_exec(s[j])
        invariant
            i <= j <= s.len(),
            digits_end(s@, j as int) == digits_end(s@, i as int),
        decreases s.len() - j,
    {
        j = j + 1;
    }
    j
}

fn blank_end_exec(s: &Vec<char>, i: usize) -> (r: usize)
    requires
        i <= s.len(),
    ensures
        r == blank_end(s@, i as int),
{
    let mut j = i;
    while j < s.len() && (s[j] == ' ' || s[j] == '\t')
        invariant
            i <= j <= s.len(),
            blank_end(s@, j as int) == blank_end(s@, i as int),
        decreases s.len() - j,
    {
        j = j + 1;
    }
    j
}

fn line_end_exec(s: &Vec<char>, i: usize) -> (r: usize)
    requires
        i <= s.len(),
    ensures
        r == line_end(s@, i as int),
{
    let mut j = i;
    while j < s.len() && s[j] != '\n'
        invariant
            i <= j <= s.len(),
            line_end(s@, j as int) == line_end(s@, i as int),
        decreases s.len() - j,
    {
        j = j + 1;
    }
    j
}

fn triple_slash_at_exec(s: &Vec<char>, i: usize) -> (r: bool)
    ensures
        r == triple_slash_at(s@, i as int),
{
    i < s.len() && s.len() - i > 2 && s[i] == '/' && s[i + 1] == '/' && s[i + 2] == '/'
}

fn marker_at_exec(s: &Vec<char>, i: usize) -> (r: bool)
    ensures
        r == marker_at(s@, i as int),
{
    if !triple_slash_at_exec(s, i) {
        return false;
    }
    assert(i + 3 <= s@.len());
    assert(s@.len() == s.len());
    let j = blank_end_exec(s, i + 3);
    proof {
        lemma_blank_end(s@, i + 3);
    }
    j < s.len() && s.len() - j > 1 && s[j] == '_' && is_ident_continue_exec(s[j + 1])
}

fn skip_trivia_exec(s: &Vec<char>, i: usize) -> (r: usize)
    requires
        i <= s.len(),
    ensures
        r == skip_trivia(s@, i as int),
        i <= r <= s.len(),
{
    let mut j = i;
    proof {
        lemma_skip_trivia(s@, i as int);
    }
    loop
        invariant
            i <= j <= s.len(),
            skip_trivia(s@, j as int) == skip_trivia(s@, i as int),
        decreases s.len() - j,
    {
        if j >= s.len() {
            return j;
        }
        if is_ws_exec(s[j]) {
            j = j + 1;
        } else if triple_slash_at_exec(s, j) && !marker_at_exec(s, j) {
            let e = line_end_exec(s, j + 3);
            proof {
                lemma_line_end(s@, j + 3);
            }
            j = e;
        } else {
            return j;
        }
    }
}

/// The characters `s[i..k]`.
pub(crate) fn sub_chars(s: &Vec<char>, i: usize, k: usize) -> (r: Vec<char>)
    requires
        i <= k <= s.len(),
    ensures
        r@ == s@.subrange(i as int, k as int),
{
    let mut out: Vec<char> = Vec::new();
    let mut j = i;
    while j < k
        invariant
            i <= j <= k <= s.len(),
            out@ == s@.subrange(i as int, j as int),
        decreases k - j,
    {
        out.push(s[j]);
        j = j + 1;
        assert(out@ == s@.subrange(i as int, j as int));
    }
    out
}

proof fn lemma_digits_value_nonneg(d: Seq<char>)
    requires
        forall|k: int| 0 <= k < d.len() ==> is_digit(#[trigger] d[k]),
    ensures
        digits_value(d) >= 0,
    decreases d.len(),
{
    if d.len() > 0 {
        assert(is_digit(d[d.len() - 1]));
        lemma_digits_value_nonneg(d.drop_last());
    }
}

/// A longer run of digits has at least the value of its prefix.
proof fn lemma_digits_value_mono(s: Seq<char>, i: int, j: int, k: int)
    requires
        0 <= i <= j <= k <= s.len(),
        forall|m: int| i <= m < k ==> is_digit(#[trigger] s[m]),
    ensures
        digits_value(s.subrange(i, j)) <= digits_value(s.subrange(i, k)),
    decreases k - j,
{
    if j < k {
        lemma_digits_value_mono(s, i, j, k - 1);
        assert(s.subrange(i, k).drop_last() == s.subrange(i, k - 1));
        assert(s.subrange(i, k).last() == s[k - 1]);
        assert(is_digit(s[k - 1]));
        assert forall|m: int| 0 <= m < s.subrange(i, k - 1).len() implies is_digit(
            #[trigger] s.subrange(i, k - 1)[m],
        ) by {
            assert(s.subrange(i, k - 1)[m] == s[i + m]);
        }
        lemma_digits_value_nonneg(s.subrange(i, k - 1));
    }
}

/// The value of the digits `s[i..k]`, or `None` where it exceeds `i64::MAX`.
fn digits_value_exec(s: &Vec<char>, i: usize, k: usize) -> (r: Option<i64>)
    requires
        i <= k <= s.len(),
        forall|m: int| i <= m < k ==> is_digit(#[trigger] s@[m]),
    ensures
        match r {
            Some(v) => v as int == digits_value(s@.subrange(i as int, k as int)),
            None => digits_value(s@.subrange(i as int, k as int)) > i64::MAX,
        },
{
    let mut v: i64 = 0;
    let mut j = i;
    assert(s@.subrange(i as int, i as int).len() == 0);
    while j < k
        invariant
            i <= j <= k <= s.len(),
            forall|m: int| i <= m < k ==> is_digit(#[trigger] s@[m]),
            v as int == digits_value(s@.subrange(i as int, j as int)),
            v >= 0,
        decreases k - j,
    {
        let d = (s[j] as u32 - 0x30) as i64;
        assert(is_digit(s@[j as int]));
        assert(s@.subrange(i as int, j + 1).drop_last() == s@.subrange(i as int, j as int));
        assert(s@.subrange(i as int, j + 1).last() == s@[j as int]);
        if v > (i64::MAX - d) / 10 {
            proof {
                lemma_digits_value_mono(s@, i as int, j + 1, k as int);
            }
            return None;
        }
        v = v * 10 + d;
        j = j + 1;
    }
    Some(v)
}

fn escape_char_exec(c: char) -> (r: Option<char>)
    ensures
        r == escape_char(c),
{
    if c == '\\' {
        Some('\\')
    } else if c == '"' {
        Some('"')
    } else if c == 'n' {
        Some('\n')
    } else if c == 't' {
        Some('\t')
    } else if c == 'r' {
        Some('\r')
    } else {
        None
    }
}

fn str_body_exec(s: &Vec<char>, i: usize) -> (r: Option<(Vec<char>, usize)>)
    requires
        i <= s.len(),
    ensures
        match r {
            Some((v, e)) => str_body(s@, i as int) == Some((v@, e as int)) && e <= s.len(),
            None => str_body(s@, i as int) is None,
        },
{
    let mut out: Vec<char> = Vec::new();
    let mut j = i;
    loop
        invariant
            i <= j <= s.len(),
            str_body(s@, i as int) == match str_body(s@, j as int) {
                Some((rest, e)) => Some((out@ + rest, e)),
                None => None::<(Seq<char>, int)>,
            },
        decreases s.len() - j,
    {
        if j >= s.len() {
            return None;
        }
        let c = s[j];
        if c == '"' {
            assert(out@ + Seq::<char>::empty() == out@);
            return Some((out, j + 1));
        } else if c == '\\' {
            if j + 1 >= s.len() {
                return None;
            }
            match escape_char_exec(s[j + 1]) {
                Some(e) => {
                    proof {
                        match str_body(s@, j + 2) {
                            Some((rest, _)) => {
                                assert(out@ + (seq![e] + rest) == out@.push(e) + rest);
                            },
                            None => {},
                        }
                    }
                    out.push(e);
                    j = j + 2;
                },
                None => {
                    return None;
                },
            }
        } else {
            proof {
                match str_body(s@, j + 1) {
                    Some((rest, _)) => {
                        assert(out@ + (seq![c] + rest) == out@.push(c) + rest);
                    },
                    None => {},
                }
            }
            out.push(c);
            j = j + 1;
        }
    }
}

fn seq_eq_exec(s: &Vec<char>, i: usize, k: usize, w: &[char]) -> (r: bool)
    requires
        i <= k <= s.len(),
    ensures
        r == (s@.subrange(i as int, k as int) == w@),
{
    if k - i != w.len() {
        assert(s@.subrange(i as int, k as int).len() != w@.len());
        return false;
    }
    let mut j: usize = 0;
    while j < w.len()
        invariant
            k - i == w.len(),
            i <= k <= s.len(),
            j <= w.len(),
            forall|m: int| 0 <= m < j ==> s@[i + m] == w@[m],
        decreases w.len() - j,
    {
        if s[i + j] != w[j] {
            assert(s@.subrange(i as int, k as int)[j as int] != w@[j as int]);
            return false;
        }
        j = j + 1;
    }
    assert(s@.subrange(i as int, k as int) =~= w@);
    true
}

fn word_token_exec(s: &Vec<char>, i: usize, k: usize) -> (r: Token)
    requires
        i <= k <= s.len(),
    ensures
        r@ == word_token(s@.subrange(i as int, k as int)),
{
    let ghost w = s@.subrange(i as int, k as int);
    if seq_eq_exec(s, i, k, &['o', 'n']) {
        assert(['o', 'n']@ == seq!['o', 'n']);
        Token::KwOn
    } else if seq_eq_exec(s, i, k, &['i', 'f']) {
        assert(['o', 'n']@ == seq!['o', 'n']);
        assert(['i', 'f']@ == seq!['i', 'f']);
        Token::KwIf
    } else if seq_eq_exec(s, i, k, &['e', 'l', 's', 'e']) {
        assert(['o', 'n']@ == seq!['o', 'n']);
        assert(['i', 'f']@ == seq!['i', 'f']);
        assert(['e', 'l', 's', 'e']@ == seq!['e', 'l', 's', 'e']);
        Token::KwElse
    } else if seq_eq_exec(s, i, k, &['m', 'a', 't', 'c', 'h']) {
        assert(['o', 'n']@ == seq!['o', 'n']);
        assert(['i', 'f']@ == seq!['i', 'f']);
        assert(['e', 'l', 's', 'e']@ == seq!['e', 'l', 's', 'e']);
        assert(['m', 'a', 't', 'c', 'h']@ == seq!['m', 'a', 't', 'c', 'h']);
        Token::KwMatch
    } else if seq_eq_exec(s, i, k, &['_']) {
        assert(['o', 'n']@ == seq!['o', 'n']);
        assert(['i', 'f']@ == seq!['i', 'f']);
        assert(['e', 'l', 's', 'e']@ == seq!['e', 'l', 's', 'e']);
        assert(['m', 'a', 't', 'c', 'h']@ == seq!['m', 'a', 't', 'c', 'h']);
        assert(['_']@ == seq!['_']);
        Token::Underscore
    } else {
        assert(['o', 'n']@ == seq!['o', 'n']);
        assert(['i', 'f']@ == seq!['i', 'f']);
        assert(['e', 'l', 's', 'e']@ == seq!['e', 'l', 's', 'e']);
        assert(['m', 'a', 't', 'c', 'h']@ == seq!['m', 'a', 't', 'c', 'h']);
        assert(['_']@ == seq!['_']);
        Token::Ident(chars_to_string(&sub_chars(s, i, k)))
    }
}

fn punct_at_exec(s: &Vec<char>, i: usize) -> (r: Option<(Token, usize)>)
    requires
        i < s.len(),
    ensures
        match r {
            Some((t, e)) => punct_at(s@, i as int) == Some((t@, e as int)),
            None => punct_at(s@, i as int) is None,
        },
{
    let c = s[i];
    let next = if i + 1 < s.len() { s[i + 1] } else { '\0' };
    if c == '~' {
        if next == '>' { Some((Token::StateShift, i + 2)) } else { Some((Token::Tilde, i + 1)) }
    } else if c == '-' {
        if next == '>' { Some((Token::Arrow, i + 2)) } else { Some((Token::Minus, i + 1)) }
    } else if c == '|' {
        if next == '>' { Some((Token::Pipe, i + 2)) } else { None }
    } else if c == '=' {
        if next == '=' { Some((Token::EqEq, i + 2)) } else { Some((Token::Assign, i + 1)) }
    } else if c == ':' {
        Some((Token::Colon, i + 1))
    } else if c == '{' {
        Some((Token::LBrace, i + 1))
    } else if c == '}' {
        Some((Token::RBrace, i + 1))
    } else if c == '(' {
        Some((Token::LParen, i + 1))
    } else if c == ')' {
        Some((Token::RParen, i + 1))
    } else if c == '[' {
        Some((Token::LBracket, i + 1))
    } else if c == ']' {
        Some((Token::RBracket, i + 1))
    } else if c == '.' {
        Some((Token::Dot, i + 1))
    } else if c == ',' {
        Some((Token::Comma, i + 1))
    } else if c == '@' {
        Some((Token::At, i + 1))
    } else if c == '+' {
        Some((Token::Plus, i + 1))
    } else if c == '*' {
        Some((Token::Star, i + 1))
    } else if c == '/' {
        Some((Token::Slash, i + 1))
    } else if c == '<' {
        Some((Token::Lt, i + 1))
    } else if c == '>' {
        Some((Token::Gt, i + 1))
    } else {
        None
    }
}

fn token_at_exec(s: &Vec<char>, i: usize) -> (r: Option<(Token, usize)>)
    requires
        i < s.len(),
    ensures
        match r {
            Some((t, e)) => token_at(s@, i as int) == Some((t@, e as int)),
            None => token_at(s@, i as int) is None,
        },
{
    if marker_at_exec(s, i) {
        let j = blank_end_exec(s, i + 3);
        proof {
            lemma_blank_end(s@, i + 3);
        }
        let k = ident_end_exec(s, j + 1);
        proof {
            lemma_ident_end(s@, j + 1);
        }
        Some((Token::Section(chars_to_string(&sub_chars(s, j + 1, k))), k))
    } else if is_ident_start_exec(s[i]) {
        let k = ident_end_exec(s, i + 1);
        proof {
            lemma_ident_end(s@, i + 1);
        }
        Some((word_token_exec(s, i, k), k))
    } else if is_digit_exec(s[i]) {
        let k = digits_end_exec(s, i + 1);
        proof {
            lemma_digits_end(s@, i + 1);
        }
        if k < s.len() && s.len() - k > 1 && s[k] == '.' && is_digit_exec(s[k + 1]) {
            let k2 = digits_end_exec(s, k + 2);
            proof {
                lemma_digits_end(s@, k + 2);
            }
            Some((Token::Float(chars_to_string(&sub_chars(s, i, k2))), k2))
        } else {
            match digits_value_exec(s, i, k) {
                Some(v) => Some((Token::Int(v), k)),
                None => None,
            }
        }
    } else if s[i] == '"' {
        match str_body_exec(s, i + 1) {
            Some((body, e)) => Some((Token::Str(chars_to_string(&body)), e)),
            None => None,
        }
    } else {
        punct_at_exec(s, i)
    }
}

fn lex_error(message: &str, at: usize) -> (r: ParseError)
    requires
        at < usize::MAX,
    ensures
        r.message@ == "lex error: "@ + message@,
        r.span.start == at,
        r.span.end == at + 1,
{
    let mut m = String::from_str("lex error: ");
    m.append(message);
    ParseError { message: m, span: std::ops::Range { start: at, end: at + 1 } }
}

/// Lex `source` into `(Token, Span)` pairs. Returns `Err` with a single
/// error, located at the offending character, where `source` holds text
/// that is no token.
pub fn lex(source: &str) -> (r: Result<Vec<(Token, Span)>, Vec<ParseError>>)
    ensures
        r is Ok <==> spec_lex(source@) is Some,
        r matches Ok(v) ==> spanned_view(v@) == spec_lex(source@).unwrap(),
        r matches Err(e) ==> e@.len() == 1 && e@[0].message@ == "lex error: unexpected character"@
            && e@[0].span.start == lex_fail_at(source@, 0) && e@[0].span.end == lex_fail_at(source@, 0)
            + 1,
{
    proof {
        reveal_strlit("lex error: ");
        reveal_strlit("unexpected character");
        reveal_strlit("lex error: unexpected character");
        assert("lex error: "@ + "unexpected character"@ =~= "lex error: unexpected character"@);
    }
    let s = str_to_chars(source);
    let mut out: Vec<(Token, Span)> = Vec::new();
    let mut i: usize = 0;
    assert(spanned_view(out@) == Seq::<SpecSpanned>::empty());
    loop
        invariant
            i <= s.len(),
            s@ == source@,
            spec_lex(s@) == match lex_from(s@, i as int) {
                Some(rest) => Some(spanned_view(out@) + rest),
                None => None::<Seq<SpecSpanned>>,
            },
            lex_fail_at(s@, 0) == lex_fail_at(s@, i as int),
            "lex error: "@ + "unexpected character"@ == "lex error: unexpected character"@,
        decreases s.len() - i,
    {
        let j = skip_trivia_exec(&s, i);
        if j >= s.len() {
            assert(spanned_view(out@) + Seq::<SpecSpanned>::empty() == spanned_view(out@));
            return Ok(out);
        }
        match token_at_exec(&s, j) {
            Some((t, k)) => {
                if !(j < k && k <= s.len()) {
                    return Err(vec![lex_error("unexpected character", j)]);
                }
                let ghost tv = t@;
                proof {
                    let sv = spanned_view(out@.push((t, Span { start: j, end: k })));
                    assert(sv == spanned_view(out@).push((tv, j as int, k as int)));
                    match lex_from(s@, k as int) {
                        Some(rest) => {
                            assert(spanned_view(out@) + (seq![(tv, j as int, k as int)] + rest) == sv
                                + rest);
                        },
                        None => {},
                    }
                }
                out.push((t, Span { start: j, end: k }));
                i = k;
            },
            None => {
                return Err(vec![lex_error("unexpected character", j)]);
            },
        }
    }
}

} // verus!
