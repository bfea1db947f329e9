//! Pretty printer — `Module` → formatted Urchin source.
//!
//! Output is canonical: two-space indent, brace-on-same-line, sections
//! inside facets, schemes and io declarations introduced by their
//! `/// _section` markers and separated by a blank line. Parentheses
//! appear only where precedence needs them, and pipe chains of three or
//! more stages are laid out one stage per line.
//!
//! `///` comments other than section markers are not part of the AST and
//! are not reproduced.
use vstd::prelude::*;

use crate::ast::{
    BinOp, CallArg, DispatchDecl, DispatchMode, Expr, FacetDecl, FacetInstance, Handler, IoDecl,
    IoInterfaceEntry, IoSpine, MatchArm, Module, Name, Pattern, RecordField, SchemeDecl, SpecArg,
    SpecArm, SpecConnHandler, SpecDispatch, SpecExpr, SpecFacet, SpecHandler, SpecInstance,
    SpecIoDecl, SpecIoEntry, SpecMode, SpecModule, SpecPattern, SpecScheme, SpecSpine,
    SpecStateField, SpecStmt, SpecType, SpecTypeAlias, StateField, Stmt, TypeExpr,
};
use crate::ast::{args_view, arms_view, exprs_view, names_view, paths_view, stmts_view};
use crate::text::push_char;

verus! {

// ---------------------------------------------------------------------
// The text of each node.

/// One level deeper; depth counts stay far below the machine limit in any
/// real program, where the count stops.
pub open spec fn deeper(depth: nat) -> nat {
    if depth < usize::MAX {
        depth + 1
    } else {
        depth
    }
}

pub open spec fn indent_text(depth: nat) -> Seq<char>
    decreases depth,
{
    if depth == 0 {
        Seq::empty()
    } else {
        indent_text((depth - 1) as nat) + "  "@
    }
}

/// `a.b.c`
pub open spec fn dotted_text(segs: Seq<Name>) -> Seq<char>
    decreases segs.len(),
{
    if segs.len() == 0 {
        Seq::empty()
    } else if segs.len() == 1 {
        segs[0]
    } else {
        dotted_text(segs.drop_last()) + "."@ + segs.last()
    }
}

/// `items` joined by `sep`.
pub open spec fn joined(items: Seq<Seq<char>>, sep: Seq<char>) -> Seq<char>
    decreases items.len(),
{
    if items.len() == 0 {
        Seq::empty()
    } else if items.len() == 1 {
        items[0]
    } else {
        joined(items.drop_last(), sep) + sep + items.last()
    }
}

pub open spec fn digit_char(d: int) -> char {
    if d == 0 { '0' } else if d == 1 { '1' } else if d == 2 { '2' } else if d == 3 { '3' }
    else if d == 4 { '4' } else if d == 5 { '5' } else if d == 6 { '6' } else if d == 7 { '7' }
    else if d == 8 { '8' } else { '9' }
}

/// Decimal digits of a natural number.
pub open spec fn nat_text(n: nat) -> Seq<char>
    decreases n,
{
    if n < 10 {
        seq![digit_char(n as int)]
    } else {
        nat_text(n / 10) + seq![digit_char((n % 10) as int)]
    }
}

/// Decimal text of an integer, with `-` for negatives.
pub open spec fn int_text(n: int) -> Seq<char> {
    if n < 0 {
        seq!['-'] + nat_text((-n) as nat)
    } else {
        nat_text(n as nat)
    }
}

/// The escaped body of a string literal.
pub open spec fn escaped(s: Seq<char>) -> Seq<char>
    decreases s.len(),
{
    if s.len() == 0 {
        Seq::empty()
    } else {
        let c = s.last();
        escaped(s.drop_last()) + if c == '\\' {
            seq!['\\', '\\']
        } else if c == '"' {
            seq!['\\', '"']
        } else if c == '\n' {
            seq!['\\', 'n']
        } else if c == '\t' {
            seq!['\\', 't']
        } else if c == '\r' {
            seq!['\\', 'r']
        } else {
            seq![c]
        }
    }
}

/// Higher number = tighter binding.
pub open spec fn prec_of(op: BinOp) -> u8 {
    match op {
        BinOp::StateShift => 1,
        BinOp::Pipe => 2,
        BinOp::Lt | BinOp::Gt | BinOp::Eq => 3,
        BinOp::Add | BinOp::Sub => 4,
        BinOp::Mul | BinOp::Div => 5,
    }
}

pub open spec fn op_text(op: BinOp) -> Seq<char> {
    match op {
        BinOp::Add => "+"@,
        BinOp::Sub => "-"@,
        BinOp::Mul => "*"@,
        BinOp::Div => "/"@,
        BinOp::Lt => "<"@,
        BinOp::Gt => ">"@,
        BinOp::Eq => "=="@,
        BinOp::Pipe => "|>"@,
        BinOp::StateShift => "~>"@,
    }
}

pub open spec fn expr_prec(e: SpecExpr) -> u8 {
    match e {
        SpecExpr::Binary(op, _, _) => prec_of(op),
        _ => 255,
    }
}

/// `a |> b |> c` parses as `(a |> b) |> c`; its stages are `[a, b, c]`.
pub open spec fn pipe_stages(e: SpecExpr) -> Seq<SpecExpr>
    decreases e,
{
    match e {
        SpecExpr::Binary(BinOp::Pipe, l, r) => pipe_stages(*l).push(*r),
        _ => seq![e],
    }
}

pub open spec fn field_texts(sf: Seq<(Name, SpecType)>) -> Seq<Seq<char>>
    decreases sf, 0int,
{
    Seq::new(
        sf.len(),
        |i: int|
            if 0 <= i < sf.len() {
                sf[i].0 + ": "@ + type_text(sf[i].1)
            } else {
                Seq::empty()
            },
    )
}

pub open spec fn type_text(t: SpecType) -> Seq<char>
    decreases t, 1int,
{
    match t {
        SpecType::Path(segs) => dotted_text(segs),
        SpecType::List(inner) => "["@ + type_text(*inner) + "]"@,
        SpecType::Function { from, to, effects } => {
            let f = if *from is Function {
                "("@ + type_text(*from) + ")"@
            } else {
                type_text(*from)
            };
            f + " -> "@ + type_text(*to) + if effects.len() == 0 {
                Seq::empty()
            } else {
                " / {"@ + joined(effects.map_values(|e: Seq<Name>| dotted_text(e)), ", "@) + "}"@
            }
        },
        SpecType::Record(fields) => "{"@ + joined(field_texts(fields), ", "@) + "}"@,
    }
}

pub open spec fn pattern_text(p: SpecPattern) -> Seq<char> {
    match p {
        SpecPattern::Wildcard => "_"@,
        SpecPattern::Constructor(path) => dotted_text(path),
    }
}

/// Text of `e` where the enclosing operator has precedence `outer`.
pub open spec fn expr_text(e: SpecExpr, outer: u8, depth: nat) -> Seq<char>
    decreases e, 1int,
{
    let paren = expr_prec(e) < outer;
    let body: Seq<char> = match e {
        SpecExpr::Int(n) => int_text(n),
        SpecExpr::Float(t) => t,
        SpecExpr::Str(s) => "\""@ + escaped(s) + "\""@,
        SpecExpr::Ident(n) => n,
        SpecExpr::Binary(op, l, r) => if op == BinOp::Pipe && pipe_stages(e).len() >= 3 {
            pipe_chain_text(e, depth)
        } else {
            let p = prec_of(op);
            let (lp, rp) = if op == BinOp::StateShift {
                ((p + 1) as u8, p)
            } else {
                (p, (p + 1) as u8)
            };
            expr_text(*l, lp, depth) + " "@ + op_text(op) + " "@ + expr_text(*r, rp, depth)
        },
        SpecExpr::Call { callee, args } => callee + "("@ + joined(args_texts(args, depth), ", "@) + ")"@,
        SpecExpr::List(items) => "["@ + joined(items_texts(items, depth), ", "@) + "]"@,
        SpecExpr::FieldAccess { object, field } => expr_text(*object, 255, depth) + "."@ + field,
        SpecExpr::Match { scrutinee, arms } => "match "@ + expr_text(*scrutinee, 0, depth) + " {\n"@
            + arms_text(arms, depth) + indent_text(depth) + "}"@,
    };
    if paren {
        "("@ + body + ")"@
    } else {
        body
    }
}

/// A pipe chain of three or more stages, one stage per line: the head at
/// `depth`, each following stage on a new line at `depth + 1`.
pub open spec fn pipe_chain_text(e: SpecExpr, depth: nat) -> Seq<char>
    decreases e, 0int,
{
    match e {
        SpecExpr::Binary(BinOp::Pipe, l, r) => {
            let head = if (*l) matches SpecExpr::Binary(BinOp::Pipe, _, _) {
                pipe_chain_text(*l, depth)
            } else {
                expr_text(*l, 2, depth)
            };
            head + "\n"@ + indent_text(deeper(depth)) + "|> "@ + expr_text(*r, 3, deeper(depth))
        },
        _ => Seq::empty(),
    }
}

pub open spec fn args_texts(args: Seq<SpecArg>, depth: nat) -> Seq<Seq<char>>
    decreases args, 0int,
{
    Seq::new(
        args.len(),
        |i: int|
            if 0 <= i < args.len() {
                arg_text(args[i], depth)
            } else {
                Seq::empty()
            },
    )
}

pub open spec fn items_texts(items: Seq<SpecExpr>, depth: nat) -> Seq<Seq<char>>
    decreases items, 0int,
{
    Seq::new(
        items.len(),
        |i: int|
            if 0 <= i < items.len() {
                expr_text(items[i], 0, depth)
            } else {
                Seq::empty()
            },
    )
}

pub open spec fn arg_text(a: SpecArg, depth: nat) -> Seq<char>
    decreases a, 0int,
{
    match a {
        SpecArg::Positional(e) => expr_text(e, 0, depth),
        SpecArg::Named { name, value } => name + ": "@ + expr_text(value, 0, depth),
    }
}

pub open spec fn arms_text(arms: Seq<SpecArm>, depth: nat) -> Seq<char>
    decreases arms, 0int,
{
    if arms.len() == 0 {
        Seq::empty()
    } else {
        arms_text(arms.drop_last(), depth) + indent_text(deeper(depth)) + pattern_text(arms.last().pattern)
            + " -> "@ + arm_body_text(arms.last().body, deeper(depth)) + "\n"@
    }
}

/// A single non-`if` statement is written inline (at depth 0); anything
/// else as a brace block.
pub open spec fn arm_body_text(body: Seq<SpecStmt>, depth: nat) -> Seq<char>
    decreases body, 1int,
{
    if body.len() == 1 && !(body[0] is If) {
        stmt_text(body[0], 0)
    } else if body.len() == 0 {
        "{}"@
    } else {
        "{\n"@ + stmt_lines(body, deeper(depth)) + indent_text(depth) + "}"@
    }
}

/// Each statement on its own line at `depth`.
pub open spec fn stmt_lines(body: Seq<SpecStmt>, depth: nat) -> Seq<char>
    decreases body, 0int,
{
    if body.len() == 0 {
        Seq::empty()
    } else {
        stmt_lines(body.drop_last(), depth) + stmt_text(body.last(), depth) + "\n"@
    }
}

/// ` {}` or ` {\n<stmts>\n<indent>}`.
pub open spec fn block_text(body: Seq<SpecStmt>, depth: nat) -> Seq<char>
    decreases body, 1int,
{
    if body.len() == 0 {
        " {}"@
    } else {
        " {\n"@ + stmt_lines(body, deeper(depth)) + indent_text(depth) + "}"@
    }
}

pub open spec fn stmt_text(s: SpecStmt, depth: nat) -> Seq<char>
    decreases s, 0int,
{
    indent_text(depth) + match s {
        SpecStmt::Assign { name, value } => name + " = "@ + expr_text(value, 0, depth),
        SpecStmt::If { cond, then_body, else_body } => "if "@ + expr_text(cond, 0, depth) + block_text(
            then_body,
            depth,
        ) + match else_body {
            Some(eb) => " else"@ + block_text(eb, depth),
            None => Seq::empty(),
        },
        SpecStmt::ExprStmt(e) => expr_text(e, 0, depth),
    }
}


/// The concatenation of `parts`.
pub open spec fn concat_all(parts: Seq<Seq<char>>) -> Seq<char>
    decreases parts.len(),
{
    if parts.len() == 0 {
        Seq::empty()
    } else {
        concat_all(parts.drop_last()) + parts.last()
    }
}

/// A newline where `b` holds: the blank line between sections.
pub open spec fn blank_if(b: bool) -> Seq<char> {
    if b {
        "\n"@
    } else {
        Seq::empty()
    }
}

pub open spec fn field_text(f: SpecStateField) -> Seq<char> {
    indent_text(1) + f.name + match f.ty {
        Some(t) => ": "@ + type_text(t),
        None => Seq::empty(),
    } + " = "@ + expr_text(f.init, 0, 1) + "\n"@
}

pub open spec fn handler_text(h: SpecHandler, depth: nat) -> Seq<char> {
    indent_text(depth) + "on "@ + dotted_text(h.message_type) + match h.binding {
        Some(b) => " "@ + b,
        None => Seq::empty(),
    } + match h.return_ty {
        Some(t) => " -> "@ + type_text(t),
        None => Seq::empty(),
    } + block_text(h.body, depth) + "\n"@
}

/// Handlers separated by blank lines.
pub open spec fn handlers_text(hs: Seq<SpecHandler>) -> Seq<char>
    decreases hs.len(),
{
    if hs.len() == 0 {
        Seq::empty()
    } else {
        handlers_text(hs.drop_last()) + if hs.len() > 1 {
            "\n"@
        } else {
            Seq::empty()
        } + handler_text(hs.last(), 1)
    }
}

pub open spec fn facet_text(f: SpecFacet) -> Seq<char> {
    let has_state = f.state.len() > 0;
    let has_handlers = f.handlers.len() > 0;
    "facet "@ + f.name + " {"@ + if !has_state && !has_handlers {
        "}"@
    } else {
        "\n"@ + if has_state {
            indent_text(1) + "/// _state\n"@ + concat_all(f.state.map_values(|x: SpecStateField| field_text(x)))
        } else {
            Seq::empty()
        } + if has_handlers {
            blank_if(has_state) + indent_text(1) + "/// _handlers\n"@ + handlers_text(f.handlers)
        } else {
            Seq::empty()
        } + "}"@
    }
}

pub open spec fn instance_text(i: SpecInstance, depth: nat) -> Seq<char> {
    indent_text(depth) + i.name + "("@ + joined(i.io_args, ", "@) + ")"@
}

pub open spec fn mode_text(m: SpecMode) -> Seq<char> {
    match m {
        SpecMode::Parallel => "parallel"@,
        SpecMode::Async => "async"@,
        SpecMode::Sequence(names) => "sequence("@ + joined(names, " -> "@) + ")"@,
    }
}

pub open spec fn spine_text(s: SpecSpine) -> Seq<char> {
    indent_text(1) + s.name + ": "@ + dotted_text(s.io_path) + "\n"@
}

pub open spec fn dispatch_text(d: SpecDispatch) -> Seq<char> {
    indent_text(1) + "on "@ + d.spine + "."@ + d.event + " "@ + mode_text(d.mode) + "\n"@
}

pub open spec fn spines_section(s: SpecScheme) -> Seq<char> {
    if s.io_spines.len() > 0 {
        indent_text(1) + "/// _io\n"@ + concat_all(s.io_spines.map_values(|x: SpecSpine| spine_text(x)))
    } else {
        Seq::empty()
    }
}

pub open spec fn instances_section(s: SpecScheme) -> Seq<char> {
    if s.facet_instances.len() > 0 {
        blank_if(s.io_spines.len() > 0) + indent_text(1) + "/// _facets\n"@ + concat_all(
            s.facet_instances.map_values(|x: SpecInstance| instance_text(x, 1) + "\n"@),
        )
    } else {
        Seq::empty()
    }
}

pub open spec fn dispatch_section(s: SpecScheme) -> Seq<char> {
    if s.dispatch.len() > 0 {
        blank_if(s.io_spines.len() > 0 || s.facet_instances.len() > 0) + indent_text(1)
            + "/// _dispatch_scripts\n"@ + concat_all(s.dispatch.map_values(|x: SpecDispatch| dispatch_text(x)))
    } else {
        Seq::empty()
    }
}

pub open spec fn scheme_head(s: SpecScheme) -> Seq<char> {
    "scheme "@ + s.name + match s.parent {
        Some(p) => " @ "@ + p,
        None => Seq::empty(),
    } + " {"@
}

pub open spec fn scheme_text(s: SpecScheme) -> Seq<char> {
    scheme_head(s) + if s.io_spines.len() == 0 && s.facet_instances.len() == 0 && s.dispatch.len() == 0 {
        "}"@
    } else {
        "\n"@ + spines_section(s) + instances_section(s) + dispatch_section(s) + "}"@
    }
}

pub open spec fn entry_text(e: SpecIoEntry) -> Seq<char> {
    indent_text(1) + match e {
        SpecIoEntry::Event { name, ty } => "event "@ + name + ": "@ + type_text(ty),
        SpecIoEntry::Method { name, ty } => "method "@ + name + ": "@ + type_text(ty),
    } + "\n"@
}

pub open spec fn alias_text(a: SpecTypeAlias) -> Seq<char> {
    indent_text(1) + a.name + ": "@ + type_text(a.ty) + "\n"@
}

pub open spec fn conn_text(c: SpecConnHandler) -> Seq<char> {
    indent_text(1) + c.name + " = "@ + expr_text(c.init, 0, 1) + "\n"@
}

pub open spec fn interface_section(d: SpecIoDecl) -> Seq<char> {
    if d.interface.len() > 0 {
        indent_text(1) + "/// _interface\n"@ + concat_all(d.interface.map_values(|x: SpecIoEntry| entry_text(x)))
    } else {
        Seq::empty()
    }
}

pub open spec fn contracts_section(d: SpecIoDecl) -> Seq<char> {
    if d.api_contracts.len() > 0 {
        blank_if(d.interface.len() > 0) + indent_text(1) + "/// _api_contracts\n"@ + concat_all(
            d.api_contracts.map_values(|x: SpecTypeAlias| alias_text(x)),
        )
    } else {
        Seq::empty()
    }
}

pub open spec fn connections_section(d: SpecIoDecl) -> Seq<char> {
    if d.connection_handlers.len() > 0 {
        blank_if(d.interface.len() > 0 || d.api_contracts.len() > 0) + indent_text(1)
            + "/// _connection_handlers\n"@ + concat_all(
            d.connection_handlers.map_values(|x: SpecConnHandler| conn_text(x)),
        )
    } else {
        Seq::empty()
    }
}

pub open spec fn io_text(d: SpecIoDecl) -> Seq<char> {
    "io "@ + d.name + " {"@ + if d.interface.len() == 0 && d.api_contracts.len() == 0
        && d.connection_handlers.len() == 0 {
        "}"@
    } else {
        "\n"@ + interface_section(d) + contracts_section(d) + connections_section(d) + "}"@
    }
}

/// The text of each declaration: facets, then schemes, then io declarations.
pub open spec fn decl_texts(m: SpecModule) -> Seq<Seq<char>> {
    m.facets.map_values(|f: SpecFacet| facet_text(f)) + m.schemes.map_values(
        |s: SpecScheme| scheme_text(s),
    ) + m.io_decls.map_values(|d: SpecIoDecl| io_text(d))
}

/// The formatted text of a module: declarations separated by a blank line,
/// with a final newline when there is any declaration.
pub open spec fn module_text(m: SpecModule) -> Seq<char> {
    let ds = decl_texts(m);
    joined(ds, "\n\n"@) + if ds.len() > 0 {
        "\n"@
    } else {
        Seq::empty()
    }
}


// =====================================================================
// Executable printer. Each `write_*` appends the text of its node.

fn next_depth(depth: usize) -> (r: usize)
    ensures
        r as nat == deeper(depth as nat),
{
    if depth < usize::MAX {
        depth + 1
    } else {
        depth
    }
}

/// Appends `depth` levels of two-space indentation.
pub fn write_indent(out: &mut String, depth: usize)
    ensures
        final(out)@ == old(out)@ + indent_text(depth as nat),
{
    let ghost start = out@;
    let mut i: usize = 0;
    while i < depth
        invariant
            i <= depth,
            out@ == start + indent_text(i as nat),
        decreases depth - i,
    {
        out.append("  ");
        i = i + 1;
        assert(out@ =~= start + indent_text(i as nat));
    }
}

/// Appends `a.b.c`.
pub fn write_dotted(out: &mut String, segs: &Vec<String>)
    ensures
        final(out)@ == old(out)@ + dotted_text(names_view(segs@)),
{
    let ghost start = out@;
    let ghost n = names_view(segs@);
    let mut i: usize = 0;
    while i < segs.len()
        invariant
            i <= segs.len(),
            n == names_view(segs@),
            out@ == start + dotted_text(n.take(i as int)),
        decreases segs.len() - i,
    {
        if i > 0 {
            out.append(".");
        }
        out.append(segs[i].as_str());
        proof {
            let t = n.take(i + 1);
            assert(t.drop_last() =~= n.take(i as int));
            assert(t.last() == segs@[i as int]@);
            if i == 0 {
                assert(dotted_text(t) == t[0]);
                assert(dotted_text(n.take(0)) =~= Seq::<char>::empty());
            }
        }
        i = i + 1;
        assert(out@ =~= start + dotted_text(n.take(i as int)));
    }
    assert(n.take(segs.len() as int) =~= n);
}

/// Appends `names` joined by `sep`.
pub(crate) fn write_joined_names(out: &mut String, names: &Vec<String>, sep: &str)
    ensures
        final(out)@ == old(out)@ + joined(names_view(names@), sep@),
{
    let ghost start = out@;
    let ghost n = names_view(names@);
    let mut i: usize = 0;
    while i < names.len()
        invariant
            i <= names.len(),
            n == names_view(names@),
            out@ == start + joined(n.take(i as int), sep@),
        decreases names.len() - i,
    {
        if i > 0 {
            out.append(sep);
        }
        out.append(names[i].as_str());
        proof {
            let t = n.take(i + 1);
            assert(t.drop_last() =~= n.take(i as int));
            if i == 0 {
                assert(joined(n.take(0), sep@) =~= Seq::<char>::empty());
            }
        }
        i = i + 1;
        assert(out@ =~= start + joined(n.take(i as int), sep@));
    }
    assert(n.take(names.len() as int) =~= n);
}

fn digit_exec(d: u64) -> (c: char)
    requires
        d < 10,
    ensures
        c == digit_char(d as int),
{
    if d == 0 { '0' } else if d == 1 { '1' } else if d == 2 { '2' } else if d == 3 { '3' }
    else if d == 4 { '4' } else if d == 5 { '5' } else if d == 6 { '6' } else if d == 7 { '7' }
    else if d == 8 { '8' } else { '9' }
}

pub(crate) fn write_nat(out: &mut String, n: u64)
    ensures
        final(out)@ == old(out)@ + nat_text(n as nat),
    decreases n,
{
    if n >= 10 {
        write_nat(out, n / 10);
    }
    push_char(out, digit_exec(n % 10));
}

pub(crate) fn write_int(out: &mut String, n: i64)
    ensures
        final(out)@ == old(out)@ + int_text(n as int),
{
    if n < 0 {
        push_char(out, '-');
        let m: u64 = if n == i64::MIN {
            9223372036854775808u64
        } else {
            (-n) as u64
        };
        write_nat(out, m);
        assert(out@ =~= old(out)@ + int_text(n as int));
    } else {
        write_nat(out, n as u64);
    }
}

pub(crate) fn write_escaped(out: &mut String, s: &String)
    ensures
        final(out)@ == old(out)@ + escaped(s@),
{
    let cs = crate::text::str_to_chars(s.as_str());
    let ghost start = out@;
    let mut i: usize = 0;
    while i < cs.len()
        invariant
            i <= cs.len(),
            cs@ == s@,
            out@ == start + escaped(cs@.take(i as int)),
        decreases cs.len() - i,
    {
        let c = cs[i];
        let ghost before = out@;
        if c == '\\' {
            out.append("\\\\");
        } else if c == '"' {
            out.append("\\\"");
        } else if c == '\n' {
            out.append("\\n");
        } else if c == '\t' {
            out.append("\\t");
        } else if c == '\r' {
            out.append("\\r");
        } else {
            push_char(out, c);
        }
        proof {
            reveal_strlit("\\\\");
            reveal_strlit("\\\"");
            reveal_strlit("\\n");
            reveal_strlit("\\t");
            reveal_strlit("\\r");
            let t = cs@.take(i + 1);
            assert(t.drop_last() =~= cs@.take(i as int));
            assert(t.last() == c);
        }
        i = i + 1;
        assert(out@ =~= start + escaped(cs@.take(i as int)));
    }
    assert(cs@.take(cs.len() as int) =~= cs@);
}

/// Higher number = tighter binding.
pub fn binop_precedence(op: BinOp) -> (r: u8)
    ensures
        r == prec_of(op),
{
    match op {
        BinOp::StateShift => 1,
        BinOp::Pipe => 2,
        BinOp::Lt | BinOp::Gt | BinOp::Eq => 3,
        BinOp::Add | BinOp::Sub => 4,
        BinOp::Mul | BinOp::Div => 5,
    }
}

/// The source spelling of an operator.
pub fn binop_str(op: BinOp) -> (r: &'static str)
    ensures
        r@ == op_text(op),
{
    match op {
        BinOp::Add => "+",
        BinOp::Sub => "-",
        BinOp::Mul => "*",
        BinOp::Div => "/",
        BinOp::Lt => "<",
        BinOp::Gt => ">",
        BinOp::Eq => "==",
        BinOp::Pipe => "|>",
        BinOp::StateShift => "~>",
    }
}

fn expr_precedence(e: &Expr) -> (r: u8)
    ensures
        r == expr_prec(e@),
{
    match e {
        Expr::Binary(op, _, _) => binop_precedence(*op),
        _ => 255,
    }
}

/// Appends `p1, p2, ...` for an effect set.
fn write_effects(out: &mut String, effects: &Vec<Vec<String>>)
    ensures
        final(out)@ == old(out)@ + joined(
            paths_view(effects@).map_values(|e: Seq<Name>| dotted_text(e)),
            ", "@,
        ),
{
    let ghost s2 = out@;
    let ghost texts = paths_view(effects@).map_values(|e: Seq<Name>| dotted_text(e));
    let mut i: usize = 0;
    while i < effects.len()
        invariant
            i <= effects.len(),
            texts == paths_view(effects@).map_values(|e: Seq<Name>| dotted_text(e)),
            out@ == s2 + joined(texts.take(i as int), ", "@),
        decreases effects.len() - i,
    {
        if i > 0 {
            out.append(", ");
        }
        write_dotted(out, &effects[i]);
        proof {
            let tk = texts.take(i + 1);
            assert(tk.drop_last() =~= texts.take(i as int));
            if i == 0 {
                assert(joined(texts.take(0), ", "@) =~= Seq::<char>::empty());
            }
        }
        i = i + 1;
        assert(out@ =~= s2 + joined(texts.take(i as int), ", "@));
    }
    assert(texts.take(effects.len() as int) =~= texts);
}


/// Appends the fields of a record type, joined by `, `.
fn write_fields(out: &mut String, t: &TypeExpr, fields: &Vec<RecordField>)
    requires
        *t == TypeExpr::Record(*fields),
    ensures
        final(out)@ == old(out)@ + joined(field_texts(t@->Record_0), ", "@),
    decreases t, 0int,
{
    let ghost s2 = out@;
    let ghost sf = t@->Record_0;
    let ghost texts = field_texts(sf);
    let mut i: usize = 0;
    while i < fields.len()
        invariant
            i <= fields.len(),
            *t == TypeExpr::Record(*fields),
            sf == t@->Record_0,
            texts == field_texts(sf),
            sf.len() == fields.len(),
            out@ == s2 + joined(texts.take(i as int), ", "@),
        decreases fields.len() - i,
    {
        if i > 0 {
            out.append(", ");
        }
        proof {
            broadcast use vstd::std_specs::vec::axiom_vec_index_decreases;
            assert(decreases_to!(*t => (*t)->Record_0));
            assert(sf[i as int] == (fields@[i as int].name@, fields@[i as int].ty@));
        }
        out.append(fields[i].name.as_str());
        out.append(": ");
        write_type(out, &fields[i].ty);
        proof {
            let tk = texts.take(i + 1);
            assert(tk.drop_last() =~= texts.take(i as int));
            if i == 0 {
                assert(joined(texts.take(0), ", "@) =~= Seq::<char>::empty());
            }
        }
        i = i + 1;
        assert(out@ =~= s2 + joined(texts.take(i as int), ", "@));
    }
    assert(texts.take(fields.len() as int) =~= texts);
}

/// Appends the text of a type.
pub fn write_type(out: &mut String, t: &TypeExpr)
    ensures
        final(out)@ == old(out)@ + type_text(t@),
    decreases t, 1int,
{
    let ghost start = out@;
    match t {
        TypeExpr::Path(segs) => write_dotted(out, segs),
        TypeExpr::List(inner) => {
            out.append("[");
            write_type(out, inner);
            out.append("]");
            assert(out@ =~= start + type_text(t@));
        },
        TypeExpr::Function { from, to, effects } => {
            let is_fn = match &**from {
                TypeExpr::Function { .. } => true,
                _ => false,
            };
            if is_fn {
                out.append("(");
                write_type(out, from);
                out.append(")");
            } else {
                write_type(out, from);
            }
            out.append(" -> ");
            write_type(out, to);
            if effects.len() > 0 {
                out.append(" / {");
                write_effects(out, effects);
                out.append("}");
            }
            assert(out@ =~= start + type_text(t@));
        },
        TypeExpr::Record(fields) => {
            out.append("{");
            write_fields(out, t, fields);
            out.append("}");
            assert(type_text(t@) == "{"@ + joined(field_texts(t@->Record_0), ", "@) + "}"@);
            assert(out@ =~= start + type_text(t@));
        },
    }
}

/// Appends `_` or the constructor path.
pub fn write_pattern(out: &mut String, p: &Pattern)
    ensures
        final(out)@ == old(out)@ + pattern_text(p@),
{
    match p {
        Pattern::Wildcard => out.append("_"),
        Pattern::Constructor(path) => write_dotted(out, path),
    }
}


proof fn lemma_pipe_stages_len(e: SpecExpr)
    ensures
        pipe_stages(e).len() >= 1,
        pipe_stages(e).len() == 1 <==> !(e matches SpecExpr::Binary(BinOp::Pipe, _, _)),
    decreases e,
{
    match e {
        SpecExpr::Binary(BinOp::Pipe, l, r) => {
            lemma_pipe_stages_len(*l);
        },
        _ => {},
    }
}

fn is_pipe(e: &Expr) -> (r: bool)
    ensures
        r == (e@ matches SpecExpr::Binary(BinOp::Pipe, _, _)),
{
    match e {
        Expr::Binary(BinOp::Pipe, _, _) => true,
        _ => false,
    }
}

fn is_if(s: &Stmt) -> (r: bool)
    ensures
        r == (s@ is If),
{
    match s {
        Stmt::If { .. } => true,
        _ => false,
    }
}

/// Appends the text of `e` where the enclosing operator has precedence
/// `outer`; parenthesized where `e` binds less tightly.
#[verifier::rlimit(40)]
#[verifier::spinoff_prover]
fn write_expr_prec(out: &mut String, e: &Expr, outer: u8, depth: usize)
    ensures
        final(out)@ == old(out)@ + expr_text(e@, outer, depth as nat),
    decreases e, 3int,
{
    let ghost start = out@;
    let paren = expr_precedence(e) < outer;
    if paren {
        out.append("(");
    }
    let ghost s1 = out@;
    match e {
        Expr::Int(n) => write_int(out, *n),
        Expr::Float(t) => out.append(t.as_str()),
        Expr::Str(x) => {
            out.append("\"");
            write_escaped(out, x);
            out.append("\"");
        },
        Expr::Ident(n) => out.append(n.as_str()),
        Expr::Binary(op, l, r) => {
            proof {
                lemma_pipe_stages_len(l@);
            }
            if matches!(*op, BinOp::Pipe) && is_pipe(l) {
                write_pipe_chain(out, e, depth);
            } else {
                let p = binop_precedence(*op);
                let (lp, rp) = if matches!(*op, BinOp::StateShift) {
                    (p + 1, p)
                } else {
                    (p, p + 1)
                };
                write_expr_prec(out, l, lp, depth);
                out.append(" ");
                out.append(binop_str(*op));
                out.append(" ");
                write_expr_prec(out, r, rp, depth);
            }
        },
        Expr::Call { callee, args } => {
            out.append(callee.as_str());
            out.append("(");
            write_args(out, args, depth);
            out.append(")");
            assert(e@->args =~= args_view(args@));
        },
        Expr::List(items) => {
            out.append("[");
            write_items(out, items, depth);
            out.append("]");
            assert(e@->List_0 =~= exprs_view(items@));
        },
        Expr::FieldAccess { object, field } => {
            write_expr_prec(out, object, 255, depth);
            out.append(".");
            out.append(field.as_str());
        },
        Expr::Match { scrutinee, arms } => {
            out.append("match ");
            write_expr_prec(out, scrutinee, 0, depth);
            out.append(" {\n");
            write_arms(out, arms, depth);
            write_indent(out, depth);
            out.append("}");
            assert(e@->arms =~= arms_view(arms@));
        },
    }
    if paren {
        out.append(")");
    }
    assert(out@ =~= start + expr_text(e@, outer, depth as nat));
}

/// Appends a pipe chain of three or more stages, one stage per line.
fn write_pipe_chain(out: &mut String, e: &Expr, depth: usize)
    ensures
        final(out)@ == old(out)@ + pipe_chain_text(e@, depth as nat),
    decreases e, 2int,
{
    match e {
        Expr::Binary(BinOp::Pipe, l, r) => {
            let ghost start = out@;
            if is_pipe(l) {
                write_pipe_chain(out, l, depth);
            } else {
                write_expr_prec(out, l, 2, depth);
            }
            out.append("\n");
            let d = next_depth(depth);
            write_indent(out, d);
            out.append("|> ");
            write_expr_prec(out, r, 3, d);
            assert(out@ =~= start + pipe_chain_text(e@, depth as nat));
        },
        _ => {
            assert(pipe_chain_text(e@, depth as nat) =~= Seq::<char>::empty());
        },
    }
}

fn write_arg(out: &mut String, a: &CallArg, depth: usize)
    ensures
        final(out)@ == old(out)@ + arg_text(a@, depth as nat),
    decreases a, 1int,
{
    match a {
        CallArg::Positional(e) => write_expr_prec(out, e, 0, depth),
        CallArg::Named { name, value } => {
            let ghost start = out@;
            out.append(name.as_str());
            out.append(": ");
            write_expr_prec(out, value, 0, depth);
            assert(out@ =~= start + arg_text(a@, depth as nat));
        },
    }
}

fn write_args(out: &mut String, args: &Vec<CallArg>, depth: usize)
    ensures
        final(out)@ == old(out)@ + joined(args_texts(args_view(args@), depth as nat), ", "@),
    decreases args, 0int,
{
    let ghost s2 = out@;
    let ghost texts = args_texts(args_view(args@), depth as nat);
    let mut i: usize = 0;
    while i < args.len()
        invariant
            i <= args.len(),
            texts == args_texts(args_view(args@), depth as nat),
            out@ == s2 + joined(texts.take(i as int), ", "@),
        decreases args.len() - i,
    {
        if i > 0 {
            out.append(", ");
        }
        proof {
            broadcast use vstd::std_specs::vec::axiom_vec_index_decreases;
        }
        write_arg(out, &args[i], depth);
        proof {
            let tk = texts.take(i + 1);
            assert(tk.drop_last() =~= texts.take(i as int));
            if i == 0 {
                assert(joined(texts.take(0), ", "@) =~= Seq::<char>::empty());
            }
        }
        i = i + 1;
        assert(out@ =~= s2 + joined(texts.take(i as int), ", "@));
    }
    assert(texts.take(args.len() as int) =~= texts);
}

fn write_items(out: &mut String, items: &Vec<Expr>, depth: usize)
    ensures
        final(out)@ == old(out)@ + joined(items_texts(exprs_view(items@), depth as nat), ", "@),
    decreases items, 0int,
{
    let ghost s2 = out@;
    let ghost texts = items_texts(exprs_view(items@), depth as nat);
    let mut i: usize = 0;
    while i < items.len()
        invariant
            i <= items.len(),
            texts == items_texts(exprs_view(items@), depth as nat),
            out@ == s2 + joined(texts.take(i as int), ", "@),
        decreases items.len() - i,
    {
        if i > 0 {
            out.append(", ");
        }
        proof {
            broadcast use vstd::std_specs::vec::axiom_vec_index_decreases;
        }
        write_expr_prec(out, &items[i], 0, depth);
        proof {
            let tk = texts.take(i + 1);
            assert(tk.drop_last() =~= texts.take(i as int));
            if i == 0 {
                assert(joined(texts.take(0), ", "@) =~= Seq::<char>::empty());
            }
        }
        i = i + 1;
        assert(out@ =~= s2 + joined(texts.take(i as int), ", "@));
    }
    assert(texts.take(items.len() as int) =~= texts);
}

fn write_arms(out: &mut String, arms: &Vec<MatchArm>, depth: usize)
    ensures
        final(out)@ == old(out)@ + arms_text(arms_view(arms@), depth as nat),
    decreases arms, 0int,
{
    let ghost s2 = out@;
    let ghost sa = arms_view(arms@);
    let mut i: usize = 0;
    while i < arms.len()
        invariant
            i <= arms.len(),
            sa == arms_view(arms@),
            out@ == s2 + arms_text(sa.take(i as int), depth as nat),
        decreases arms.len() - i,
    {
        proof {
            broadcast use vstd::std_specs::vec::axiom_vec_index_decreases;
            assert(decreases_to!(arms => arms@[i as int]));
            assert(decreases_to!(arms@[i as int] => arms@[i as int].body));
        }
        let d = next_depth(depth);
        write_indent(out, d);
        write_pattern(out, &arms[i].pattern);
        out.append(" -> ");
        write_arm_body(out, &arms[i].body, d);
        out.append("\n");
        proof {
            let tk = sa.take(i + 1);
            assert(tk.drop_last() =~= sa.take(i as int));
            assert(tk.last() == arms@[i as int]@);
        }
        i = i + 1;
        assert(out@ =~= s2 + arms_text(sa.take(i as int), depth as nat));
    }
    assert(sa.take(arms.len() as int) =~= sa);
}

fn write_arm_body(out: &mut String, body: &Vec<Stmt>, depth: usize)
    ensures
        final(out)@ == old(out)@ + arm_body_text(stmts_view(body), depth as nat),
    decreases body, 1int,
{
    let ghost start = out@;
    let ghost sb = stmts_view(body);
    if body.len() == 1 && !is_if(&body[0]) {
        proof {
            broadcast use vstd::std_specs::vec::axiom_vec_index_decreases;
        }
        write_stmt(out, &body[0], 0);
    } else if body.len() == 0 {
        out.append("{}");
    } else {
        out.append("{\n");
        write_stmt_lines(out, body, next_depth(depth));
        write_indent(out, depth);
        out.append("}");
    }
    assert(out@ =~= start + arm_body_text(sb, depth as nat));
}

fn write_stmt_lines(out: &mut String, body: &Vec<Stmt>, depth: usize)
    ensures
        final(out)@ == old(out)@ + stmt_lines(stmts_view(body), depth as nat),
    decreases body, 0int,
{
    let ghost s2 = out@;
    let ghost sb = stmts_view(body);
    let mut i: usize = 0;
    while i < body.len()
        invariant
            i <= body.len(),
            sb == stmts_view(body),
            out@ == s2 + stmt_lines(sb.take(i as int), depth as nat),
        decreases body.len() - i,
    {
        proof {
            broadcast use vstd::std_specs::vec::axiom_vec_index_decreases;
        }
        write_stmt(out, &body[i], depth);
        out.append("\n");
        proof {
            let tk = sb.take(i + 1);
            assert(tk.drop_last() =~= sb.take(i as int));
            assert(tk.last() == body@[i as int]@);
        }
        i = i + 1;
        assert(out@ =~= s2 + stmt_lines(sb.take(i as int), depth as nat));
    }
    assert(sb.take(body.len() as int) =~= sb);
}

fn write_block(out: &mut String, body: &Vec<Stmt>, depth: usize)
    ensures
        final(out)@ == old(out)@ + block_text(stmts_view(body), depth as nat),
    decreases body, 1int,
{
    let ghost start = out@;
    if body.len() == 0 {
        out.append(" {}");
    } else {
        out.append(" {\n");
        write_stmt_lines(out, body, next_depth(depth));
        write_indent(out, depth);
        out.append("}");
    }
    assert(out@ =~= start + block_text(stmts_view(body), depth as nat));
}

fn write_stmt(out: &mut String, s: &Stmt, depth: usize)
    ensures
        final(out)@ == old(out)@ + stmt_text(s@, depth as nat),
    decreases s, 0int,
{
    let ghost start = out@;
    write_indent(out, depth);
    match s {
        Stmt::Assign { name, value } => {
            out.append(name.as_str());
            out.append(" = ");
            write_expr_prec(out, value, 0, depth);
        },
        Stmt::If { cond, then_body, else_body } => {
            out.append("if ");
            write_expr_prec(out, cond, 0, depth);
            write_block(out, then_body, depth);
            match else_body {
                Some(eb) => {
                    out.append(" else");
                    write_block(out, eb, depth);
                },
                None => {},
            }
        },
        Stmt::ExprStmt(e) => write_expr_prec(out, e, 0, depth),
    }
    assert(out@ =~= start + stmt_text(s@, depth as nat));
}


fn write_field(out: &mut String, f: &StateField)
    ensures
        final(out)@ == old(out)@ + field_text(f@),
{
    let ghost start = out@;
    write_indent(out, 1);
    out.append(f.name.as_str());
    match &f.ty {
        Some(t) => {
            out.append(": ");
            write_type(out, t);
        },
        None => {},
    }
    out.append(" = ");
    write_expr_prec(out, &f.init, 0, 1);
    out.append("\n");
    assert(out@ =~= start + field_text(f@));
}

fn write_handler(out: &mut String, h: &Handler, depth: usize)
    ensures
        final(out)@ == old(out)@ + handler_text(h@, depth as nat),
{
    let ghost start = out@;
    write_indent(out, depth);
    out.append("on ");
    write_dotted(out, &h.message_type);
    match &h.binding {
        Some(b) => {
            out.append(" ");
            out.append(b.as_str());
        },
        None => {},
    }
    match &h.return_ty {
        Some(t) => {
            out.append(" -> ");
            write_type(out, t);
        },
        None => {},
    }
    write_block(out, &h.body, depth);
    out.append("\n");
    assert(out@ =~= start + handler_text(h@, depth as nat));
}

/// Appends the text of a facet declaration.
#[verifier::rlimit(40)]
#[verifier::spinoff_prover]
pub fn write_role(out: &mut String, r: &FacetDecl)
    ensures
        final(out)@ == old(out)@ + facet_text(r@),
{
    let ghost start = out@;
    let ghost fv = r@;
    out.append("facet ");
    out.append(r.name.as_str());
    out.append(" {");
    let has_state = r.state.len() > 0;
    let has_handlers = r.handlers.len() > 0;
    if !has_state && !has_handlers {
        out.append("}");
        assert(out@ =~= start + facet_text(fv));
        return;
    }
    out.append("\n");
    let ghost s1 = out@;
    if has_state {
        write_indent(out, 1);
        out.append("/// _state\n");
        let ghost s2 = out@;
        let ghost texts = fv.state.map_values(|x: SpecStateField| field_text(x));
        let mut i: usize = 0;
        while i < r.state.len()
            invariant
                i <= r.state.len(),
                fv == r@,
                texts == fv.state.map_values(|x: SpecStateField| field_text(x)),
                out@ == s2 + concat_all(texts.take(i as int)),
            decreases r.state.len() - i,
        {
            write_field(out, &r.state[i]);
            proof {
                assert(texts.take(i + 1).drop_last() =~= texts.take(i as int));
            }
            i = i + 1;
            assert(out@ =~= s2 + concat_all(texts.take(i as int)));
        }
        assert(texts.take(r.state.len() as int) =~= texts);
    }
    let ghost s3 = out@;
    if has_handlers {
        if has_state {
            out.append("\n");
        }
        write_indent(out, 1);
        out.append("/// _handlers\n");
        let ghost s4 = out@;
        let ghost hs = fv.handlers;
        let mut i: usize = 0;
        while i < r.handlers.len()
            invariant
                i <= r.handlers.len(),
                fv == r@,
                hs == fv.handlers,
                out@ == s4 + handlers_text(hs.take(i as int)),
            decreases r.handlers.len() - i,
        {
            if i > 0 {
                out.append("\n");
            }
            write_handler(out, &r.handlers[i], 1);
            proof {
                assert(hs.take(i + 1).drop_last() =~= hs.take(i as int));
            }
            i = i + 1;
            assert(out@ =~= s4 + handlers_text(hs.take(i as int)));
        }
        assert(hs.take(r.handlers.len() as int) =~= hs);
    }
    out.append("}");
    assert(out@ =~= start + facet_text(fv));
}

/// Appends `name(arg, ...)` at `depth`.
pub fn write_role_instance(out: &mut String, inst: &FacetInstance, depth: usize)
    ensures
        final(out)@ == old(out)@ + instance_text(inst@, depth as nat),
{
    let ghost start = out@;
    write_indent(out, depth);
    out.append(inst.name.as_str());
    out.append("(");
    write_joined_names(out, &inst.io_args, ", ");
    out.append(")");
    assert(out@ =~= start + instance_text(inst@, depth as nat));
}

/// Appends `parallel`, `async` or `sequence(a -> b)`.
pub fn write_dispatch_mode(out: &mut String, mode: &DispatchMode)
    ensures
        final(out)@ == old(out)@ + mode_text(mode@),
{
    let ghost start = out@;
    match mode {
        DispatchMode::Parallel => out.append("parallel"),
        DispatchMode::Async => out.append("async"),
        DispatchMode::Sequence(insts) => {
            out.append("sequence(");
            write_joined_names(out, insts, " -> ");
            out.append(")");
        },
    }
    assert(out@ =~= start + mode_text(mode@));
}

fn write_scheme_sections(out: &mut String, a: &SchemeDecl)
    ensures
        final(out)@ == old(out)@ + spines_section(a@) + instances_section(a@) + dispatch_section(a@),
{
    let ghost sv = a@;
    let hs = a.io_spines.len() > 0;
    let hi = a.facet_instances.len() > 0;
    let hd = a.dispatch.len() > 0;
    let ghost b0 = out@;
    if hs {
        write_indent(out, 1);
        out.append("/// _io\n");
        write_spines(out, a);
    }
    assert(out@ =~= b0 + spines_section(sv));
    let ghost b1 = out@;
    if hi {
        if hs {
            out.append("\n");
        }
        write_indent(out, 1);
        out.append("/// _facets\n");
        write_instances(out, a);
    }
    assert(out@ =~= b1 + instances_section(sv));
    let ghost b2 = out@;
    if hd {
        if hs || hi {
            out.append("\n");
        }
        write_indent(out, 1);
        out.append("/// _dispatch_scripts\n");
        write_dispatches(out, a);
    }
    assert(out@ =~= b2 + dispatch_section(sv));
    assert(out@ =~= b0 + spines_section(sv) + instances_section(sv) + dispatch_section(sv));
}

/// Appends the text of a scheme declaration.
fn write_spines(out: &mut String, a: &SchemeDecl)
    ensures
        final(out)@ == old(out)@ + concat_all(a@.io_spines.map_values(|x: SpecSpine| spine_text(x))),
{
    let ghost sv = a@;
    let ghost s2 = out@;
    let ghost texts = sv.io_spines.map_values(|x: SpecSpine| spine_text(x));
    let mut i: usize = 0;
    while i < a.io_spines.len()
        invariant
            i <= a.io_spines.len(),
            sv == a@,
            texts == sv.io_spines.map_values(|x: SpecSpine| spine_text(x)),
            out@ == s2 + concat_all(texts.take(i as int)),
        decreases a.io_spines.len() - i,
    {
        let ghost s5 = out@;
        write_indent(out, 1);
        out.append(a.io_spines[i].name.as_str());
        out.append(": ");
        write_dotted(out, &a.io_spines[i].io_path);
        out.append("\n");
        proof {
            assert(out@ =~= s5 + spine_text(a.io_spines@[i as int]@));
            assert(texts.take(i + 1).drop_last() =~= texts.take(i as int));
        }
        i = i + 1;
        assert(out@ =~= s2 + concat_all(texts.take(i as int)));
    }
    assert(texts.take(a.io_spines.len() as int) =~= texts);
}

fn write_instances(out: &mut String, a: &SchemeDecl)
    ensures
        final(out)@ == old(out)@ + concat_all(
            a@.facet_instances.map_values(|x: SpecInstance| instance_text(x, 1) + "\n"@),
        ),
{
    let ghost sv = a@;
    let ghost s2 = out@;
    let ghost texts = sv.facet_instances.map_values(|x: SpecInstance| instance_text(x, 1) + "\n"@);
    let mut i: usize = 0;
    while i < a.facet_instances.len()
        invariant
            i <= a.facet_instances.len(),
            sv == a@,
            texts == sv.facet_instances.map_values(|x: SpecInstance| instance_text(x, 1) + "\n"@),
            out@ == s2 + concat_all(texts.take(i as int)),
        decreases a.facet_instances.len() - i,
    {
        write_role_instance(out, &a.facet_instances[i], 1);
        out.append("\n");
        proof {
            assert(texts.take(i + 1).drop_last() =~= texts.take(i as int));
        }
        i = i + 1;
        assert(out@ =~= s2 + concat_all(texts.take(i as int)));
    }
    assert(texts.take(a.facet_instances.len() as int) =~= texts);
}

fn write_dispatches(out: &mut String, a: &SchemeDecl)
    ensures
        final(out)@ == old(out)@ + concat_all(a@.dispatch.map_values(|x: SpecDispatch| dispatch_text(x))),
{
    let ghost sv = a@;
    let ghost s2 = out@;
    let ghost texts = sv.dispatch.map_values(|x: SpecDispatch| dispatch_text(x));
    let mut i: usize = 0;
    while i < a.dispatch.len()
        invariant
            i <= a.dispatch.len(),
            sv == a@,
            texts == sv.dispatch.map_values(|x: SpecDispatch| dispatch_text(x)),
            out@ == s2 + concat_all(texts.take(i as int)),
        decreases a.dispatch.len() - i,
    {
        let ghost s5 = out@;
        write_indent(out, 1);
        out.append("on ");
        out.append(a.dispatch[i].event.spine.as_str());
        out.append(".");
        out.append(a.dispatch[i].event.event.as_str());
        out.append(" ");
        write_dispatch_mode(out, &a.dispatch[i].mode);
        out.append("\n");
        proof {
            assert(out@ =~= s5 + dispatch_text(a.dispatch@[i as int]@));
            assert(texts.take(i + 1).drop_last() =~= texts.take(i as int));
        }
        i = i + 1;
        assert(out@ =~= s2 + concat_all(texts.take(i as int)));
    }
    assert(texts.take(a.dispatch.len() as int) =~= texts);
}

/// Appends the text of a scheme declaration.
#[verifier::rlimit(40)]
#[verifier::spinoff_prover]
pub fn write_actor(out: &mut String, a: &SchemeDecl)
    ensures
        final(out)@ == old(out)@ + scheme_text(a@),
{
    let ghost start = out@;
    let ghost sv = a@;
    out.append("scheme ");
    out.append(a.name.as_str());
    match &a.parent {
        Some(p) => {
            out.append(" @ ");
            out.append(p.as_str());
        },
        None => {},
    }
    out.append(" {");
    assert(out@ =~= start + scheme_head(sv));
    let ghost head = out@;
    let hs = a.io_spines.len() > 0;
    let hi = a.facet_instances.len() > 0;
    let hd = a.dispatch.len() > 0;
    if !hs && !hi && !hd {
        out.append("}");
        assert(out@ =~= start + scheme_text(sv));
        return;
    }
    out.append("\n");
    write_scheme_sections(out, a);
    out.append("}");
    assert(out@ =~= start + scheme_text(sv));
}

fn write_entry(out: &mut String, e: &IoInterfaceEntry)
    ensures
        final(out)@ == old(out)@ + entry_text(e@),
{
    let ghost start = out@;
    write_indent(out, 1);
    match e {
        IoInterfaceEntry::Event { name, ty } => {
            out.append("event ");
            out.append(name.as_str());
            out.append(": ");
            write_type(out, ty);
        },
        IoInterfaceEntry::Method { name, ty } => {
            out.append("method ");
            out.append(name.as_str());
            out.append(": ");
            write_type(out, ty);
        },
    }
    out.append("\n");
    assert(out@ =~= start + entry_text(e@));
}

fn write_entries(out: &mut String, d: &IoDecl)
    ensures
        final(out)@ == old(out)@ + concat_all(d@.interface.map_values(|x: SpecIoEntry| entry_text(x))),
{
    let ghost dv = d@;
    let ghost s2 = out@;
    let ghost texts = dv.interface.map_values(|x: SpecIoEntry| entry_text(x));
    let mut i: usize = 0;
    while i < d.interface.len()
        invariant
            i <= d.interface.len(),
            dv == d@,
            texts == dv.interface.map_values(|x: SpecIoEntry| entry_text(x)),
            out@ == s2 + concat_all(texts.take(i as int)),
        decreases d.interface.len() - i,
    {
        write_entry(out, &d.interface[i]);
        proof {
            assert(texts.take(i + 1).drop_last() =~= texts.take(i as int));
        }
        i = i + 1;
        assert(out@ =~= s2 + concat_all(texts.take(i as int)));
    }
    assert(texts.take(d.interface.len() as int) =~= texts);
}

fn write_aliases(out: &mut String, d: &IoDecl)
    ensures
        final(out)@ == old(out)@ + concat_all(d@.api_contracts.map_values(|x: SpecTypeAlias| alias_text(x))),
{
    let ghost dv = d@;
    let ghost s2 = out@;
    let ghost texts = dv.api_contracts.map_values(|x: SpecTypeAlias| alias_text(x));
    let mut i: usize = 0;
    while i < d.api_contracts.len()
        invariant
            i <= d.api_contracts.len(),
            dv == d@,
            texts == dv.api_contracts.map_values(|x: SpecTypeAlias| alias_text(x)),
            out@ == s2 + concat_all(texts.take(i as int)),
        decreases d.api_contracts.len() - i,
    {
        let ghost s5 = out@;
        write_indent(out, 1);
        out.append(d.api_contracts[i].name.as_str());
        out.append(": ");
        write_type(out, &d.api_contracts[i].ty);
        out.append("\n");
        proof {
            assert(out@ =~= s5 + alias_text(d.api_contracts@[i as int]@));
            assert(texts.take(i + 1).drop_last() =~= texts.take(i as int));
        }
        i = i + 1;
        assert(out@ =~= s2 + concat_all(texts.take(i as int)));
    }
    assert(texts.take(d.api_contracts.len() as int) =~= texts);
}

fn write_conns(out: &mut String, d: &IoDecl)
    ensures
        final(out)@ == old(out)@ + concat_all(
            d@.connection_handlers.map_values(|x: SpecConnHandler| conn_text(x)),
        ),
{
    let ghost dv = d@;
    let ghost s2 = out@;
    let ghost texts = dv.connection_handlers.map_values(|x: SpecConnHandler| conn_text(x));
    let mut i: usize = 0;
    while i < d.connection_handlers.len()
        invariant
            i <= d.connection_handlers.len(),
            dv == d@,
            texts == dv.connection_handlers.map_values(|x: SpecConnHandler| conn_text(x)),
            out@ == s2 + concat_all(texts.take(i as int)),
        decreases d.connection_handlers.len() - i,
    {
        let ghost s5 = out@;
        write_indent(out, 1);
        out.append(d.connection_handlers[i].name.as_str());
        out.append(" = ");
        write_expr_prec(out, &d.connection_handlers[i].init, 0, 1);
        out.append("\n");
        proof {
            assert(out@ =~= s5 + conn_text(d.connection_handlers@[i as int]@));
            assert(texts.take(i + 1).drop_last() =~= texts.take(i as int));
        }
        i = i + 1;
        assert(out@ =~= s2 + concat_all(texts.take(i as int)));
    }
    assert(texts.take(d.connection_handlers.len() as int) =~= texts);
}

/// Appends the text of an io declaration.
#[verifier::rlimit(40)]
#[verifier::spinoff_prover]
pub fn write_io(out: &mut String, d: &IoDecl)
    ensures
        final(out)@ == old(out)@ + io_text(d@),
{
    let ghost start = out@;
    let ghost dv = d@;
    out.append("io ");
    out.append(d.name.as_str());
    out.append(" {");
    let hi = d.interface.len() > 0;
    let ha = d.api_contracts.len() > 0;
    let hc = d.connection_handlers.len() > 0;
    if !hi && !ha && !hc {
        out.append("}");
        assert(out@ =~= start + io_text(dv));
        return;
    }
    out.append("\n");
    let ghost b0 = out@;
    if hi {
        write_indent(out, 1);
        out.append("/// _interface\n");
        write_entries(out, d);
    }
    assert(out@ =~= b0 + interface_section(dv));
    let ghost b1 = out@;
    if ha {
        if hi {
            out.append("\n");
        }
        write_indent(out, 1);
        out.append("/// _api_contracts\n");
        write_aliases(out, d);
    }
    assert(out@ =~= b1 + contracts_section(dv));
    let ghost b2 = out@;
    if hc {
        if hi || ha {
            out.append("\n");
        }
        write_indent(out, 1);
        out.append("/// _connection_handlers\n");
        write_conns(out, d);
    }
    assert(out@ =~= b2 + connections_section(dv));
    out.append("}");
    assert(out@ =~= start + io_text(dv));
}

/// Format a whole module as Urchin source: facets, then schemes, then io
/// declarations, separated by blank lines, with a final newline.
pub fn format(module: &Module) -> (r: String)
    ensures
        r@ == module_text(module@),
{
    let mut out = String::new();
    let ghost m = module@;
    let ghost ds = decl_texts(m);
    let nf = module.facets.len();
    let ns = module.schemes.len();
    let ghost mut k: int = 0;
    let mut any = false;
    let mut i: usize = 0;
    while i < nf
        invariant
            i <= nf == module.facets.len(),
            m == module@,
            ds == decl_texts(m),
            k == i,
            any == (k > 0),
            out@ == joined(ds.take(k), "\n\n"@),
        decreases nf - i,
    {
        if any {
            out.append("\n\n");
        }
        write_role(&mut out, &module.facets[i]);
        proof {
            assert(ds[k] == facet_text(m.facets[i as int]));
            assert(ds.take(k + 1).drop_last() =~= ds.take(k));
            if k == 0 {
                assert(joined(ds.take(0), "\n\n"@) =~= Seq::<char>::empty());
            }
        }
        i = i + 1;
        proof {
            k = k + 1;
        }
        any = true;
        assert(out@ =~= joined(ds.take(k), "\n\n"@));
    }
    let mut i: usize = 0;
    while i < ns
        invariant
            i <= ns == module.schemes.len(),
            nf == module.facets.len(),
            m == module@,
            ds == decl_texts(m),
            k == nf + i,
            any == (k > 0),
            out@ == joined(ds.take(k), "\n\n"@),
        decreases ns - i,
    {
        if any {
            out.append("\n\n");
        }
        write_actor(&mut out, &module.schemes[i]);
        proof {
            assert(ds[k] == scheme_text(m.schemes[i as int]));
            assert(ds.take(k + 1).drop_last() =~= ds.take(k));
            if k == 0 {
                assert(joined(ds.take(0), "\n\n"@) =~= Seq::<char>::empty());
            }
        }
        i = i + 1;
        proof {
            k = k + 1;
        }
        any = true;
        assert(out@ =~= joined(ds.take(k), "\n\n"@));
    }
    let mut i: usize = 0;
    while i < module.io_decls.len()
        invariant
            i <= module.io_decls.len(),
            nf == module.facets.len(),
            ns == module.schemes.len(),
            m == module@,
            ds == decl_texts(m),
            k == nf + ns + i,
            any == (k > 0),
            out@ == joined(ds.take(k), "\n\n"@),
        decreases module.io_decls.len() - i,
    {
        if any {
            out.append("\n\n");
        }
        write_io(&mut out, &module.io_decls[i]);
        proof {
            assert(ds[k] == io_text(m.io_decls[i as int]));
            assert(ds.take(k + 1).drop_last() =~= ds.take(k));
            if k == 0 {
                assert(joined(ds.take(0), "\n\n"@) =~= Seq::<char>::empty());
            }
        }
        i = i + 1;
        proof {
            k = k + 1;
        }
        any = true;
        assert(out@ =~= joined(ds.take(k), "\n\n"@));
    }
    assert(ds.take(k) =~= ds);
    if any {
        out.append("\n");
    }
    out
}

} // verus!
