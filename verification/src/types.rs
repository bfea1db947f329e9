//! Dispatch coverage and IO path checks over a parsed module.
//!
//! Per scheme: when 2+ composed facets handle the same message type, the
//! scheme must declare an `on <spine>.<event> <mode>` dispatch whose
//! event names that type (the last segment of its path). Each spine
//! `name: io.<path>` must be a built-in `io.sim.*` primitive or name an
//! `io <name> { ... }` declaration of the module.
use vstd::prelude::*;

use crate::ast::{
    FacetDecl, IoSpine, Module, Name, SchemeDecl, SpecFacet, SpecHandler, SpecInstance, SpecModule,
    SpecScheme, SpecSpine,
};
use crate::ast::{copy_names, names_view};
use crate::printer::{joined, nat_text, write_joined_names, write_nat};
use crate::parser::w_io;
use crate::text::{str_to_chars, string_is};

verus! {

/// A semantic check failure: a message and the character range it is
/// about (the start of the file, until declarations carry spans).
#[derive(Debug, PartialEq, Eq)]
pub struct CheckError {
    pub message: String,
    pub span: std::ops::Range<usize>,
}

// ---------------------------------------------------------------------
// Names and their order.

/// `a` comes before `b` or equals it, character by character.
pub open spec fn name_le(a: Seq<char>, b: Seq<char>) -> bool
    decreases a.len(),
{
    if a.len() == 0 {
        true
    } else if b.len() == 0 {
        false
    } else if a[0] < b[0] {
        true
    } else if a[0] > b[0] {
        false
    } else {
        name_le(a.drop_first(), b.drop_first())
    }
}

/// `x` placed in the sorted sequence `s` before the first element it
/// does not come after.
pub open spec fn insert_sorted(x: Name, s: Seq<Name>) -> Seq<Name>
    decreases s.len(),
{
    if s.len() == 0 {
        seq![x]
    } else if name_le(x, s[0]) {
        seq![x] + s
    } else {
        seq![s[0]] + insert_sorted(x, s.drop_first())
    }
}

/// Insertion sort of names.
pub open spec fn sort_names(s: Seq<Name>) -> Seq<Name>
    decreases s.len(),
{
    if s.len() == 0 {
        Seq::empty()
    } else {
        insert_sorted(s.last(), sort_names(s.drop_last()))
    }
}

pub open spec fn is_sorted(s: Seq<Name>) -> bool {
    forall|i: int, j: int| 0 <= i < j < s.len() ==> name_le(s[i], s[j])
}

// ---------------------------------------------------------------------
// The model of the checks.

/// The last facet declared with `name` (a later declaration shadows an
/// earlier one of the same name).
pub open spec fn find_facet(fs: Seq<SpecFacet>, name: Name) -> Option<SpecFacet>
    decreases fs.len(),
{
    if fs.len() == 0 {
        None
    } else if fs.last().name == name {
        Some(fs.last())
    } else {
        find_facet(fs.drop_last(), name)
    }
}

/// The declarations of the facets a scheme composes, in instance order;
/// instances naming no facet are skipped.
pub open spec fn composed(fs: Seq<SpecFacet>, insts: Seq<SpecInstance>) -> Seq<SpecFacet>
    decreases insts.len(),
{
    if insts.len() == 0 {
        Seq::empty()
    } else {
        composed(fs, insts.drop_last()) + match find_facet(fs, insts.last().name) {
            Some(f) => seq![f],
            None => Seq::empty(),
        }
    }
}

/// `(message type, facet name)` for every handler of the composed facets.
pub open spec fn handler_pairs(cs: Seq<SpecFacet>) -> Seq<(Seq<Name>, Name)>
    decreases cs.len(),
{
    if cs.len() == 0 {
        Seq::empty()
    } else {
        handler_pairs(cs.drop_last()) + cs.last().handlers.map_values(
            |h: SpecHandler| (h.message_type, cs.last().name),
        )
    }
}

/// Index of the group of message type `mt`.
pub open spec fn group_index(gs: Seq<(Seq<Name>, Seq<Name>)>, mt: Seq<Name>) -> Option<int>
    decreases gs.len(),
{
    if gs.len() == 0 {
        None
    } else if gs.last().0 == mt {
        Some(gs.len() - 1)
    } else {
        group_index(gs.drop_last(), mt)
    }
}

pub open spec fn add_pair(gs: Seq<(Seq<Name>, Seq<Name>)>, p: (Seq<Name>, Name)) -> Seq<
    (Seq<Name>, Seq<Name>),
> {
    match group_index(gs, p.0) {
        Some(i) => if gs[i].1.contains(p.1) {
            gs
        } else {
            gs.update(i, (gs[i].0, gs[i].1.push(p.1)))
        },
        None => gs.push((p.0, seq![p.1])),
    }
}

/// Message types with the distinct names of the facets handling each,
/// both in order of first appearance.
pub open spec fn groups(ps: Seq<(Seq<Name>, Name)>) -> Seq<(Seq<Name>, Seq<Name>)>
    decreases ps.len(),
{
    if ps.len() == 0 {
        Seq::empty()
    } else {
        add_pair(groups(ps.drop_last()), ps.last())
    }
}

/// The last segment of a message type, or empty text.
pub open spec fn leaf(mt: Seq<Name>) -> Seq<char> {
    if mt.len() > 0 {
        mt.last()
    } else {
        Seq::empty()
    }
}

/// Some dispatch declaration of `s` names `event`.
pub open spec fn dispatched(s: SpecScheme, event: Seq<char>) -> bool {
    exists|i: int| 0 <= i < s.dispatch.len() && s.dispatch[i].event == event
}

pub open spec fn dispatch_message(s: SpecScheme, mt: Seq<Name>, names: Seq<Name>) -> Seq<char> {
    "scheme `"@ + s.name + "` composes "@ + nat_text(names.len()) + " facets that handle `"@ + joined(
        mt,
        "."@,
    ) + "` ("@ + joined(sort_names(names), ", "@) + "); a dispatch declaration `on <spine>."@ + leaf(mt)
        + " <mode>` is required"@
}

/// One message per message type that 2+ facets handle without a
/// dispatch declaration for it.
pub open spec fn group_errors(s: SpecScheme, gs: Seq<(Seq<Name>, Seq<Name>)>) -> Seq<Seq<char>>
    decreases gs.len(),
{
    if gs.len() == 0 {
        Seq::empty()
    } else {
        let g = gs.last();
        group_errors(s, gs.drop_last()) + if g.1.len() >= 2 && !dispatched(s, leaf(g.0)) {
            seq![dispatch_message(s, g.0, g.1)]
        } else {
            Seq::empty()
        }
    }
}

pub open spec fn dispatch_errors(s: SpecScheme, fs: Seq<SpecFacet>) -> Seq<Seq<char>> {
    group_errors(s, groups(handler_pairs(composed(fs, s.facet_instances))))
}

pub open spec fn w_sim() -> Seq<char> {
    seq!['s', 'i', 'm']
}

pub open spec fn declares_io(m: SpecModule, name: Name) -> bool {
    exists|i: int| 0 <= i < m.io_decls.len() && m.io_decls[i].name == name
}

/// `io.sim.*`, or `io.<name>` for a declared `io <name>`.
pub open spec fn is_resolvable(sp: SpecSpine, m: SpecModule) -> bool {
    let p = sp.io_path;
    &&& p.len() >= 1 && p[0] == w_io()
    &&& (p.len() >= 2 && p[1] == w_sim()) || (p.len() == 2 && declares_io(m, p[1]))
}

pub open spec fn spine_message(s: SpecScheme, sp: SpecSpine) -> Seq<char> {
    "scheme `"@ + s.name + "` binds spine `"@ + sp.name + ": io."@ + joined(sp.io_path.skip(1), "."@)
        + "` to an unknown io path; declare `io "@ + if sp.io_path.len() > 1 {
        sp.io_path[1]
    } else {
        Seq::empty()
    } + " { ... }` or use a built-in `io.sim.*` primitive"@
}

pub open spec fn spine_errors(s: SpecScheme, spines: Seq<SpecSpine>, m: SpecModule) -> Seq<Seq<char>>
    decreases spines.len(),
{
    if spines.len() == 0 {
        Seq::empty()
    } else {
        spine_errors(s, spines.drop_last(), m) + if is_resolvable(spines.last(), m) {
            Seq::empty()
        } else {
            seq![spine_message(s, spines.last())]
        }
    }
}

pub open spec fn scheme_errors(s: SpecScheme, m: SpecModule) -> Seq<Seq<char>> {
    dispatch_errors(s, m.facets) + spine_errors(s, s.io_spines, m)
}

/// The messages of all check failures of a module, scheme by scheme.
pub open spec fn check_messages(m: SpecModule, schemes: Seq<SpecScheme>) -> Seq<Seq<char>>
    decreases schemes.len(),
{
    if schemes.len() == 0 {
        Seq::empty()
    } else {
        check_messages(m, schemes.drop_last()) + scheme_errors(schemes.last(), m)
    }
}

/// Every spine path of every scheme has at least one segment.
pub open spec fn spines_nonempty(m: SpecModule) -> bool {
    forall|i: int, j: int|
        0 <= i < m.schemes.len() && 0 <= j < m.schemes[i].io_spines.len()
            ==> #[trigger] m.schemes[i].io_spines[j].io_path.len() >= 1
}


// =====================================================================
// Executable checks.

pub open spec fn messages_of(v: Seq<CheckError>) -> Seq<Seq<char>> {
    v.map_values(|e: CheckError| e.message@)
}

pub open spec fn spans_at_start(v: Seq<CheckError>) -> bool {
    forall|i: int| 0 <= i < v.len() ==> (#[trigger] v[i]).span.start == 0 && v[i].span.end == 0
}

fn name_le_exec(a: &String, b: &String) -> (r: bool)
    ensures
        r == name_le(a@, b@),
{
    let av = str_to_chars(a.as_str());
    let bv = str_to_chars(b.as_str());
    let mut i: usize = 0;
    proof {
        assert(av@.skip(0) =~= av@);
        assert(bv@.skip(0) =~= bv@);
    }
    while i < av.len() && i < bv.len() && av[i] == bv[i]
        invariant
            i <= av.len(),
            i <= bv.len(),
            av@ == a@,
            bv@ == b@,
            name_le(a@, b@) == name_le(av@.skip(i as int), bv@.skip(i as int)),
        decreases av.len() - i,
    {
        proof {
            assert(av@.skip(i as int).drop_first() =~= av@.skip(i + 1));
            assert(bv@.skip(i as int).drop_first() =~= bv@.skip(i + 1));
        }
        i = i + 1;
    }
    let ghost sa = av@.skip(i as int);
    let ghost sb = bv@.skip(i as int);
    if i == av.len() {
        assert(sa.len() == 0);
        true
    } else if i == bv.len() {
        assert(sb.len() == 0);
        false
    } else {
        assert(sa[0] == av@[i as int]);
        assert(sb[0] == bv@[i as int]);
        av[i] < bv[i]
    }
}

/// `insert_sorted` puts `x` before the first element it comes before.
proof fn lemma_insert_sorted_at(x: Name, s: Seq<Name>, j: int)
    requires
        0 <= j <= s.len(),
        forall|k: int| 0 <= k < j ==> !name_le(x, #[trigger] s[k]),
        j < s.len() ==> name_le(x, s[j]),
    ensures
        insert_sorted(x, s) == s.take(j) + seq![x] + s.skip(j),
    decreases s.len(),
{
    if s.len() == 0 {
        assert(s.take(0) + seq![x] + s.skip(0) =~= seq![x]);
    } else if j == 0 {
        assert(s.take(0) + seq![x] + s.skip(0) =~= seq![x] + s);
    } else {
        assert(!name_le(x, s[0]));
        let t = s.drop_first();
        assert forall|k: int| 0 <= k < j - 1 implies !name_le(x, #[trigger] t[k]) by {
            assert(t[k] == s[k + 1]);
        }
        lemma_insert_sorted_at(x, t, j - 1);
        assert(seq![s[0]] + (t.take(j - 1) + seq![x] + t.skip(j - 1)) =~= s.take(j) + seq![x] + s.skip(j));
    }
}

fn insert_sorted_exec(v: &mut Vec<String>, x: String)
    ensures
        names_view(final(v)@) == insert_sorted(x@, names_view(old(v)@)),
{
    let ghost s = names_view(v@);
    let mut j: usize = 0;
    while j < v.len() && !name_le_exec(&x, &v[j])
        invariant
            j <= v.len(),
            s == names_view(v@),
            forall|k: int| 0 <= k < j ==> !name_le(x@, #[trigger] s[k]),
        decreases v.len() - j,
    {
        j = j + 1;
    }
    proof {
        lemma_insert_sorted_at(x@, s, j as int);
    }
    let ghost xv = x@;
    v.insert(j, x);
    assert(names_view(v@) =~= s.take(j as int) + seq![xv] + s.skip(j as int));
}

/// Sorts names into ascending character order.
fn sort_names_exec(v: &Vec<String>) -> (r: Vec<String>)
    ensures
        names_view(r@) == sort_names(names_view(v@)),
{
    let mut out: Vec<String> = Vec::new();
    let ghost s = names_view(v@);
    let mut i: usize = 0;
    while i < v.len()
        invariant
            i <= v.len(),
            s == names_view(v@),
            names_view(out@) == sort_names(s.take(i as int)),
        decreases v.len() - i,
    {
        insert_sorted_exec(&mut out, v[i].clone());
        proof {
            assert(s.take(i + 1).drop_last() =~= s.take(i as int));
        }
        i = i + 1;
    }
    assert(s.take(v.len() as int) =~= s);
    out
}

pub(crate) fn names_eq(a: &Vec<String>, b: &Vec<String>) -> (r: bool)
    ensures
        r == (names_view(a@) == names_view(b@)),
{
    if a.len() != b.len() {
        assert(names_view(a@).len() != names_view(b@).len());
        return false;
    }
    let mut i: usize = 0;
    while i < a.len()
        invariant
            i <= a.len() == b.len(),
            forall|k: int| 0 <= k < i ==> a@[k]@ == b@[k]@,
        decreases a.len() - i,
    {
        if a[i] != b[i] {
            assert(names_view(a@)[i as int] != names_view(b@)[i as int]);
            return false;
        }
        i = i + 1;
    }
    assert(names_view(a@) =~= names_view(b@));
    true
}

/// Index of the facet that `find_facet` picks.
pub(crate) fn find_facet_exec(m: &Module, name: &String) -> (r: Option<usize>)
    ensures
        match r {
            Some(i) => i < m.facets.len() && find_facet(m@.facets, name@) == Some(m@.facets[i as int]),
            None => find_facet(m@.facets, name@) is None,
        },
{
    let ghost fs = m@.facets;
    let mut i = m.facets.len();
    assert(fs.take(i as int) =~= fs);
    while i > 0
        invariant
            i <= m.facets.len(),
            fs == m@.facets,
            find_facet(fs, name@) == find_facet(fs.take(i as int), name@),
        decreases i,
    {
        let ghost t = fs.take(i as int);
        assert(t.drop_last() =~= fs.take(i - 1));
        assert(t.last() == fs[i - 1]);
        if m.facets[i - 1].name == *name {
            return Some(i - 1);
        }
        i = i - 1;
    }
    None
}

pub open spec fn groups_view(v: Seq<(Vec<String>, Vec<String>)>) -> Seq<(Seq<Name>, Seq<Name>)> {
    v.map_values(|g: (Vec<String>, Vec<String>)| (names_view(g.0@), names_view(g.1@)))
}

fn contains_name(v: &Vec<String>, x: &String) -> (r: bool)
    ensures
        r == names_view(v@).contains(x@),
{
    let mut i: usize = 0;
    while i < v.len()
        invariant
            i <= v.len(),
            forall|k: int| 0 <= k < i ==> v@[k]@ != x@,
        decreases v.len() - i,
    {
        if v[i] == *x {
            assert(names_view(v@)[i as int] == x@);
            return true;
        }
        i = i + 1;
    }
    assert forall|k: int| 0 <= k < names_view(v@).len() implies names_view(v@)[k] != x@ by {}
    false
}

/// Adds one `(message type, facet name)` pair to the groups.
fn add_pair_exec(gs: &mut Vec<(Vec<String>, Vec<String>)>, mt: &Vec<String>, name: &String)
    ensures
        groups_view(final(gs)@) == add_pair(groups_view(old(gs)@), (names_view(mt@), name@)),
{
    let ghost g0 = groups_view(gs@);
    let mut i = gs.len();
    assert(g0.take(i as int) =~= g0);
    while i > 0
        invariant
            i <= gs.len(),
            gs@ == old(gs)@,
            g0 == groups_view(gs@),
            group_index(g0, names_view(mt@)) == group_index(g0.take(i as int), names_view(mt@)),
        decreases i,
    {
        let ghost t = g0.take(i as int);
        assert(t.drop_last() =~= g0.take(i - 1));
        if names_eq(&gs[i - 1].0, mt) {
            assert(t.last().0 == names_view(mt@));
            assert(group_index(t, names_view(mt@)) == Some(i - 1));
            assert(g0[i - 1].1 == names_view(gs@[i - 1].1@));
            if contains_name(&gs[i - 1].1, name) {
                assert(add_pair(g0, (names_view(mt@), name@)) == g0);
                return;
            }
            let ghost old_gs = gs@;
            let first = copy_names(&gs[i - 1].0);
            let mut second = copy_names(&gs[i - 1].1);
            second.push(name.clone());
            assert(names_view(second@) =~= names_view(old_gs[i - 1].1@).push(name@));
            gs.set(i - 1, (first, second));
            assert(groups_view(gs@) =~= g0.update(i - 1, (g0[i - 1].0, g0[i - 1].1.push(name@))));
            assert(add_pair(g0, (names_view(mt@), name@)) == g0.update(
                i - 1,
                (g0[i - 1].0, g0[i - 1].1.push(name@)),
            ));
            return;
        }
        i = i - 1;
    }
    let mut names: Vec<String> = Vec::new();
    names.push(name.clone());
    assert(names_view(names@) =~= seq![name@]);
    let ghost old_gs = gs@;
    gs.push((copy_names(mt), names));
    assert(gs@ == old_gs.push(gs@.last()));
    assert(groups_view(gs@) =~= g0.push((names_view(mt@), seq![name@])));
}


/// `groups(ps.push(p))` adds `p` to the groups of `ps`.
proof fn lemma_groups_push(ps: Seq<(Seq<Name>, Name)>, p: (Seq<Name>, Name))
    ensures
        groups(ps.push(p)) == add_pair(groups(ps), p),
{
    assert(ps.push(p).drop_last() =~= ps);
}

proof fn lemma_handler_pairs_push(cs: Seq<SpecFacet>, f: SpecFacet)
    ensures
        handler_pairs(cs.push(f)) == handler_pairs(cs) + f.handlers.map_values(
            |h: SpecHandler| (h.message_type, f.name),
        ),
{
    assert(cs.push(f).drop_last() =~= cs);
}

/// The message-type groups of the facets a scheme composes.
fn scheme_groups(m: &Module, s: &SchemeDecl) -> (r: Vec<(Vec<String>, Vec<String>)>)
    ensures
        groups_view(r@) == groups(handler_pairs(composed(m@.facets, s@.facet_instances))),
{
    let ghost fs = m@.facets;
    let ghost insts = s@.facet_instances;
    let mut gs: Vec<(Vec<String>, Vec<String>)> = Vec::new();
    let mut j: usize = 0;
    assert(groups_view(gs@) =~= Seq::<(Seq<Name>, Seq<Name>)>::empty());
    while j < s.facet_instances.len()
        invariant
            j <= s.facet_instances.len(),
            fs == m@.facets,
            insts == s@.facet_instances,
            groups_view(gs@) == groups(handler_pairs(composed(fs, insts.take(j as int)))),
        decreases s.facet_instances.len() - j,
    {
        let ghost base = handler_pairs(composed(fs, insts.take(j as int)));
        proof {
            let t = insts.take(j + 1);
            assert(t.drop_last() =~= insts.take(j as int));
            assert(t.last() == s.facet_instances@[j as int]@);
        }
        match find_facet_exec(m, &s.facet_instances[j].name) {
            Some(idx) => {
                let f = &m.facets[idx];
                let ghost fv = fs[idx as int];
                let ghost hm = fv.handlers.map_values(|h: SpecHandler| (h.message_type, fv.name));
                proof {
                    assert(composed(fs, insts.take(j + 1)) == composed(fs, insts.take(j as int)).push(fv));
                    lemma_handler_pairs_push(composed(fs, insts.take(j as int)), fv);
                    assert(base + hm.take(0) =~= base);
                }
                let mut k: usize = 0;
                while k < f.handlers.len()
                    invariant
                        k <= f.handlers.len(),
                        fv == f@,
                        hm == fv.handlers.map_values(|h: SpecHandler| (h.message_type, fv.name)),
                        groups_view(gs@) == groups(base + hm.take(k as int)),
                    decreases f.handlers.len() - k,
                {
                    proof {
                        assert(base + hm.take(k + 1) =~= (base + hm.take(k as int)).push(hm[k as int]));
                        lemma_groups_push(base + hm.take(k as int), hm[k as int]);
                        assert(hm[k as int] == (names_view(f.handlers@[k as int].message_type@), f.name@));
                    }
                    add_pair_exec(&mut gs, &f.handlers[k].message_type, &f.name);
                    k = k + 1;
                }
                assert(hm.take(f.handlers.len() as int) =~= hm);
            },
            None => {
                assert(composed(fs, insts.take(j + 1)) =~= composed(fs, insts.take(j as int)));
            },
        }
        j = j + 1;
    }
    assert(insts.take(s.facet_instances.len() as int) =~= insts);
    gs
}

/// A fresh copy of `s`.
fn copy_string(s: &String) -> (r: String)
    ensures
        r@ == s@,
{
    s.clone()
}

/// Some dispatch declaration of `s` names the leaf of `mt`.
fn is_dispatched(s: &SchemeDecl, mt: &Vec<String>) -> (r: bool)
    ensures
        r == dispatched(s@, leaf(names_view(mt@))),
{
    let lf = if mt.len() > 0 {
        copy_string(&mt[mt.len() - 1])
    } else {
        String::new()
    };
    assert(lf@ == leaf(names_view(mt@)));
    let mut i: usize = 0;
    while i < s.dispatch.len()
        invariant
            i <= s.dispatch.len(),
            lf@ == leaf(names_view(mt@)),
            forall|k: int| 0 <= k < i ==> (#[trigger] s@.dispatch[k]).event != lf@,
        decreases s.dispatch.len() - i,
    {
        if s.dispatch[i].event.event == lf {
            assert(s@.dispatch[i as int].event == lf@);
            return true;
        }
        i = i + 1;
    }
    false
}

fn dispatch_error(s: &SchemeDecl, mt: &Vec<String>, names: &Vec<String>) -> (e: CheckError)
    ensures
        e.message@ == dispatch_message(s@, names_view(mt@), names_view(names@)),
        e.span.start == 0,
        e.span.end == 0,
{
    let mut out = String::new();
    out.append("scheme `");
    out.append(s.name.as_str());
    out.append("` composes ");
    write_nat(&mut out, names.len() as u64);
    out.append(" facets that handle `");
    write_joined_names(&mut out, mt, ".");
    out.append("` (");
    let sorted = sort_names_exec(names);
    write_joined_names(&mut out, &sorted, ", ");
    out.append("); a dispatch declaration `on <spine>.");
    if mt.len() > 0 {
        out.append(mt[mt.len() - 1].as_str());
    }
    out.append(" <mode>` is required");
    assert(out@ =~= dispatch_message(s@, names_view(mt@), names_view(names@)));
    CheckError { message: out, span: std::ops::Range { start: 0, end: 0 } }
}

/// Appends the dispatch coverage errors of scheme `s`.
fn check_dispatch_coverage(m: &Module, s: &SchemeDecl, errors: &mut Vec<CheckError>)
    ensures
        messages_of(final(errors)@) == messages_of(old(errors)@) + dispatch_errors(s@, m@.facets),
        old(errors)@.len() <= final(errors)@.len(),
        final(errors)@.subrange(0, old(errors)@.len() as int) == old(errors)@,
        spans_at_start(final(errors)@.skip(old(errors)@.len() as int)),
        spans_at_start(old(errors)@) ==> spans_at_start(final(errors)@),
{
    let gs = scheme_groups(m, s);
    let ghost gv = groups_view(gs@);
    let ghost start = messages_of(errors@);
    let mut g: usize = 0;
    assert(gv.take(0) =~= Seq::<(Seq<Name>, Seq<Name>)>::empty());
    assert(start + Seq::<Seq<char>>::empty() =~= start);
    while g < gs.len()
        invariant
            g <= gs.len(),
            gv == groups_view(gs@),
            start == messages_of(old(errors)@),
            messages_of(errors@) == start + group_errors(s@, gv.take(g as int)),
            old(errors)@.len() <= errors@.len(),
            errors@.subrange(0, old(errors)@.len() as int) == old(errors)@,
            spans_at_start(errors@.skip(old(errors)@.len() as int)),
            spans_at_start(old(errors)@) ==> spans_at_start(errors@),
        decreases gs.len() - g,
    {
        proof {
            let t = gv.take(g + 1);
            assert(t.drop_last() =~= gv.take(g as int));
            assert(t.last() == gv[g as int]);
        }
        let ghost before = errors@;
        if gs[g].1.len() >= 2 && !is_dispatched(s, &gs[g].0) {
            let e = dispatch_error(s, &gs[g].0, &gs[g].1);
            errors.push(e);
            proof {
                let n0 = old(errors)@.len() as int;
                assert(errors@.subrange(0, n0) =~= before.subrange(0, n0));
                assert(errors@.skip(n0) =~= before.skip(n0).push(e));
                assert(spans_at_start(errors@.skip(n0))) by {
                    let w = errors@.skip(n0);
                    assert forall|i: int| 0 <= i < w.len() implies (#[trigger] w[i]).span.start == 0
                        && w[i].span.end == 0 by {
                        if i < w.len() - 1 {
                            assert(w[i] == before.skip(n0)[i]);
                        }
                    }
                }
            }
            assert(messages_of(errors@) =~= messages_of(before).push(e.message@));
        }
        g = g + 1;
        assert(messages_of(errors@) =~= start + group_errors(s@, gv.take(g as int)));
    }
    assert(gv.take(gs.len() as int) =~= gv);
}

fn declares_io_exec(m: &Module, name: &String) -> (r: bool)
    ensures
        r == declares_io(m@, name@),
{
    let mut i: usize = 0;
    while i < m.io_decls.len()
        invariant
            i <= m.io_decls.len(),
            forall|k: int| 0 <= k < i ==> (#[trigger] m@.io_decls[k]).name != name@,
        decreases m.io_decls.len() - i,
    {
        if m.io_decls[i].name == *name {
            assert(m@.io_decls[i as int].name == name@);
            return true;
        }
        i = i + 1;
    }
    false
}

fn is_resolvable_exec(sp: &IoSpine, m: &Module) -> (r: bool)
    ensures
        r == is_resolvable(sp@, m@),
{
    let p = &sp.io_path;
    if p.len() == 0 || !string_is(&p[0], &['i', 'o']) {
        return false;
    }
    if p.len() >= 2 && string_is(&p[1], &['s', 'i', 'm']) {
        return true;
    }
    if p.len() == 2 {
        declares_io_exec(m, &p[1])
    } else {
        false
    }
}

fn spine_error(s: &SchemeDecl, sp: &IoSpine) -> (e: CheckError)
    requires
        sp.io_path.len() >= 1,
    ensures
        e.message@ == spine_message(s@, sp@),
        e.span.start == 0,
        e.span.end == 0,
{
    let ghost path = names_view(sp.io_path@);
    let mut tail: Vec<String> = Vec::new();
    let mut i: usize = 1;
    while i < sp.io_path.len()
        invariant
            1 <= i <= sp.io_path.len(),
            path == names_view(sp.io_path@),
            tail@.len() == i - 1,
            forall|k: int| 0 <= k < i - 1 ==> (#[trigger] tail@[k])@ == path[k + 1],
        decreases sp.io_path.len() - i,
    {
        let c = copy_string(&sp.io_path[i]);
        tail.push(c);
        i = i + 1;
    }
    assert(names_view(tail@) =~= path.skip(1));
    let mut out = String::new();
    out.append("scheme `");
    out.append(s.name.as_str());
    out.append("` binds spine `");
    out.append(sp.name.as_str());
    out.append(": io.");
    write_joined_names(&mut out, &tail, ".");
    out.append("` to an unknown io path; declare `io ");
    if sp.io_path.len() > 1 {
        out.append(sp.io_path[1].as_str());
    }
    out.append(" { ... }` or use a built-in `io.sim.*` primitive");
    assert(out@ =~= spine_message(s@, sp@));
    CheckError { message: out, span: std::ops::Range { start: 0, end: 0 } }
}

/// Appends an error for each spine of `s` whose io path does not resolve.
fn check_io_spine_paths(m: &Module, s: &SchemeDecl, errors: &mut Vec<CheckError>)
    requires
        forall|j: int| 0 <= j < s@.io_spines.len() ==> #[trigger] s@.io_spines[j].io_path.len() >= 1,
    ensures
        messages_of(final(errors)@) == messages_of(old(errors)@) + spine_errors(s@, s@.io_spines, m@),
        old(errors)@.len() <= final(errors)@.len(),
        final(errors)@.subrange(0, old(errors)@.len() as int) == old(errors)@,
        spans_at_start(final(errors)@.skip(old(errors)@.len() as int)),
        spans_at_start(old(errors)@) ==> spans_at_start(final(errors)@),
{
    let ghost sps = s@.io_spines;
    let ghost start = messages_of(errors@);
    let mut j: usize = 0;
    assert(start + Seq::<Seq<char>>::empty() =~= start);
    assert(sps.take(0) =~= Seq::<SpecSpine>::empty());
    while j < s.io_spines.len()
        invariant
            j <= s.io_spines.len(),
            sps == s@.io_spines,
            forall|k: int| 0 <= k < sps.len() ==> #[trigger] sps[k].io_path.len() >= 1,
            start == messages_of(old(errors)@),
            messages_of(errors@) == start + spine_errors(s@, sps.take(j as int), m@),
            old(errors)@.len() <= errors@.len(),
            errors@.subrange(0, old(errors)@.len() as int) == old(errors)@,
            spans_at_start(errors@.skip(old(errors)@.len() as int)),
            spans_at_start(old(errors)@) ==> spans_at_start(errors@),
        decreases s.io_spines.len() - j,
    {
        proof {
            let t = sps.take(j + 1);
            assert(t.drop_last() =~= sps.take(j as int));
            assert(t.last() == s.io_spines@[j as int]@);
            assert(sps[j as int].io_path.len() >= 1);
        }
        let ghost before = errors@;
        if !is_resolvable_exec(&s.io_spines[j], m) {
            let e = spine_error(s, &s.io_spines[j]);
            errors.push(e);
            proof {
                let n0 = old(errors)@.len() as int;
                assert(errors@.subrange(0, n0) =~= before.subrange(0, n0));
                assert(errors@.skip(n0) =~= before.skip(n0).push(e));
                assert(spans_at_start(errors@.skip(n0))) by {
                    let w = errors@.skip(n0);
                    assert forall|i: int| 0 <= i < w.len() implies (#[trigger] w[i]).span.start == 0
                        && w[i].span.end == 0 by {
                        if i < w.len() - 1 {
                            assert(w[i] == before.skip(n0)[i]);
                        }
                    }
                }
            }
            assert(messages_of(errors@) =~= messages_of(before).push(e.message@));
        }
        j = j + 1;
        assert(messages_of(errors@) =~= start + spine_errors(s@, sps.take(j as int), m@));
    }
    assert(sps.take(s.io_spines.len() as int) =~= sps);
}

/// Runs all checks on a module: `Ok(())` when every scheme passes,
/// otherwise the failures, scheme by scheme.
pub fn check(module: &Module) -> (r: Result<(), Vec<CheckError>>)
    requires
        spines_nonempty(module@),
    ensures
        r is Ok <==> check_messages(module@, module@.schemes).len() == 0,
        r matches Err(es) ==> messages_of(es@) == check_messages(module@, module@.schemes)
            && spans_at_start(es@),
{
    let ghost ms = module@.schemes;
    let mut errors: Vec<CheckError> = Vec::new();
    let mut i: usize = 0;
    assert(messages_of(errors@) =~= check_messages(module@, ms.take(0)));
    while i < module.schemes.len()
        invariant
            i <= module.schemes.len(),
            ms == module@.schemes,
            spines_nonempty(module@),
            messages_of(errors@) == check_messages(module@, ms.take(i as int)),
            spans_at_start(errors@),
        decreases module.schemes.len() - i,
    {
        proof {
            let t = ms.take(i + 1);
            assert(t.drop_last() =~= ms.take(i as int));
            assert(t.last() == module.schemes@[i as int]@);
            assert forall|j: int| 0 <= j < ms[i as int].io_spines.len() implies
                #[trigger] ms[i as int].io_spines[j].io_path.len() >= 1 by {}
        }
        let s = &module.schemes[i];
        check_dispatch_coverage(module, s, &mut errors);
        check_io_spine_paths(module, s, &mut errors);
        i = i + 1;
        assert(messages_of(errors@) =~= check_messages(module@, ms.take(i as int)));
    }
    assert(ms.take(module.schemes.len() as int) =~= ms);
    if errors.len() == 0 {
        Ok(())
    } else {
        Err(errors)
    }
}

// ---------------------------------------------------------------------
// Laws of the name order.

proof fn lemma_name_le_total(a: Seq<char>, b: Seq<char>)
    ensures
        name_le(a, b) || name_le(b, a),
    decreases a.len(),
{
    if a.len() > 0 && b.len() > 0 && a[0] == b[0] {
        lemma_name_le_total(a.drop_first(), b.drop_first());
    }
}

proof fn lemma_name_le_trans(a: Seq<char>, b: Seq<char>, c: Seq<char>)
    requires
        name_le(a, b),
        name_le(b, c),
    ensures
        name_le(a, c),
    decreases a.len(),
{
    if a.len() > 0 && b.len() > 0 && c.len() > 0 && a[0] == b[0] && b[0] == c[0] {
        lemma_name_le_trans(a.drop_first(), b.drop_first(), c.drop_first());
    }
}

proof fn lemma_insert_sorted(x: Name, s: Seq<Name>)
    requires
        is_sorted(s),
    ensures
        is_sorted(insert_sorted(x, s)),
        insert_sorted(x, s).to_multiset() == s.to_multiset().insert(x),
        forall|e: Name| #[trigger] insert_sorted(x, s).contains(e) ==> e == x || s.contains(e),
    decreases s.len(),
{
    broadcast use vstd::seq_lib::group_to_multiset_ensures;

    let r = insert_sorted(x, s);
    if s.len() == 0 {
        assert(r =~= seq![x]);
        assert(s.to_multiset() =~= vstd::multiset::Multiset::empty());
        assert(seq![x] =~= Seq::<Name>::empty().push(x));
    } else if name_le(x, s[0]) {
        assert(r == seq![x] + s);
        assert forall|i: int, j: int| 0 <= i < j < r.len() implies name_le(r[i], r[j]) by {
            if i == 0 {
                if j > 1 {
                    lemma_name_le_trans(x, s[0], s[j - 1]);
                }
            } else {
                assert(r[i] == s[i - 1] && r[j] == s[j - 1]);
            }
        }
        vstd::seq_lib::lemma_multiset_commutative(seq![x], s);
        assert(seq![x] =~= Seq::<Name>::empty().push(x));
        assert(seq![x].to_multiset() =~= vstd::multiset::Multiset::empty().insert(x));
        assert(r.to_multiset() =~= s.to_multiset().insert(x));
        assert forall|e: Name| #[trigger] r.contains(e) implies e == x || s.contains(e) by {
            let k = choose|k: int| 0 <= k < r.len() && r[k] == e;
            if k > 0 {
                assert(s[k - 1] == e);
            }
        }
    } else {
        let t = s.drop_first();
        assert forall|i: int, j: int| 0 <= i < j < t.len() implies name_le(t[i], t[j]) by {
            assert(t[i] == s[i + 1] && t[j] == s[j + 1]);
        }
        lemma_insert_sorted(x, t);
        let it = insert_sorted(x, t);
        assert(r == seq![s[0]] + it);
        lemma_name_le_total(x, s[0]);
        assert forall|i: int, j: int| 0 <= i < j < r.len() implies name_le(r[i], r[j]) by {
            if i == 0 {
                assert(r[j] == it[j - 1]);
                assert(it.contains(it[j - 1]));
                if it[j - 1] != x {
                    let k = choose|k: int| 0 <= k < t.len() && t[k] == it[j - 1];
                    assert(s[k + 1] == t[k]);
                }
            } else {
                assert(r[i] == it[i - 1] && r[j] == it[j - 1]);
            }
        }
        vstd::seq_lib::lemma_multiset_commutative(seq![s[0]], it);
        vstd::seq_lib::lemma_multiset_commutative(seq![s[0]], t);
        assert(s =~= seq![s[0]] + t);
        assert(r.to_multiset() =~= s.to_multiset().insert(x));
        assert forall|e: Name| #[trigger] r.contains(e) implies e == x || s.contains(e) by {
            let k = choose|k: int| 0 <= k < r.len() && r[k] == e;
            if k > 0 {
                assert(it[k - 1] == e);
                assert(it.contains(e));
                if e != x {
                    let q = choose|q: int| 0 <= q < t.len() && t[q] == e;
                    assert(s[q + 1] == e);
                }
            } else {
                assert(s[0] == e);
            }
        }
    }
}

/// Sorting names puts them in ascending character order.
pub proof fn law_sort_names_sorted(s: Seq<Name>)
    ensures
        is_sorted(sort_names(s)),
    decreases s.len(),
{
    if s.len() > 0 {
        law_sort_names_sorted(s.drop_last());
        lemma_insert_sorted(s.last(), sort_names(s.drop_last()));
    }
}

/// Sorting names keeps every name, as often as it occurs.
pub proof fn law_sort_names_permutes(s: Seq<Name>)
    ensures
        sort_names(s).to_multiset() == s.to_multiset(),
    decreases s.len(),
{
    broadcast use vstd::seq_lib::group_to_multiset_ensures;

    if s.len() == 0 {
        assert(sort_names(s) =~= s);
    } else {
        law_sort_names_permutes(s.drop_last());
        law_sort_names_sorted(s.drop_last());
        lemma_insert_sorted(s.last(), sort_names(s.drop_last()));
        assert(s.drop_last().push(s.last()) =~= s);
    }
}

// ---------------------------------------------------------------------
// Laws of the dispatch check.

proof fn lemma_group_errors_has(s: SpecScheme, gs: Seq<(Seq<Name>, Seq<Name>)>, g: int)
    requires
        0 <= g < gs.len(),
        gs[g].1.len() >= 2,
        forall|i: int| 0 <= i < s.dispatch.len() ==> (#[trigger] s.dispatch[i]).event != leaf(gs[g].0),
    ensures
        group_errors(s, gs).contains(dispatch_message(s, gs[g].0, gs[g].1)),
    decreases gs.len(),
{
    let msg = dispatch_message(s, gs[g].0, gs[g].1);
    let e = group_errors(s, gs);
    if g == gs.len() - 1 {
        assert(!dispatched(s, leaf(gs[g].0)));
        assert(e[e.len() - 1] == msg);
    } else {
        lemma_group_errors_has(s, gs.drop_last(), g);
        let p = group_errors(s, gs.drop_last());
        let j = choose|j: int| 0 <= j < p.len() && p[j] == msg;
        assert(e[j] == msg);
    }
}

proof fn lemma_check_messages_has(m: SpecModule, schemes: Seq<SpecScheme>, k: int, msg: Seq<char>)
    requires
        0 <= k < schemes.len(),
        scheme_errors(schemes[k], m).contains(msg),
    ensures
        check_messages(m, schemes).contains(msg),
    decreases schemes.len(),
{
    let e = check_messages(m, schemes);
    let p = check_messages(m, schemes.drop_last());
    if k == schemes.len() - 1 {
        let q = scheme_errors(schemes[k], m);
        let j = choose|j: int| 0 <= j < q.len() && q[j] == msg;
        assert(e[p.len() + j] == msg);
    } else {
        lemma_check_messages_has(m, schemes.drop_last(), k, msg);
        let j = choose|j: int| 0 <= j < p.len() && p[j] == msg;
        assert(e[j] == msg);
    }
}

/// When two or more of the facets a scheme composes handle a message type
/// and no dispatch declaration of the scheme has that type's last segment
/// as its event, the check reports that message type for that scheme,
/// whatever dispatch declarations the scheme has for other events.
pub proof fn law_dispatch_required_per_message_type(m: SpecModule, k: int, g: int)
    requires
        0 <= k < m.schemes.len(),
        0 <= g < groups(handler_pairs(composed(m.facets, m.schemes[k].facet_instances))).len(),
        ({
            let gr = groups(handler_pairs(composed(m.facets, m.schemes[k].facet_instances)))[g];
            &&& gr.1.len() >= 2
            &&& forall|i: int|
                0 <= i < m.schemes[k].dispatch.len() ==> (#[trigger] m.schemes[k].dispatch[i]).event
                    != leaf(gr.0)
        }),
    ensures
        ({
            let gr = groups(handler_pairs(composed(m.facets, m.schemes[k].facet_instances)))[g];
            check_messages(m, m.schemes).contains(dispatch_message(m.schemes[k], gr.0, gr.1))
        }),
{
    let s = m.schemes[k];
    let gs = groups(handler_pairs(composed(m.facets, s.facet_instances)));
    let msg = dispatch_message(s, gs[g].0, gs[g].1);
    lemma_group_errors_has(s, gs, g);
    let d = dispatch_errors(s, m.facets);
    let j = choose|j: int| 0 <= j < d.len() && d[j] == msg;
    assert(scheme_errors(s, m)[j] == msg);
    lemma_check_messages_has(m, m.schemes, k, msg);
}

proof fn lemma_group_index(gs: Seq<(Seq<Name>, Seq<Name>)>, mt: Seq<Name>)
    ensures
        match group_index(gs, mt) {
            Some(i) => 0 <= i < gs.len() && gs[i].0 == mt,
            None => forall|i: int| 0 <= i < gs.len() ==> (#[trigger] gs[i]).0 != mt,
        },
    decreases gs.len(),
{
    if gs.len() > 0 {
        lemma_group_index(gs.drop_last(), mt);
        assert forall|i: int| 0 <= i < gs.len() - 1 implies #[trigger] gs[i] == gs.drop_last()[i] by {}
    }
}

spec fn keys_distinct(gs: Seq<(Seq<Name>, Seq<Name>)>) -> bool {
    forall|i: int, j: int| 0 <= i < j < gs.len() ==> (#[trigger] gs[i]).0 != (#[trigger] gs[j]).0
}

spec fn has_pair(gs: Seq<(Seq<Name>, Seq<Name>)>, p: (Seq<Name>, Name)) -> bool {
    exists|g: int| 0 <= g < gs.len() && (#[trigger] gs[g]).0 == p.0 && gs[g].1.contains(p.1)
}

proof fn lemma_add_pair(gs: Seq<(Seq<Name>, Seq<Name>)>, p: (Seq<Name>, Name), q: (Seq<Name>, Name))
    requires
        keys_distinct(gs),
    ensures
        keys_distinct(add_pair(gs, p)),
        has_pair(add_pair(gs, p), p),
        has_pair(gs, q) ==> has_pair(add_pair(gs, p), q),
{
    lemma_group_index(gs, p.0);
    let ng = add_pair(gs, p);
    match group_index(gs, p.0) {
        Some(i) => {
            if !gs[i].1.contains(p.1) {
                let ns = gs[i].1.push(p.1);
                assert(ns[ns.len() - 1] == p.1);
                assert(ng[i].1.contains(p.1));
                assert(has_pair(ng, p));
                if has_pair(gs, q) {
                    let g = choose|g: int| 0 <= g < gs.len() && (#[trigger] gs[g]).0 == q.0 && gs[g].1.contains(q.1);
                    if g == i {
                        let x = choose|x: int| 0 <= x < gs[i].1.len() && gs[i].1[x] == q.1;
                        assert(ns[x] == q.1);
                        assert(ng[g].1.contains(q.1));
                    } else {
                        assert(ng[g] == gs[g]);
                    }
                }
                assert forall|a: int, b: int| 0 <= a < b < ng.len() implies (#[trigger] ng[a]).0 != (#[trigger] ng[b]).0 by {
                    assert(ng[a].0 == gs[a].0 && ng[b].0 == gs[b].0);
                }
            } else {
                assert(has_pair(ng, p));
            }
        },
        None => {
            let ns = seq![p.1];
            assert(ns[0] == p.1);
            assert(ng[gs.len() as int] == (p.0, ns));
            assert(has_pair(ng, p));
            if has_pair(gs, q) {
                let g = choose|g: int| 0 <= g < gs.len() && (#[trigger] gs[g]).0 == q.0 && gs[g].1.contains(q.1);
                assert(ng[g] == gs[g]);
            }
            assert forall|a: int, b: int| 0 <= a < b < ng.len() implies (#[trigger] ng[a]).0 != (#[trigger] ng[b]).0 by {
                if b == gs.len() {
                    assert(ng[a] == gs[a]);
                } else {
                    assert(ng[a] == gs[a] && ng[b] == gs[b]);
                }
            }
        },
    }
}

/// Every `(message type, facet)` pair is recorded in the group of its
/// message type, and no message type has two groups.
proof fn lemma_groups_complete(ps: Seq<(Seq<Name>, Name)>)
    ensures
        keys_distinct(groups(ps)),
        forall|k: int| 0 <= k < ps.len() ==> has_pair(groups(ps), #[trigger] ps[k]),
    decreases ps.len(),
{
    if ps.len() > 0 {
        let t = ps.drop_last();
        lemma_groups_complete(t);
        lemma_add_pair(groups(t), ps.last(), ps.last());
        assert forall|k: int| 0 <= k < ps.len() implies has_pair(groups(ps), #[trigger] ps[k]) by {
            lemma_add_pair(groups(t), ps.last(), ps[k]);
            if k < t.len() {
                assert(t[k] == ps[k]);
            }
        }
    } else {
        assert(keys_distinct(groups(ps)));
    }
}

proof fn lemma_handler_pairs_has(cs: Seq<SpecFacet>, a: int, h: int)
    requires
        0 <= a < cs.len(),
        0 <= h < cs[a].handlers.len(),
    ensures
        handler_pairs(cs).contains((cs[a].handlers[h].message_type, cs[a].name)),
    decreases cs.len(),
{
    let ps = handler_pairs(cs);
    let pre = handler_pairs(cs.drop_last());
    let p = (cs[a].handlers[h].message_type, cs[a].name);
    if a == cs.len() - 1 {
        let tail = cs.last().handlers.map_values(|x: SpecHandler| (x.message_type, cs.last().name));
        assert(tail[h] == p);
        assert(ps[pre.len() + h] == p);
    } else {
        assert(cs.drop_last()[a] == cs[a]);
        lemma_handler_pairs_has(cs.drop_last(), a, h);
        let j = choose|j: int| 0 <= j < pre.len() && pre[j] == p;
        assert(ps[j] == p);
    }
}

/// When two composed facets of different names both handle a message type
/// and no dispatch declaration of the scheme has that type's last segment
/// as its event, the check reports that message type for that scheme,
/// naming (among others) both facets.
pub proof fn law_dispatch_required_when_two_facets_handle(
    m: SpecModule,
    k: int,
    a: int,
    ha: int,
    b: int,
    hb: int,
)
    requires
        0 <= k < m.schemes.len(),
        0 <= a < composed(m.facets, m.schemes[k].facet_instances).len(),
        0 <= b < composed(m.facets, m.schemes[k].facet_instances).len(),
        ({
            let cs = composed(m.facets, m.schemes[k].facet_instances);
            let mt = cs[a].handlers[ha].message_type;
            &&& cs[a].name != cs[b].name
            &&& 0 <= ha < cs[a].handlers.len()
            &&& 0 <= hb < cs[b].handlers.len()
            &&& cs[b].handlers[hb].message_type == mt
            &&& forall|i: int|
                0 <= i < m.schemes[k].dispatch.len() ==> (#[trigger] m.schemes[k].dispatch[i]).event
                    != leaf(mt)
        }),
    ensures
        ({
            let cs = composed(m.facets, m.schemes[k].facet_instances);
            let mt = cs[a].handlers[ha].message_type;
            exists|names: Seq<Name>|
                names.contains(cs[a].name) && names.contains(cs[b].name) && check_messages(
                    m,
                    m.schemes,
                ).contains(#[trigger] dispatch_message(m.schemes[k], mt, names))
        }),
{
    let cs = composed(m.facets, m.schemes[k].facet_instances);
    let mt = cs[a].handlers[ha].message_type;
    let ps = handler_pairs(cs);
    let gs = groups(ps);
    lemma_handler_pairs_has(cs, a, ha);
    lemma_handler_pairs_has(cs, b, hb);
    lemma_groups_complete(ps);
    let pa = (mt, cs[a].name);
    let pb = (mt, cs[b].name);
    let ia = choose|i: int| 0 <= i < ps.len() && ps[i] == pa;
    let ib = choose|i: int| 0 <= i < ps.len() && ps[i] == pb;
    assert(has_pair(gs, ps[ia]));
    assert(has_pair(gs, ps[ib]));
    let g1 = choose|g: int| 0 <= g < gs.len() && (#[trigger] gs[g]).0 == pa.0 && gs[g].1.contains(pa.1);
    let g2 = choose|g: int| 0 <= g < gs.len() && (#[trigger] gs[g]).0 == pb.0 && gs[g].1.contains(pb.1);
    if g1 != g2 {
        if g1 < g2 {
            assert(gs[g1].0 != gs[g2].0);
        } else {
            assert(gs[g2].0 != gs[g1].0);
        }
    }
    let names = gs[g1].1;
    let x = choose|x: int| 0 <= x < names.len() && names[x] == pa.1;
    let y = choose|y: int| 0 <= y < names.len() && names[y] == pb.1;
    assert(x != y);
    assert(names.len() >= 2);
    law_dispatch_required_per_message_type(m, k, g1);
    assert(check_messages(m, m.schemes).contains(dispatch_message(m.schemes[k], mt, names)));
}

} // verus!
