//! Builds the runtime scheme topology from a parsed `Module`.
//!
//! Each `SchemeDecl` becomes a `SchemeRuntime`; each facet instance of a
//! scheme becomes a `FacetRuntime` whose state fields are initialized in
//! order from the facet declaration, each initializer evaluated with no
//! locals against the fields before it. When two facets share a name, the
//! later declaration is the one instantiated.
//!
//! Emits `scheme_instantiated` and `facet_instantiated` events as the tree
//! is built. Afterwards the runtime owns everything it needs.
use vstd::prelude::*;

use crate::ast::{
    copy_dispatches, copy_handlers, copy_names, copy_opt_name, names_view, opt_name_view,
    DispatchDecl, FacetDecl, FacetInstance, Handler, IoSpine, Module, SchemeDecl, SpecDispatch,
    SpecFacet, SpecHandler, SpecInstance, SpecModule, SpecScheme, SpecSpine, SpecStateField,
};
use crate::runtime::env::{bind, Bindings, FacetState};
use crate::runtime::events::{lemma_log_push, Event, EventSink, SpecEvent, VecSink};
use crate::runtime::interp::{eval, eval_init, result_view};
use crate::types::{find_facet, find_facet_exec};

verus! {

#[derive(Debug)]
pub struct Topology {
    pub schemes: Vec<SchemeRuntime>,
}

#[derive(Debug)]
pub struct SchemeRuntime {
    pub name: String,
    pub parent: Option<String>,
    pub io_spines: Vec<IoSpineBinding>,
    pub facets: Vec<FacetRuntime>,
    pub dispatch: Vec<DispatchDecl>,
}

#[derive(Debug)]
pub struct IoSpineBinding {
    /// Local spine name as declared in this scheme (e.g., "clock").
    pub name: String,
    /// Module path the spine points at (e.g., `["io", "sim", "clock"]`).
    pub io_path: Vec<String>,
}

#[derive(Debug)]
pub struct FacetRuntime {
    /// The facet-instance name (also the facet declaration's name).
    pub name: String,
    pub state: FacetState,
    pub handlers: Vec<Handler>,
    pub io_args: Vec<String>,
}

/// The model of a facet instance at run time.
pub struct SpecFacetRt {
    pub name: Seq<char>,
    pub state: Bindings,
    pub handlers: Seq<SpecHandler>,
    pub io_args: Seq<Seq<char>>,
}

/// The model of a scheme at run time.
pub struct SpecSchemeRt {
    pub name: Seq<char>,
    pub parent: Option<Seq<char>>,
    pub io_spines: Seq<SpecSpine>,
    pub facets: Seq<SpecFacetRt>,
    pub dispatch: Seq<SpecDispatch>,
}

impl View for IoSpineBinding {
    type V = SpecSpine;

    open spec fn view(&self) -> SpecSpine {
        SpecSpine { name: self.name@, io_path: names_view(self.io_path@) }
    }
}

impl View for FacetRuntime {
    type V = SpecFacetRt;

    open spec fn view(&self) -> SpecFacetRt {
        SpecFacetRt {
            name: self.name@,
            state: self.state@,
            handlers: self.handlers@.map_values(|h: Handler| h@),
            io_args: names_view(self.io_args@),
        }
    }
}

impl View for SchemeRuntime {
    type V = SpecSchemeRt;

    open spec fn view(&self) -> SpecSchemeRt {
        SpecSchemeRt {
            name: self.name@,
            parent: opt_name_view(self.parent),
            io_spines: self.io_spines@.map_values(|b: IoSpineBinding| b@),
            facets: self.facets@.map_values(|f: FacetRuntime| f@),
            dispatch: self.dispatch@.map_values(|d: DispatchDecl| d@),
        }
    }
}

impl View for Topology {
    type V = Seq<SpecSchemeRt>;

    open spec fn view(&self) -> Seq<SpecSchemeRt> {
        self.schemes@.map_values(|s: SchemeRuntime| s@)
    }
}

// ---------------------------------------------------------------------
// The model of instantiation.

/// The state of a facet: its fields in order, each initializer evaluated
/// against the fields before it.
pub open spec fn init_state(fields: Seq<SpecStateField>) -> Result<Bindings, Seq<char>>
    decreases fields.len(),
{
    if fields.len() == 0 {
        Ok(Seq::empty())
    } else {
        match init_state(fields.drop_last()) {
            Err(m) => Err(m),
            Ok(st) => match eval(fields.last().init, Seq::empty(), st) {
                Err(m) => Err(m),
                Ok(v) => Ok(bind(st, fields.last().name, v)),
            },
        }
    }
}

pub open spec fn unknown_facet(inst: Seq<char>, scheme: Seq<char>) -> Seq<char> {
    "unknown facet `"@ + inst + "` in scheme `"@ + scheme + "`"@
}

/// The runtimes of a scheme's facet instances, and the events emitted
/// while building them; the first failure stops the build.
pub open spec fn build_facets(fs: Seq<SpecFacet>, s: SpecScheme, insts: Seq<SpecInstance>) -> (
    Result<Seq<SpecFacetRt>, Seq<char>>,
    Seq<SpecEvent>,
)
    decreases insts.len(),
{
    if insts.len() == 0 {
        (Ok(Seq::empty()), Seq::empty())
    } else {
        let (r, evs) = build_facets(fs, s, insts.drop_last());
        let inst = insts.last();
        match r {
            Err(m) => (Err(m), evs),
            Ok(rts) => match find_facet(fs, inst.name) {
                None => (Err(unknown_facet(inst.name, s.name)), evs),
                Some(d) => match init_state(d.state) {
                    Err(m) => (Err(m), evs),
                    Ok(st) => (
                        Ok(
                            rts.push(
                                SpecFacetRt {
                                    name: inst.name,
                                    state: st,
                                    handlers: d.handlers,
                                    io_args: inst.io_args,
                                },
                            ),
                        ),
                        evs.push(
                            SpecEvent::FacetInstantiated {
                                scheme: s.name,
                                instance: inst.name,
                                state: st,
                            },
                        ),
                    ),
                },
            },
        }
    }
}

/// The runtimes of schemes, and the events emitted while building them.
pub open spec fn build_schemes(m: SpecModule, ss: Seq<SpecScheme>) -> (
    Result<Seq<SpecSchemeRt>, Seq<char>>,
    Seq<SpecEvent>,
)
    decreases ss.len(),
{
    if ss.len() == 0 {
        (Ok(Seq::empty()), Seq::empty())
    } else {
        let (r, evs) = build_schemes(m, ss.drop_last());
        let s = ss.last();
        match r {
            Err(e) => (Err(e), evs),
            Ok(rts) => {
                let evs1 = evs.push(SpecEvent::SchemeInstantiated { scheme: s.name, parent: s.parent });
                let (fr, fevs) = build_facets(m.facets, s, s.facet_instances);
                match fr {
                    Err(e) => (Err(e), evs1 + fevs),
                    Ok(fts) => (
                        Ok(
                            rts.push(
                                SpecSchemeRt {
                                    name: s.name,
                                    parent: s.parent,
                                    io_spines: s.io_spines,
                                    facets: fts,
                                    dispatch: s.dispatch,
                                },
                            ),
                        ),
                        evs1 + fevs,
                    ),
                }
            },
        }
    }
}

// ---------------------------------------------------------------------
// Building.

proof fn lemma_init_state_err(fields: Seq<SpecStateField>, j: int)
    requires
        0 <= j <= fields.len(),
        init_state(fields.take(j)) is Err,
    ensures
        init_state(fields) == init_state(fields.take(j)),
    decreases fields.len() - j,
{
    if j < fields.len() {
        assert(fields.take(j + 1).drop_last() =~= fields.take(j));
        lemma_init_state_err(fields, j + 1);
    } else {
        assert(fields.take(j) =~= fields);
    }
}

proof fn lemma_build_facets_err(fs: Seq<SpecFacet>, s: SpecScheme, insts: Seq<SpecInstance>, j: int)
    requires
        0 <= j <= insts.len(),
        build_facets(fs, s, insts.take(j)).0 is Err,
    ensures
        build_facets(fs, s, insts) == build_facets(fs, s, insts.take(j)),
    decreases insts.len() - j,
{
    if j < insts.len() {
        assert(insts.take(j + 1).drop_last() =~= insts.take(j));
        lemma_build_facets_err(fs, s, insts, j + 1);
    } else {
        assert(insts.take(j) =~= insts);
    }
}

proof fn lemma_build_schemes_err(m: SpecModule, ss: Seq<SpecScheme>, j: int)
    requires
        0 <= j <= ss.len(),
        build_schemes(m, ss.take(j)).0 is Err,
    ensures
        build_schemes(m, ss) == build_schemes(m, ss.take(j)),
    decreases ss.len() - j,
{
    if j < ss.len() {
        assert(ss.take(j + 1).drop_last() =~= ss.take(j));
        lemma_build_schemes_err(m, ss, j + 1);
    } else {
        assert(ss.take(j) =~= ss);
    }
}

/// The initial state of a facet declaration.
fn init_facet_state(d: &FacetDecl) -> (r: Result<FacetState, String>)
    ensures
        match r {
            Ok(st) => init_state(d@.state) == Ok::<Bindings, Seq<char>>(st@),
            Err(m) => init_state(d@.state) == Err::<Bindings, Seq<char>>(m@),
        },
{
    let ghost fields = d@.state;
    let mut state = FacetState::new();
    let mut i: usize = 0;
    assert(fields.take(0) =~= Seq::<SpecStateField>::empty());
    while i < d.state.len()
        invariant
            i <= d.state.len(),
            fields == d@.state,
            init_state(fields.take(i as int)) == Ok::<Bindings, Seq<char>>(state@),
        decreases d.state.len() - i,
    {
        proof {
            let t = fields.take(i + 1);
            assert(t.drop_last() =~= fields.take(i as int));
            assert(t.last() == d.state@[i as int]@);
        }
        let v = match eval_init(&d.state[i].init, &state) {
            Ok(v) => v,
            Err(m) => {
                proof {
                    lemma_init_state_err(fields, i + 1);
                }
                return Err(m);
            },
        };
        state.set(d.state[i].name.as_str(), v);
        i = i + 1;
    }
    assert(fields.take(d.state.len() as int) =~= fields);
    Ok(state)
}

fn unknown_facet_message(inst: &String, scheme: &String) -> (m: String)
    ensures
        m@ == unknown_facet(inst@, scheme@),
{
    let mut out = String::new();
    out.append("unknown facet `");
    out.append(inst.as_str());
    out.append("` in scheme `");
    out.append(scheme.as_str());
    out.append("`");
    out
}

fn emit_logged(sink: &mut VecSink, e: Event)
    ensures
        final(sink).log() == old(sink).log().push(e@),
{
    let ghost before = sink.events@;
    sink.emit(e);
    proof {
        lemma_log_push(before, e);
    }
}

/// The facet runtimes of scheme `s`.
fn instantiate_facets(m: &Module, s: &SchemeDecl, sink: &mut VecSink) -> (r: Result<
    Vec<FacetRuntime>,
    String,
>)
    ensures
        ({
            let (res, evs) = build_facets(m@.facets, s@, s@.facet_instances);
            &&& final(sink).log() == old(sink).log() + evs
            &&& match r {
                Ok(v) => res == Ok::<Seq<SpecFacetRt>, Seq<char>>(
                    v@.map_values(|f: FacetRuntime| f@),
                ),
                Err(e) => res == Err::<Seq<SpecFacetRt>, Seq<char>>(e@),
            }
        }),
{
    let ghost fs = m@.facets;
    let ghost insts = s@.facet_instances;
    let ghost log0 = sink.log();
    let mut facets: Vec<FacetRuntime> = Vec::new();
    let mut j: usize = 0;
    assert(insts.take(0) =~= Seq::<SpecInstance>::empty());
    assert(facets@.map_values(|f: FacetRuntime| f@) =~= Seq::<SpecFacetRt>::empty());
    assert(log0 + Seq::<SpecEvent>::empty() =~= log0);
    while j < s.facet_instances.len()
        invariant
            j <= s.facet_instances.len(),
            fs == m@.facets,
            insts == s@.facet_instances,
            log0 == old(sink).log(),
            build_facets(fs, s@, insts.take(j as int)).0 == Ok::<Seq<SpecFacetRt>, Seq<char>>(
                facets@.map_values(|f: FacetRuntime| f@),
            ),
            sink.log() == log0 + build_facets(fs, s@, insts.take(j as int)).1,
        decreases s.facet_instances.len() - j,
    {
        let ghost prev = build_facets(fs, s@, insts.take(j as int));
        proof {
            let t = insts.take(j + 1);
            assert(t.drop_last() =~= insts.take(j as int));
            assert(t.last() == s.facet_instances@[j as int]@);
        }
        let inst = &s.facet_instances[j];
        let idx = match find_facet_exec(m, &inst.name) {
            Some(i) => i,
            None => {
                proof {
                    lemma_build_facets_err(fs, s@, insts, j + 1);
                    assert(sink.log() =~= log0 + build_facets(fs, s@, insts.take(j + 1)).1);
                }
                return Err(unknown_facet_message(&inst.name, &s.name));
            },
        };
        let decl = &m.facets[idx];
        let state = match init_facet_state(decl) {
            Ok(st) => st,
            Err(e) => {
                proof {
                    lemma_build_facets_err(fs, s@, insts, j + 1);
                    assert(sink.log() =~= log0 + build_facets(fs, s@, insts.take(j + 1)).1);
                }
                return Err(e);
            },
        };
        let e = Event::FacetInstantiated {
            scheme: s.name.clone(),
            instance: inst.name.clone(),
            state: state.field_pairs(),
        };
        emit_logged(sink, e);
        let rt = FacetRuntime {
            name: inst.name.clone(),
            state,
            handlers: copy_handlers(&decl.handlers),
            io_args: copy_names(&inst.io_args),
        };
        let ghost before = facets@;
        facets.push(rt);
        proof {
            assert(facets@.map_values(|f: FacetRuntime| f@) =~= before.map_values(
                |f: FacetRuntime| f@,
            ).push(rt@));
        }
        j = j + 1;
        assert(sink.log() =~= log0 + build_facets(fs, s@, insts.take(j as int)).1);
    }
    assert(insts.take(s.facet_instances.len() as int) =~= insts);
    Ok(facets)
}

fn copy_spines(v: &Vec<IoSpine>) -> (r: Vec<IoSpineBinding>)
    ensures
        r@.map_values(|b: IoSpineBinding| b@) == v@.map_values(|s: IoSpine| s@),
{
    let mut out: Vec<IoSpineBinding> = Vec::new();
    let mut i: usize = 0;
    while i < v.len()
        invariant
            i <= v.len(),
            out@.len() == i,
            forall|k: int| 0 <= k < i ==> (#[trigger] out@[k])@ == v@[k]@,
        decreases v.len() - i,
    {
        out.push(IoSpineBinding { name: v[i].name.clone(), io_path: copy_names(&v[i].io_path) });
        i = i + 1;
    }
    assert(out@.map_values(|b: IoSpineBinding| b@) =~= v@.map_values(|s: IoSpine| s@));
    out
}

/// Builds the topology of `module`: every scheme with its facet
/// instances, in declaration order. Fails on the first facet instance
/// that names no facet, or whose state cannot be initialized; the events
/// emitted before the failure stay emitted.
pub fn instantiate(module: &Module, sink: &mut VecSink) -> (r: Result<Topology, String>)
    ensures
        ({
            let (res, evs) = build_schemes(module@, module@.schemes);
            &&& final(sink).log() == old(sink).log() + evs
            &&& match r {
                Ok(t) => res == Ok::<Seq<SpecSchemeRt>, Seq<char>>(t@),
                Err(e) => res == Err::<Seq<SpecSchemeRt>, Seq<char>>(e@),
            }
        }),
{
    let ghost ss = module@.schemes;
    let ghost log0 = sink.log();
    let mut schemes: Vec<SchemeRuntime> = Vec::new();
    let mut i: usize = 0;
    assert(ss.take(0) =~= Seq::<SpecScheme>::empty());
    assert(schemes@.map_values(|s: SchemeRuntime| s@) =~= Seq::<SpecSchemeRt>::empty());
    assert(log0 + Seq::<SpecEvent>::empty() =~= log0);
    while i < module.schemes.len()
        invariant
            i <= module.schemes.len(),
            ss == module@.schemes,
            log0 == old(sink).log(),
            build_schemes(module@, ss.take(i as int)).0 == Ok::<Seq<SpecSchemeRt>, Seq<char>>(
                schemes@.map_values(|s: SchemeRuntime| s@),
            ),
            sink.log() == log0 + build_schemes(module@, ss.take(i as int)).1,
        decreases module.schemes.len() - i,
    {
        proof {
            let t = ss.take(i + 1);
            assert(t.drop_last() =~= ss.take(i as int));
            assert(t.last() == module.schemes@[i as int]@);
        }
        let s = &module.schemes[i];
        let e = Event::SchemeInstantiated { scheme: s.name.clone(), parent: copy_opt_name(&s.parent) };
        emit_logged(sink, e);
        let facets = match instantiate_facets(module, s, sink) {
            Ok(f) => f,
            Err(e) => {
                proof {
                    lemma_build_schemes_err(module@, ss, i + 1);
                    assert(sink.log() =~= log0 + build_schemes(module@, ss.take(i + 1)).1);
                }
                return Err(e);
            },
        };
        let rt = SchemeRuntime {
            name: s.name.clone(),
            parent: copy_opt_name(&s.parent),
            io_spines: copy_spines(&s.io_spines),
            facets,
            dispatch: copy_dispatches(&s.dispatch),
        };
        let ghost before = schemes@;
        schemes.push(rt);
        proof {
            assert(schemes@.map_values(|s: SchemeRuntime| s@) =~= before.map_values(
                |s: SchemeRuntime| s@,
            ).push(rt@));
        }
        i = i + 1;
        assert(sink.log() =~= log0 + build_schemes(module@, ss.take(i as int)).1);
    }
    assert(ss.take(module.schemes.len() as int) =~= ss);
    Ok(Topology { schemes })
}

// ---------------------------------------------------------------------
// Laws of instantiation.

/// `(scheme, parent)` of each `scheme_instantiated` event, in order.
pub open spec fn announced(evs: Seq<SpecEvent>) -> Seq<(Seq<char>, Option<Seq<char>>)>
    decreases evs.len(),
{
    if evs.len() == 0 {
        Seq::empty()
    } else {
        announced(evs.drop_last()) + match evs.last() {
            SpecEvent::SchemeInstantiated { scheme, parent } => seq![(scheme, parent)],
            _ => Seq::empty(),
        }
    }
}

proof fn lemma_announced_concat(a: Seq<SpecEvent>, b: Seq<SpecEvent>)
    ensures
        announced(a + b) == announced(a) + announced(b),
    decreases b.len(),
{
    if b.len() == 0 {
        assert(a + b =~= a);
        assert(announced(a) + announced(b) =~= announced(a));
    } else {
        lemma_announced_concat(a, b.drop_last());
        assert((a + b).drop_last() =~= a + b.drop_last());
        assert((a + b).last() == b.last());
        assert(announced(a) + announced(b.drop_last()) + match b.last() {
            SpecEvent::SchemeInstantiated { scheme, parent } => seq![(scheme, parent)],
            _ => Seq::empty(),
        } =~= announced(a) + announced(b));
    }
}

proof fn lemma_build_facets_shape(fs: Seq<SpecFacet>, s: SpecScheme, insts: Seq<SpecInstance>)
    ensures
        announced(build_facets(fs, s, insts).1).len() == 0,
        build_facets(fs, s, insts).0 matches Ok(rts) ==> {
            &&& rts.len() == insts.len()
            &&& forall|i: int|
                0 <= i < insts.len() ==> (#[trigger] rts[i]).name == insts[i].name && rts[i].io_args
                    == insts[i].io_args && find_facet(fs, insts[i].name) is Some
                    && rts[i].handlers == find_facet(fs, insts[i].name)->Some_0.handlers
        },
    decreases insts.len(),
{
    if insts.len() > 0 {
        let t = insts.drop_last();
        lemma_build_facets_shape(fs, s, t);
        let (r, evs) = build_facets(fs, s, t);
        if r is Ok {
            let evs2 = build_facets(fs, s, insts).1;
            if evs2.len() > evs.len() {
                assert(evs2.drop_last() =~= evs);
            }
            assert forall|i: int| 0 <= i < t.len() implies #[trigger] insts[i] == t[i] by {}
            assert(insts.last() == insts[insts.len() - 1]);
        }
    }
}

/// Instantiation keeps every scheme's declaration: when it succeeds,
/// there is one runtime per declared scheme, in order, carrying the
/// scheme's name, its declared parent (`@ parent`), spines and dispatch
/// declarations, and one facet runtime per facet instance, with the
/// instance's name and io arguments and its facet's handlers; and the
/// `scheme_instantiated` events announce exactly the declared schemes,
/// in order, each with its declared parent.
pub proof fn law_instantiate_keeps_declarations(m: SpecModule, ss: Seq<SpecScheme>)
    requires
        build_schemes(m, ss).0 is Ok,
    ensures
        ({
            let rts = build_schemes(m, ss).0->Ok_0;
            &&& rts.len() == ss.len()
            &&& forall|i: int|
                0 <= i < ss.len() ==> {
                    &&& (#[trigger] rts[i]).name == ss[i].name
                    &&& rts[i].parent == ss[i].parent
                    &&& rts[i].io_spines == ss[i].io_spines
                    &&& rts[i].dispatch == ss[i].dispatch
                    &&& rts[i].facets.len() == ss[i].facet_instances.len()
                    &&& forall|j: int|
                        0 <= j < ss[i].facet_instances.len() ==> (#[trigger] rts[i].facets[j]).name
                            == ss[i].facet_instances[j].name && rts[i].facets[j].io_args
                            == ss[i].facet_instances[j].io_args && find_facet(
                            m.facets,
                            ss[i].facet_instances[j].name,
                        ) is Some && rts[i].facets[j].handlers == find_facet(
                            m.facets,
                            ss[i].facet_instances[j].name,
                        )->Some_0.handlers
                }
            &&& announced(build_schemes(m, ss).1) == ss.map_values(
                |s: SpecScheme| (s.name, s.parent),
            )
        }),
    decreases ss.len(),
{
    if ss.len() == 0 {
        assert(ss.map_values(|s: SpecScheme| (s.name, s.parent)) =~= Seq::<
            (Seq<char>, Option<Seq<char>>),
        >::empty());
    } else {
        let t = ss.drop_last();
        let s = ss.last();
        let (r, evs) = build_schemes(m, t);
        assert(r is Ok);
        law_instantiate_keeps_declarations(m, t);
        lemma_build_facets_shape(m.facets, s, s.facet_instances);
        let (fr, fevs) = build_facets(m.facets, s, s.facet_instances);
        let evs1 = evs.push(SpecEvent::SchemeInstantiated { scheme: s.name, parent: s.parent });
        assert(evs1.drop_last() =~= evs);
        lemma_announced_concat(evs1, fevs);
        assert(announced(evs1) + announced(fevs) =~= announced(evs1));
        assert forall|i: int| 0 <= i < t.len() implies #[trigger] ss[i] == t[i] by {}
        assert(s == ss[ss.len() - 1]);
        assert(ss.map_values(|s: SpecScheme| (s.name, s.parent)) =~= t.map_values(
            |s: SpecScheme| (s.name, s.parent),
        ).push((s.name, s.parent)));
    }
}

} // verus!
