//! Sim clock and dispatch driver.
//!
//! The sim clock fires `clock.tick` for N iterations. For each tick:
//!   1. Emit a `tick` event with the tick number.
//!   2. For each scheme with a spine bound to `io.sim.clock`:
//!      - if no dispatch declaration names `<clock spine>.tick`, every
//!        facet instance with an `on tick` handler runs it;
//!      - otherwise each such declaration fans out in turn: `parallel`
//!        and `async` run every facet instance, in order;
//!        `sequence(a -> b)` runs the listed instances in the listed order.
//!      Each handler's value becomes a `handler_return` event.
//!
//! Handlers run one after another: the order is deterministic.
use vstd::prelude::*;

use crate::ast::{copy_dispatch_mode, names_view, DispatchMode, Handler, SpecDispatch, SpecHandler, SpecMode, SpecSpine};
use crate::parser::w_io;
use crate::runtime::events::{lemma_log_push, Event, EventSink, SpecEvent, VecSink};
use crate::runtime::instantiate::{FacetRuntime, IoSpineBinding, SchemeRuntime, SpecFacetRt, SpecSchemeRt, Topology};
use crate::runtime::interp::{handler_outcome, result_view, run_handler};
use crate::runtime::value::{SpecValue, Value};
use crate::text::string_is;
use crate::types::w_sim;

verus! {

pub open spec fn w_tick() -> Seq<char> {
    seq!['t', 'i', 'c', 'k']
}

pub open spec fn w_clock() -> Seq<char> {
    seq!['c', 'l', 'o', 'c', 'k']
}

/// `io.sim.clock`.
pub open spec fn clock_path() -> Seq<Seq<char>> {
    seq![w_io(), w_sim(), w_clock()]
}

/// Names of the spines bound to `io.sim.clock`, in order.
pub open spec fn clock_spines(sps: Seq<SpecSpine>) -> Seq<Seq<char>>
    decreases sps.len(),
{
    if sps.len() == 0 {
        Seq::empty()
    } else {
        clock_spines(sps.drop_last()) + if sps.last().io_path == clock_path() {
            seq![sps.last().name]
        } else {
            Seq::empty()
        }
    }
}

/// The modes of the dispatch declarations for `<clock spine>.tick`.
pub open spec fn tick_modes(ds: Seq<SpecDispatch>, spines: Seq<Seq<char>>) -> Seq<SpecMode>
    decreases ds.len(),
{
    if ds.len() == 0 {
        Seq::empty()
    } else {
        tick_modes(ds.drop_last(), spines) + if spines.contains(ds.last().spine) && ds.last().event
            == w_tick() {
            seq![ds.last().mode]
        } else {
            Seq::empty()
        }
    }
}

/// Position of the first handler for `tick`.
pub open spec fn first_tick(hs: Seq<SpecHandler>) -> Option<int>
    decreases hs.len(),
{
    if hs.len() == 0 {
        None
    } else if hs[0].message_type == seq![w_tick()] {
        Some(0)
    } else {
        match first_tick(hs.drop_first()) {
            Some(i) => Some(i + 1),
            None => None,
        }
    }
}

/// Position of the first facet instance named `name`.
pub open spec fn first_named(fs: Seq<SpecFacetRt>, name: Seq<char>) -> Option<int>
    decreases fs.len(),
{
    if fs.len() == 0 {
        None
    } else if fs[0].name == name {
        Some(0)
    } else {
        match first_named(fs.drop_first(), name) {
            Some(i) => Some(i + 1),
            None => None,
        }
    }
}

/// The positions of the listed instances, in list order; names that match
/// no instance are skipped.
pub open spec fn positions(fs: Seq<SpecFacetRt>, names: Seq<Seq<char>>) -> Seq<int>
    decreases names.len(),
{
    if names.len() == 0 {
        Seq::empty()
    } else {
        positions(fs, names.drop_last()) + match first_named(fs, names.last()) {
            Some(i) => seq![i],
            None => Seq::empty(),
        }
    }
}

/// `0, 1, ..., n - 1`.
pub open spec fn all_positions(n: nat) -> Seq<int> {
    Seq::new(n, |i: int| i)
}

/// The order in which a dispatch mode runs the facet instances.
pub open spec fn mode_order(fs: Seq<SpecFacetRt>, mode: SpecMode) -> Seq<int> {
    match mode {
        SpecMode::Sequence(names) => positions(fs, names),
        _ => all_positions(fs.len()),
    }
}

/// Running the tick handlers of the instances at `order`, one after
/// another: the result, the instances afterwards, and the events. The
/// first error stops the run; state changed before it stays changed.
pub open spec fn run_order(scheme: Seq<char>, fs: Seq<SpecFacetRt>, order: Seq<int>) -> (
    Result<(), Seq<char>>,
    Seq<SpecFacetRt>,
    Seq<SpecEvent>,
)
    decreases order.len(),
{
    if order.len() == 0 {
        (Ok(()), fs, Seq::empty())
    } else {
        let (r, fs1, evs) = run_order(scheme, fs, order.drop_last());
        match r {
            Err(m) => (Err(m), fs1, evs),
            Ok(_) => {
                let idx = order.last();
                let f = fs1[idx];
                match first_tick(f.handlers) {
                    None => (Ok(()), fs1, evs),
                    Some(h) => {
                        let x = handler_outcome(f.handlers[h], None, f.state, scheme, f.name);
                        let fs2 = fs1.update(idx, SpecFacetRt { state: x.st, ..f });
                        match x.res {
                            Err(m) => (Err(m), fs2, evs + x.evs),
                            Ok(v) => (
                                Ok(()),
                                fs2,
                                evs + x.evs.push(
                                    SpecEvent::HandlerReturn {
                                        scheme,
                                        instance: f.name,
                                        message: w_tick(),
                                        value: v,
                                    },
                                ),
                            ),
                        }
                    },
                }
            },
        }
    }
}

/// The dispatch modes run one after another.
pub open spec fn run_modes(scheme: Seq<char>, fs: Seq<SpecFacetRt>, modes: Seq<SpecMode>) -> (
    Result<(), Seq<char>>,
    Seq<SpecFacetRt>,
    Seq<SpecEvent>,
)
    decreases modes.len(),
{
    if modes.len() == 0 {
        (Ok(()), fs, Seq::empty())
    } else {
        let (r, fs1, evs) = run_modes(scheme, fs, modes.drop_last());
        match r {
            Err(m) => (Err(m), fs1, evs),
            Ok(_) => {
                let (r2, fs2, evs2) = run_order(scheme, fs1, mode_order(fs1, modes.last()));
                (r2, fs2, evs + evs2)
            },
        }
    }
}

/// One tick delivered to one scheme.
pub open spec fn tick_scheme(s: SpecSchemeRt) -> (
    Result<(), Seq<char>>,
    Seq<SpecFacetRt>,
    Seq<SpecEvent>,
) {
    let spines = clock_spines(s.io_spines);
    if spines.len() == 0 {
        (Ok(()), s.facets, Seq::empty())
    } else {
        let modes = tick_modes(s.dispatch, spines);
        if modes.len() == 0 {
            run_order(s.name, s.facets, all_positions(s.facets.len()))
        } else {
            run_modes(s.name, s.facets, modes)
        }
    }
}

/// One tick delivered to each scheme in turn.
pub open spec fn tick_all(ss: Seq<SpecSchemeRt>) -> (
    Result<(), Seq<char>>,
    Seq<SpecSchemeRt>,
    Seq<SpecEvent>,
)
    decreases ss.len(),
{
    if ss.len() == 0 {
        (Ok(()), ss, Seq::empty())
    } else {
        let (r, ss1, evs) = tick_all(ss.drop_last());
        let s = ss.last();
        match r {
            Err(m) => (Err(m), ss1.push(s), evs),
            Ok(_) => {
                let (r2, fs, evs2) = tick_scheme(s);
                (r2, ss1.push(SpecSchemeRt { facets: fs, ..s }), evs + evs2)
            },
        }
    }
}

/// `ticks` ticks of the sim clock, numbered from 0.
pub open spec fn sim(ss: Seq<SpecSchemeRt>, ticks: nat) -> (
    Result<(), Seq<char>>,
    Seq<SpecSchemeRt>,
    Seq<SpecEvent>,
)
    decreases ticks,
{
    if ticks == 0 {
        (Ok(()), ss, Seq::empty())
    } else {
        let (r, ss1, evs) = sim(ss, (ticks - 1) as nat);
        match r {
            Err(m) => (Err(m), ss1, evs),
            Ok(_) => {
                let (r2, ss2, evs2) = tick_all(ss1);
                (r2, ss2, evs.push(SpecEvent::Tick { n: (ticks - 1) as u64 }) + evs2)
            },
        }
    }
}

// ---------------------------------------------------------------------
// Running.

pub open spec fn unit_result(r: Result<(), String>) -> Result<(), Seq<char>> {
    match r {
        Ok(_) => Ok(()),
        Err(m) => Err(m@),
    }
}

pub open spec fn facets_view(v: Seq<FacetRuntime>) -> Seq<SpecFacetRt> {
    v.map_values(|f: FacetRuntime| f@)
}

proof fn lemma_first_tick_at(hs: Seq<SpecHandler>, i: int)
    requires
        0 <= i <= hs.len(),
        forall|j: int| 0 <= j < i ==> (#[trigger] hs[j]).message_type != seq![w_tick()],
        i < hs.len() ==> hs[i].message_type == seq![w_tick()],
    ensures
        first_tick(hs) == if i < hs.len() {
            Some(i)
        } else {
            None::<int>
        },
    decreases hs.len(),
{
    if hs.len() > 0 && i > 0 {
        let t = hs.drop_first();
        assert forall|j: int| 0 <= j < i - 1 implies (#[trigger] t[j]).message_type != seq![w_tick()] by {
            assert(t[j] == hs[j + 1]);
        }
        lemma_first_tick_at(t, i - 1);
    }
}

proof fn lemma_first_named_at(fs: Seq<SpecFacetRt>, name: Seq<char>, i: int)
    requires
        0 <= i <= fs.len(),
        forall|j: int| 0 <= j < i ==> (#[trigger] fs[j]).name != name,
        i < fs.len() ==> fs[i].name == name,
    ensures
        first_named(fs, name) == if i < fs.len() {
            Some(i)
        } else {
            None::<int>
        },
    decreases fs.len(),
{
    if fs.len() > 0 && i > 0 {
        let t = fs.drop_first();
        assert forall|j: int| 0 <= j < i - 1 implies (#[trigger] t[j]).name != name by {
            assert(t[j] == fs[j + 1]);
        }
        lemma_first_named_at(t, name, i - 1);
    }
}

fn is_tick_path(p: &Vec<String>) -> (r: bool)
    ensures
        r == (names_view(p@) == seq![w_tick()]),
{
    if p.len() != 1 {
        assert(names_view(p@).len() != 1);
        return false;
    }
    let r = string_is(&p[0], &['t', 'i', 'c', 'k']);
    assert(names_view(p@)[0] == p@[0]@);
    assert(r ==> names_view(p@) =~= seq![w_tick()]);
    assert(names_view(p@) == seq![w_tick()] ==> p@[0]@ == w_tick());
    r
}

/// Position of the first `on tick` handler.
fn tick_handler_index(hs: &Vec<Handler>) -> (r: Option<usize>)
    ensures
        match r {
            Some(i) => i < hs@.len() && first_tick(hs@.map_values(|h: Handler| h@)) == Some(i as int),
            None => first_tick(hs@.map_values(|h: Handler| h@)) is None,
        },
{
    let ghost sv = hs@.map_values(|h: Handler| h@);
    let mut i: usize = 0;
    while i < hs.len()
        invariant
            i <= hs.len(),
            sv == hs@.map_values(|h: Handler| h@),
            forall|j: int| 0 <= j < i ==> (#[trigger] sv[j]).message_type != seq![w_tick()],
        decreases hs.len() - i,
    {
        if is_tick_path(&hs[i].message_type) {
            proof {
                lemma_first_tick_at(sv, i as int);
            }
            return Some(i);
        }
        i = i + 1;
    }
    proof {
        lemma_first_tick_at(sv, i as int);
    }
    None
}

fn named_index(fs: &Vec<FacetRuntime>, name: &String) -> (r: Option<usize>)
    ensures
        match r {
            Some(i) => i < fs@.len() && first_named(facets_view(fs@), name@) == Some(i as int),
            None => first_named(facets_view(fs@), name@) is None,
        },
{
    let ghost sv = facets_view(fs@);
    let mut i: usize = 0;
    while i < fs.len()
        invariant
            i <= fs.len(),
            sv == facets_view(fs@),
            forall|j: int| 0 <= j < i ==> (#[trigger] sv[j]).name != name@,
        decreases fs.len() - i,
    {
        if fs[i].name == *name {
            proof {
                lemma_first_named_at(sv, name@, i as int);
            }
            return Some(i);
        }
        i = i + 1;
    }
    proof {
        lemma_first_named_at(sv, name@, i as int);
    }
    None
}

pub open spec fn order_view(v: Seq<usize>) -> Seq<int> {
    v.map_values(|i: usize| i as int)
}

/// The order in which the instances run: all of them, or the listed ones
/// in list order.
fn tick_order(fs: &Vec<FacetRuntime>, restrict_to: Option<&Vec<String>>) -> (r: Vec<usize>)
    ensures
        order_view(r@) == match restrict_to {
            Some(list) => positions(facets_view(fs@), names_view(list@)),
            None => all_positions(fs@.len()),
        },
        forall|k: int| 0 <= k < r@.len() ==> #[trigger] r@[k] < fs@.len(),
{
    let mut out: Vec<usize> = Vec::new();
    match restrict_to {
        Some(list) => {
            let ghost names = names_view(list@);
            let mut i: usize = 0;
            assert(order_view(out@) =~= positions(facets_view(fs@), names.take(0)));
            while i < list.len()
                invariant
                    i <= list.len(),
                    names == names_view(list@),
                    order_view(out@) == positions(facets_view(fs@), names.take(i as int)),
                    forall|k: int| 0 <= k < out@.len() ==> #[trigger] out@[k] < fs@.len(),
                decreases list.len() - i,
            {
                proof {
                    let t = names.take(i + 1);
                    assert(t.drop_last() =~= names.take(i as int));
                }
                let ghost before = out@;
                match named_index(fs, &list[i]) {
                    Some(k) => {
                        out.push(k);
                        assert(order_view(out@) =~= order_view(before).push(k as int));
                    },
                    None => {},
                }
                i = i + 1;
                assert(order_view(out@) =~= positions(facets_view(fs@), names.take(i as int)));
            }
            assert(names.take(list.len() as int) =~= names);
        },
        None => {
            let mut i: usize = 0;
            while i < fs.len()
                invariant
                    i <= fs.len(),
                    out@.len() == i,
                    forall|k: int| 0 <= k < i ==> #[trigger] out@[k] == k,
                decreases fs.len() - i,
            {
                out.push(i);
                i = i + 1;
            }
            assert(order_view(out@) =~= all_positions(fs@.len()));
        },
    }
    out
}

fn emit_logged(sink: &mut VecSink, e: Event)
    ensures
        final(sink).log() == old(sink).log().push(e@),
{
    let ghost before = sink.events@;
    sink.emit(e);
    proof {
        lemma_log_push(before, e);
    }
}

proof fn lemma_run_order_err(scheme: Seq<char>, fs: Seq<SpecFacetRt>, order: Seq<int>, j: int)
    requires
        0 <= j <= order.len(),
        run_order(scheme, fs, order.take(j)).0 is Err,
    ensures
        run_order(scheme, fs, order) == run_order(scheme, fs, order.take(j)),
    decreases order.len() - j,
{
    if j < order.len() {
        assert(order.take(j + 1).drop_last() =~= order.take(j));
        lemma_run_order_err(scheme, fs, order, j + 1);
    } else {
        assert(order.take(j) =~= order);
    }
}

/// Runs the `on tick` handler of each facet instance in `order`, in that
/// order, emitting a `handler_return` event for each.
fn run_order_exec(
    scheme_name: &String,
    facets: &mut Vec<FacetRuntime>,
    order: &Vec<usize>,
    sink: &mut VecSink,
) -> (r: Result<(), String>)
    requires
        forall|k: int| 0 <= k < order@.len() ==> #[trigger] order@[k] < old(facets)@.len(),
    ensures
        ({
            let (res, fs, evs) = run_order(scheme_name@, facets_view(old(facets)@), order_view(order@));
            &&& unit_result(r) == res
            &&& facets_view(final(facets)@) == fs
            &&& final(sink).log() == old(sink).log() + evs
        }),
{
    let ghost fs0 = facets_view(facets@);
    let ghost ord = order_view(order@);
    let ghost log0 = sink.log();
    let mut k: usize = 0;
    assert(ord.take(0) =~= Seq::<int>::empty());
    assert(log0 + Seq::<SpecEvent>::empty() =~= log0);
    while k < order.len()
        invariant
            k <= order.len(),
            fs0 == facets_view(old(facets)@),
            ord == order_view(order@),
            log0 == old(sink).log(),
            facets@.len() == old(facets)@.len(),
            forall|q: int| 0 <= q < order@.len() ==> #[trigger] order@[q] < old(facets)@.len(),
            run_order(scheme_name@, fs0, ord.take(k as int)).0 == Ok::<(), Seq<char>>(()),
            facets_view(facets@) == run_order(scheme_name@, fs0, ord.take(k as int)).1,
            sink.log() == log0 + run_order(scheme_name@, fs0, ord.take(k as int)).2,
        decreases order.len() - k,
    {
        let ghost prev = run_order(scheme_name@, fs0, ord.take(k as int));
        proof {
            let t = ord.take(k + 1);
            assert(t.drop_last() =~= ord.take(k as int));
            assert(t.last() == order@[k as int] as int);
        }
        let idx = order[k];
        let ghost f = facets_view(facets@)[idx as int];
        match tick_handler_index(&facets[idx].handlers) {
            None => {
                assert(sink.log() =~= log0 + run_order(scheme_name@, fs0, ord.take(k + 1)).2);
            },
            Some(h) => {
                let mut fr = facets.remove(idx);
                let ghost removed = facets@;
                assert(fr@ == f);
                let ghost hv = fr.handlers@[h as int]@;
                assert(hv == f.handlers[h as int]);
                let instance = fr.name.clone();
                let ghost x = handler_outcome(hv, None, f.state, scheme_name@, f.name);
                let ghost log1 = sink.log();
                let res = run_handler(&fr.handlers[h], &mut fr.state, None, scheme_name.as_str(), instance.as_str(), sink);
                let ghost frv = fr@;
                facets.insert(idx, fr);
                proof {
                    assert(facets_view(facets@) =~= prev.1.update(idx as int, frv));
                }
                match res {
                    Ok(v) => {
                        let e = Event::HandlerReturn {
                            scheme: scheme_name.clone(),
                            instance,
                            message: "tick".to_owned(),
                            value: v,
                        };
                        proof {
                            reveal_strlit("tick");
                        }
                        assert("tick"@ == w_tick());
                        assert(instance@ == f.name);
                        assert(x.res == Ok::<SpecValue, Seq<char>>(e->value@));
                        assert(e@ == SpecEvent::HandlerReturn {
                            scheme: scheme_name@,
                            instance: f.name,
                            message: w_tick(),
                            value: match x.res { Ok(v) => v, Err(_) => SpecValue::Unit },
                        });
                        assert(sink.log() == log1 + x.evs);
                        emit_logged(sink, e);
                        assert(run_order(scheme_name@, fs0, ord.take(k + 1)).2 == prev.2 + x.evs.push(e@));
                        assert(sink.log() =~= log0 + run_order(scheme_name@, fs0, ord.take(k + 1)).2);
                    },
                    Err(m) => {
                        proof {
                            assert(sink.log() =~= log0 + run_order(scheme_name@, fs0, ord.take(k + 1)).2);
                            lemma_run_order_err(scheme_name@, fs0, ord, k + 1);
                        }
                        return Err(m);
                    },
                }
            },
        }
        k = k + 1;
    }
    assert(ord.take(order.len() as int) =~= ord);
    Ok(())
}

/// For each facet instance whose facet has an `on tick` handler, runs it;
/// with `restrict_to`, only the listed instances, in list order.
pub fn run_handlers_for_tick(
    scheme_name: &String,
    facets: &mut Vec<FacetRuntime>,
    restrict_to: Option<&Vec<String>>,
    sink: &mut VecSink,
) -> (r: Result<(), String>)
    ensures
        ({
            let order = match restrict_to {
                Some(list) => positions(facets_view(old(facets)@), names_view(list@)),
                None => all_positions(old(facets)@.len()),
            };
            let (res, fs, evs) = run_order(scheme_name@, facets_view(old(facets)@), order);
            &&& unit_result(r) == res
            &&& facets_view(final(facets)@) == fs
            &&& final(sink).log() == old(sink).log() + evs
        }),
{
    let order = tick_order(facets, restrict_to);
    run_order_exec(scheme_name, facets, &order, sink)
}

fn is_clock_path(p: &Vec<String>) -> (r: bool)
    ensures
        r == (names_view(p@) == clock_path()),
{
    if p.len() != 3 {
        assert(names_view(p@).len() != 3);
        return false;
    }
    let r = string_is(&p[0], &['i', 'o']) && string_is(&p[1], &['s', 'i', 'm'])
        && string_is(&p[2], &['c', 'l', 'o', 'c', 'k']);
    assert(names_view(p@)[0] == p@[0]@);
    assert(names_view(p@)[1] == p@[1]@);
    assert(names_view(p@)[2] == p@[2]@);
    assert(r ==> names_view(p@) =~= clock_path());
    r
}

/// Names of the spines bound to `io.sim.clock`.
fn clock_spine_names(sps: &Vec<IoSpineBinding>) -> (r: Vec<String>)
    ensures
        names_view(r@) == clock_spines(sps@.map_values(|b: IoSpineBinding| b@)),
{
    let ghost sv = sps@.map_values(|b: IoSpineBinding| b@);
    let mut out: Vec<String> = Vec::new();
    let mut i: usize = 0;
    assert(names_view(out@) =~= clock_spines(sv.take(0)));
    while i < sps.len()
        invariant
            i <= sps.len(),
            sv == sps@.map_values(|b: IoSpineBinding| b@),
            names_view(out@) == clock_spines(sv.take(i as int)),
        decreases sps.len() - i,
    {
        proof {
            let t = sv.take(i + 1);
            assert(t.drop_last() =~= sv.take(i as int));
            assert(t.last() == sps@[i as int]@);
        }
        let ghost before = names_view(out@);
        if is_clock_path(&sps[i].io_path) {
            out.push(sps[i].name.clone());
            assert(names_view(out@) =~= before + seq![sps@[i as int].name@]);
        } else {
            assert(before + Seq::<Seq<char>>::empty() =~= before);
        }
        i = i + 1;
    }
    assert(sv.take(sps.len() as int) =~= sv);
    out
}

fn contains_string(v: &Vec<String>, x: &String) -> (r: bool)
    ensures
        r == names_view(v@).contains(x@),
{
    let mut i: usize = 0;
    while i < v.len()
        invariant
            i <= v.len(),
            forall|k: int| 0 <= k < i ==> v@[k]@ != x@,
        decreases v.len() - i,
    {
        if v[i] == *x {
            assert(names_view(v@)[i as int] == x@);
            return true;
        }
        i = i + 1;
    }
    assert forall|k: int| 0 <= k < names_view(v@).len() implies names_view(v@)[k] != x@ by {}
    false
}

/// The modes of the scheme's dispatch declarations for `<clock>.tick`.
fn tick_dispatch_modes(ds: &Vec<crate::ast::DispatchDecl>, spines: &Vec<String>) -> (r: Vec<DispatchMode>)
    ensures
        r@.map_values(|m: DispatchMode| m@) == tick_modes(
            ds@.map_values(|d: crate::ast::DispatchDecl| d@),
            names_view(spines@),
        ),
{
    let ghost dv = ds@.map_values(|d: crate::ast::DispatchDecl| d@);
    let ghost sp = names_view(spines@);
    let mut out: Vec<DispatchMode> = Vec::new();
    let mut i: usize = 0;
    assert(out@.map_values(|m: DispatchMode| m@) =~= tick_modes(dv.take(0), sp));
    while i < ds.len()
        invariant
            i <= ds.len(),
            dv == ds@.map_values(|d: crate::ast::DispatchDecl| d@),
            sp == names_view(spines@),
            out@.map_values(|m: DispatchMode| m@) == tick_modes(dv.take(i as int), sp),
        decreases ds.len() - i,
    {
        proof {
            let t = dv.take(i + 1);
            assert(t.drop_last() =~= dv.take(i as int));
            assert(t.last() == ds@[i as int]@);
        }
        let ghost before = out@.map_values(|m: DispatchMode| m@);
        let hit = contains_string(spines, &ds[i].event.spine)
            && string_is(&ds[i].event.event, &['t', 'i', 'c', 'k']);
        if hit {
            let m = copy_dispatch_mode(&ds[i].mode);
            out.push(m);
            assert(out@.map_values(|m: DispatchMode| m@) =~= before + seq![ds@[i as int].mode@]);
        } else {
            assert(before + Seq::<SpecMode>::empty() =~= before);
        }
        i = i + 1;
    }
    assert(dv.take(ds.len() as int) =~= dv);
    out
}

proof fn lemma_run_modes_err(scheme: Seq<char>, fs: Seq<SpecFacetRt>, modes: Seq<SpecMode>, j: int)
    requires
        0 <= j <= modes.len(),
        run_modes(scheme, fs, modes.take(j)).0 is Err,
    ensures
        run_modes(scheme, fs, modes) == run_modes(scheme, fs, modes.take(j)),
    decreases modes.len() - j,
{
    if j < modes.len() {
        assert(modes.take(j + 1).drop_last() =~= modes.take(j));
        lemma_run_modes_err(scheme, fs, modes, j + 1);
    } else {
        assert(modes.take(j) =~= modes);
    }
}

pub open spec fn with_facets(s: SpecSchemeRt, fs: Seq<SpecFacetRt>) -> SpecSchemeRt {
    SpecSchemeRt { facets: fs, ..s }
}

/// Delivers one tick to a scheme: finds its clock spines and the
/// dispatch declarations for `<clock>.tick`, and runs the tick handlers
/// of its facet instances accordingly.
pub fn dispatch_tick(scheme: &mut SchemeRuntime, tick_n: u64, sink: &mut VecSink) -> (r: Result<(), String>)
    ensures
        ({
            let (res, fs, evs) = tick_scheme(old(scheme)@);
            &&& unit_result(r) == res
            &&& final(scheme)@ == with_facets(old(scheme)@, fs)
            &&& final(sink).log() == old(sink).log() + evs
        }),
{
    let ghost s0 = scheme@;
    let spines = clock_spine_names(&scheme.io_spines);
    if spines.len() == 0 {
        assert(sink.log() =~= old(sink).log() + Seq::<SpecEvent>::empty());
        assert(scheme@ =~= with_facets(s0, s0.facets));
        return Ok(());
    }
    let modes = tick_dispatch_modes(&scheme.dispatch, &spines);
    let name = scheme.name.clone();
    if modes.len() == 0 {
        let r = run_handlers_for_tick(&name, &mut scheme.facets, None, sink);
        assert(scheme@ =~= with_facets(s0, facets_view(scheme.facets@)));
        return r;
    }
    let ghost mv = modes@.map_values(|m: DispatchMode| m@);
    let ghost log0 = sink.log();
    let mut i: usize = 0;
    assert(mv.take(0) =~= Seq::<SpecMode>::empty());
    assert(log0 + Seq::<SpecEvent>::empty() =~= log0);
    assert(scheme@ =~= with_facets(s0, s0.facets));
    assert(tick_scheme(s0) == run_modes(s0.name, s0.facets, mv));
    while i < modes.len()
        invariant
            i <= modes.len(),
            tick_scheme(s0) == run_modes(s0.name, s0.facets, mv),
            mv == modes@.map_values(|m: DispatchMode| m@),
            mv == tick_modes(s0.dispatch, clock_spines(s0.io_spines)),
            name@ == s0.name,
            log0 == old(sink).log(),
            s0 == old(scheme)@,
            run_modes(s0.name, s0.facets, mv.take(i as int)).0 == Ok::<(), Seq<char>>(()),
            scheme@ == with_facets(s0, run_modes(s0.name, s0.facets, mv.take(i as int)).1),
            sink.log() == log0 + run_modes(s0.name, s0.facets, mv.take(i as int)).2,
        decreases modes.len() - i,
    {
        proof {
            let t = mv.take(i + 1);
            assert(t.drop_last() =~= mv.take(i as int));
            assert(t.last() == modes@[i as int]@);
        }
        let ghost prev = run_modes(s0.name, s0.facets, mv.take(i as int));
        let r = match &modes[i] {
            DispatchMode::Sequence(insts) => run_handlers_for_tick(&name, &mut scheme.facets, Some(insts), sink),
            _ => run_handlers_for_tick(&name, &mut scheme.facets, None, sink),
        };
        assert(scheme@ =~= with_facets(s0, facets_view(scheme.facets@)));
        assert(run_modes(s0.name, s0.facets, mv.take(i + 1)).1 == facets_view(scheme.facets@));
        assert(run_modes(s0.name, s0.facets, mv.take(i + 1)).0 == unit_result(r));
        match r {
            Ok(_) => {},
            Err(m) => {
                proof {
                    assert(sink.log() =~= log0 + run_modes(s0.name, s0.facets, mv.take(i + 1)).2);
                    lemma_run_modes_err(s0.name, s0.facets, mv, i + 1);
                }
                return Err(m);
            },
        }
        i = i + 1;
        assert(sink.log() =~= log0 + run_modes(s0.name, s0.facets, mv.take(i as int)).2);
    }
    assert(mv.take(modes.len() as int) =~= mv);
    Ok(())
}

pub open spec fn schemes_view(v: Seq<SchemeRuntime>) -> Seq<SpecSchemeRt> {
    v.map_values(|s: SchemeRuntime| s@)
}

proof fn lemma_tick_all_len(ss: Seq<SpecSchemeRt>)
    ensures
        tick_all(ss).1.len() == ss.len(),
    decreases ss.len(),
{
    if ss.len() > 0 {
        lemma_tick_all_len(ss.drop_last());
    }
}

proof fn lemma_tick_all_err(ss: Seq<SpecSchemeRt>, j: int)
    requires
        0 <= j <= ss.len(),
        tick_all(ss.take(j)).0 is Err,
    ensures
        tick_all(ss).0 == tick_all(ss.take(j)).0,
        tick_all(ss).1 == tick_all(ss.take(j)).1 + ss.skip(j),
        tick_all(ss).2 == tick_all(ss.take(j)).2,
    decreases ss.len() - j,
{
    if j < ss.len() {
        let t = ss.take(j + 1);
        assert(t.drop_last() =~= ss.take(j));
        assert(t.last() == ss[j]);
        lemma_tick_all_err(ss, j + 1);
        assert(tick_all(ss.take(j)).1 + ss.skip(j) =~= tick_all(ss.take(j)).1.push(ss[j]) + ss.skip(j + 1));
    } else {
        assert(ss.take(j) =~= ss);
        assert(tick_all(ss).1 + ss.skip(j) =~= tick_all(ss).1);
    }
}

/// Delivers one tick to every scheme, in order.
#[verifier::rlimit(40)]
fn tick_schemes(topology: &mut Topology, tick_n: u64, sink: &mut VecSink) -> (r: Result<(), String>)
    ensures
        ({
            let (res, ss, evs) = tick_all(old(topology)@);
            &&& unit_result(r) == res
            &&& final(topology)@ == ss
            &&& final(sink).log() == old(sink).log() + evs
        }),
{
    let ghost ss0 = topology@;
    let ghost log0 = sink.log();
    let mut i: usize = 0;
    assert(ss0.take(0) =~= Seq::<SpecSchemeRt>::empty());
    assert(topology@ =~= tick_all(ss0.take(0)).1 + ss0.skip(0));
    assert(log0 + Seq::<SpecEvent>::empty() =~= log0);
    while i < topology.schemes.len()
        invariant
            i <= topology.schemes.len(),
            topology.schemes.len() == ss0.len(),
            ss0 == old(topology)@,
            log0 == old(sink).log(),
            tick_all(ss0.take(i as int)).0 == Ok::<(), Seq<char>>(()),
            topology@ == tick_all(ss0.take(i as int)).1 + ss0.skip(i as int),
            sink.log() == log0 + tick_all(ss0.take(i as int)).2,
        decreases topology.schemes.len() - i,
    {
        let ghost prev = tick_all(ss0.take(i as int));
        proof {
            lemma_tick_all_len(ss0.take(i as int));
            let t = ss0.take(i + 1);
            assert(t.drop_last() =~= ss0.take(i as int));
            assert(t.last() == ss0[i as int]);
            assert(topology@[i as int] == ss0[i as int]);
        }
        let ghost before = topology.schemes@;
        let mut s = topology.schemes.remove(i);
        let r = dispatch_tick(&mut s, tick_n, sink);
        let ghost sv = s@;
        topology.schemes.insert(i, s);
        proof {
            assert(topology.schemes@ =~= before.update(i as int, s));
            assert(topology@ =~= (prev.1 + ss0.skip(i as int)).update(i as int, sv));
            assert((prev.1 + ss0.skip(i as int)).update(i as int, sv) =~= prev.1.push(sv) + ss0.skip(i + 1));
            assert(tick_all(ss0.take(i + 1)).1 == prev.1.push(sv));
            assert(sink.log() =~= log0 + tick_all(ss0.take(i + 1)).2);
        }
        match r {
            Ok(_) => {},
            Err(m) => {
                proof {
                    lemma_tick_all_err(ss0, i + 1);
                }
                return Err(m);
            },
        }
        i = i + 1;
    }
    proof {
        assert(ss0.take(ss0.len() as int) =~= ss0);
        assert(ss0.skip(ss0.len() as int) =~= Seq::<SpecSchemeRt>::empty());
        assert(topology@ =~= tick_all(ss0).1);
    }
    Ok(())
}

proof fn lemma_sim_err(ss: Seq<SpecSchemeRt>, j: nat, k: nat)
    requires
        j <= k,
        sim(ss, j).0 is Err,
    ensures
        sim(ss, k) == sim(ss, j),
    decreases k - j,
{
    if j < k {
        lemma_sim_err(ss, j, (k - 1) as nat);
    }
}

/// Runs the sim clock for `ticks` ticks, numbered from 0: each tick emits
/// a `tick` event and is delivered to every scheme in order. The first
/// handler error stops the run.
pub fn run_sim(topology: &mut Topology, ticks: u64, sink: &mut VecSink) -> (r: Result<(), String>)
    ensures
        ({
            let (res, ss, evs) = sim(old(topology)@, ticks as nat);
            &&& unit_result(r) == res
            &&& final(topology)@ == ss
            &&& final(sink).log() == old(sink).log() + evs
        }),
{
    let ghost ss0 = topology@;
    let ghost log0 = sink.log();
    let mut n: u64 = 0;
    assert(log0 + Seq::<SpecEvent>::empty() =~= log0);
    while n < ticks
        invariant
            n <= ticks,
            ss0 == old(topology)@,
            log0 == old(sink).log(),
            sim(ss0, n as nat).0 == Ok::<(), Seq<char>>(()),
            topology@ == sim(ss0, n as nat).1,
            sink.log() == log0 + sim(ss0, n as nat).2,
        decreases ticks - n,
    {
        let ghost prev = sim(ss0, n as nat);
        emit_logged(sink, Event::Tick { n });
        let r = tick_schemes(topology, n, sink);
        proof {
            assert(sink.log() =~= log0 + sim(ss0, (n + 1) as nat).2);
        }
        match r {
            Ok(_) => {},
            Err(m) => {
                proof {
                    lemma_sim_err(ss0, (n + 1) as nat, ticks as nat);
                }
                return Err(m);
            },
        }
        n = n + 1;
    }
    Ok(())
}

// ---------------------------------------------------------------------
// Laws.

/// The numbers of the `tick` events, in order.
pub open spec fn tick_numbers(evs: Seq<SpecEvent>) -> Seq<u64>
    decreases evs.len(),
{
    if evs.len() == 0 {
        Seq::empty()
    } else {
        tick_numbers(evs.drop_last()) + match evs.last() {
            SpecEvent::Tick { n } => seq![n],
            _ => Seq::empty(),
        }
    }
}

pub open spec fn no_ticks(evs: Seq<SpecEvent>) -> bool {
    forall|i: int| 0 <= i < evs.len() ==> !(#[trigger] evs[i] is Tick)
}

proof fn lemma_tick_numbers_concat(a: Seq<SpecEvent>, b: Seq<SpecEvent>)
    ensures
        tick_numbers(a + b) == tick_numbers(a) + tick_numbers(b),
    decreases b.len(),
{
    if b.len() == 0 {
        assert(a + b =~= a);
        assert(tick_numbers(a) + tick_numbers(b) =~= tick_numbers(a));
    } else {
        assert((a + b).drop_last() =~= a + b.drop_last());
        lemma_tick_numbers_concat(a, b.drop_last());
        assert(tick_numbers(a) + tick_numbers(b.drop_last()) + match b.last() {
            SpecEvent::Tick { n } => seq![n],
            _ => Seq::empty(),
        } =~= tick_numbers(a) + tick_numbers(b));
    }
}

proof fn lemma_no_ticks_numbers(evs: Seq<SpecEvent>)
    requires
        no_ticks(evs),
    ensures
        tick_numbers(evs).len() == 0,
    decreases evs.len(),
{
    if evs.len() > 0 {
        lemma_no_ticks_numbers(evs.drop_last());
        assert(!(evs[evs.len() - 1] is Tick));
    }
}

proof fn lemma_run_order_no_ticks(scheme: Seq<char>, fs: Seq<SpecFacetRt>, order: Seq<int>)
    ensures
        no_ticks(run_order(scheme, fs, order).2),
    decreases order.len(),
{
    if order.len() > 0 {
        lemma_run_order_no_ticks(scheme, fs, order.drop_last());
        let (r, fs1, evs) = run_order(scheme, fs, order.drop_last());
        if r is Ok {
            let f = fs1[order.last()];
            match first_tick(f.handlers) {
                Some(h) => {
                    let hd = f.handlers[h];
                    crate::runtime::interp::law_block_emits_only_assigns(
                        hd.body,
                        crate::runtime::interp::initial_env(hd, None),
                        f.state,
                        scheme,
                        f.name,
                    );
                },
                None => {},
            }
        }
    }
}

proof fn lemma_run_modes_no_ticks(scheme: Seq<char>, fs: Seq<SpecFacetRt>, modes: Seq<SpecMode>)
    ensures
        no_ticks(run_modes(scheme, fs, modes).2),
    decreases modes.len(),
{
    if modes.len() > 0 {
        lemma_run_modes_no_ticks(scheme, fs, modes.drop_last());
        let (r, fs1, evs) = run_modes(scheme, fs, modes.drop_last());
        lemma_run_order_no_ticks(scheme, fs1, mode_order(fs1, modes.last()));
    }
}

proof fn lemma_tick_all_no_ticks(ss: Seq<SpecSchemeRt>)
    ensures
        no_ticks(tick_all(ss).2),
    decreases ss.len(),
{
    if ss.len() > 0 {
        lemma_tick_all_no_ticks(ss.drop_last());
        let s = ss.last();
        let spines = clock_spines(s.io_spines);
        let modes = tick_modes(s.dispatch, spines);
        lemma_run_order_no_ticks(s.name, s.facets, all_positions(s.facets.len()));
        lemma_run_modes_no_ticks(s.name, s.facets, modes);
    }
}

/// A run of `n` ticks that succeeds emits exactly the tick events
/// `tick 0`, ..., `tick n-1`, in order (handlers emit no tick events).
pub proof fn law_tick_events_are_numbered(ss: Seq<SpecSchemeRt>, n: nat)
    requires
        n <= u64::MAX,
        sim(ss, n).0 is Ok,
    ensures
        tick_numbers(sim(ss, n).2) == Seq::new(n, |i: int| i as u64),
    decreases n,
{
    if n > 0 {
        let (r, ss1, evs) = sim(ss, (n - 1) as nat);
        law_tick_events_are_numbered(ss, (n - 1) as nat);
        lemma_tick_all_no_ticks(ss1);
        let evs2 = tick_all(ss1).2;
        lemma_no_ticks_numbers(evs2);
        let t = evs.push(SpecEvent::Tick { n: (n - 1) as u64 });
        lemma_tick_numbers_concat(t, evs2);
        assert(t.drop_last() =~= evs);
        assert(tick_numbers(t) + tick_numbers(evs2) =~= Seq::new(n, |i: int| i as u64));
    } else {
        assert(tick_numbers(sim(ss, n).2) =~= Seq::new(n, |i: int| i as u64));
    }
}

/// A scheme with no spine bound to `io.sim.clock` takes no part in a
/// tick: nothing runs, nothing is emitted, its facets stay as they were.
pub proof fn law_no_clock_spine_no_tick(s: SpecSchemeRt)
    requires
        forall|i: int| 0 <= i < s.io_spines.len() ==> (#[trigger] s.io_spines[i]).io_path != clock_path(),
    ensures
        tick_scheme(s) == (Ok::<(), Seq<char>>(()), s.facets, Seq::<SpecEvent>::empty()),
{
    lemma_clock_spines_empty(s.io_spines);
}

proof fn lemma_clock_spines_empty(sps: Seq<SpecSpine>)
    requires
        forall|i: int| 0 <= i < sps.len() ==> (#[trigger] sps[i]).io_path != clock_path(),
    ensures
        clock_spines(sps).len() == 0,
    decreases sps.len(),
{
    if sps.len() > 0 {
        let t = sps.drop_last();
        assert forall|i: int| 0 <= i < t.len() implies (#[trigger] t[i]).io_path != clock_path() by {
            assert(t[i] == sps[i]);
        }
        lemma_clock_spines_empty(t);
        assert(sps.last() == sps[sps.len() - 1]);
    }
}

/// With no dispatch declaration for the clock's tick, every facet
/// instance takes the tick, in order.
pub proof fn law_default_dispatch_runs_all(s: SpecSchemeRt)
    requires
        clock_spines(s.io_spines).len() > 0,
        tick_modes(s.dispatch, clock_spines(s.io_spines)).len() == 0,
    ensures
        tick_scheme(s) == run_order(s.name, s.facets, all_positions(s.facets.len())),
{
}

// ---------------------------------------------------------------------
// Which instances take a tick.

/// Some handler of `f` is for `tick`.
pub open spec fn has_tick_handler(f: SpecFacetRt) -> bool {
    exists|j: int| 0 <= j < f.handlers.len() && (#[trigger] f.handlers[j]).message_type == seq![w_tick()]
}

proof fn lemma_first_tick_some(hs: Seq<SpecHandler>)
    ensures
        match first_tick(hs) {
            Some(h) => 0 <= h < hs.len() && hs[h].message_type == seq![w_tick()],
            None => forall|j: int| 0 <= j < hs.len() ==> (#[trigger] hs[j]).message_type != seq![w_tick()],
        },
    decreases hs.len(),
{
    if hs.len() > 0 {
        let t = hs.drop_first();
        lemma_first_tick_some(t);
        assert forall|j: int| 0 < j < hs.len() implies #[trigger] hs[j] == t[j - 1] by {}
    }
}

/// Running instances keeps each instance's name and handlers; only
/// states change.
proof fn lemma_run_order_keeps(scheme: Seq<char>, fs: Seq<SpecFacetRt>, order: Seq<int>)
    requires
        forall|k: int| 0 <= k < order.len() ==> 0 <= #[trigger] order[k] < fs.len(),
    ensures
        ({
            let fs1 = run_order(scheme, fs, order).1;
            &&& fs1.len() == fs.len()
            &&& forall|i: int|
                0 <= i < fs.len() ==> (#[trigger] fs1[i]).name == fs[i].name && fs1[i].handlers
                    == fs[i].handlers
        }),
    decreases order.len(),
{
    if order.len() > 0 {
        let o = order.drop_last();
        assert forall|k: int| 0 <= k < o.len() implies 0 <= #[trigger] o[k] < fs.len() by {
            assert(o[k] == order[k]);
        }
        lemma_run_order_keeps(scheme, fs, o);
        assert(0 <= order.last() < fs.len()) by {
            assert(order.last() == order[order.len() - 1]);
        }
    }
}

/// An instance without a `tick` handler takes no part in a tick: adding
/// it to the run order changes neither the result, nor any instance, nor
/// the events.
pub proof fn law_no_tick_handler_no_run(scheme: Seq<char>, fs: Seq<SpecFacetRt>, order: Seq<int>, idx: int)
    requires
        0 <= idx < fs.len(),
        forall|k: int| 0 <= k < order.len() ==> 0 <= #[trigger] order[k] < fs.len(),
        forall|j: int|
            0 <= j < fs[idx].handlers.len() ==> (#[trigger] fs[idx].handlers[j]).message_type != seq![
                w_tick(),
            ],
    ensures
        run_order(scheme, fs, order.push(idx)) == run_order(scheme, fs, order),
        run_order(scheme, fs, seq![idx]) == (Ok::<(), Seq<char>>(()), fs, Seq::<SpecEvent>::empty()),
{
    lemma_run_order_keeps(scheme, fs, order);
    let fs1 = run_order(scheme, fs, order).1;
    lemma_first_tick_some(fs1[idx].handlers);
    assert(order.push(idx).drop_last() =~= order);
    lemma_first_tick_some(fs[idx].handlers);
    let one = seq![idx];
    assert(one.drop_last() =~= Seq::<int>::empty());
    assert(one.last() == idx);
    assert(run_order(scheme, fs, Seq::<int>::empty()) == (Ok::<(), Seq<char>>(()), fs, Seq::<SpecEvent>::empty()));
}

/// Every `handler_return` a run emits is a `tick` return of an instance
/// that has a `tick` handler; handlers themselves emit only
/// `state_assign` events.
pub proof fn law_handler_returns_come_from_tick_handlers(
    scheme: Seq<char>,
    fs: Seq<SpecFacetRt>,
    order: Seq<int>,
)
    requires
        forall|k: int| 0 <= k < order.len() ==> 0 <= #[trigger] order[k] < fs.len(),
    ensures
        ({
            let evs = run_order(scheme, fs, order).2;
            forall|n: int|
                0 <= n < evs.len() ==> ((#[trigger] evs[n]) is StateAssign || (evs[n] matches SpecEvent::HandlerReturn {
                    scheme: sc,
                    instance,
                    message,
                    ..
                } && sc == scheme && message == w_tick() && exists|i: int|
                    0 <= i < fs.len() && fs[i].name == instance && has_tick_handler(fs[i])))
        }),
    decreases order.len(),
{
    if order.len() > 0 {
        let o = order.drop_last();
        assert forall|k: int| 0 <= k < o.len() implies 0 <= #[trigger] o[k] < fs.len() by {
            assert(o[k] == order[k]);
        }
        law_handler_returns_come_from_tick_handlers(scheme, fs, o);
        lemma_run_order_keeps(scheme, fs, o);
        let (r, fs1, evs) = run_order(scheme, fs, o);
        let idx = order.last();
        assert(0 <= idx < fs.len()) by {
            assert(order.last() == order[order.len() - 1]);
        }
        if r is Ok {
            let f = fs1[idx];
            lemma_first_tick_some(f.handlers);
            match first_tick(f.handlers) {
                Some(h) => {
                    let hd = f.handlers[h];
                    crate::runtime::interp::law_block_emits_only_assigns(
                        hd.body,
                        crate::runtime::interp::initial_env(hd, None),
                        f.state,
                        scheme,
                        f.name,
                    );
                    assert(has_tick_handler(fs[idx]));
                    let all = run_order(scheme, fs, order).2;
                    let x = handler_outcome(f.handlers[h], None, f.state, scheme, f.name);
                    assert forall|n: int| evs.len() <= n < all.len() implies ((#[trigger] all[n]) is StateAssign
                        || (all[n] matches SpecEvent::HandlerReturn { scheme: sc, instance, message, .. }
                        && sc == scheme && message == w_tick() && exists|i: int|
                        0 <= i < fs.len() && fs[i].name == instance && has_tick_handler(fs[i]))) by {
                        if n < evs.len() + x.evs.len() {
                            assert(all[n] == x.evs[n - evs.len()]);
                        }
                    }
                    assert forall|n: int| 0 <= n < evs.len() implies #[trigger] all[n] == evs[n] by {}
                },
                None => {},
            }
        }
    }
}

} // verus!
