//! The runtime: a tree-walking interpreter for facet handlers, the
//! instantiation of a module's scheme topology, and the sim clock that
//! drives `tick` dispatch.
use vstd::prelude::*;

pub mod env;
pub mod events;
pub mod instantiate;
pub mod interp;
pub mod schedule;
pub mod value;

use crate::ast::Module;
use crate::runtime::events::VecSink;
use crate::runtime::instantiate::{build_schemes, instantiate};
use crate::runtime::schedule::{run_sim, sim, unit_result};

verus! {

/// Instantiates the topology of `module` and runs the sim clock for
/// `ticks` ticks, appending every event to `sink`.
pub fn run(module: &Module, ticks: u64, sink: &mut VecSink) -> (r: Result<(), String>)
    ensures
        ({
            let (built, build_events) = build_schemes(module@, module@.schemes);
            match built {
                Err(e) => unit_result(r) == Err::<(), Seq<char>>(e) && final(sink).log() == old(
                    sink,
                ).log() + build_events,
                Ok(t) => {
                    let (res, _, sim_events) = sim(t, ticks as nat);
                    &&& unit_result(r) == res
                    &&& final(sink).log() == old(sink).log() + build_events + sim_events
                },
            }
        }),
{
    let mut topology = match instantiate(module, sink) {
        Ok(t) => t,
        Err(e) => return Err(e),
    };
    run_sim(&mut topology, ticks, sink)
}

} // verus!
