//! The structured event log of a run.
//!
//! Every interesting moment of a run is one event:
//!   - `scheme_instantiated`
//!   - `facet_instantiated`
//!   - `tick`
//!   - `state_assign` (a state field takes a new value)
//!   - `handler_return`
//!
//! The runtime appends events to a `VecSink`; whoever runs it decides
//! where they go (the command line writes one JSON object per line).
use vstd::prelude::*;

use crate::runtime::env::Bindings;
use crate::runtime::value::{pairs_view, SpecValue, Value};

verus! {

#[derive(Debug)]
pub enum Event {
    SchemeInstantiated { scheme: String, parent: Option<String> },
    FacetInstantiated { scheme: String, instance: String, state: Vec<(String, Value)> },
    Tick { n: u64 },
    StateAssign {
        scheme: String,
        instance: String,
        field: String,
        old_value: Value,
        new_value: Value,
    },
    HandlerReturn { scheme: String, instance: String, message: String, value: Value },
}

/// The model of an event.
pub enum SpecEvent {
    SchemeInstantiated { scheme: Seq<char>, parent: Option<Seq<char>> },
    FacetInstantiated { scheme: Seq<char>, instance: Seq<char>, state: Bindings },
    Tick { n: u64 },
    StateAssign {
        scheme: Seq<char>,
        instance: Seq<char>,
        field: Seq<char>,
        old_value: SpecValue,
        new_value: SpecValue,
    },
    HandlerReturn { scheme: Seq<char>, instance: Seq<char>, message: Seq<char>, value: SpecValue },
}

impl View for Event {
    type V = SpecEvent;

    open spec fn view(&self) -> SpecEvent {
        match self {
            Event::SchemeInstantiated { scheme, parent } => SpecEvent::SchemeInstantiated {
                scheme: scheme@,
                parent: match parent {
                    Some(p) => Some(p@),
                    None => None,
                },
            },
            Event::FacetInstantiated { scheme, instance, state } => SpecEvent::FacetInstantiated {
                scheme: scheme@,
                instance: instance@,
                state: pairs_view(state),
            },
            Event::Tick { n } => SpecEvent::Tick { n: *n },
            Event::StateAssign { scheme, instance, field, old_value, new_value } =>
                SpecEvent::StateAssign {
                scheme: scheme@,
                instance: instance@,
                field: field@,
                old_value: old_value@,
                new_value: new_value@,
            },
            Event::HandlerReturn { scheme, instance, message, value } => SpecEvent::HandlerReturn {
                scheme: scheme@,
                instance: instance@,
                message: message@,
                value: value@,
            },
        }
    }
}

pub open spec fn events_view(v: Seq<Event>) -> Seq<SpecEvent> {
    Seq::new(v.len(), |i: int| v[i]@)
}

/// A destination for events.
pub trait EventSink {
    fn emit(&mut self, event: Event);
}

/// Collects events in order.
#[derive(Debug)]
pub struct VecSink {
    pub events: Vec<Event>,
}

impl VecSink {
    pub fn new() -> (r: Self)
        ensures
            r.events@.len() == 0,
    {
        VecSink { events: Vec::new() }
    }

    /// The model of what was collected.
    pub open spec fn log(&self) -> Seq<SpecEvent> {
        events_view(self.events@)
    }
}

impl Default for VecSink {
    fn default() -> (r: Self)
        ensures
            r.events@.len() == 0,
    {
        VecSink::new()
    }
}

impl EventSink for VecSink {
    fn emit(&mut self, event: Event)
        ensures
            final(self).events@ == old(self).events@.push(event),
    {
        self.events.push(event);
    }
}

/// Emitting appends the event's model to the log.
pub proof fn lemma_log_push(before: Seq<Event>, e: Event)
    ensures
        events_view(before.push(e)) == events_view(before).push(e@),
{
    assert(events_view(before.push(e)) =~= events_view(before).push(e@));
}

} // verus!
