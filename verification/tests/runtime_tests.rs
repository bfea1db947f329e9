use urchin::ast::Handler;
use urchin::parser::parse;
use urchin::runtime::env::FacetState;
use urchin::runtime::events::{Event, EventSink, VecSink};
use urchin::runtime::instantiate::instantiate;
use urchin::runtime::interp::{eval_init, run_handler};
use urchin::runtime::run;
use urchin::runtime::schedule::run_sim;
use urchin::runtime::value::Value;

fn first_handler(src: &str) -> Handler {
    let module = parse(src).expect("parse");
    let facet = module.facets.into_iter().next().expect("facet");
    facet.handlers.into_iter().next().expect("handler")
}

fn init_state(src: &str) -> FacetState {
    let module = parse(src).expect("parse");
    let facet = &module.facets[0];
    let mut state = FacetState::new();
    for f in &facet.state {
        let v = eval_init(&f.init, &state).expect("init evaluates");
        state.set(&f.name, v);
    }
    state
}

#[test]
fn evaluates_int_literal_handler() {
    let h = first_handler("facet X { /// _handlers on Tick -> int { 7 } }");
    let mut state = FacetState::new();
    let mut sink = VecSink::default();
    let v = run_handler(&h, &mut state, None, "a", "i", &mut sink).unwrap();
    assert_eq!(v, Value::Int(7));
    assert!(sink.events.is_empty());
}

#[test]
fn arithmetic_returns_correct_value() {
    let h = first_handler("facet X { /// _handlers on Tick -> int { 1 + 2 * 3 } }");
    let mut state = FacetState::new();
    let mut sink = VecSink::default();
    let v = run_handler(&h, &mut state, None, "a", "i", &mut sink).unwrap();
    assert_eq!(v, Value::Int(7));
}

#[test]
fn state_shift_increments_and_returns() {
    let src = "facet X {
                 /// _state
                 shotsTaken = 0

                 /// _handlers
                 on tick -> int {
                   shotsTaken = shotsTaken ~> shotsTaken + 1
                   shotsTaken
                 }
               }";
    let h = first_handler(src);
    let mut state = init_state(src);
    let mut sink = VecSink::default();

    let v = run_handler(&h, &mut state, None, "a", "i", &mut sink).unwrap();
    assert_eq!(v, Value::Int(1));
    assert_eq!(state.get("shotsTaken"), Some(&Value::Int(1)));

    let v2 = run_handler(&h, &mut state, None, "a", "i", &mut sink).unwrap();
    assert_eq!(v2, Value::Int(2));
    assert_eq!(state.get("shotsTaken"), Some(&Value::Int(2)));
}

#[test]
fn state_shift_emits_state_assign_event() {
    let src = "facet X {
                 /// _state shotsTaken = 0
                 /// _handlers on tick -> int { shotsTaken = shotsTaken ~> shotsTaken + 1  shotsTaken }
               }";
    let h = first_handler(src);
    let mut state = init_state(src);
    let mut sink = VecSink::default();
    run_handler(&h, &mut state, None, "creativePersona", "photographer", &mut sink).unwrap();

    let assigns: Vec<_> = sink
        .events
        .iter()
        .filter(|e| matches!(e, Event::StateAssign { .. }))
        .collect();
    assert_eq!(assigns.len(), 1);
    if let Event::StateAssign { scheme, instance, field, old_value, new_value } = assigns[0] {
        assert_eq!(scheme, "creativePersona");
        assert_eq!(instance, "photographer");
        assert_eq!(field, "shotsTaken");
        assert_eq!(*old_value, Value::Int(0));
        assert_eq!(*new_value, Value::Int(1));
    }
}

#[test]
fn local_binding_does_not_emit_state_assign() {
    let src = "facet X {
                 /// _state shotsTaken = 0
                 /// _handlers on tick -> int { tmp = shotsTaken + 1  tmp }
               }";
    let h = first_handler(src);
    let mut state = init_state(src);
    let mut sink = VecSink::default();
    let v = run_handler(&h, &mut state, None, "a", "i", &mut sink).unwrap();
    assert_eq!(v, Value::Int(1));
    assert!(
        !sink.events.iter().any(|e| matches!(e, Event::StateAssign { .. })),
        "local binding should not emit state_assign"
    );
    assert_eq!(state.get("shotsTaken"), Some(&Value::Int(0)));
}

#[test]
fn if_branch_runs_when_truthy() {
    let src = "facet X {
                 /// _state level = 0
                 /// _handlers on tick -> int {
                   if 1 > 0 { level = level ~> 42 }
                   level
                 }
               }";
    let h = first_handler(src);
    let mut state = init_state(src);
    let mut sink = VecSink::default();
    let v = run_handler(&h, &mut state, None, "a", "i", &mut sink).unwrap();
    assert_eq!(v, Value::Int(42));
}

#[test]
fn if_branch_skipped_when_falsy() {
    let src = "facet X {
                 /// _state level = 0
                 /// _handlers on tick -> int {
                   if 0 > 1 { level = level ~> 42 }
                   level
                 }
               }";
    let h = first_handler(src);
    let mut state = init_state(src);
    let mut sink = VecSink::default();
    let v = run_handler(&h, &mut state, None, "a", "i", &mut sink).unwrap();
    assert_eq!(v, Value::Int(0));
}

#[test]
fn handler_without_trailing_expr_returns_unit() {
    let src = "facet X {
                 /// _state x = 0
                 /// _handlers on tick { x = x ~> 1 }
               }";
    let h = first_handler(src);
    let mut state = init_state(src);
    let mut sink = VecSink::default();
    let v = run_handler(&h, &mut state, None, "a", "i", &mut sink).unwrap();
    assert_eq!(v, Value::Unit);
    assert_eq!(state.get("x"), Some(&Value::Int(1)));
}

#[test]
fn vec_sink_collects() {
    let mut sink = VecSink::default();
    sink.emit(Event::Tick { n: 0 });
    sink.emit(Event::Tick { n: 1 });
    assert_eq!(sink.events.len(), 2);
}

#[test]
fn emits_scheme_and_facet_instantiated_events() {
    let src = "facet hunger { /// _state level = 0  /// _handlers on tick -> int { level } }
               scheme mind { /// _io clock: io.sim.clock  /// _facets hunger(clock) }";
    let module = parse(src).expect("parse");
    let mut sink = VecSink::default();
    instantiate(&module, &mut sink).expect("instantiate");

    let scheme_events: Vec<_> = sink
        .events
        .iter()
        .filter(|e| matches!(e, Event::SchemeInstantiated { .. }))
        .collect();
    assert_eq!(scheme_events.len(), 1);

    let facet_events: Vec<_> = sink
        .events
        .iter()
        .filter(|e| matches!(e, Event::FacetInstantiated { .. }))
        .collect();
    assert_eq!(facet_events.len(), 1);

    if let Event::FacetInstantiated { scheme, instance, state } = facet_events[0] {
        assert_eq!(scheme, "mind");
        assert_eq!(instance, "hunger");
        assert_eq!(state.as_slice(), &[("level".to_string(), Value::Int(0))]);
    }
}

#[test]
fn unknown_facet_in_scheme_is_an_error() {
    let src = "scheme mind { /// _io clock: io.sim.clock  /// _facets nope(clock) }";
    let module = parse(src).expect("parse");
    let mut sink = VecSink::default();
    let err = instantiate(&module, &mut sink).unwrap_err();
    assert!(err.contains("nope"), "got: {err}");
}

// ---------------------------------------------------------------------

const AGENT: &str = "
facet photographer { /// _state shotsTaken = 0  /// _handlers on tick -> int { shotsTaken = shotsTaken ~> shotsTaken + 1  shotsTaken } }
facet writer { /// _state wordsWritten = 0  /// _handlers on tick -> int { wordsWritten = wordsWritten ~> wordsWritten + 1  wordsWritten } }
facet critic { /// _state notesGiven = 0  /// _handlers on tick -> int { notesGiven = notesGiven ~> notesGiven + 1  notesGiven } }
scheme creativePersona @ rubberDuck {
  /// _io
  clock: io.sim.clock
  /// _facets
  photographer(clock)
  writer(clock)
  critic(clock)
  /// _dispatch_scripts
  on clock.tick parallel
}
scheme rubberDuck {
  /// _io
  peers: io.sim.comms.peer
}
";

fn handler_returns(sink: &VecSink) -> Vec<(String, String, Value)> {
    sink.events
        .iter()
        .filter_map(|e| match e {
            Event::HandlerReturn { scheme, instance, value, .. } => {
                Some((scheme.clone(), instance.clone(), urchin::runtime::value::copy_value(value)))
            }
            _ => None,
        })
        .collect()
}

#[test]
fn one_tick_runs_every_handler_in_parallel_dispatch() {
    let module = parse(AGENT).expect("parse");
    let mut sink = VecSink::default();
    let mut t = instantiate(&module, &mut sink).expect("instantiate");
    let mut sink = VecSink::default();
    run_sim(&mut t, 1, &mut sink).expect("sim runs");
    let cp = t.schemes.iter().find(|a| a.name == "creativePersona").unwrap();
    for f in &cp.facets {
        let fields = f.state.fields();
        assert_eq!(fields.len(), 1);
        assert_eq!(fields[0].1, Value::Int(1), "{} did not tick", f.name);
    }
    let returns = handler_returns(&sink);
    assert_eq!(returns.len(), 3);
    assert!(returns.iter().all(|(_, _, v)| v == &Value::Int(1)));
}

#[test]
fn five_ticks_increments_each_state_to_five() {
    let module = parse(AGENT).expect("parse");
    let mut sink = VecSink::default();
    let mut t = instantiate(&module, &mut sink).expect("instantiate");
    let mut sink = VecSink::default();
    run_sim(&mut t, 5, &mut sink).expect("sim runs");
    let cp = t.schemes.iter().find(|a| a.name == "creativePersona").unwrap();
    for f in &cp.facets {
        assert_eq!(f.state.fields()[0].1, Value::Int(5), "{} expected 5", f.name);
    }
    let ticks = sink.events.iter().filter(|e| matches!(e, Event::Tick { .. })).count();
    assert_eq!(ticks, 5);
}

#[test]
fn root_actor_without_clock_spine_does_not_tick() {
    let module = parse(AGENT).expect("parse");
    let mut sink = VecSink::default();
    let mut t = instantiate(&module, &mut sink).expect("instantiate");
    let mut sink = VecSink::default();
    run_sim(&mut t, 3, &mut sink).expect("sim runs");
    assert!(handler_returns(&sink).iter().all(|(s, _, _)| s != "rubberDuck"));
}

#[test]
fn sequence_dispatch_runs_listed_instances_in_listed_order() {
    let src = "
        facet a { /// _handlers on tick -> int { 1 } }
        facet b { /// _handlers on tick -> int { 2 } }
        facet c { /// _handlers on tick -> int { 3 } }
        scheme mind {
          /// _io
          clock: io.sim.clock
          /// _facets
          a(clock)
          b(clock)
          c(clock)
          /// _dispatch_scripts
          on clock.tick sequence(c -> a)
        }";
    let module = parse(src).expect("parse");
    let mut sink = VecSink::default();
    run(&module, 1, &mut sink).expect("runs");
    let order: Vec<String> = handler_returns(&sink).into_iter().map(|(_, i, _)| i).collect();
    assert_eq!(order, vec!["c".to_string(), "a".to_string()]);
}

#[test]
fn garden_arcade_example_runs_end_to_end() {
    let src = "
        facet poster {
          /// _state
          postsWritten = 0
          isHot = 0
          /// _handlers
          on tick -> int {
            postsWritten = postsWritten ~> postsWritten + 1
            if postsWritten > 2 { isHot = isHot ~> 1 }
            postsWritten
          }
        }
        facet reactor { /// _state reactionsGiven = 0  /// _handlers on tick { reactionsGiven = reactionsGiven ~> reactionsGiven + 2 } }
        facet lurker { /// _state minutesScrolled = 0  /// _handlers on tick { minutesScrolled = minutesScrolled ~> minutesScrolled + 5 } }
        scheme feedUser {
          /// _io
          clock: io.sim.clock
          /// _facets
          poster(clock)
          reactor(clock)
          lurker(clock)
          /// _dispatch_scripts
          on clock.tick parallel
        }";
    let module = parse(src).expect("parse");
    let mut sink = VecSink::default();
    let mut t = instantiate(&module, &mut sink).expect("instantiate");
    run_sim(&mut t, 5, &mut sink).expect("sim runs");
    let user = t.schemes.iter().find(|a| a.name == "feedUser").expect("feedUser");
    let poster = user.facets.iter().find(|r| r.name == "poster").expect("poster");
    assert_eq!(poster.state.get("postsWritten"), Some(&Value::Int(5)));
    assert_eq!(poster.state.get("isHot"), Some(&Value::Int(1)));
    let reactor = user.facets.iter().find(|r| r.name == "reactor").expect("reactor");
    assert_eq!(reactor.state.get("reactionsGiven"), Some(&Value::Int(10)));
    let lurker = user.facets.iter().find(|r| r.name == "lurker").expect("lurker");
    assert_eq!(lurker.state.get("minutesScrolled"), Some(&Value::Int(25)));
}

#[test]
fn instantiates_scheme_tree_from_agent_example() {
    let module = parse(AGENT).expect("parse");
    let mut sink = VecSink::default();
    let topo = instantiate(&module, &mut sink).expect("instantiate");
    assert_eq!(topo.schemes.len(), 2);
    let names: Vec<&str> = topo.schemes.iter().map(|a| a.name.as_str()).collect();
    assert!(names.contains(&"creativePersona"));
    assert!(names.contains(&"rubberDuck"));
    let cp = topo.schemes.iter().find(|a| a.name == "creativePersona").unwrap();
    assert_eq!(cp.facets.len(), 3);
    for facet in &cp.facets {
        let fields = facet.state.fields();
        assert_eq!(fields.len(), 1);
        assert_eq!(fields[0].1, Value::Int(0));
    }
}

#[test]
fn integer_overflow_is_an_error() {
    let h = first_handler("facet X { /// _handlers on tick { 9223372036854775807 + 1 } }");
    let mut state = FacetState::new();
    let mut sink = VecSink::default();
    let err = run_handler(&h, &mut state, None, "a", "i", &mut sink).unwrap_err();
    assert_eq!(err, "attempt to add with overflow");
}

#[test]
fn division_truncates_toward_zero_and_rejects_zero() {
    let h = first_handler("facet X { /// _handlers on tick { 7 / 2 } }");
    let mut state = FacetState::new();
    let mut sink = VecSink::default();
    assert_eq!(run_handler(&h, &mut state, None, "a", "i", &mut sink).unwrap(), Value::Int(3));
    let h = first_handler("facet X { /// _handlers on tick { 0 - 7 / 2 } }");
    assert_eq!(run_handler(&h, &mut state, None, "a", "i", &mut sink).unwrap(), Value::Int(-3));
    let h = first_handler("facet X { /// _handlers on tick { 1 / 0 } }");
    assert_eq!(
        run_handler(&h, &mut state, None, "a", "i", &mut sink).unwrap_err(),
        "attempt to divide by zero"
    );
}

#[test]
fn unbound_name_and_unsupported_forms_are_errors() {
    let mut state = FacetState::new();
    let mut sink = VecSink::default();
    let h = first_handler("facet X { /// _handlers on tick { nope } }");
    assert_eq!(run_handler(&h, &mut state, None, "a", "i", &mut sink).unwrap_err(), "unbound name: nope");
    let h = first_handler("facet X { /// _handlers on tick { f(1) } }");
    assert_eq!(
        run_handler(&h, &mut state, None, "a", "i", &mut sink).unwrap_err(),
        "call to `f` not supported in milestone-1 runtime"
    );
    let h = first_handler("facet X { /// _handlers on tick { \"a\" + 1 } }");
    assert_eq!(
        run_handler(&h, &mut state, None, "a", "i", &mut sink).unwrap_err(),
        "unsupported op Add on Str(\"a\") / Int(1)"
    );
    let h = first_handler("facet X { /// _handlers on tick { [1, 2].x } }");
    assert_eq!(
        run_handler(&h, &mut state, None, "a", "i", &mut sink).unwrap_err(),
        "field access on non-record: List([Int(1), Int(2)])"
    );
}

#[test]
fn message_binding_is_visible_to_the_handler() {
    let h = first_handler("facet X { /// _handlers on Msg m -> int { m + 1 } }");
    let mut state = FacetState::new();
    let mut sink = VecSink::default();
    let v = run_handler(&h, &mut state, Some(Value::Int(41)), "a", "i", &mut sink).unwrap();
    assert_eq!(v, Value::Int(42));
}

#[test]
fn comparisons_yield_one_or_zero() {
    let mut state = FacetState::new();
    let mut sink = VecSink::default();
    let h = first_handler("facet X { /// _handlers on tick { 3 == 3 } }");
    assert_eq!(run_handler(&h, &mut state, None, "a", "i", &mut sink).unwrap(), Value::Int(1));
    let h = first_handler("facet X { /// _handlers on tick { 3 < 2 } }");
    assert_eq!(run_handler(&h, &mut state, None, "a", "i", &mut sink).unwrap(), Value::Int(0));
}

#[test]
fn state_set_then_get_and_insertion_order() {
    let mut st = FacetState::new();
    st.set("b", Value::Int(1));
    st.set("a", Value::Int(2));
    st.set("b", Value::Int(3));
    assert_eq!(st.get("b"), Some(&Value::Int(3)));
    assert_eq!(st.get("a"), Some(&Value::Int(2)));
    assert!(st.contains("a"));
    assert!(!st.contains("c"));
    let names: Vec<&str> = st.fields().iter().map(|(n, _)| n.as_str()).collect();
    assert_eq!(names, vec!["b", "a"]);
}

#[test]
fn value_as_int() {
    assert_eq!(Value::Int(5).as_int(), Some(5));
    assert_eq!(Value::Unit.as_int(), None);
}

#[test]
fn handler_changes_state_only_through_its_events() {
    let src = "facet X { /// _state a = 1  b = 2  /// _handlers on t { a = a ~> 10  c = 5  b = b ~> a + 1  a = a ~> 3 } }";
    let module = parse(src).expect("parse");
    let h = &module.facets[0].handlers[0];
    let mut state = FacetState::new();
    state.set("a", Value::Int(1));
    state.set("b", Value::Int(2));
    let mut sink = VecSink::default();
    run_handler(h, &mut state, None, "s", "x", &mut sink).expect("runs");
    let names: Vec<String> = state.fields().iter().map(|(k, _)| k.clone()).collect();
    assert_eq!(names, vec!["a".to_string(), "b".to_string()]);
    let assigns: Vec<(String, Value, Value)> = sink
        .events
        .iter()
        .filter_map(|e| match e {
            Event::StateAssign { field, old_value, new_value, .. } => Some((
                field.clone(),
                urchin::runtime::value::copy_value(old_value),
                urchin::runtime::value::copy_value(new_value),
            )),
            _ => None,
        })
        .collect();
    assert_eq!(sink.events.len(), 3);
    assert_eq!(
        assigns,
        vec![
            ("a".to_string(), Value::Int(1), Value::Int(10)),
            ("b".to_string(), Value::Int(2), Value::Int(11)),
            ("a".to_string(), Value::Int(10), Value::Int(3)),
        ]
    );
    assert_eq!(state.get("a"), Some(&Value::Int(3)));
    assert_eq!(state.get("b"), Some(&Value::Int(11)));
}
