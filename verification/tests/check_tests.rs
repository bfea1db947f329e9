use urchin::parser::parse;
use urchin::types::check;

#[test]
fn empty_module_passes() {
    let m = parse("").expect("parse");
    check(&m).expect("nothing to check");
}

#[test]
fn module_with_only_facets_passes() {
    let src = "facet hunger { /// _handlers on tick {} }";
    let m = parse(src).expect("parse");
    check(&m).expect("no schemes, no problem");
}

#[test]
fn dispatch_passes_when_two_handlers_have_explicit_dispatch() {
    let src = "
        facet hunger { /// _handlers on tick {} }
        facet voice  { /// _handlers on tick {} }
        scheme mind {
          /// _io
          clock: io.sim.clock
          /// _facets
          hunger(clock)
          voice(clock)
          /// _dispatch_scripts
          on clock.tick sequence(hunger -> voice)
        }
    ";
    let m = parse(src).expect("parse");
    check(&m).expect("dispatch decl satisfies the rule");
}

#[test]
fn dispatch_fails_when_two_handlers_lack_dispatch() {
    let src = "
        facet hunger { /// _handlers on tick {} }
        facet voice  { /// _handlers on tick {} }
        scheme mind {
          /// _io
          clock: io.sim.clock
          /// _facets
          hunger(clock)
          voice(clock)
        }
    ";
    let m = parse(src).expect("parse");
    let errs = check(&m).expect_err("should fail — no dispatch");
    assert_eq!(errs.len(), 1);
    assert!(errs[0].message.contains("tick"));
    assert!(errs[0].message.contains("hunger"));
    assert!(errs[0].message.contains("voice"));
    assert!(errs[0].message.contains("dispatch"));
}

#[test]
fn dispatch_passes_when_only_one_handler() {
    let src = "
        facet hunger { /// _handlers on tick {} }
        scheme mind {
          /// _io
          clock: io.sim.clock
          /// _facets
          hunger(clock)
        }
    ";
    let m = parse(src).expect("parse");
    check(&m).expect("one handler needs no dispatch");
}

#[test]
fn dispatch_passes_with_three_handlers_and_sequence_chain() {
    let src = "
        facet a { /// _handlers on tick {} }
        facet b { /// _handlers on tick {} }
        facet c { /// _handlers on tick {} }
        scheme mind {
          /// _io
          clock: io.sim.clock
          /// _facets
          a(clock)
          b(clock)
          c(clock)
          /// _dispatch_scripts
          on clock.tick sequence(a -> b -> c)
        }
    ";
    let m = parse(src).expect("parse");
    check(&m).expect("three-stage sequence satisfies the rule");
}

#[test]
fn dispatch_passes_with_parallel_mode() {
    let src = "
        facet a { /// _handlers on tick {} }
        facet b { /// _handlers on tick {} }
        scheme mind {
          /// _io
          clock: io.sim.clock
          /// _facets
          a(clock)
          b(clock)
          /// _dispatch_scripts
          on clock.tick parallel
        }
    ";
    let m = parse(src).expect("parse");
    check(&m).expect("parallel dispatch satisfies the rule");
}

#[test]
fn spine_with_undeclared_io_path_errors() {
    let src = "
        scheme persona @ root {
          /// _io
          assistant: io.frobnicator
          /// _facets
        }
        scheme root {
          /// _io
          peers: io.sim.comms.peer
        }
    ";
    let m = parse(src).expect("parse");
    let errs = check(&m).expect_err("undeclared io path should fail");
    assert!(errs.iter().any(|e| e.message.contains("frobnicator")));
}

#[test]
fn spine_with_user_declared_io_passes() {
    let src = "
        io llm {
          /// _requests
          ask(prompt: str) -> str
        }
        scheme persona @ root {
          /// _io
          assistant: io.llm
          /// _facets
        }
        scheme root {
          /// _io
          peers: io.sim.comms.peer
        }
    ";
    let m = parse(src).expect("parse");
    check(&m).expect("declared io spine should pass");
}

#[test]
fn spine_with_sim_primitive_passes() {
    let src = "
        scheme persona @ root {
          /// _io
          clock: io.sim.clock
          /// _facets
        }
        scheme root {
          /// _io
          peers: io.sim.comms.peer
        }
    ";
    let m = parse(src).expect("parse");
    check(&m).expect("sim primitive should pass");
}

#[test]
fn dispatch_passes_with_async_mode() {
    let src = "
        facet a { /// _handlers on tick {} }
        facet b { /// _handlers on tick {} }
        scheme mind {
          /// _io
          clock: io.sim.clock
          /// _facets
          a(clock)
          b(clock)
          /// _dispatch_scripts
          on clock.tick async
        }
    ";
    let m = parse(src).expect("parse");
    check(&m).expect("async dispatch satisfies the rule");
}

#[test]
fn dispatch_error_message_is_exact_and_sorted() {
    let src = "
        facet voice  { /// _handlers on io.sim.tick {} }
        facet hunger { /// _handlers on io.sim.tick {} }
        scheme mind {
          /// _io
          clock: io.sim.clock
          /// _facets
          voice(clock)
          hunger(clock)
        }
    ";
    let m = parse(src).expect("parse");
    let errs = check(&m).expect_err("no dispatch");
    assert_eq!(errs.len(), 1);
    assert_eq!(
        errs[0].message,
        "scheme `mind` composes 2 facets that handle `io.sim.tick` (hunger, voice); a dispatch declaration `on <spine>.tick <mode>` is required"
    );
    assert_eq!(errs[0].span, 0..0);
}

#[test]
fn spine_error_message_is_exact() {
    let src = "scheme s { /// _io x: io.foo.bar }";
    let m = parse(src).expect("parse");
    let errs = check(&m).expect_err("unknown path");
    assert_eq!(
        errs[0].message,
        "scheme `s` binds spine `x: io.foo.bar` to an unknown io path; declare `io foo { ... }` or use a built-in `io.sim.*` primitive"
    );
}

#[test]
fn same_facet_twice_counts_once() {
    let src = "
        facet a { /// _handlers on tick {} }
        scheme mind {
          /// _io
          clock: io.sim.clock
          /// _facets
          a(clock)
          a(clock)
        }
    ";
    let m = parse(src).expect("parse");
    check(&m).expect("one distinct facet handles tick");
}
