use urchin::ast::{BinOp, DispatchMode, Expr, IoInterfaceEntry, Stmt, TypeExpr};
use urchin::lexer::{lex, Token};
use urchin::parser::parse;

fn round_trip(src: &str) -> String {
    let m1 = parse(src).expect("first parse");
    let f1 = urchin::printer::format(&m1);
    let m2 = parse(&f1).unwrap_or_else(|errs| panic!("re-parse failed:\n{f1}\nerrs: {errs:?}"));
    assert_eq!(m1, m2, "re-parse gave another module:\n{f1}");
    let f2 = urchin::printer::format(&m2);
    assert_eq!(f1, f2, "round-trip diverged");
    f1
}

#[test]
fn lexes_keywords_idents_and_punctuation() {
    let toks = lex("on tick -> int { x ~> 1 }").expect("lex");
    let kinds: Vec<&Token> = toks.iter().map(|(t, _)| t).collect();
    assert_eq!(kinds.len(), 9);
    assert_eq!(*kinds[0], Token::KwOn);
    assert_eq!(*kinds[1], Token::Ident("tick".to_string()));
    assert_eq!(*kinds[2], Token::Arrow);
    assert_eq!(*kinds[5], Token::Ident("x".to_string()));
    assert_eq!(*kinds[6], Token::StateShift);
    assert_eq!(*kinds[7], Token::Int(1));
}

#[test]
fn lexes_section_markers_and_skips_comments() {
    let toks = lex("/// _state\n/// a plain comment\nx").expect("lex");
    assert_eq!(toks.len(), 2);
    assert_eq!(toks[0].0, Token::Section("state".to_string()));
    assert_eq!(toks[1].0, Token::Ident("x".to_string()));
    assert_eq!(toks[1].1.start, 31);
}

#[test]
fn lex_error_on_stray_character() {
    let errs = lex("x # y").expect_err("stray #");
    assert_eq!(errs.len(), 1);
    assert_eq!(errs[0].span, 2..3);
}

#[test]
fn empty_input_parses_to_empty_module() {
    let m = parse("").expect("parse");
    assert!(m.facets.is_empty() && m.schemes.is_empty() && m.io_decls.is_empty());
}

#[test]
fn unrecognized_top_level_token_is_an_error() {
    assert!(parse("banana").is_err());
}

#[test]
fn parses_facet_with_state_and_handler() {
    let m = parse("facet hunger { /// _state level: int = 0  /// _handlers on io.sim.tick t -> int { level } }")
        .expect("parse");
    let f = &m.facets[0];
    assert_eq!(f.name, "hunger");
    assert_eq!(f.state[0].name, "level");
    assert_eq!(f.state[0].ty, Some(TypeExpr::Path(vec!["int".to_string()])));
    assert_eq!(f.state[0].init, Expr::Int(0));
    let h = &f.handlers[0];
    assert_eq!(h.message_type, vec!["io".to_string(), "sim".to_string(), "tick".to_string()]);
    assert_eq!(h.binding, Some("t".to_string()));
    assert_eq!(h.body, vec![Stmt::ExprStmt(Expr::Ident("level".to_string()))]);
}

#[test]
fn arithmetic_binds_tighter_than_comparison() {
    let m = parse("facet X { /// _handlers on t { 1 + 2 * 3 > 4 } }").expect("parse");
    match &m.facets[0].handlers[0].body[0] {
        Stmt::ExprStmt(Expr::Binary(BinOp::Gt, l, _)) => match &**l {
            Expr::Binary(BinOp::Add, _, r) => {
                assert!(matches!(&**r, Expr::Binary(BinOp::Mul, _, _)));
            }
            other => panic!("unexpected left side {other:?}"),
        },
        other => panic!("unexpected {other:?}"),
    }
}

#[test]
fn parses_scheme_with_parent_spines_instances_and_dispatch() {
    let m = parse(
        "scheme mind @ rubberDuck {
           /// _io
           clock: io.sim.clock
           /// _facets
           hunger(clock)
           voice(clock)
           /// _dispatch_scripts
           on clock.tick sequence(hunger -> voice)
         }",
    )
    .expect("parse");
    let s = &m.schemes[0];
    assert_eq!(s.parent, Some("rubberDuck".to_string()));
    assert_eq!(s.io_spines[0].io_path.len(), 3);
    assert_eq!(s.facet_instances[1].name, "voice");
    assert_eq!(s.dispatch[0].event.spine, "clock");
    assert_eq!(s.dispatch[0].event.event, "tick");
    assert_eq!(
        s.dispatch[0].mode,
        DispatchMode::Sequence(vec!["hunger".to_string(), "voice".to_string()])
    );
}

#[test]
fn round_trips_arithmetic_with_precedence() {
    let f = round_trip("facet X { /// _handlers on T { x = 1 + 2 * 3 } }");
    assert!(f.contains("x = 1 + 2 * 3"), "got:\n{f}");
}

#[test]
fn round_trips_parenthesized_arithmetic() {
    let f = round_trip("facet X { /// _handlers on T { x = (1 + 2) * 3 } }");
    assert!(f.contains("(1 + 2) * 3"), "got:\n{f}");
}

#[test]
fn round_trips_state_shift_chain() {
    round_trip("facet X { /// _state x = 0  /// _handlers on T { x = x ~> x + 1 } }");
}

#[test]
fn single_pipe_stays_inline() {
    let f = round_trip("facet X { /// _handlers on T { x = a |> b() } }");
    assert!(f.contains("x = a |> b()"), "expected inline pipe; got:\n{f}");
}

#[test]
fn round_trips_match_and_if() {
    round_trip("facet X { /// _handlers on S s { match s { Threat -> { 1 } _ -> { } } if s { y = 1 } else { y = 2 } } }");
}

#[test]
fn round_trips_scheme_and_io() {
    round_trip(
        "io llm {
           /// _interface
           event reply: str
           method ask: str -> str / {io.net}
           /// _requests
           complete(prompt: str, n: int) -> [str]
           /// _api_contracts
           Prompt: {text: str, tokens: int}
           /// _connection_handlers
           retries = 3
         }
         facet hunger { /// _state level = 0 }
         scheme mind @ rubberDuck {
           /// _io
           clock: io.sim.clock
           /// _facets
           hunger(clock)
           /// _dispatch_scripts
           on clock.tick parallel
         }",
    );
}

#[test]
fn string_escapes_round_trip() {
    let m = parse("facet X { /// _handlers on T { \"a\\\"b\\n\" } }").expect("parse");
    match &m.facets[0].handlers[0].body[0] {
        Stmt::ExprStmt(Expr::Str(s)) => assert_eq!(s, "a\"b\n"),
        other => panic!("unexpected {other:?}"),
    }
    round_trip("facet X { /// _handlers on T { \"a\\\"b\\n\" } }");
}

fn toks(src: &str) -> Vec<Token> {
    lex(src).expect("lex error").into_iter().map(|(t, _)| t).collect()
}

fn idempotent(src: &str) {
    let m1 = parse(src).expect("parse");
    let f1 = urchin::printer::format(&m1);
    let m2 = parse(&f1).expect("re-parse");
    let f2 = urchin::printer::format(&m2);
    assert_eq!(f1, f2, "format is not idempotent.\nfirst:\n{f1}\nsecond:\n{f2}");
}

fn path(segs: &[&str]) -> TypeExpr {
    TypeExpr::Path(segs.iter().map(|s| s.to_string()).collect())
}

#[test]
fn lexes_pascal_ident() {
    assert_eq!(toks("Hunger"), vec![Token::Ident("Hunger".into())]);
}

#[test]
fn lexes_snake_ident() {
    assert_eq!(toks("level"), vec![Token::Ident("level".into())]);
}

#[test]
fn lexes_braces() {
    assert_eq!(toks("{}"), vec![Token::LBrace, Token::RBrace]);
}

#[test]
fn lexes_dotted_path() {
    assert_eq!(
        toks("Memory.Associative"),
        vec![Token::Ident("Memory".into()), Token::Dot, Token::Ident("Associative".into())]
    );
}

#[test]
fn skips_line_comments() {
    assert_eq!(
        toks("/// the urchin's smallest facet\nfacet Hunger {}"),
        vec![Token::Ident("facet".into()), Token::Ident("Hunger".into()), Token::LBrace, Token::RBrace]
    );
}

#[test]
fn parses_empty_role() {
    let m = parse("facet Hunger {}").expect("parse");
    let f = &m.facets[0];
    assert_eq!(f.name, "Hunger");
    assert!(f.state.is_empty());
    assert!(f.handlers.is_empty());
}

#[test]
fn parses_role_with_one_state_field() {
    let m = parse("facet Hunger { /// _state level: int = 0 }").expect("parse");
    let f = &m.facets[0];
    assert_eq!(f.state.len(), 1);
    assert_eq!(f.state[0].name, "level");
    assert_eq!(f.state[0].ty, Some(path(&["int"])));
}

#[test]
fn parses_role_with_multiple_state_fields() {
    let m = parse("facet X { /// _state traces: int = 0  count: int = 0 }").expect("parse");
    assert_eq!(m.facets[0].state.len(), 2);
}

#[test]
fn parses_dotted_type_path() {
    let m = parse("facet X { /// _state mem: Memory.Associative = 0 }").expect("parse");
    assert_eq!(m.facets[0].state[0].ty, Some(path(&["Memory", "Associative"])));
}

#[test]
fn parses_multiple_roles_in_module() {
    let m = parse("facet Hunger {} facet Voice {}").expect("parse");
    assert_eq!(m.facets.len(), 2);
}

#[test]
fn skips_leading_and_trailing_comments() {
    let m = parse("/// preamble\nfacet Hunger {}\n/// trailing\n").expect("parse");
    assert_eq!(m.facets[0].name, "Hunger");
}

#[test]
fn parses_function_type_in_state_field() {
    let m = parse("facet X { /// _state f: Cue -> Trace = 0 }").expect("parse");
    assert_eq!(
        m.facets[0].state[0].ty,
        Some(TypeExpr::Function {
            from: Box::new(path(&["Cue"])),
            to: Box::new(path(&["Trace"])),
            effects: vec![],
        })
    );
}

#[test]
fn parses_interface_method() {
    let m = parse("io AssociativeMemory { /// _interface method recall: Cue -> Trace }").expect("parse");
    let d = &m.io_decls[0];
    assert_eq!(d.interface.len(), 1);
    assert_eq!(
        d.interface[0],
        IoInterfaceEntry::Method {
            name: "recall".to_string(),
            ty: TypeExpr::Function {
                from: Box::new(path(&["Cue"])),
                to: Box::new(path(&["Trace"])),
                effects: vec![],
            },
        }
    );
}

#[test]
fn parses_interface_then_state_in_order() {
    let src = "io AssociativeMemory { /// _interface method recall: Cue -> Trace /// _api_contracts traces: int }";
    let m = parse(src).expect("parse");
    assert_eq!(m.io_decls[0].interface.len(), 1);
    assert_eq!(m.io_decls[0].api_contracts.len(), 1);
}

#[test]
fn state_before_interface_is_a_parse_error() {
    let src = "io X { /// _api_contracts level: int /// _interface method recall: Cue -> Trace }";
    assert!(parse(src).is_err());
}

#[test]
fn parses_handler_with_type_only() {
    let m = parse("facet Hunger { /// _handlers on Tick {} }").expect("parse");
    let f = &m.facets[0];
    assert_eq!(f.handlers.len(), 1);
    assert_eq!(f.handlers[0].message_type, vec!["Tick".to_string()]);
    assert_eq!(f.handlers[0].binding, None);
}

#[test]
fn parses_handler_with_binding() {
    let m = parse("facet X { /// _handlers on Cue c {} }").expect("parse");
    assert_eq!(m.facets[0].handlers[0].message_type, vec!["Cue".to_string()]);
    assert_eq!(m.facets[0].handlers[0].binding, Some("c".to_string()));
}

#[test]
fn parses_handler_with_dotted_message_type() {
    let m = parse("facet X { /// _handlers on io.sim.Tick {} }").expect("parse");
    assert_eq!(
        m.facets[0].handlers[0].message_type,
        vec!["io".to_string(), "sim".to_string(), "Tick".to_string()]
    );
}

#[test]
fn parses_role_with_all_three_sections() {
    let src = "io Hunger { /// _interface method recall: Cue -> Trace }
               facet Hunger { /// _state level: int = 0  /// _handlers on Tick {} }";
    let m = parse(src).expect("parse");
    assert_eq!(m.io_decls[0].interface.len(), 1);
    assert_eq!(m.facets[0].state.len(), 1);
    assert_eq!(m.facets[0].handlers.len(), 1);
}

#[test]
fn parses_multiple_handlers() {
    let m = parse("facet X { /// _handlers on Tick {} on Cue c {} }").expect("parse");
    assert_eq!(m.facets[0].handlers.len(), 2);
}

#[test]
fn round_trips_empty_role() {
    round_trip("facet X {}");
}

#[test]
fn round_trips_role_with_state() {
    round_trip("facet Hunger { /// _state level: int = 0 }");
}

#[test]
fn round_trips_role_with_all_three_sections() {
    round_trip(
        "io X { /// _interface method recall: Cue -> Trace }
         facet X { /// _state traces: int = 0  /// _handlers on Cue c { 1 } }",
    );
}

#[test]
fn round_trips_pipe_chain() {
    round_trip("facet X { /// _handlers on T { x = a |> b() |> c(d) } }");
}

#[test]
fn round_trips_named_args_and_field_access() {
    round_trip("facet X { /// _handlers on T { x = filter(by: c.weight) } }");
}

#[test]
fn round_trips_lists() {
    round_trip("facet X { /// _state xs: [int] = []  /// _handlers on T { x = [1, 2, 3] } }");
}

#[test]
fn round_trips_function_type_with_effects() {
    round_trip("io X { /// _interface method recall: Cue -> [Trace] / {io.sim.comms} }");
}

#[test]
fn round_trips_match() {
    round_trip("facet X { /// _handlers on S s { match s { Threat -> retreat() _ -> {} } } }");
}

#[test]
fn round_trips_actor() {
    round_trip(
        "scheme mind {
           /// _io
           clock: io.sim.clock
           siblings: io.sim.comms.peer
           /// _facets
           episodicMemory(clock, siblings)
           voice(clock)
           /// _dispatch_scripts
           on clock.tick sequence(episodicMemory -> voice)
         }",
    );
}

#[test]
fn round_trips_actor_with_parent() {
    round_trip(
        "scheme mind @ rubberDuck {
           /// _io
           clock: io.sim.clock
           /// _facets
           hunger(clock)
         }",
    );
}

#[test]
fn formats_actor_with_parent() {
    let m = parse("scheme mind @ rubberDuck {}").unwrap();
    let f = urchin::printer::format(&m);
    assert!(f.contains("scheme mind @ rubberDuck"), "got:\n{f}");
}

#[test]
fn formats_root_actor_without_at_clause() {
    let m = parse("scheme mind {}").unwrap();
    let f = urchin::printer::format(&m);
    assert!(!f.contains("@"), "root scheme shouldn't render `@`; got:\n{f}");
}

#[test]
fn round_trips_module_with_roles_and_actor() {
    round_trip(
        "facet Hunger { /// _state level: int = 0 }
         scheme mind { /// _io clock: io.sim.clock  /// _facets hunger(clock) }",
    );
}

#[test]
fn formats_empty_role_inline() {
    let m = parse("facet X {}").unwrap();
    assert_eq!(urchin::printer::format(&m), "facet X {}\n");
}

#[test]
fn formats_arithmetic_without_unnecessary_parens() {
    let m = parse("facet X { /// _handlers on T { x = 1 + 2 } }").unwrap();
    let f = urchin::printer::format(&m);
    assert!(!f.contains("(1"), "no parens around `1` expected; got:\n{f}");
    assert!(f.contains("x = 1 + 2"));
}

#[test]
fn three_stage_pipe_wraps_across_lines() {
    let m = parse("facet X { /// _handlers on T { x = a |> b() |> c() } }").unwrap();
    let f = urchin::printer::format(&m);
    assert!(f.contains("a\n      |> b()\n      |> c()"), "expected multi-line pipe; got:\n{f}");
}

#[test]
fn long_pipe_chain_in_assignment_round_trips() {
    round_trip("facet X { /// _handlers on T { matches = a |> b() |> c() |> d() |> e() } }");
}

#[test]
fn pipe_wrap_is_idempotent() {
    idempotent("facet X { /// _handlers on T { x = a |> b() |> c() |> d() } }");
}

#[test]
fn parse_reports_where_lexing_stopped() {
    let errs = parse("facet X # {}").expect_err("stray #");
    assert_eq!(errs.len(), 1);
    assert_eq!(errs[0].span, 8..9);
    assert_eq!(errs[0].message, "lex error: unexpected character");
}

#[test]
fn parse_error_names_the_token_where_reading_stopped() {
    let src = "facet X { /// _state level: = 0 }";
    let errs = parse(src).expect_err("missing type");
    assert_eq!(errs.len(), 1);
    assert_eq!(errs[0].message, "parse error: unexpected token");
    assert_eq!(errs[0].span, 28..29);
    let end = parse("facet X {").expect_err("unclosed");
    assert_eq!(end[0].message, "parse error: unexpected end of input");
    assert_eq!(end[0].span, 9..9);
}

#[test]
fn parenthesized_result_with_effects_moves_its_effects_on_reformat() {
    let m1 = parse("io X { /// _interface method f: A -> (B -> C) / {e} }").expect("parse");
    let f1 = urchin::printer::format(&m1);
    assert!(f1.contains("method f: A -> B -> C / {e}"), "got:\n{f1}");
    let m2 = parse(&f1).expect("re-parse");
    assert_ne!(m1, m2);
    assert_eq!(urchin::printer::format(&m2), f1);
}

#[test]
fn lexes_role_keyword() {
    assert_eq!(toks("role"), vec![Token::Ident("role".into())]);
}

#[test]
fn lexes_role_with_state_field() {
    assert_eq!(
        toks("facet Hunger { /// _state level: int = 0 }"),
        vec![
            Token::Ident("facet".into()),
            Token::Ident("Hunger".into()),
            Token::LBrace,
            Token::Section("state".into()),
            Token::Ident("level".into()),
            Token::Colon,
            Token::Ident("int".into()),
            Token::Assign,
            Token::Int(0),
            Token::RBrace,
        ]
    );
}

const MIND: &str = "
/// The seed mind: memory, hunger and a voice over the sim clock.
io llm {
  /// _interface
  event reply: str
  method ask: str -> str / {io.net}
  /// _api_contracts
  Prompt: {text: str, tokens: int}
  /// _connection_handlers
  retries = 3
}

facet episodicMemory {
  /// _state
  traces: [Trace] = []
  recalled = 0
  /// _handlers
  on Cue c -> [Trace] {
    recalled = recalled ~> recalled + 1
    traces |> filter(by: c.weight) |> take(3)
  }
}

facet hunger {
  /// _state
  level: int = 0
  /// _handlers
  on io.sim.tick {
    level = level ~> level + 1
    if level > 7 { mood = \"hungry\" } else { mood = \"ok\" }
  }
}

facet voice {
  /// _handlers
  on io.sim.tick t -> str {
    match t { calm -> \"hum\" _ -> { say(t, 2 * (1 + 3)) } }
  }
}

scheme mind @ rubberDuck {
  /// _io
  clock: io.sim.clock
  siblings: io.sim.comms.peer
  /// _facets
  episodicMemory(clock, siblings)
  hunger(clock)
  voice(clock)
  /// _dispatch_scripts
  on clock.tick sequence(hunger -> voice)
}

scheme rubberDuck {
  /// _io
  peers: io.sim.comms.peer
}
";

#[test]
fn round_trips_full_mind_example() {
    let f = round_trip(MIND);
    assert!(f.contains("scheme mind @ rubberDuck {"), "got:\n{f}");
}

#[test]
fn idempotent_on_full_mind_example() {
    idempotent(MIND);
}
