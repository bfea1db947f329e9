use urchin::watch::{is_blank, render_line, render_parsed_line, Json, RenderState, Style};

fn render(lines: &[&str]) -> String {
    let style = Style::new(false);
    let mut out = String::new();
    let mut state = RenderState::default();
    for line in lines {
        render_line(&mut out, line, &style, &mut state);
    }
    out
}

#[test]
fn renders_topology_then_tick() {
    let out = render(&[
        r#"{"event":"actor_instantiated","actor":"creativePersona","parent":"rubberDuck"}"#,
        r#"{"event":"role_instantiated","actor":"creativePersona","instance":"photographer","state":[["shotsTaken",0]]}"#,
        r#"{"event":"actor_instantiated","actor":"rubberDuck","parent":null}"#,
        r#"{"event":"tick","n":0}"#,
    ]);
    assert!(out.contains("── topology ──"));
    assert!(out.contains("actor creativePersona @ rubberDuck"));
    assert!(out.contains("actor rubberDuck"));
    assert!(out.contains("role creativePersona.photographer"));
    assert!(out.contains("shotsTaken=0"));
    assert!(out.contains("── tick 0 ──"));
}

#[test]
fn renders_state_assign_with_old_new_arrow() {
    let out = render(&[r#"{"event":"state_assign","actor":"creativePersona","instance":"photographer","field":"shotsTaken","old":0,"new":1}"#]);
    assert!(out.contains("photographer"));
    assert!(out.contains("shotsTaken"));
    assert!(out.contains("0"));
    assert!(out.contains("→"));
    assert!(out.contains("1"));
}

#[test]
fn renders_handler_return_with_arrow() {
    let out = render(&[r#"{"event":"handler_return","actor":"creativePersona","instance":"photographer","message":"tick","value":1}"#]);
    assert!(out.contains("photographer.tick"));
    assert!(out.contains("⇒"));
    assert!(out.contains("1"));
}

#[test]
fn unknown_event_passes_through() {
    let out = render(&[r#"{"event":"some_future_event","fields":{"x":1}}"#]);
    assert!(out.contains("some_future_event"));
}

#[test]
fn non_json_passes_through() {
    let out = render(&["not json at all"]);
    assert!(out.contains("not json at all"));
}

#[test]
fn handler_return_with_unit_value() {
    let out = render(&[r#"{"event":"handler_return","actor":"a","instance":"i","message":"m","value":null}"#]);
    assert!(out.contains("()"));
}

#[test]
fn noop_state_assign_renders_without_arrow() {
    let out = render(&[r#"{"event":"state_assign","actor":"feedUser","instance":"poster","field":"isHot","old":1,"new":1}"#]);
    assert!(out.contains("isHot = 1"));
    assert!(!out.contains("→"));
}

#[test]
fn changed_state_assign_still_uses_arrow() {
    let out = render(&[r#"{"event":"state_assign","actor":"feedUser","instance":"poster","field":"isHot","old":0,"new":1}"#]);
    assert!(out.contains("→"));
}

#[test]
fn handler_return_uses_single_space_around_arrow() {
    let out = render(&[r#"{"event":"handler_return","actor":"a","instance":"poster","message":"tick","value":1}"#]);
    assert!(!out.contains("  ⇒"), "unexpected double space before arrow: {out:?}");
}

#[test]
fn string_value_is_quoted() {
    let out = render(&[r#"{"event":"handler_return","actor":"a","instance":"i","message":"m","value":"hello"}"#]);
    assert!(out.contains("\"hello\""));
}

#[test]
fn exact_plain_output_for_a_short_stream() {
    let out = render(&[
        r#"{"event":"actor_instantiated","actor":"mind","parent":null}"#,
        r#"{"event":"role_instantiated","actor":"mind","instance":"hunger","state":[["level",0],["mood","ok"]]}"#,
        r#"{"event":"tick","n":3}"#,
        r#"{"event":"state_assign","actor":"mind","instance":"hunger","field":"level","old":0,"new":1}"#,
    ]);
    assert_eq!(
        out,
        "── topology ──\n  actor mind\n    role mind.hunger { level=0, mood=\"ok\" }\n\n── tick 3 ──\n  hunger level : 0 → 1\n"
    );
}

#[test]
fn styled_output_wraps_in_ansi_codes() {
    let style = Style::new(true);
    assert_eq!(style.dim("x"), "\x1b[2mx\x1b[0m");
    assert_eq!(style.section("t"), "\x1b[1;36m── t ──\x1b[0m");
    assert_eq!(Style::new(false).actor("a"), "a");
}

#[test]
fn blank_lines_are_recognized() {
    assert!(is_blank("   \t "));
    assert!(is_blank(""));
    assert!(!is_blank(" x "));
}

#[test]
fn composite_values_show_their_json_text() {
    let out = render(&[r#"{"event":"handler_return","actor":"a","instance":"i","message":"m","value":[1,{"b":2}]}"#]);
    assert!(out.contains("[1,{\"b\":2}]"), "got {out:?}");
}

#[test]
fn renders_a_given_parse_of_a_line() {
    let style = Style::new(false);
    let mut state = RenderState::default();
    let mut out = String::new();
    let tick = Json::Object(
        vec![
            ("event".to_string(), Json::Str("tick".to_string())),
            ("n".to_string(), Json::Number("4".to_string())),
        ],
        "{\"event\":\"tick\",\"n\":4}".to_string(),
    );
    render_parsed_line(&mut out, "ignored text", Some(&tick), &style, &mut state);
    assert_eq!(out, "\n── tick 4 ──\n");
    let mut raw = String::new();
    render_parsed_line(&mut raw, "not json", None, &style, &mut state);
    assert_eq!(raw, "not json\n");
}

#[test]
fn json_lines_are_read_by_the_renderer() {
    let style = Style::new(false);
    let mut state = RenderState::default();
    let mut out = String::new();
    render_line(&mut out, "{\"event\":\"tick\",\"n\":2}", &style, &mut state);
    assert_eq!(out, "\n── tick 2 ──\n");
}
