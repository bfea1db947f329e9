//! `watch`: renders the event stream of a run, one JSON object per line,
//! as a human-readable view.
//!
//! The five event types, in roughly the order they arrive:
//!
//!   - `actor_instantiated`  — topology, before any ticks
//!   - `role_instantiated`   — initial state of an instance
//!   - `tick`                — section header for everything that follows
//!   - `state_assign`        — shown as `field: old → new`
//!   - `handler_return`      — the value a handler produced for a message
//!
//! Output is colored when `Style` is on and plain text otherwise. A line
//! that is not JSON, and an event of an unknown kind, pass through as the
//! original line. Each line is read as JSON by `serde_json`.
use vstd::prelude::*;

use crate::lexer::{is_ws, is_ws_exec};
use crate::printer::{joined, nat_text, write_nat};
use crate::runtime::env::{find_key, lemma_find_key_at};
use crate::text::{str_to_chars, string_is};
use serde_json::Value as JsonValue;

verus! {

/// A parsed JSON value. A number keeps its JSON text; an array or object
/// also keeps its compact JSON text.
#[derive(Debug, PartialEq)]
pub enum Json {
    Null,
    Bool(bool),
    Number(String),
    Str(String),
    Array(Vec<Json>, String),
    Object(Vec<(String, Json)>, String),
}

/// The model of a JSON value.
pub enum SpecJson {
    Null,
    Bool(bool),
    Number(Seq<char>),
    Str(Seq<char>),
    Array(Seq<SpecJson>, Seq<char>),
    Object(Seq<(Seq<char>, SpecJson)>, Seq<char>),
}

pub open spec fn json_view(j: &Json) -> SpecJson
    decreases j, 1int,
{
    match j {
        Json::Null => SpecJson::Null,
        Json::Bool(b) => SpecJson::Bool(*b),
        Json::Number(t) => SpecJson::Number(t@),
        Json::Str(s) => SpecJson::Str(s@),
        Json::Array(items, t) => SpecJson::Array(jsons_view(items), t@),
        Json::Object(fields, t) => SpecJson::Object(members_view(fields), t@),
    }
}

pub open spec fn jsons_view(v: &Vec<Json>) -> Seq<SpecJson>
    decreases v, 0int,
{
    Seq::new(
        v@.len(),
        |i: int|
            if 0 <= i < v@.len() {
                proof {
                    broadcast use vstd::std_specs::vec::axiom_vec_index_decreases;
                }
                json_view(&v@[i])
            } else {
                SpecJson::Null
            },
    )
}

pub open spec fn members_view(v: &Vec<(String, Json)>) -> Seq<(Seq<char>, SpecJson)>
    decreases v, 0int,
{
    Seq::new(
        v@.len(),
        |i: int|
            if 0 <= i < v@.len() {
                proof {
                    broadcast use vstd::std_specs::vec::axiom_vec_index_decreases;
                }
                (v@[i].0@, json_view(&v@[i].1))
            } else {
                (Seq::empty(), SpecJson::Null)
            },
    )
}

impl View for Json {
    type V = SpecJson;

    open spec fn view(&self) -> SpecJson {
        json_view(self)
    }
}

/// Structural equality of JSON values.
pub fn json_eq(a: &Json, b: &Json) -> (r: bool)
    ensures
        r == (a@ == b@),
    decreases a, 1int,
{
    match (a, b) {
        (Json::Null, Json::Null) => true,
        (Json::Bool(x), Json::Bool(y)) => *x == *y,
        (Json::Number(x), Json::Number(y)) => *x == *y,
        (Json::Str(x), Json::Str(y)) => *x == *y,
        (Json::Array(x, tx), Json::Array(y, ty)) => *tx == *ty && jsons_eq(x, y),
        (Json::Object(x, tx), Json::Object(y, ty)) => *tx == *ty && members_eq(x, y),
        _ => false,
    }
}

fn jsons_eq(a: &Vec<Json>, b: &Vec<Json>) -> (r: bool)
    ensures
        r == (jsons_view(a) == jsons_view(b)),
    decreases a, 0int,
{
    if a.len() != b.len() {
        assert(jsons_view(a).len() != jsons_view(b).len());
        return false;
    }
    let mut i: usize = 0;
    while i < a.len()
        invariant
            i <= a.len() == b.len(),
            forall|k: int| 0 <= k < i ==> (#[trigger] a@[k])@ == b@[k]@,
        decreases a.len() - i,
    {
        proof {
            broadcast use vstd::std_specs::vec::axiom_vec_index_decreases;
        }
        if !json_eq(&a[i], &b[i]) {
            assert(jsons_view(a)[i as int] != jsons_view(b)[i as int]);
            return false;
        }
        i = i + 1;
    }
    assert(jsons_view(a) =~= jsons_view(b));
    true
}

fn members_eq(a: &Vec<(String, Json)>, b: &Vec<(String, Json)>) -> (r: bool)
    ensures
        r == (members_view(a) == members_view(b)),
    decreases a, 0int,
{
    if a.len() != b.len() {
        assert(members_view(a).len() != members_view(b).len());
        return false;
    }
    let mut i: usize = 0;
    while i < a.len()
        invariant
            i <= a.len() == b.len(),
            forall|k: int| 0 <= k < i ==> (#[trigger] a@[k]).0@ == b@[k].0@ && a@[k].1@ == b@[k].1@,
        decreases a.len() - i,
    {
        proof {
            broadcast use vstd::std_specs::vec::axiom_vec_index_decreases;
        }
        if a[i].0 != b[i].0 || !json_eq(&a[i].1, &b[i].1) {
            assert(members_view(a)[i as int] != members_view(b)[i as int]);
            return false;
        }
        i = i + 1;
    }
    assert(members_view(a) =~= members_view(b));
    true
}

// ---------------------------------------------------------------------
// Reading events.

/// The member `k` of an object (the first one, should names repeat).
pub open spec fn json_get(e: SpecJson, k: Seq<char>) -> Option<SpecJson> {
    match e {
        SpecJson::Object(fs, _) => match find_key(fs, k) {
            Some(i) => Some(fs[i].1),
            None => None,
        },
        _ => None,
    }
}

/// The string member `k`, or `?`.
pub open spec fn str_member(e: SpecJson, k: Seq<char>) -> Seq<char> {
    match json_get(e, k) {
        Some(SpecJson::Str(s)) => s,
        _ => "?"@,
    }
}

pub open spec fn all_digits(t: Seq<char>) -> bool {
    forall|i: int| 0 <= i < t.len() ==> '0' <= #[trigger] t[i] <= '9'
}

pub open spec fn digits_value(t: Seq<char>) -> nat
    decreases t.len(),
{
    if t.len() == 0 {
        0
    } else {
        digits_value(t.drop_last()) * 10 + ((t.last() as u32) - 48) as nat
    }
}

/// The member `k` as an unsigned 64-bit integer, when it is a number
/// written with digits only that fits.
pub open spec fn u64_member(e: SpecJson, k: Seq<char>) -> Option<nat> {
    match json_get(e, k) {
        Some(SpecJson::Number(t)) => if t.len() > 0 && all_digits(t) && digits_value(t)
            <= u64::MAX {
            Some(digits_value(t))
        } else {
            None
        },
        _ => None,
    }
}

fn json_member<'a>(e: &'a Json, k: &str) -> (r: Option<&'a Json>)
    ensures
        match r {
            Some(v) => json_get(e@, k@) == Some(v@),
            None => json_get(e@, k@) is None,
        },
{
    match e {
        Json::Object(fs, tx) => {
            let key = k.to_owned();
            let ghost m = members_view(fs);
            assert(e@ == SpecJson::Object(m, tx@));
            let mut i: usize = 0;
            while i < fs.len()
                invariant
                    i <= fs.len(),
                    e@ == SpecJson::Object(m, tx@),
                    key@ == k@,
                    m == members_view(fs),
                    forall|j: int| 0 <= j < i ==> (#[trigger] m[j]).0 != k@,
                decreases fs.len() - i,
            {
                if fs[i].0 == key {
                    proof {
                        lemma_find_key_at(m, k@, i as int);
                        assert(m[i as int].1 == fs@[i as int].1@);
                    }
                    return Some(&fs[i].1);
                }
                i = i + 1;
            }
            proof {
                lemma_find_key_at(m, k@, i as int);
            }
            None
        },
        _ => None,
    }
}

fn str_member_exec(e: &Json, k: &str) -> (r: String)
    ensures
        r@ == str_member(e@, k@),
{
    match json_member(e, k) {
        Some(Json::Str(s)) => s.clone(),
        _ => "?".to_owned(),
    }
}

proof fn lemma_digits_value_mono(t: Seq<char>, i: int)
    requires
        0 <= i <= t.len(),
        all_digits(t),
    ensures
        digits_value(t.take(i)) <= digits_value(t),
    decreases t.len() - i,
{
    if i < t.len() {
        lemma_digits_value_mono(t, i + 1);
        let u = t.take(i + 1);
        assert(u.drop_last() =~= t.take(i));
        assert('0' <= u.last() <= '9');
    } else {
        assert(t.take(i) =~= t);
    }
}

fn u64_member_exec(e: &Json, k: &str) -> (r: Option<u64>)
    ensures
        match r {
            Some(n) => u64_member(e@, k@) == Some(n as nat),
            None => u64_member(e@, k@) is None,
        },
{
    match json_member(e, k) {
        Some(Json::Number(text)) => {
            let cs = str_to_chars(text.as_str());
            let ghost t = cs@;
            if cs.len() == 0 {
                return None;
            }
            let mut acc: u64 = 0;
            let mut i: usize = 0;
            assert(t.take(0) =~= Seq::<char>::empty());
            while i < cs.len()
                invariant
                    i <= cs.len(),
                    t == cs@,
                    t == text@,
                    t.len() > 0,
                    json_get(e@, k@) == Some(SpecJson::Number(t)),
                    forall|j: int| 0 <= j < i ==> '0' <= #[trigger] t[j] <= '9',
                    acc as nat == digits_value(t.take(i as int)),
                decreases cs.len() - i,
            {
                let c = cs[i];
                if c < '0' || c > '9' {
                    assert(!all_digits(t));
                    return None;
                }
                proof {
                    let u = t.take(i + 1);
                    assert(u.drop_last() =~= t.take(i as int));
                }
                let d: u64 = (c as u32 - 48) as u64;
                assert(digits_value(t.take(i + 1)) == acc * 10 + d);
                match acc.checked_mul(10) {
                    Some(a10) => match a10.checked_add(d) {
                        Some(next) => {
                            acc = next;
                        },
                        None => {
                            proof {
                                if all_digits(t) {
                                    lemma_digits_value_mono(t, i + 1);
                                }
                            }
                            return None;
                        },
                    },
                    None => {
                        proof {
                            if all_digits(t) {
                                lemma_digits_value_mono(t, i + 1);
                            }
                        }
                        return None;
                    },
                }
                i = i + 1;
            }
            assert(t.take(cs.len() as int) =~= t);
            Some(acc)
        },
        _ => None,
    }
}

// ---------------------------------------------------------------------
// Styling.

/// ANSI styling, on or off.
#[derive(Debug)]
pub struct Style {
    on: bool,
}

/// `s` wrapped in the ANSI code `code` when styling is on.
pub open spec fn wrap_text(on: bool, code: Seq<char>, s: Seq<char>) -> Seq<char> {
    if on {
        "\x1b["@ + code + "m"@ + s + "\x1b[0m"@
    } else {
        s
    }
}

pub open spec fn section_text(on: bool, s: Seq<char>) -> Seq<char> {
    wrap_text(on, "1;36"@, "── "@ + s + " ──"@)
}

impl Style {
    pub closed spec fn enabled(&self) -> bool {
        self.on
    }

    pub fn new(on: bool) -> (r: Self)
        ensures
            r.enabled() == on,
    {
        Style { on }
    }

    pub fn wrap(&self, code: &str, s: &str) -> (r: String)
        ensures
            r@ == wrap_text(self.enabled(), code@, s@),
    {
        let mut out = String::new();
        if self.on {
            out.append("\x1b[");
            out.append(code);
            out.append("m");
            out.append(s);
            out.append("\x1b[0m");
        } else {
            out.append(s);
        }
        out
    }

    pub fn dim(&self, s: &str) -> (r: String)
        ensures
            r@ == wrap_text(self.enabled(), "2"@, s@),
    {
        self.wrap("2", s)
    }

    pub fn section(&self, s: &str) -> (r: String)
        ensures
            r@ == section_text(self.enabled(), s@),
    {
        let mut t = String::new();
        t.append("── ");
        t.append(s);
        t.append(" ──");
        self.wrap("1;36", t.as_str())
    }

    pub fn actor(&self, s: &str) -> (r: String)
        ensures
            r@ == wrap_text(self.enabled(), "36"@, s@),
    {
        self.wrap("36", s)
    }

    pub fn instance(&self, s: &str) -> (r: String)
        ensures
            r@ == wrap_text(self.enabled(), "35"@, s@),
    {
        self.wrap("35", s)
    }

    pub fn field(&self, s: &str) -> (r: String)
        ensures
            r@ == wrap_text(self.enabled(), "33"@, s@),
    {
        self.wrap("33", s)
    }

    pub fn message(&self, s: &str) -> (r: String)
        ensures
            r@ == wrap_text(self.enabled(), "33"@, s@),
    {
        self.wrap("33", s)
    }

    pub fn value(&self, s: &str) -> (r: String)
        ensures
            r@ == wrap_text(self.enabled(), "2"@, s@),
    {
        self.wrap("2", s)
    }

    pub fn value_new(&self, s: &str) -> (r: String)
        ensures
            r@ == wrap_text(self.enabled(), "32"@, s@),
    {
        self.wrap("32", s)
    }

    pub fn value_return(&self, s: &str) -> (r: String)
        ensures
            r@ == wrap_text(self.enabled(), "32"@, s@),
    {
        self.wrap("32", s)
    }

    pub fn arrow(&self, s: &str) -> (r: String)
        ensures
            r@ == wrap_text(self.enabled(), "2"@, s@),
    {
        self.wrap("2", s)
    }
}

// ---------------------------------------------------------------------
// Rendering.

/// Whether the topology header was written, and a tick was seen.
#[derive(Debug)]
pub struct RenderState {
    pub topology_open: bool,
    pub saw_first_tick: bool,
}

impl RenderState {
    pub fn new() -> (r: Self)
        ensures
            !r.topology_open,
            !r.saw_first_tick,
    {
        RenderState { topology_open: false, saw_first_tick: false }
    }
}

impl Default for RenderState {
    fn default() -> (r: Self)
        ensures
            !r.topology_open,
            !r.saw_first_tick,
    {
        RenderState::new()
    }
}

/// How a value shows: `()` for null, strings in quotes, anything else as
/// its JSON text.
pub open spec fn value_text(v: SpecJson) -> Seq<char> {
    match v {
        SpecJson::Null => "()"@,
        SpecJson::Bool(b) => if b {
            "true"@
        } else {
            "false"@
        },
        SpecJson::Number(t) => t,
        SpecJson::Str(s) => "\""@ + s + "\""@,
        SpecJson::Array(_, t) => t,
        SpecJson::Object(_, t) => t,
    }
}

pub open spec fn opt_value_text(v: Option<SpecJson>) -> Seq<char> {
    match v {
        Some(x) => value_text(x),
        None => Seq::empty(),
    }
}

/// `key=value` for a pair `[key, value]` whose first item is a string.
pub open spec fn pair_part(p: SpecJson, on: bool) -> Option<Seq<char>> {
    match p {
        SpecJson::Array(items, _) => if items.len() > 0 {
            match items[0] {
                SpecJson::Str(key) => Some(
                    wrap_text(on, "33"@, key) + wrap_text(on, "2"@, "="@) + wrap_text(
                        on,
                        "2"@,
                        if items.len() > 1 {
                            value_text(items[1])
                        } else {
                            Seq::empty()
                        },
                    ),
                ),
                _ => None,
            }
        } else {
            None
        },
        _ => None,
    }
}

pub open spec fn pair_parts(pairs: Seq<SpecJson>, on: bool) -> Seq<Seq<char>>
    decreases pairs.len(),
{
    if pairs.len() == 0 {
        Seq::empty()
    } else {
        pair_parts(pairs.drop_last(), on) + match pair_part(pairs.last(), on) {
            Some(t) => seq![t],
            None => Seq::empty(),
        }
    }
}

/// `{ a=1, b=2 }` for a list of pairs; empty for no pairs.
pub open spec fn state_pairs_text(pairs: Seq<SpecJson>, on: bool) -> Seq<char> {
    if pairs.len() == 0 {
        Seq::empty()
    } else {
        wrap_text(on, "2"@, "{ "@) + joined(pair_parts(pairs, on), wrap_text(on, "2"@, ", "@))
            + wrap_text(on, "2"@, " }"@)
    }
}

pub open spec fn header_text(open: bool, on: bool) -> Seq<char> {
    if open {
        Seq::empty()
    } else {
        section_text(on, "topology"@) + "\n"@
    }
}

#[verifier::opaque]
pub open spec fn actor_text(e: SpecJson, on: bool) -> Seq<char> {
    let a = str_member(e, "actor"@);
    match json_get(e, "parent"@) {
        Some(SpecJson::Str(p)) => "  "@ + wrap_text(on, "2"@, "actor"@) + " "@ + wrap_text(on, "36"@, a)
            + " "@ + wrap_text(on, "2"@, "@"@) + " "@ + wrap_text(on, "36"@, p) + "\n"@,
        _ => "  "@ + wrap_text(on, "2"@, "actor"@) + " "@ + wrap_text(on, "36"@, a) + "\n"@,
    }
}

#[verifier::opaque]
pub open spec fn role_text(e: SpecJson, on: bool) -> Seq<char> {
    let state = match json_get(e, "state"@) {
        Some(SpecJson::Array(pairs, _)) => state_pairs_text(pairs, on),
        _ => Seq::empty(),
    };
    "    "@ + wrap_text(on, "2"@, "role"@) + " "@ + wrap_text(on, "36"@, str_member(e, "actor"@))
        + wrap_text(on, "2"@, "."@) + wrap_text(on, "35"@, str_member(e, "instance"@)) + " "@ + state
        + "\n"@
}

#[verifier::opaque]
pub open spec fn tick_text(e: SpecJson, on: bool) -> Seq<char> {
    let n: nat = match u64_member(e, "n"@) {
        Some(n) => n,
        None => 0,
    };
    "\n"@ + section_text(on, "tick "@ + nat_text(n)) + "\n"@
}

#[verifier::opaque]
pub open spec fn state_assign_text(e: SpecJson, on: bool) -> Seq<char> {
    let instance = str_member(e, "instance"@);
    let field = str_member(e, "field"@);
    let old_v = opt_value_text(json_get(e, "old"@));
    let new_v = opt_value_text(json_get(e, "new"@));
    if json_get(e, "old"@) == json_get(e, "new"@) {
        "  "@ + wrap_text(on, "2"@, instance + " "@ + field + " = "@ + new_v) + "\n"@
    } else {
        "  "@ + wrap_text(on, "35"@, instance) + " "@ + wrap_text(on, "33"@, field) + " "@ + wrap_text(
            on,
            "2"@,
            ":"@,
        ) + " "@ + wrap_text(on, "2"@, old_v) + " "@ + wrap_text(on, "2"@, "→"@) + " "@ + wrap_text(
            on,
            "32"@,
            new_v,
        ) + "\n"@
    }
}

#[verifier::opaque]
pub open spec fn handler_return_text(e: SpecJson, on: bool) -> Seq<char> {
    "  "@ + wrap_text(on, "35"@, str_member(e, "instance"@)) + wrap_text(on, "2"@, "."@) + wrap_text(
        on,
        "33"@,
        str_member(e, "message"@),
    ) + " "@ + wrap_text(on, "2"@, "⇒"@) + " "@ + wrap_text(
        on,
        "32"@,
        opt_value_text(json_get(e, "value"@)),
    ) + "\n"@
}

/// The kind of an event: its string member `event`, or `?`.
pub open spec fn event_kind(e: SpecJson) -> Seq<char> {
    str_member(e, "event"@)
}

pub open spec fn w_actor_instantiated() -> Seq<char> {
    seq!['a', 'c', 't', 'o', 'r', '_', 'i', 'n', 's', 't', 'a', 'n', 't', 'i', 'a', 't', 'e', 'd']
}

pub open spec fn w_role_instantiated() -> Seq<char> {
    seq!['r', 'o', 'l', 'e', '_', 'i', 'n', 's', 't', 'a', 'n', 't', 'i', 'a', 't', 'e', 'd']
}

pub open spec fn w_tick() -> Seq<char> {
    seq!['t', 'i', 'c', 'k']
}

pub open spec fn w_state_assign() -> Seq<char> {
    seq!['s', 't', 'a', 't', 'e', '_', 'a', 's', 's', 'i', 'g', 'n']
}

pub open spec fn w_handler_return() -> Seq<char> {
    seq!['h', 'a', 'n', 'd', 'l', 'e', 'r', '_', 'r', 'e', 't', 'u', 'r', 'n']
}

/// What one input line renders as, and the render state afterwards
/// (topology header written, first tick seen).
pub open spec fn line_output(line: Seq<char>, parsed: Option<SpecJson>, open: bool, ticked: bool, on: bool) -> (
    Seq<char>,
    bool,
    bool,
) {
    match parsed {
        None => (line + "\n"@, open, ticked),
        Some(e) => {
            let k = event_kind(e);
            if k == w_actor_instantiated() {
                (header_text(open, on) + actor_text(e, on), true, ticked)
            } else if k == w_role_instantiated() {
                (header_text(open, on) + role_text(e, on), true, ticked)
            } else if k == w_tick() {
                (tick_text(e, on), open, true)
            } else if k == w_state_assign() {
                (state_assign_text(e, on), open, ticked)
            } else if k == w_handler_return() {
                (handler_return_text(e, on), open, ticked)
            } else {
                (line + "\n"@, open, ticked)
            }
        },
    }
}

/// A line holding only whitespace.
pub open spec fn blank(line: Seq<char>) -> bool {
    forall|i: int| 0 <= i < line.len() ==> is_ws(#[trigger] line[i])
}

/// Whether `line` holds only whitespace (such lines are skipped).
pub fn is_blank(line: &str) -> (r: bool)
    ensures
        r == blank(line@),
{
    let cs = str_to_chars(line);
    let mut i: usize = 0;
    while i < cs.len()
        invariant
            i <= cs.len(),
            cs@ == line@,
            forall|j: int| 0 <= j < i ==> is_ws(#[trigger] cs@[j]),
        decreases cs.len() - i,
    {
        if !is_ws_exec(cs[i]) {
            return false;
        }
        i = i + 1;
    }
    true
}

/// Writes the topology header once.
pub fn ensure_topology_header(out: &mut String, style: &Style, state: &mut RenderState)
    ensures
        final(out)@ == old(out)@ + header_text(old(state).topology_open, style.enabled()),
        final(state).topology_open,
        final(state).saw_first_tick == old(state).saw_first_tick,
{
    if !state.topology_open {
        let h = style.section("topology");
        out.append(h.as_str());
        out.append("\n");
        state.topology_open = true;
    }
}

/// How a value shows.
pub fn format_value(v: &Json) -> (r: String)
    ensures
        r@ == value_text(v@),
{
    match v {
        Json::Null => "()".to_owned(),
        Json::Bool(b) => if *b {
            "true".to_owned()
        } else {
            "false".to_owned()
        },
        Json::Number(t) => t.clone(),
        Json::Str(s) => {
            let mut out = String::new();
            out.append("\"");
            out.append(s.as_str());
            out.append("\"");
            out
        },
        Json::Array(_, t) => t.clone(),
        Json::Object(_, t) => t.clone(),
    }
}

fn opt_format_value(v: Option<&Json>) -> (r: String)
    ensures
        r@ == opt_value_text(match v {
            Some(x) => Some(x@),
            None => None,
        }),
{
    match v {
        Some(x) => format_value(x),
        None => String::new(),
    }
}

fn pair_part_exec(p: &Json, style: &Style) -> (r: Option<String>)
    ensures
        match r {
            Some(t) => pair_part(p@, style.enabled()) == Some(t@),
            None => pair_part(p@, style.enabled()) is None,
        },
{
    match p {
        Json::Array(items, _) => {
            if items.len() == 0 {
                return None;
            }
            assert(jsons_view(items)[0] == items@[0]@);
            if items.len() > 1 {
                assert(jsons_view(items)[1] == items@[1]@);
            }
            match &items[0] {
                Json::Str(key) => {
                    let val = if items.len() > 1 {
                        format_value(&items[1])
                    } else {
                        String::new()
                    };
                    let mut out = String::new();
                    let a = style.field(key.as_str());
                    let b = style.dim("=");
                    let c = style.value(val.as_str());
                    out.append(a.as_str());
                    out.append(b.as_str());
                    out.append(c.as_str());
                    Some(out)
                },
                _ => None,
            }
        },
        _ => None,
    }
}

/// `{ a=1, b=2 }` for a list of `[name, value]` pairs.
pub fn format_state_pairs(pairs: &Vec<Json>, style: &Style) -> (r: String)
    ensures
        r@ == state_pairs_text(jsons_view(pairs), style.enabled()),
{
    let ghost pv = jsons_view(pairs);
    if pairs.len() == 0 {
        return String::new();
    }
    let mut parts: Vec<String> = Vec::new();
    let mut i: usize = 0;
    assert(pv.take(0) =~= Seq::<SpecJson>::empty());
    assert(parts@.map_values(|s: String| s@) =~= pair_parts(pv.take(0), style.enabled()));
    while i < pairs.len()
        invariant
            i <= pairs.len(),
            pv == jsons_view(pairs),
            parts@.map_values(|s: String| s@) == pair_parts(pv.take(i as int), style.enabled()),
        decreases pairs.len() - i,
    {
        proof {
            let t = pv.take(i + 1);
            assert(t.drop_last() =~= pv.take(i as int));
        }
        let ghost before = parts@.map_values(|s: String| s@);
        match pair_part_exec(&pairs[i], style) {
            Some(t) => {
                parts.push(t);
                assert(parts@.map_values(|s: String| s@) =~= before + seq![t@]);
            },
            None => {
                assert(before + Seq::<Seq<char>>::empty() =~= before);
            },
        }
        i = i + 1;
    }
    assert(pv.take(pairs.len() as int) =~= pv);
    let sep = style.dim(", ");
    let mut out = style.dim("{ ");
    crate::printer::write_joined_names(&mut out, &parts, sep.as_str());
    let close = style.dim(" }");
    out.append(close.as_str());
    out
}

fn render_actor(out: &mut String, e: &Json, style: &Style, state: &mut RenderState)
    ensures
        final(out)@ == old(out)@ + header_text(old(state).topology_open, style.enabled()) + actor_text(
            e@,
            style.enabled(),
        ),
        final(state).topology_open,
        final(state).saw_first_tick == old(state).saw_first_tick,
{
    reveal(actor_text);
    ensure_topology_header(out, style, state);
    let actor = str_member_exec(e, "actor");
    let ghost o = out@;
    out.append("  ");
    out.append(style.dim("actor").as_str());
    out.append(" ");
    out.append(style.actor(actor.as_str()).as_str());
    match json_member(e, "parent") {
        Some(Json::Str(p)) => {
            out.append(" ");
            out.append(style.dim("@").as_str());
            out.append(" ");
            out.append(style.actor(p.as_str()).as_str());
        },
        _ => {},
    }
    out.append("\n");
}

fn render_role(out: &mut String, e: &Json, style: &Style, state: &mut RenderState)
    ensures
        final(out)@ == old(out)@ + header_text(old(state).topology_open, style.enabled()) + role_text(
            e@,
            style.enabled(),
        ),
        final(state).topology_open,
        final(state).saw_first_tick == old(state).saw_first_tick,
{
    reveal(role_text);
    ensure_topology_header(out, style, state);
    let actor = str_member_exec(e, "actor");
    let instance = str_member_exec(e, "instance");
    let state_str = match json_member(e, "state") {
        Some(Json::Array(pairs, _)) => format_state_pairs(pairs, style),
        _ => String::new(),
    };
    out.append("    ");
    out.append(style.dim("role").as_str());
    out.append(" ");
    out.append(style.actor(actor.as_str()).as_str());
    out.append(style.dim(".").as_str());
    out.append(style.instance(instance.as_str()).as_str());
    out.append(" ");
    out.append(state_str.as_str());
    out.append("\n");
}

fn render_tick(out: &mut String, e: &Json, style: &Style, state: &mut RenderState)
    ensures
        final(out)@ == old(out)@ + tick_text(e@, style.enabled()),
        final(state).saw_first_tick,
        final(state).topology_open == old(state).topology_open,
{
    reveal(tick_text);
    let n: u64 = match u64_member_exec(e, "n") {
        Some(n) => n,
        None => 0,
    };
    out.append("\n");
    state.saw_first_tick = true;
    let mut title = String::new();
    title.append("tick ");
    write_nat(&mut title, n);
    out.append(style.section(title.as_str()).as_str());
    out.append("\n");
}

/// The line of an assignment that changed nothing.
fn write_unchanged(out: &mut String, instance: &String, field: &String, new_v: &String, style: &Style)
    ensures
        final(out)@ == old(out)@ + ("  "@ + wrap_text(
            style.enabled(),
            "2"@,
            instance@ + " "@ + field@ + " = "@ + new_v@,
        ) + "\n"@),
{
    let mut t = String::new();
    t.append(instance.as_str());
    t.append(" ");
    t.append(field.as_str());
    t.append(" = ");
    t.append(new_v.as_str());
    out.append("  ");
    out.append(style.dim(t.as_str()).as_str());
    out.append("\n");
}

/// The line of an assignment that changed a field.
fn write_changed(
    out: &mut String,
    instance: &String,
    field: &String,
    old_v: &String,
    new_v: &String,
    style: &Style,
)
    ensures
        final(out)@ == old(out)@ + ("  "@ + wrap_text(style.enabled(), "35"@, instance@) + " "@ + wrap_text(
            style.enabled(),
            "33"@,
            field@,
        ) + " "@ + wrap_text(style.enabled(), "2"@, ":"@) + " "@ + wrap_text(style.enabled(), "2"@, old_v@)
            + " "@ + wrap_text(style.enabled(), "2"@, "→"@) + " "@ + wrap_text(
            style.enabled(),
            "32"@,
            new_v@,
        ) + "\n"@),
{
    out.append("  ");
    out.append(style.instance(instance.as_str()).as_str());
    out.append(" ");
    out.append(style.field(field.as_str()).as_str());
    out.append(" ");
    out.append(style.dim(":").as_str());
    out.append(" ");
    out.append(style.value(old_v.as_str()).as_str());
    out.append(" ");
    out.append(style.arrow("→").as_str());
    out.append(" ");
    out.append(style.value_new(new_v.as_str()).as_str());
    out.append("\n");
}

fn render_state_assign(out: &mut String, e: &Json, style: &Style)
    ensures
        final(out)@ == old(out)@ + state_assign_text(e@, style.enabled()),
{
    reveal(state_assign_text);
    let instance = str_member_exec(e, "instance");
    let field = str_member_exec(e, "field");
    let old_json = json_member(e, "old");
    let new_json = json_member(e, "new");
    let old_v = opt_format_value(old_json);
    let new_v = opt_format_value(new_json);
    let unchanged = match (old_json, new_json) {
        (Some(a), Some(b)) => json_eq(a, b),
        (None, None) => true,
        _ => false,
    };
    assert(unchanged == (json_get(e@, "old"@) == json_get(e@, "new"@)));
    if unchanged {
        write_unchanged(out, &instance, &field, &new_v, style);
    } else {
        write_changed(out, &instance, &field, &old_v, &new_v, style);
    }
}

fn render_handler_return(out: &mut String, e: &Json, style: &Style)
    ensures
        final(out)@ == old(out)@ + handler_return_text(e@, style.enabled()),
{
    reveal(handler_return_text);
    let instance = str_member_exec(e, "instance");
    let message = str_member_exec(e, "message");
    let value = opt_format_value(json_member(e, "value"));
    out.append("  ");
    out.append(style.instance(instance.as_str()).as_str());
    out.append(style.dim(".").as_str());
    out.append(style.message(message.as_str()).as_str());
    out.append(" ");
    out.append(style.arrow("⇒").as_str());
    out.append(" ");
    out.append(style.value_return(value.as_str()).as_str());
    out.append("\n");
}

/// Renders one input line, given its JSON parse (`None` when it is not
/// JSON), appending to `out`.
pub fn render_parsed_line(
    out: &mut String,
    line: &str,
    parsed: Option<&Json>,
    style: &Style,
    state: &mut RenderState,
)
    ensures
        ({
            let (text, open, ticked) = line_output(
                line@,
                match parsed {
                    Some(j) => Some(j@),
                    None => None,
                },
                old(state).topology_open,
                old(state).saw_first_tick,
                style.enabled(),
            );
            &&& final(out)@ == old(out)@ + text
            &&& final(state).topology_open == open
            &&& final(state).saw_first_tick == ticked
        }),
{
    let e = match parsed {
        Some(j) => j,
        None => {
            out.append(line);
            out.append("\n");
            return;
        },
    };
    let kind = str_member_exec(e, "event");
    if string_is(&kind, &['a', 'c', 't', 'o', 'r', '_', 'i', 'n', 's', 't', 'a', 'n', 't', 'i', 'a', 't', 'e', 'd']) {
        render_actor(out, e, style, state);
    } else if string_is(&kind, &['r', 'o', 'l', 'e', '_', 'i', 'n', 's', 't', 'a', 'n', 't', 'i', 'a', 't', 'e', 'd']) {
        render_role(out, e, style, state);
    } else if string_is(&kind, &['t', 'i', 'c', 'k']) {
        render_tick(out, e, style, state);
    } else if string_is(&kind, &['s', 't', 'a', 't', 'e', '_', 'a', 's', 's', 'i', 'g', 'n']) {
        render_state_assign(out, e, style);
    } else if string_is(&kind, &['h', 'a', 'n', 'd', 'l', 'e', 'r', '_', 'r', 'e', 't', 'u', 'r', 'n']) {
        render_handler_return(out, e, style);
    } else {
        out.append(line);
        out.append("\n");
    }
}

/// `serde_json::Value`, carried through opaquely.
#[verifier::external_type_specification]
#[verifier::external_body]
pub struct ExJsonValue(JsonValue);

/// What `serde_json` reads from a line: a JSON value, or `None` where the
/// line is not JSON.
pub uninterp spec fn json_of_line(line: Seq<char>) -> Option<SpecJson>;

/// Converts a `serde_json` value into `Json`, one for one; numbers, arrays
/// and objects keep their compact JSON text as `serde_json` writes it.
/// The conversion half of `parse_json_line`: nothing is claimed of it
/// alone.
#[verifier::external_body]
fn json_from_value(v: &JsonValue) -> Json {
    match v {
        JsonValue::Null => Json::Null,
        JsonValue::Bool(b) => Json::Bool(*b),
        JsonValue::Number(n) => Json::Number(n.to_string()),
        JsonValue::String(t) => Json::Str(t.clone()),
        JsonValue::Array(items) => Json::Array(items.iter().map(json_from_value).collect(), v.to_string()),
        JsonValue::Object(map) => Json::Object(
            map.iter().map(|(k, x)| (k.clone(), json_from_value(x))).collect(),
            v.to_string(),
        ),
    }
}

/// Reads a line as JSON with `serde_json::from_str`.
///
/// Trusted: the contract claims only that the result depends on the
/// line's characters alone (it is named `json_of_line`); which lines
/// `serde_json` accepts, and what it reads from them, is not stated.
#[verifier::external_body]
fn parse_json_line(line: &str) -> (r: Option<Json>)
    ensures
        (match r {
            Some(j) => Some(j@),
            None => None::<SpecJson>,
        }) == json_of_line(line@),
{
    match serde_json::from_str::<JsonValue>(line) {
        Ok(v) => Some(json_from_value(&v)),
        Err(_) => None,
    }
}

/// Renders one input line, appending to `out`: the line is read as JSON
/// and rendered as an event, or passes through unchanged.
pub fn render_line(out: &mut String, line: &str, style: &Style, state: &mut RenderState)
    ensures
        ({
            let (text, open, ticked) = line_output(
                line@,
                json_of_line(line@),
                old(state).topology_open,
                old(state).saw_first_tick,
                style.enabled(),
            );
            &&& final(out)@ == old(out)@ + text
            &&& final(state).topology_open == open
            &&& final(state).saw_first_tick == ticked
        }),
{
    let parsed = parse_json_line(line);
    match &parsed {
        Some(j) => render_parsed_line(out, line, Some(j), style, state),
        None => render_parsed_line(out, line, None, style, state),
    }
}

} // verus!
