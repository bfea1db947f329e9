//! Urchin AST: the declarations of one source file, and the mathematical
//! model (`Spec*` types) that the contracts of the parser, the printer,
//! the checker and the runtime speak of.
use vstd::prelude::*;

verus! {

/// A `Module` holds the top-level declarations from one source file.
/// Facets, schemes, and io declarations can appear in any order.
#[derive(Debug, PartialEq, Eq)]
pub struct Module {
    pub facets: Vec<FacetDecl>,
    pub schemes: Vec<SchemeDecl>,
    pub io_decls: Vec<IoDecl>,
}

/// `io <name> { /// _interface ... /// _api_contracts ... /// _connection_handlers ... }`
#[derive(Debug, PartialEq, Eq)]
pub struct IoDecl {
    pub name: String,
    pub interface: Vec<IoInterfaceEntry>,
    pub api_contracts: Vec<TypeAlias>,
    pub connection_handlers: Vec<ConnectionHandler>,
}

/// One entry in an io's `_interface` section.
#[derive(Debug, PartialEq, Eq)]
pub enum IoInterfaceEntry {
    /// `event name: ResultType` — the io produces this; schemes handle via `on`.
    Event { name: String, ty: TypeExpr },
    /// `method name: ArgType -> ResultType` — schemes call this.
    Method { name: String, ty: TypeExpr },
}

/// `name: TypeExpr` in `_api_contracts`.
#[derive(Debug, PartialEq, Eq)]
pub struct TypeAlias {
    pub name: String,
    pub ty: TypeExpr,
}

/// `name = init` in `_connection_handlers`.
#[derive(Debug, PartialEq, Eq)]
pub struct ConnectionHandler {
    pub name: String,
    pub init: Expr,
}

/// A scheme declaration: IO spines, facet instances, dispatch declarations.
/// `parent` is the `@ parent` clause of `scheme mind @ rubberDuck { ... }`.
#[derive(Debug, Clone, PartialEq, Eq)]
pub struct SchemeDecl {
    pub name: String,
    pub parent: Option<String>,
    pub io_spines: Vec<IoSpine>,
    pub facet_instances: Vec<FacetInstance>,
    pub dispatch: Vec<DispatchDecl>,
}

/// `name(io_arg, ...)` — a composed facet instance.
#[derive(Debug, Clone, PartialEq, Eq)]
pub struct FacetInstance {
    pub name: String,
    pub io_args: Vec<String>,
}

/// `on spine.event <mode>`.
#[derive(Debug, Clone, PartialEq, Eq)]
pub struct DispatchDecl {
    pub event: SpineEvent,
    pub mode: DispatchMode,
}

#[derive(Debug, Clone, PartialEq, Eq)]
pub struct SpineEvent {
    pub spine: String,
    pub event: String,
}

#[derive(Debug, Clone, PartialEq, Eq)]
pub enum DispatchMode {
    Parallel,
    Async,
    /// `sequence(a -> b -> c)` — instances fire in declared order.
    Sequence(Vec<String>),
}

/// `name: io.<path>` — a typed channel into the world (sim or real).
#[derive(Debug, Clone, PartialEq, Eq)]
pub struct IoSpine {
    pub name: String,
    pub io_path: Vec<String>,
}

/// A facet body has two sections: state, handlers.
#[derive(Debug, PartialEq, Eq)]
pub struct FacetDecl {
    pub name: String,
    pub state: Vec<StateField>,
    pub handlers: Vec<Handler>,
}

/// State field — `name = init` or `name: type = init`.
#[derive(Debug, PartialEq, Eq)]
pub struct StateField {
    pub name: String,
    pub ty: Option<TypeExpr>,
    pub init: Expr,
}

/// `on TypePath binding? ( -> ReturnTy )? { stmt* }`
#[derive(Debug, PartialEq, Eq)]
pub struct Handler {
    pub message_type: Vec<String>,
    pub binding: Option<String>,
    pub return_ty: Option<TypeExpr>,
    pub body: Vec<Stmt>,
}

/// Statements appear inside handler bodies.
#[derive(Debug, PartialEq, Eq)]
pub enum Stmt {
    /// `name = expr`.
    Assign { name: String, value: Expr },
    /// `if cond { then_body } else { else_body }`. Else is optional.
    If { cond: Expr, then_body: Vec<Stmt>, else_body: Option<Vec<Stmt>> },
    /// A bare expression statement.
    ExprStmt(Expr),
}

/// Expressions. A float literal is kept as the text it was written with.
#[derive(Debug, PartialEq, Eq)]
pub enum Expr {
    Int(i64),
    Float(String),
    Str(String),
    Ident(String),
    Binary(BinOp, Box<Expr>, Box<Expr>),
    /// `name(arg, arg, ...)` — args can mix positional and `name: expr`.
    Call { callee: String, args: Vec<CallArg> },
    /// `[a, b, c]`.
    List(Vec<Expr>),
    /// `expr.field`.
    FieldAccess { object: Box<Expr>, field: String },
    /// `match scrutinee { Pat -> body ... }`
    Match { scrutinee: Box<Expr>, arms: Vec<MatchArm> },
}

#[derive(Debug, PartialEq, Eq)]
pub struct MatchArm {
    pub pattern: Pattern,
    pub body: Vec<Stmt>,
}

#[derive(Debug, Clone, PartialEq, Eq)]
pub enum Pattern {
    /// `_` — matches anything.
    Wildcard,
    /// A type path (`Threat`, `io.sim.Tick`).
    Constructor(Vec<String>),
}

/// A call argument is either positional (`filter(c)`) or named (`filter(by: c)`).
#[derive(Debug, PartialEq, Eq)]
pub enum CallArg {
    Positional(Expr),
    Named { name: String, value: Expr },
}

#[derive(Debug, Clone, Copy, PartialEq, Eq)]
pub enum BinOp {
    Add,
    Sub,
    Mul,
    Div,
    Lt,
    Gt,
    Eq,
    Pipe,
    StateShift,
}

/// `Function` is right-associative; `effects` is the `/ {io.path, ...}` set.
#[derive(Debug, PartialEq, Eq)]
pub enum TypeExpr {
    Path(Vec<String>),
    Function { from: Box<TypeExpr>, to: Box<TypeExpr>, effects: Vec<Vec<String>> },
    /// `[T]`.
    List(Box<TypeExpr>),
    /// `{name: type, ...}`.
    Record(Vec<RecordField>),
}

/// One field in a record type: `name: TypeExpr`.
#[derive(Debug, PartialEq, Eq)]
pub struct RecordField {
    pub name: String,
    pub ty: TypeExpr,
}

// ---------------------------------------------------------------------
// The model: the same tree with strings as `Seq<char>` and lists as `Seq`.

pub type Name = Seq<char>;

pub struct SpecModule {
    pub facets: Seq<SpecFacet>,
    pub schemes: Seq<SpecScheme>,
    pub io_decls: Seq<SpecIoDecl>,
}

pub struct SpecIoDecl {
    pub name: Name,
    pub interface: Seq<SpecIoEntry>,
    pub api_contracts: Seq<SpecTypeAlias>,
    pub connection_handlers: Seq<SpecConnHandler>,
}

pub enum SpecIoEntry {
    Event { name: Name, ty: SpecType },
    Method { name: Name, ty: SpecType },
}

pub struct SpecTypeAlias {
    pub name: Name,
    pub ty: SpecType,
}

pub struct SpecConnHandler {
    pub name: Name,
    pub init: SpecExpr,
}

pub struct SpecScheme {
    pub name: Name,
    pub parent: Option<Name>,
    pub io_spines: Seq<SpecSpine>,
    pub facet_instances: Seq<SpecInstance>,
    pub dispatch: Seq<SpecDispatch>,
}

pub struct SpecInstance {
    pub name: Name,
    pub io_args: Seq<Name>,
}

pub struct SpecDispatch {
    pub spine: Name,
    pub event: Name,
    pub mode: SpecMode,
}

pub enum SpecMode {
    Parallel,
    Async,
    Sequence(Seq<Name>),
}

pub struct SpecSpine {
    pub name: Name,
    pub io_path: Seq<Name>,
}

pub struct SpecFacet {
    pub name: Name,
    pub state: Seq<SpecStateField>,
    pub handlers: Seq<SpecHandler>,
}

pub struct SpecStateField {
    pub name: Name,
    pub ty: Option<SpecType>,
    pub init: SpecExpr,
}

pub struct SpecHandler {
    pub message_type: Seq<Name>,
    pub binding: Option<Name>,
    pub return_ty: Option<SpecType>,
    pub body: Seq<SpecStmt>,
}

pub enum SpecStmt {
    Assign { name: Name, value: SpecExpr },
    If { cond: SpecExpr, then_body: Seq<SpecStmt>, else_body: Option<Seq<SpecStmt>> },
    ExprStmt(SpecExpr),
}

pub enum SpecExpr {
    Int(int),
    Float(Seq<char>),
    Str(Seq<char>),
    Ident(Name),
    Binary(BinOp, Box<SpecExpr>, Box<SpecExpr>),
    Call { callee: Name, args: Seq<SpecArg> },
    List(Seq<SpecExpr>),
    FieldAccess { object: Box<SpecExpr>, field: Name },
    Match { scrutinee: Box<SpecExpr>, arms: Seq<SpecArm> },
}

pub struct SpecArm {
    pub pattern: SpecPattern,
    pub body: Seq<SpecStmt>,
}

pub enum SpecPattern {
    Wildcard,
    Constructor(Seq<Name>),
}

pub enum SpecArg {
    Positional(SpecExpr),
    Named { name: Name, value: SpecExpr },
}

pub enum SpecType {
    Path(Seq<Name>),
    Function { from: Box<SpecType>, to: Box<SpecType>, effects: Seq<Seq<Name>> },
    List(Box<SpecType>),
    Record(Seq<(Name, SpecType)>),
}

// ---------------------------------------------------------------------
// Views.

pub open spec fn names_view(v: Seq<String>) -> Seq<Name> {
    v.map_values(|s: String| s@)
}

pub open spec fn opt_name_view(o: Option<String>) -> Option<Name> {
    match o {
        Some(s) => Some(s@),
        None => None,
    }
}

pub open spec fn paths_view(v: Seq<Vec<String>>) -> Seq<Seq<Name>> {
    v.map_values(|p: Vec<String>| names_view(p@))
}

pub open spec fn type_view(t: &TypeExpr) -> SpecType
    decreases t,
{
    match t {
        TypeExpr::Path(p) => SpecType::Path(names_view(p@)),
        TypeExpr::Function { from, to, effects } => SpecType::Function {
            from: Box::new(type_view(from)),
            to: Box::new(type_view(to)),
            effects: paths_view(effects@),
        },
        TypeExpr::List(inner) => SpecType::List(Box::new(type_view(inner))),
        TypeExpr::Record(fields) => SpecType::Record(
            Seq::new(
                fields@.len(),
                |i: int|
                    if 0 <= i < fields@.len() {
                        proof {
                            broadcast use vstd::std_specs::vec::axiom_vec_index_decreases;
                        }
                        (fields@[i].name@, type_view(&fields@[i].ty))
                    } else {
                        (Seq::empty(), SpecType::Path(Seq::empty()))
                    },
            ),
        ),
    }
}

pub open spec fn opt_type_view(o: &Option<TypeExpr>) -> Option<SpecType> {
    match o {
        Some(t) => Some(type_view(t)),
        None => None,
    }
}

pub open spec fn expr_view(e: &Expr) -> SpecExpr
    decreases e,
{
    match e {
        Expr::Int(n) => SpecExpr::Int(*n as int),
        Expr::Float(s) => SpecExpr::Float(s@),
        Expr::Str(s) => SpecExpr::Str(s@),
        Expr::Ident(s) => SpecExpr::Ident(s@),
        Expr::Binary(op, l, r) => SpecExpr::Binary(*op, Box::new(expr_view(l)), Box::new(expr_view(r))),
        Expr::Call { callee, args } => SpecExpr::Call {
            callee: callee@,
            args: Seq::new(
                args@.len(),
                |i: int|
                    if 0 <= i < args@.len() {
                        proof {
                            broadcast use vstd::std_specs::vec::axiom_vec_index_decreases;
                        }
                        arg_view(&args@[i])
                    } else {
                        SpecArg::Positional(SpecExpr::Int(0))
                    },
            ),
        },
        Expr::List(items) => SpecExpr::List(
            Seq::new(
                items@.len(),
                |i: int|
                    if 0 <= i < items@.len() {
                        proof {
                            broadcast use vstd::std_specs::vec::axiom_vec_index_decreases;
                        }
                        expr_view(&items@[i])
                    } else {
                        SpecExpr::Int(0)
                    },
            ),
        ),
        Expr::FieldAccess { object, field } => SpecExpr::FieldAccess {
            object: Box::new(expr_view(object)),
            field: field@,
        },
        Expr::Match { scrutinee, arms } => SpecExpr::Match {
            scrutinee: Box::new(expr_view(scrutinee)),
            arms: Seq::new(
                arms@.len(),
                |i: int|
                    if 0 <= i < arms@.len() {
                        proof {
                            broadcast use vstd::std_specs::vec::axiom_vec_index_decreases;
                        }
                        arm_view(&arms@[i])
                    } else {
                        SpecArm { pattern: SpecPattern::Wildcard, body: Seq::empty() }
                    },
            ),
        },
    }
}

pub open spec fn arg_view(a: &CallArg) -> SpecArg
    decreases a,
{
    match a {
        CallArg::Positional(e) => SpecArg::Positional(expr_view(e)),
        CallArg::Named { name, value } => SpecArg::Named { name: name@, value: expr_view(value) },
    }
}

pub open spec fn pattern_view(p: &Pattern) -> SpecPattern {
    match p {
        Pattern::Wildcard => SpecPattern::Wildcard,
        Pattern::Constructor(path) => SpecPattern::Constructor(names_view(path@)),
    }
}

pub open spec fn arm_view(a: &MatchArm) -> SpecArm
    decreases a,
{
    SpecArm { pattern: pattern_view(&a.pattern), body: stmts_view(&a.body) }
}

pub open spec fn stmts_view(v: &Vec<Stmt>) -> Seq<SpecStmt>
    decreases v,
{
    Seq::new(
        v@.len(),
        |i: int|
            if 0 <= i < v@.len() {
                proof {
                    broadcast use vstd::std_specs::vec::axiom_vec_index_decreases;
                }
                stmt_view(&v@[i])
            } else {
                SpecStmt::ExprStmt(SpecExpr::Int(0))
            },
    )
}

pub open spec fn stmt_view(s: &Stmt) -> SpecStmt
    decreases s,
{
    match s {
        Stmt::Assign { name, value } => SpecStmt::Assign { name: name@, value: expr_view(value) },
        Stmt::If { cond, then_body, else_body } => SpecStmt::If {
            cond: expr_view(cond),
            then_body: stmts_view(then_body),
            else_body: match else_body {
                Some(b) => Some(stmts_view(b)),
                None => None,
            },
        },
        Stmt::ExprStmt(e) => SpecStmt::ExprStmt(expr_view(e)),
    }
}

impl View for TypeExpr {
    type V = SpecType;

    open spec fn view(&self) -> SpecType {
        type_view(self)
    }
}

impl View for Expr {
    type V = SpecExpr;

    open spec fn view(&self) -> SpecExpr {
        expr_view(self)
    }
}

impl View for Stmt {
    type V = SpecStmt;

    open spec fn view(&self) -> SpecStmt {
        stmt_view(self)
    }
}

impl View for CallArg {
    type V = SpecArg;

    open spec fn view(&self) -> SpecArg {
        arg_view(self)
    }
}

impl View for MatchArm {
    type V = SpecArm;

    open spec fn view(&self) -> SpecArm {
        arm_view(self)
    }
}

impl View for Pattern {
    type V = SpecPattern;

    open spec fn view(&self) -> SpecPattern {
        pattern_view(self)
    }
}

impl View for Handler {
    type V = SpecHandler;

    open spec fn view(&self) -> SpecHandler {
        SpecHandler {
            message_type: names_view(self.message_type@),
            binding: opt_name_view(self.binding),
            return_ty: opt_type_view(&self.return_ty),
            body: stmts_view(&self.body),
        }
    }
}

impl View for StateField {
    type V = SpecStateField;

    open spec fn view(&self) -> SpecStateField {
        SpecStateField { name: self.name@, ty: opt_type_view(&self.ty), init: self.init@ }
    }
}

impl View for FacetDecl {
    type V = SpecFacet;

    open spec fn view(&self) -> SpecFacet {
        SpecFacet {
            name: self.name@,
            state: self.state@.map_values(|f: StateField| f@),
            handlers: self.handlers@.map_values(|h: Handler| h@),
        }
    }
}

impl View for IoSpine {
    type V = SpecSpine;

    open spec fn view(&self) -> SpecSpine {
        SpecSpine { name: self.name@, io_path: names_view(self.io_path@) }
    }
}

impl View for FacetInstance {
    type V = SpecInstance;

    open spec fn view(&self) -> SpecInstance {
        SpecInstance { name: self.name@, io_args: names_view(self.io_args@) }
    }
}

impl View for DispatchMode {
    type V = SpecMode;

    open spec fn view(&self) -> SpecMode {
        match self {
            DispatchMode::Parallel => SpecMode::Parallel,
            DispatchMode::Async => SpecMode::Async,
            DispatchMode::Sequence(v) => SpecMode::Sequence(names_view(v@)),
        }
    }
}

impl View for DispatchDecl {
    type V = SpecDispatch;

    open spec fn view(&self) -> SpecDispatch {
        SpecDispatch { spine: self.event.spine@, event: self.event.event@, mode: self.mode@ }
    }
}

impl View for SchemeDecl {
    type V = SpecScheme;

    open spec fn view(&self) -> SpecScheme {
        SpecScheme {
            name: self.name@,
            parent: opt_name_view(self.parent),
            io_spines: self.io_spines@.map_values(|s: IoSpine| s@),
            facet_instances: self.facet_instances@.map_values(|i: FacetInstance| i@),
            dispatch: self.dispatch@.map_values(|d: DispatchDecl| d@),
        }
    }
}

impl View for IoInterfaceEntry {
    type V = SpecIoEntry;

    open spec fn view(&self) -> SpecIoEntry {
        match self {
            IoInterfaceEntry::Event { name, ty } => SpecIoEntry::Event { name: name@, ty: ty@ },
            IoInterfaceEntry::Method { name, ty } => SpecIoEntry::Method { name: name@, ty: ty@ },
        }
    }
}

impl View for TypeAlias {
    type V = SpecTypeAlias;

    open spec fn view(&self) -> SpecTypeAlias {
        SpecTypeAlias { name: self.name@, ty: self.ty@ }
    }
}

impl View for ConnectionHandler {
    type V = SpecConnHandler;

    open spec fn view(&self) -> SpecConnHandler {
        SpecConnHandler { name: self.name@, init: self.init@ }
    }
}

impl View for IoDecl {
    type V = SpecIoDecl;

    open spec fn view(&self) -> SpecIoDecl {
        SpecIoDecl {
            name: self.name@,
            interface: self.interface@.map_values(|e: IoInterfaceEntry| e@),
            api_contracts: self.api_contracts@.map_values(|a: TypeAlias| a@),
            connection_handlers: self.connection_handlers@.map_values(|c: ConnectionHandler| c@),
        }
    }
}

impl View for Module {
    type V = SpecModule;

    open spec fn view(&self) -> SpecModule {
        SpecModule {
            facets: self.facets@.map_values(|f: FacetDecl| f@),
            schemes: self.schemes@.map_values(|s: SchemeDecl| s@),
            io_decls: self.io_decls@.map_values(|d: IoDecl| d@),
        }
    }
}

pub open spec fn args_view(v: Seq<CallArg>) -> Seq<SpecArg> {
    Seq::new(v.len(), |i: int| v[i]@)
}

pub open spec fn exprs_view(v: Seq<Expr>) -> Seq<SpecExpr> {
    Seq::new(v.len(), |i: int| v[i]@)
}

pub open spec fn arms_view(v: Seq<MatchArm>) -> Seq<SpecArm> {
    Seq::new(v.len(), |i: int| v[i]@)
}

// ---------------------------------------------------------------------
// Copies: each returns a value with the same model as its argument.

pub fn copy_names(v: &Vec<String>) -> (r: Vec<String>)
    ensures
        names_view(r@) == names_view(v@),
{
    let mut out: Vec<String> = Vec::new();
    let mut i: usize = 0;
    while i < v.len()
        invariant
            i <= v.len(),
            out@.len() == i,
            forall|k: int| 0 <= k < i ==> (#[trigger] out@[k])@ == v@[k]@,
        decreases v.len() - i,
    {
        let c = v[i].clone();
        out.push(c);
        i = i + 1;
    }
    assert(names_view(out@) =~= names_view(v@));
    out
}

pub fn copy_opt_name(o: &Option<String>) -> (r: Option<String>)
    ensures
        opt_name_view(r) == opt_name_view(*o),
{
    match o {
        Some(s) => Some(s.clone()),
        None => None,
    }
}

pub fn copy_paths(v: &Vec<Vec<String>>) -> (r: Vec<Vec<String>>)
    ensures
        paths_view(r@) == paths_view(v@),
{
    let mut out: Vec<Vec<String>> = Vec::new();
    let mut i: usize = 0;
    while i < v.len()
        invariant
            i <= v.len(),
            out@.len() == i,
            forall|k: int| 0 <= k < i ==> names_view((#[trigger] out@[k])@) == names_view(v@[k]@),
        decreases v.len() - i,
    {
        let c = copy_names(&v[i]);
        out.push(c);
        i = i + 1;
    }
    assert(paths_view(out@) =~= paths_view(v@));
    out
}

pub fn copy_type(t: &TypeExpr) -> (r: TypeExpr)
    ensures
        r@ == t@,
    decreases t, 1int,
{
    match t {
        TypeExpr::Path(p) => TypeExpr::Path(copy_names(p)),
        TypeExpr::Function { from, to, effects } => TypeExpr::Function {
            from: Box::new(copy_type(from)),
            to: Box::new(copy_type(to)),
            effects: copy_paths(effects),
        },
        TypeExpr::List(inner) => TypeExpr::List(Box::new(copy_type(inner))),
        TypeExpr::Record(fields) => {
            let out = copy_fields(fields);
            let r = TypeExpr::Record(out);
            proof {
                let s1 = match r@ {
                    SpecType::Record(s) => s,
                    _ => Seq::empty(),
                };
                let s2 = match t@ {
                    SpecType::Record(s) => s,
                    _ => Seq::empty(),
                };
                assert(s1 =~= s2);
            }
            r
        },
    }
}

fn copy_fields(fields: &Vec<RecordField>) -> (r: Vec<RecordField>)
    ensures
        r@.len() == fields@.len(),
        forall|k: int|
            0 <= k < fields@.len() ==> (#[trigger] r@[k]).name@ == fields@[k].name@ && type_view(
                &r@[k].ty,
            ) == type_view(&fields@[k].ty),
    decreases fields, 0int,
{
    let mut out: Vec<RecordField> = Vec::new();
    let mut i: usize = 0;
    while i < fields.len()
        invariant
            i <= fields.len(),
            out@.len() == i,
            forall|k: int|
                0 <= k < i ==> (#[trigger] out@[k]).name@ == fields@[k].name@ && type_view(
                    &out@[k].ty,
                ) == type_view(&fields@[k].ty),
        decreases fields.len() - i,
    {
        proof {
            broadcast use vstd::std_specs::vec::axiom_vec_index_decreases;
        }
        let ty = copy_type(&fields[i].ty);
        out.push(RecordField { name: fields[i].name.clone(), ty });
        i = i + 1;
    }
    out
}

pub fn copy_opt_type(o: &Option<TypeExpr>) -> (r: Option<TypeExpr>)
    ensures
        opt_type_view(&r) == opt_type_view(o),
{
    match o {
        Some(t) => Some(copy_type(t)),
        None => None,
    }
}

pub fn copy_pattern(p: &Pattern) -> (r: Pattern)
    ensures
        r@ == p@,
{
    match p {
        Pattern::Wildcard => Pattern::Wildcard,
        Pattern::Constructor(path) => Pattern::Constructor(copy_names(path)),
    }
}

pub fn copy_expr(e: &Expr) -> (r: Expr)
    ensures
        r@ == e@,
    decreases e, 1int,
{
    match e {
        Expr::Int(n) => Expr::Int(*n),
        Expr::Float(t) => Expr::Float(t.clone()),
        Expr::Str(s) => Expr::Str(s.clone()),
        Expr::Ident(n) => Expr::Ident(n.clone()),
        Expr::Binary(op, l, r) => Expr::Binary(*op, Box::new(copy_expr(l)), Box::new(copy_expr(r))),
        Expr::Call { callee, args } => {
            let c = copy_args(args);
            let r = Expr::Call { callee: callee.clone(), args: c };
            proof {
                let s1 = match r@ {
                    SpecExpr::Call { args, .. } => args,
                    _ => Seq::empty(),
                };
                let s2 = match e@ {
                    SpecExpr::Call { args, .. } => args,
                    _ => Seq::empty(),
                };
                assert(s1 =~= s2);
            }
            r
        },
        Expr::List(items) => {
            let c = copy_exprs(items);
            let r = Expr::List(c);
            proof {
                let s1 = match r@ {
                    SpecExpr::List(s) => s,
                    _ => Seq::empty(),
                };
                let s2 = match e@ {
                    SpecExpr::List(s) => s,
                    _ => Seq::empty(),
                };
                assert(s1 =~= s2);
            }
            r
        },
        Expr::FieldAccess { object, field } => Expr::FieldAccess {
            object: Box::new(copy_expr(object)),
            field: field.clone(),
        },
        Expr::Match { scrutinee, arms } => {
            let c = copy_arms(arms);
            let r = Expr::Match { scrutinee: Box::new(copy_expr(scrutinee)), arms: c };
            proof {
                let s1 = match r@ {
                    SpecExpr::Match { arms, .. } => arms,
                    _ => Seq::empty(),
                };
                let s2 = match e@ {
                    SpecExpr::Match { arms, .. } => arms,
                    _ => Seq::empty(),
                };
                assert(s1 =~= s2);
            }
            r
        },
    }
}

fn copy_exprs(v: &Vec<Expr>) -> (r: Vec<Expr>)
    ensures
        r@.len() == v@.len(),
        forall|k: int| 0 <= k < v@.len() ==> (#[trigger] r@[k])@ == v@[k]@,
    decreases v, 0int,
{
    let mut out: Vec<Expr> = Vec::new();
    let mut i: usize = 0;
    while i < v.len()
        invariant
            i <= v.len(),
            out@.len() == i,
            forall|k: int| 0 <= k < i ==> (#[trigger] out@[k])@ == v@[k]@,
        decreases v.len() - i,
    {
        proof {
            broadcast use vstd::std_specs::vec::axiom_vec_index_decreases;
        }
        let c = copy_expr(&v[i]);
        out.push(c);
        i = i + 1;
    }
    out
}

fn copy_args(v: &Vec<CallArg>) -> (r: Vec<CallArg>)
    ensures
        r@.len() == v@.len(),
        forall|k: int| 0 <= k < v@.len() ==> (#[trigger] r@[k])@ == v@[k]@,
    decreases v, 0int,
{
    let mut out: Vec<CallArg> = Vec::new();
    let mut i: usize = 0;
    while i < v.len()
        invariant
            i <= v.len(),
            out@.len() == i,
            forall|k: int| 0 <= k < i ==> (#[trigger] out@[k])@ == v@[k]@,
        decreases v.len() - i,
    {
        proof {
            broadcast use vstd::std_specs::vec::axiom_vec_index_decreases;
        }
        let c = match &v[i] {
            CallArg::Positional(x) => CallArg::Positional(copy_expr(x)),
            CallArg::Named { name, value } => CallArg::Named {
                name: name.clone(),
                value: copy_expr(value),
            },
        };
        out.push(c);
        i = i + 1;
    }
    out
}

fn copy_arms(v: &Vec<MatchArm>) -> (r: Vec<MatchArm>)
    ensures
        r@.len() == v@.len(),
        forall|k: int| 0 <= k < v@.len() ==> (#[trigger] r@[k])@ == v@[k]@,
    decreases v, 0int,
{
    let mut out: Vec<MatchArm> = Vec::new();
    let mut i: usize = 0;
    while i < v.len()
        invariant
            i <= v.len(),
            out@.len() == i,
            forall|k: int| 0 <= k < i ==> (#[trigger] out@[k])@ == v@[k]@,
        decreases v.len() - i,
    {
        proof {
            broadcast use vstd::std_specs::vec::axiom_vec_index_decreases;
        }
        let body = copy_stmts(&v[i].body);
        let c = MatchArm { pattern: copy_pattern(&v[i].pattern), body };
        out.push(c);
        i = i + 1;
    }
    out
}

pub fn copy_stmt(s: &Stmt) -> (r: Stmt)
    ensures
        r@ == s@,
    decreases s, 1int,
{
    match s {
        Stmt::Assign { name, value } => Stmt::Assign { name: name.clone(), value: copy_expr(value) },
        Stmt::If { cond, then_body, else_body } => {
            let t = copy_stmts(then_body);
            let e = match else_body {
                Some(b) => Some(copy_stmts(b)),
                None => None,
            };
            Stmt::If { cond: copy_expr(cond), then_body: t, else_body: e }
        },
        Stmt::ExprStmt(e) => Stmt::ExprStmt(copy_expr(e)),
    }
}

pub fn copy_stmts(v: &Vec<Stmt>) -> (r: Vec<Stmt>)
    ensures
        stmts_view(&r) == stmts_view(v),
    decreases v, 0int,
{
    let mut out: Vec<Stmt> = Vec::new();
    let mut i: usize = 0;
    while i < v.len()
        invariant
            i <= v.len(),
            out@.len() == i,
            forall|k: int| 0 <= k < i ==> (#[trigger] out@[k])@ == v@[k]@,
        decreases v.len() - i,
    {
        proof {
            broadcast use vstd::std_specs::vec::axiom_vec_index_decreases;
        }
        let c = copy_stmt(&v[i]);
        out.push(c);
        i = i + 1;
    }
    assert(stmts_view(&out) =~= stmts_view(v));
    out
}

pub fn copy_handler(h: &Handler) -> (r: Handler)
    ensures
        r@ == h@,
{
    Handler {
        message_type: copy_names(&h.message_type),
        binding: copy_opt_name(&h.binding),
        return_ty: copy_opt_type(&h.return_ty),
        body: copy_stmts(&h.body),
    }
}

pub fn copy_handlers(v: &Vec<Handler>) -> (r: Vec<Handler>)
    ensures
        r@.map_values(|h: Handler| h@) == v@.map_values(|h: Handler| h@),
{
    let mut out: Vec<Handler> = Vec::new();
    let mut i: usize = 0;
    while i < v.len()
        invariant
            i <= v.len(),
            out@.len() == i,
            forall|k: int| 0 <= k < i ==> (#[trigger] out@[k])@ == v@[k]@,
        decreases v.len() - i,
    {
        let c = copy_handler(&v[i]);
        out.push(c);
        i = i + 1;
    }
    assert(out@.map_values(|h: Handler| h@) =~= v@.map_values(|h: Handler| h@));
    out
}

pub fn copy_dispatch_mode(m: &DispatchMode) -> (r: DispatchMode)
    ensures
        r@ == m@,
{
    match m {
        DispatchMode::Parallel => DispatchMode::Parallel,
        DispatchMode::Async => DispatchMode::Async,
        DispatchMode::Sequence(v) => DispatchMode::Sequence(copy_names(v)),
    }
}

pub fn copy_dispatches(v: &Vec<DispatchDecl>) -> (r: Vec<DispatchDecl>)
    ensures
        r@.map_values(|d: DispatchDecl| d@) == v@.map_values(|d: DispatchDecl| d@),
{
    let mut out: Vec<DispatchDecl> = Vec::new();
    let mut i: usize = 0;
    while i < v.len()
        invariant
            i <= v.len(),
            out@.len() == i,
            forall|k: int| 0 <= k < i ==> (#[trigger] out@[k])@ == v@[k]@,
        decreases v.len() - i,
    {
        let d = DispatchDecl {
            event: SpineEvent { spine: v[i].event.spine.clone(), event: v[i].event.event.clone() },
            mode: copy_dispatch_mode(&v[i].mode),
        };
        out.push(d);
        i = i + 1;
    }
    assert(out@.map_values(|d: DispatchDecl| d@) =~= v@.map_values(|d: DispatchDecl| d@));
    out
}

} // verus!
