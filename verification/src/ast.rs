//! The syntax tree of `.ui` files: items, and arenas of nodes, expressions
//! and handlers that refer to each other by index.

use vstd::prelude::*;
use crate::span::{Span, Symbol};

verus! {

#[derive(Clone, Copy, Debug, PartialEq, Eq, Hash, Structural)]
pub struct NodeId(pub u32);

#[derive(Clone, Copy, Debug, PartialEq, Eq, Hash, Structural)]
pub struct ExprId(pub u32);

#[derive(Clone, Copy, Debug, PartialEq, Eq, Hash, Structural)]
pub struct HandlerId(pub u32);

/// A parsed file: its items, and the arenas they index into. `spans` holds
/// one span per arena entry, in the order the entries were added.
#[derive(Debug)]
pub struct Ast {
    pub items: Vec<Item>,
    pub nodes: Vec<AstNode>,
    pub exprs: Vec<Expr>,
    pub handlers: Vec<Handler>,
    pub spans: Vec<Span>,
}

#[derive(Debug)]
pub enum Item {
    Screen(ScreenDef),
    Component(ComponentDef),
    Import(ImportDef),
    Provider(ProviderDef),
}

/// Provider scope: per screen, per app, or one per family key.
#[derive(Clone, Copy, Debug, PartialEq, Eq, Structural)]
pub enum ProviderScope {
    Screen,
    App,
    Family,
}

#[derive(Debug)]
pub struct ProviderDef {
    pub name: Symbol,
    pub scope: ProviderScope,
    pub family_key: Option<Symbol>,
    pub params: Vec<Param>,
    pub states: Vec<StateDef>,
    pub actions: Vec<ActionDef>,
    pub span: Span,
}

#[derive(Debug)]
pub struct ActionDef {
    pub name: Symbol,
    pub params: Vec<Param>,
    pub is_async: bool,
    pub handler: HandlerId,
    pub span: Span,
}

#[derive(Debug)]
pub struct InjectDef {
    pub name: Symbol,
    pub ty: TypeRef,
    pub family_args: Vec<ExprId>,
    pub span: Span,
}

/// A side-effect listener.
#[derive(Clone, Debug)]
pub struct ListenDef {
    pub expr: ExprId,
    pub binding: Symbol,
    pub handler: HandlerId,
    pub span: Span,
}

#[derive(Debug)]
pub struct ScreenDef {
    pub name: Symbol,
    pub params: Vec<Param>,
    pub injects: Vec<InjectDef>,
    pub listens: Vec<ListenDef>,
    pub state: Vec<StateDef>,
    pub lifecycle: Vec<LifecycleDef>,
    pub body: Vec<ScreenBodyItem>,
    pub span: Span,
}

#[derive(Debug)]
pub enum ScreenBodyItem {
    Node(NodeId),
    Match(MatchDef),
}

#[derive(Debug)]
pub struct MatchDef {
    pub expr: ExprId,
    pub arms: Vec<MatchArm>,
    pub span: Span,
}

#[derive(Debug)]
pub struct MatchArm {
    pub pattern: MatchPattern,
    pub body: Vec<NodeId>,
    pub span: Span,
}

#[derive(Clone, Copy, Debug)]
pub enum MatchPattern {
    Ident(Symbol),
    Call { name: Symbol, binding: Option<Symbol> },
    Wildcard,
}

#[derive(Debug)]
pub struct ComponentDef {
    pub name: Symbol,
    pub params: Vec<Param>,
    pub body: Vec<NodeId>,
    pub span: Span,
}

#[derive(Clone, Debug)]
pub struct ImportDef {
    pub path: Vec<Symbol>,
    pub items: Vec<Symbol>,
    pub span: Span,
}

#[derive(Debug)]
pub struct Param {
    pub name: Symbol,
    pub ty: TypeRef,
    pub default: Option<ExprId>,
    pub span: Span,
}

#[derive(Debug)]
pub struct StateDef {
    pub name: Symbol,
    pub ty: TypeRef,
    pub init: ExprId,
    pub span: Span,
}

#[derive(Clone, Copy, Debug)]
pub struct LifecycleDef {
    pub kind: LifecycleKind,
    pub handler: HandlerId,
    pub span: Span,
}

#[derive(Clone, Copy, Debug, PartialEq, Eq, Structural)]
pub enum LifecycleKind {
    OnLoad,
    OnAppear,
    OnDispose,
}

#[derive(Debug)]
pub struct Handler {
    pub stmts: Vec<Stmt>,
    pub span: Span,
}

#[derive(Debug)]
pub enum Stmt {
    Assign { target: LValue, op: AssignOp, value: ExprId, span: Span },
    IncDec { target: LValue, op: IncDecOp, span: Span },
    Call { callee: ExprId, span: Span },
    If { cond: ExprId, then_: Vec<Stmt>, else_: Option<Vec<Stmt>>, span: Span },
    Await { expr: ExprId, span: Span },
}

#[derive(Clone, Debug)]
pub struct LValue {
    pub path: Vec<Symbol>,
    pub span: Span,
}

/// Assignment operators; `Store` is plain `=`.
#[derive(Clone, Copy, Debug, PartialEq, Eq, Structural)]
pub enum AssignOp {
    Store,
    Add,
    Sub,
    Mul,
    Div,
}

#[derive(Clone, Copy, Debug, PartialEq, Eq, Structural)]
pub enum IncDecOp {
    Inc,
    Dec,
}

#[derive(Debug)]
pub enum AstNode {
    Element {
        kind: Symbol,
        args: Vec<Arg>,
        modifiers: Vec<Modifier>,
        children: Vec<NodeId>,
        handler: Option<HandlerId>,
        span: Span,
    },
    If { cond: ExprId, then_: Vec<NodeId>, else_: Option<Vec<NodeId>>, span: Span },
    List { source: ExprId, key: Option<ExprId>, binding: Symbol, body: Vec<NodeId>, span: Span },
    Error,
}

#[derive(Clone, Copy, Debug)]
pub struct Arg {
    pub name: Option<Symbol>,
    pub value: ExprId,
    pub span: Span,
}

#[derive(Clone, Debug)]
pub struct Modifier {
    pub name: Symbol,
    pub args: Vec<Arg>,
    pub span: Span,
}

/// An expression. A float literal keeps the bytes it was written with.
#[derive(Debug)]
pub enum Expr {
    Int(i64),
    Float(Vec<u8>),
    Bool(bool),
    Str(Symbol),
    Interp(Vec<InterpPart>),
    Ident(Symbol),
    Field { base: ExprId, field: Symbol, span: Span },
    Call { callee: ExprId, args: Vec<Arg>, span: Span },
    Await(ExprId, Span),
    Unary { op: UnOp, rhs: ExprId, span: Span },
    Binary { op: BinOp, lhs: ExprId, rhs: ExprId, span: Span },
    Error,
}

#[derive(Clone, Copy, Debug)]
pub enum InterpPart {
    Text(Symbol),
    Expr(ExprId),
}

#[derive(Clone, Copy, Debug, PartialEq, Eq, Structural)]
pub enum UnOp {
    Not,
    Neg,
}

#[derive(Clone, Copy, Debug, PartialEq, Eq, Structural)]
pub enum BinOp {
    Or,
    And,
    Eq,
    NotEq,
    Lt,
    Gt,
    LtEq,
    GtEq,
    Add,
    Sub,
    Mul,
    Div,
    Mod,
}

/// Left and right binding power of a binary operator.
pub open spec fn binding_power(op: BinOp) -> (u8, u8) {
    match op {
        BinOp::Or => (1, 2),
        BinOp::And => (3, 4),
        BinOp::Eq | BinOp::NotEq => (5, 6),
        BinOp::Lt | BinOp::Gt | BinOp::LtEq | BinOp::GtEq => (7, 8),
        BinOp::Add | BinOp::Sub => (9, 10),
        BinOp::Mul | BinOp::Div | BinOp::Mod => (11, 12),
    }
}

impl BinOp {
    pub fn precedence(&self) -> (p: (u8, u8))
        ensures
            p == binding_power(*self),
    {
        match self {
            BinOp::Or => (1, 2),
            BinOp::And => (3, 4),
            BinOp::Eq | BinOp::NotEq => (5, 6),
            BinOp::Lt | BinOp::Gt | BinOp::LtEq | BinOp::GtEq => (7, 8),
            BinOp::Add | BinOp::Sub => (9, 10),
            BinOp::Mul | BinOp::Div | BinOp::Mod => (11, 12),
        }
    }
}

/// Every operator binds tighter on its right than on its left, so chains of
/// one operator group to the left; and each level binds tighter than the
/// levels before it (or, and, equality, comparison, sum, product).
pub proof fn lemma_precedence_levels(a: BinOp, b: BinOp)
    ensures
        binding_power(a).0 < binding_power(a).1,
        binding_power(a).1 == binding_power(a).0 + 1,
        binding_power(a).0 % 2 == 1,
        binding_power(a).0 < binding_power(b).0 ==> binding_power(a).1 <= binding_power(b).0,
{
}

#[derive(Debug)]
pub struct TypeRef {
    pub name: Symbol,
    pub generics: Vec<TypeRef>,
    pub optional: bool,
    pub span: Span,
}

impl TypeRef {
    /// A plain type: no generics, not optional.
    pub fn simple(name: Symbol, span: Span) -> (t: TypeRef)
        ensures
            t.name == name,
            t.generics@.len() == 0,
            !t.optional,
            t.span == span,
    {
        TypeRef { name, generics: Vec::new(), optional: false, span }
    }
}

impl Ast {
    /// How many arena entries there are.
    pub open spec fn entries(&self) -> int {
        (self.exprs@.len() + self.nodes@.len() + self.handlers@.len()) as int
    }

    pub fn new() -> (a: Ast)
        ensures
            a.items@.len() == 0,
            a.nodes@.len() == 0,
            a.exprs@.len() == 0,
            a.handlers@.len() == 0,
            a.spans@.len() == 0,
    {
        Ast { items: Vec::new(), nodes: Vec::new(), exprs: Vec::new(), handlers: Vec::new(), spans: Vec::new() }
    }

    /// Adds an expression; its id is its index.
    pub fn add_expr(&mut self, expr: Expr, span: Span) -> (id: ExprId)
        ensures
            id.0 == old(self).exprs@.len() as u32,
            final(self).exprs@ == old(self).exprs@.push(expr),
            final(self).spans@ == old(self).spans@.push(span),
            final(self).nodes@ == old(self).nodes@,
            final(self).handlers@ == old(self).handlers@,
            final(self).items@ == old(self).items@,
    {
        let id = ExprId(self.exprs.len() as u32);
        self.exprs.push(expr);
        self.spans.push(span);
        id
    }

    /// Adds a node; its id is its index.
    pub fn add_node(&mut self, node: AstNode, span: Span) -> (id: NodeId)
        ensures
            id.0 == old(self).nodes@.len() as u32,
            final(self).nodes@ == old(self).nodes@.push(node),
            final(self).spans@ == old(self).spans@.push(span),
            final(self).exprs@ == old(self).exprs@,
            final(self).handlers@ == old(self).handlers@,
            final(self).items@ == old(self).items@,
    {
        let id = NodeId(self.nodes.len() as u32);
        self.nodes.push(node);
        self.spans.push(span);
        id
    }

    /// Adds a handler; its id is its index.
    pub fn add_handler(&mut self, handler: Handler, span: Span) -> (id: HandlerId)
        ensures
            id.0 == old(self).handlers@.len() as u32,
            final(self).handlers@ == old(self).handlers@.push(handler),
            final(self).spans@ == old(self).spans@.push(span),
            final(self).exprs@ == old(self).exprs@,
            final(self).nodes@ == old(self).nodes@,
            final(self).items@ == old(self).items@,
    {
        let id = HandlerId(self.handlers.len() as u32);
        self.handlers.push(handler);
        self.spans.push(span);
        id
    }
}

} // verus!

verus! {

/// The sizes of the three arenas: expressions, nodes, handlers.
pub struct Arenas {
    pub exprs: int,
    pub nodes: int,
    pub handlers: int,
}

pub open spec fn arenas_of(a: Ast) -> Arenas {
    Arenas { exprs: a.exprs@.len() as int, nodes: a.nodes@.len() as int, handlers: a.handlers@.len() as int }
}

/// Arenas `b` hold at least as many entries of each kind as `a`.
pub open spec fn grown(a: Arenas, b: Arenas) -> bool {
    a.exprs <= b.exprs && a.nodes <= b.nodes && a.handlers <= b.handlers
}

pub open spec fn expr_id_ok(e: ExprId, s: Arenas) -> bool {
    e.0 < s.exprs
}

pub open spec fn node_ids_ok(ns: Seq<NodeId>, s: Arenas) -> bool {
    forall|i: int| 0 <= i < ns.len() ==> #[trigger] ns[i].0 < s.nodes
}

pub open spec fn args_ok(args: Seq<Arg>, s: Arenas) -> bool {
    forall|i: int| 0 <= i < args.len() ==> expr_id_ok(#[trigger] args[i].value, s)
}

pub open spec fn parts_ok(parts: Seq<InterpPart>, s: Arenas) -> bool {
    forall|i: int|
        0 <= i < parts.len() ==> match #[trigger] parts[i] {
            InterpPart::Expr(e) => expr_id_ok(e, s),
            InterpPart::Text(_) => true,
        }
}

/// Every id an expression holds is in the arenas.
pub open spec fn expr_refs_ok(e: Expr, s: Arenas) -> bool {
    match e {
        Expr::Interp(parts) => parts_ok(parts@, s),
        Expr::Field { base, .. } => expr_id_ok(base, s),
        Expr::Call { callee, args, .. } => expr_id_ok(callee, s) && args_ok(args@, s),
        Expr::Await(inner, _) => expr_id_ok(inner, s),
        Expr::Unary { rhs, .. } => expr_id_ok(rhs, s),
        Expr::Binary { lhs, rhs, .. } => expr_id_ok(lhs, s) && expr_id_ok(rhs, s),
        _ => true,
    }
}

pub open spec fn modifiers_ok(ms: Seq<Modifier>, s: Arenas) -> bool {
    forall|i: int| 0 <= i < ms.len() ==> args_ok(#[trigger] ms[i].args@, s)
}

pub open spec fn node_refs_ok(n: AstNode, s: Arenas) -> bool {
    match n {
        AstNode::Element { args, modifiers, children, handler, .. } => args_ok(args@, s) && modifiers_ok(
            modifiers@,
            s,
        ) && node_ids_ok(children@, s) && match handler {
            Some(h) => h.0 < s.handlers,
            None => true,
        },
        AstNode::If { cond, then_, else_, .. } => expr_id_ok(cond, s) && node_ids_ok(then_@, s) && match else_ {
            Some(e) => node_ids_ok(e@, s),
            None => true,
        },
        AstNode::List { source, key, body, .. } => expr_id_ok(source, s) && match key {
            Some(k) => expr_id_ok(k, s),
            None => true,
        } && node_ids_ok(body@, s),
        AstNode::Error => true,
    }
}

pub open spec fn stmt_refs_ok(st: Stmt, s: Arenas) -> bool
    decreases st,
{
    match st {
        Stmt::Assign { target, value, .. } => expr_id_ok(value, s) && target.path@.len() > 0,
        Stmt::IncDec { target, .. } => target.path@.len() > 0,
        Stmt::Call { callee, .. } => expr_id_ok(callee, s),
        Stmt::If { cond, then_, else_, .. } => expr_id_ok(cond, s) && (forall|i: int|
            0 <= i < then_@.len() ==> stmt_refs_ok(#[trigger] then_@[i], s)) && match else_ {
            Some(e) => forall|i: int| 0 <= i < e@.len() ==> stmt_refs_ok(#[trigger] e@[i], s),
            None => true,
        },
        Stmt::Await { expr, .. } => expr_id_ok(expr, s),
    }
}

pub open spec fn stmts_ok(sts: Seq<Stmt>, s: Arenas) -> bool {
    forall|i: int| 0 <= i < sts.len() ==> stmt_refs_ok(#[trigger] sts[i], s)
}

pub open spec fn params_ok(ps: Seq<Param>, s: Arenas) -> bool {
    forall|i: int|
        0 <= i < ps.len() ==> match #[trigger] ps[i].default {
            Some(d) => expr_id_ok(d, s),
            None => true,
        }
}

pub open spec fn states_ok(ss: Seq<StateDef>, s: Arenas) -> bool {
    forall|i: int| 0 <= i < ss.len() ==> expr_id_ok(#[trigger] ss[i].init, s)
}

pub open spec fn actions_ok(acts: Seq<ActionDef>, s: Arenas) -> bool {
    forall|i: int| 0 <= i < acts.len() ==> params_ok(#[trigger] acts[i].params@, s) && acts[i].handler.0 < s.handlers
}

pub open spec fn body_item_ok(b: ScreenBodyItem, s: Arenas) -> bool {
    match b {
        ScreenBodyItem::Node(n) => n.0 < s.nodes,
        ScreenBodyItem::Match(m) => expr_id_ok(m.expr, s) && forall|k: int|
            0 <= k < m.arms@.len() ==> node_ids_ok(#[trigger] m.arms@[k].body@, s),
    }
}

pub open spec fn injects_ok(is: Seq<InjectDef>, s: Arenas) -> bool {
    forall|i: int, j: int|
        0 <= i < is.len() && 0 <= j < is[i].family_args@.len() ==> expr_id_ok(#[trigger] is[i].family_args@[j], s)
}

pub open spec fn listens_ok(ls: Seq<ListenDef>, s: Arenas) -> bool {
    forall|i: int| 0 <= i < ls.len() ==> expr_id_ok(#[trigger] ls[i].expr, s) && ls[i].handler.0 < s.handlers
}

pub open spec fn item_refs_ok(it: Item, s: Arenas) -> bool {
    match it {
        Item::Screen(d) => params_ok(d.params@, s) && states_ok(d.state@, s) && (forall|i: int|
            0 <= i < d.lifecycle@.len() ==> #[trigger] d.lifecycle@[i].handler.0 < s.handlers) && (forall|i: int|
            0 <= i < d.body@.len() ==> body_item_ok(#[trigger] d.body@[i], s)) && injects_ok(d.injects@, s) && listens_ok(
            d.listens@,
            s,
        ),
        Item::Component(d) => params_ok(d.params@, s) && node_ids_ok(d.body@, s),
        Item::Import(_) => true,
        Item::Provider(d) => params_ok(d.params@, s) && states_ok(d.states@, s) && actions_ok(d.actions@, s),
    }
}

/// The arenas `s` with only the expressions before expression `i`.
pub open spec fn below_expr(s: Arenas, i: int) -> Arenas {
    Arenas { exprs: i, nodes: s.nodes, handlers: s.handlers }
}

/// The arenas `s` with only the nodes before node `i`.
pub open spec fn below_node(s: Arenas, i: int) -> Arenas {
    Arenas { exprs: s.exprs, nodes: i, handlers: s.handlers }
}

/// Every id held anywhere in the tree names an entry of its arena, the parts of
/// an expression come before it in the expression arena, a node's children
/// come before it in the node arena, and there is one span per entry.
pub open spec fn ast_wf(a: Ast) -> bool {
    let s = arenas_of(a);
    &&& a.spans@.len() == a.entries()
    &&& forall|i: int| 0 <= i < a.exprs@.len() ==> expr_refs_ok(#[trigger] a.exprs@[i], below_expr(s, i))
    &&& forall|i: int| 0 <= i < a.nodes@.len() ==> node_refs_ok(#[trigger] a.nodes@[i], below_node(s, i))
    &&& forall|i: int| 0 <= i < a.handlers@.len() ==> stmts_ok(#[trigger] a.handlers@[i].stmts@, s)
    &&& forall|i: int| 0 <= i < a.items@.len() ==> item_refs_ok(#[trigger] a.items@[i], s)
}

} // verus!
