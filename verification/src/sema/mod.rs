//! Semantic analysis: lowers a parsed file to the UI IR.

pub mod builtins;
pub mod provider;

use vstd::prelude::*;
use vstd::string::StringExecFns;
use crate::ast::{
    ast_wf, below_expr, below_node, expr_refs_ok, node_refs_ok, parts_ok, stmt_refs_ok, Arg, Ast, AstNode,
    AssignOp as AstAssignOp, Expr, ExprId as AstExprId, HandlerId as AstHandlerId, IncDecOp, InjectDef, InterpPart,
    NodeId as AstNodeId, ComponentDef, Item, MatchArm, MatchPattern, ScreenBodyItem, ScreenDef, Stmt, item_refs_ok,
    body_item_ok,
};
use crate::bytes::bytes_eq;
use crate::ir::{
    dep_table_of, total_reads, AssignOp, CompiledAction, ComponentIr, DepTable, ExprId, HandlerBody, HandlerId,
    HandlerIr, IrExpr, ListenIr, NodeId, NodeIr, NodeKind, ParamDef, PropKey, ProviderIr, ScreenIr, SlotDef, SlotId,
    StaticProp, UiIr, UpdateOp,
};
use crate::num::{copy_float, float_view, FloatLit};
use crate::platform::host::{string_from_utf8_lossy, utf8_lossy};
use crate::sema::builtins::{primary_prop, primary_prop_of, resolve_type, type_of};
use crate::sema::provider::{
    compile_provider_actions, find_slot, indexes, lookup, lower_provider_item, path_slot, provider_item,
    readonly_lowers_to, register_provider_slots, sym_text, text_of, ProviderIndex, SlotEntry, SlotKey,
};
use crate::span::{Interner, Span, Symbol};

verus! {

/// The value of a float literal, worked out by the caller: the library keeps
/// floating-point arithmetic out.
pub struct FloatValue {
    pub literal: Vec<u8>,
    pub value: FloatLit,
}

/// The value given last for the literal text `lit`, if any.
pub open spec fn float_of(table: Seq<FloatValue>, lit: Seq<u8>) -> Option<FloatLit>
    decreases table.len(),
{
    if table.len() == 0 {
        None
    } else if table.last().literal@ == lit {
        Some(table.last().value)
    } else {
        float_of(table.drop_last(), lit)
    }
}

fn find_float(table: &Vec<FloatValue>, lit: &[u8]) -> (r: Option<FloatLit>)
    ensures
        match float_of(table@, lit@) {
            Some(f) => r matches Some(g) && float_view(g) == float_view(f),
            None => r is None,
        },
{
    let mut i: usize = table.len();
    assert(table@.take(i as int) =~= table@);
    while i > 0
        invariant
            i <= table@.len(),
            float_of(table@, lit@) == float_of(table@.take(i as int), lit@),
        decreases i,
    {
        proof {
            assert(table@.take(i as int).drop_last() =~= table@.take(i - 1));
        }
        if bytes_eq(table[i - 1].literal.as_slice(), lit) {
            return Some(copy_float(&table[i - 1].value));
        }
        i = i - 1;
    }
    None
}

/// Every slot an expression names is below `n`; it adds to no slot.
pub open spec fn slots_below(e: IrExpr, n: int) -> bool
    decreases e, 0int,
{
    match e {
        IrExpr::Slot(s) => s.0 < n,
        IrExpr::Add(..) => false,
        IrExpr::Concat(xs) => all_slots_below(xs@, n, 0),
        _ => true,
    }
}

pub open spec fn all_slots_below(xs: Seq<IrExpr>, n: int, i: int) -> bool
    decreases xs, xs.len() - i,
{
    if i < 0 || i >= xs.len() {
        true
    } else {
        slots_below(xs[i], n) && all_slots_below(xs, n, i + 1)
    }
}

/// An expression whose slots are below the number of slots evaluates.
pub proof fn lemma_slots_below_ok(e: IrExpr, ints: Seq<i64>)
    requires
        slots_below(e, ints.len() as int),
    ensures
        crate::runtime::reactive::expr_ok(e, ints),
    decreases e, 0int,
{
    match e {
        IrExpr::Concat(xs) => lemma_all_below_ok(xs@, ints, 0),
        _ => {},
    }
}

proof fn lemma_all_below_ok(xs: Seq<IrExpr>, ints: Seq<i64>, i: int)
    requires
        all_slots_below(xs, ints.len() as int, i),
    ensures
        crate::runtime::reactive::parts_ok(xs, ints, i),
    decreases xs, xs.len() - i,
{
    if 0 <= i < xs.len() {
        lemma_slots_below_ok(xs[i], ints);
        lemma_all_below_ok(xs, ints, i + 1);
    }
}

/// A piece of interpolated text: literal text, or the value of a slot.
pub enum Piece {
    Text(Seq<char>),
    Slot(SlotId),
}

pub open spec fn piece_is(e: IrExpr, p: Piece) -> bool {
    match p {
        Piece::Text(t) => e matches IrExpr::Str(s) && s@ == t,
        Piece::Slot(s) => e == IrExpr::Slot(s),
    }
}

pub open spec fn pieces_are(xs: Seq<IrExpr>, ps: Seq<Piece>) -> bool {
    &&& xs.len() == ps.len()
    &&& forall|i: int| 0 <= i < xs.len() ==> piece_is(#[trigger] xs[i], ps[i])
}

pub open spec fn slots_sorted(s: Seq<SlotId>) -> bool {
    forall|i: int, j: int| 0 <= i < j < s.len() ==> (#[trigger] s[i]).0 < (#[trigger] s[j]).0
}

/// The slots for which `p` holds, ascending, each once.
pub open spec fn sorted_slots(p: spec_fn(SlotId) -> bool) -> Seq<SlotId> {
    choose|r: Seq<SlotId>| slots_sorted(r) && forall|s: SlotId| #[trigger] r.contains(s) <==> p(s)
}

/// Two ascending slot lists with the same slots are equal.
pub proof fn lemma_sorted_unique(a: Seq<SlotId>, b: Seq<SlotId>)
    requires
        slots_sorted(a),
        slots_sorted(b),
        forall|s: SlotId| a.contains(s) <==> b.contains(s),
    ensures
        a == b,
    decreases a.len(),
{
    if a.len() == 0 {
        if b.len() > 0 {
            assert(b.contains(b[0]));
        }
        assert(a =~= b);
    } else {
        assert(a.contains(a[0]));
        assert(b.len() > 0);
        assert(b.contains(b[0]));
        let j = choose|j: int| 0 <= j < b.len() && b[j] == a[0];
        let i = choose|i: int| 0 <= i < a.len() && a[i] == b[0];
        if i > 0 {
            assert(a[0].0 < a[i].0);
        }
        if j > 0 {
            assert(b[0].0 < b[j].0);
        }
        assert(a[0] == b[0]);
        let ta = a.drop_first();
        let tb = b.drop_first();
        assert forall|s: SlotId| ta.contains(s) <==> tb.contains(s) by {
            if ta.contains(s) {
                let k = choose|k: int| 0 <= k < ta.len() && ta[k] == s;
                assert(a[k + 1] == s);
                assert(a[0].0 < a[k + 1].0);
                assert(a.contains(s));
                let l = choose|l: int| 0 <= l < b.len() && b[l] == s;
                assert(l != 0);
                assert(tb[l - 1] == s);
            }
            if tb.contains(s) {
                let k = choose|k: int| 0 <= k < tb.len() && tb[k] == s;
                assert(b[k + 1] == s);
                assert(b[0].0 < b[k + 1].0);
                assert(b.contains(s));
                let l = choose|l: int| 0 <= l < a.len() && a[l] == s;
                assert(l != 0);
                assert(ta[l - 1] == s);
            }
        }
        lemma_sorted_unique(ta, tb);
        assert(a =~= b) by {
            assert forall|k: int| 0 <= k < a.len() implies a[k] == b[k] by {
                if k > 0 {
                    assert(a[k] == ta[k - 1]);
                }
            }
        }
    }
}

/// An ascending list of exactly the slots for which `p` holds is `sorted_slots(p)`.
pub proof fn lemma_sorted_slots(p: spec_fn(SlotId) -> bool, r: Seq<SlotId>)
    requires
        slots_sorted(r),
        forall|s: SlotId| #[trigger] r.contains(s) <==> p(s),
    ensures
        sorted_slots(p) == r,
{
    let c = sorted_slots(p);
    assert(slots_sorted(c) && forall|s: SlotId| #[trigger] c.contains(s) <==> p(s));
    lemma_sorted_unique(c, r);
}

/// Adds `x` to the ascending list `v` unless it is there.
#[verifier::spinoff_prover]
fn insert_slot(v: &mut Vec<SlotId>, x: SlotId)
    requires
        slots_sorted(old(v)@),
    ensures
        slots_sorted(final(v)@),
        forall|s: SlotId| #[trigger] final(v)@.contains(s) <==> (old(v)@.contains(s) || s == x),
{
    let mut i: usize = 0;
    while i < v.len() && v[i].0 < x.0
        invariant
            i <= v@.len(),
            v@ == old(v)@,
            slots_sorted(v@),
            forall|j: int| 0 <= j < i ==> (#[trigger] v@[j]).0 < x.0,
        decreases v@.len() - i,
    {
        i = i + 1;
    }
    if i < v.len() && v[i].0 == x.0 {
        assert(v@[i as int] == x);
        return;
    }
    let ghost old_v = v@;
    proof {
        if i < old_v.len() {
            assert forall|j: int| i <= j < old_v.len() implies x.0 < (#[trigger] old_v[j]).0 by {
                if j > i {
                    assert(old_v[i as int].0 < old_v[j].0);
                }
            }
        }
    }
    v.insert(i, x);
    proof {
        assert forall|a: int, b: int| 0 <= a < b < v@.len() implies (#[trigger] v@[a]).0 < (#[trigger] v@[b]).0 by {
            if b < i {
            } else if b == i {
            } else if a < i {
                assert(v@[b] == old_v[b - 1]);
            } else if a == i {
                assert(v@[b] == old_v[b - 1]);
            } else {
                assert(v@[a] == old_v[a - 1]);
                assert(v@[b] == old_v[b - 1]);
            }
        }
        assert forall|s: SlotId| v@.contains(s) <==> (old_v.contains(s) || s == x) by {
            if v@.contains(s) {
                let j = choose|j: int| 0 <= j < v@.len() && v@[j] == s;
                if j < i {
                    assert(old_v[j] == s);
                } else if j > i {
                    assert(old_v[j - 1] == s);
                }
            }
            if old_v.contains(s) {
                let j = choose|j: int| 0 <= j < old_v.len() && old_v[j] == s;
                if j < i {
                    assert(v@[j] == s);
                } else {
                    assert(v@[j + 1] == s);
                }
            }
            if s == x {
                assert(v@[i as int] == x);
            }
        }
    }
}

/// Whether expression `id` reads slot `s`: a state name, a provider field
/// `inject.field`, or a slot read inside an interpolation.
pub open spec fn reads_slot(exprs: Seq<Expr>, entries: Seq<SlotEntry>, id: int, s: SlotId) -> bool
    decreases id,
{
    if 0 <= id < exprs.len() {
        match exprs[id] {
            Expr::Ident(sym) => lookup(entries, SlotKey { prefix: None, field: sym }) == Some(s),
            Expr::Field { base, field, .. } => 0 <= base.0 < exprs.len() && (exprs[base.0 as int] matches Expr::Ident(
                p,
            ) && lookup(entries, SlotKey { prefix: Some(p), field: field }) == Some(s)),
            Expr::Interp(parts) => exists|k: int|
                0 <= k < parts@.len() && (#[trigger] parts@[k] matches InterpPart::Expr(e) && (e.0 as int) < id
                    && reads_slot(exprs, entries, e.0 as int, s)),
            _ => false,
        }
    } else {
        false
    }
}

/// The slots expression `id` reads, ascending.
pub open spec fn read_list(exprs: Seq<Expr>, entries: Seq<SlotEntry>, id: int) -> Seq<SlotId> {
    sorted_slots(|s: SlotId| reads_slot(exprs, entries, id, s))
}

/// The scope names resolve in while lowering one screen or component.
pub struct LowerCtx {
    pub slots: Vec<SlotDef>,
    pub slot_map: Vec<SlotEntry>,
}

/// Every registered slot exists.
pub open spec fn ctx_ok(ctx: LowerCtx) -> bool {
    &&& ctx.slots@.len() <= u32::MAX
    &&& forall|i: int| 0 <= i < ctx.slot_map@.len() ==> (#[trigger] ctx.slot_map@[i]).slot.0 < ctx.slots@.len()
}

proof fn lemma_wf_expr(ast: Ast, id: int)
    requires
        ast_wf(ast),
        0 <= id < ast.exprs@.len(),
    ensures
        expr_refs_ok(ast.exprs@[id], below_expr(crate::ast::arenas_of(ast), id)),
{
}

/// The slots an expression reads, ascending, each once.
pub fn collect_expr_reads(ast: &Ast, ctx: &LowerCtx, expr_id: AstExprId) -> (r: Vec<SlotId>)
    requires
        ast_wf(*ast),
        (expr_id.0 as int) < ast.exprs@.len(),
    ensures
        r@ == read_list(ast.exprs@, ctx.slot_map@, expr_id.0 as int),
        slots_sorted(r@),
        forall|s: SlotId| #[trigger] r@.contains(s) <==> reads_slot(ast.exprs@, ctx.slot_map@, expr_id.0 as int, s),
    decreases expr_id.0,
{
    let ghost exprs = ast.exprs@;
    let ghost entries = ctx.slot_map@;
    let ghost id = expr_id.0 as int;
    let ghost p = |s: SlotId| reads_slot(exprs, entries, id, s);
    proof {
        lemma_wf_expr(*ast, id);
    }
    let r: Vec<SlotId> = match &ast.exprs[expr_id.0 as usize] {
        Expr::Ident(sym) => {
            match find_slot(&ctx.slot_map, SlotKey { prefix: None, field: *sym }) {
                Some(s) => {
                    let v = vec![s];
                    assert(v@ =~= seq![s]);
                    v
                },
                None => Vec::new(),
            }
        },
        Expr::Field { base, field, .. } => {
            if let Expr::Ident(prefix) = &ast.exprs[base.0 as usize] {
                match find_slot(&ctx.slot_map, SlotKey { prefix: Some(*prefix), field: *field }) {
                    Some(s) => {
                        let v = vec![s];
                        assert(v@ =~= seq![s]);
                        v
                    },
                    None => Vec::new(),
                }
            } else {
                Vec::new()
            }
        },
        Expr::Interp(parts) => {
            let mut reads: Vec<SlotId> = Vec::new();
            let mut k: usize = 0;
            while k < parts.len()
                invariant
                    ast_wf(*ast),
                    id == expr_id.0,
                    exprs == ast.exprs@,
                    entries == ctx.slot_map@,
                    0 <= id < exprs.len(),
                    exprs[id] == Expr::Interp(*parts),
                    parts_ok(parts@, below_expr(crate::ast::arenas_of(*ast), id)),
                    k <= parts@.len(),
                    slots_sorted(reads@),
                    forall|s: SlotId| #[trigger] reads@.contains(s) <==> exists|j: int|
                        0 <= j < k && (#[trigger] parts@[j] matches InterpPart::Expr(e) && (e.0 as int) < id
                            && reads_slot(exprs, entries, e.0 as int, s)),
                decreases parts@.len() - k,
            {
                let ghost before = reads@;
                match &parts[k] {
                    InterpPart::Expr(e) => {
                        assert(crate::ast::expr_id_ok(*e, below_expr(crate::ast::arenas_of(*ast), id)));
                        let sub = collect_expr_reads(ast, ctx, *e);
                        let mut m: usize = 0;
                        while m < sub.len()
                            invariant
                                m <= sub@.len(),
                                slots_sorted(reads@),
                                forall|s: SlotId| #[trigger] reads@.contains(s) <==> (before.contains(s) || sub@.take(m as int).contains(s)),
                            decreases sub@.len() - m,
                        {
                            let ghost mid = reads@;
                            insert_slot(&mut reads, sub[m]);
                            proof {
                                assert forall|s: SlotId| reads@.contains(s) <==> (before.contains(s) || sub@.take(m + 1).contains(s)) by {
                                    let t0 = sub@.take(m as int);
                                    let t1 = sub@.take(m + 1);
                                    if t0.contains(s) {
                                        let j = choose|j: int| 0 <= j < t0.len() && t0[j] == s;
                                        assert(t1[j] == s);
                                    }
                                    if t1.contains(s) {
                                        let j = choose|j: int| 0 <= j < t1.len() && t1[j] == s;
                                        if j < m {
                                            assert(t0[j] == s);
                                        }
                                    }
                                    if s == sub@[m as int] {
                                        assert(sub@.take(m + 1)[m as int] == s);
                                    }
                                }
                            }
                            m = m + 1;
                        }
                        proof {
                            assert(sub@.take(sub@.len() as int) =~= sub@);
                        }
                    },
                    InterpPart::Text(_) => {},
                }
                proof {
                    assert forall|s: SlotId| reads@.contains(s) <==> exists|j: int|
                        0 <= j < k + 1 && (#[trigger] parts@[j] matches InterpPart::Expr(e) && (e.0 as int) < id
                            && reads_slot(exprs, entries, e.0 as int, s)) by {
                        if before.contains(s) {
                            let j = choose|j: int|
                                0 <= j < k && (#[trigger] parts@[j] matches InterpPart::Expr(e) && (e.0 as int) < id
                                    && reads_slot(exprs, entries, e.0 as int, s));
                            assert(0 <= j < k + 1);
                        }
                        if exists|j: int|
                            0 <= j < k + 1 && (#[trigger] parts@[j] matches InterpPart::Expr(e) && (e.0 as int) < id
                                && reads_slot(exprs, entries, e.0 as int, s)) {
                            let j = choose|j: int|
                                0 <= j < k + 1 && (#[trigger] parts@[j] matches InterpPart::Expr(e) && (e.0 as int) < id
                                    && reads_slot(exprs, entries, e.0 as int, s));
                            if j < k {
                                assert(before.contains(s));
                            } else {
                                assert(parts@[j] == parts@[k as int]);
                            }
                        }
                    }
                }
                k = k + 1;
            }
            reads
        },
        _ => Vec::new(),
    };
    proof {
        assert(slots_sorted(r@));
        assert forall|s: SlotId| #[trigger] r@.contains(s) <==> p(s) by {
            if r@.contains(s) {
                let j = choose|j: int| 0 <= j < r@.len() && r@[j] == s;
            }
        }
        lemma_sorted_slots(p, r@);
    }
    r
}

} // verus!


verus! {

/// The IR tables a screen or component is lowered into.
pub struct NodeBuilder {
    pub nodes: Vec<NodeIr>,
    pub static_props: Vec<StaticProp>,
    pub update_ops: Vec<UpdateOp>,
    pub handlers: Vec<HandlerIr>,
    pub exprs: Vec<IrExpr>,
    /// How many slot reads the update operations list in all.
    pub read_total: u64,
}

/// Every slot, action and node a handler body names exists.
pub open spec fn body_ok(b: HandlerBody, nslots: int, nactions: int) -> bool
    decreases b, 0int,
{
    match b {
        HandlerBody::Increment(s) => s.0 < nslots,
        HandlerBody::Decrement(s) => s.0 < nslots,
        HandlerBody::Assign { slot, value, .. } => slot.0 < nslots && slots_below(value, nslots),
        HandlerBody::InvokeAction(i) => i < nactions,
        HandlerBody::Sequence(xs) => bodies_ok(xs@, nslots, nactions, 0),
    }
}

pub open spec fn bodies_ok(xs: Seq<HandlerBody>, nslots: int, nactions: int, i: int) -> bool
    decreases xs, xs.len() - i,
{
    if i < 0 || i >= xs.len() {
        true
    } else {
        body_ok(xs[i], nslots, nactions) && bodies_ok(xs, nslots, nactions, i + 1)
    }
}

/// The node table is a forest: a node's parent comes before it and lists it
/// among its children, and a node's children are the later nodes that name
/// it as parent. Handlers named by nodes exist.
pub open spec fn nodes_ok(nodes: Seq<NodeIr>, nhandlers: int) -> bool {
    &&& forall|i: int| 0 <= i < nodes.len() && #[trigger] nodes[i].parent is Some ==> {
        let p = (nodes[i].parent->0).0 as int;
        p < i && nodes[p].children@.contains(NodeId(i as u32))
    }
    &&& forall|i: int, j: int| 0 <= i < nodes.len() && 0 <= j < nodes[i].children@.len() ==> {
        let c = (#[trigger] nodes[i].children@[j]).0 as int;
        i < c < nodes.len() && nodes[c].parent == Some(NodeId(i as u32))
    }
    &&& forall|i: int| 0 <= i < nodes.len() && #[trigger] nodes[i].handler is Some ==> (nodes[i].handler->0).0 < nhandlers
}

pub open spec fn reads_below(reads: Seq<SlotId>, nslots: int) -> bool {
    forall|j: int| 0 <= j < reads.len() ==> (#[trigger] reads[j]).0 < nslots
}

/// Every id the builder's tables hold names an entry that exists, ids fit in
/// 32 bits, and `read_total` counts the update operations' reads.
pub open spec fn builder_ok(b: NodeBuilder, nslots: int, nactions: int) -> bool {
    &&& b.read_total == total_reads(b.update_ops@)
    &&& b.read_total <= u32::MAX
    &&& b.nodes@.len() <= u32::MAX
    &&& b.exprs@.len() <= u32::MAX
    &&& b.handlers@.len() <= u32::MAX
    &&& nodes_ok(b.nodes@, b.handlers@.len() as int)
    &&& forall|k: int| 0 <= k < b.static_props@.len() ==> {
        let sp = #[trigger] b.static_props@[k];
        sp.node.0 < b.nodes@.len() && slots_below(sp.value, nslots)
    }
    &&& forall|k: int| 0 <= k < b.update_ops@.len() ==> {
        let op = #[trigger] b.update_ops@[k];
        op.node.0 < b.nodes@.len() && op.expr.0 < b.exprs@.len() && reads_below(op.reads@, nslots)
    }
    &&& forall|k: int| 0 <= k < b.handlers@.len() ==> {
        let h = #[trigger] b.handlers@[k];
        h.node.0 < b.nodes@.len() && reads_below(h.writes@, nslots) && body_ok(h.body, nslots, nactions)
    }
    &&& forall|k: int| 0 <= k < b.exprs@.len() ==> slots_below(#[trigger] b.exprs@[k], nslots)
}

/// A node's kind and parent.
pub struct Shape {
    pub kind: NodeKind,
    pub parent: Option<NodeId>,
}

pub open spec fn shape_of(n: NodeIr) -> Shape {
    Shape { kind: n.kind, parent: n.parent }
}

pub open spec fn shapes(nodes: Seq<NodeIr>) -> Seq<Shape> {
    nodes.map_values(|n: NodeIr| shape_of(n))
}

impl NodeBuilder {
    pub fn new() -> (b: NodeBuilder)
        ensures
            forall|ns: int, na: int| #[trigger] builder_ok(b, ns, na),
            b.nodes@.len() == 0,
            b.static_props@.len() == 0,
            b.update_ops@.len() == 0,
            b.handlers@.len() == 0,
            b.exprs@.len() == 0,
    {
        NodeBuilder {
            nodes: Vec::new(),
            static_props: Vec::new(),
            update_ops: Vec::new(),
            handlers: Vec::new(),
            exprs: Vec::new(),
            read_total: 0,
        }
    }

    /// Adds a node of `kind` under `parent`, last among its children.
    fn add_node(&mut self, kind: NodeKind, parent: Option<NodeId>, Ghost(nslots): Ghost<int>, Ghost(nactions): Ghost<int>) -> (id: NodeId)
        requires
            builder_ok(*old(self), nslots, nactions),
            old(self).nodes@.len() < u32::MAX,
            parent matches Some(p) ==> p.0 < old(self).nodes@.len(),
        ensures
            builder_ok(*final(self), nslots, nactions),
            id.0 == old(self).nodes@.len(),
            final(self).nodes@.len() == old(self).nodes@.len() + 1,
            shapes(final(self).nodes@) == shapes(old(self).nodes@).push(Shape { kind, parent }),
            final(self).nodes@[id.0 as int].handler is None,
            forall|i: int| 0 <= i < old(self).nodes@.len() ==> (#[trigger] final(self).nodes@[i]).handler
                == old(self).nodes@[i].handler,
            final(self).static_props@ == old(self).static_props@,
            final(self).update_ops@ == old(self).update_ops@,
            final(self).handlers@ == old(self).handlers@,
            final(self).exprs@ == old(self).exprs@,
            final(self).read_total == old(self).read_total,
    {
        let id = NodeId(self.nodes.len() as u32);
        let ghost before = self.nodes@;
        self.nodes.push(NodeIr { kind, parent, children: Vec::new(), handler: None });
        if let Some(p) = parent {
            self.nodes[p.0 as usize].children.push(id);
        }
        proof {
            let n = before.len() as int;
            assert(shapes(self.nodes@) =~= shapes(before).push(Shape { kind, parent }));
            assert forall|i: int| 0 <= i < self.nodes@.len() && #[trigger] self.nodes@[i].parent is Some implies {
                let p = (self.nodes@[i].parent->0).0 as int;
                p < i && self.nodes@[p].children@.contains(NodeId(i as u32))
            } by {
                if i < n {
                    let q = (before[i].parent->0).0 as int;
                    assert(before[q].children@.contains(NodeId(i as u32)));
                    if parent matches Some(pp) && pp.0 == q {
                        let k = choose|k: int| 0 <= k < before[q].children@.len() && before[q].children@[k] == NodeId(i as u32);
                        assert(self.nodes@[q].children@[k] == NodeId(i as u32));
                    }
                } else {
                    let pp = (parent->0).0 as int;
                    assert(self.nodes@[pp].children@.last() == NodeId(i as u32));
                    assert(self.nodes@[pp].children@.contains(NodeId(i as u32)));
                }
            }
            assert forall|i: int, j: int| 0 <= i < self.nodes@.len() && 0 <= j < self.nodes@[i].children@.len() implies {
                let c = (#[trigger] self.nodes@[i].children@[j]).0 as int;
                i < c < self.nodes@.len() && self.nodes@[c].parent == Some(NodeId(i as u32))
            } by {
                if i < n {
                    if parent matches Some(pp) && pp.0 == i && j == before[i].children@.len() {
                        assert(self.nodes@[i].children@[j] == id);
                    } else {
                        assert(self.nodes@[i].children@[j] == before[i].children@[j]);
                    }
                }
            }
        }
        id
    }
}

} // verus!

verus! {

/// A problem found while lowering.
#[derive(Clone, Debug)]
pub struct Diagnostic {
    pub code: String,
    pub message: String,
    pub span: Span,
    pub suggestion: Option<String>,
}

/// A diagnostic's texts as character sequences.
pub struct DiagView {
    pub code: Seq<char>,
    pub message: Seq<char>,
    pub span: Span,
    pub suggestion: Option<Seq<char>>,
}

pub open spec fn diag_view(d: Diagnostic) -> DiagView {
    DiagView {
        code: d.code@,
        message: d.message@,
        span: d.span,
        suggestion: match d.suggestion {
            Some(s) => Some(s@),
            None => None,
        },
    }
}

pub open spec fn diag_views(ds: Seq<Diagnostic>) -> Seq<DiagView> {
    ds.map_values(|d: Diagnostic| diag_view(d))
}

/// The text of `sym` as characters.
pub open spec fn name_text(strs: Seq<Seq<u8>>, sym: Symbol) -> Seq<char> {
    utf8_lossy(sym_text(strs, sym))
}

/// `UI1003`: an assignment target that names no slot.
pub open spec fn unknown_variable(strs: Seq<Seq<u8>>, sym: Symbol, span: Span) -> DiagView {
    DiagView {
        code: "UI1003"@,
        message: "unknown variable `"@ + name_text(strs, sym) + "`"@,
        span: span,
        suggestion: None,
    }
}

/// `UI2001`: an injected provider that the file does not define.
pub open spec fn unknown_provider(strs: Seq<Seq<u8>>, sym: Symbol, span: Span) -> DiagView {
    DiagView {
        code: "UI2001"@,
        message: "unknown provider type `"@ + name_text(strs, sym) + "`"@,
        span: span,
        suggestion: Some("define @provider before the screen"@),
    }
}

/// Lowers a parsed file to the IR, collecting diagnostics.
pub struct Compiler {
    diagnostics: Vec<Diagnostic>,
    floats: Vec<FloatValue>,
}

pub open spec fn slot_or_error(s: Option<SlotId>) -> IrExpr {
    match s {
        Some(x) => IrExpr::Slot(x),
        None => IrExpr::Error,
    }
}

/// `e` is the IR of expression `id`: literals carry over, a name becomes the
/// slot it names (an error where it names none), and anything else is an error.
pub open spec fn lowers_to(
    e: IrExpr,
    exprs: Seq<Expr>,
    entries: Seq<SlotEntry>,
    strs: Seq<Seq<u8>>,
    floats: Seq<FloatValue>,
    id: int,
) -> bool {
    match exprs[id] {
        Expr::Int(v) => e == IrExpr::Int(v),
        Expr::Float(t) => match float_of(floats, t@) {
            Some(f) => e matches IrExpr::Float(g) && float_view(g) == float_view(f),
            None => e == IrExpr::Error,
        },
        Expr::Bool(b) => e == IrExpr::Bool(b),
        Expr::Str(sym) => e matches IrExpr::Str(s) && s@ == name_text(strs, sym),
        Expr::Ident(sym) => e == slot_or_error(lookup(entries, SlotKey { prefix: None, field: sym })),
        Expr::Field { base, field, .. } => match exprs[base.0 as int] {
            Expr::Ident(p) => e == slot_or_error(lookup(entries, SlotKey { prefix: Some(p), field: field })),
            _ => e == IrExpr::Error,
        },
        _ => e == IrExpr::Error,
    }
}

/// The pieces an interpolation shows: its literal text, and for each embedded
/// expression the slots it reads, ascending.
pub open spec fn interp_pieces(
    exprs: Seq<Expr>,
    entries: Seq<SlotEntry>,
    strs: Seq<Seq<u8>>,
    parts: Seq<InterpPart>,
) -> Seq<Piece>
    decreases parts.len(),
{
    if parts.len() == 0 {
        Seq::empty()
    } else {
        interp_pieces(exprs, entries, strs, parts.drop_last()) + part_pieces(exprs, entries, strs, parts.last())
    }
}

pub open spec fn part_pieces(exprs: Seq<Expr>, entries: Seq<SlotEntry>, strs: Seq<Seq<u8>>, part: InterpPart) -> Seq<Piece> {
    match part {
        InterpPart::Text(sym) => seq![Piece::Text(name_text(strs, sym))],
        InterpPart::Expr(e) => read_list(exprs, entries, e.0 as int).map_values(|s: SlotId| Piece::Slot(s)),
    }
}

/// The tables other than the node table are as before.
pub open spec fn same_tables(b0: NodeBuilder, b1: NodeBuilder) -> bool {
    &&& b1.static_props@ == b0.static_props@
    &&& b1.update_ops@ == b0.update_ops@
    &&& b1.exprs@ == b0.exprs@
    &&& b1.read_total == b0.read_total
}

/// Whether the builder has room for one more expression and `n` more reads.
pub open spec fn room_for_op(b: NodeBuilder, n: int) -> bool {
    b.exprs@.len() < u32::MAX && b.read_total + n <= u32::MAX
}

/// What lowering argument `arg` of node `node` (of kind `kind`) adds: a string
/// literal becomes a static value of the node's primary property, an
/// interpolation becomes an expression and an update operation of that
/// property reading the slots it shows; other arguments, and widgets without
/// a primary property, add nothing.
pub open spec fn arg_lowered(
    b0: NodeBuilder,
    b1: NodeBuilder,
    exprs: Seq<Expr>,
    entries: Seq<SlotEntry>,
    strs: Seq<Seq<u8>>,
    node: NodeId,
    kind: NodeKind,
    arg: Arg,
) -> bool {
    &&& b1.nodes@ == b0.nodes@
    &&& b1.handlers@ == b0.handlers@
    &&& match primary_prop_of(kind) {
        None => same_tables(b0, b1),
        Some(key) => match exprs[arg.value.0 as int] {
            Expr::Str(sym) => {
                &&& b1.static_props@.len() == b0.static_props@.len() + 1
                &&& b1.static_props@.drop_last() == b0.static_props@
                &&& b1.static_props@.last().node == node
                &&& b1.static_props@.last().key == key
                &&& b1.static_props@.last().value matches IrExpr::Str(s) && s@ == name_text(strs, sym)
                &&& b1.update_ops@ == b0.update_ops@
                &&& b1.exprs@ == b0.exprs@
                &&& b1.read_total == b0.read_total
            },
            Expr::Interp(parts) => if room_for_op(b0, read_list(exprs, entries, arg.value.0 as int).len() as int) {
                &&& b1.static_props@ == b0.static_props@
                &&& b1.exprs@.len() == b0.exprs@.len() + 1
                &&& b1.exprs@.drop_last() == b0.exprs@
                &&& b1.exprs@.last() matches IrExpr::Concat(xs) && pieces_are(xs@, interp_pieces(exprs, entries, strs, parts@))
                &&& b1.update_ops@.len() == b0.update_ops@.len() + 1
                &&& b1.update_ops@.drop_last() == b0.update_ops@
                &&& b1.update_ops@.last().node == node
                &&& b1.update_ops@.last().key == key
                &&& b1.update_ops@.last().expr == ExprId(b0.exprs@.len() as u32)
                &&& b1.update_ops@.last().reads@ == read_list(exprs, entries, arg.value.0 as int)
            } else {
                same_tables(b0, b1)
            },
            _ => same_tables(b0, b1),
        },
    }
}

proof fn lemma_total_reads_push(ops: Seq<UpdateOp>, op: UpdateOp)
    ensures
        total_reads(ops.push(op)) == total_reads(ops) + op.reads@.len(),
{
    assert(ops.push(op).drop_last() =~= ops);
}

proof fn lemma_read_list_below(exprs: Seq<Expr>, entries: Seq<SlotEntry>, id: int, r: Seq<SlotId>, n: int)
    requires
        forall|i: int| 0 <= i < entries.len() ==> (#[trigger] entries[i]).slot.0 < n,
        forall|s: SlotId| #[trigger] r.contains(s) <==> reads_slot(exprs, entries, id, s),
    ensures
        reads_below(r, n),
    decreases id,
{
    assert forall|j: int| 0 <= j < r.len() implies (#[trigger] r[j]).0 < n by {
        assert(r.contains(r[j]));
        lemma_reads_slot_below(exprs, entries, id, r[j], n);
    }
}

proof fn lemma_reads_slot_below(exprs: Seq<Expr>, entries: Seq<SlotEntry>, id: int, s: SlotId, n: int)
    requires
        forall|i: int| 0 <= i < entries.len() ==> (#[trigger] entries[i]).slot.0 < n,
        reads_slot(exprs, entries, id, s),
    ensures
        s.0 < n,
    decreases id,
{
    match exprs[id] {
        Expr::Ident(sym) => crate::sema::provider::lemma_lookup_in(entries, SlotKey { prefix: None, field: sym }, n),
        Expr::Field { base, field, .. } => {
            if let Expr::Ident(p) = exprs[base.0 as int] {
                crate::sema::provider::lemma_lookup_in(entries, SlotKey { prefix: Some(p), field: field }, n);
            }
        },
        Expr::Interp(parts) => {
            let k = choose|k: int|
                0 <= k < parts@.len() && (#[trigger] parts@[k] matches InterpPart::Expr(e) && (e.0 as int) < id
                    && reads_slot(exprs, entries, e.0 as int, s));
            if let InterpPart::Expr(e) = parts@[k] {
                lemma_reads_slot_below(exprs, entries, e.0 as int, s, n);
            }
        },
        _ => {},
    }
}

/// Every diagnostic of `d0` stays, at its place, in `d1`: lowering only
/// ever adds diagnostics after those already reported.
pub open spec fn diags_kept(d0: Seq<DiagView>, d1: Seq<DiagView>) -> bool {
    d0.len() <= d1.len() && forall|i: int| 0 <= i < d0.len() ==> #[trigger] d1[i] == d0[i]
}

impl Compiler {
    /// The diagnostics so far.
    pub closed spec fn diags(&self) -> Seq<DiagView> {
        diag_views(self.diagnostics@)
    }

    /// The float literal values the compiler was given.
    pub closed spec fn float_table(&self) -> Seq<FloatValue> {
        self.floats@
    }

    pub fn new() -> (c: Compiler)
        ensures
            c.diags() == Seq::<DiagView>::empty(),
            c.float_table() == Seq::<FloatValue>::empty(),
    {
        let c = Compiler { diagnostics: Vec::new(), floats: Vec::new() };
        assert(c.diags() =~= Seq::<DiagView>::empty());
        c
    }

    /// Gives the value of the float literal written `literal`.
    pub fn define_float(&mut self, literal: Vec<u8>, value: FloatLit)
        ensures
            final(self).diags() == old(self).diags(),
            final(self).float_table() == old(self).float_table().push(FloatValue { literal, value }),
    {
        self.floats.push(FloatValue { literal, value });
    }

    /// The diagnostics, taken out of the compiler.
    pub fn into_diagnostics(self) -> (r: Vec<Diagnostic>)
        ensures
            diag_views(r@) == self.diags(),
    {
        self.diagnostics
    }

    pub fn diagnostics(&self) -> (r: &[Diagnostic])
        ensures
            diag_views(r@) == self.diags(),
    {
        self.diagnostics.as_slice()
    }

    fn push_diag(&mut self, d: Diagnostic)
        ensures
            final(self).diags() == old(self).diags().push(diag_view(d)),
            final(self).float_table() == old(self).float_table(),
    {
        let ghost before = self.diagnostics@;
        self.diagnostics.push(d);
        assert(diag_views(self.diagnostics@) =~= diag_views(before).push(diag_view(d)));
    }

    /// Reports `UI1003` for the name `sym`.
    fn error_ui1003(&mut self, sym: Symbol, span: Span, interner: &Interner)
        ensures
            final(self).diags() == old(self).diags().push(unknown_variable(interner@, sym, span)),
            final(self).float_table() == old(self).float_table(),
    {
        let name = string_from_utf8_lossy(text_of(interner, sym));
        let mut message = String::from_str("unknown variable `");
        message.append(name.as_str());
        message.append("`");
        let code = String::from_str("UI1003");
        proof {
            reveal_strlit("unknown variable `");
            reveal_strlit("`");
            reveal_strlit("UI1003");
        }
        self.push_diag(Diagnostic { code, message, span, suggestion: None });
    }

    /// The IR of a literal expression.
    pub(crate) fn lower_literal(&self, ast: &Ast, expr_id: AstExprId, interner: &Interner) -> (e: IrExpr)
        requires
            (expr_id.0 as int) < ast.exprs@.len(),
            ast.exprs@[expr_id.0 as int] is Int || ast.exprs@[expr_id.0 as int] is Float || ast.exprs@[expr_id.0 as int] is Bool
                || ast.exprs@[expr_id.0 as int] is Str,
        ensures
            lowers_to(e, ast.exprs@, Seq::empty(), interner@, self.float_table(), expr_id.0 as int),
    {
        match &ast.exprs[expr_id.0 as usize] {
            Expr::Int(v) => IrExpr::Int(*v),
            Expr::Float(t) => match find_float(&self.floats, t.as_slice()) {
                Some(f) => IrExpr::Float(f),
                None => IrExpr::Error,
            },
            Expr::Bool(b) => IrExpr::Bool(*b),
            Expr::Str(sym) => IrExpr::Str(string_from_utf8_lossy(text_of(interner, *sym))),
            _ => IrExpr::Error,
        }
    }

    /// The IR of expression `expr_id`.
    pub fn lower_expr(&self, ast: &Ast, ctx: &LowerCtx, interner: &Interner, expr_id: AstExprId) -> (e: IrExpr)
        requires
            ast_wf(*ast),
            (expr_id.0 as int) < ast.exprs@.len(),
        ensures
            lowers_to(e, ast.exprs@, ctx.slot_map@, interner@, self.float_table(), expr_id.0 as int),
    {
        proof {
            lemma_wf_expr(*ast, expr_id.0 as int);
        }
        match &ast.exprs[expr_id.0 as usize] {
            Expr::Int(_) | Expr::Float(_) | Expr::Bool(_) | Expr::Str(_) => self.lower_literal(ast, expr_id, interner),
            Expr::Ident(sym) => match find_slot(&ctx.slot_map, SlotKey { prefix: None, field: *sym }) {
                Some(s) => IrExpr::Slot(s),
                None => IrExpr::Error,
            },
            Expr::Field { base, field, .. } => {
                if let Expr::Ident(prefix) = &ast.exprs[base.0 as usize] {
                    match find_slot(&ctx.slot_map, SlotKey { prefix: Some(*prefix), field: *field }) {
                        Some(s) => IrExpr::Slot(s),
                        None => IrExpr::Error,
                    }
                } else {
                    IrExpr::Error
                }
            },
            _ => IrExpr::Error,
        }
    }

    /// The IR of interpolation `expr_id`: the concatenation of its pieces, and
    /// the slots it reads.
    fn lower_interp(&self, ast: &Ast, ctx: &LowerCtx, interner: &Interner, expr_id: AstExprId) -> (r: (IrExpr, Vec<SlotId>))
        requires
            ast_wf(*ast),
            ctx_ok(*ctx),
            (expr_id.0 as int) < ast.exprs@.len(),
            ast.exprs@[expr_id.0 as int] is Interp,
        ensures
            slots_below(r.0, ctx.slots@.len() as int),
            r.0 matches IrExpr::Concat(xs) && pieces_are(
                xs@,
                interp_pieces(ast.exprs@, ctx.slot_map@, interner@, ast.exprs@[expr_id.0 as int]->Interp_0@),
            ),
            r.1@ == read_list(ast.exprs@, ctx.slot_map@, expr_id.0 as int),
            slots_sorted(r.1@),
            forall|s: SlotId| #[trigger] r.1@.contains(s) <==> reads_slot(ast.exprs@, ctx.slot_map@, expr_id.0 as int, s),
    {
        let ghost exprs = ast.exprs@;
        let ghost entries = ctx.slot_map@;
        let ghost strs = interner@;
        proof {
            lemma_wf_expr(*ast, expr_id.0 as int);
        }
        let parts = match &ast.exprs[expr_id.0 as usize] {
            Expr::Interp(parts) => parts,
            _ => {
                assert(false);
                return (IrExpr::Error, Vec::new());
            },
        };
        let mut items: Vec<IrExpr> = Vec::new();
        let mut k: usize = 0;
        while k < parts.len()
            invariant
                ast_wf(*ast),
                exprs == ast.exprs@,
                entries == ctx.slot_map@,
                strs == interner@,
                parts_ok(parts@, below_expr(crate::ast::arenas_of(*ast), expr_id.0 as int)),
                (expr_id.0 as int) < exprs.len(),
                k <= parts@.len(),
                pieces_are(items@, interp_pieces(exprs, entries, strs, parts@.take(k as int))),
                ctx_ok(*ctx),
                forall|i: int| 0 <= i < items@.len() ==> slots_below(#[trigger] items@[i], ctx.slots@.len() as int),
            decreases parts@.len() - k,
        {
            let ghost before = items@;
            proof {
                assert(parts@.take(k + 1).drop_last() =~= parts@.take(k as int));
                assert(parts@.take(k + 1).last() == parts@[k as int]);
            }
            match &parts[k] {
                InterpPart::Text(sym) => {
                    items.push(IrExpr::Str(string_from_utf8_lossy(text_of(interner, *sym))));
                    proof {
                        let ps = interp_pieces(exprs, entries, strs, parts@.take(k + 1));
                        assert(ps == interp_pieces(exprs, entries, strs, parts@.take(k as int)) + seq![Piece::Text(name_text(strs, *sym))]);
                        assert forall|i: int| 0 <= i < items@.len() implies piece_is(#[trigger] items@[i], ps[i]) by {
                            if i < before.len() {
                                assert(items@[i] == before[i]);
                            }
                        }
                    }
                },
                InterpPart::Expr(e) => {
                    assert(crate::ast::expr_id_ok(*e, below_expr(crate::ast::arenas_of(*ast), expr_id.0 as int)));
                    let sub = collect_expr_reads(ast, ctx, *e);
                    let mut m: usize = 0;
                    while m < sub.len()
                        invariant
                            m <= sub@.len(),
                            pieces_are(items@, interp_pieces(exprs, entries, strs, parts@.take(k as int))
                                + sub@.take(m as int).map_values(|s: SlotId| Piece::Slot(s))),
                            ctx_ok(*ctx),
                            entries == ctx.slot_map@,
                            forall|s: SlotId| #[trigger] sub@.contains(s) <==> reads_slot(exprs, entries, e.0 as int, s),
                            forall|i: int| 0 <= i < items@.len() ==> slots_below(#[trigger] items@[i], ctx.slots@.len() as int),
                        decreases sub@.len() - m,
                    {
                        proof {
                            assert(sub@.contains(sub@[m as int]));
                            lemma_reads_slot_below(exprs, entries, e.0 as int, sub@[m as int], ctx.slots@.len() as int);
                        }
                        let ghost mid = items@;
                        let ghost ps0 = interp_pieces(exprs, entries, strs, parts@.take(k as int))
                                + sub@.take(m as int).map_values(|s: SlotId| Piece::Slot(s));
                        items.push(IrExpr::Slot(sub[m]));
                        proof {
                            let ps1 = interp_pieces(exprs, entries, strs, parts@.take(k as int))
                                + sub@.take(m + 1).map_values(|s: SlotId| Piece::Slot(s));
                            assert(sub@.take(m + 1).map_values(|s: SlotId| Piece::Slot(s)) =~= sub@.take(m as int).map_values(|s: SlotId| Piece::Slot(s)).push(Piece::Slot(sub@[m as int])));
                            assert(ps1 =~= ps0.push(Piece::Slot(sub@[m as int])));
                            assert forall|i: int| 0 <= i < items@.len() implies piece_is(#[trigger] items@[i], ps1[i]) by {
                                if i < mid.len() {
                                    assert(items@[i] == mid[i]);
                                }
                            }
                        }
                        m = m + 1;
                    }
                    proof {
                        assert(sub@.take(sub@.len() as int) =~= sub@);
                    }
                },
            }
            k = k + 1;
        }
        proof {
            assert(parts@.take(parts@.len() as int) =~= parts@);
            lemma_all_below(items@, ctx.slots@.len() as int, 0);
        }
        let reads = collect_expr_reads(ast, ctx, expr_id);
        (IrExpr::Concat(items), reads)
    }

    /// Lowers argument `arg` of node `node_id`, a widget of kind `kind`.
    fn lower_element_arg(
        &self,
        ast: &Ast,
        ctx: &LowerCtx,
        interner: &Interner,
        builder: &mut NodeBuilder,
        node_id: NodeId,
        kind: &NodeKind,
        arg: &Arg,
        Ghost(nactions): Ghost<int>,
    )
        requires
            ast_wf(*ast),
            ctx_ok(*ctx),
            (arg.value.0 as int) < ast.exprs@.len(),
            builder_ok(*old(builder), ctx.slots@.len() as int, nactions),
            (node_id.0 as int) < old(builder).nodes@.len(),
        ensures
            builder_ok(*final(builder), ctx.slots@.len() as int, nactions),
            arg_lowered(*old(builder), *final(builder), ast.exprs@, ctx.slot_map@, interner@, node_id, *kind, *arg),
    {
        let ghost nslots = ctx.slots@.len() as int;
        let key = match primary_prop(kind) {
            Some(k) => k,
            None => return,
        };
        match &ast.exprs[arg.value.0 as usize] {
            Expr::Interp(_) => {
                let (ir, reads) = self.lower_interp(ast, ctx, interner, arg.value);
                if builder.exprs.len() < 4294967295usize && (reads.len() as u64) <= 4294967295u64 - builder.read_total {
                    let ghost b0 = *builder;
                    let expr_id = ExprId(builder.exprs.len() as u32);
                    proof {
                        lemma_read_list_below(ast.exprs@, ctx.slot_map@, arg.value.0 as int, reads@, nslots);
                    }
                    builder.exprs.push(ir);
                    let n = reads.len() as u64;
                    let op = UpdateOp { node: node_id, key, expr: expr_id, reads };
                    proof {
                        lemma_total_reads_push(b0.update_ops@, op);
                    }
                    builder.update_ops.push(op);
                    builder.read_total = builder.read_total + n;
                    proof {
                        assert(builder.exprs@.drop_last() =~= b0.exprs@);
                        assert(builder.update_ops@.drop_last() =~= b0.update_ops@);
                        assert forall|k: int| 0 <= k < builder.exprs@.len() implies slots_below(#[trigger] builder.exprs@[k], nslots) by {
                            if k < b0.exprs@.len() {
                                assert(builder.exprs@[k] == b0.exprs@[k]);
                            }
                        }
                        assert forall|k: int| 0 <= k < builder.update_ops@.len() implies {
                            let op = #[trigger] builder.update_ops@[k];
                            op.node.0 < builder.nodes@.len() && op.expr.0 < builder.exprs@.len() && reads_below(op.reads@, nslots)
                        } by {
                            if k < b0.update_ops@.len() {
                                assert(builder.update_ops@[k] == b0.update_ops@[k]);
                            }
                        }
                    }
                }
            },
            Expr::Str(sym) => {
                let ghost b0 = *builder;
                let value = IrExpr::Str(string_from_utf8_lossy(text_of(interner, *sym)));
                builder.static_props.push(StaticProp { node: node_id, key, value });
                proof {
                    assert(builder.static_props@.drop_last() =~= b0.static_props@);
                    assert forall|k: int| 0 <= k < builder.static_props@.len() implies {
                        let sp = #[trigger] builder.static_props@[k];
                        sp.node.0 < builder.nodes@.len() && slots_below(sp.value, nslots)
                    } by {
                        if k < b0.static_props@.len() {
                            assert(builder.static_props@[k] == b0.static_props@[k]);
                        }
                    }
                }
            },
            _ => {},
        }
    }
}

proof fn lemma_all_below(xs: Seq<IrExpr>, n: int, i: int)
    requires
        forall|k: int| 0 <= k < xs.len() ==> slots_below(#[trigger] xs[k], n),
        0 <= i <= xs.len(),
    ensures
        all_slots_below(xs, n, i),
    decreases xs.len() - i,
{
    if i < xs.len() {
        lemma_all_below(xs, n, i + 1);
    }
}

} // verus!

verus! {

/// The provider type the screen injects under the name written `name` (the
/// first such injection).
pub open spec fn inject_type(injects: Seq<InjectDef>, strs: Seq<Seq<u8>>, name: Seq<u8>, i: int) -> Option<Symbol>
    decreases injects.len() - i,
{
    if i < 0 || i >= injects.len() {
        None
    } else if sym_text(strs, injects[i].name) == name {
        Some(injects[i].ty.name)
    } else {
        inject_type(injects, strs, name, i + 1)
    }
}

/// The first action named `name` of provider `provider`.
pub open spec fn action_index(
    actions: Seq<CompiledAction>,
    strs: Seq<Seq<u8>>,
    name: Seq<u8>,
    provider: Option<Symbol>,
    i: int,
) -> Option<int>
    decreases actions.len() - i,
{
    if i < 0 || i >= actions.len() {
        None
    } else if sym_text(strs, actions[i].name) == name && actions[i].provider == provider {
        Some(i)
    } else {
        action_index(actions, strs, name, provider, i + 1)
    }
}

/// The action a call `inject.action()` invokes.
pub open spec fn action_call(
    exprs: Seq<Expr>,
    strs: Seq<Seq<u8>>,
    injects: Seq<InjectDef>,
    actions: Seq<CompiledAction>,
    id: int,
) -> Option<int> {
    match exprs[id] {
        Expr::Call { callee, .. } => match exprs[callee.0 as int] {
            Expr::Field { base, field, .. } => match exprs[base.0 as int] {
                Expr::Ident(inject) => action_index(
                    actions,
                    strs,
                    sym_text(strs, field),
                    inject_type(injects, strs, sym_text(strs, inject), 0),
                    0,
                ),
                _ => None,
            },
            _ => None,
        },
        _ => None,
    }
}

proof fn lemma_action_index(actions: Seq<CompiledAction>, strs: Seq<Seq<u8>>, name: Seq<u8>, provider: Option<Symbol>, i: int)
    requires
        0 <= i,
    ensures
        action_index(actions, strs, name, provider, i) matches Some(k) ==> i <= k < actions.len(),
    decreases actions.len() - i,
{
    if i < actions.len() && !(sym_text(strs, actions[i].name) == name && actions[i].provider == provider) {
        lemma_action_index(actions, strs, name, provider, i + 1);
    }
}

fn find_inject_type(injects: &Vec<InjectDef>, interner: &Interner, name: &[u8]) -> (r: Option<Symbol>)
    ensures
        r == inject_type(injects@, interner@, name@, 0),
{
    let mut i: usize = 0;
    while i < injects.len()
        invariant
            i <= injects@.len(),
            inject_type(injects@, interner@, name@, 0) == inject_type(injects@, interner@, name@, i as int),
        decreases injects@.len() - i,
    {
        if bytes_eq(text_of(interner, injects[i].name), name) {
            return Some(injects[i].ty.name);
        }
        i = i + 1;
    }
    None
}

/// The index of the action that the call `expr_id` invokes, if it is a call
/// of an action of an injected provider.
#[verifier::loop_isolation(false)]
pub fn resolve_action_call(
    ast: &Ast,
    expr_id: AstExprId,
    actions: &Vec<CompiledAction>,
    injects: &Vec<InjectDef>,
    interner: &Interner,
) -> (r: Option<u32>)
    requires
        ast_wf(*ast),
        (expr_id.0 as int) < ast.exprs@.len(),
        actions@.len() <= u32::MAX,
    ensures
        r matches Some(i) ==> action_call(ast.exprs@, interner@, injects@, actions@, expr_id.0 as int) == Some(i as int)
            && (i as int) < actions@.len(),
        r is None ==> action_call(ast.exprs@, interner@, injects@, actions@, expr_id.0 as int) is None,
{
    proof {
        lemma_wf_expr(*ast, expr_id.0 as int);
    }
    if let Expr::Call { callee, .. } = &ast.exprs[expr_id.0 as usize] {
        proof {
            lemma_wf_expr(*ast, callee.0 as int);
        }
        if let Expr::Field { base, field, .. } = &ast.exprs[callee.0 as usize] {
            if let Expr::Ident(inject_sym) = &ast.exprs[base.0 as usize] {
                let action_name = text_of(interner, *field);
                let inject_name = text_of(interner, *inject_sym);
                let inject_ty = find_inject_type(injects, interner, inject_name);
                let mut k: usize = 0;
                while k < actions.len()
                    invariant
                        k <= actions@.len(),
                        actions@.len() <= u32::MAX,
                        action_index(actions@, interner@, action_name@, inject_ty, 0) == action_index(
                            actions@,
                            interner@,
                            action_name@,
                            inject_ty,
                            k as int,
                        ),
                    decreases actions@.len() - k,
                {
                    if bytes_eq(text_of(interner, actions[k].name), action_name) && actions[k].provider == inject_ty {
                        return Some(k as u32);
                    }
                    k = k + 1;
                }
                return None;
            }
        }
    }
    None
}

/// What one handler statement does to a node, in order.
pub enum Step {
    Invoke(int),
    Inc(SlotId),
    Dec(SlotId),
    Assign(SlotId, AstExprId),
}

/// The step of a handler statement, if it has one: a call of an action, `++`
/// and `--` of a slot, `=` to a slot; anything else has none.
pub open spec fn stmt_step(
    exprs: Seq<Expr>,
    entries: Seq<SlotEntry>,
    strs: Seq<Seq<u8>>,
    injects: Seq<InjectDef>,
    actions: Seq<CompiledAction>,
    st: Stmt,
) -> Option<Step> {
    match st {
        Stmt::Call { callee, .. } => match action_call(exprs, strs, injects, actions, callee.0 as int) {
            Some(k) => Some(Step::Invoke(k)),
            None => None,
        },
        Stmt::IncDec { target, op, .. } => match path_slot(entries, target.path@) {
            Some(s) => Some(if op == IncDecOp::Inc { Step::Inc(s) } else { Step::Dec(s) }),
            None => None,
        },
        Stmt::Assign { target, op, value, .. } => if op == AstAssignOp::Store {
            match path_slot(entries, target.path@) {
                Some(s) => Some(Step::Assign(s, value)),
                None => None,
            }
        } else {
            None
        },
        _ => None,
    }
}

/// The steps of a list of statements.
pub open spec fn handler_steps(
    exprs: Seq<Expr>,
    entries: Seq<SlotEntry>,
    strs: Seq<Seq<u8>>,
    injects: Seq<InjectDef>,
    actions: Seq<CompiledAction>,
    sts: Seq<Stmt>,
) -> Seq<Step>
    decreases sts.len(),
{
    if sts.len() == 0 {
        Seq::empty()
    } else {
        handler_steps(exprs, entries, strs, injects, actions, sts.drop_last()) + match stmt_step(
            exprs,
            entries,
            strs,
            injects,
            actions,
            sts.last(),
        ) {
            Some(step) => seq![step],
            None => Seq::empty(),
        }
    }
}

/// The diagnostics a list of handler statements raises: `UI1003` for each
/// `++` of a name that is no slot.
pub open spec fn handler_diags(entries: Seq<SlotEntry>, strs: Seq<Seq<u8>>, sts: Seq<Stmt>) -> Seq<DiagView>
    decreases sts.len(),
{
    if sts.len() == 0 {
        Seq::empty()
    } else {
        handler_diags(entries, strs, sts.drop_last()) + match sts.last() {
            Stmt::IncDec { target, op, span } => if op == IncDecOp::Inc && path_slot(entries, target.path@) is None {
                seq![unknown_variable(strs, target.path@[0], target.span)]
            } else {
                Seq::empty()
            },
            _ => Seq::empty(),
        }
    }
}

/// `h` is handler `id` on `node` doing `step`.
pub open spec fn handler_is(
    h: HandlerIr,
    step: Step,
    id: HandlerId,
    node: NodeId,
    exprs: Seq<Expr>,
    entries: Seq<SlotEntry>,
    strs: Seq<Seq<u8>>,
    floats: Seq<FloatValue>,
    actions: Seq<CompiledAction>,
) -> bool {
    &&& h.id == id
    &&& h.node == node
    &&& match step {
        Step::Invoke(k) => h.body == HandlerBody::InvokeAction(k as u32) && h.writes@ == actions[k].writes@,
        Step::Inc(s) => h.body == HandlerBody::Increment(s) && h.writes@ == seq![s],
        Step::Dec(s) => h.body == HandlerBody::Decrement(s) && h.writes@ == seq![s],
        Step::Assign(s, v) => h.writes@ == seq![s] && (h.body matches HandlerBody::Assign { slot, op, value } && slot == s
            && op == AssignOp::Store && lowers_to(value, exprs, entries, strs, floats, v.0 as int)),
    }
}

/// The actions a screen's handlers may invoke name only its slots.
pub open spec fn actions_ok(actions: Seq<CompiledAction>, nslots: int) -> bool {
    &&& actions.len() <= u32::MAX
    &&& forall|k: int| 0 <= k < actions.len() ==> {
        let a = #[trigger] actions[k];
        reads_below(a.writes@, nslots) && bodies_ok(a.body@, nslots, actions.len() as int, 0)
    }
}

proof fn lemma_lowered_below(e: IrExpr, exprs: Seq<Expr>, entries: Seq<SlotEntry>, strs: Seq<Seq<u8>>, floats: Seq<FloatValue>, id: int, n: int)
    requires
        lowers_to(e, exprs, entries, strs, floats, id),
        forall|i: int| 0 <= i < entries.len() ==> (#[trigger] entries[i]).slot.0 < n,
    ensures
        slots_below(e, n),
{
    match exprs[id] {
        Expr::Ident(sym) => crate::sema::provider::lemma_lookup_in(entries, SlotKey { prefix: None, field: sym }, n),
        Expr::Field { base, field, .. } => {
            if let Expr::Ident(p) = exprs[base.0 as int] {
                crate::sema::provider::lemma_lookup_in(entries, SlotKey { prefix: Some(p), field: field }, n);
            }
        },
        _ => {},
    }
}

/// A copy of a slot list.
fn copy_slots(v: &Vec<SlotId>) -> (r: Vec<SlotId>)
    ensures
        r@ == v@,
{
    let mut r: Vec<SlotId> = Vec::new();
    let mut i: usize = 0;
    while i < v.len()
        invariant
            i <= v@.len(),
            r@ == v@.take(i as int),
        decreases v@.len() - i,
    {
        r.push(v[i]);
        proof {
            assert(v@.take(i + 1) =~= v@.take(i as int).push(v@[i as int]));
        }
        i = i + 1;
    }
    assert(v@.take(v@.len() as int) =~= v@);
    r
}

} // verus!

verus! {

/// Adds handler `h` and makes it its node's handler, if a 32-bit id is left.
fn push_handler(builder: &mut NodeBuilder, h: HandlerIr, Ghost(nslots): Ghost<int>, Ghost(nactions): Ghost<int>)
    requires
        builder_ok(*old(builder), nslots, nactions),
        (h.node.0 as int) < old(builder).nodes@.len(),
        h.id.0 <= old(builder).handlers@.len(),
        reads_below(h.writes@, nslots),
        body_ok(h.body, nslots, nactions),
    ensures
        builder_ok(*final(builder), nslots, nactions),
        shapes(final(builder).nodes@) == shapes(old(builder).nodes@),
        final(builder).nodes@.len() == old(builder).nodes@.len(),
        same_tables(*old(builder), *final(builder)),
        old(builder).handlers@.len() < u32::MAX ==> final(builder).handlers@ == old(builder).handlers@.push(h)
            && final(builder).nodes@[h.node.0 as int].handler == Some(h.id),
        old(builder).handlers@.len() >= u32::MAX ==> final(builder).handlers@ == old(builder).handlers@
            && final(builder).nodes@[h.node.0 as int].handler == old(builder).nodes@[h.node.0 as int].handler,
        forall|i: int| 0 <= i < old(builder).nodes@.len() && i != h.node.0 ==> (#[trigger] final(builder).nodes@[i]).handler
            == old(builder).nodes@[i].handler,
{
    if builder.handlers.len() < 4294967295usize {
        let ghost b0 = *builder;
        let node = h.node;
        let id = h.id;
        builder.handlers.push(h);
        builder.nodes[node.0 as usize].handler = Some(id);
        proof {
            assert(shapes(builder.nodes@) =~= shapes(b0.nodes@));
            assert forall|k: int| 0 <= k < builder.handlers@.len() implies {
                let h = #[trigger] builder.handlers@[k];
                h.node.0 < builder.nodes@.len() && reads_below(h.writes@, nslots) && body_ok(h.body, nslots, nactions)
            } by {
                if k < b0.handlers@.len() {
                    assert(builder.handlers@[k] == b0.handlers@[k]);
                }
            }
            assert forall|i: int| 0 <= i < builder.nodes@.len() && #[trigger] builder.nodes@[i].parent is Some implies {
                let p = (builder.nodes@[i].parent->0).0 as int;
                p < i && builder.nodes@[p].children@.contains(NodeId(i as u32))
            } by {
                let p = (builder.nodes@[i].parent->0).0 as int;
                assert(b0.nodes@[i].parent is Some);
                assert(builder.nodes@[p].children == b0.nodes@[p].children);
            }
            assert forall|i: int, j: int| 0 <= i < builder.nodes@.len() && 0 <= j < builder.nodes@[i].children@.len() implies {
                let c = (#[trigger] builder.nodes@[i].children@[j]).0 as int;
                i < c < builder.nodes@.len() && builder.nodes@[c].parent == Some(NodeId(i as u32))
            } by {
                assert(builder.nodes@[i].children == b0.nodes@[i].children);
                let c = (b0.nodes@[i].children@[j]).0 as int;
                assert(b0.nodes@[c].parent == Some(NodeId(i as u32)));
            }
        }
    }
}

proof fn lemma_steps_push(
    exprs: Seq<Expr>,
    entries: Seq<SlotEntry>,
    strs: Seq<Seq<u8>>,
    injects: Seq<InjectDef>,
    actions: Seq<CompiledAction>,
    sts: Seq<Stmt>,
    k: int,
)
    requires
        0 <= k < sts.len(),
    ensures
        handler_steps(exprs, entries, strs, injects, actions, sts.take(k + 1)) == handler_steps(
            exprs,
            entries,
            strs,
            injects,
            actions,
            sts.take(k),
        ) + match stmt_step(exprs, entries, strs, injects, actions, sts[k]) {
            Some(step) => seq![step],
            None => Seq::empty(),
        },
        handler_diags(entries, strs, sts.take(k + 1)) == handler_diags(entries, strs, sts.take(k)) + match sts[k] {
            Stmt::IncDec { target, op, span } => if op == IncDecOp::Inc && path_slot(entries, target.path@) is None {
                seq![unknown_variable(strs, target.path@[0], target.span)]
            } else {
                Seq::empty()
            },
            _ => Seq::empty(),
        },
{
    assert(sts.take(k + 1).drop_last() =~= sts.take(k));
}

proof fn lemma_steps_grow(
    exprs: Seq<Expr>,
    entries: Seq<SlotEntry>,
    strs: Seq<Seq<u8>>,
    injects: Seq<InjectDef>,
    actions: Seq<CompiledAction>,
    sts: Seq<Stmt>,
    k: int,
)
    requires
        0 <= k <= sts.len(),
    ensures
        handler_steps(exprs, entries, strs, injects, actions, sts.take(k)).len() <= handler_steps(
            exprs,
            entries,
            strs,
            injects,
            actions,
            sts,
        ).len(),
    decreases sts.len() - k,
{
    if k < sts.len() {
        lemma_steps_push(exprs, entries, strs, injects, actions, sts, k);
        lemma_steps_grow(exprs, entries, strs, injects, actions, sts, k + 1);
    } else {
        assert(sts.take(k) =~= sts);
    }
}

impl Compiler {
    /// Lowers handler `handler_id` of node `node_id`. Each call of an action,
    /// `++`, `--` or `=` of a slot becomes an entry of the handler table, all
    /// under one handler id; `++` of a name that is no slot is reported.
    #[verifier::spinoff_prover]
    #[verifier::rlimit(60)]
    fn lower_handler(
        &mut self,
        ast: &Ast,
        ctx: &LowerCtx,
        interner: &Interner,
        builder: &mut NodeBuilder,
        node_id: NodeId,
        handler_id: AstHandlerId,
        actions: &Vec<CompiledAction>,
        injects: &Vec<InjectDef>,
    )
        requires
            ast_wf(*ast),
            ctx_ok(*ctx),
            (handler_id.0 as int) < ast.handlers@.len(),
            (node_id.0 as int) < old(builder).nodes@.len(),
            builder_ok(*old(builder), ctx.slots@.len() as int, actions@.len() as int),
            actions_ok(actions@, ctx.slots@.len() as int),
        ensures
            builder_ok(*final(builder), ctx.slots@.len() as int, actions@.len() as int),
            shapes(final(builder).nodes@) == shapes(old(builder).nodes@),
            final(builder).nodes@.len() == old(builder).nodes@.len(),
            same_tables(*old(builder), *final(builder)),
            final(self).float_table() == old(self).float_table(),
            final(self).diags() == old(self).diags() + handler_diags(
                ctx.slot_map@,
                interner@,
                ast.handlers@[handler_id.0 as int].stmts@,
            ),
            forall|i: int| 0 <= i < old(builder).nodes@.len() && i != node_id.0 ==> (#[trigger] final(builder).nodes@[i]).handler
                == old(builder).nodes@[i].handler,
            ({
                let steps = handler_steps(
                    ast.exprs@,
                    ctx.slot_map@,
                    interner@,
                    injects@,
                    actions@,
                    ast.handlers@[handler_id.0 as int].stmts@,
                );
                let n0 = old(builder).handlers@.len();
                n0 + steps.len() <= u32::MAX ==> {
                    &&& final(builder).handlers@.len() == n0 + steps.len()
                    &&& final(builder).handlers@.take(n0 as int) == old(builder).handlers@
                    &&& forall|k: int| 0 <= k < steps.len() ==> handler_is(
                        #[trigger] final(builder).handlers@[n0 + k],
                        steps[k],
                        HandlerId(n0 as u32),
                        node_id,
                        ast.exprs@,
                        ctx.slot_map@,
                        interner@,
                        old(self).float_table(),
                        actions@,
                    )
                    &&& final(builder).nodes@[node_id.0 as int].handler == if steps.len() > 0 {
                        Some(HandlerId(n0 as u32))
                    } else {
                        old(builder).nodes@[node_id.0 as int].handler
                    }
                }
            }),
    {
        let ghost nslots = ctx.slots@.len() as int;
        let ghost nactions = actions@.len() as int;
        let ghost b0 = *builder;
        let ghost d0 = self.diags();
        let ghost exprs = ast.exprs@;
        let ghost entries = ctx.slot_map@;
        let ghost strs = interner@;
        let ghost floats = self.float_table();
        let handler = &ast.handlers[handler_id.0 as usize];
        let ghost sts = handler.stmts@;
        let ghost all_steps = handler_steps(exprs, entries, strs, injects@, actions@, sts);
        let ghost fits = b0.handlers@.len() + all_steps.len() <= u32::MAX;
        let h_id = HandlerId(builder.handlers.len() as u32);
        let mut k: usize = 0;
        while k < handler.stmts.len()
            invariant
                ast_wf(*ast),
                ctx_ok(*ctx),
                exprs == ast.exprs@,
                entries == ctx.slot_map@,
                strs == interner@,
                sts == handler.stmts@,
                (handler_id.0 as int) < ast.handlers@.len(),
                handler == ast.handlers@[handler_id.0 as int],
                nslots == ctx.slots@.len(),
                nactions == actions@.len(),
                actions_ok(actions@, nslots),
                all_steps == handler_steps(exprs, entries, strs, injects@, actions@, sts),
                fits == (b0.handlers@.len() + all_steps.len() <= u32::MAX),
                h_id.0 == b0.handlers@.len(),
                (node_id.0 as int) < b0.nodes@.len(),
                k <= sts.len(),
                builder_ok(*builder, nslots, nactions),
                shapes(builder.nodes@) == shapes(b0.nodes@),
                builder.nodes@.len() == b0.nodes@.len(),
                same_tables(b0, *builder),
                self.float_table() == floats,
                self.diags() == d0 + handler_diags(entries, strs, sts.take(k as int)),
                forall|i: int| 0 <= i < b0.nodes@.len() && i != node_id.0 ==> (#[trigger] builder.nodes@[i]).handler
                    == b0.nodes@[i].handler,
                b0.handlers@.len() <= builder.handlers@.len(),
                fits ==> {
                    let steps = handler_steps(exprs, entries, strs, injects@, actions@, sts.take(k as int));
                    &&& builder.handlers@.len() == b0.handlers@.len() + steps.len()
                    &&& builder.handlers@.take(b0.handlers@.len() as int) == b0.handlers@
                    &&& forall|j: int| 0 <= j < steps.len() ==> handler_is(
                        #[trigger] builder.handlers@[b0.handlers@.len() + j],
                        steps[j],
                        h_id,
                        node_id,
                        exprs,
                        entries,
                        strs,
                        floats,
                        actions@,
                    )
                    &&& builder.nodes@[node_id.0 as int].handler == if steps.len() > 0 {
                        Some(h_id)
                    } else {
                        b0.nodes@[node_id.0 as int].handler
                    }
                },
            decreases sts.len() - k,
        {
            let ghost bk = *builder;
            let ghost steps_k = handler_steps(exprs, entries, strs, injects@, actions@, sts.take(k as int));
            proof {
                lemma_steps_push(exprs, entries, strs, injects@, actions@, sts, k as int);
                lemma_steps_grow(exprs, entries, strs, injects@, actions@, sts, k + 1);
                assert(crate::ast::stmts_ok(ast.handlers@[handler_id.0 as int].stmts@, crate::ast::arenas_of(*ast)));
                assert(stmt_refs_ok(sts[k as int], crate::ast::arenas_of(*ast)));
            }
            let stmt = &handler.stmts[k];
            let ghost step = stmt_step(exprs, entries, strs, injects@, actions@, *stmt);
            match stmt {
                Stmt::Call { callee, .. } => {
                    if let Some(idx) = resolve_action_call(ast, *callee, actions, injects, interner) {
                        assert((idx as int) < actions@.len());
                        let writes = copy_slots(&actions[idx as usize].writes);
                        proof {
                            let a = actions@[idx as int];
                            assert(reads_below(a.writes@, nslots));
                        }
                        push_handler(
                            builder,
                            HandlerIr { id: h_id, node: node_id, writes, body: HandlerBody::InvokeAction(idx) },
                            Ghost(nslots),
                            Ghost(nactions),
                        );
                    }
                },
                Stmt::IncDec { target, op, .. } => {
                    match ctx.resolve_path(&target.path) {
                        Some(slot) => {
                            proof {
                                crate::sema::provider::lemma_lookup_in(entries, if target.path@.len() == 1 {
                                    SlotKey { prefix: None, field: target.path@[0] }
                                } else {
                                    SlotKey { prefix: Some(target.path@[0]), field: target.path@[1] }
                                }, nslots);
                            }
                            let body = match op {
                                IncDecOp::Inc => HandlerBody::Increment(slot),
                                IncDecOp::Dec => HandlerBody::Decrement(slot),
                            };
                            let w = vec![slot];
                            assert(w@ =~= seq![slot]);
                            push_handler(builder, HandlerIr { id: h_id, node: node_id, writes: w, body }, Ghost(nslots), Ghost(nactions));
                        },
                        None => {
                            if let IncDecOp::Inc = op {
                                self.error_ui1003(target.path[0], target.span, interner);
                            }
                        },
                    }
                },
                Stmt::Assign { target, op, value, .. } => {
                    if let AstAssignOp::Store = op {
                        if let Some(slot) = ctx.resolve_path(&target.path) {
                            proof {
                                crate::sema::provider::lemma_lookup_in(entries, if target.path@.len() == 1 {
                                    SlotKey { prefix: None, field: target.path@[0] }
                                } else {
                                    SlotKey { prefix: Some(target.path@[0]), field: target.path@[1] }
                                }, nslots);
                            }
                            let ir_val = self.lower_expr(ast, ctx, interner, *value);
                            proof {
                                lemma_lowered_below(ir_val, exprs, entries, strs, floats, value.0 as int, nslots);
                            }
                            let w = vec![slot];
                            assert(w@ =~= seq![slot]);
                            push_handler(
                                builder,
                                HandlerIr {
                                    id: h_id,
                                    node: node_id,
                                    writes: w,
                                    body: HandlerBody::Assign { slot, op: AssignOp::Store, value: ir_val },
                                },
                                Ghost(nslots),
                                Ghost(nactions),
                            );
                        }
                    }
                },
                _ => {},
            }
            proof {
                if fits {
                    let steps1 = handler_steps(exprs, entries, strs, injects@, actions@, sts.take(k + 1));
                    assert(bk.handlers@.len() < u32::MAX || step is None);
                    assert(builder.handlers@.take(b0.handlers@.len() as int) =~= b0.handlers@) by {
                        assert forall|j: int| 0 <= j < b0.handlers@.len() implies builder.handlers@[j] == b0.handlers@[j] by {
                            assert(bk.handlers@.take(b0.handlers@.len() as int)[j] == b0.handlers@[j]);
                            assert(builder.handlers@[j] == bk.handlers@[j]);
                        }
                    }
                    assert forall|j: int| 0 <= j < steps1.len() implies handler_is(
                        #[trigger] builder.handlers@[b0.handlers@.len() + j],
                        steps1[j],
                        h_id,
                        node_id,
                        exprs,
                        entries,
                        strs,
                        floats,
                        actions@,
                    ) by {
                        if j < steps_k.len() {
                            assert(steps1[j] == steps_k[j]);
                            assert(builder.handlers@[b0.handlers@.len() + j] == bk.handlers@[b0.handlers@.len() + j]);
                        }
                    }
                }
            }
            k = k + 1;
        }
        proof {
            assert(sts.take(sts.len() as int) =~= sts);
        }
    }
}

} // verus!

verus! {

/// The widget kind an element names; an unknown name is a `Text`.
pub open spec fn kind_of(strs: Seq<Seq<u8>>, sym: Symbol) -> NodeKind {
    match crate::ir::node_kind_named(name_text(strs, sym)) {
        Some(k) => k,
        None => NodeKind::Text,
    }
}

/// The nodes lowering AST node `id` under `parent` adds when the next node
/// gets index `base`: an element becomes a node of its widget kind followed
/// by its children's nodes under it; an `if` contributes its first branch and
/// a list its body, under the same parent; an error node nothing.
pub open spec fn node_shapes(nodes: Seq<AstNode>, strs: Seq<Seq<u8>>, id: int, parent: Option<NodeId>, base: int) -> Seq<
    Shape,
>
    decreases id, 1int, 0int,
{
    if 0 <= id < nodes.len() {
        match nodes[id] {
            AstNode::Element { kind, children, .. } => seq![Shape { kind: kind_of(strs, kind), parent: parent }]
                + list_shapes(nodes, strs, children@, Some(NodeId(base as u32)), base + 1, id, 0),
            AstNode::If { then_, .. } => list_shapes(nodes, strs, then_@, parent, base, id, 0),
            AstNode::List { body, .. } => list_shapes(nodes, strs, body@, parent, base, id, 0),
            AstNode::Error => Seq::empty(),
        }
    } else {
        Seq::empty()
    }
}

/// The nodes lowering `ids[i..]` one after another adds (each id below `bound`).
pub open spec fn list_shapes(
    nodes: Seq<AstNode>,
    strs: Seq<Seq<u8>>,
    ids: Seq<AstNodeId>,
    parent: Option<NodeId>,
    base: int,
    bound: int,
    i: int,
) -> Seq<Shape>
    decreases bound, 0int, ids.len() - i,
{
    if i < 0 || i >= ids.len() {
        Seq::empty()
    } else if 0 <= ids[i].0 < bound {
        let first = node_shapes(nodes, strs, ids[i].0 as int, parent, base);
        first + list_shapes(nodes, strs, ids, parent, base + first.len(), bound, i + 1)
    } else {
        Seq::empty()
    }
}

/// The diagnostics an element's handler raises.
pub open spec fn element_handler_diags(
    handlers: Seq<crate::ast::Handler>,
    entries: Seq<SlotEntry>,
    strs: Seq<Seq<u8>>,
    handler: Option<AstHandlerId>,
) -> Seq<DiagView> {
    match handler {
        Some(h) => if 0 <= h.0 < handlers.len() {
            handler_diags(entries, strs, handlers[h.0 as int].stmts@)
        } else {
            Seq::empty()
        },
        None => Seq::empty(),
    }
}

/// The diagnostics lowering AST node `id` raises: those of its handler, then
/// those of its children (for an `if`, its first branch; for a list, its body).
pub open spec fn node_diags(
    nodes: Seq<AstNode>,
    handlers: Seq<crate::ast::Handler>,
    entries: Seq<SlotEntry>,
    strs: Seq<Seq<u8>>,
    id: int,
) -> Seq<DiagView>
    decreases id, 1int, 0int,
{
    if 0 <= id < nodes.len() {
        match nodes[id] {
            AstNode::Element { handler, children, .. } => element_handler_diags(handlers, entries, strs, handler)
                + list_diags(nodes, handlers, entries, strs, children@, id, 0),
            AstNode::If { then_, .. } => list_diags(nodes, handlers, entries, strs, then_@, id, 0),
            AstNode::List { body, .. } => list_diags(nodes, handlers, entries, strs, body@, id, 0),
            AstNode::Error => Seq::empty(),
        }
    } else {
        Seq::empty()
    }
}

/// The diagnostics lowering `ids[i..]` raises (each id below `bound`).
pub open spec fn list_diags(
    nodes: Seq<AstNode>,
    handlers: Seq<crate::ast::Handler>,
    entries: Seq<SlotEntry>,
    strs: Seq<Seq<u8>>,
    ids: Seq<AstNodeId>,
    bound: int,
    i: int,
) -> Seq<DiagView>
    decreases bound, 0int, ids.len() - i,
{
    if i < 0 || i >= ids.len() {
        Seq::empty()
    } else if 0 <= ids[i].0 < bound {
        node_diags(nodes, handlers, entries, strs, ids[i].0 as int) + list_diags(nodes, handlers, entries, strs, ids, bound, i + 1)
    } else {
        Seq::empty()
    }
}

/// What the statements of a screen's handlers are read against: the AST's
/// handlers and expressions, the slot registrations, the texts, the
/// injected providers and the compiled actions.
pub struct HandlerScope {
    pub handlers: Seq<crate::ast::Handler>,
    pub exprs: Seq<Expr>,
    pub entries: Seq<SlotEntry>,
    pub strs: Seq<Seq<u8>>,
    pub injects: Seq<InjectDef>,
    pub actions: Seq<CompiledAction>,
}

pub open spec fn handler_scope(
    ast: Ast,
    entries: Seq<SlotEntry>,
    strs: Seq<Seq<u8>>,
    injects: Seq<InjectDef>,
    actions: Seq<CompiledAction>,
) -> HandlerScope {
    HandlerScope { handlers: ast.handlers@, exprs: ast.exprs@, entries, strs, injects, actions }
}

/// The handler entries an element's handler adds: one per step of its
/// statements, all with id `hbase` and on IR node `node`.
pub open spec fn element_handlers(sc: HandlerScope, handler: Option<AstHandlerId>, node: int, hbase: int) -> Seq<
    (HandlerId, NodeId, Step),
> {
    match handler {
        Some(h) => if 0 <= h.0 < sc.handlers.len() {
            let steps = handler_steps(sc.exprs, sc.entries, sc.strs, sc.injects, sc.actions, sc.handlers[h.0 as int].stmts@);
            Seq::new(steps.len(), |k: int| (HandlerId(hbase as u32), NodeId(node as u32), steps[k]))
        } else {
            Seq::empty()
        },
        None => Seq::empty(),
    }
}

/// The handler entries lowering AST node `id` adds, its IR nodes numbered
/// from `base` and its handler entries from `hbase`: its own, then its
/// children's.
pub open spec fn node_handlers(
    nodes: Seq<AstNode>,
    sc: HandlerScope,
    id: int,
    parent: Option<NodeId>,
    base: int,
    hbase: int,
) -> Seq<(HandlerId, NodeId, Step)>
    decreases id, 1int, 0int,
{
    if 0 <= id < nodes.len() {
        match nodes[id] {
            AstNode::Element { handler, children, .. } => {
                let own = element_handlers(sc, handler, base, hbase);
                own + list_handlers(nodes, sc, children@, Some(NodeId(base as u32)), base + 1, hbase + own.len(), id, 0)
            },
            AstNode::If { then_, .. } => list_handlers(nodes, sc, then_@, parent, base, hbase, id, 0),
            AstNode::List { body, .. } => list_handlers(nodes, sc, body@, parent, base, hbase, id, 0),
            AstNode::Error => Seq::empty(),
        }
    } else {
        Seq::empty()
    }
}

/// The handler entries lowering `ids[i..]` adds.
pub open spec fn list_handlers(
    nodes: Seq<AstNode>,
    sc: HandlerScope,
    ids: Seq<AstNodeId>,
    parent: Option<NodeId>,
    base: int,
    hbase: int,
    bound: int,
    i: int,
) -> Seq<(HandlerId, NodeId, Step)>
    decreases bound, 0int, ids.len() - i,
{
    if i < 0 || i >= ids.len() {
        Seq::empty()
    } else if 0 <= ids[i].0 < bound {
        let first = node_handlers(nodes, sc, ids[i].0 as int, parent, base, hbase);
        first + list_handlers(
            nodes,
            sc,
            ids,
            parent,
            base + node_shapes(nodes, sc.strs, ids[i].0 as int, parent, base).len(),
            hbase + first.len(),
            bound,
            i + 1,
        )
    } else {
        Seq::empty()
    }
}

/// The handler table `hs` holds, from entry `n0` on, exactly the entries
/// `want`.
pub open spec fn handlers_are(
    hs: Seq<HandlerIr>,
    n0: int,
    want: Seq<(HandlerId, NodeId, Step)>,
    sc: HandlerScope,
    floats: Seq<FloatValue>,
) -> bool {
    &&& hs.len() == n0 + want.len()
    &&& forall|k: int| 0 <= k < want.len() ==> handler_is(
        #[trigger] hs[n0 + k],
        want[k].2,
        want[k].0,
        want[k].1,
        sc.exprs,
        sc.entries,
        sc.strs,
        floats,
        sc.actions,
    )
}

/// The properties lowering adds: static ones (node, key, text) and updated
/// ones (node, key, the interpolation they show).
#[verifier::ext_equal]
pub struct PropsOut {
    pub statics: Seq<(NodeId, PropKey, Seq<char>)>,
    pub updates: Seq<(NodeId, PropKey, AstExprId)>,
}

pub open spec fn no_props() -> PropsOut {
    PropsOut { statics: Seq::empty(), updates: Seq::empty() }
}

pub open spec fn pcat(a: PropsOut, b: PropsOut) -> PropsOut {
    PropsOut { statics: a.statics + b.statics, updates: a.updates + b.updates }
}

/// The properties one argument of an element of `kind` on IR node `node`
/// adds: a string on the widget's primary property is static, an
/// interpolation is updated; anything else adds nothing.
pub open spec fn arg_props(exprs: Seq<Expr>, strs: Seq<Seq<u8>>, kind: NodeKind, node: int, arg: Arg) -> PropsOut {
    match primary_prop_of(kind) {
        Some(key) => match exprs[arg.value.0 as int] {
            Expr::Str(sym) => PropsOut { statics: seq![(NodeId(node as u32), key, name_text(strs, sym))], updates: Seq::empty() },
            Expr::Interp(_) => PropsOut { statics: Seq::empty(), updates: seq![(NodeId(node as u32), key, arg.value)] },
            _ => no_props(),
        },
        None => no_props(),
    }
}

/// An element's argument that is a string or an interpolation sets the
/// widget's own property (`law_primary_prop`: an image's `Src`, a text's
/// `Text`, a button's `Title`, a text field's `Value`) on the element's node,
/// statically for a string and as an update for an interpolation; on a
/// container it sets nothing.
pub proof fn law_positional_arg(exprs: Seq<Expr>, strs: Seq<Seq<u8>>, kind: NodeKind, node: int, arg: Arg, key: PropKey)
    ensures
        primary_prop_of(kind) == Some(key) && exprs[arg.value.0 as int] is Str ==> {
            let p = arg_props(exprs, strs, kind, node, arg);
            &&& p.statics.len() == 1
            &&& p.statics[0].0 == NodeId(node as u32)
            &&& p.statics[0].1 == key
            &&& p.updates.len() == 0
        },
        primary_prop_of(kind) == Some(key) && exprs[arg.value.0 as int] is Interp ==> arg_props(exprs, strs, kind, node, arg)
            == (PropsOut { statics: Seq::empty(), updates: seq![(NodeId(node as u32), key, arg.value)] }),
        primary_prop_of(kind) is None ==> arg_props(exprs, strs, kind, node, arg) == no_props(),
{
}

/// The properties the arguments `args[i..]` add.
pub open spec fn args_props(exprs: Seq<Expr>, strs: Seq<Seq<u8>>, kind: NodeKind, node: int, args: Seq<Arg>, i: int) -> PropsOut
    decreases args.len() - i,
{
    if i < 0 || i >= args.len() {
        no_props()
    } else {
        pcat(arg_props(exprs, strs, kind, node, args[i]), args_props(exprs, strs, kind, node, args, i + 1))
    }
}

/// The properties lowering AST node `id` adds, its IR nodes numbered from
/// `base`: its own arguments', then its children's.
pub open spec fn node_props(nodes: Seq<AstNode>, exprs: Seq<Expr>, strs: Seq<Seq<u8>>, id: int, parent: Option<NodeId>, base: int) -> PropsOut
    decreases id, 1int, 0int,
{
    if 0 <= id < nodes.len() {
        match nodes[id] {
            AstNode::Element { kind, args, children, .. } => pcat(
                args_props(exprs, strs, kind_of(strs, kind), base, args@, 0),
                list_props(nodes, exprs, strs, children@, Some(NodeId(base as u32)), base + 1, id, 0),
            ),
            AstNode::If { then_, .. } => list_props(nodes, exprs, strs, then_@, parent, base, id, 0),
            AstNode::List { body, .. } => list_props(nodes, exprs, strs, body@, parent, base, id, 0),
            AstNode::Error => no_props(),
        }
    } else {
        no_props()
    }
}

/// The properties lowering `ids[i..]` adds.
pub open spec fn list_props(
    nodes: Seq<AstNode>,
    exprs: Seq<Expr>,
    strs: Seq<Seq<u8>>,
    ids: Seq<AstNodeId>,
    parent: Option<NodeId>,
    base: int,
    bound: int,
    i: int,
) -> PropsOut
    decreases bound, 0int, ids.len() - i,
{
    if i < 0 || i >= ids.len() {
        no_props()
    } else if 0 <= ids[i].0 < bound {
        pcat(
            node_props(nodes, exprs, strs, ids[i].0 as int, parent, base),
            list_props(nodes, exprs, strs, ids, parent, base + node_shapes(nodes, strs, ids[i].0 as int, parent, base).len(), bound, i + 1),
        )
    } else {
        no_props()
    }
}

/// The number of slot reads of updated properties.
pub open spec fn upd_reads(ups: Seq<(NodeId, PropKey, AstExprId)>, exprs: Seq<Expr>, entries: Seq<SlotEntry>) -> nat
    decreases ups.len(),
{
    if ups.len() == 0 {
        0
    } else {
        upd_reads(ups.drop_last(), exprs, entries) + read_list(exprs, entries, ups.last().2.0 as int).len()
    }
}

proof fn lemma_upd_reads_concat(a: Seq<(NodeId, PropKey, AstExprId)>, b: Seq<(NodeId, PropKey, AstExprId)>, exprs: Seq<Expr>, entries: Seq<SlotEntry>)
    ensures
        upd_reads(a + b, exprs, entries) == upd_reads(a, exprs, entries) + upd_reads(b, exprs, entries),
    decreases b.len(),
{
    if b.len() > 0 {
        lemma_upd_reads_concat(a, b.drop_last(), exprs, entries);
        assert((a + b).drop_last() =~= a + b.drop_last());
        assert((a + b).last() == b.last());
    } else {
        assert(a + b =~= a);
    }
}

/// Update operation `op` updates the property `want` from expression `eid`,
/// reading the slots its interpolation shows.
pub open spec fn update_op_is(op: UpdateOp, eid: ExprId, want: (NodeId, PropKey, AstExprId), exprs: Seq<Expr>, entries: Seq<SlotEntry>) -> bool {
    &&& op.node == want.0
    &&& op.key == want.1
    &&& op.expr == eid
    &&& op.reads@ == read_list(exprs, entries, want.2.0 as int)
}

/// Update operation `op`, with expression `x` at `eid`, is the update `want`.
pub open spec fn update_is(
    op: UpdateOp,
    x: IrExpr,
    eid: ExprId,
    want: (NodeId, PropKey, AstExprId),
    exprs: Seq<Expr>,
    entries: Seq<SlotEntry>,
    strs: Seq<Seq<u8>>,
) -> bool {
    &&& update_op_is(op, eid, want, exprs, entries)
    &&& exprs[want.2.0 as int] matches Expr::Interp(parts) && x matches IrExpr::Concat(xs) && pieces_are(
        xs@,
        interp_pieces(exprs, entries, strs, parts@),
    )
}

/// From `b0` to `b1` the builder gained exactly the properties `want`.
pub open spec fn props_added(
    b0: NodeBuilder,
    b1: NodeBuilder,
    want: PropsOut,
    exprs: Seq<Expr>,
    entries: Seq<SlotEntry>,
    strs: Seq<Seq<u8>>,
) -> bool {
    let s0 = b0.static_props@.len() as int;
    let u0 = b0.update_ops@.len() as int;
    let e0 = b0.exprs@.len() as int;
    &&& b1.static_props@.len() == s0 + want.statics.len()
    &&& b1.static_props@.take(s0) == b0.static_props@
    &&& forall|k: int| 0 <= k < want.statics.len() ==> {
        let sp = #[trigger] b1.static_props@[s0 + k];
        sp.node == want.statics[k].0 && sp.key == want.statics[k].1 && (sp.value matches IrExpr::Str(t) && t@
            == want.statics[k].2)
    }
    &&& b1.update_ops@.len() == u0 + want.updates.len()
    &&& b1.update_ops@.take(u0) == b0.update_ops@
    &&& b1.exprs@.len() == e0 + want.updates.len()
    &&& b1.exprs@.take(e0) == b0.exprs@
    &&& forall|k: int| 0 <= k < want.updates.len() ==> update_is(
        #[trigger] b1.update_ops@[u0 + k],
        b1.exprs@[e0 + k],
        ExprId((e0 + k) as u32),
        want.updates[k],
        exprs,
        entries,
        strs,
    )
    &&& b1.read_total == b0.read_total + upd_reads(want.updates, exprs, entries)
}

/// The static properties `sp` are `want`'s, one for one.
pub open spec fn statics_are(sp: Seq<StaticProp>, want: Seq<(NodeId, PropKey, Seq<char>)>) -> bool {
    &&& sp.len() == want.len()
    &&& forall|k: int| 0 <= k < want.len() ==> {
        let p = #[trigger] sp[k];
        p.node == want[k].0 && p.key == want[k].1 && (p.value matches IrExpr::Str(t) && t@ == want[k].2)
    }
}

/// The property tables of a screen are the properties `want`: its static
/// properties, and an update operation per updated property whose
/// expression, the same-numbered one, concatenates the interpolation's
/// pieces.
pub open spec fn props_are(
    sp: Seq<StaticProp>,
    ops: Seq<UpdateOp>,
    xs: Seq<IrExpr>,
    want: PropsOut,
    exprs: Seq<Expr>,
    entries: Seq<SlotEntry>,
    strs: Seq<Seq<u8>>,
) -> bool {
    &&& statics_are(sp, want.statics)
    &&& ops.len() == want.updates.len()
    &&& xs.len() == want.updates.len()
    &&& forall|k: int| 0 <= k < want.updates.len() ==> update_is(#[trigger] ops[k], xs[k], ExprId(k as u32), want.updates[k], exprs, entries, strs)
}

proof fn lemma_props_from_empty(
    b0: NodeBuilder,
    b1: NodeBuilder,
    want: PropsOut,
    exprs: Seq<Expr>,
    entries: Seq<SlotEntry>,
    strs: Seq<Seq<u8>>,
)
    requires
        b0.static_props@.len() == 0,
        b0.update_ops@.len() == 0,
        b0.exprs@.len() == 0,
        props_added(b0, b1, want, exprs, entries, strs),
    ensures
        props_are(b1.static_props@, b1.update_ops@, b1.exprs@, want, exprs, entries, strs),
{
    assert forall|k: int| 0 <= k < want.statics.len() implies {
        let p = #[trigger] b1.static_props@[k];
        p.node == want.statics[k].0 && p.key == want.statics[k].1 && (p.value matches IrExpr::Str(t) && t@ == want.statics[k].2)
    } by {
        assert(b1.static_props@[0 + k] == b1.static_props@[k]);
    }
    assert forall|k: int| 0 <= k < want.updates.len() implies update_is(
        #[trigger] b1.update_ops@[k],
        b1.exprs@[k],
        ExprId(k as u32),
        want.updates[k],
        exprs,
        entries,
        strs,
    ) by {
        assert(b1.update_ops@[0 + k] == b1.update_ops@[k]);
        assert(b1.exprs@[0 + k] == b1.exprs@[k]);
    }
}

/// The builder `b` has room for the updated properties `want`.
pub open spec fn props_fit(b: NodeBuilder, want: PropsOut, exprs: Seq<Expr>, entries: Seq<SlotEntry>) -> bool {
    b.exprs@.len() + want.updates.len() <= u32::MAX && b.read_total + upd_reads(want.updates, exprs, entries) <= u32::MAX
}

proof fn lemma_props_none(b: NodeBuilder, exprs: Seq<Expr>, entries: Seq<SlotEntry>, strs: Seq<Seq<u8>>)
    ensures
        props_added(b, b, no_props(), exprs, entries, strs),
{
    assert(b.static_props@.take(b.static_props@.len() as int) =~= b.static_props@);
    assert(b.update_ops@.take(b.update_ops@.len() as int) =~= b.update_ops@);
    assert(b.exprs@.take(b.exprs@.len() as int) =~= b.exprs@);
}

proof fn lemma_props_chain(
    b0: NodeBuilder,
    b1: NodeBuilder,
    b2: NodeBuilder,
    x: PropsOut,
    y: PropsOut,
    exprs: Seq<Expr>,
    entries: Seq<SlotEntry>,
    strs: Seq<Seq<u8>>,
)
    requires
        props_added(b0, b1, x, exprs, entries, strs),
        props_added(b1, b2, y, exprs, entries, strs),
    ensures
        props_added(b0, b2, pcat(x, y), exprs, entries, strs),
{
    let s0 = b0.static_props@.len() as int;
    let u0 = b0.update_ops@.len() as int;
    let e0 = b0.exprs@.len() as int;
    let s1 = b1.static_props@.len() as int;
    let u1 = b1.update_ops@.len() as int;
    let e1 = b1.exprs@.len() as int;
    let z = pcat(x, y);
    assert(b2.static_props@.take(s0) =~= b0.static_props@) by {
        assert forall|j: int| 0 <= j < s0 implies b2.static_props@[j] == b0.static_props@[j] by {
            assert(b2.static_props@.take(s1)[j] == b2.static_props@[j]);
            assert(b1.static_props@.take(s0)[j] == b1.static_props@[j]);
        }
    }
    assert(b2.update_ops@.take(u0) =~= b0.update_ops@) by {
        assert forall|j: int| 0 <= j < u0 implies b2.update_ops@[j] == b0.update_ops@[j] by {
            assert(b2.update_ops@.take(u1)[j] == b2.update_ops@[j]);
            assert(b1.update_ops@.take(u0)[j] == b1.update_ops@[j]);
        }
    }
    assert(b2.exprs@.take(e0) =~= b0.exprs@) by {
        assert forall|j: int| 0 <= j < e0 implies b2.exprs@[j] == b0.exprs@[j] by {
            assert(b2.exprs@.take(e1)[j] == b2.exprs@[j]);
            assert(b1.exprs@.take(e0)[j] == b1.exprs@[j]);
        }
    }
    assert forall|k: int| 0 <= k < z.statics.len() implies {
        let sp = #[trigger] b2.static_props@[s0 + k];
        sp.node == z.statics[k].0 && sp.key == z.statics[k].1 && (sp.value matches IrExpr::Str(t) && t@ == z.statics[k].2)
    } by {
        if k < x.statics.len() {
            assert(b2.static_props@.take(s1)[s0 + k] == b2.static_props@[s0 + k]);
            assert(z.statics[k] == x.statics[k]);
        } else {
            assert(z.statics[k] == y.statics[k - x.statics.len()]);
            assert(b2.static_props@[s0 + k] == b2.static_props@[s1 + (k - x.statics.len())]);
        }
    }
    assert forall|k: int| 0 <= k < z.updates.len() implies update_is(
        #[trigger] b2.update_ops@[u0 + k],
        b2.exprs@[e0 + k],
        ExprId((e0 + k) as u32),
        z.updates[k],
        exprs,
        entries,
        strs,
    ) by {
        if k < x.updates.len() {
            assert(b2.update_ops@.take(u1)[u0 + k] == b2.update_ops@[u0 + k]);
            assert(b2.exprs@.take(e1)[e0 + k] == b2.exprs@[e0 + k]);
            assert(z.updates[k] == x.updates[k]);
        } else {
            let k2 = k - x.updates.len();
            assert(z.updates[k] == y.updates[k2]);
            assert(b2.update_ops@[u0 + k] == b2.update_ops@[u1 + k2]);
            assert(b2.exprs@[e0 + k] == b2.exprs@[e1 + k2]);
        }
    }
    lemma_upd_reads_concat(x.updates, y.updates, exprs, entries);
}

proof fn lemma_arg_props(
    bc: NodeBuilder,
    b1: NodeBuilder,
    exprs: Seq<Expr>,
    entries: Seq<SlotEntry>,
    strs: Seq<Seq<u8>>,
    node: NodeId,
    kind: NodeKind,
    arg: Arg,
    nslots: int,
    nactions: int,
)
    requires
        arg_lowered(bc, b1, exprs, entries, strs, node, kind, arg),
        builder_ok(bc, nslots, nactions),
        builder_ok(b1, nslots, nactions),
        props_fit(bc, arg_props(exprs, strs, kind, node.0 as int, arg), exprs, entries),
    ensures
        props_added(bc, b1, arg_props(exprs, strs, kind, node.0 as int, arg), exprs, entries, strs),
{
    let want = arg_props(exprs, strs, kind, node.0 as int, arg);
    match primary_prop_of(kind) {
        Some(key) => match exprs[arg.value.0 as int] {
            Expr::Str(sym) => {
                assert(b1.static_props@.take(bc.static_props@.len() as int) =~= b1.static_props@.drop_last());
                assert(b1.static_props@[bc.static_props@.len() as int + 0] == b1.static_props@.last());
                assert(b1.update_ops@.take(bc.update_ops@.len() as int) =~= bc.update_ops@);
                assert(b1.exprs@.take(bc.exprs@.len() as int) =~= bc.exprs@);
            },
            Expr::Interp(_) => {
                assert(upd_reads(want.updates, exprs, entries) == read_list(exprs, entries, arg.value.0 as int).len()) by {
                    assert(want.updates.len() == 1);
                    assert(want.updates.drop_last() =~= Seq::<(NodeId, PropKey, AstExprId)>::empty());
                    assert(upd_reads(want.updates.drop_last(), exprs, entries) == 0);
                    assert(want.updates.last().2 == arg.value);
                }
                assert(room_for_op(bc, read_list(exprs, entries, arg.value.0 as int).len() as int));
                assert(b1.static_props@.take(bc.static_props@.len() as int) =~= bc.static_props@);
                assert(b1.update_ops@.take(bc.update_ops@.len() as int) =~= b1.update_ops@.drop_last());
                assert(b1.exprs@.take(bc.exprs@.len() as int) =~= b1.exprs@.drop_last());
                assert(b1.update_ops@[bc.update_ops@.len() as int + 0] == b1.update_ops@.last());
                assert(b1.exprs@[bc.exprs@.len() as int + 0] == b1.exprs@.last());
                assert(NodeId(node.0 as int as u32) == node);
                assert(total_reads(b1.update_ops@) == total_reads(bc.update_ops@) + b1.update_ops@.last().reads@.len());
            },
            _ => {
                lemma_props_none(bc, exprs, entries, strs);
            },
        },
        None => {
            lemma_props_none(bc, exprs, entries, strs);
        },
    }
}

/// A step of a loop that adds `first` of the properties `t` it owes has room
/// for them.
proof fn lemma_props_step_fits(
    b: NodeBuilder,
    bc: NodeBuilder,
    done: PropsOut,
    first: PropsOut,
    rest: PropsOut,
    t: PropsOut,
    exprs: Seq<Expr>,
    entries: Seq<SlotEntry>,
    strs: Seq<Seq<u8>>,
)
    requires
        props_fit(b, t, exprs, entries),
        props_added(b, bc, done, exprs, entries, strs),
        pcat(done, pcat(first, rest)) == t,
    ensures
        props_fit(bc, first, exprs, entries),
        pcat(pcat(done, first), rest) == t,
{
    lemma_upd_reads_concat(first.updates, rest.updates, exprs, entries);
    lemma_upd_reads_concat(done.updates, first.updates + rest.updates, exprs, entries);
    assert(pcat(pcat(done, first), rest) =~= pcat(done, pcat(first, rest)));
}

proof fn lemma_handlers_extend(
    before: Seq<HandlerIr>,
    after: Seq<HandlerIr>,
    h0: int,
    done: Seq<(HandlerId, NodeId, Step)>,
    first: Seq<(HandlerId, NodeId, Step)>,
    sc: HandlerScope,
    floats: Seq<FloatValue>,
)
    requires
        0 <= h0,
        handlers_are(before, h0, done, sc, floats),
        after.take(h0 + done.len()) == before,
        handlers_are(after, h0 + done.len(), first, sc, floats),
    ensures
        handlers_are(after, h0, done + first, sc, floats),
        after.take(h0) == before.take(h0),
{
    let all = done + first;
    assert forall|k: int| 0 <= k < all.len() implies handler_is(
        #[trigger] after[h0 + k],
        all[k].2,
        all[k].0,
        all[k].1,
        sc.exprs,
        sc.entries,
        sc.strs,
        floats,
        sc.actions,
    ) by {
        if k < done.len() {
            assert(after.take(h0 + done.len())[h0 + k] == after[h0 + k]);
            assert(before[h0 + k] == after[h0 + k]);
            assert(all[k] == done[k]);
        } else {
            assert(all[k] == first[k - done.len()]);
            assert(after[h0 + k] == after[h0 + done.len() + (k - done.len())]);
        }
    }
    assert(after.take(h0) =~= before.take(h0)) by {
        assert forall|j: int| 0 <= j < h0 implies after.take(h0)[j] == before.take(h0)[j] by {
            assert(after.take(h0 + done.len())[j] == after[j]);
        }
    }
}

proof fn lemma_wf_node(ast: Ast, id: int)
    requires
        ast_wf(ast),
        0 <= id < ast.nodes@.len(),
    ensures
        node_refs_ok(ast.nodes@[id], below_node(crate::ast::arenas_of(ast), id)),
{
}

impl Compiler {
    /// Lowers AST node `node_id` under `parent`, with its arguments, handler
    /// and children.
    #[verifier::spinoff_prover]
    #[verifier::rlimit(80)]
    fn lower_node(
        &mut self,
        ast: &Ast,
        ctx: &LowerCtx,
        interner: &Interner,
        builder: &mut NodeBuilder,
        node_id: AstNodeId,
        parent: Option<NodeId>,
        actions: &Vec<CompiledAction>,
        injects: &Vec<InjectDef>,
    )
        requires
            ast_wf(*ast),
            ctx_ok(*ctx),
            (node_id.0 as int) < ast.nodes@.len(),
            builder_ok(*old(builder), ctx.slots@.len() as int, actions@.len() as int),
            actions_ok(actions@, ctx.slots@.len() as int),
            parent matches Some(p) ==> (p.0 as int) < old(builder).nodes@.len(),
        ensures
            builder_ok(*final(builder), ctx.slots@.len() as int, actions@.len() as int),
            final(self).float_table() == old(self).float_table(),
            old(builder).nodes@.len() <= final(builder).nodes@.len(),
            diags_kept(old(self).diags(), final(self).diags()),
            ({
                let added = node_shapes(ast.nodes@, interner@, node_id.0 as int, parent, old(builder).nodes@.len() as int);
                old(builder).nodes@.len() + added.len() <= u32::MAX ==> shapes(final(builder).nodes@) == shapes(
                    old(builder).nodes@,
                ) + added && final(builder).nodes@.len() == old(builder).nodes@.len() + added.len()
                    && final(self).diags() == old(self).diags() + node_diags(
                    ast.nodes@,
                    ast.handlers@,
                    ctx.slot_map@,
                    interner@,
                    node_id.0 as int,
                )
            }),
            ({
                let sc = handler_scope(*ast, ctx.slot_map@, interner@, injects@, actions@);
                let n0 = old(builder).nodes@.len() as int;
                let h0 = old(builder).handlers@.len() as int;
                let hs = node_handlers(ast.nodes@, sc, node_id.0 as int, parent, n0, h0);
                n0 + node_shapes(ast.nodes@, interner@, node_id.0 as int, parent, n0).len() <= u32::MAX && h0 + hs.len() <= u32::MAX
                    ==> final(builder).handlers@.take(h0) == old(builder).handlers@ && handlers_are(
                    final(builder).handlers@,
                    h0,
                    hs,
                    sc,
                    old(self).float_table(),
                )
            }),
            ({
                let n0 = old(builder).nodes@.len() as int;
                let pw = node_props(ast.nodes@, ast.exprs@, interner@, node_id.0 as int, parent, n0);
                n0 + node_shapes(ast.nodes@, interner@, node_id.0 as int, parent, n0).len() <= u32::MAX && props_fit(
                    *old(builder),
                    pw,
                    ast.exprs@,
                    ctx.slot_map@,
                ) ==> props_added(*old(builder), *final(builder), pw, ast.exprs@, ctx.slot_map@, interner@)
            }),
        decreases node_id.0,
    {
        let ghost nslots = ctx.slots@.len() as int;
        let ghost nactions = actions@.len() as int;
        let ghost b0 = *builder;
        let ghost strs = interner@;
        let ghost anodes = ast.nodes@;
        let ghost id = node_id.0 as int;
        proof {
            lemma_wf_node(*ast, id);
        }
        match &ast.nodes[node_id.0 as usize] {
            AstNode::Element { kind, args, children, handler, .. } => {
                if builder.nodes.len() >= 4294967295usize {
                    return;
                }
                let kind_name = string_from_utf8_lossy(text_of(interner, *kind));
                let ir_kind = match NodeKind::from_name(kind_name.as_str()) {
                    Some(k) => k,
                    None => NodeKind::TEXT,
                };
                let ir_node_id = builder.add_node(ir_kind, parent, Ghost(nslots), Ghost(nactions));
                let ghost b1 = *builder;
                let ghost aexprs = ast.exprs@;
                let ghost aentries = ctx.slot_map@;
                let ghost n0 = b0.nodes@.len() as int;
                let ghost pw = node_props(anodes, aexprs, strs, id, parent, n0);
                let ghost plist = list_props(anodes, aexprs, strs, children@, Some(NodeId(n0 as u32)), n0 + 1, id, 0);
                let ghost wnfits = n0 + node_shapes(anodes, strs, id, parent, n0).len() <= u32::MAX;
                let ghost pfits = wnfits && props_fit(b0, pw, aexprs, aentries);
                let ghost mut pdone = no_props();
                proof {
                    assert(ir_kind == kind_of(strs, *kind));
                    assert(ir_node_id.0 == n0);
                    assert(pw == pcat(args_props(aexprs, strs, ir_kind, n0, args@, 0), plist));
                    lemma_props_none(b0, aexprs, aentries, strs);
                    assert(pcat(pdone, pw) =~= pw);
                }
                let mut a: usize = 0;
                while a < args.len()
                    invariant
                        aexprs == ast.exprs@,
                        aentries == ctx.slot_map@,
                        strs == interner@,
                        n0 == b0.nodes@.len(),
                        ir_node_id.0 == n0,
                        ir_kind == kind_of(strs, *kind),
                        pfits == (wnfits && props_fit(b0, pw, aexprs, aentries)),
                        pfits ==> props_added(b0, *builder, pdone, aexprs, aentries, strs),
                        pfits ==> pcat(pdone, pcat(args_props(aexprs, strs, ir_kind, n0, args@, a as int), plist)) == pw,
                        ast_wf(*ast),
                        ctx_ok(*ctx),
                        nslots == ctx.slots@.len(),
                        nactions == actions@.len(),
                        crate::ast::args_ok(args@, below_node(crate::ast::arenas_of(*ast), id)),
                        a <= args@.len(),
                        (ir_node_id.0 as int) < builder.nodes@.len(),
                        builder_ok(*builder, nslots, nactions),
                        shapes(builder.nodes@) == shapes(b1.nodes@),
                        builder.nodes@.len() == b1.nodes@.len(),
                        builder.handlers@ == b0.handlers@,
                    decreases args@.len() - a,
                {
                    let ghost bc = *builder;
                    self.lower_element_arg(ast, ctx, interner, builder, ir_node_id, &ir_kind, &args[a], Ghost(nactions));
                    proof {
                        let pfirst = arg_props(aexprs, strs, ir_kind, n0, args@[a as int]);
                        if pfits {
                            let prest = pcat(args_props(aexprs, strs, ir_kind, n0, args@, a + 1), plist);
                            assert(args_props(aexprs, strs, ir_kind, n0, args@, a as int) == pcat(
                                pfirst,
                                args_props(aexprs, strs, ir_kind, n0, args@, a + 1),
                            ));
                            assert(pcat(pcat(pfirst, args_props(aexprs, strs, ir_kind, n0, args@, a + 1)), plist) =~= pcat(pfirst, prest));
                            lemma_props_step_fits(b0, bc, pdone, pfirst, prest, pw, aexprs, aentries, strs);
                            lemma_arg_props(bc, *builder, aexprs, aentries, strs, ir_node_id, ir_kind, args@[a as int], nslots, nactions);
                            lemma_props_chain(b0, bc, *builder, pdone, pfirst, aexprs, aentries, strs);
                            assert(pcat(pcat(pdone, pfirst), pcat(args_props(aexprs, strs, ir_kind, n0, args@, a + 1), plist)) == pw);
                        }
                        pdone = if pfits {
                            pcat(pdone, pfirst)
                        } else {
                            pdone
                        };
                    }
                    a = a + 1;
                }
                proof {
                    if pfits {
                        assert(args_props(aexprs, strs, ir_kind, n0, args@, args@.len() as int) == no_props());
                        assert(pcat(no_props(), plist) =~= plist);
                    }
                }
                let ghost d1 = self.diags();
                if let Some(handler_id) = handler {
                    self.lower_handler(ast, ctx, interner, builder, ir_node_id, *handler_id, actions, injects);
                }
                let ghost b2 = *builder;
                let ghost d2 = self.diags();
                proof {
                    assert(d2 == d1 + element_handler_diags(ast.handlers@, ctx.slot_map@, strs, *handler)) by {
                        if handler.is_none() {
                            assert(d2 =~= d1 + Seq::<DiagView>::empty());
                        }
                    }
                }
                let ghost ahandlers = ast.handlers@;
                let ghost entries = ctx.slot_map@;
                let ghost dtarget = d2 + list_diags(anodes, ahandlers, entries, strs, children@, id, 0);
                assert((ir_node_id.0 as int) < builder.nodes@.len());
                let ghost child_parent = Some(ir_node_id);
                let ghost target = shapes(b2.nodes@) + list_shapes(anodes, strs, children@, child_parent, b2.nodes@.len() as int, id, 0);
                let ghost fits = b2.nodes@.len() + list_shapes(anodes, strs, children@, child_parent, b2.nodes@.len() as int, id, 0).len() <= u32::MAX;
                let ghost sc = handler_scope(*ast, entries, strs, injects@, actions@);
                let ghost floats = self.float_table();
                let ghost h0 = b0.handlers@.len() as int;
                let ghost own = element_handlers(sc, *handler, b0.nodes@.len() as int, h0);
                let ghost whole = node_handlers(anodes, sc, id, parent, b0.nodes@.len() as int, h0);
                let ghost wfits = b0.nodes@.len() + node_shapes(anodes, strs, id, parent, b0.nodes@.len() as int).len() <= u32::MAX
                    && h0 + whole.len() <= u32::MAX;
                let ghost h2 = b2.handlers@.len() as int;
                let ghost htarget = list_handlers(anodes, sc, children@, child_parent, b2.nodes@.len() as int, h2, id, 0);
                let ghost hfits = fits && h2 + htarget.len() <= u32::MAX;
                let ghost mut hdone: Seq<(HandlerId, NodeId, Step)> = Seq::empty();
                proof {
                    if wfits {
                        assert(ir_node_id == NodeId(b0.nodes@.len() as u32));
                        assert(whole == own + list_handlers(
                            anodes,
                            sc,
                            children@,
                            Some(NodeId(b0.nodes@.len() as u32)),
                            (b0.nodes@.len() + 1) as int,
                            h0 + own.len(),
                            id,
                            0,
                        ));
                        if let Some(hid) = handler {
                            assert(h0 + own.len() <= u32::MAX);
                            assert(b2.handlers@.len() == h0 + own.len());
                            assert(b2.handlers@.take(h0) == b0.handlers@);
                            assert(handlers_are(b2.handlers@, h0, own, sc, floats));
                        } else {
                            assert(own =~= Seq::<(HandlerId, NodeId, Step)>::empty());
                            assert(b2.handlers@ == b0.handlers@);
                            assert(b2.handlers@.take(h0) =~= b0.handlers@);
                            assert(handlers_are(b2.handlers@, h0, own, sc, floats));
                        }
                        assert(h2 == h0 + own.len());
                        assert(b2.nodes@.len() == b0.nodes@.len() + 1);
                    }
                    assert(b2.handlers@.take(h2) =~= b2.handlers@);
                    assert(hdone + htarget =~= htarget);
                }
                proof {
                    if wnfits {
                        assert(node_shapes(anodes, strs, id, parent, n0) == seq![Shape { kind: ir_kind, parent: parent }]
                            + list_shapes(anodes, strs, children@, child_parent, n0 + 1, id, 0));
                        assert(b2.nodes@.len() == n0 + 1);
                        assert(fits);
                    }
                }
                let mut c: usize = 0;
                while c < children.len()
                    invariant
                        aexprs == ast.exprs@,
                        aentries == ctx.slot_map@,
                        n0 == b0.nodes@.len(),
                        pfits ==> fits,
                        pfits == (wnfits && props_fit(b0, pw, aexprs, aentries)),
                        pfits ==> props_added(b0, *builder, pdone, aexprs, aentries, strs),
                        pfits ==> pcat(pdone, list_props(anodes, aexprs, strs, children@, child_parent, builder.nodes@.len() as int, id, c as int))
                            == pw,
                        sc == handler_scope(*ast, entries, strs, injects@, actions@),
                        floats == self.float_table(),
                        h2 == b2.handlers@.len(),
                        htarget == list_handlers(anodes, sc, children@, child_parent, b2.nodes@.len() as int, h2, id, 0),
                        hfits == (fits && h2 + htarget.len() <= u32::MAX),
                        hfits ==> hdone + list_handlers(
                            anodes,
                            sc,
                            children@,
                            child_parent,
                            builder.nodes@.len() as int,
                            builder.handlers@.len() as int,
                            id,
                            c as int,
                        ) == htarget,
                        hfits ==> handlers_are(builder.handlers@, h2, hdone, sc, floats),
                        hfits ==> builder.handlers@.take(h2) == b2.handlers@,
                        ast_wf(*ast),
                        ctx_ok(*ctx),
                        nslots == ctx.slots@.len(),
                        nactions == actions@.len(),
                        actions_ok(actions@, nslots),
                        anodes == ast.nodes@,
                        strs == interner@,
                        id == node_id.0,
                        child_parent == Some(ir_node_id),
                        0 <= id < anodes.len(),
                        crate::ast::node_ids_ok(children@, below_node(crate::ast::arenas_of(*ast), id)),
                        c <= children@.len(),
                        (ir_node_id.0 as int) < builder.nodes@.len(),
                        builder_ok(*builder, nslots, nactions),
                        self.float_table() == old(self).float_table(),
                        b2.nodes@.len() <= builder.nodes@.len(),
                        fits ==> shapes(builder.nodes@) + list_shapes(anodes, strs, children@, child_parent, builder.nodes@.len() as int, id, c as int) == target,
                        fits ==> builder.nodes@.len() + list_shapes(anodes, strs, children@, child_parent, builder.nodes@.len() as int, id, c as int).len() <= u32::MAX,
                        ahandlers == ast.handlers@,
                        entries == ctx.slot_map@,
                        fits ==> self.diags() + list_diags(anodes, ahandlers, entries, strs, children@, id, c as int) == dtarget,
                        diags_kept(old(self).diags(), self.diags()),
                    decreases children@.len() - c,
                {
                    let ghost bc = *builder;
                    let ghost dc = self.diags();
                    let child = children[c];
                    proof {
                        assert(child.0 < id);
                    }
                    self.lower_node(ast, ctx, interner, builder, child, Some(ir_node_id), actions, injects);
                    proof {
                        if hfits {
                            let hfirst = node_handlers(anodes, sc, child.0 as int, child_parent, bc.nodes@.len() as int, bc.handlers@.len() as int);
                            let sfirst = node_shapes(anodes, strs, child.0 as int, child_parent, bc.nodes@.len() as int);
                            let hrest = list_handlers(
                                anodes,
                                sc,
                                children@,
                                child_parent,
                                (bc.nodes@.len() + sfirst.len()) as int,
                                (bc.handlers@.len() + hfirst.len()) as int,
                                id,
                                c + 1,
                            );
                            assert(list_handlers(anodes, sc, children@, child_parent, bc.nodes@.len() as int, bc.handlers@.len() as int, id, c as int)
                                == hfirst + hrest);
                            assert(hdone + (hfirst + hrest) =~= (hdone + hfirst) + hrest);
                            assert(bc.handlers@.len() + hfirst.len() <= u32::MAX);
                            assert(bc.nodes@.len() + sfirst.len() <= u32::MAX) by {
                                let rest = list_shapes(anodes, strs, children@, child_parent, (bc.nodes@.len() + sfirst.len()) as int, id, c + 1);
                                assert(list_shapes(anodes, strs, children@, child_parent, bc.nodes@.len() as int, id, c as int) == sfirst + rest);
                            }
                            assert(bc.handlers@.take(h2 + hdone.len()) =~= bc.handlers@);
                            lemma_handlers_extend(bc.handlers@, builder.handlers@, h2, hdone, hfirst, sc, floats);
                            assert(builder.handlers@.take(h2) =~= bc.handlers@.take(h2));
                        }
                        hdone = if hfits {
                            hdone + node_handlers(anodes, sc, child.0 as int, child_parent, bc.nodes@.len() as int, bc.handlers@.len() as int)
                        } else {
                            hdone
                        };
                        let pfirst = node_props(anodes, aexprs, strs, child.0 as int, child_parent, bc.nodes@.len() as int);
                        if pfits {
                            let sfirst = node_shapes(anodes, strs, child.0 as int, child_parent, bc.nodes@.len() as int);
                            let prest = list_props(anodes, aexprs, strs, children@, child_parent, (bc.nodes@.len() + sfirst.len()) as int, id, c + 1);
                            assert(list_props(anodes, aexprs, strs, children@, child_parent, bc.nodes@.len() as int, id, c as int) == pcat(pfirst, prest));
                            lemma_props_step_fits(b0, bc, pdone, pfirst, prest, pw, aexprs, aentries, strs);
                            assert(bc.nodes@.len() + sfirst.len() <= u32::MAX) by {
                                let rest = list_shapes(anodes, strs, children@, child_parent, (bc.nodes@.len() + sfirst.len()) as int, id, c + 1);
                                assert(list_shapes(anodes, strs, children@, child_parent, bc.nodes@.len() as int, id, c as int) == sfirst + rest);
                            }
                            lemma_props_chain(b0, bc, *builder, pdone, pfirst, aexprs, aentries, strs);
                        }
                        pdone = if pfits {
                            pcat(pdone, pfirst)
                        } else {
                            pdone
                        };
                        if fits {
                            let first = node_shapes(anodes, strs, child.0 as int, child_parent, bc.nodes@.len() as int);
                            let rest = list_shapes(anodes, strs, children@, child_parent, (bc.nodes@.len() + first.len()) as int, id, c + 1);
                            assert(list_shapes(anodes, strs, children@, child_parent, bc.nodes@.len() as int, id, c as int) == first + rest);
                            assert(bc.nodes@.len() + first.len() <= u32::MAX);
                            assert(shapes(builder.nodes@) == shapes(bc.nodes@) + first);
                            assert(builder.nodes@.len() == bc.nodes@.len() + first.len());
                            assert(shapes(builder.nodes@) + rest =~= shapes(bc.nodes@) + (first + rest));
                            let dfirst = node_diags(anodes, ahandlers, entries, strs, child.0 as int);
                            let drest = list_diags(anodes, ahandlers, entries, strs, children@, id, c + 1);
                            assert(list_diags(anodes, ahandlers, entries, strs, children@, id, c as int) == dfirst + drest);
                            assert(self.diags() == dc + dfirst);
                            assert(self.diags() + drest =~= dc + (dfirst + drest));
                        }
                    }
                    c = c + 1;
                }
                proof {
                    if b0.nodes@.len() + node_shapes(anodes, strs, id, parent, b0.nodes@.len() as int).len() <= u32::MAX {
                        assert(list_diags(anodes, ahandlers, entries, strs, children@, id, children@.len() as int) == Seq::<DiagView>::empty());
                        assert(self.diags() =~= dtarget);
                        assert(self.diags() =~= old(self).diags() + node_diags(anodes, ahandlers, entries, strs, id));
                        assert(shapes(b2.nodes@) == shapes(b0.nodes@).push(Shape { kind: ir_kind, parent: parent }));
                        assert(ir_node_id.0 == b0.nodes@.len());
                        assert(ir_kind == kind_of(strs, *kind));
                        assert(node_shapes(anodes, strs, id, parent, b0.nodes@.len() as int) == seq![Shape { kind: ir_kind, parent: parent }]
                            + list_shapes(anodes, strs, children@, child_parent, (b0.nodes@.len() + 1) as int, id, 0));
                        assert(b2.nodes@.len() == b0.nodes@.len() + 1);
                        assert(fits);
                        assert(list_shapes(anodes, strs, children@, child_parent, builder.nodes@.len() as int, id, children@.len() as int)
                            == Seq::<Shape>::empty());
                        assert(shapes(builder.nodes@) =~= shapes(b0.nodes@) + node_shapes(anodes, strs, id, parent, b0.nodes@.len() as int));
                    }
                    if pfits {
                        assert(pcat(pdone, no_props()) =~= pdone);
                    }
                    if wfits {
                        assert(hfits);
                        assert(list_handlers(anodes, sc, children@, child_parent, builder.nodes@.len() as int, builder.handlers@.len() as int, id, children@.len() as int)
                            == Seq::<(HandlerId, NodeId, Step)>::empty());
                        assert(hdone =~= htarget);
                        assert(builder.handlers@.take(h0 + own.len()) =~= b2.handlers@);
                        lemma_handlers_extend(b2.handlers@, builder.handlers@, h0, own, hdone, sc, floats);
                        assert(b2.handlers@.take(h0) == b0.handlers@) by {
                            assert(b2.handlers@.take(h0) =~= b0.handlers@);
                        }
                    }
                }
            },
            AstNode::If { then_, .. } => {
                self.lower_node_list(ast, ctx, interner, builder, then_, parent, actions, injects, Ghost(id));
            },
            AstNode::List { body, .. } => {
                self.lower_node_list(ast, ctx, interner, builder, body, parent, actions, injects, Ghost(id));
            },
            AstNode::Error => {
                assert(shapes(builder.nodes@) =~= shapes(b0.nodes@) + Seq::<Shape>::empty());
                assert(self.diags() =~= old(self).diags() + Seq::<DiagView>::empty());
                assert(builder.handlers@.take(b0.handlers@.len() as int) =~= b0.handlers@);
                proof {
                    lemma_props_none(b0, ast.exprs@, ctx.slot_map@, strs);
                }
            },
        }
    }

    /// Lowers the nodes `ids`, all below AST node `bound`, under `parent`.
    #[verifier::spinoff_prover]
    fn lower_node_list(
        &mut self,
        ast: &Ast,
        ctx: &LowerCtx,
        interner: &Interner,
        builder: &mut NodeBuilder,
        ids: &Vec<AstNodeId>,
        parent: Option<NodeId>,
        actions: &Vec<CompiledAction>,
        injects: &Vec<InjectDef>,
        Ghost(bound): Ghost<int>,
    )
        requires
            ast_wf(*ast),
            ctx_ok(*ctx),
            0 <= bound <= ast.nodes@.len(),
            crate::ast::node_ids_ok(ids@, below_node(crate::ast::arenas_of(*ast), bound)),
            builder_ok(*old(builder), ctx.slots@.len() as int, actions@.len() as int),
            actions_ok(actions@, ctx.slots@.len() as int),
            parent matches Some(p) ==> (p.0 as int) < old(builder).nodes@.len(),
        ensures
            builder_ok(*final(builder), ctx.slots@.len() as int, actions@.len() as int),
            final(self).float_table() == old(self).float_table(),
            old(builder).nodes@.len() <= final(builder).nodes@.len(),
            diags_kept(old(self).diags(), final(self).diags()),
            ({
                let added = list_shapes(ast.nodes@, interner@, ids@, parent, old(builder).nodes@.len() as int, bound, 0);
                old(builder).nodes@.len() + added.len() <= u32::MAX ==> shapes(final(builder).nodes@) == shapes(
                    old(builder).nodes@,
                ) + added && final(builder).nodes@.len() == old(builder).nodes@.len() + added.len()
                    && final(self).diags() == old(self).diags() + list_diags(
                    ast.nodes@,
                    ast.handlers@,
                    ctx.slot_map@,
                    interner@,
                    ids@,
                    bound,
                    0,
                )
            }),
            ({
                let sc = handler_scope(*ast, ctx.slot_map@, interner@, injects@, actions@);
                let n0 = old(builder).nodes@.len() as int;
                let h0 = old(builder).handlers@.len() as int;
                let hs = list_handlers(ast.nodes@, sc, ids@, parent, n0, h0, bound, 0);
                n0 + list_shapes(ast.nodes@, interner@, ids@, parent, n0, bound, 0).len() <= u32::MAX && h0 + hs.len() <= u32::MAX
                    ==> final(builder).handlers@.take(h0) == old(builder).handlers@ && handlers_are(
                    final(builder).handlers@,
                    h0,
                    hs,
                    sc,
                    old(self).float_table(),
                )
            }),
            ({
                let n0 = old(builder).nodes@.len() as int;
                let pt = list_props(ast.nodes@, ast.exprs@, interner@, ids@, parent, n0, bound, 0);
                n0 + list_shapes(ast.nodes@, interner@, ids@, parent, n0, bound, 0).len() <= u32::MAX && props_fit(
                    *old(builder),
                    pt,
                    ast.exprs@,
                    ctx.slot_map@,
                ) ==> props_added(*old(builder), *final(builder), pt, ast.exprs@, ctx.slot_map@, interner@)
            }),
        decreases bound, 0int,
    {
        let ghost nslots = ctx.slots@.len() as int;
        let ghost nactions = actions@.len() as int;
        let ghost b0 = *builder;
        let ghost strs = interner@;
        let ghost anodes = ast.nodes@;
        let ghost target = shapes(b0.nodes@) + list_shapes(anodes, strs, ids@, parent, b0.nodes@.len() as int, bound, 0);
        let ghost fits = b0.nodes@.len() + list_shapes(anodes, strs, ids@, parent, b0.nodes@.len() as int, bound, 0).len() <= u32::MAX;
        let ghost ahandlers = ast.handlers@;
        let ghost entries = ctx.slot_map@;
        let ghost dtarget = self.diags() + list_diags(anodes, ahandlers, entries, strs, ids@, bound, 0);
        let ghost sc = handler_scope(*ast, entries, strs, injects@, actions@);
        let ghost floats = self.float_table();
        let ghost h0 = b0.handlers@.len() as int;
        let ghost htarget = list_handlers(anodes, sc, ids@, parent, b0.nodes@.len() as int, h0, bound, 0);
        let ghost hfits = fits && h0 + htarget.len() <= u32::MAX;
        let ghost mut hdone: Seq<(HandlerId, NodeId, Step)> = Seq::empty();
        let ghost aexprs = ast.exprs@;
        let ghost pt = list_props(anodes, aexprs, strs, ids@, parent, b0.nodes@.len() as int, bound, 0);
        let ghost pfits = fits && props_fit(b0, pt, aexprs, entries);
        let ghost mut pdone = no_props();
        proof {
            assert(b0.handlers@.take(h0) =~= b0.handlers@);
            assert(hdone + htarget =~= htarget);
            lemma_props_none(b0, aexprs, entries, strs);
            assert(pcat(pdone, pt) =~= pt);
        }
        let mut c: usize = 0;
        while c < ids.len()
            invariant
                aexprs == ast.exprs@,
                pt == list_props(anodes, aexprs, strs, ids@, parent, b0.nodes@.len() as int, bound, 0),
                pfits == (fits && props_fit(b0, pt, aexprs, entries)),
                pfits ==> props_added(b0, *builder, pdone, aexprs, entries, strs),
                pfits ==> pcat(pdone, list_props(anodes, aexprs, strs, ids@, parent, builder.nodes@.len() as int, bound, c as int))
                    == pt,
                sc == handler_scope(*ast, entries, strs, injects@, actions@),
                floats == self.float_table(),
                h0 == b0.handlers@.len(),
                htarget == list_handlers(anodes, sc, ids@, parent, b0.nodes@.len() as int, h0, bound, 0),
                hfits == (fits && h0 + htarget.len() <= u32::MAX),
                hfits ==> hdone + list_handlers(
                    anodes,
                    sc,
                    ids@,
                    parent,
                    builder.nodes@.len() as int,
                    builder.handlers@.len() as int,
                    bound,
                    c as int,
                ) == htarget,
                hfits ==> handlers_are(builder.handlers@, h0, hdone, sc, floats),
                hfits ==> builder.handlers@.take(h0) == b0.handlers@,
                ast_wf(*ast),
                ctx_ok(*ctx),
                nslots == ctx.slots@.len(),
                nactions == actions@.len(),
                actions_ok(actions@, nslots),
                anodes == ast.nodes@,
                strs == interner@,
                0 <= bound <= anodes.len(),
                crate::ast::node_ids_ok(ids@, below_node(crate::ast::arenas_of(*ast), bound)),
                c <= ids@.len(),
                parent matches Some(p) ==> (p.0 as int) < builder.nodes@.len(),
                builder_ok(*builder, nslots, nactions),
                self.float_table() == old(self).float_table(),
                b0.nodes@.len() <= builder.nodes@.len(),
                fits ==> shapes(builder.nodes@) + list_shapes(anodes, strs, ids@, parent, builder.nodes@.len() as int, bound, c as int) == target,
                fits ==> builder.nodes@.len() + list_shapes(anodes, strs, ids@, parent, builder.nodes@.len() as int, bound, c as int).len() <= u32::MAX,
                ahandlers == ast.handlers@,
                entries == ctx.slot_map@,
                fits ==> self.diags() + list_diags(anodes, ahandlers, entries, strs, ids@, bound, c as int) == dtarget,
                diags_kept(old(self).diags(), self.diags()),
            decreases ids@.len() - c,
        {
            let ghost bc = *builder;
            let ghost dc = self.diags();
            let child = ids[c];
            proof {
                assert(child.0 < bound);
            }
            self.lower_node(ast, ctx, interner, builder, child, parent, actions, injects);
            proof {
                if hfits {
                    let hfirst = node_handlers(anodes, sc, child.0 as int, parent, bc.nodes@.len() as int, bc.handlers@.len() as int);
                    let sfirst = node_shapes(anodes, strs, child.0 as int, parent, bc.nodes@.len() as int);
                    let hrest = list_handlers(
                        anodes,
                        sc,
                        ids@,
                        parent,
                        (bc.nodes@.len() + sfirst.len()) as int,
                        (bc.handlers@.len() + hfirst.len()) as int,
                        bound,
                        c + 1,
                    );
                    assert(list_handlers(anodes, sc, ids@, parent, bc.nodes@.len() as int, bc.handlers@.len() as int, bound, c as int)
                        == hfirst + hrest);
                    assert(hdone + (hfirst + hrest) =~= (hdone + hfirst) + hrest);
                    assert(bc.handlers@.len() + hfirst.len() <= u32::MAX);
                    assert(bc.nodes@.len() + sfirst.len() <= u32::MAX) by {
                        let rest = list_shapes(anodes, strs, ids@, parent, (bc.nodes@.len() + sfirst.len()) as int, bound, c + 1);
                        assert(list_shapes(anodes, strs, ids@, parent, bc.nodes@.len() as int, bound, c as int) == sfirst + rest);
                    }
                    assert(bc.handlers@.take(h0 + hdone.len()) =~= bc.handlers@);
                    lemma_handlers_extend(bc.handlers@, builder.handlers@, h0, hdone, hfirst, sc, floats);
                    assert(builder.handlers@.take(h0) =~= bc.handlers@.take(h0));
                    assert(bc.handlers@.take(h0) == b0.handlers@);
                }
                hdone = if hfits {
                    hdone + node_handlers(anodes, sc, child.0 as int, parent, bc.nodes@.len() as int, bc.handlers@.len() as int)
                } else {
                    hdone
                };
                let pfirst = node_props(anodes, aexprs, strs, child.0 as int, parent, bc.nodes@.len() as int);
                if pfits {
                    let sfirst = node_shapes(anodes, strs, child.0 as int, parent, bc.nodes@.len() as int);
                    let prest = list_props(anodes, aexprs, strs, ids@, parent, (bc.nodes@.len() + sfirst.len()) as int, bound, c + 1);
                    assert(list_props(anodes, aexprs, strs, ids@, parent, bc.nodes@.len() as int, bound, c as int) == pcat(pfirst, prest));
                    lemma_props_step_fits(b0, bc, pdone, pfirst, prest, pt, aexprs, entries, strs);
                    assert(bc.nodes@.len() + sfirst.len() <= u32::MAX) by {
                        let rest = list_shapes(anodes, strs, ids@, parent, (bc.nodes@.len() + sfirst.len()) as int, bound, c + 1);
                        assert(list_shapes(anodes, strs, ids@, parent, bc.nodes@.len() as int, bound, c as int) == sfirst + rest);
                    }
                    lemma_props_chain(b0, bc, *builder, pdone, pfirst, aexprs, entries, strs);
                }
                pdone = if pfits {
                    pcat(pdone, pfirst)
                } else {
                    pdone
                };
                if fits {
                    let first = node_shapes(anodes, strs, child.0 as int, parent, bc.nodes@.len() as int);
                    let rest = list_shapes(anodes, strs, ids@, parent, (bc.nodes@.len() + first.len()) as int, bound, c + 1);
                    assert(list_shapes(anodes, strs, ids@, parent, bc.nodes@.len() as int, bound, c as int) == first + rest);
                    assert(bc.nodes@.len() + first.len() <= u32::MAX);
                    assert(shapes(builder.nodes@) == shapes(bc.nodes@) + first);
                    assert(builder.nodes@.len() == bc.nodes@.len() + first.len());
                    assert(shapes(builder.nodes@) + rest =~= shapes(bc.nodes@) + (first + rest));
                    let dfirst = node_diags(anodes, ahandlers, entries, strs, child.0 as int);
                    let drest = list_diags(anodes, ahandlers, entries, strs, ids@, bound, c + 1);
                    assert(list_diags(anodes, ahandlers, entries, strs, ids@, bound, c as int) == dfirst + drest);
                    assert(self.diags() == dc + dfirst);
                    assert(self.diags() + drest =~= dc + (dfirst + drest));
                }
            }
            c = c + 1;
        }
        proof {
            if fits {
                assert(list_shapes(anodes, strs, ids@, parent, builder.nodes@.len() as int, bound, ids@.len() as int) == Seq::<Shape>::empty());
                assert(shapes(builder.nodes@) =~= target);
                assert(list_diags(anodes, ahandlers, entries, strs, ids@, bound, ids@.len() as int) == Seq::<DiagView>::empty());
                assert(self.diags() =~= dtarget);
            }
            if hfits {
                assert(hdone =~= htarget);
            }
            if pfits {
                assert(pcat(pdone, no_props()) =~= pdone);
            }
        }
    }
}

} // verus!

verus! {

/// The first arm at or after `i` whose pattern is a plain name.
pub open spec fn first_ident_arm(arms: Seq<MatchArm>, i: int) -> Option<int>
    decreases arms.len() - i,
{
    if i < 0 || i >= arms.len() {
        None
    } else if arms[i].pattern is Ident {
        Some(i)
    } else {
        first_ident_arm(arms, i + 1)
    }
}

/// The arm of a `match` whose nodes a screen shows: the first arm with a
/// plain name pattern, else the first arm.
pub open spec fn chosen_arm(arms: Seq<MatchArm>) -> Option<int> {
    match first_ident_arm(arms, 0) {
        Some(i) => Some(i),
        None => if arms.len() > 0 { Some(0) } else { None },
    }
}

proof fn lemma_first_ident_arm(arms: Seq<MatchArm>, i: int)
    requires
        0 <= i,
    ensures
        first_ident_arm(arms, i) matches Some(k) ==> i <= k < arms.len(),
    decreases arms.len() - i,
{
    if i < arms.len() && !(arms[i].pattern is Ident) {
        lemma_first_ident_arm(arms, i + 1);
    }
}

/// The nodes the body items `items[i..]` of a screen add from index `base`.
pub open spec fn body_shapes(nodes: Seq<AstNode>, strs: Seq<Seq<u8>>, items: Seq<ScreenBodyItem>, base: int, i: int) -> Seq<Shape>
    decreases items.len() - i,
{
    if i < 0 || i >= items.len() {
        Seq::empty()
    } else {
        let first = match items[i] {
            ScreenBodyItem::Node(id) => node_shapes(nodes, strs, id.0 as int, None, base),
            ScreenBodyItem::Match(m) => match chosen_arm(m.arms@) {
                Some(a) => list_shapes(nodes, strs, m.arms@[a].body@, None, base, nodes.len() as int, 0),
                None => Seq::empty(),
            },
        };
        first + body_shapes(nodes, strs, items, base + first.len(), i + 1)
    }
}

/// The diagnostics lowering one body item of a screen raises.
pub open spec fn item_diags(
    nodes: Seq<AstNode>,
    handlers: Seq<crate::ast::Handler>,
    entries: Seq<SlotEntry>,
    strs: Seq<Seq<u8>>,
    item: ScreenBodyItem,
) -> Seq<DiagView> {
    match item {
        ScreenBodyItem::Node(id) => node_diags(nodes, handlers, entries, strs, id.0 as int),
        ScreenBodyItem::Match(m) => match chosen_arm(m.arms@) {
            Some(a) => list_diags(nodes, handlers, entries, strs, m.arms@[a].body@, nodes.len() as int, 0),
            None => Seq::empty(),
        },
    }
}

/// The diagnostics lowering the body items `items[i..]` of a screen raises.
pub open spec fn body_diags(
    nodes: Seq<AstNode>,
    handlers: Seq<crate::ast::Handler>,
    entries: Seq<SlotEntry>,
    strs: Seq<Seq<u8>>,
    items: Seq<ScreenBodyItem>,
    i: int,
) -> Seq<DiagView>
    decreases items.len() - i,
{
    if i < 0 || i >= items.len() {
        Seq::empty()
    } else {
        item_diags(nodes, handlers, entries, strs, items[i]) + body_diags(nodes, handlers, entries, strs, items, i + 1)
    }
}

/// The node shapes lowering one body item of a screen adds.
pub open spec fn item_shapes(nodes: Seq<AstNode>, strs: Seq<Seq<u8>>, item: ScreenBodyItem, base: int) -> Seq<Shape> {
    match item {
        ScreenBodyItem::Node(id) => node_shapes(nodes, strs, id.0 as int, None, base),
        ScreenBodyItem::Match(m) => match chosen_arm(m.arms@) {
            Some(a) => list_shapes(nodes, strs, m.arms@[a].body@, None, base, nodes.len() as int, 0),
            None => Seq::empty(),
        },
    }
}

/// The handler entries lowering one body item of a screen adds.
pub open spec fn item_handlers(nodes: Seq<AstNode>, sc: HandlerScope, item: ScreenBodyItem, base: int, hbase: int) -> Seq<
    (HandlerId, NodeId, Step),
> {
    match item {
        ScreenBodyItem::Node(id) => node_handlers(nodes, sc, id.0 as int, None, base, hbase),
        ScreenBodyItem::Match(m) => match chosen_arm(m.arms@) {
            Some(a) => list_handlers(nodes, sc, m.arms@[a].body@, None, base, hbase, nodes.len() as int, 0),
            None => Seq::empty(),
        },
    }
}

/// The properties lowering one body item of a screen adds.
pub open spec fn item_props(nodes: Seq<AstNode>, exprs: Seq<Expr>, strs: Seq<Seq<u8>>, item: ScreenBodyItem, base: int) -> PropsOut {
    match item {
        ScreenBodyItem::Node(id) => node_props(nodes, exprs, strs, id.0 as int, None, base),
        ScreenBodyItem::Match(m) => match chosen_arm(m.arms@) {
            Some(a) => list_props(nodes, exprs, strs, m.arms@[a].body@, None, base, nodes.len() as int, 0),
            None => no_props(),
        },
    }
}

/// The properties lowering the body items `items[i..]` of a screen adds.
pub open spec fn body_props(nodes: Seq<AstNode>, exprs: Seq<Expr>, strs: Seq<Seq<u8>>, items: Seq<ScreenBodyItem>, base: int, i: int) -> PropsOut
    decreases items.len() - i,
{
    if i < 0 || i >= items.len() {
        no_props()
    } else {
        pcat(
            item_props(nodes, exprs, strs, items[i], base),
            body_props(nodes, exprs, strs, items, base + item_shapes(nodes, strs, items[i], base).len(), i + 1),
        )
    }
}

/// The handler entries lowering the body items `items[i..]` of a screen adds.
pub open spec fn body_handlers(
    nodes: Seq<AstNode>,
    sc: HandlerScope,
    items: Seq<ScreenBodyItem>,
    base: int,
    hbase: int,
    i: int,
) -> Seq<(HandlerId, NodeId, Step)>
    decreases items.len() - i,
{
    if i < 0 || i >= items.len() {
        Seq::empty()
    } else {
        let first = item_handlers(nodes, sc, items[i], base, hbase);
        first + body_handlers(
            nodes,
            sc,
            items,
            base + item_shapes(nodes, sc.strs, items[i], base).len(),
            hbase + first.len(),
            i + 1,
        )
    }
}

/// The arm of `arms` a screen shows.
fn choose_arm(arms: &Vec<MatchArm>) -> (r: Option<usize>)
    ensures
        r matches Some(a) ==> chosen_arm(arms@) == Some(a as int) && (a as int) < arms@.len(),
        r is None ==> chosen_arm(arms@) is None,
{
    proof {
        lemma_first_ident_arm(arms@, 0);
    }
    let mut i: usize = 0;
    while i < arms.len()
        invariant
            i <= arms@.len(),
            first_ident_arm(arms@, 0) == first_ident_arm(arms@, i as int),
        decreases arms@.len() - i,
    {
        if let MatchPattern::Ident(_) = arms[i].pattern {
            return Some(i);
        }
        i = i + 1;
    }
    if arms.len() > 0 {
        Some(0)
    } else {
        None
    }
}

/// What the handlers of a screen may call: the actions compiled for it, and
/// the providers it injects, by which a call names its action.
pub struct HandlerEnv<'a> {
    pub actions: &'a Vec<CompiledAction>,
    pub injects: &'a Vec<InjectDef>,
}

/// Lowers the body items of a screen, each at the top level.
#[verifier::spinoff_prover]
pub fn lower_screen_body_items(
    compiler: &mut Compiler,
    ast: &Ast,
    ctx: &LowerCtx,
    builder: &mut NodeBuilder,
    items: &Vec<ScreenBodyItem>,
    handler_env: &HandlerEnv,
    interner: &Interner,
)
    requires
        ast_wf(*ast),
        ctx_ok(*ctx),
        forall|i: int| 0 <= i < items@.len() ==> body_item_ok(#[trigger] items@[i], crate::ast::arenas_of(*ast)),
        builder_ok(*old(builder), ctx.slots@.len() as int, handler_env.actions@.len() as int),
        actions_ok(handler_env.actions@, ctx.slots@.len() as int),
    ensures
        builder_ok(*final(builder), ctx.slots@.len() as int, handler_env.actions@.len() as int),
        final(compiler).float_table() == old(compiler).float_table(),
        diags_kept(old(compiler).diags(), final(compiler).diags()),
        old(builder).nodes@.len() <= final(builder).nodes@.len(),
        ({
            let added = body_shapes(ast.nodes@, interner@, items@, old(builder).nodes@.len() as int, 0);
            old(builder).nodes@.len() + added.len() <= u32::MAX ==> shapes(final(builder).nodes@) == shapes(
                old(builder).nodes@,
            ) + added && final(compiler).diags() == old(compiler).diags() + body_diags(
                ast.nodes@,
                ast.handlers@,
                ctx.slot_map@,
                interner@,
                items@,
                0,
            )
        }),
        ({
            let sc = handler_scope(*ast, ctx.slot_map@, interner@, handler_env.injects@, handler_env.actions@);
            let n0 = old(builder).nodes@.len() as int;
            let h0 = old(builder).handlers@.len() as int;
            let hs = body_handlers(ast.nodes@, sc, items@, n0, h0, 0);
            n0 + body_shapes(ast.nodes@, interner@, items@, n0, 0).len() <= u32::MAX && h0 + hs.len() <= u32::MAX
                ==> final(builder).handlers@.take(h0) == old(builder).handlers@ && handlers_are(
                final(builder).handlers@,
                h0,
                hs,
                sc,
                old(compiler).float_table(),
            )
        }),
        ({
            let n0 = old(builder).nodes@.len() as int;
            let pt = body_props(ast.nodes@, ast.exprs@, interner@, items@, n0, 0);
            n0 + body_shapes(ast.nodes@, interner@, items@, n0, 0).len() <= u32::MAX && props_fit(
                *old(builder),
                pt,
                ast.exprs@,
                ctx.slot_map@,
            ) ==> props_added(*old(builder), *final(builder), pt, ast.exprs@, ctx.slot_map@, interner@)
        }),
{
    let actions = handler_env.actions;
    let injects = handler_env.injects;
    let ghost nslots = ctx.slots@.len() as int;
    let ghost nactions = actions@.len() as int;
    let ghost b0 = *builder;
    let ghost strs = interner@;
    let ghost anodes = ast.nodes@;
    let ghost target = shapes(b0.nodes@) + body_shapes(anodes, strs, items@, b0.nodes@.len() as int, 0);
    let ghost fits = b0.nodes@.len() + body_shapes(anodes, strs, items@, b0.nodes@.len() as int, 0).len() <= u32::MAX;
    let ghost ahandlers = ast.handlers@;
    let ghost entries = ctx.slot_map@;
    let ghost dtarget = compiler.diags() + body_diags(anodes, ahandlers, entries, strs, items@, 0);
    let ghost sc = handler_scope(*ast, entries, strs, injects@, actions@);
    let ghost floats = compiler.float_table();
    let ghost h0 = b0.handlers@.len() as int;
    let ghost htarget = body_handlers(anodes, sc, items@, b0.nodes@.len() as int, h0, 0);
    let ghost hfits = fits && h0 + htarget.len() <= u32::MAX;
    let ghost mut hdone: Seq<(HandlerId, NodeId, Step)> = Seq::empty();
    let ghost aexprs = ast.exprs@;
    let ghost pt = body_props(anodes, aexprs, strs, items@, b0.nodes@.len() as int, 0);
    let ghost pfits = fits && props_fit(b0, pt, aexprs, entries);
    let ghost mut pdone = no_props();
    proof {
        assert(b0.handlers@.take(h0) =~= b0.handlers@);
        assert(hdone + htarget =~= htarget);
        lemma_props_none(b0, aexprs, entries, strs);
        assert(pcat(pdone, pt) =~= pt);
    }
    let mut i: usize = 0;
    while i < items.len()
        invariant
            aexprs == ast.exprs@,
            pt == body_props(anodes, aexprs, strs, items@, b0.nodes@.len() as int, 0),
            pfits == (fits && props_fit(b0, pt, aexprs, entries)),
            pfits ==> props_added(b0, *builder, pdone, aexprs, entries, strs),
            pfits ==> pcat(pdone, body_props(anodes, aexprs, strs, items@, builder.nodes@.len() as int, i as int)) == pt,
            sc == handler_scope(*ast, entries, strs, injects@, actions@),
            floats == compiler.float_table(),
            h0 == b0.handlers@.len(),
            htarget == body_handlers(anodes, sc, items@, b0.nodes@.len() as int, h0, 0),
            hfits == (fits && h0 + htarget.len() <= u32::MAX),
            hfits ==> hdone + body_handlers(
                anodes,
                sc,
                items@,
                builder.nodes@.len() as int,
                builder.handlers@.len() as int,
                i as int,
            ) == htarget,
            hfits ==> handlers_are(builder.handlers@, h0, hdone, sc, floats),
            hfits ==> builder.handlers@.take(h0) == b0.handlers@,
            ast_wf(*ast),
            ctx_ok(*ctx),
            nslots == ctx.slots@.len(),
            nactions == actions@.len(),
            actions_ok(actions@, nslots),
            anodes == ast.nodes@,
            strs == interner@,
            forall|j: int| 0 <= j < items@.len() ==> body_item_ok(#[trigger] items@[j], crate::ast::arenas_of(*ast)),
            i <= items@.len(),
            builder_ok(*builder, nslots, nactions),
            compiler.float_table() == old(compiler).float_table(),
            b0.nodes@.len() <= builder.nodes@.len(),
            fits ==> shapes(builder.nodes@) + body_shapes(anodes, strs, items@, builder.nodes@.len() as int, i as int) == target,
            fits ==> builder.nodes@.len() + body_shapes(anodes, strs, items@, builder.nodes@.len() as int, i as int).len() <= u32::MAX,
            ahandlers == ast.handlers@,
            entries == ctx.slot_map@,
            fits ==> compiler.diags() + body_diags(anodes, ahandlers, entries, strs, items@, i as int) == dtarget,
            diags_kept(old(compiler).diags(), compiler.diags()),
        decreases items@.len() - i,
    {
        let ghost bc = *builder;
        let ghost dc = compiler.diags();
        let ghost dfirst = item_diags(anodes, ahandlers, entries, strs, items@[i as int]);
        assert(body_item_ok(items@[i as int], crate::ast::arenas_of(*ast)));
        let ghost first = match items@[i as int] {
            ScreenBodyItem::Node(id) => node_shapes(anodes, strs, id.0 as int, None, bc.nodes@.len() as int),
            ScreenBodyItem::Match(m) => match chosen_arm(m.arms@) {
                Some(a) => list_shapes(anodes, strs, m.arms@[a].body@, None, bc.nodes@.len() as int, anodes.len() as int, 0),
                None => Seq::empty(),
            },
        };
        let ghost ok = bc.nodes@.len() + first.len() <= u32::MAX;
        match &items[i] {
            ScreenBodyItem::Node(node_id) => {
                compiler.lower_node(ast, ctx, interner, builder, *node_id, None, actions, injects);
            },
            ScreenBodyItem::Match(match_def) => {
                if let Some(a) = choose_arm(&match_def.arms) {
                    proof {
                        lemma_first_ident_arm(match_def.arms@, 0);
                        assert(crate::ast::node_ids_ok(match_def.arms@[a as int].body@, crate::ast::arenas_of(*ast)));
                        assert(crate::ast::node_ids_ok(
                            match_def.arms@[a as int].body@,
                            below_node(crate::ast::arenas_of(*ast), anodes.len() as int),
                        ));
                    }
                    compiler.lower_node_list(
                        ast,
                        ctx,
                        interner,
                        builder,
                        &match_def.arms[a].body,
                        None,
                        actions,
                        injects,
                        Ghost(anodes.len() as int),
                    );
                } else {
                    assert(shapes(builder.nodes@) =~= shapes(bc.nodes@) + first);
                    assert(compiler.diags() =~= dc + dfirst);
                    assert(builder.handlers@.take(bc.handlers@.len() as int) =~= bc.handlers@);
                    proof {
                        lemma_props_none(bc, aexprs, entries, strs);
                    }
                }
            },
        }
        proof {
            assert(item_shapes(anodes, strs, items@[i as int], bc.nodes@.len() as int) == first);
            if hfits {
                let hfirst = item_handlers(anodes, sc, items@[i as int], bc.nodes@.len() as int, bc.handlers@.len() as int);
                let hrest = body_handlers(
                    anodes,
                    sc,
                    items@,
                    (bc.nodes@.len() + first.len()) as int,
                    (bc.handlers@.len() + hfirst.len()) as int,
                    i + 1,
                );
                assert(body_handlers(anodes, sc, items@, bc.nodes@.len() as int, bc.handlers@.len() as int, i as int) == hfirst + hrest);
                assert(hdone + (hfirst + hrest) =~= (hdone + hfirst) + hrest);
                assert(bc.handlers@.len() + hfirst.len() <= u32::MAX);
                assert(bc.nodes@.len() + first.len() <= u32::MAX) by {
                    let rest = body_shapes(anodes, strs, items@, (bc.nodes@.len() + first.len()) as int, i + 1);
                    assert(body_shapes(anodes, strs, items@, bc.nodes@.len() as int, i as int) == first + rest);
                }
                assert(handlers_are(builder.handlers@, bc.handlers@.len() as int, hfirst, sc, floats)
                    && builder.handlers@.take(bc.handlers@.len() as int) == bc.handlers@) by {
                    if hfirst.len() == 0 && builder.handlers@ == bc.handlers@ {
                        assert(builder.handlers@.take(bc.handlers@.len() as int) =~= bc.handlers@);
                    }
                }
                assert(bc.handlers@.take(h0 + hdone.len()) =~= bc.handlers@);
                lemma_handlers_extend(bc.handlers@, builder.handlers@, h0, hdone, hfirst, sc, floats);
                assert(builder.handlers@.take(h0) =~= bc.handlers@.take(h0));
            }
            hdone = if hfits {
                hdone + item_handlers(anodes, sc, items@[i as int], bc.nodes@.len() as int, bc.handlers@.len() as int)
            } else {
                hdone
            };
            let pfirst = item_props(anodes, aexprs, strs, items@[i as int], bc.nodes@.len() as int);
            if pfits {
                let prest = body_props(anodes, aexprs, strs, items@, (bc.nodes@.len() + first.len()) as int, i + 1);
                assert(body_props(anodes, aexprs, strs, items@, bc.nodes@.len() as int, i as int) == pcat(pfirst, prest));
                lemma_props_step_fits(b0, bc, pdone, pfirst, prest, pt, aexprs, entries, strs);
                assert(bc.nodes@.len() + first.len() <= u32::MAX) by {
                    let rest = body_shapes(anodes, strs, items@, (bc.nodes@.len() + first.len()) as int, i + 1);
                    assert(body_shapes(anodes, strs, items@, bc.nodes@.len() as int, i as int) == first + rest);
                }
                assert(props_added(bc, *builder, pfirst, aexprs, entries, strs));
                lemma_props_chain(b0, bc, *builder, pdone, pfirst, aexprs, entries, strs);
            }
            pdone = if pfits {
                pcat(pdone, pfirst)
            } else {
                pdone
            };
            if fits {
                let rest = body_shapes(anodes, strs, items@, (bc.nodes@.len() + first.len()) as int, i + 1);
                assert(body_shapes(anodes, strs, items@, bc.nodes@.len() as int, i as int) == first + rest);
                assert(bc.nodes@.len() + first.len() <= u32::MAX);
                assert(shapes(builder.nodes@) == shapes(bc.nodes@) + first);
                assert(builder.nodes@.len() == bc.nodes@.len() + first.len()) by {
                    assert(shapes(builder.nodes@).len() == builder.nodes@.len());
                    assert(shapes(bc.nodes@).len() == bc.nodes@.len());
                }
                assert(shapes(builder.nodes@) + rest =~= shapes(bc.nodes@) + (first + rest));
                let drest = body_diags(anodes, ahandlers, entries, strs, items@, i + 1);
                assert(body_diags(anodes, ahandlers, entries, strs, items@, i as int) == dfirst + drest);
                assert(compiler.diags() == dc + dfirst);
                assert(compiler.diags() + drest =~= dc + (dfirst + drest));
            }
        }
        i = i + 1;
    }
    proof {
        if fits {
            assert(body_shapes(anodes, strs, items@, builder.nodes@.len() as int, items@.len() as int) == Seq::<Shape>::empty());
            assert(shapes(builder.nodes@) =~= target);
            assert(body_diags(anodes, ahandlers, entries, strs, items@, items@.len() as int) == Seq::<DiagView>::empty());
            assert(compiler.diags() =~= dtarget);
        }
        if hfits {
            assert(hdone =~= htarget);
        }
        if pfits {
            assert(pcat(pdone, no_props()) =~= pdone);
        }
    }
}

} // verus!

verus! {

/// The builder holding the tables of screen `s`.
pub open spec fn screen_builder(s: ScreenIr) -> NodeBuilder {
    NodeBuilder {
        nodes: s.nodes,
        static_props: s.static_props,
        update_ops: s.update_ops,
        handlers: s.handlers,
        exprs: s.exprs,
        read_total: total_reads(s.update_ops@) as u64,
    }
}

/// A screen's IR is well formed: every id it holds names an entry that
/// exists, the node table is a forest, the dependency table is the one its
/// update operations give, and its actions name only its slots.
pub open spec fn screen_ok(s: ScreenIr) -> bool {
    &&& s.slots@.len() <= u32::MAX
    &&& total_reads(s.update_ops@) <= u32::MAX
    &&& builder_ok(screen_builder(s), s.slots@.len() as int, s.actions@.len() as int)
    &&& actions_ok(s.actions@, s.slots@.len() as int)
    &&& dep_table_of(s.deps, s.slots@.len() as int, s.update_ops@)
    &&& forall|k: int| 0 <= k < s.listens@.len() ==> reads_below((#[trigger] s.listens@[k]).reads@, s.slots@.len() as int)
        && s.listens@[k].handler == HandlerId(k as u32)
}

/// Every screen the compiler gives can be run: each node's parent exists, and
/// every update operation evaluates on the initial slot values.
pub proof fn lemma_compiled_screen_runs(s: ScreenIr)
    requires
        screen_ok(s),
    ensures
        s.slots@.len() <= u32::MAX,
        s.nodes@.len() <= u32::MAX,
        crate::runtime::native::parents_in_range(s.nodes@),
        crate::runtime::reactive::all_ops_ok(s, crate::runtime::reactive::init_values(s.slots@)),
{
    let b = screen_builder(s);
    let ints = crate::runtime::reactive::init_values(s.slots@);
    assert forall|i: int| 0 <= i < s.nodes@.len() && #[trigger] s.nodes@[i].parent is Some implies (s.nodes@[i].parent->0).0
        < s.nodes@.len() by {
        assert(b.nodes@[i] == s.nodes@[i]);
    }
    assert forall|k: int| 0 <= k < s.update_ops@.len() implies #[trigger] crate::runtime::reactive::op_ok(
        s.exprs@,
        s.update_ops@[k],
        ints,
    ) by {
        let op = s.update_ops@[k];
        assert(b.update_ops@[k] == op);
        if (op.expr.0 as int) < s.exprs@.len() {
            assert(slots_below(b.exprs@[op.expr.0 as int], s.slots@.len() as int));
            lemma_slots_below_ok(s.exprs@[op.expr.0 as int], ints);
        }
    }
}

/// The registrations of the first `k` states of a screen without injections.
pub open spec fn state_entries(states: Seq<crate::ast::StateDef>, k: int) -> Seq<SlotEntry> {
    Seq::new(k as nat, |j: int| SlotEntry { key: SlotKey { prefix: None, field: states[j].name }, slot: SlotId(j as u32) })
}

/// The slots of a screen without injections are its states, in order: each
/// named as the state, of the state's type, and starting at the state's
/// initial value, which may name the states before it.
pub open spec fn state_slots(
    slots: Seq<SlotDef>,
    states: Seq<crate::ast::StateDef>,
    exprs: Seq<Expr>,
    strs: Seq<Seq<u8>>,
    floats: Seq<FloatValue>,
) -> bool {
    &&& slots.len() == states.len()
    &&& forall|j: int| 0 <= j < slots.len() ==> {
        let sl = #[trigger] slots[j];
        &&& sl.name == states[j].name
        &&& sl.ty == type_of(strs, states[j].ty)
        &&& readonly_lowers_to(sl.init, exprs, state_entries(states, j), strs, floats, states[j].init.0 as int)
    }
}

/// The provider a screen's injection of type `name` refers to: the last
/// provider of that name among the items, if any.
pub open spec fn provider_of(items: Seq<Item>, name: Symbol) -> Option<crate::ast::ProviderDef> {
    match provider_item(items, name) {
        Some(i) => match items[i] {
            Item::Provider(p) => Some(p),
            _ => None,
        },
        None => None,
    }
}

/// The slot map and the interner after the first `k` injections of a screen
/// have registered their providers' state fields, in order, starting from
/// an empty slot map and interner `s0`; an injection of an unknown provider
/// registers nothing.
pub open spec fn reg_injects(items: Seq<Item>, injects: Seq<InjectDef>, s0: Seq<Seq<u8>>, k: nat) -> (
    Seq<SlotEntry>,
    Seq<Seq<u8>>,
)
    decreases k,
{
    if k == 0 {
        (Seq::empty(), s0)
    } else {
        let prev = reg_injects(items, injects, s0, (k - 1) as nat);
        match provider_of(items, injects[k - 1].ty.name) {
            Some(p) => crate::sema::provider::reg_fields(
                p.states@,
                injects[k - 1].name,
                prev.0.len() as int,
                prev.0,
                prev.1,
                p.states@.len(),
            ),
            None => prev,
        }
    }
}

pub proof fn lemma_reg_injects(items: Seq<Item>, injects: Seq<InjectDef>, s0: Seq<Seq<u8>>, k: nat)
    ensures
        reg_injects(items, injects, s0, k).1.len() <= s0.len() + reg_injects(items, injects, s0, k).0.len(),
        s0.is_prefix_of(reg_injects(items, injects, s0, k).1),
        forall|m: nat| m <= k ==> (#[trigger] reg_injects(items, injects, s0, m)).0.len() <= reg_injects(items, injects, s0, k).0.len(),
    decreases k,
{
    if k > 0 {
        lemma_reg_injects(items, injects, s0, (k - 1) as nat);
        let prev = reg_injects(items, injects, s0, (k - 1) as nat);
        match provider_of(items, injects[k - 1].ty.name) {
            Some(p) => {
                crate::sema::provider::lemma_reg_fields_len(p.states@, injects[k - 1].name, prev.0.len() as int, prev.0, prev.1, p.states@.len());
                let t = reg_injects(items, injects, s0, k).1;
                assert forall|j: int| 0 <= j < s0.len() implies t[j] == s0[j] by {
                    assert(prev.1[j] == s0[j]);
                }
            },
            None => {},
        }
    }
}

/// The first slots of a screen are its injections' provider fields: for
/// each injection of a known provider, in order, the provider's state
/// fields, registered as `reg_fields` says.
pub open spec fn inject_slots(
    slots: Seq<SlotDef>,
    items: Seq<Item>,
    injects: Seq<InjectDef>,
    s0: Seq<Seq<u8>>,
    exprs: Seq<Expr>,
    floats: Seq<FloatValue>,
    k: int,
) -> bool {
    forall|m: int| 0 <= m < k ==> match provider_of(items, (#[trigger] injects[m]).ty.name) {
        Some(p) => {
            let r = reg_injects(items, injects, s0, m as nat);
            crate::sema::provider::fields_slots(slots, p.states@, injects[m].name, r.0.len() as int, r.0, r.1, exprs, floats, p.states@.len())
        },
        None => true,
    }
}

/// The `UI2001` diagnostics of the first `k` injections of a screen: one
/// per injection of an unknown provider, in order.
pub open spec fn inject_diags(items: Seq<Item>, injects: Seq<InjectDef>, s0: Seq<Seq<u8>>, k: nat) -> Seq<DiagView>
    decreases k,
{
    if k == 0 {
        Seq::empty()
    } else {
        inject_diags(items, injects, s0, (k - 1) as nat) + match provider_of(items, injects[k - 1].ty.name) {
            Some(_) => Seq::empty(),
            None => seq![unknown_provider(reg_injects(items, injects, s0, (k - 1) as nat).1, injects[k - 1].ty.name, injects[k - 1].span)],
        }
    }
}

/// How many actions the providers of the first `k` injections have.
pub open spec fn inject_act_count(items: Seq<Item>, injects: Seq<InjectDef>, k: nat) -> nat
    decreases k,
{
    if k == 0 {
        0
    } else {
        inject_act_count(items, injects, (k - 1) as nat) + match provider_of(items, injects[k - 1].ty.name) {
            Some(p) => p.actions@.len(),
            None => 0,
        }
    }
}

pub proof fn lemma_act_count_mono(items: Seq<Item>, injects: Seq<InjectDef>, k: nat)
    ensures
        forall|m: nat| m <= k ==> #[trigger] inject_act_count(items, injects, m) <= inject_act_count(items, injects, k),
    decreases k,
{
    if k > 0 {
        lemma_act_count_mono(items, injects, (k - 1) as nat);
    }
}

/// The diagnostics compiling the actions of the first `k` injections raises.
pub open spec fn inject_act_diags(
    items: Seq<Item>,
    injects: Seq<InjectDef>,
    handlers: Seq<crate::ast::Handler>,
    entries: Seq<SlotEntry>,
    strs: Seq<Seq<u8>>,
    k: nat,
) -> Seq<DiagView>
    decreases k,
{
    if k == 0 {
        Seq::empty()
    } else {
        inject_act_diags(items, injects, handlers, entries, strs, (k - 1) as nat) + match provider_of(items, injects[k - 1].ty.name) {
            Some(p) => crate::sema::provider::provider_act_diags(
                entries,
                strs,
                Some(injects[k - 1].name),
                p.actions@,
                handlers,
                p.actions@.len(),
            ),
            None => Seq::empty(),
        }
    }
}

/// Actions `base ..` of `actions` are the actions of provider `p` compiled
/// for the injection `inj`.
pub open spec fn provider_actions_at(
    actions: Seq<CompiledAction>,
    base: int,
    p: crate::ast::ProviderDef,
    inj: Symbol,
    ast: Ast,
    entries: Seq<SlotEntry>,
    strs: Seq<Seq<u8>>,
    floats: Seq<FloatValue>,
) -> bool {
    forall|j: int| 0 <= j < p.actions@.len() ==> crate::sema::provider::action_compiled(
        #[trigger] actions[base + j],
        p.actions@[j],
        p.name,
        Some(inj),
        ast,
        entries,
        strs,
        floats,
    )
}

/// The compiled actions of a screen are its injections' providers' actions,
/// injection by injection, each compiled for its injection.
pub open spec fn inject_actions(
    actions: Seq<CompiledAction>,
    injects: Seq<InjectDef>,
    ast: Ast,
    entries: Seq<SlotEntry>,
    strs: Seq<Seq<u8>>,
    floats: Seq<FloatValue>,
    k: int,
) -> bool {
    forall|m: int| 0 <= m < k ==> match provider_of(ast.items@, (#[trigger] injects[m]).ty.name) {
        Some(p) => provider_actions_at(
            actions,
            inject_act_count(ast.items@, injects, m as nat) as int,
            p,
            injects[m].name,
            ast,
            entries,
            strs,
            floats,
        ),
        None => true,
    }
}

/// The slot map of a screen once its first `k` states are registered after
/// the slot map `e0` of its injections: state `j` in the slot after them.
pub open spec fn screen_entries(e0: Seq<SlotEntry>, states: Seq<crate::ast::StateDef>, k: int) -> Seq<SlotEntry> {
    e0 + Seq::new(
        k as nat,
        |j: int| SlotEntry { key: SlotKey { prefix: None, field: states[j].name }, slot: SlotId((e0.len() + j) as u32) },
    )
}

/// Slots `e0.len() ..` of `slots` are the screen's states, in order: each
/// named as the state, of the state's type, and starting at the state's
/// initial value, which may name the provider fields and the states before it.
pub open spec fn screen_state_slots(
    slots: Seq<SlotDef>,
    e0: Seq<SlotEntry>,
    states: Seq<crate::ast::StateDef>,
    exprs: Seq<Expr>,
    strs: Seq<Seq<u8>>,
    floats: Seq<FloatValue>,
    k: int,
) -> bool {
    forall|j: int| 0 <= j < k ==> {
        let sl = #[trigger] slots[e0.len() + j];
        &&& sl.name == states[j].name
        &&& sl.ty == type_of(strs, states[j].ty)
        &&& readonly_lowers_to(sl.init, exprs, screen_entries(e0, states, j), strs, floats, states[j].init.0 as int)
    }
}

/// A screen's slots and injected actions fit in the id range: the provider
/// fields and states in `u32` slot ids, the interned field names in `u32`
/// symbols, and the injected actions in `u32` action ids.
pub open spec fn screen_room(ast: Ast, d: ScreenDef, s0: Seq<Seq<u8>>) -> bool {
    let ri = reg_injects(ast.items@, d.injects@, s0, d.injects@.len());
    &&& ri.0.len() + d.state@.len() < u32::MAX
    &&& s0.len() + ri.0.len() < u32::MAX
    &&& inject_act_count(ast.items@, d.injects@, d.injects@.len()) <= u32::MAX
}

/// The IR of a screen, injections included, lowered against interner `s0`:
/// its slots are its injections' provider fields, then its states; its
/// actions are its injections' providers' actions compiled for it; its
/// node table, handler table and property tables are the ones its body
/// gives against that slot map, the injections and the actions (when their
/// numbers fit in the id range).
pub open spec fn screen_lowered_in(ir: ScreenIr, d: ScreenDef, ast: Ast, s0: Seq<Seq<u8>>, floats: Seq<FloatValue>) -> bool {
    let n = d.injects@.len();
    let ri = reg_injects(ast.items@, d.injects@, s0, n);
    let strs = ri.1;
    let ents = screen_entries(ri.0, d.state@, d.state@.len() as int);
    let sc = handler_scope(ast, ents, strs, d.injects@, ir.actions@);
    let hs = body_handlers(ast.nodes@, sc, d.body@, 0, 0, 0);
    let pt = body_props(ast.nodes@, ast.exprs@, strs, d.body@, 0, 0);
    let bs = body_shapes(ast.nodes@, strs, d.body@, 0, 0);
    &&& ir.name == d.name
    &&& ir.slots@.len() == ri.0.len() + d.state@.len()
    &&& inject_slots(ir.slots@, ast.items@, d.injects@, s0, ast.exprs@, floats, n as int)
    &&& screen_state_slots(ir.slots@, ri.0, d.state@, ast.exprs@, strs, floats, d.state@.len() as int)
    &&& ir.actions@.len() == inject_act_count(ast.items@, d.injects@, n)
    &&& inject_actions(ir.actions@, d.injects@, ast, ents, strs, floats, n as int)
    &&& bs.len() <= u32::MAX ==> shapes(ir.nodes@) == bs
    &&& bs.len() <= u32::MAX && hs.len() <= u32::MAX ==> handlers_are(ir.handlers@, 0, hs, sc, floats)
    &&& bs.len() <= u32::MAX && pt.updates.len() <= u32::MAX && upd_reads(pt.updates, ast.exprs@, ents) <= u32::MAX
        ==> props_are(ir.static_props@, ir.update_ops@, ir.exprs@, pt, ast.exprs@, ents, strs)
}

/// The diagnostics lowering a screen against interner `s0` raises: `UI2001`
/// for each injection of an unknown provider, then those of compiling the
/// injected actions, then those of its body.
pub open spec fn screen_diags(ast: Ast, d: ScreenDef, s0: Seq<Seq<u8>>) -> Seq<DiagView> {
    let n = d.injects@.len();
    let ri = reg_injects(ast.items@, d.injects@, s0, n);
    let ents = screen_entries(ri.0, d.state@, d.state@.len() as int);
    inject_diags(ast.items@, d.injects@, s0, n) + inject_act_diags(ast.items@, d.injects@, ast.handlers@, ents, ri.1, n)
        + body_diags(ast.nodes@, ast.handlers@, ents, ri.1, d.body@, 0)
}

proof fn lemma_inject_slots_frame(
    s1: Seq<SlotDef>,
    s2: Seq<SlotDef>,
    items: Seq<Item>,
    injects: Seq<InjectDef>,
    s0: Seq<Seq<u8>>,
    exprs: Seq<Expr>,
    floats: Seq<FloatValue>,
    k: int,
)
    requires
        0 <= k <= injects.len(),
        inject_slots(s1, items, injects, s0, exprs, floats, k),
        reg_injects(items, injects, s0, k as nat).0.len() <= s1.len() <= s2.len(),
        forall|i: int| 0 <= i < s1.len() ==> #[trigger] s2[i] == s1[i],
    ensures
        inject_slots(s2, items, injects, s0, exprs, floats, k),
{
    lemma_reg_injects(items, injects, s0, k as nat);
    assert forall|m: int| 0 <= m < k implies match provider_of(items, (#[trigger] injects[m]).ty.name) {
        Some(p) => {
            let r = reg_injects(items, injects, s0, m as nat);
            crate::sema::provider::fields_slots(s2, p.states@, injects[m].name, r.0.len() as int, r.0, r.1, exprs, floats, p.states@.len())
        },
        None => true,
    } by {
        match provider_of(items, injects[m].ty.name) {
            Some(p) => {
                let r = reg_injects(items, injects, s0, m as nat);
                crate::sema::provider::lemma_reg_fields_len(p.states@, injects[m].name, r.0.len() as int, r.0, r.1, p.states@.len());
                assert(reg_injects(items, injects, s0, (m + 1) as nat).0.len() <= reg_injects(items, injects, s0, k as nat).0.len());
                assert forall|j: int| 0 <= j < p.states@.len() implies {
                    let q = crate::sema::provider::reg_fields(p.states@, injects[m].name, r.0.len() as int, r.0, r.1, j as nat);
                    crate::sema::provider::field_slot_ok(#[trigger] s2[r.0.len() + j], p.states@[j], injects[m].name, q.0, q.1, exprs, floats)
                } by {
                    assert(s2[r.0.len() + j] == s1[r.0.len() + j]);
                }
            },
            None => {},
        }
    }
}

proof fn lemma_inject_actions_frame(
    a1: Seq<CompiledAction>,
    a2: Seq<CompiledAction>,
    injects: Seq<InjectDef>,
    ast: Ast,
    ents: Seq<SlotEntry>,
    strs: Seq<Seq<u8>>,
    floats: Seq<FloatValue>,
    k: int,
)
    requires
        0 <= k <= injects.len(),
        inject_actions(a1, injects, ast, ents, strs, floats, k),
        inject_act_count(ast.items@, injects, k as nat) <= a1.len() <= a2.len(),
        forall|i: int| 0 <= i < a1.len() ==> #[trigger] a2[i] == a1[i],
    ensures
        inject_actions(a2, injects, ast, ents, strs, floats, k),
{
    lemma_act_count_mono(ast.items@, injects, k as nat);
    assert forall|m: int| 0 <= m < k implies match provider_of(ast.items@, (#[trigger] injects[m]).ty.name) {
        Some(p) => provider_actions_at(
            a2,
            inject_act_count(ast.items@, injects, m as nat) as int,
            p,
            injects[m].name,
            ast,
            ents,
            strs,
            floats,
        ),
        None => true,
    } by {
        match provider_of(ast.items@, injects[m].ty.name) {
            Some(p) => {
                let b = inject_act_count(ast.items@, injects, m as nat) as int;
                assert(inject_act_count(ast.items@, injects, (m + 1) as nat) <= inject_act_count(ast.items@, injects, k as nat));
                assert forall|j: int| 0 <= j < p.actions@.len() implies crate::sema::provider::action_compiled(
                    #[trigger] a2[b + j],
                    p.actions@[j],
                    p.name,
                    Some(injects[m].name),
                    ast,
                    ents,
                    strs,
                    floats,
                ) by {
                    assert(a2[b + j] == a1[b + j]);
                }
            },
            None => {},
        }
    }
}

/// `UI2001` for the provider type `sym`.
impl Compiler {
    fn error_ui2001(&mut self, sym: Symbol, span: Span, interner: &Interner)
        ensures
            final(self).diags() == old(self).diags().push(unknown_provider(interner@, sym, span)),
            final(self).float_table() == old(self).float_table(),
    {
        let name = string_from_utf8_lossy(text_of(interner, sym));
        let mut message = String::from_str("unknown provider type `");
        message.append(name.as_str());
        message.append("`");
        let code = String::from_str("UI2001");
        let suggestion = String::from_str("define @provider before the screen");
        proof {
            reveal_strlit("unknown provider type `");
            reveal_strlit("`");
            reveal_strlit("UI2001");
            reveal_strlit("define @provider before the screen");
        }
        self.push_diag(Diagnostic { code, message, span, suggestion: Some(suggestion) });
    }

    /// Lowers a screen: its injected providers' state and its own state
    /// become slots, the providers' actions are compiled for it, and its body
    /// becomes the node table with its props, update operations and handlers.
    #[verifier::spinoff_prover]
    #[verifier::rlimit(80)]
    fn lower_screen(&mut self, ast: &Ast, screen: &ScreenDef, provider_index: &ProviderIndex, interner: &mut Interner) -> (r: Option<ScreenIr>)
        requires
            ast_wf(*ast),
            crate::ast::params_ok(screen.params@, crate::ast::arenas_of(*ast)),
            crate::ast::states_ok(screen.state@, crate::ast::arenas_of(*ast)),
            forall|i: int| 0 <= i < screen.body@.len() ==> body_item_ok(#[trigger] screen.body@[i], crate::ast::arenas_of(*ast)),
            crate::ast::listens_ok(screen.listens@, crate::ast::arenas_of(*ast)),
            indexes(*provider_index, ast.items@),
        ensures
            r matches Some(ir) && screen_ok(ir) && ir.name == screen.name,
            final(self).float_table() == old(self).float_table(),
            old(interner)@.is_prefix_of(final(interner)@),
            diags_kept(old(self).diags(), final(self).diags()),
            screen.injects@.len() == 0 && screen.state@.len() < u32::MAX ==> final(interner)@ == old(interner)@
                && (r matches Some(ir) && state_slots(ir.slots@, screen.state@, ast.exprs@, old(interner)@, old(self).float_table())
                && ir.actions@.len() == 0
                && (body_shapes(ast.nodes@, old(interner)@, screen.body@, 0, 0).len() <= u32::MAX ==> shapes(ir.nodes@)
                    == body_shapes(ast.nodes@, old(interner)@, screen.body@, 0, 0) && final(self).diags() == old(self).diags()
                    + body_diags(
                    ast.nodes@,
                    ast.handlers@,
                    state_entries(screen.state@, screen.state@.len() as int),
                    old(interner)@,
                    screen.body@,
                    0,
                ))
                && screen_handlers_ok(ir, *screen, *ast, old(interner)@, old(self).float_table())
                && screen_props_ok(ir, *screen, *ast, old(interner)@)),
            screen_room(*ast, *screen, old(interner)@) ==> final(interner)@ == reg_injects(
                ast.items@,
                screen.injects@,
                old(interner)@,
                screen.injects@.len(),
            ).1 && (r matches Some(ir) && screen_lowered_in(ir, *screen, *ast, old(interner)@, old(self).float_table()))
                && (body_shapes(ast.nodes@, final(interner)@, screen.body@, 0, 0).len() <= u32::MAX ==> final(self).diags()
                == old(self).diags() + screen_diags(*ast, *screen, old(interner)@)),
    {
        let ghost strs0 = interner@;
        let ghost floats = self.float_table();
        let ghost no_injects = screen.injects@.len() == 0;
        let ghost items = ast.items@;
        let ghost injs = screen.injects@;
        let ghost ri = reg_injects(items, injs, strs0, injs.len());
        let ghost room = screen_room(*ast, *screen, strs0);
        let ghost ents = screen_entries(ri.0, screen.state@, screen.state@.len() as int);
        proof {
            lemma_reg_injects(items, injs, strs0, injs.len());
            lemma_act_count_mono(items, injs, injs.len());
        }
        let mut slots: Vec<SlotDef> = Vec::new();
        let mut slot_map: Vec<SlotEntry> = Vec::new();
        let mut i: usize = 0;
        while i < screen.injects.len()
            invariant
                ast_wf(*ast),
                indexes(*provider_index, ast.items@),
                i <= screen.injects@.len(),
                slots@.len() <= u32::MAX,
                forall|j: int| 0 <= j < slot_map@.len() ==> (#[trigger] slot_map@[j]).slot.0 < slots@.len(),
                strs0.is_prefix_of(interner@),
                self.float_table() == floats,
                screen.injects@.len() == 0 ==> slots@.len() == 0 && slot_map@.len() == 0 && interner@ == strs0
                    && self.diags() == old(self).diags(),
                diags_kept(old(self).diags(), self.diags()),
                items == ast.items@,
                injs == screen.injects@,
                ri == reg_injects(items, injs, strs0, injs.len()),
                room == screen_room(*ast, *screen, strs0),
                room ==> slot_map@ == reg_injects(items, injs, strs0, i as nat).0 && slots@.len() == slot_map@.len()
                    && interner@ == reg_injects(items, injs, strs0, i as nat).1
                    && inject_slots(slots@, items, injs, strs0, ast.exprs@, floats, i as int)
                    && self.diags() == old(self).diags() + inject_diags(items, injs, strs0, i as nat),
            decreases screen.injects@.len() - i,
        {
            proof {
                lemma_reg_injects(items, injs, strs0, injs.len());
                lemma_reg_injects(items, injs, strs0, i as nat);
            }
            let inject = &screen.injects[i];
            match provider_index.get(ast, inject.ty.name) {
                Some(idx) => {
                    proof {
                        crate::sema::provider::lemma_provider_item(ast.items@, inject.ty.name);
                    }
                    if let Item::Provider(p) = &ast.items[idx] {
                        assert(item_refs_ok(ast.items@[idx as int], crate::ast::arenas_of(*ast)));
                        let ghost ib = interner@;
                        let ghost sb = slots@;
                        let ghost mb = slot_map@;
                        proof {
                            assert(provider_of(items, injs[i as int].ty.name) == Some(*p));
                            if room {
                                let r = reg_injects(items, injs, strs0, i as nat);
                                crate::sema::provider::lemma_reg_fields_len(p.states@, inject.name, r.0.len() as int, r.0, r.1, p.states@.len());
                                assert(reg_injects(items, injs, strs0, (i + 1) as nat).0.len() <= ri.0.len());
                            }
                        }
                        register_provider_slots(self, ast, &mut slots, &mut slot_map, inject, p, interner);
                        proof {
                            assert(strs0.is_prefix_of(interner@)) by {
                                assert forall|j: int| 0 <= j < strs0.len() implies strs0[j] == interner@[j] by {
                                    assert(ib[j] == strs0[j]);
                                }
                            }
                            if room {
                                assert forall|q: int| 0 <= q < sb.len() implies #[trigger] slots@[q] == sb[q] by {
                                    assert(slots@.take(sb.len() as int)[q] == sb[q]);
                                }
                                lemma_inject_slots_frame(sb, slots@, items, injs, strs0, ast.exprs@, floats, i as int);
                                assert(inject_diags(items, injs, strs0, (i + 1) as nat) =~= inject_diags(items, injs, strs0, i as nat));
                            }
                        }
                    }
                },
                None => {
                    self.error_ui2001(inject.ty.name, inject.span, interner);
                    proof {
                        if room {
                            assert(inject_diags(items, injs, strs0, (i + 1) as nat) =~= inject_diags(items, injs, strs0, i as nat).push(
                                unknown_provider(interner@, inject.ty.name, inject.span),
                            ));
                        }
                    }
                },
            }
            i = i + 1;
        }
        let ghost d1 = self.diags();
        let ghost pslots = slots@;
        let ghost pmap = slot_map@;
        proof {
            if no_injects {
                assert(slot_map@ =~= state_entries(screen.state@, 0));
            }
            if room {
                assert(slot_map@ =~= screen_entries(ri.0, screen.state@, 0));
            }
        }
        let mut k: usize = 0;
        while k < screen.state.len() && slots.len() < 4294967295usize
            invariant
                ast_wf(*ast),
                crate::ast::states_ok(screen.state@, crate::ast::arenas_of(*ast)),
                k <= screen.state@.len(),
                slots@.len() <= u32::MAX,
                forall|j: int| 0 <= j < slot_map@.len() ==> (#[trigger] slot_map@[j]).slot.0 < slots@.len(),
                strs0.is_prefix_of(interner@),
                self.float_table() == floats,
                no_injects == (screen.injects@.len() == 0),
                no_injects ==> interner@ == strs0 && pslots.len() == 0 && pmap.len() == 0 && self.diags() == old(self).diags(),
                diags_kept(old(self).diags(), self.diags()),
                no_injects ==> slots@.len() == k && slot_map@ == state_entries(screen.state@, k as int),
                no_injects ==> forall|j: int| 0 <= j < k ==> {
                    let sl = #[trigger] slots@[j];
                    &&& sl.name == screen.state@[j].name
                    &&& sl.ty == type_of(strs0, screen.state@[j].ty)
                    &&& readonly_lowers_to(sl.init, ast.exprs@, state_entries(screen.state@, j), strs0, floats, screen.state@[j].init.0 as int)
                },
                ri == reg_injects(items, injs, strs0, injs.len()),
                room == screen_room(*ast, *screen, strs0),
                room ==> pslots.len() == ri.0.len() && interner@ == ri.1 && self.diags() == d1 && slots@.len() == ri.0.len() + k
                    && slot_map@ == screen_entries(ri.0, screen.state@, k as int)
                    && (forall|q: int| 0 <= q < pslots.len() ==> #[trigger] slots@[q] == pslots[q])
                    && screen_state_slots(slots@, ri.0, screen.state@, ast.exprs@, ri.1, floats, k as int),
            decreases screen.state@.len() - k,
        {
            let state = &screen.state[k];
            assert(crate::ast::expr_id_ok(screen.state@[k as int].init, crate::ast::arenas_of(*ast)));
            let ty = resolve_type(&state.ty, interner);
            let init = self.lower_expr_readonly(ast, &slots, &slot_map, state.init, interner);
            let slot = SlotId(slots.len() as u32);
            let ghost sb = slots@;
            let ghost mb = slot_map@;
            slots.push(SlotDef { name: state.name, ty, init });
            slot_map.push(SlotEntry { key: SlotKey { prefix: None, field: state.name }, slot });
            proof {
                assert forall|j: int| 0 <= j < slot_map@.len() implies (#[trigger] slot_map@[j]).slot.0 < slots@.len() by {
                    if j < mb.len() {
                        assert(slot_map@[j] == mb[j]);
                    }
                }
                if room {
                    assert(slot_map@ =~= screen_entries(ri.0, screen.state@, k + 1));
                    assert forall|q: int| 0 <= q < pslots.len() implies #[trigger] slots@[q] == pslots[q] by {
                        assert(slots@[q] == sb[q]);
                    }
                    assert forall|j: int| 0 <= j < k + 1 implies {
                        let sl = #[trigger] slots@[ri.0.len() + j];
                        &&& sl.name == screen.state@[j].name
                        &&& sl.ty == type_of(ri.1, screen.state@[j].ty)
                        &&& readonly_lowers_to(sl.init, ast.exprs@, screen_entries(ri.0, screen.state@, j), ri.1, floats, screen.state@[j].init.0 as int)
                    } by {
                        if j < k {
                            assert(slots@[ri.0.len() + j] == sb[ri.0.len() + j]);
                        }
                    }
                }
                if no_injects {
                    assert(slot_map@ =~= state_entries(screen.state@, k + 1));
                    assert forall|j: int| 0 <= j < k + 1 implies {
                        let sl = #[trigger] slots@[j];
                        &&& sl.name == screen.state@[j].name
                        &&& sl.ty == type_of(strs0, screen.state@[j].ty)
                        &&& readonly_lowers_to(sl.init, ast.exprs@, state_entries(screen.state@, j), strs0, floats, screen.state@[j].init.0 as int)
                    } by {
                        if j < k {
                            assert(slots@[j] == sb[j]);
                        }
                    }
                }
            }
            k = k + 1;
        }
        let ctx = LowerCtx { slots, slot_map };
        let ghost nslots = ctx.slots@.len() as int;
        let mut actions: Vec<CompiledAction> = Vec::new();
        proof {
            if room {
                assert(self.diags() =~= d1 + inject_act_diags(items, injs, ast.handlers@, ents, ri.1, 0));
            }
        }
        let mut a: usize = 0;
        while a < screen.injects.len()
            invariant
                ast_wf(*ast),
                ctx_ok(ctx),
                nslots == ctx.slots@.len(),
                indexes(*provider_index, ast.items@),
                a <= screen.injects@.len(),
                actions@.len() <= u32::MAX,
                self.float_table() == floats,
                no_injects == (screen.injects@.len() == 0),
                no_injects ==> actions@.len() == 0 && self.diags() == old(self).diags() && interner@ == strs0,
                diags_kept(old(self).diags(), self.diags()),
                no_injects && screen.state@.len() < u32::MAX ==> ctx.slot_map@ == state_entries(
                    screen.state@,
                    screen.state@.len() as int,
                ),
                forall|j: int| 0 <= j < actions@.len() ==> reads_below((#[trigger] actions@[j]).writes@, nslots)
                    && bodies_ok(actions@[j].body@, nslots, 0, 0),
                items == ast.items@,
                injs == screen.injects@,
                ri == reg_injects(items, injs, strs0, injs.len()),
                room == screen_room(*ast, *screen, strs0),
                ents == screen_entries(ri.0, screen.state@, screen.state@.len() as int),
                room ==> ctx.slot_map@ == ents && interner@ == ri.1
                    && actions@.len() == inject_act_count(items, injs, a as nat)
                    && inject_actions(actions@, injs, *ast, ents, ri.1, floats, a as int)
                    && self.diags() == d1 + inject_act_diags(items, injs, ast.handlers@, ents, ri.1, a as nat),
            decreases screen.injects@.len() - a,
        {
            proof {
                lemma_act_count_mono(items, injs, injs.len());
            }
            let inject = &screen.injects[a];
            if let Some(idx) = provider_index.get(ast, inject.ty.name) {
                proof {
                    crate::sema::provider::lemma_provider_item(ast.items@, inject.ty.name);
                }
                if let Item::Provider(p) = &ast.items[idx] {
                    assert(item_refs_ok(ast.items@[idx as int], crate::ast::arenas_of(*ast)));
                    let ghost da = self.diags();
                    let mut acts = compile_provider_actions(self, ast, &ctx, inject.name, p, interner);
                    proof {
                        assert forall|q: int| 0 <= q < da.len() implies #[trigger] self.diags()[q] == da[q] by {
                            assert(self.diags().subrange(0, da.len() as int)[q] == self.diags()[q]);
                        }
                    }
                    proof {
                        assert(provider_of(items, injs[a as int].ty.name) == Some(*p));
                        if room {
                            assert(self.diags() =~= d1 + inject_act_diags(items, injs, ast.handlers@, ents, ri.1, (a + 1) as nat));
                            assert(inject_act_count(items, injs, (a + 1) as nat) <= inject_act_count(items, injs, injs.len()));
                        }
                    }
                    if acts.len() <= 4294967295usize - actions.len() {
                        let ghost a0 = actions@;
                        let ghost a1 = acts@;
                        actions.append(&mut acts);
                        proof {
                            if room {
                                assert forall|q: int| 0 <= q < a0.len() implies #[trigger] actions@[q] == a0[q] by {}
                                lemma_inject_actions_frame(a0, actions@, injs, *ast, ents, ri.1, floats, a as int);
                                assert forall|j: int| 0 <= j < p.actions@.len() implies crate::sema::provider::action_compiled(
                                    #[trigger] actions@[a0.len() + j],
                                    p.actions@[j],
                                    p.name,
                                    Some(injs[a as int].name),
                                    *ast,
                                    ents,
                                    ri.1,
                                    floats,
                                ) by {
                                    assert(actions@[a0.len() + j] == a1[j]);
                                }
                            }
                            assert forall|j: int| 0 <= j < actions@.len() implies reads_below((#[trigger] actions@[j]).writes@, nslots)
                                && bodies_ok(actions@[j].body@, nslots, 0, 0) by {
                                if j < a0.len() {
                                    assert(actions@[j] == a0[j]);
                                } else {
                                    assert(actions@[j] == a1[j - a0.len()]);
                                }
                            }
                        }
                    }
                }
            }
            a = a + 1;
        }
        proof {
            assert forall|j: int| 0 <= j < actions@.len() implies {
                let act = #[trigger] actions@[j];
                reads_below(act.writes@, nslots) && bodies_ok(act.body@, nslots, actions@.len() as int, 0)
            } by {
                crate::sema::provider::lemma_bodies_ok_mono(actions@[j].body@, nslots, 0, actions@.len() as int, 0);
            }
        }
        let ghost d2 = self.diags();
        let mut builder = NodeBuilder::new();
        let ghost builder0 = builder;
        assert(builder_ok(builder, nslots, actions@.len() as int));
        let handler_env = HandlerEnv { actions: &actions, injects: &screen.injects };
        lower_screen_body_items(self, ast, &ctx, &mut builder, &screen.body, &handler_env, interner);
        proof {
            if no_injects && screen.state@.len() < u32::MAX {
                assert(screen.injects@ =~= Seq::<InjectDef>::empty());
                assert(actions@ =~= Seq::<CompiledAction>::empty());
                let sc = handler_scope(*ast, state_entries(screen.state@, screen.state@.len() as int), strs0, Seq::empty(), Seq::empty());
                assert(sc == handler_scope(*ast, ctx.slot_map@, interner@, screen.injects@, actions@));
                let pt = body_props(ast.nodes@, ast.exprs@, strs0, screen.body@, 0, 0);
                if body_shapes(ast.nodes@, strs0, screen.body@, 0, 0).len() <= u32::MAX && pt.updates.len() <= u32::MAX
                    && upd_reads(pt.updates, ast.exprs@, ctx.slot_map@) <= u32::MAX {
                    lemma_props_from_empty(builder0, builder, pt, ast.exprs@, ctx.slot_map@, strs0);
                }
            }
            if room {
                let pt = body_props(ast.nodes@, ast.exprs@, ri.1, screen.body@, 0, 0);
                if body_shapes(ast.nodes@, ri.1, screen.body@, 0, 0).len() <= u32::MAX && pt.updates.len() <= u32::MAX
                    && upd_reads(pt.updates, ast.exprs@, ents) <= u32::MAX {
                    lemma_props_from_empty(builder0, builder, pt, ast.exprs@, ents, ri.1);
                }
                if body_shapes(ast.nodes@, ri.1, screen.body@, 0, 0).len() <= u32::MAX {
                    assert(self.diags() =~= old(self).diags() + screen_diags(*ast, *screen, strs0));
                }
            }
        }
        let mut listens: Vec<ListenIr> = Vec::new();
        let mut l: usize = 0;
        while l < screen.listens.len() && l < 4294967295usize
            invariant
                ast_wf(*ast),
                ctx_ok(ctx),
                nslots == ctx.slots@.len(),
                crate::ast::listens_ok(screen.listens@, crate::ast::arenas_of(*ast)),
                l <= screen.listens@.len(),
                listens@.len() == l,
                forall|j: int| 0 <= j < listens@.len() ==> reads_below((#[trigger] listens@[j]).reads@, nslots)
                    && listens@[j].handler == HandlerId(j as u32),
            decreases screen.listens@.len() - l,
        {
            assert(crate::ast::expr_id_ok(screen.listens@[l as int].expr, crate::ast::arenas_of(*ast)));
            let reads = collect_expr_reads(ast, &ctx, screen.listens[l].expr);
            proof {
                lemma_read_list_below(ast.exprs@, ctx.slot_map@, screen.listens@[l as int].expr.0 as int, reads@, nslots);
            }
            listens.push(ListenIr { reads, handler: HandlerId(l as u32) });
            l = l + 1;
        }
        let deps = DepTable::build(ctx.slots.len(), builder.update_ops.as_slice());
        let ir = ScreenIr {
            name: screen.name,
            slots: ctx.slots,
            nodes: builder.nodes,
            static_props: builder.static_props,
            update_ops: builder.update_ops,
            deps,
            handlers: builder.handlers,
            actions,
            listens,
            exprs: builder.exprs,
        };
        proof {
            assert(screen_builder(ir) == builder);
            if room {
                lemma_inject_slots_frame(pslots, ir.slots@, items, injs, strs0, ast.exprs@, floats, injs.len() as int);
            }
        }
        Some(ir)
    }
}

} // verus!

verus! {

/// A component's IR is well formed: its node table is a forest, and its
/// props, update operations and handlers are on its nodes.
pub open spec fn component_ok(c: ComponentIr) -> bool {
    &&& nodes_ok(c.nodes@, c.handlers@.len() as int)
    &&& forall|k: int| 0 <= k < c.static_props@.len() ==> (#[trigger] c.static_props@[k]).node.0 < c.nodes@.len()
    &&& forall|k: int| 0 <= k < c.update_ops@.len() ==> (#[trigger] c.update_ops@[k]).node.0 < c.nodes@.len()
    &&& forall|k: int| 0 <= k < c.handlers@.len() ==> (#[trigger] c.handlers@[k]).node.0 < c.nodes@.len()
}

/// Whether a diagnostic code is an error: `UI1..`, `UI2..` or `UI3..`.
pub open spec fn error_code(c: Seq<char>) -> bool {
    c.len() >= 3 && c[0] == 'U' && c[1] == 'I' && (c[2] == '1' || c[2] == '2' || c[2] == '3')
}

fn is_error_code(code: &String) -> (r: bool)
    ensures
        r == error_code(code@),
{
    let s = code.as_str();
    if s.unicode_len() < 3 {
        return false;
    }
    let c2 = s.get_char(2);
    s.get_char(0) == 'U' && s.get_char(1) == 'I' && (c2 == '1' || c2 == '2' || c2 == '3')
}

/// The screens, components and providers of a file, in order.
pub open spec fn screens_of(items: Seq<Item>) -> Seq<ScreenDef>
    decreases items.len(),
{
    if items.len() == 0 {
        Seq::empty()
    } else {
        screens_of(items.drop_last()) + match items.last() {
            Item::Screen(d) => seq![d],
            _ => Seq::empty(),
        }
    }
}

pub open spec fn components_of(items: Seq<Item>) -> Seq<ComponentDef>
    decreases items.len(),
{
    if items.len() == 0 {
        Seq::empty()
    } else {
        components_of(items.drop_last()) + match items.last() {
            Item::Component(d) => seq![d],
            _ => Seq::empty(),
        }
    }
}

pub open spec fn providers_of(items: Seq<Item>) -> Seq<crate::ast::ProviderDef>
    decreases items.len(),
{
    if items.len() == 0 {
        Seq::empty()
    } else {
        providers_of(items.drop_last()) + match items.last() {
            Item::Provider(d) => seq![d],
            _ => Seq::empty(),
        }
    }
}

/// `r` summarises provider `p`.
pub open spec fn provider_lowered(r: ProviderIr, p: crate::ast::ProviderDef) -> bool {
    &&& r.name == p.name
    &&& r.scope == match p.scope {
        crate::ast::ProviderScope::Screen => crate::ir::ProviderScope::Screen,
        crate::ast::ProviderScope::App => crate::ir::ProviderScope::App,
        crate::ast::ProviderScope::Family => crate::ir::ProviderScope::Family,
    }
    &&& r.state_fields@ == p.states@.map_values(|s: crate::ast::StateDef| s.name)
    &&& r.actions@ == p.actions@.map_values(|a: crate::ast::ActionDef| a.name)
}

/// Every diagnostic in `ds` has code `c`.
pub open spec fn codes_are(ds: Seq<DiagView>, c: Seq<char>) -> bool {
    forall|k: int| 0 <= k < ds.len() ==> (#[trigger] ds[k]).code == c
}

proof fn lemma_codes_concat(a: Seq<DiagView>, b: Seq<DiagView>, c: Seq<char>)
    requires
        codes_are(a, c),
        codes_are(b, c),
    ensures
        codes_are(a + b, c),
{
    assert forall|k: int| 0 <= k < (a + b).len() implies (#[trigger] (a + b)[k]).code == c by {
        if k < a.len() {
            assert((a + b)[k] == a[k]);
        } else {
            assert((a + b)[k] == b[k - a.len()]);
        }
    }
}

proof fn lemma_handler_diags_code(entries: Seq<SlotEntry>, strs: Seq<Seq<u8>>, sts: Seq<Stmt>)
    ensures
        codes_are(handler_diags(entries, strs, sts), "UI1003"@),
    decreases sts.len(),
{
    if sts.len() > 0 {
        lemma_handler_diags_code(entries, strs, sts.drop_last());
        let tail = match sts.last() {
            Stmt::IncDec { target, op, span } => if op == IncDecOp::Inc && path_slot(entries, target.path@) is None {
                seq![unknown_variable(strs, target.path@[0], target.span)]
            } else {
                Seq::empty()
            },
            _ => Seq::empty(),
        };
        lemma_codes_concat(handler_diags(entries, strs, sts.drop_last()), tail, "UI1003"@);
    }
}

proof fn lemma_node_diags_code(
    nodes: Seq<AstNode>,
    handlers: Seq<crate::ast::Handler>,
    entries: Seq<SlotEntry>,
    strs: Seq<Seq<u8>>,
    id: int,
)
    ensures
        codes_are(node_diags(nodes, handlers, entries, strs, id), "UI1003"@),
    decreases id, 1int, 0int,
{
    if 0 <= id < nodes.len() {
        match nodes[id] {
            AstNode::Element { handler, children, .. } => {
                if let Some(h) = handler {
                    if 0 <= h.0 < handlers.len() {
                        lemma_handler_diags_code(entries, strs, handlers[h.0 as int].stmts@);
                    }
                }
                lemma_list_diags_code(nodes, handlers, entries, strs, children@, id, 0);
                lemma_codes_concat(
                    element_handler_diags(handlers, entries, strs, handler),
                    list_diags(nodes, handlers, entries, strs, children@, id, 0),
                    "UI1003"@,
                );
            },
            AstNode::If { then_, .. } => {
                lemma_list_diags_code(nodes, handlers, entries, strs, then_@, id, 0);
            },
            AstNode::List { body, .. } => {
                lemma_list_diags_code(nodes, handlers, entries, strs, body@, id, 0);
            },
            AstNode::Error => {},
        }
    }
}

proof fn lemma_list_diags_code(
    nodes: Seq<AstNode>,
    handlers: Seq<crate::ast::Handler>,
    entries: Seq<SlotEntry>,
    strs: Seq<Seq<u8>>,
    ids: Seq<AstNodeId>,
    bound: int,
    i: int,
)
    ensures
        codes_are(list_diags(nodes, handlers, entries, strs, ids, bound, i), "UI1003"@),
    decreases bound, 0int, ids.len() - i,
{
    if 0 <= i < ids.len() && 0 <= ids[i].0 < bound {
        lemma_node_diags_code(nodes, handlers, entries, strs, ids[i].0 as int);
        lemma_list_diags_code(nodes, handlers, entries, strs, ids, bound, i + 1);
        lemma_codes_concat(
            node_diags(nodes, handlers, entries, strs, ids[i].0 as int),
            list_diags(nodes, handlers, entries, strs, ids, bound, i + 1),
            "UI1003"@,
        );
    }
}

proof fn lemma_body_diags_code(
    nodes: Seq<AstNode>,
    handlers: Seq<crate::ast::Handler>,
    entries: Seq<SlotEntry>,
    strs: Seq<Seq<u8>>,
    items: Seq<ScreenBodyItem>,
    i: int,
)
    ensures
        codes_are(body_diags(nodes, handlers, entries, strs, items, i), "UI1003"@),
    decreases items.len() - i,
{
    if 0 <= i < items.len() {
        match items[i] {
            ScreenBodyItem::Node(id) => lemma_node_diags_code(nodes, handlers, entries, strs, id.0 as int),
            ScreenBodyItem::Match(m) => if let Some(a) = chosen_arm(m.arms@) {
                lemma_list_diags_code(nodes, handlers, entries, strs, m.arms@[a].body@, nodes.len() as int, 0);
            },
        }
        lemma_body_diags_code(nodes, handlers, entries, strs, items, i + 1);
        lemma_codes_concat(
            item_diags(nodes, handlers, entries, strs, items[i]),
            body_diags(nodes, handlers, entries, strs, items, i + 1),
            "UI1003"@,
        );
    }
}

/// An item of a file lowers without provider injection and within the id
/// range: a screen injects nothing, has fewer than `u32::MAX` states and a
/// body of at most `u32::MAX` nodes; a component's body has at most
/// `u32::MAX` nodes.
pub open spec fn item_plain(nodes: Seq<AstNode>, strs: Seq<Seq<u8>>, it: Item) -> bool {
    match it {
        Item::Screen(s) => s.injects@.len() == 0 && s.state@.len() < u32::MAX && body_shapes(nodes, strs, s.body@, 0, 0).len()
            <= u32::MAX,
        Item::Component(c) => list_shapes(nodes, strs, c.body@, None, 0, nodes.len() as int, 0).len() <= u32::MAX,
        _ => true,
    }
}

pub open spec fn file_plain(ast: Ast, strs: Seq<Seq<u8>>) -> bool {
    forall|k: int| 0 <= k < ast.items@.len() ==> item_plain(ast.nodes@, strs, #[trigger] ast.items@[k])
}

/// The handler table of a screen without injections holds, one per step of
/// each element's handler statements, in the order of the body, the
/// entries its body gives (when their number fits in the id range).
pub open spec fn screen_handlers_ok(ir: ScreenIr, d: ScreenDef, ast: Ast, strs: Seq<Seq<u8>>, floats: Seq<FloatValue>) -> bool {
    let sc = handler_scope(ast, state_entries(d.state@, d.state@.len() as int), strs, Seq::empty(), Seq::empty());
    let hs = body_handlers(ast.nodes@, sc, d.body@, 0, 0, 0);
    body_shapes(ast.nodes@, strs, d.body@, 0, 0).len() <= u32::MAX && hs.len() <= u32::MAX ==> handlers_are(
        ir.handlers@,
        0,
        hs,
        sc,
        floats,
    )
}

/// The property tables of a screen without injections hold the properties
/// its body gives (when the expressions and reads fit in the id range).
pub open spec fn screen_props_ok(ir: ScreenIr, d: ScreenDef, ast: Ast, strs: Seq<Seq<u8>>) -> bool {
    let entries = state_entries(d.state@, d.state@.len() as int);
    let pt = body_props(ast.nodes@, ast.exprs@, strs, d.body@, 0, 0);
    body_shapes(ast.nodes@, strs, d.body@, 0, 0).len() <= u32::MAX && pt.updates.len() <= u32::MAX && upd_reads(
        pt.updates,
        ast.exprs@,
        entries,
    ) <= u32::MAX ==> props_are(ir.static_props@, ir.update_ops@, ir.exprs@, pt, ast.exprs@, entries, strs)
}

/// The property tables of a component hold the properties its body gives;
/// the component keeps no expression table of its own.
pub open spec fn component_props_ok(ir: ComponentIr, d: ComponentDef, ast: Ast, strs: Seq<Seq<u8>>) -> bool {
    let pt = list_props(ast.nodes@, ast.exprs@, strs, d.body@, None, 0, ast.nodes@.len() as int, 0);
    list_shapes(ast.nodes@, strs, d.body@, None, 0, ast.nodes@.len() as int, 0).len() <= u32::MAX && pt.updates.len() <= u32::MAX
        && upd_reads(pt.updates, ast.exprs@, Seq::empty()) <= u32::MAX ==> {
        &&& statics_are(ir.static_props@, pt.statics)
        &&& ir.update_ops@.len() == pt.updates.len()
        &&& forall|k: int| 0 <= k < pt.updates.len() ==> update_op_is(
            #[trigger] ir.update_ops@[k],
            ExprId(k as u32),
            pt.updates[k],
            ast.exprs@,
            Seq::empty(),
        )
    }
}

/// The handler table of a component, likewise, against no slot at all.
pub open spec fn component_handlers_ok(ir: ComponentIr, d: ComponentDef, ast: Ast, strs: Seq<Seq<u8>>, floats: Seq<FloatValue>) -> bool {
    let sc = handler_scope(ast, Seq::empty(), strs, Seq::empty(), Seq::empty());
    let hs = list_handlers(ast.nodes@, sc, d.body@, None, 0, 0, ast.nodes@.len() as int, 0);
    list_shapes(ast.nodes@, strs, d.body@, None, 0, ast.nodes@.len() as int, 0).len() <= u32::MAX && hs.len() <= u32::MAX
        ==> handlers_are(ir.handlers@, 0, hs, sc, floats)
}

/// The IR of a screen without injections: named as the screen, its slots
/// its states, no compiled action, its node table shaped as its body, and its
/// handler table the one its body gives.
pub open spec fn screen_lowered(ir: ScreenIr, d: ScreenDef, ast: Ast, strs: Seq<Seq<u8>>, floats: Seq<FloatValue>) -> bool {
    &&& ir.name == d.name
    &&& state_slots(ir.slots@, d.state@, ast.exprs@, strs, floats)
    &&& ir.actions@.len() == 0
    &&& shapes(ir.nodes@) == body_shapes(ast.nodes@, strs, d.body@, 0, 0)
    &&& screen_handlers_ok(ir, d, ast, strs, floats)
    &&& screen_props_ok(ir, d, ast, strs)
}

/// The IR of a component: named as the component, its parameters typed, its
/// node table shaped as its body, and its handler table the one its body gives.
pub open spec fn component_lowered(ir: ComponentIr, d: ComponentDef, ast: Ast, strs: Seq<Seq<u8>>, floats: Seq<FloatValue>) -> bool {
    &&& ir.name == d.name
    &&& ir.params@.len() == d.params@.len()
    &&& forall|k: int| 0 <= k < ir.params@.len() ==> (#[trigger] ir.params@[k]).name == d.params@[k].name
        && ir.params@[k].ty == type_of(strs, d.params@[k].ty)
    &&& shapes(ir.nodes@) == list_shapes(ast.nodes@, strs, d.body@, None, 0, ast.nodes@.len() as int, 0)
    &&& component_handlers_ok(ir, d, ast, strs, floats)
    &&& component_props_ok(ir, d, ast, strs)
}

/// The diagnostics lowering one item of a file raises: for a screen, those
/// of its body against its states; for a component, those of its body
/// against no slot at all.
pub open spec fn item_file_diags(
    nodes: Seq<AstNode>,
    handlers: Seq<crate::ast::Handler>,
    strs: Seq<Seq<u8>>,
    it: Item,
) -> Seq<DiagView> {
    match it {
        Item::Screen(s) => body_diags(nodes, handlers, state_entries(s.state@, s.state@.len() as int), strs, s.body@, 0),
        Item::Component(c) => list_diags(nodes, handlers, Seq::empty(), strs, c.body@, nodes.len() as int, 0),
        _ => Seq::empty(),
    }
}

/// The diagnostics lowering the items of a file raises, in order.
pub open spec fn file_diags(
    nodes: Seq<AstNode>,
    handlers: Seq<crate::ast::Handler>,
    strs: Seq<Seq<u8>>,
    items: Seq<Item>,
) -> Seq<DiagView>
    decreases items.len(),
{
    if items.len() == 0 {
        Seq::empty()
    } else {
        file_diags(nodes, handlers, strs, items.drop_last()) + item_file_diags(nodes, handlers, strs, items.last())
    }
}

/// Every diagnostic that lowering a file raises is `UI1003`, an error.
pub proof fn lemma_file_diags_are_errors(
    nodes: Seq<AstNode>,
    handlers: Seq<crate::ast::Handler>,
    strs: Seq<Seq<u8>>,
    items: Seq<Item>,
)
    ensures
        codes_are(file_diags(nodes, handlers, strs, items), "UI1003"@),
        error_code("UI1003"@),
    decreases items.len(),
{
    reveal_strlit("UI1003");
    if items.len() > 0 {
        lemma_file_diags_are_errors(nodes, handlers, strs, items.drop_last());
        match items.last() {
            Item::Screen(s) => lemma_body_diags_code(
                nodes,
                handlers,
                state_entries(s.state@, s.state@.len() as int),
                strs,
                s.body@,
                0,
            ),
            Item::Component(c) => lemma_list_diags_code(nodes, handlers, Seq::empty(), strs, c.body@, nodes.len() as int, 0),
            _ => {},
        }
        lemma_codes_concat(
            file_diags(nodes, handlers, strs, items.drop_last()),
            item_file_diags(nodes, handlers, strs, items.last()),
            "UI1003"@,
        );
    }
}

/// The interner after lowering the items `items` of file `ast` from
/// interner `s0`: each screen interns its injected providers' field names.
pub open spec fn strs_after(ast: Ast, s0: Seq<Seq<u8>>, items: Seq<Item>) -> Seq<Seq<u8>>
    decreases items.len(),
{
    if items.len() == 0 {
        s0
    } else {
        let prev = strs_after(ast, s0, items.drop_last());
        match items.last() {
            Item::Screen(d) => reg_injects(ast.items@, d.injects@, prev, d.injects@.len()).1,
            _ => prev,
        }
    }
}

/// Item `it`, lowered against interner `strs`, fits in the id ranges: a
/// screen's slots, interned names and injected actions, and its body's
/// nodes; a component's body's nodes.
pub open spec fn item_fits(ast: Ast, strs: Seq<Seq<u8>>, it: Item) -> bool {
    match it {
        Item::Screen(d) => screen_room(ast, d, strs) && body_shapes(
            ast.nodes@,
            reg_injects(ast.items@, d.injects@, strs, d.injects@.len()).1,
            d.body@,
            0,
            0,
        ).len() <= u32::MAX,
        Item::Component(c) => list_shapes(ast.nodes@, strs, c.body@, None, 0, ast.nodes@.len() as int, 0).len() <= u32::MAX,
        _ => true,
    }
}

/// Every one of the items `items` fits in the id ranges, each against the
/// interner it is lowered with.
pub open spec fn items_fit(ast: Ast, s0: Seq<Seq<u8>>, items: Seq<Item>) -> bool
    decreases items.len(),
{
    items.len() == 0 || (items_fit(ast, s0, items.drop_last()) && item_fits(
        ast,
        strs_after(ast, s0, items.drop_last()),
        items.last(),
    ))
}

proof fn lemma_items_fit_prefix(ast: Ast, s0: Seq<Seq<u8>>, items: Seq<Item>, j: int)
    requires
        items_fit(ast, s0, items),
        0 <= j <= items.len(),
    ensures
        items_fit(ast, s0, items.take(j)),
        j < items.len() ==> item_fits(ast, strs_after(ast, s0, items.take(j)), items[j]),
    decreases items.len(),
{
    if j < items.len() {
        if j == items.len() - 1 {
            assert(items.take(j) =~= items.drop_last());
        } else {
            lemma_items_fit_prefix(ast, s0, items.drop_last(), j);
            assert(items.drop_last().take(j) =~= items.take(j));
            assert(items.drop_last()[j] == items[j]);
        }
    } else {
        assert(items.take(j) =~= items);
    }
}

/// The diagnostics lowering the items `items` raises, in order: for a
/// screen, those `screen_diags` gives; for a component, those of its body
/// against no slot at all.
pub open spec fn items_diags(ast: Ast, s0: Seq<Seq<u8>>, items: Seq<Item>) -> Seq<DiagView>
    decreases items.len(),
{
    if items.len() == 0 {
        Seq::empty()
    } else {
        let prev = strs_after(ast, s0, items.drop_last());
        items_diags(ast, s0, items.drop_last()) + match items.last() {
            Item::Screen(d) => screen_diags(ast, d, prev),
            Item::Component(c) => list_diags(ast.nodes@, ast.handlers@, Seq::empty(), prev, c.body@, ast.nodes@.len() as int, 0),
            _ => Seq::empty(),
        }
    }
}

/// The interner the `k`-th screen among `items` is lowered against.
pub open spec fn screen_strs(ast: Ast, s0: Seq<Seq<u8>>, items: Seq<Item>, k: int) -> Seq<Seq<u8>>
    decreases items.len(),
{
    if items.len() == 0 {
        s0
    } else if items.last() is Screen && screens_of(items.drop_last()).len() == k {
        strs_after(ast, s0, items.drop_last())
    } else {
        screen_strs(ast, s0, items.drop_last(), k)
    }
}

/// The interner the `k`-th component among `items` is lowered against.
pub open spec fn component_strs(ast: Ast, s0: Seq<Seq<u8>>, items: Seq<Item>, k: int) -> Seq<Seq<u8>>
    decreases items.len(),
{
    if items.len() == 0 {
        s0
    } else if items.last() is Component && components_of(items.drop_last()).len() == k {
        strs_after(ast, s0, items.drop_last())
    } else {
        component_strs(ast, s0, items.drop_last(), k)
    }
}


/// What lowering the parsed file `ast` gives, from the names `strs0`, the
/// float table `floats` and the diagnostics `d0` before, to the diagnostics
/// `ds`, the names `strs` and the result `r` after:
/// - the diagnostics reported before stay, and names are only added;
/// - nothing comes back exactly when an error is among the diagnostics;
/// - otherwise one well-formed IR per screen and per component, in the
///   order of the file and named as they are, and one summary per provider;
/// - for a file whose screens inject nothing (and whose tables fit the id
///   range), the names are unchanged, the new diagnostics are exactly those
///   of the file's items, and each screen and component is lowered as its
///   body says.
pub open spec fn lowered_file(
    ast: Ast,
    strs0: Seq<Seq<u8>>,
    floats: Seq<FloatValue>,
    d0: Seq<DiagView>,
    ds: Seq<DiagView>,
    strs: Seq<Seq<u8>>,
    r: Option<UiIr>,
) -> bool {
    &&& d0.is_prefix_of(ds)
    &&& strs0.is_prefix_of(strs)
    &&& (r is None <==> exists|i: int| 0 <= i < ds.len() && error_code(#[trigger] ds[i].code))
    &&& r matches Some(ui) ==> {
        &&& ui.screens@.len() == screens_of(ast.items@).len()
        &&& forall|k: int| 0 <= k < ui.screens@.len() ==> screen_ok(#[trigger] ui.screens@[k])
            && ui.screens@[k].name == screens_of(ast.items@)[k].name
        &&& ui.components@.len() == components_of(ast.items@).len()
        &&& forall|k: int| 0 <= k < ui.components@.len() ==> component_ok(#[trigger] ui.components@[k])
            && ui.components@[k].name == components_of(ast.items@)[k].name
        &&& ui.providers@.len() == providers_of(ast.items@).len()
        &&& forall|k: int| 0 <= k < ui.providers@.len() ==> provider_lowered(
            #[trigger] ui.providers@[k],
            providers_of(ast.items@)[k],
        )
    }
    &&& items_fit(ast, strs0, ast.items@) ==> strs == strs_after(ast, strs0, ast.items@) && ds == d0 + items_diags(
        ast,
        strs0,
        ast.items@,
    )
    &&& items_fit(ast, strs0, ast.items@) ==> (r matches Some(ui) ==> {
        &&& forall|k: int| 0 <= k < ui.screens@.len() ==> screen_lowered_in(
            #[trigger] ui.screens@[k],
            screens_of(ast.items@)[k],
            ast,
            screen_strs(ast, strs0, ast.items@, k),
            floats,
        )
        &&& forall|k: int| 0 <= k < ui.components@.len() ==> component_lowered(
            #[trigger] ui.components@[k],
            components_of(ast.items@)[k],
            ast,
            component_strs(ast, strs0, ast.items@, k),
            floats,
        )
    })
    &&& file_plain(ast, strs0) ==> strs == strs0 && ds == d0 + file_diags(ast.nodes@, ast.handlers@, strs0, ast.items@)
    &&& file_plain(ast, strs0) ==> (r matches Some(ui) ==> {
        &&& forall|k: int| 0 <= k < ui.screens@.len() ==> screen_lowered(
            #[trigger] ui.screens@[k],
            screens_of(ast.items@)[k],
            ast,
            strs0,
            floats,
        )
        &&& forall|k: int| 0 <= k < ui.components@.len() ==> component_lowered(
            #[trigger] ui.components@[k],
            components_of(ast.items@)[k],
            ast,
            strs0,
            floats,
        )
    })
    &&& file_plain(ast, strs0) ==> (r is None <==> (exists|i: int| 0 <= i < d0.len() && error_code(#[trigger] d0[i].code))
        || file_diags(ast.nodes@, ast.handlers@, strs0, ast.items@).len() > 0)
}

impl Compiler {
    /// Lowers a component: its parameters get their types, and its body
    /// becomes the node table (a component has no state of its own).
    fn lower_component(&mut self, ast: &Ast, comp: &ComponentDef, interner: &Interner) -> (r: Option<ComponentIr>)
        requires
            ast_wf(*ast),
            crate::ast::node_ids_ok(comp.body@, crate::ast::arenas_of(*ast)),
        ensures
            r matches Some(ir) && component_ok(ir) && ir.name == comp.name && ir.exprs@.len() == 0
                && ir.params@.len() == comp.params@.len()
                && (forall|k: int| 0 <= k < ir.params@.len() ==> (#[trigger] ir.params@[k]).name == comp.params@[k].name
                    && ir.params@[k].ty == type_of(interner@, comp.params@[k].ty))
                && (list_shapes(ast.nodes@, interner@, comp.body@, None, 0, ast.nodes@.len() as int, 0).len() <= u32::MAX
                    ==> shapes(ir.nodes@) == list_shapes(ast.nodes@, interner@, comp.body@, None, 0, ast.nodes@.len() as int, 0)
                    && final(self).diags() == old(self).diags() + list_diags(
                    ast.nodes@,
                    ast.handlers@,
                    Seq::empty(),
                    interner@,
                    comp.body@,
                    ast.nodes@.len() as int,
                    0,
                ))
                && component_handlers_ok(ir, *comp, *ast, interner@, old(self).float_table())
                && component_props_ok(ir, *comp, *ast, interner@),
            final(self).float_table() == old(self).float_table(),
            diags_kept(old(self).diags(), final(self).diags()),
    {
        let ctx = LowerCtx { slots: Vec::new(), slot_map: Vec::new() };
        assert(ctx.slot_map@ =~= Seq::<SlotEntry>::empty());
        let actions: Vec<CompiledAction> = Vec::new();
        let injects: Vec<InjectDef> = Vec::new();
        let ghost d2 = self.diags();
        let mut builder = NodeBuilder::new();
        let ghost builder0 = builder;
        assert(builder_ok(builder, 0, 0));
        assert(crate::ast::node_ids_ok(comp.body@, below_node(crate::ast::arenas_of(*ast), ast.nodes@.len() as int)));
        self.lower_node_list(ast, &ctx, interner, &mut builder, &comp.body, None, &actions, &injects, Ghost(ast.nodes@.len() as int));
        proof {
            let pt = list_props(ast.nodes@, ast.exprs@, interner@, comp.body@, None, 0, ast.nodes@.len() as int, 0);
            if list_shapes(ast.nodes@, interner@, comp.body@, None, 0, ast.nodes@.len() as int, 0).len() <= u32::MAX
                && pt.updates.len() <= u32::MAX && upd_reads(pt.updates, ast.exprs@, ctx.slot_map@) <= u32::MAX {
                lemma_props_from_empty(builder0, builder, pt, ast.exprs@, ctx.slot_map@, interner@);
            }
            assert(actions@ =~= Seq::<CompiledAction>::empty());
            assert(injects@ =~= Seq::<InjectDef>::empty());
            assert(handler_scope(*ast, Seq::empty(), interner@, Seq::empty(), Seq::empty()) == handler_scope(
                *ast,
                ctx.slot_map@,
                interner@,
                injects@,
                actions@,
            ));
        }
        let mut params: Vec<ParamDef> = Vec::new();
        let mut i: usize = 0;
        while i < comp.params.len()
            invariant
                i <= comp.params@.len(),
                params@.len() == i,
                forall|k: int| 0 <= k < i ==> (#[trigger] params@[k]).name == comp.params@[k].name && params@[k].ty == type_of(
                    interner@,
                    comp.params@[k].ty,
                ),
            decreases comp.params@.len() - i,
        {
            let ty = resolve_type(&comp.params[i].ty, interner);
            params.push(ParamDef { name: comp.params[i].name, ty });
            i = i + 1;
        }
        let ir = ComponentIr {
            name: comp.name,
            params,
            nodes: builder.nodes,
            static_props: builder.static_props,
            update_ops: builder.update_ops,
            handlers: builder.handlers,
            exprs: Vec::new(),
        };
        Some(ir)
    }

    /// Lowers a parsed file: each provider is summarised, each screen and
    /// component lowered. Nothing comes back when an error was reported.
    #[verifier::spinoff_prover]
    #[verifier::rlimit(60)]
    pub fn compile(&mut self, ast: &Ast, interner: &mut Interner) -> (r: Option<UiIr>)
        requires
            ast_wf(*ast),
        ensures
            lowered_file(
                *ast,
                old(interner)@,
                old(self).float_table(),
                old(self).diags(),
                final(self).diags(),
                final(interner)@,
                r,
            ),
            final(self).float_table() == old(self).float_table(),
    {
        let ghost items = ast.items@;
        let provider_index = ProviderIndex::from_ast(ast);
        let mut provider_irs: Vec<ProviderIr> = Vec::new();
        let mut i: usize = 0;
        while i < ast.items.len()
            invariant
                items == ast.items@,
                i <= items.len(),
                provider_irs@.len() == providers_of(items.take(i as int)).len(),
                forall|k: int| 0 <= k < provider_irs@.len() ==> provider_lowered(
                    #[trigger] provider_irs@[k],
                    providers_of(items.take(i as int))[k],
                ),
            decreases items.len() - i,
        {
            proof {
                assert(items.take(i + 1).drop_last() =~= items.take(i as int));
            }
            if let Item::Provider(p) = &ast.items[i] {
                let pir = lower_provider_item(p);
                provider_irs.push(pir);
            }
            i = i + 1;
        }
        assert(items.take(items.len() as int) =~= items);
        let ghost strs0 = interner@;
        let ghost floats = self.float_table();
        let ghost fits = items_fit(*ast, strs0, items);
        let mut screens: Vec<ScreenIr> = Vec::new();
        let mut components: Vec<ComponentIr> = Vec::new();
        let mut j: usize = 0;
        while j < ast.items.len()
            invariant
                ast_wf(*ast),
                items == ast.items@,
                indexes(provider_index, items),
                j <= items.len(),
                self.float_table() == old(self).float_table(),
                strs0.is_prefix_of(interner@),
                strs0 == old(interner)@,
                diags_kept(old(self).diags(), self.diags()),
                screens@.len() == screens_of(items.take(j as int)).len(),
                forall|k: int| 0 <= k < screens@.len() ==> screen_ok(#[trigger] screens@[k])
                    && screens@[k].name == screens_of(items.take(j as int))[k].name,
                components@.len() == components_of(items.take(j as int)).len(),
                forall|k: int| 0 <= k < components@.len() ==> component_ok(#[trigger] components@[k])
                    && components@[k].name == components_of(items.take(j as int))[k].name,
                file_plain(*ast, strs0) ==> interner@ == strs0 && self.diags() == old(self).diags() + file_diags(
                    ast.nodes@,
                    ast.handlers@,
                    strs0,
                    items.take(j as int),
                ),
                file_plain(*ast, strs0) ==> forall|k: int| 0 <= k < screens@.len() ==> screen_lowered(
                    #[trigger] screens@[k],
                    screens_of(items.take(j as int))[k],
                    *ast,
                    strs0,
                    old(self).float_table(),
                ),
                file_plain(*ast, strs0) ==> forall|k: int| 0 <= k < components@.len() ==> component_lowered(
                    #[trigger] components@[k],
                    components_of(items.take(j as int))[k],
                    *ast,
                    strs0,
                    old(self).float_table(),
                ),
                floats == old(self).float_table(),
                fits == items_fit(*ast, strs0, items),
                fits ==> interner@ == strs_after(*ast, strs0, items.take(j as int)) && self.diags() == old(self).diags()
                    + items_diags(*ast, strs0, items.take(j as int)),
                fits ==> forall|k: int| 0 <= k < screens@.len() ==> screen_lowered_in(
                    #[trigger] screens@[k],
                    screens_of(items.take(j as int))[k],
                    *ast,
                    screen_strs(*ast, strs0, items.take(j as int), k),
                    floats,
                ),
                fits ==> forall|k: int| 0 <= k < components@.len() ==> component_lowered(
                    #[trigger] components@[k],
                    components_of(items.take(j as int))[k],
                    *ast,
                    component_strs(*ast, strs0, items.take(j as int), k),
                    floats,
                ),
            decreases items.len() - j,
        {
            proof {
                assert(items.take(j + 1).drop_last() =~= items.take(j as int));
                assert(item_refs_ok(items[j as int], crate::ast::arenas_of(*ast)));
                if fits {
                    lemma_items_fit_prefix(*ast, strs0, items, j as int);
                }
            }
            let ghost t0 = items.take(j as int);
            let ghost t1 = items.take(j + 1);
            let ghost sc0 = screens@;
            let ghost cc0 = components@;
            let ghost dg0 = self.diags();
            match &ast.items[j] {
                Item::Screen(screen) => {
                    let ghost ib = interner@;
                    if let Some(ir) = self.lower_screen(ast, screen, &provider_index, interner) {
                        screens.push(ir);
                    }
                    proof {
                        assert forall|q: int| 0 <= q < strs0.len() implies strs0[q] == interner@[q] by {
                            assert(ib[q] == strs0[q]);
                        }
                        if fits {
                            assert(t1.last() == Item::Screen(*screen));
                            assert(self.diags() =~= old(self).diags() + items_diags(*ast, strs0, t1));
                            assert forall|k: int| 0 <= k < screens@.len() implies screen_lowered_in(
                                #[trigger] screens@[k],
                                screens_of(t1)[k],
                                *ast,
                                screen_strs(*ast, strs0, t1, k),
                                floats,
                            ) by {
                                if k < sc0.len() {
                                    assert(screens@[k] == sc0[k]);
                                }
                            }
                            assert forall|k: int| 0 <= k < components@.len() implies component_lowered(
                                #[trigger] components@[k],
                                components_of(t1)[k],
                                *ast,
                                component_strs(*ast, strs0, t1, k),
                                floats,
                            ) by {
                                assert(components_of(t1) =~= components_of(t0));
                            }
                        }
                    }
                },
                Item::Component(comp) => {
                    if let Some(ir) = self.lower_component(ast, comp, interner) {
                        components.push(ir);
                    }
                    proof {
                        if fits {
                            assert(t1.last() == Item::Component(*comp));
                            assert(self.diags() =~= old(self).diags() + items_diags(*ast, strs0, t1));
                            assert forall|k: int| 0 <= k < components@.len() implies component_lowered(
                                #[trigger] components@[k],
                                components_of(t1)[k],
                                *ast,
                                component_strs(*ast, strs0, t1, k),
                                floats,
                            ) by {
                                if k < cc0.len() {
                                    assert(components@[k] == cc0[k]);
                                }
                            }
                            assert forall|k: int| 0 <= k < screens@.len() implies screen_lowered_in(
                                #[trigger] screens@[k],
                                screens_of(t1)[k],
                                *ast,
                                screen_strs(*ast, strs0, t1, k),
                                floats,
                            ) by {
                                assert(screens_of(t1) =~= screens_of(t0));
                            }
                        }
                    }
                },
                _ => {
                    proof {
                        if fits {
                            assert(self.diags() =~= old(self).diags() + items_diags(*ast, strs0, t1));
                            assert(screens_of(t1) =~= screens_of(t0));
                            assert(components_of(t1) =~= components_of(t0));
                        }
                    }
                },
            }
            j = j + 1;
        }
        assert(items.take(items.len() as int) =~= items);
        let ghost fd = file_diags(ast.nodes@, ast.handlers@, strs0, items);
        proof {
            lemma_file_diags_are_errors(ast.nodes@, ast.handlers@, strs0, items);
        }
        let mut has_error = false;
        let mut d: usize = 0;
        while d < self.diagnostics.len()
            invariant
                d <= self.diagnostics@.len(),
                has_error <==> exists|q: int| 0 <= q < d && error_code(#[trigger] self.diags()[q].code),
                self.diags().len() == self.diagnostics@.len(),
            decreases self.diagnostics@.len() - d,
        {
            let e = is_error_code(&self.diagnostics[d].code);
            proof {
                assert(self.diags()[d as int].code == self.diagnostics@[d as int].code@);
                if has_error || e {
                    if e {
                        assert(0 <= d < d + 1 && error_code(self.diags()[d as int].code));
                    }
                } else {
                    assert forall|q: int| 0 <= q < d + 1 implies !error_code(#[trigger] self.diags()[q].code) by {}
                }
            }
            has_error = has_error || e;
            d = d + 1;
        }
        proof {
            if file_plain(*ast, strs0) {
                let od = old(self).diags();
                if fd.len() > 0 {
                    assert(self.diags()[od.len() as int] == fd[0]);
                    assert(error_code(self.diags()[od.len() as int].code));
                }
                if exists|q: int| 0 <= q < self.diags().len() && error_code(#[trigger] self.diags()[q].code) {
                    let q = choose|q: int| 0 <= q < self.diags().len() && error_code(#[trigger] self.diags()[q].code);
                    if q < od.len() {
                        assert(self.diags()[q] == od[q]);
                    }
                }
                if exists|q: int| 0 <= q < od.len() && error_code(#[trigger] od[q].code) {
                    let q = choose|q: int| 0 <= q < od.len() && error_code(#[trigger] od[q].code);
                    assert(self.diags()[q] == od[q]);
                }
            }
        }
        proof {
            let od = old(self).diags();
            assert(od =~= self.diags().subrange(0, od.len() as int));
        }
        if has_error {
            return None;
        }
        Some(UiIr { screens, components, providers: provider_irs })
    }
}

} // verus!
