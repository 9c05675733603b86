//! Native rendering: mounts a screen through the command buffer of a native
//! host, and flushes changed slots to it as single property updates.

use vstd::prelude::*;
use crate::ir::{IrExpr, NodeId, NodeIr, ScreenIr, StaticProp, UpdateOp, dep_ops, HandlerId};
use crate::num::i64_to_string;
use crate::platform::host::{ir_prop_to_platform, platform_key_of, HostCallbacks};
use crate::platform::native_renderer::{set_node_prop, NativeRenderer};
use crate::platform::renderer::{
    lemma_ops_bytes_view, ops_view, op_view_of, value_view_of, views_bytes, CommandOp, OpView,
    PropValue, ValueView,
};
use crate::runtime::reactive::{
    all_ops_ok, body_outcome, body_runs, flush_calls, handler_index, props_calls, slot_flushable, static_text,
    store_state, ReactiveEngine,
};
use crate::runtime::renderer::{PropValue as RuntimePropValue, RenderCall};
use crate::runtime::state::{dirty_slots, no_dirty};

verus! {

/// The handles after registering nodes `0..n` from handle `next` on.
pub open spec fn mount_handles(h: Map<u32, u32>, next: u32, n: nat) -> Map<u32, u32>
    decreases n,
{
    if n == 0 {
        h
    } else {
        mount_handles(h, next, (n - 1) as nat).insert((n - 1) as u32, (next + n - 1) as u32)
    }
}

/// The creation of nodes `0..n`.
pub open spec fn create_views(nodes: Seq<NodeIr>, next: u32, n: int) -> Seq<OpView> {
    Seq::new(n as nat, |i: int| OpView::Create { kind: nodes[i].kind, handle: (next + i) as u32 })
}

/// The position of `child` among `children`, or 0 where it is not there.
pub open spec fn child_index(children: Seq<NodeId>, child: NodeId) -> int
    decreases children.len(),
{
    if children.len() == 0 {
        0
    } else if children.last() == child && !children.drop_last().contains(child) {
        children.len() - 1
    } else {
        child_index(children.drop_last(), child)
    }
}

/// The insertion of nodes `0..k` under their parents, where both have handles.
pub open spec fn insert_views(nodes: Seq<NodeIr>, hm: Map<u32, u32>, k: int) -> Seq<OpView>
    decreases k,
{
    if k <= 0 {
        Seq::empty()
    } else {
        insert_views(nodes, hm, k - 1) + match nodes[k - 1].parent {
            None => Seq::empty(),
            Some(p) => if hm.contains_key(p.0) && hm.contains_key((k - 1) as u32) {
                seq![
                    OpView::InsertChild {
                        parent: hm[p.0],
                        child: hm[(k - 1) as u32],
                        index: child_index(nodes[p.0 as int].children@, NodeId((k - 1) as u32)) as u32,
                    },
                ]
            } else {
                Seq::empty()
            },
        }
    }
}

/// The handler bindings of nodes `0..k` that have a handle.
pub open spec fn handler_views(nodes: Seq<NodeIr>, hm: Map<u32, u32>, k: int) -> Seq<OpView>
    decreases k,
{
    if k <= 0 {
        Seq::empty()
    } else {
        handler_views(nodes, hm, k - 1) + match nodes[k - 1].handler {
            None => Seq::empty(),
            Some(h) => if hm.contains_key((k - 1) as u32) {
                seq![OpView::SetHandler { handle: hm[(k - 1) as u32], handler_id: h.0 }]
            } else {
                Seq::empty()
            },
        }
    }
}

pub open spec fn native_value(v: RuntimePropValue<Seq<char>>) -> ValueView {
    match v {
        RuntimePropValue::Str(s) => ValueView::Str(s),
        RuntimePropValue::Int(n) => ValueView::Int(n),
        RuntimePropValue::Float(f) => ValueView::Float(f.bits),
        RuntimePropValue::Bool(b) => ValueView::Bool(b),
    }
}

/// The native operations for renderer calls: each property set on a node
/// with a handle becomes a set on that handle; everything else is dropped.
pub open spec fn native_of_calls(hm: Map<u32, u32>, calls: Seq<RenderCall<Seq<char>>>) -> Seq<OpView>
    decreases calls.len(),
{
    if calls.len() == 0 {
        Seq::empty()
    } else {
        native_of_calls(hm, calls.drop_last()) + match calls.last() {
            RenderCall::SetProp { node, key, value } => if hm.contains_key(node.0) {
                seq![
                    OpView::SetProp {
                        handle: hm[node.0],
                        key: platform_key_of(key),
                        value: native_value(value),
                    },
                ]
            } else {
                Seq::empty()
            },
            _ => Seq::empty(),
        }
    }
}

/// The operations that mount `screen`, given the handles afterwards.
pub open spec fn mount_views(screen: ScreenIr, ints: Seq<i64>, next: u32, hm: Map<u32, u32>) -> Seq<OpView> {
    let n = screen.nodes@.len() as int;
    create_views(screen.nodes@, next, n) + insert_views(screen.nodes@, hm, n) + native_of_calls(
        hm,
        props_calls(screen, ints),
    ) + handler_views(screen.nodes@, hm, n)
}

/// What a commit of `ops` sends: their bytes, or nothing for no operations.
pub open spec fn sent_after(sent: Seq<Seq<u8>>, ops: Seq<OpView>) -> Seq<Seq<u8>> {
    if ops.len() == 0 {
        sent
    } else {
        sent.push(views_bytes(ops))
    }
}

pub open spec fn parents_in_range(nodes: Seq<NodeIr>) -> bool {
    forall|i: int| 0 <= i < nodes.len() && #[trigger] nodes[i].parent is Some ==> (nodes[i].parent->0).0 < nodes.len()
}

proof fn lemma_ops_view_push(p: Seq<CommandOp>, o: CommandOp)
    ensures
        ops_view(p.push(o)) == ops_view(p).push(op_view_of(o)),
{
    assert(ops_view(p.push(o)) =~= ops_view(p).push(op_view_of(o)));
}

proof fn lemma_commit_sends(pending: Seq<CommandOp>, all: Seq<OpView>)
    requires
        ops_view(pending) == all,
    ensures
        ops_bytes_of(pending) == views_bytes(all),
{
    lemma_ops_bytes_view(pending);
}

pub open spec fn ops_bytes_of(p: Seq<CommandOp>) -> Seq<u8> {
    crate::platform::renderer::ops_bytes(p)
}

fn runtime_to_platform(value: RuntimePropValue) -> (v: PropValue)
    ensures
        value_view_of(v) == native_value(crate::runtime::renderer::prop_value_view(value)),
{
    match value {
        RuntimePropValue::Str(s) => PropValue::Str(s),
        RuntimePropValue::Int(v) => PropValue::Int(v),
        RuntimePropValue::Float(v) => PropValue::Float(v),
        RuntimePropValue::Bool(v) => PropValue::Bool(v),
    }
}

/// The position of `child` among `children`, or 0.
fn position_or_zero(children: &Vec<NodeId>, child: NodeId) -> (r: usize)
    ensures
        r as int == child_index(children@, child),
{
    let mut i: usize = 0;
    while i < children.len()
        invariant
            i <= children@.len(),
            forall|k: int| 0 <= k < i ==> children@[k] != child,
        decreases children@.len() - i,
    {
        if children[i].0 == child.0 {
            proof {
                lemma_child_index_first(children@, child, i as int);
            }
            return i;
        }
        i = i + 1;
    }
    proof {
        lemma_child_index_absent(children@, child);
    }
    0
}

proof fn lemma_child_index_first(children: Seq<NodeId>, child: NodeId, i: int)
    requires
        0 <= i < children.len(),
        children[i] == child,
        forall|k: int| 0 <= k < i ==> children[k] != child,
    ensures
        child_index(children, child) == i,
    decreases children.len(),
{
    let init = children.drop_last();
    if i < children.len() - 1 {
        assert(init[i] == child);
        assert(init.contains(child));
        assert forall|k: int| 0 <= k < i implies init[k] != child by {
            assert(init[k] == children[k]);
        }
        lemma_child_index_first(init, child, i);
    } else {
        assert(!init.contains(child)) by {
            if init.contains(child) {
                let k = choose|k: int| 0 <= k < init.len() && init[k] == child;
                assert(children[k] == child);
            }
        }
    }
}

proof fn lemma_child_index_absent(children: Seq<NodeId>, child: NodeId)
    requires
        forall|k: int| 0 <= k < children.len() ==> children[k] != child,
    ensures
        child_index(children, child) == 0,
    decreases children.len(),
{
    if children.len() > 0 {
        let init = children.drop_last();
        assert forall|k: int| 0 <= k < init.len() implies init[k] != child by {
            assert(init[k] == children[k]);
        }
        lemma_child_index_absent(init, child);
    }
}

proof fn lemma_mount_handles(h: Map<u32, u32>, next: u32, n: nat)
    requires
        next + n <= u32::MAX,
    ensures
        forall|k: u32| k < n ==> #[trigger] mount_handles(h, next, n).contains_key(k) && mount_handles(h, next, n)[k]
            == next + k,
        forall|k: u32| k >= n ==> #[trigger] mount_handles(h, next, n).contains_key(k) == h.contains_key(k),
        forall|k: u32| k >= n && h.contains_key(k) ==> #[trigger] mount_handles(h, next, n)[k] == h[k],
    decreases n,
{
    if n > 0 {
        let m = mount_handles(h, next, (n - 1) as nat);
        let last = (n - 1) as u32;
        lemma_mount_handles(h, next, (n - 1) as nat);
        assert(mount_handles(h, next, n) == m.insert(last, (next + n - 1) as u32));
        assert forall|k: u32| k < n implies #[trigger] mount_handles(h, next, n).contains_key(k) && mount_handles(
            h,
            next,
            n,
        )[k] == next + k by {
            if k < n - 1 {
                assert(m.contains_key(k));
            }
        }
        assert forall|k: u32| k >= n implies #[trigger] mount_handles(h, next, n).contains_key(k) == h.contains_key(
            k,
        ) by {
            assert(k != last);
            assert(m.contains_key(k) == h.contains_key(k));
        }
        assert forall|k: u32| k >= n && h.contains_key(k) implies #[trigger] mount_handles(h, next, n)[k] == h[k] by {
            assert(k != last);
            assert(m[k] == h[k]);
        }
    }
}

/// Registers a native view for every node, then inserts each node under its
/// parent.
fn build_tree<H: HostCallbacks>(engine: &ReactiveEngine, renderer: &mut NativeRenderer<H>)
    requires
        old(renderer).next() + engine.screen.nodes@.len() <= u32::MAX,
        parents_in_range(engine.screen.nodes@),
    ensures
        final(renderer).next() == old(renderer).next() + engine.screen.nodes@.len(),
        final(renderer).handles() == mount_handles(
            old(renderer).handles(),
            old(renderer).next(),
            engine.screen.nodes@.len(),
        ),
        final(renderer).pending_view() == old(renderer).pending_view() + create_views(
            engine.screen.nodes@,
            old(renderer).next(),
            engine.screen.nodes@.len() as int,
        ) + insert_views(engine.screen.nodes@, final(renderer).handles(), engine.screen.nodes@.len() as int),
        final(renderer).host_of() == old(renderer).host_of(),
        final(renderer).sent() == old(renderer).sent(),
{
    let nodes = &engine.screen.nodes;
    let ghost start = renderer.pending_view();
    let ghost next0 = renderer.next();
    let ghost h0 = renderer.handles();
    let mut idx: usize = 0;
    while idx < nodes.len()
        invariant
            idx <= nodes@.len(),
            next0 + nodes@.len() <= u32::MAX,
            renderer.next() == next0 + idx,
            renderer.handles() == mount_handles(h0, next0, idx as nat),
            renderer.pending_view() == start + create_views(nodes@, next0, idx as int),
            renderer.host_of() == old(renderer).host_of(),
            renderer.sent() == old(renderer).sent(),
        decreases nodes@.len() - idx,
    {
        let ghost before = renderer.pending();
        renderer.register_node(NodeId(idx as u32), nodes[idx].kind);
        proof {
            lemma_ops_view_push(before, CommandOp::Create { kind: nodes@[idx as int].kind, handle: (next0 + idx) as u32 });
        }
        idx = idx + 1;
        assert(renderer.pending_view() =~= start + create_views(nodes@, next0, idx as int));
    }
    let ghost hm = renderer.handles();
    let ghost creates = renderer.pending_view();
    proof {
        lemma_mount_handles(h0, next0, nodes@.len());
    }
    let mut idx: usize = 0;
    while idx < nodes.len()
        invariant
            idx <= nodes@.len(),
            nodes@ == engine.screen.nodes@,
            parents_in_range(nodes@),
            renderer.handles() == hm,
            renderer.next() == next0 + nodes@.len(),
            forall|k: u32| k < nodes@.len() ==> #[trigger] hm.contains_key(k),
            renderer.pending_view() == creates + insert_views(nodes@, hm, idx as int),
            renderer.host_of() == old(renderer).host_of(),
            renderer.sent() == old(renderer).sent(),
        decreases nodes@.len() - idx,
    {
        let child_id = NodeId(idx as u32);
        let node = &nodes[idx];
        if let Some(parent) = node.parent {
            assert(nodes@[idx as int].parent is Some);
            let parent_node = &nodes[parent.0 as usize];
            let index = position_or_zero(&parent_node.children, child_id) as u32;
            match (renderer.handle_for(parent), renderer.handle_for(child_id)) {
                (Some(ph), Some(ch)) => {
                    let ghost before = renderer.pending();
                    renderer.insert_child(ph, ch, index);
                    proof {
                        lemma_ops_view_push(before, CommandOp::InsertChild { parent: ph, child: ch, index });
                    }
                },
                _ => {},
            }
        }
        idx = idx + 1;
        assert(renderer.pending_view() =~= creates + insert_views(nodes@, hm, idx as int));
    }
}

/// Mounts the screen on the native host: builds the tree, writes the props,
/// binds the handlers and commits.
pub fn mount_screen<H: HostCallbacks>(engine: &ReactiveEngine, renderer: &mut NativeRenderer<H>)
    requires
        old(renderer).next() + engine.screen.nodes@.len() <= u32::MAX,
        parents_in_range(engine.screen.nodes@),
        all_ops_ok(engine.screen, engine.slots.values()),
    ensures
        final(renderer).next() == old(renderer).next() + engine.screen.nodes@.len(),
        final(renderer).handles() == mount_handles(
            old(renderer).handles(),
            old(renderer).next(),
            engine.screen.nodes@.len(),
        ),
        final(renderer).pending().len() == 0,
        final(renderer).sent() == sent_after(
            old(renderer).sent(),
            old(renderer).pending_view() + mount_views(
                engine.screen,
                engine.slots.values(),
                old(renderer).next(),
                final(renderer).handles(),
            ),
        ),
{
    let ghost next0 = renderer.next();
    let ghost start = renderer.pending_view();
    build_tree(engine, renderer);
    let ghost hm = renderer.handles();
    let ghost after_tree = renderer.pending_view();
    write_props(engine, renderer);
    let ghost after_props = renderer.pending_view();
    let nodes = &engine.screen.nodes;
    proof {
        lemma_mount_handles(old(renderer).handles(), next0, nodes@.len());
    }
    let mut idx: usize = 0;
    while idx < nodes.len()
        invariant
            idx <= nodes@.len(),
            nodes@ == engine.screen.nodes@,
            renderer.handles() == hm,
            renderer.next() == next0 + nodes@.len(),
            forall|k: u32| k < nodes@.len() ==> #[trigger] hm.contains_key(k),
            renderer.pending_view() == after_props + handler_views(nodes@, hm, idx as int),
            renderer.sent() == old(renderer).sent(),
        decreases nodes@.len() - idx,
    {
        if let Some(handler) = nodes[idx].handler {
            match renderer.handle_for(NodeId(idx as u32)) {
                Some(handle) => {
                    let ghost before = renderer.pending();
                    renderer.set_handler(handle, handler.0);
                    proof {
                        lemma_ops_view_push(before, CommandOp::SetHandler { handle, handler_id: handler.0 });
                    }
                },
                None => {},
            }
        }
        idx = idx + 1;
        assert(renderer.pending_view() =~= after_props + handler_views(nodes@, hm, idx as int));
    }
    let ghost all = renderer.pending_view();
    assert(all =~= start + mount_views(engine.screen, engine.slots.values(), next0, hm));
    proof {
        lemma_commit_sends(renderer.pending(), all);
    }
    renderer.commit();
}

/// Writes every static prop and every update operation to the nodes' handles.
fn write_props<H: HostCallbacks>(engine: &ReactiveEngine, renderer: &mut NativeRenderer<H>)
    requires
        all_ops_ok(engine.screen, engine.slots.values()),
    ensures
        final(renderer).next() == old(renderer).next(),
        final(renderer).handles() == old(renderer).handles(),
        final(renderer).pending_view() == old(renderer).pending_view() + native_of_calls(
            old(renderer).handles(),
            props_calls(engine.screen, engine.slots.values()),
        ),
        final(renderer).host_of() == old(renderer).host_of(),
        final(renderer).sent() == old(renderer).sent(),
{
    let ghost ints = engine.slots.values();
    let ghost hm = renderer.handles();
    let ghost start = renderer.pending_view();
    let ghost calls = props_calls(engine.screen, ints);
    let ghost statics = engine.screen.static_props@.map_values(|p: StaticProp| crate::runtime::reactive::static_call(p));
    let ghost updates = engine.screen.update_ops@.map_values(
        |op: UpdateOp| crate::runtime::reactive::op_call(engine.screen.exprs@, op, ints),
    );
    let props = &engine.screen.static_props;
    let mut j: usize = 0;
    while j < props.len()
        invariant
            j <= props@.len(),
            props@ == engine.screen.static_props@,
            statics.len() == props@.len(),
            statics == engine.screen.static_props@.map_values(|p: StaticProp| crate::runtime::reactive::static_call(p)),
            renderer.handles() == hm,
            renderer.next() == old(renderer).next(),
            renderer.pending_view() == start + native_of_calls(hm, statics.take(j as int)),
            renderer.host_of() == old(renderer).host_of(),
            renderer.sent() == old(renderer).sent(),
        decreases props@.len() - j,
    {
        let prop = &props[j];
        let text: String = match &prop.value {
            IrExpr::Str(s) => s.clone(),
            IrExpr::Int(v) => i64_to_string(*v),
            _ => String::new(),
        };
        assert(text@ == static_text(prop.value));
        let ghost before = renderer.pending();
        let key = ir_prop_to_platform(prop.key);
        set_node_prop(renderer, prop.node, key, PropValue::Str(text));
        proof {
            if hm.contains_key(prop.node.0) {
                lemma_ops_view_push(before, CommandOp::SetProp { handle: hm[prop.node.0], key, value: PropValue::Str(text) });
            }
            assert(statics[j as int] == crate::runtime::reactive::static_call(props@[j as int]));
            assert(statics.take(j + 1).drop_last() =~= statics.take(j as int));
        }
        j = j + 1;
        assert(renderer.pending_view() =~= start + native_of_calls(hm, statics.take(j as int)));
    }
    assert(statics.take(j as int) =~= statics);
    let ghost mid = renderer.pending_view();
    let ops = &engine.screen.update_ops;
    let mut k: usize = 0;
    while k < ops.len()
        invariant
            k <= ops@.len(),
            ops@ == engine.screen.update_ops@,
            all_ops_ok(engine.screen, ints),
            ints == engine.slots.values(),
            updates.len() == ops@.len(),
            updates == engine.screen.update_ops@.map_values(
                |op: UpdateOp| crate::runtime::reactive::op_call(engine.screen.exprs@, op, ints),
            ),
            renderer.handles() == hm,
            renderer.next() == old(renderer).next(),
            renderer.pending_view() == start + native_of_calls(hm, statics + updates.take(k as int)),
            renderer.host_of() == old(renderer).host_of(),
            renderer.sent() == old(renderer).sent(),
        decreases ops@.len() - k,
    {
        assert(crate::runtime::reactive::op_ok(engine.screen.exprs@, ops@[k as int], ints));
        let value = engine.eval_update_op(&ops[k]);
        let ghost rv = crate::runtime::renderer::prop_value_view(value);
        let pv = runtime_to_platform(value);
        let ghost before = renderer.pending();
        let key = ir_prop_to_platform(ops[k].key);
        set_node_prop(renderer, ops[k].node, key, pv);
        proof {
            if hm.contains_key(ops@[k as int].node.0) {
                lemma_ops_view_push(before, CommandOp::SetProp { handle: hm[ops@[k as int].node.0], key, value: pv });
            }
            assert(updates[k as int] == crate::runtime::reactive::op_call(engine.screen.exprs@, ops@[k as int], ints));
            assert((statics + updates.take(k + 1)).drop_last() =~= statics + updates.take(k as int));
        }
        k = k + 1;
        assert(renderer.pending_view() =~= start + native_of_calls(hm, statics + updates.take(k as int)));
    }
    assert(updates.take(k as int) =~= updates);
    proof {
        assert(calls =~= (statics + updates).push(RenderCall::<Seq<char>>::Commit));
        assert(calls.drop_last() =~= statics + updates);
        assert(native_of_calls(hm, calls) == native_of_calls(hm, statics + updates));
    }
}

/// Flushes the dirty slots to native props, one property set per update
/// operation that reads a dirty slot, and commits.
pub fn flush_screen<H: HostCallbacks>(engine: &mut ReactiveEngine, renderer: &mut NativeRenderer<H>)
    requires
        old(engine).slots.wf(),
        forall|s: int|
            0 <= s < old(engine).slots.values().len() && #[trigger] old(engine).slots.dirty_flags()[s]
                ==> slot_flushable(old(engine).screen, old(engine).slots.values(), s),
    ensures
        final(engine).screen == old(engine).screen,
        final(engine).slots.wf(),
        final(engine).slots.values() == old(engine).slots.values(),
        final(engine).slots.dirty_flags() == no_dirty(old(engine).slots.values().len()),
        final(renderer).next() == old(renderer).next(),
        final(renderer).handles() == old(renderer).handles(),
        final(renderer).pending().len() == 0,
        final(renderer).sent() == sent_after(
            old(renderer).sent(),
            old(renderer).pending_view() + native_of_calls(
                old(renderer).handles(),
                flush_calls(
                    old(engine).screen,
                    old(engine).slots.values(),
                    dirty_slots(old(engine).slots.dirty_flags()),
                ),
            ),
        ),
{
    let ghost dflags = engine.slots.dirty_flags();
    let ghost ints = engine.slots.values();
    let ghost hm = renderer.handles();
    let ghost start = renderer.pending_view();
    proof {
        crate::runtime::state::lemma_dirty_slots_exact(dflags);
    }
    let dirty = engine.slots.drain_dirty();
    let mut i: usize = 0;
    while i < dirty.len()
        invariant
            engine.screen == old(engine).screen,
            engine.slots.values() == ints,
            ints.len() == dflags.len(),
            dirty@ == dirty_slots(dflags),
            forall|s: int| 0 <= s < ints.len() && #[trigger] dflags[s] ==> slot_flushable(engine.screen, ints, s),
            forall|a: int| 0 <= a < dirty@.len() ==> dirty@[a].0 < dflags.len() && dflags[dirty@[a].0 as int],
            i <= dirty@.len(),
            renderer.handles() == hm,
            renderer.next() == old(renderer).next(),
            renderer.sent() == old(renderer).sent(),
            renderer.pending_view() == start + native_of_calls(hm, flush_calls(engine.screen, ints, dirty@.take(i as int))),
        decreases dirty@.len() - i,
    {
        let slot = dirty[i];
        assert(dflags[slot.0 as int]);
        assert(slot_flushable(engine.screen, ints, slot.0 as int));
        let ops = engine.screen.deps.ops_for(slot);
        let ghost before_calls = flush_calls(engine.screen, ints, dirty@.take(i as int));
        let ghost slot_calls = crate::runtime::reactive::slot_flush_calls(engine.screen, ints, slot.0 as int);
        let mut j: usize = 0;
        while j < ops.len()
            invariant
                engine.screen == old(engine).screen,
                engine.slots.values() == ints,
                slot_flushable(engine.screen, ints, slot.0 as int),
                ops@ == dep_ops(engine.screen.deps, slot.0 as int),
                slot_calls == crate::runtime::reactive::slot_flush_calls(engine.screen, ints, slot.0 as int),
                j <= ops@.len(),
                renderer.handles() == hm,
                renderer.next() == old(renderer).next(),
                renderer.sent() == old(renderer).sent(),
                renderer.pending_view() == start + native_of_calls(hm, before_calls + slot_calls.take(j as int)),
            decreases ops@.len() - j,
        {
            let op_idx = ops[j];
            assert(dep_ops(engine.screen.deps, slot.0 as int)[j as int] == op_idx);
            let op = &engine.screen.update_ops[op_idx as usize];
            let value = engine.eval_update_op(op);
            let pv = runtime_to_platform(value);
            let key = ir_prop_to_platform(op.key);
            let ghost before = renderer.pending();
            set_node_prop(renderer, op.node, key, pv);
            proof {
                if hm.contains_key(op.node.0) {
                    lemma_ops_view_push(before, CommandOp::SetProp { handle: hm[op.node.0], key, value: pv });
                }
                assert((before_calls + slot_calls.take(j + 1)).drop_last() =~= before_calls + slot_calls.take(j as int));
            }
            j = j + 1;
            assert(renderer.pending_view() =~= start + native_of_calls(hm, before_calls + slot_calls.take(j as int)));
        }
        assert(slot_calls.take(j as int) =~= slot_calls);
        assert(dirty@.take(i + 1).drop_last() =~= dirty@.take(i as int));
        i = i + 1;
    }
    assert(dirty@.take(i as int) =~= dirty@);
    proof {
        lemma_commit_sends(renderer.pending(), renderer.pending_view());
    }
    renderer.commit();
}

/// A reactive engine mounted on a native host.
pub struct NativeSession<H: HostCallbacks> {
    pub engine: ReactiveEngine,
    pub renderer: NativeRenderer<H>,
}

impl<H: HostCallbacks> NativeSession<H> {
    /// Mounts `screen` on a fresh native renderer over `host`.
    pub fn mount(screen: ScreenIr, host: H) -> (s: NativeSession<H>)
        requires
            screen.slots@.len() <= u32::MAX,
            1 + screen.nodes@.len() <= u32::MAX,
            parents_in_range(screen.nodes@),
            all_ops_ok(screen, crate::runtime::reactive::init_values(screen.slots@)),
        ensures
            s.engine.screen == screen,
            s.engine.slots.wf(),
            s.engine.slots.values() == crate::runtime::reactive::init_values(screen.slots@),
            s.engine.slots.dirty_flags() == no_dirty(screen.slots@.len()),
            s.renderer.handles() == mount_handles(Map::empty(), 1, screen.nodes@.len()),
            s.renderer.pending().len() == 0,
            s.renderer.sent() == sent_after(
                Seq::empty(),
                mount_views(
                    screen,
                    crate::runtime::reactive::init_values(screen.slots@),
                    1,
                    mount_handles(Map::empty(), 1, screen.nodes@.len()),
                ),
            ),
    {
        let engine = ReactiveEngine::new(screen);
        let mut renderer = NativeRenderer::new(host);
        assert(renderer.pending_view() =~= Seq::<OpView>::empty());
        assert(renderer.pending_view() + mount_views(
            engine.screen,
            engine.slots.values(),
            1,
            mount_handles(Map::empty(), 1, engine.screen.nodes@.len()),
        ) =~= mount_views(
            engine.screen,
            engine.slots.values(),
            1,
            mount_handles(Map::empty(), 1, engine.screen.nodes@.len()),
        ));
        mount_screen(&engine, &mut renderer);
        NativeSession { engine, renderer }
    }

    /// The slot values after running handler `handler_id`.
    pub open spec fn fired_values(&self, handler_id: HandlerId) -> Seq<i64> {
        body_outcome(
            store_state(self.engine.slots),
            self.engine.screen.actions@,
            self.engine.screen.handlers@[handler_index(self.engine.screen.handlers@, handler_id)->0].body,
        ).0
    }

    /// The session can run handler `handler_id` and flush its effect: the
    /// handler exists, runs without failing, and every slot it leaves dirty can
    /// be flushed.
    pub open spec fn can_fire(&self, handler_id: HandlerId) -> bool {
        &&& self.engine.slots.wf()
        &&& handler_index(self.engine.screen.handlers@, handler_id) is Some
        &&& body_runs(
            store_state(self.engine.slots),
            self.engine.screen.actions@,
            self.engine.screen.handlers@[handler_index(self.engine.screen.handlers@, handler_id)->0].body,
        )
        &&& {
            let after = body_outcome(
                store_state(self.engine.slots),
                self.engine.screen.actions@,
                self.engine.screen.handlers@[handler_index(self.engine.screen.handlers@, handler_id)->0].body,
            );
            &&& forall|s: int|
                0 <= s < after.0.len() && #[trigger] after.1[s] ==> slot_flushable(self.engine.screen, after.0, s)
        }
    }

    /// Runs a handler, then flushes the changed slots to the host.
    pub fn fire_handler(&mut self, handler_id: HandlerId)
        requires
            old(self).can_fire(handler_id),
        ensures
            final(self).engine.screen == old(self).engine.screen,
            final(self).engine.slots.wf(),
            final(self).renderer.handles() == old(self).renderer.handles(),
            final(self).renderer.pending().len() == 0,
            ({
                let after = body_outcome(
                    store_state(old(self).engine.slots),
                    old(self).engine.screen.actions@,
                    old(self).engine.screen.handlers@[handler_index(
                        old(self).engine.screen.handlers@,
                        handler_id,
                    )->0].body,
                );
                &&& final(self).engine.slots.values() == after.0
                &&& final(self).engine.slots.dirty_flags() == no_dirty(after.0.len())
                &&& final(self).renderer.sent() == sent_after(
                    old(self).renderer.sent(),
                    old(self).renderer.pending_view() + native_of_calls(
                        old(self).renderer.handles(),
                        flush_calls(old(self).engine.screen, after.0, dirty_slots(after.1)),
                    ),
                )
            }),
    {
        let ghost after = body_outcome(
            store_state(self.engine.slots),
            self.engine.screen.actions@,
            self.engine.screen.handlers@[handler_index(self.engine.screen.handlers@, handler_id)->0].body,
        );
        self.engine.fire_handler(handler_id);
        assert(self.engine.slots.values() == after.0 && self.engine.slots.dirty_flags() == after.1);
        assert forall|s: int|
            0 <= s < self.engine.slots.values().len() && #[trigger] self.engine.slots.dirty_flags()[s]
                implies slot_flushable(self.engine.screen, self.engine.slots.values(), s) by {
            assert(after.1[s]);
        }
        flush_screen(&mut self.engine, &mut self.renderer);
    }
}

} // verus!
