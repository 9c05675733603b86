//! The fine-grained reactive engine: handlers change slots, and a flush
//! re-evaluates only the update operations that read a changed slot.

use vstd::prelude::*;
use vstd::string::StringExecFns;
use crate::ir::hot_reload::slot_default;
use crate::ir::{dep_ops, CompiledAction, HandlerBody, HandlerId, HandlerIr, IrExpr, ScreenIr, SlotDef, StaticProp, UpdateOp};
use crate::num::{i64_to_string, int_text, push_i64_text};
use crate::runtime::live_renderer::{live_apply_all, LiveRenderer, LiveState};
use crate::runtime::renderer::{MockRenderer, PropValue, RenderCall};
use crate::runtime::state::{dirty_slots, no_dirty, SlotStore};

verus! {

/// A screen together with the current values of its slots.
pub struct ReactiveEngine {
    pub screen: ScreenIr,
    pub slots: SlotStore,
}

/// The slot values and dirty flags a handler works on.
pub type SlotState = (Seq<i64>, Seq<bool>);

pub open spec fn store_state(s: SlotStore) -> SlotState {
    (s.values(), s.dirty_flags())
}

/// The initial values of a screen's slots.
pub open spec fn init_values(slots: Seq<SlotDef>) -> Seq<i64> {
    Seq::new(slots.len(), |i: int| slot_default(slots[i]))
}

/// Storing `v` in slot `s`: the slot turns dirty only if its value changes.
pub open spec fn store_int(st: SlotState, s: int, v: i64) -> SlotState {
    if st.0[s] != v {
        (st.0.update(s, v), st.1.update(s, true))
    } else {
        st
    }
}

/// Running one handler statement, with at most `fuel` nested action calls;
/// `None` where it would fail (a slot out of range, an overflow) or needs
/// deeper action calls.
pub open spec fn run_body(st: SlotState, actions: Seq<CompiledAction>, body: HandlerBody, fuel: nat) -> Option<SlotState>
    decreases fuel, body, 0int,
{
    match body {
        HandlerBody::Increment(s) => if s.0 < st.0.len() && st.0[s.0 as int] < i64::MAX {
            Some((st.0.update(s.0 as int, (st.0[s.0 as int] + 1) as i64), st.1.update(s.0 as int, true)))
        } else {
            None
        },
        HandlerBody::Decrement(s) => if s.0 < st.0.len() && st.0[s.0 as int] > i64::MIN {
            Some(store_int(st, s.0 as int, (st.0[s.0 as int] - 1) as i64))
        } else {
            None
        },
        HandlerBody::Assign { slot, op, value } => match value {
            IrExpr::Int(v) => if slot.0 < st.0.len() {
                Some(store_int(st, slot.0 as int, v))
            } else {
                None
            },
            _ => Some(st),
        },
        HandlerBody::InvokeAction(idx) => if idx < actions.len() {
            if fuel == 0 {
                None
            } else {
                run_seq(st, actions, actions[idx as int].body@, (fuel - 1) as nat, 0)
            }
        } else {
            Some(st)
        },
        HandlerBody::Sequence(ops) => run_seq(st, actions, ops@, fuel, 0),
    }
}

/// Running `ops[i..]` one after another.
pub open spec fn run_seq(st: SlotState, actions: Seq<CompiledAction>, ops: Seq<HandlerBody>, fuel: nat, i: int) -> Option<SlotState>
    decreases fuel, ops, ops.len() - i,
{
    if i < 0 || i >= ops.len() {
        Some(st)
    } else {
        match run_body(st, actions, ops[i], fuel) {
            None => None,
            Some(st2) => run_seq(st2, actions, ops, fuel, i + 1),
        }
    }
}

/// Invoking a screen action runs the action's statements, one after another,
/// with one level less of nested calls: an action of one statement does
/// what that statement does, an action of two does what the first and then
/// the second do, and an action of none changes nothing. Invoking an index
/// with no action changes nothing either.
pub proof fn law_invoke_action(st: SlotState, actions: Seq<CompiledAction>, idx: u32, fuel: nat, b1: HandlerBody, b2: HandlerBody)
    ensures
        idx < actions.len() && actions[idx as int].body@ == seq![b1] ==> run_body(
            st,
            actions,
            HandlerBody::InvokeAction(idx),
            fuel + 1,
        ) == run_body(st, actions, b1, fuel),
        idx < actions.len() && actions[idx as int].body@ == seq![b1, b2] ==> run_body(
            st,
            actions,
            HandlerBody::InvokeAction(idx),
            fuel + 1,
        ) == match run_body(st, actions, b1, fuel) {
            Some(st1) => run_body(st1, actions, b2, fuel),
            None => None,
        },
        idx < actions.len() && actions[idx as int].body@.len() == 0 ==> run_body(
            st,
            actions,
            HandlerBody::InvokeAction(idx),
            fuel + 1,
        ) == Some(st),
        idx >= actions.len() ==> run_body(st, actions, HandlerBody::InvokeAction(idx), fuel) == Some(st),
{
    if idx < actions.len() {
        let ops = actions[idx as int].body@;
        if ops == seq![b1] {
            match run_body(st, actions, b1, fuel) {
                Some(st1) => {
                    assert(run_seq(st1, actions, ops, fuel, 1) == Some(st1));
                },
                None => {},
            }
        }
        if ops == seq![b1, b2] {
            assert(ops[0] == b1 && ops[1] == b2);
            match run_body(st, actions, b1, fuel) {
                Some(st1) => {
                    match run_body(st1, actions, b2, fuel) {
                        Some(st2) => {
                            assert(run_seq(st2, actions, ops, fuel, 2) == Some(st2));
                            assert(run_seq(st1, actions, ops, fuel, 1) == Some(st2));
                        },
                        None => {
                            assert(run_seq(st1, actions, ops, fuel, 1) is None);
                        },
                    }
                    assert(run_seq(st, actions, ops, fuel, 0) == run_seq(st1, actions, ops, fuel, 1));
                },
                None => {},
            }
        }
    }
}

/// The statement runs to its end without failing.
pub open spec fn body_runs(st: SlotState, actions: Seq<CompiledAction>, body: HandlerBody) -> bool {
    exists|f: nat| #[trigger] run_body(st, actions, body, f) is Some
}

/// The state after the statement, where it runs.
pub open spec fn body_outcome(st: SlotState, actions: Seq<CompiledAction>, body: HandlerBody) -> SlotState {
    run_body(st, actions, body, choose|f: nat| #[trigger] run_body(st, actions, body, f) is Some)->0
}

/// The position of the first handler with id `id`.
pub open spec fn handler_index(handlers: Seq<HandlerIr>, id: HandlerId) -> Option<int>
    decreases handlers.len(),
{
    if handlers.len() == 0 {
        None
    } else {
        match handler_index(handlers.drop_last(), id) {
            Some(i) => Some(i),
            None => if handlers.last().id == id {
                Some(handlers.len() - 1)
            } else {
                None
            },
        }
    }
}

/// Evaluating `e` cannot fail: every slot it reads exists and no sum overflows.
pub open spec fn expr_ok(e: IrExpr, ints: Seq<i64>) -> bool
    decreases e, 0int,
{
    match e {
        IrExpr::Slot(s) => s.0 < ints.len(),
        IrExpr::Add(s, v) => s.0 < ints.len() && i64::MIN <= ints[s.0 as int] + v <= i64::MAX,
        IrExpr::Concat(xs) => parts_ok(xs@, ints, 0),
        _ => true,
    }
}

pub open spec fn parts_ok(xs: Seq<IrExpr>, ints: Seq<i64>, i: int) -> bool
    decreases xs, xs.len() - i,
{
    if i < 0 || i >= xs.len() {
        true
    } else {
        expr_ok(xs[i], ints) && parts_ok(xs, ints, i + 1)
    }
}

/// The text an expression shows, given the slot values.
pub open spec fn expr_text(e: IrExpr, ints: Seq<i64>) -> Seq<char>
    decreases e, 0int,
{
    match e {
        IrExpr::Int(v) => int_text(v as int),
        IrExpr::Float(f) => f.text@,
        IrExpr::Bool(b) => if b {
            "true"@
        } else {
            "false"@
        },
        IrExpr::Str(s) => s@,
        IrExpr::Slot(s) => int_text(ints[s.0 as int] as int),
        IrExpr::Concat(xs) => parts_text(xs@, ints, 0),
        IrExpr::Add(s, v) => int_text(ints[s.0 as int] + v),
        IrExpr::Error => Seq::empty(),
    }
}

pub open spec fn parts_text(xs: Seq<IrExpr>, ints: Seq<i64>, i: int) -> Seq<char>
    decreases xs, xs.len() - i,
{
    if i < 0 || i >= xs.len() {
        Seq::empty()
    } else {
        expr_text(xs[i], ints) + parts_text(xs, ints, i + 1)
    }
}

/// The text an update operation shows: that of its expression, or nothing
/// where the screen has no such expression.
pub open spec fn op_text(exprs: Seq<IrExpr>, op: UpdateOp, ints: Seq<i64>) -> Seq<char> {
    if op.expr.0 < exprs.len() {
        expr_text(exprs[op.expr.0 as int], ints)
    } else {
        Seq::empty()
    }
}

pub open spec fn op_ok(exprs: Seq<IrExpr>, op: UpdateOp, ints: Seq<i64>) -> bool {
    op.expr.0 < exprs.len() ==> expr_ok(exprs[op.expr.0 as int], ints)
}

/// The renderer call that applies an update operation.
pub open spec fn op_call(exprs: Seq<IrExpr>, op: UpdateOp, ints: Seq<i64>) -> RenderCall<Seq<char>> {
    RenderCall::SetProp { node: op.node, key: op.key, value: PropValue::Str(op_text(exprs, op, ints)) }
}

/// The table lists operations for slot `s`, all of which exist and evaluate.
pub open spec fn slot_flushable(screen: ScreenIr, ints: Seq<i64>, s: int) -> bool {
    let t = screen.deps;
    &&& s + 1 < t.offsets@.len()
    &&& t.offsets@[s] <= t.offsets@[s + 1] <= t.ops@.len()
    &&& forall|k: int|
        0 <= k < dep_ops(t, s).len() ==> #[trigger] dep_ops(t, s)[k] < screen.update_ops@.len() && op_ok(
            screen.exprs@,
            screen.update_ops@[dep_ops(t, s)[k] as int],
            ints,
        )
}

/// The calls a flush makes for slot `s`: one per operation the table lists.
pub open spec fn slot_flush_calls(screen: ScreenIr, ints: Seq<i64>, s: int) -> Seq<RenderCall<Seq<char>>> {
    dep_ops(screen.deps, s).map_values(|k: u32| op_call(screen.exprs@, screen.update_ops@[k as int], ints))
}

/// The calls a flush makes for the dirty slots, slot after slot.
pub open spec fn flush_calls(screen: ScreenIr, ints: Seq<i64>, dirty: Seq<crate::ir::SlotId>) -> Seq<RenderCall<Seq<char>>>
    decreases dirty.len(),
{
    if dirty.len() == 0 {
        Seq::empty()
    } else {
        flush_calls(screen, ints, dirty.drop_last()) + slot_flush_calls(screen, ints, dirty.last().0 as int)
    }
}

/// The value a static prop is shown with: a string as is, an integer as its
/// decimal text, anything else as empty text.
pub open spec fn static_text(e: IrExpr) -> Seq<char> {
    match e {
        IrExpr::Str(s) => s@,
        IrExpr::Int(v) => int_text(v as int),
        _ => Seq::empty(),
    }
}

pub open spec fn static_call(p: StaticProp) -> RenderCall<Seq<char>> {
    RenderCall::SetProp { node: p.node, key: p.key, value: PropValue::Str(static_text(p.value)) }
}

/// The calls that create a screen's nodes, in order.
pub open spec fn create_calls(screen: ScreenIr) -> Seq<RenderCall<Seq<char>>> {
    screen.nodes@.map_values(|n: crate::ir::NodeIr| RenderCall::<Seq<char>>::Create { kind: n.kind })
}

/// The calls that write a screen's props: every static prop, every update
/// operation, then a commit.
pub open spec fn props_calls(screen: ScreenIr, ints: Seq<i64>) -> Seq<RenderCall<Seq<char>>> {
    screen.static_props@.map_values(|p: StaticProp| static_call(p)) + screen.update_ops@.map_values(
        |op: UpdateOp| op_call(screen.exprs@, op, ints),
    ) + seq![RenderCall::<Seq<char>>::Commit]
}

/// The calls that mount a screen: create every node, then write its props.
pub open spec fn mount_calls(screen: ScreenIr, ints: Seq<i64>) -> Seq<RenderCall<Seq<char>>> {
    create_calls(screen) + props_calls(screen, ints)
}

pub open spec fn all_ops_ok(screen: ScreenIr, ints: Seq<i64>) -> bool {
    forall|k: int| 0 <= k < screen.update_ops@.len() ==> #[trigger] op_ok(screen.exprs@, screen.update_ops@[k], ints)
}

/// Whether expression `e` evaluates on the slot values `ints`: the slots it
/// reads exist and no addition overflows.
pub fn expr_evaluates(e: &IrExpr, ints: &[i64]) -> (r: bool)
    ensures
        r == expr_ok(*e, ints@),
    decreases *e, 1int,
{
    match e {
        IrExpr::Slot(s) => (s.0 as usize) < ints.len(),
        IrExpr::Add(s, v) => (s.0 as usize) < ints.len() && ints[s.0 as usize].checked_add(*v).is_some(),
        IrExpr::Concat(xs) => {
            let mut ok = true;
            let mut i: usize = 0;
            while i < xs.len()
                invariant
                    *e == IrExpr::Concat(*xs),
                    i <= xs@.len(),
                    parts_ok(xs@, ints@, 0) == (ok && parts_ok(xs@, ints@, i as int)),
                decreases xs@.len() - i,
            {
                proof {
                    assert(decreases_to!(*e => (*e)->Concat_0));
                    assert(decreases_to!(*xs => xs@));
                    assert(decreases_to!(xs@ => xs@[i as int]));
                }
                let part = expr_evaluates(&xs[i], ints);
                ok = ok && part;
                i = i + 1;
            }
            ok
        },
        _ => true,
    }
}

/// Whether every update operation of `screen` evaluates on the slot values
/// `ints`.
pub fn ops_evaluate(screen: &ScreenIr, ints: &[i64]) -> (r: bool)
    ensures
        r == all_ops_ok(*screen, ints@),
{
    let mut k: usize = 0;
    while k < screen.update_ops.len()
        invariant
            k <= screen.update_ops@.len(),
            forall|j: int| 0 <= j < k ==> #[trigger] op_ok(screen.exprs@, screen.update_ops@[j], ints@),
        decreases screen.update_ops@.len() - k,
    {
        let op = &screen.update_ops[k];
        if (op.expr.0 as usize) < screen.exprs.len() {
            if !expr_evaluates(&screen.exprs[op.expr.0 as usize], ints) {
                assert(!op_ok(screen.exprs@, screen.update_ops@[k as int], ints@));
                return false;
            }
        }
        k = k + 1;
    }
    true
}

/// The initial values of slots `slots`.
pub fn initial_values(slots: &Vec<SlotDef>) -> (v: Vec<i64>)
    ensures
        v@ == init_values(slots@),
{
    let mut ints: Vec<i64> = Vec::new();
    let mut i: usize = 0;
    while i < slots.len()
        invariant
            i <= slots@.len(),
            ints@ == init_values(slots@).take(i as int),
        decreases slots@.len() - i,
    {
        let v: i64 = match &slots[i].init {
            IrExpr::Int(v) => *v,
            _ => 0,
        };
        ints.push(v);
        i = i + 1;
        assert(ints@ =~= init_values(slots@).take(i as int));
    }
    assert(ints@ =~= init_values(slots@));
    ints
}

/// Runs one statement on the slots.
fn execute_handler_body(slots: &mut SlotStore, actions: &Vec<CompiledAction>, body: &HandlerBody, Ghost(fuel): Ghost<nat>)
    requires
        old(slots).wf(),
        run_body(store_state(*old(slots)), actions@, *body, fuel) is Some,
    ensures
        final(slots).wf(),
        store_state(*final(slots)) == run_body(store_state(*old(slots)), actions@, *body, fuel)->0,
        final(slots).string_values() == old(slots).string_values(),
        final(slots).bool_values() == old(slots).bool_values(),
    decreases fuel, *body, 0int,
{
    match body {
        HandlerBody::Increment(slot) => slots.increment(*slot),
        HandlerBody::Decrement(slot) => {
            let v = slots.get_int(*slot) - 1;
            slots.set_int(*slot, v);
        },
        HandlerBody::Assign { slot, value, .. } => {
            if let IrExpr::Int(v) = value {
                slots.set_int(*slot, *v);
            }
        },
        HandlerBody::InvokeAction(idx) => {
            if (*idx as usize) < actions.len() {
                let ops = &actions[*idx as usize].body;
                execute_sequence(slots, actions, ops, Ghost((fuel - 1) as nat));
            }
        },
        HandlerBody::Sequence(ops) => {
            proof {
                assert(decreases_to!(*body => (*body)->Sequence_0));
            }
            execute_sequence(slots, actions, ops, Ghost(fuel));
        },
    }
}

/// Runs the statements of `ops` one after another.
fn execute_sequence(slots: &mut SlotStore, actions: &Vec<CompiledAction>, ops: &Vec<HandlerBody>, Ghost(fuel): Ghost<nat>)
    requires
        old(slots).wf(),
        run_seq(store_state(*old(slots)), actions@, ops@, fuel, 0) is Some,
    ensures
        final(slots).wf(),
        store_state(*final(slots)) == run_seq(store_state(*old(slots)), actions@, ops@, fuel, 0)->0,
        final(slots).string_values() == old(slots).string_values(),
        final(slots).bool_values() == old(slots).bool_values(),
    decreases fuel, ops@, 1int,
{
    let mut i: usize = 0;
    while i < ops.len()
        invariant
            slots.wf(),
            i <= ops@.len(),
            run_seq(store_state(*old(slots)), actions@, ops@, fuel, 0) == run_seq(
                store_state(*slots),
                actions@,
                ops@,
                fuel,
                i as int,
            ),
            run_seq(store_state(*slots), actions@, ops@, fuel, i as int) is Some,
            slots.string_values() == old(slots).string_values(),
            slots.bool_values() == old(slots).bool_values(),
        decreases ops@.len() - i,
    {
        proof {
            assert(decreases_to!(ops@ => ops@[i as int]));
        }
        execute_handler_body(slots, actions, &ops[i], Ghost(fuel));
        i = i + 1;
    }
    proof {
        assert(run_seq(store_state(*slots), actions@, ops@, fuel, i as int) == Some(store_state(*slots)));
    }
}

impl ReactiveEngine {
    /// An engine for `screen`, its slots at their initial values.
    pub fn new(screen: ScreenIr) -> (e: ReactiveEngine)
        requires
            screen.slots@.len() <= u32::MAX,
        ensures
            e.screen == screen,
            e.slots.wf(),
            e.slots.values() == init_values(screen.slots@),
            e.slots.dirty_flags() == no_dirty(screen.slots@.len()),
    {
        let ints = initial_values(&screen.slots);
        ReactiveEngine { screen, slots: SlotStore::from_init(ints) }
    }

    /// Runs the first handler with id `handler_id`.
    pub fn fire_handler(&mut self, handler_id: HandlerId)
        requires
            old(self).slots.wf(),
            handler_index(old(self).screen.handlers@, handler_id) is Some,
            body_runs(
                store_state(old(self).slots),
                old(self).screen.actions@,
                old(self).screen.handlers@[handler_index(old(self).screen.handlers@, handler_id)->0].body,
            ),
        ensures
            final(self).screen == old(self).screen,
            final(self).slots.wf(),
            store_state(final(self).slots) == body_outcome(
                store_state(old(self).slots),
                old(self).screen.actions@,
                old(self).screen.handlers@[handler_index(old(self).screen.handlers@, handler_id)->0].body,
            ),
            final(self).slots.string_values() == old(self).slots.string_values(),
            final(self).slots.bool_values() == old(self).slots.bool_values(),
    {
        let ghost handlers = self.screen.handlers@;
        proof {
            lemma_handler_index_bounds(handlers, handler_id);
        }
        let mut i: usize = 0;
        while i < self.screen.handlers.len()
            invariant
                i <= handlers.len(),
                handlers == self.screen.handlers@,
                handler_index(handlers, handler_id) is Some,
                forall|k: int| 0 <= k < i ==> handlers[k].id != handler_id,
                match handler_index(handlers, handler_id) {
                    Some(p) => 0 <= p < handlers.len() && handlers[p].id == handler_id && forall|k: int|
                        0 <= k < p ==> handlers[k].id != handler_id,
                    None => false,
                },
            ensures
                i < handlers.len(),
                handlers[i as int].id == handler_id,
            decreases handlers.len() - i,
        {
            if self.screen.handlers[i].id.0 == handler_id.0 {
                break;
            }
            i = i + 1;
        }
        assert(i < handlers.len() && handler_index(handlers, handler_id) == Some(i as int));
        let ghost st = store_state(self.slots);
        let ghost body = handlers[i as int].body;
        let ghost fuel = choose|f: nat| #[trigger] run_body(st, self.screen.actions@, body, f) is Some;
        execute_handler_body(&mut self.slots, &self.screen.actions, &self.screen.handlers[i].body, Ghost(fuel));
    }

    /// Appends the text of `e` to `out`.
    fn push_expr_text(&self, out: &mut String, e: &IrExpr)
        requires
            expr_ok(*e, self.slots.values()),
        ensures
            final(out)@ == old(out)@ + expr_text(*e, self.slots.values()),
        decreases e, 0int,
    {
        match e {
            IrExpr::Int(v) => push_i64_text(out, *v),
            IrExpr::Float(f) => out.append(f.text.as_str()),
            IrExpr::Bool(b) => {
                if *b {
                    out.append("true");
                } else {
                    out.append("false");
                }
            },
            IrExpr::Str(s) => out.append(s.as_str()),
            IrExpr::Slot(slot) => push_i64_text(out, self.slots.get_int(*slot)),
            IrExpr::Concat(parts) => {
                let ghost ints = self.slots.values();
                let ghost start = out@;
                let mut i: usize = 0;
                while i < parts.len()
                    invariant
                        *e == IrExpr::Concat(*parts),
                        ints == self.slots.values(),
                        i <= parts@.len(),
                        parts_ok(parts@, ints, i as int),
                        start + parts_text(parts@, ints, 0) == out@ + parts_text(parts@, ints, i as int),
                    decreases parts@.len() - i,
                {
                    proof {
                        assert(decreases_to!(*e => (*e)->Concat_0));
                        assert(decreases_to!(*parts => parts@));
                        assert(decreases_to!(parts@ => parts@[i as int]));
                    }
                    let ghost before = out@;
                    self.push_expr_text(out, &parts[i]);
                    i = i + 1;
                    assert(before + parts_text(parts@, ints, i - 1) =~= out@ + parts_text(parts@, ints, i as int));
                }
                assert(out@ + parts_text(parts@, ints, i as int) =~= out@);
            },
            IrExpr::Add(slot, v) => push_i64_text(out, self.slots.get_int(*slot) + *v),
            IrExpr::Error => {},
        }
        proof {
            reveal_strlit("true");
            reveal_strlit("false");
        }
    }

    /// The text of update operation `op`.
    pub(crate) fn eval_update_op(&self, op: &UpdateOp) -> (v: PropValue)
        requires
            op_ok(self.screen.exprs@, *op, self.slots.values()),
        ensures
            v is Str,
            v->Str_0@ == op_text(self.screen.exprs@, *op, self.slots.values()),
    {
        let mut text = String::new();
        if (op.expr.0 as usize) < self.screen.exprs.len() {
            self.push_expr_text(&mut text, &self.screen.exprs[op.expr.0 as usize]);
        }
        assert(text@ =~= op_text(self.screen.exprs@, *op, self.slots.values()));
        PropValue::Str(text)
    }

    /// Sends the update operations that read a dirty slot to the renderer,
    /// slot by slot, then commits; afterwards no slot is dirty.
    pub fn flush(&mut self, renderer: &mut MockRenderer)
        requires
            old(self).slots.wf(),
            forall|s: int|
                0 <= s < old(self).slots.values().len() && #[trigger] old(self).slots.dirty_flags()[s]
                    ==> slot_flushable(old(self).screen, old(self).slots.values(), s),
        ensures
            final(self).screen == old(self).screen,
            final(self).slots.wf(),
            final(self).slots.values() == old(self).slots.values(),
            final(self).slots.dirty_flags() == no_dirty(old(self).slots.values().len()),
            final(self).slots.string_values() == old(self).slots.string_values(),
            final(self).slots.bool_values() == old(self).slots.bool_values(),
            final(renderer).calls() == old(renderer).calls() + flush_calls(
                old(self).screen,
                old(self).slots.values(),
                dirty_slots(old(self).slots.dirty_flags()),
            ) + seq![RenderCall::<Seq<char>>::Commit],
            final(renderer).handles_made() == old(renderer).handles_made(),
    {
        let ghost dflags = self.slots.dirty_flags();
        let ghost ints = self.slots.values();
        proof {
            crate::runtime::state::lemma_dirty_slots_exact(dflags);
        }
        let dirty = self.slots.drain_dirty();
        let ghost start = renderer.calls();
        let mut i: usize = 0;
        while i < dirty.len()
            invariant
                self.screen == old(self).screen,
                self.slots.values() == ints,
                ints.len() == dflags.len(),
                dirty@ == dirty_slots(dflags),
                forall|s: int| 0 <= s < ints.len() && #[trigger] dflags[s] ==> slot_flushable(self.screen, ints, s),
                forall|a: int|
                    0 <= a < dirty@.len() ==> dirty@[a].0 < dflags.len() && dflags[dirty@[a].0 as int],
                i <= dirty@.len(),
                renderer.calls() == start + flush_calls(self.screen, ints, dirty@.take(i as int)),
                renderer.handles_made() == old(renderer).handles_made(),
            decreases dirty@.len() - i,
        {
            let slot = dirty[i];
            assert(dflags[slot.0 as int]);
            assert(slot_flushable(self.screen, ints, slot.0 as int));
            let ops = self.screen.deps.ops_for(slot);
            let ghost before = renderer.calls();
            let mut j: usize = 0;
            while j < ops.len()
                invariant
                    self.screen == old(self).screen,
                    self.slots.values() == ints,
                    slot_flushable(self.screen, ints, slot.0 as int),
                    ops@ == dep_ops(self.screen.deps, slot.0 as int),
                    j <= ops@.len(),
                    renderer.calls() == before + slot_flush_calls(self.screen, ints, slot.0 as int).take(j as int),
                    renderer.handles_made() == old(renderer).handles_made(),
                decreases ops@.len() - j,
            {
                let op_idx = ops[j];
                assert(dep_ops(self.screen.deps, slot.0 as int)[j as int] == op_idx);
                let op = &self.screen.update_ops[op_idx as usize];
                let value = self.eval_update_op(op);
                renderer.set_prop(op.node, op.key, value);
                j = j + 1;
                assert(renderer.calls() =~= before + slot_flush_calls(self.screen, ints, slot.0 as int).take(j as int));
            }
            assert(slot_flush_calls(self.screen, ints, slot.0 as int).take(j as int) =~= slot_flush_calls(self.screen, ints, slot.0 as int));
            assert(dirty@.take(i + 1).drop_last() =~= dirty@.take(i as int));
            i = i + 1;
            assert(renderer.calls() =~= start + flush_calls(self.screen, ints, dirty@.take(i as int)));
        }
        assert(dirty@.take(i as int) =~= dirty@);
        renderer.commit();
    }

    /// Creates every node, sets the static props, applies every update
    /// operation and commits.
    pub fn mount(&self, renderer: &mut MockRenderer)
        requires
            old(renderer).handles_made() + self.screen.nodes@.len() <= u32::MAX,
            all_ops_ok(self.screen, self.slots.values()),
        ensures
            final(renderer).calls() == old(renderer).calls() + mount_calls(self.screen, self.slots.values()),
            final(renderer).handles_made() == old(renderer).handles_made() + self.screen.nodes@.len(),
    {
        let ghost ints = self.slots.values();
        let ghost start = renderer.calls();
        let nodes = &self.screen.nodes;
        let mut i: usize = 0;
        while i < nodes.len()
            invariant
                i <= nodes@.len(),
                renderer.handles_made() == old(renderer).handles_made() + i,
                old(renderer).handles_made() + nodes@.len() <= u32::MAX,
                renderer.calls() == start + nodes@.take(i as int).map_values(
                    |n: crate::ir::NodeIr| RenderCall::<Seq<char>>::Create { kind: n.kind },
                ),
            decreases nodes@.len() - i,
        {
            renderer.create(nodes[i].kind, crate::ir::NodeId(0));
            i = i + 1;
            assert(renderer.calls() =~= start + nodes@.take(i as int).map_values(
                |n: crate::ir::NodeIr| RenderCall::<Seq<char>>::Create { kind: n.kind },
            ));
        }
        assert(nodes@.take(i as int) =~= nodes@);
        let ghost after_nodes = renderer.calls();
        let props = &self.screen.static_props;
        let mut j: usize = 0;
        while j < props.len()
            invariant
                j <= props@.len(),
                renderer.handles_made() == old(renderer).handles_made() + nodes@.len(),
                renderer.calls() == after_nodes + props@.take(j as int).map_values(|p: StaticProp| static_call(p)),
            decreases props@.len() - j,
        {
            let prop = &props[j];
            let text: String = match &prop.value {
                IrExpr::Str(s) => s.clone(),
                IrExpr::Int(v) => i64_to_string(*v),
                _ => String::new(),
            };
            assert(text@ == static_text(prop.value));
            renderer.set_prop(prop.node, prop.key, PropValue::Str(text));
            j = j + 1;
            assert(renderer.calls() =~= after_nodes + props@.take(j as int).map_values(|p: StaticProp| static_call(p)));
        }
        assert(props@.take(j as int) =~= props@);
        let ghost after_props = renderer.calls();
        let ops = &self.screen.update_ops;
        let mut k: usize = 0;
        while k < ops.len()
            invariant
                k <= ops@.len(),
                ops@ == self.screen.update_ops@,
                all_ops_ok(self.screen, ints),
                ints == self.slots.values(),
                renderer.handles_made() == old(renderer).handles_made() + nodes@.len(),
                renderer.calls() == after_props + ops@.take(k as int).map_values(
                    |op: UpdateOp| op_call(self.screen.exprs@, op, ints),
                ),
            decreases ops@.len() - k,
        {
            assert(op_ok(self.screen.exprs@, ops@[k as int], ints));
            let value = self.eval_update_op(&ops[k]);
            renderer.set_prop(ops[k].node, ops[k].key, value);
            k = k + 1;
            assert(renderer.calls() =~= after_props + ops@.take(k as int).map_values(
                |op: UpdateOp| op_call(self.screen.exprs@, op, ints),
            ));
        }
        assert(ops@.take(k as int) =~= ops@);
        renderer.commit();
        assert(renderer.calls() =~= start + mount_calls(self.screen, ints));
    }
}

/// A statement that runs with two fuels ends in the same state with both.
proof fn lemma_run_body_fuel(st: SlotState, actions: Seq<CompiledAction>, body: HandlerBody, f: nat, g: nat)
    requires
        run_body(st, actions, body, f) is Some,
        run_body(st, actions, body, g) is Some,
    ensures
        run_body(st, actions, body, f) == run_body(st, actions, body, g),
    decreases f, body, 0int,
{
    match body {
        HandlerBody::InvokeAction(idx) => {
            if idx < actions.len() {
                lemma_run_seq_fuel(st, actions, actions[idx as int].body@, (f - 1) as nat, (g - 1) as nat, 0);
            }
        },
        HandlerBody::Sequence(ops) => {
            assert(decreases_to!(body => body->Sequence_0));
            lemma_run_seq_fuel(st, actions, ops@, f, g, 0);
        },
        _ => {},
    }
}

proof fn lemma_run_seq_fuel(st: SlotState, actions: Seq<CompiledAction>, ops: Seq<HandlerBody>, f: nat, g: nat, i: int)
    requires
        run_seq(st, actions, ops, f, i) is Some,
        run_seq(st, actions, ops, g, i) is Some,
    ensures
        run_seq(st, actions, ops, f, i) == run_seq(st, actions, ops, g, i),
    decreases f, ops, ops.len() - i,
{
    if 0 <= i < ops.len() {
        lemma_run_body_fuel(st, actions, ops[i], f, g);
        let st2 = run_body(st, actions, ops[i], f)->0;
        lemma_run_seq_fuel(st2, actions, ops, f, g, i + 1);
    }
}

/// Runs statement `body` on a copy of the slot values and dirty flags, with
/// at most `fuel` nested action calls; tells whether it ran.
fn dry_run_body(vals: &mut Vec<i64>, flags: &mut Vec<bool>, actions: &Vec<CompiledAction>, body: &HandlerBody, fuel: u64) -> (ok: bool)
    requires
        old(vals)@.len() == old(flags)@.len(),
    ensures
        ok == run_body((old(vals)@, old(flags)@), actions@, *body, fuel as nat) is Some,
        ok ==> (final(vals)@, final(flags)@) == run_body((old(vals)@, old(flags)@), actions@, *body, fuel as nat)->0,
        final(vals)@.len() == final(flags)@.len(),
    decreases fuel, *body, 0int,
{
    match body {
        HandlerBody::Increment(s) => {
            let i = s.0 as usize;
            if i < vals.len() && vals[i] < i64::MAX {
                let v = vals[i] + 1;
                vals.set(i, v);
                flags.set(i, true);
                true
            } else {
                false
            }
        },
        HandlerBody::Decrement(s) => {
            let i = s.0 as usize;
            if i < vals.len() && vals[i] > i64::MIN {
                let v = vals[i] - 1;
                vals.set(i, v);
                flags.set(i, true);
                true
            } else {
                false
            }
        },
        HandlerBody::Assign { slot, value, .. } => {
            if let IrExpr::Int(v) = value {
                let i = slot.0 as usize;
                if i < vals.len() {
                    if vals[i] != *v {
                        vals.set(i, *v);
                        flags.set(i, true);
                    }
                    true
                } else {
                    false
                }
            } else {
                true
            }
        },
        HandlerBody::InvokeAction(idx) => {
            if (*idx as usize) < actions.len() {
                if fuel == 0 {
                    false
                } else {
                    dry_run_seq(vals, flags, actions, &actions[*idx as usize].body, fuel - 1)
                }
            } else {
                true
            }
        },
        HandlerBody::Sequence(ops) => {
            proof {
                assert(decreases_to!(*body => (*body)->Sequence_0));
            }
            dry_run_seq(vals, flags, actions, ops, fuel)
        },
    }
}

/// Runs the statements `ops` one after another on a copy, as `dry_run_body`.
fn dry_run_seq(vals: &mut Vec<i64>, flags: &mut Vec<bool>, actions: &Vec<CompiledAction>, ops: &Vec<HandlerBody>, fuel: u64) -> (ok: bool)
    requires
        old(vals)@.len() == old(flags)@.len(),
    ensures
        ok == run_seq((old(vals)@, old(flags)@), actions@, ops@, fuel as nat, 0) is Some,
        ok ==> (final(vals)@, final(flags)@) == run_seq((old(vals)@, old(flags)@), actions@, ops@, fuel as nat, 0)->0,
        final(vals)@.len() == final(flags)@.len(),
    decreases fuel, ops@, 1int,
{
    let ghost st0 = (vals@, flags@);
    let mut i: usize = 0;
    while i < ops.len()
        invariant
            st0 == (old(vals)@, old(flags)@),
            vals@.len() == flags@.len(),
            i <= ops@.len(),
            run_seq(st0, actions@, ops@, fuel as nat, 0) == run_seq((vals@, flags@), actions@, ops@, fuel as nat, i as int),
        decreases ops@.len() - i,
    {
        proof {
            assert(decreases_to!(ops@ => ops@[i as int]));
        }
        let ghost before = (vals@, flags@);
        let ok = dry_run_body(vals, flags, actions, &ops[i], fuel);
        if !ok {
            assert(run_seq(before, actions@, ops@, fuel as nat, i as int) is None);
            return false;
        }
        i = i + 1;
    }
    true
}

/// Whether expression `e` evaluates on the slot values `vals`.
fn expr_checks(e: &IrExpr, vals: &Vec<i64>) -> (r: bool)
    ensures
        r == expr_ok(*e, vals@),
    decreases *e, 0int,
{
    match e {
        IrExpr::Slot(s) => (s.0 as usize) < vals.len(),
        IrExpr::Add(s, v) => {
            let i = s.0 as usize;
            if i < vals.len() {
                let x = vals[i];
                (*v >= 0 && x <= i64::MAX - *v) || (*v < 0 && x >= i64::MIN - *v)
            } else {
                false
            }
        },
        IrExpr::Concat(xs) => {
            let mut i: usize = xs.len();
            let mut ok = true;
            while i > 0
                invariant
                    *e == IrExpr::Concat(*xs),
                    i <= xs@.len(),
                    ok == parts_ok(xs@, vals@, i as int),
                decreases i,
            {
                proof {
                    assert(decreases_to!(*e => (*e)->Concat_0));
                    assert(decreases_to!(*xs => xs@));
                    assert(decreases_to!(xs@ => xs@[i - 1]));
                }
                let here = expr_checks(&xs[i - 1], vals);
                ok = here && ok;
                i = i - 1;
            }
            ok
        },
        _ => true,
    }
}

/// Whether the table lists operations for slot `s`, all of which exist and
/// evaluate on the slot values `vals`.
fn slot_flushable_check(screen: &ScreenIr, vals: &Vec<i64>, s: usize) -> (r: bool)
    ensures
        r == slot_flushable(*screen, vals@, s as int),
{
    let t = &screen.deps;
    if s >= t.offsets.len() || t.offsets.len() - s < 2 {
        return false;
    }
    let lo = t.offsets[s] as usize;
    let hi = t.offsets[s + 1] as usize;
    if !(lo <= hi && hi <= t.ops.len()) {
        return false;
    }
    let ghost want = dep_ops(*t, s as int);
    assert(want =~= t.ops@.subrange(lo as int, hi as int));
    let mut k: usize = lo;
    while k < hi
        invariant
            lo <= k <= hi <= t.ops@.len(),
            want == t.ops@.subrange(lo as int, hi as int),
            want == dep_ops(screen.deps, s as int),
            *t == screen.deps,
            forall|j: int| 0 <= j < k - lo ==> #[trigger] want[j] < screen.update_ops@.len() && op_ok(
                screen.exprs@,
                screen.update_ops@[want[j] as int],
                vals@,
            ),
        decreases hi - k,
    {
        let o = t.ops[k] as usize;
        assert(want[k - lo] == t.ops@[k as int]);
        if o >= screen.update_ops.len() {
            return false;
        }
        let op = &screen.update_ops[o];
        let e = op.expr.0 as usize;
        if e < screen.exprs.len() {
            if !expr_checks(&screen.exprs[e], vals) {
                assert(!op_ok(screen.exprs@, screen.update_ops@[want[k - lo] as int], vals@));
                return false;
            }
        }
        k = k + 1;
    }
    true
}

impl ReactiveEngine {
    /// Whether handler `handler_id` exists, runs to its end (its action calls
    /// nested no deeper than the screen has actions) and leaves dirty only
    /// slots whose operations evaluate; where this holds, `fire_handler`
    /// followed by `flush` cannot fail.
    pub fn handler_checks(&self, handler_id: HandlerId) -> (r: bool)
        requires
            self.slots.wf(),
        ensures
            r ==> handler_index(self.screen.handlers@, handler_id) is Some && body_runs(
                store_state(self.slots),
                self.screen.actions@,
                self.screen.handlers@[handler_index(self.screen.handlers@, handler_id)->0].body,
            ) && ({
                let after = body_outcome(
                    store_state(self.slots),
                    self.screen.actions@,
                    self.screen.handlers@[handler_index(self.screen.handlers@, handler_id)->0].body,
                );
                forall|s: int| 0 <= s < after.0.len() && #[trigger] after.1[s] ==> slot_flushable(self.screen, after.0, s)
            }),
    {
        let ghost handlers = self.screen.handlers@;
        proof {
            lemma_handler_index_bounds(handlers, handler_id);
        }
        let mut i: usize = 0;
        while i < self.screen.handlers.len()
            invariant
                i <= handlers.len(),
                handlers == self.screen.handlers@,
                forall|k: int| 0 <= k < i ==> handlers[k].id != handler_id,
            ensures
                i <= handlers.len(),
                forall|k: int| 0 <= k < i ==> handlers[k].id != handler_id,
                i < handlers.len() ==> handlers[i as int].id == handler_id,
            decreases handlers.len() - i,
        {
            if self.screen.handlers[i].id.0 == handler_id.0 {
                break;
            }
            i = i + 1;
        }
        if i >= self.screen.handlers.len() {
            return false;
        }
        proof {
            match handler_index(handlers, handler_id) {
                Some(p) => {
                    if p < i {
                        assert(handlers[p].id != handler_id);
                    }
                    if p > i {
                        assert(handlers[i as int].id != handler_id);
                    }
                },
                None => {
                    assert(handlers[i as int].id != handler_id);
                },
            }
        }
        let (mut vals, mut flags) = self.slots.snapshot();
        let fuel: u64 = if (self.screen.actions.len() as u64) < u64::MAX {
            self.screen.actions.len() as u64 + 1
        } else {
            u64::MAX
        };
        let ghost st = store_state(self.slots);
        let ghost body = handlers[i as int].body;
        if !dry_run_body(&mut vals, &mut flags, &self.screen.actions, &self.screen.handlers[i].body, fuel) {
            return false;
        }
        proof {
            let f = choose|f: nat| #[trigger] run_body(st, self.screen.actions@, body, f) is Some;
            assert(run_body(st, self.screen.actions@, body, fuel as nat) is Some);
            lemma_run_body_fuel(st, self.screen.actions@, body, f, fuel as nat);
            assert(body_outcome(st, self.screen.actions@, body) == (vals@, flags@));
        }
        let mut s: usize = 0;
        while s < flags.len()
            invariant
                s <= flags@.len(),
                flags@.len() == vals@.len(),
                forall|j: int| 0 <= j < s && #[trigger] flags@[j] ==> slot_flushable(self.screen, vals@, j),
            decreases flags@.len() - s,
        {
            if flags[s] {
                if !slot_flushable_check(&self.screen, &vals, s) {
                    return false;
                }
            }
            s = s + 1;
        }
        true
    }
}

proof fn lemma_handler_index_bounds(handlers: Seq<HandlerIr>, id: HandlerId)
    ensures
        match handler_index(handlers, id) {
            Some(p) => 0 <= p < handlers.len() && handlers[p].id == id && forall|k: int|
                0 <= k < p ==> handlers[k].id != id,
            None => forall|k: int| 0 <= k < handlers.len() ==> handlers[k].id != id,
        },
    decreases handlers.len(),
{
    if handlers.len() > 0 {
        let init = handlers.drop_last();
        lemma_handler_index_bounds(init, id);
        assert forall|k: int| 0 <= k < init.len() implies #[trigger] init[k] == handlers[k] by {}
        match handler_index(init, id) {
            Some(p) => {
                assert(init[p] == handlers[p]);
                assert forall|k: int| 0 <= k < p implies handlers[k].id != id by {
                    assert(init[k] == handlers[k]);
                }
            },
            None => {
                assert forall|k: int| 0 <= k < handlers.len() - 1 implies handlers[k].id != id by {
                    assert(init[k] == handlers[k]);
                }
            },
        }
    }
}

} // verus!

verus! {

/// Update operation `op` reads slot `s`.
pub open spec fn op_reads(op: UpdateOp, s: int) -> bool {
    crate::ir::count_slot(op.reads@, s) > 0
}

proof fn lemma_slot_calls_readers(screen: ScreenIr, ints: Seq<i64>, s: int, n: int)
    requires
        crate::ir::dep_table_of(screen.deps, n, screen.update_ops@),
        screen.update_ops@.len() <= u32::MAX,
        0 <= s < n,
    ensures
        forall|i: int|
            0 <= i < slot_flush_calls(screen, ints, s).len() ==> exists|k: int|
                0 <= k < screen.update_ops@.len() && op_reads(screen.update_ops@[k], s)
                    && #[trigger] slot_flush_calls(screen, ints, s)[i] == op_call(
                    screen.exprs@,
                    screen.update_ops@[k],
                    ints,
                ),
        forall|k: int|
            0 <= k < screen.update_ops@.len() && op_reads(screen.update_ops@[k], s) ==> #[trigger] slot_flush_calls(
                screen,
                ints,
                s,
            ).contains(op_call(screen.exprs@, screen.update_ops@[k], ints)),
{
    let ops = screen.update_ops@;
    let listed = crate::ir::ops_reading(ops, s);
    assert(s + 1 <= n);
    assert(dep_ops(screen.deps, s) == listed);
    let calls = slot_flush_calls(screen, ints, s);
    assert forall|i: int| 0 <= i < calls.len() implies exists|k: int|
        0 <= k < ops.len() && op_reads(ops[k], s) && #[trigger] calls[i] == op_call(screen.exprs@, ops[k], ints) by {
        let k = listed[i] as int;
        crate::ir::lemma_ops_reading_exact(ops, s, k);
        assert(listed.contains(k as u32));
    }
    assert forall|k: int| 0 <= k < ops.len() && op_reads(ops[k], s) implies #[trigger] calls.contains(
        op_call(screen.exprs@, ops[k], ints),
    ) by {
        crate::ir::lemma_ops_reading_exact(ops, s, k);
        let i = choose|i: int| 0 <= i < listed.len() && listed[i] == k as u32;
        assert(calls[i] == op_call(screen.exprs@, ops[k], ints));
    }
}

proof fn lemma_flush_call_origin(screen: ScreenIr, ints: Seq<i64>, dirty: Seq<crate::ir::SlotId>, n: int, i: int)
    requires
        crate::ir::dep_table_of(screen.deps, n, screen.update_ops@),
        screen.update_ops@.len() <= u32::MAX,
        dirty.len() > 0,
        forall|a: int| 0 <= a < dirty.len() ==> 0 <= #[trigger] dirty[a].0 < n,
        calls_from_readers(screen, ints, dirty.drop_last()),
        0 <= i < flush_calls(screen, ints, dirty).len(),
    ensures
        applies_reader(screen, ints, dirty, flush_calls(screen, ints, dirty)[i]),
{
    let init = dirty.drop_last();
    let last = dirty.last().0 as int;
    assert(0 <= last < n);
    lemma_slot_calls_readers(screen, ints, last, n);
    let head = flush_calls(screen, ints, init);
    let tail = slot_flush_calls(screen, ints, last);
    let all = flush_calls(screen, ints, dirty);
    assert(all == head + tail);
    let ops = screen.update_ops@;
    if i < head.len() {
        assert(all[i] == head[i]);
        let (a, k) = choose|a: int, k: int|
            0 <= a < init.len() && 0 <= k < ops.len() && op_reads(ops[k], init[a].0 as int)
                && #[trigger] head[i] == op_call(screen.exprs@, ops[k], ints);
        assert(init[a] == dirty[a]);
        assert(0 <= a < dirty.len() && 0 <= k < ops.len() && op_reads(ops[k], dirty[a].0 as int)
            && all[i] == op_call(screen.exprs@, ops[k], ints));
    } else {
        assert(all[i] == tail[i - head.len()]);
        let k = choose|k: int|
            0 <= k < ops.len() && op_reads(ops[k], last) && #[trigger] tail[i - head.len()] == op_call(
                screen.exprs@,
                ops[k],
                ints,
            );
        let a = dirty.len() - 1;
        assert(0 <= a < dirty.len() && 0 <= k < ops.len() && op_reads(ops[k], dirty[a].0 as int)
            && all[i] == op_call(screen.exprs@, ops[k], ints));
    }
}

/// Call `c` applies an update operation that reads one of the `dirty` slots.
pub open spec fn applies_reader(screen: ScreenIr, ints: Seq<i64>, dirty: Seq<crate::ir::SlotId>, c: RenderCall<Seq<char>>) -> bool {
    exists|a: int, k: int|
        0 <= a < dirty.len() && 0 <= k < screen.update_ops@.len() && op_reads(
            screen.update_ops@[k],
            dirty[a].0 as int,
        ) && c == op_call(screen.exprs@, screen.update_ops@[k], ints)
}

spec fn calls_from_readers(screen: ScreenIr, ints: Seq<i64>, dirty: Seq<crate::ir::SlotId>) -> bool {
    forall|i: int|
        0 <= i < flush_calls(screen, ints, dirty).len() ==> applies_reader(
            screen,
            ints,
            dirty,
            #[trigger] flush_calls(screen, ints, dirty)[i],
        )
}

spec fn readers_all_called(screen: ScreenIr, ints: Seq<i64>, dirty: Seq<crate::ir::SlotId>) -> bool {
    forall|a: int, k: int|
        0 <= a < dirty.len() && 0 <= k < screen.update_ops@.len() && op_reads(
            screen.update_ops@[k],
            #[trigger] dirty[a].0 as int,
        ) ==> flush_calls(screen, ints, dirty).contains(
            op_call(screen.exprs@, #[trigger] screen.update_ops@[k], ints),
        )
}

proof fn lemma_calls_from_readers(screen: ScreenIr, ints: Seq<i64>, dirty: Seq<crate::ir::SlotId>, n: int)
    requires
        crate::ir::dep_table_of(screen.deps, n, screen.update_ops@),
        screen.update_ops@.len() <= u32::MAX,
        forall|a: int| 0 <= a < dirty.len() ==> 0 <= #[trigger] dirty[a].0 < n,
    ensures
        calls_from_readers(screen, ints, dirty),
    decreases dirty.len(),
{
    if dirty.len() > 0 {
        let init = dirty.drop_last();
        assert forall|a: int| 0 <= a < init.len() implies 0 <= #[trigger] init[a].0 < n by {
            assert(init[a] == dirty[a]);
        }
        lemma_calls_from_readers(screen, ints, init, n);
        assert forall|i: int| 0 <= i < flush_calls(screen, ints, dirty).len() implies applies_reader(
            screen,
            ints,
            dirty,
            #[trigger] flush_calls(screen, ints, dirty)[i],
        ) by {
            lemma_flush_call_origin(screen, ints, dirty, n, i);
        }
    } else {
        assert(flush_calls(screen, ints, dirty).len() == 0);
    }
}

proof fn lemma_readers_all_called(screen: ScreenIr, ints: Seq<i64>, dirty: Seq<crate::ir::SlotId>, n: int)
    requires
        crate::ir::dep_table_of(screen.deps, n, screen.update_ops@),
        screen.update_ops@.len() <= u32::MAX,
        forall|a: int| 0 <= a < dirty.len() ==> 0 <= #[trigger] dirty[a].0 < n,
    ensures
        readers_all_called(screen, ints, dirty),
    decreases dirty.len(),
{
    if dirty.len() > 0 {
        let init = dirty.drop_last();
        let last = dirty.last().0 as int;
        assert forall|a: int| 0 <= a < init.len() implies 0 <= #[trigger] init[a].0 < n by {
            assert(init[a] == dirty[a]);
        }
        lemma_readers_all_called(screen, ints, init, n);
        lemma_slot_calls_readers(screen, ints, last, n);
        let head = flush_calls(screen, ints, init);
        let tail = slot_flush_calls(screen, ints, last);
        let all = flush_calls(screen, ints, dirty);
        assert(all == head + tail);
        let ops = screen.update_ops@;
        assert forall|a: int, k: int|
            0 <= a < dirty.len() && 0 <= k < ops.len() && op_reads(ops[k], #[trigger] dirty[a].0 as int)
                implies all.contains(op_call(screen.exprs@, #[trigger] ops[k], ints)) by {
            let c = op_call(screen.exprs@, ops[k], ints);
            if a < init.len() {
                assert(init[a] == dirty[a]);
                assert(head.contains(c));
                let i = choose|i: int| 0 <= i < head.len() && head[i] == c;
                assert(all[i] == c);
            } else {
                assert(tail.contains(c));
                let i = choose|i: int| 0 <= i < tail.len() && tail[i] == c;
                assert(all[head.len() + i] == c);
            }
        }
    }
}

/// Fine-grained updates: where the dependency table was built from the
/// screen's update operations, a flush applies exactly the operations that
/// read a dirty slot. Every call it makes applies such an operation, and every
/// such operation is applied.
pub proof fn lemma_flush_applies_exactly_readers(screen: ScreenIr, ints: Seq<i64>, dirty: Seq<crate::ir::SlotId>, n: int)
    requires
        crate::ir::dep_table_of(screen.deps, n, screen.update_ops@),
        screen.update_ops@.len() <= u32::MAX,
        forall|a: int| 0 <= a < dirty.len() ==> 0 <= #[trigger] dirty[a].0 < n,
    ensures
        forall|i: int|
            0 <= i < flush_calls(screen, ints, dirty).len() ==> applies_reader(
                screen,
                ints,
                dirty,
                #[trigger] flush_calls(screen, ints, dirty)[i],
            ),
        forall|a: int, k: int|
            0 <= a < dirty.len() && 0 <= k < screen.update_ops@.len() && op_reads(
                screen.update_ops@[k],
                #[trigger] dirty[a].0 as int,
            ) ==> flush_calls(screen, ints, dirty).contains(
                op_call(screen.exprs@, #[trigger] screen.update_ops@[k], ints),
            ),
{
    lemma_calls_from_readers(screen, ints, dirty, n);
    lemma_readers_all_called(screen, ints, dirty, n);
}

} // verus!

verus! {

impl ReactiveEngine {
    /// Writes every static prop and every update operation to the live tree,
    /// then commits.
    pub fn write_props_live(&self, renderer: &mut LiveRenderer)
        requires
            old(renderer).wf(),
            all_ops_ok(self.screen, self.slots.values()),
        ensures
            final(renderer).wf(),
            final(renderer).state() == live_apply_all(old(renderer).state(), props_calls(self.screen, self.slots.values())),
    {
        let ghost ints = self.slots.values();
        let ghost start = renderer.state();
        let ghost statics = self.screen.static_props@.map_values(|p: StaticProp| static_call(p));
        let ghost updates = self.screen.update_ops@.map_values(|op: UpdateOp| op_call(self.screen.exprs@, op, ints));
        let props = &self.screen.static_props;
        let mut j: usize = 0;
        while j < props.len()
            invariant
                j <= props@.len(),
                renderer.wf(),
                props@ == self.screen.static_props@,
                statics == self.screen.static_props@.map_values(|p: StaticProp| static_call(p)),
                statics.len() == props@.len(),
                renderer.state() == live_apply_all(start, statics.take(j as int)),
            decreases props@.len() - j,
        {
            let prop = &props[j];
            let text: String = match &prop.value {
                IrExpr::Str(s) => s.clone(),
                IrExpr::Int(v) => i64_to_string(*v),
                _ => String::new(),
            };
            assert(text@ == static_text(prop.value));
            renderer.set_prop(prop.node, prop.key, PropValue::Str(text));
            assert(statics[j as int] == static_call(props@[j as int]));
            assert(statics.take(j + 1).drop_last() =~= statics.take(j as int));
            j = j + 1;
        }
        assert(statics.take(j as int) =~= statics);
        let ops = &self.screen.update_ops;
        let mut k: usize = 0;
        while k < ops.len()
            invariant
                k <= ops@.len(),
                ops@ == self.screen.update_ops@,
                renderer.wf(),
                all_ops_ok(self.screen, ints),
                ints == self.slots.values(),
                updates == self.screen.update_ops@.map_values(|op: UpdateOp| op_call(self.screen.exprs@, op, ints)),
                updates.len() == ops@.len(),
                renderer.state() == live_apply_all(start, statics + updates.take(k as int)),
            decreases ops@.len() - k,
        {
            assert(op_ok(self.screen.exprs@, ops@[k as int], ints));
            let value = self.eval_update_op(&ops[k]);
            renderer.set_prop(ops[k].node, ops[k].key, value);
            assert(updates[k as int] == op_call(self.screen.exprs@, ops@[k as int], ints));
            assert((statics + updates.take(k + 1)).drop_last() =~= statics + updates.take(k as int));
            k = k + 1;
        }
        assert(updates.take(k as int) =~= updates);
        renderer.commit();
        proof {
            let all = props_calls(self.screen, ints);
            assert(all =~= (statics + updates).push(RenderCall::<Seq<char>>::Commit));
            assert(all.drop_last() =~= statics + updates);
        }
    }

    /// Builds the live tree for the screen: every node, then its props.
    pub fn mount_live(&self, renderer: &mut LiveRenderer)
        requires
            old(renderer).wf(),
            all_ops_ok(self.screen, self.slots.values()),
        ensures
            final(renderer).wf(),
            final(renderer).state() == live_apply_all(old(renderer).state(), mount_calls(self.screen, self.slots.values())),
    {
        let ghost start = renderer.state();
        let ghost creates = create_calls(self.screen);
        let nodes = &self.screen.nodes;
        let mut i: usize = 0;
        while i < nodes.len()
            invariant
                i <= nodes@.len(),
                renderer.wf(),
                creates == create_calls(self.screen),
                nodes@ == self.screen.nodes@,
                renderer.state() == live_apply_all(start, creates.take(i as int)),
            decreases nodes@.len() - i,
        {
            renderer.create(nodes[i].kind, crate::ir::NodeId(0));
            assert(creates.take(i + 1).drop_last() =~= creates.take(i as int));
            i = i + 1;
        }
        assert(creates.take(i as int) =~= creates);
        self.write_props_live(renderer);
        proof {
            lemma_live_apply_all_append(start, creates, props_calls(self.screen, self.slots.values()));
        }
    }

    /// The live-tree counterpart of `flush`.
    pub fn flush_live(&mut self, renderer: &mut LiveRenderer)
        requires
            old(self).slots.wf(),
            old(renderer).wf(),
            forall|s: int|
                0 <= s < old(self).slots.values().len() && #[trigger] old(self).slots.dirty_flags()[s]
                    ==> slot_flushable(old(self).screen, old(self).slots.values(), s),
        ensures
            final(self).screen == old(self).screen,
            final(self).slots.wf(),
            final(self).slots.values() == old(self).slots.values(),
            final(self).slots.dirty_flags() == no_dirty(old(self).slots.values().len()),
            final(self).slots.string_values() == old(self).slots.string_values(),
            final(self).slots.bool_values() == old(self).slots.bool_values(),
            final(renderer).wf(),
            final(renderer).state() == live_apply_all(
                old(renderer).state(),
                flush_calls(old(self).screen, old(self).slots.values(), dirty_slots(old(self).slots.dirty_flags())),
            ),
    {
        let ghost dflags = self.slots.dirty_flags();
        let ghost ints = self.slots.values();
        proof {
            crate::runtime::state::lemma_dirty_slots_exact(dflags);
        }
        let dirty = self.slots.drain_dirty();
        let ghost start = renderer.state();
        let mut i: usize = 0;
        while i < dirty.len()
            invariant
                self.screen == old(self).screen,
                self.slots.values() == ints,
                renderer.wf(),
                ints.len() == dflags.len(),
                dirty@ == dirty_slots(dflags),
                forall|s: int| 0 <= s < ints.len() && #[trigger] dflags[s] ==> slot_flushable(self.screen, ints, s),
                forall|a: int|
                    0 <= a < dirty@.len() ==> dirty@[a].0 < dflags.len() && dflags[dirty@[a].0 as int],
                i <= dirty@.len(),
                renderer.state() == live_apply_all(start, flush_calls(self.screen, ints, dirty@.take(i as int))),
            decreases dirty@.len() - i,
        {
            let slot = dirty[i];
            assert(dflags[slot.0 as int]);
            assert(slot_flushable(self.screen, ints, slot.0 as int));
            let ops = self.screen.deps.ops_for(slot);
            let ghost before = flush_calls(self.screen, ints, dirty@.take(i as int));
            let ghost slot_calls = slot_flush_calls(self.screen, ints, slot.0 as int);
            let mut j: usize = 0;
            while j < ops.len()
                invariant
                    self.screen == old(self).screen,
                    self.slots.values() == ints,
                    renderer.wf(),
                    slot_flushable(self.screen, ints, slot.0 as int),
                    ops@ == dep_ops(self.screen.deps, slot.0 as int),
                    slot_calls == slot_flush_calls(self.screen, ints, slot.0 as int),
                    j <= ops@.len(),
                    renderer.state() == live_apply_all(start, before + slot_calls.take(j as int)),
                decreases ops@.len() - j,
            {
                let op_idx = ops[j];
                assert(dep_ops(self.screen.deps, slot.0 as int)[j as int] == op_idx);
                let op = &self.screen.update_ops[op_idx as usize];
                let value = self.eval_update_op(op);
                renderer.set_prop(op.node, op.key, value);
                assert((before + slot_calls.take(j + 1)).drop_last() =~= before + slot_calls.take(j as int));
                j = j + 1;
            }
            assert(slot_calls.take(j as int) =~= slot_calls);
            assert(dirty@.take(i + 1).drop_last() =~= dirty@.take(i as int));
            i = i + 1;
        }
        assert(dirty@.take(i as int) =~= dirty@);
        renderer.commit();
    }
}

/// Applying two call sequences one after the other is applying their
/// concatenation.
pub proof fn lemma_live_apply_all_append(st: LiveState, a: Seq<RenderCall<Seq<char>>>, b: Seq<RenderCall<Seq<char>>>)
    ensures
        live_apply_all(st, a + b) == live_apply_all(live_apply_all(st, a), b),
    decreases b.len(),
{
    if b.len() > 0 {
        lemma_live_apply_all_append(st, a, b.drop_last());
        assert((a + b).drop_last() =~= a + b.drop_last());
    } else {
        assert(a + b =~= a);
    }
}

} // verus!
