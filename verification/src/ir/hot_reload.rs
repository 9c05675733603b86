//! Hot reload: compare two compilations of a screen and decide whether the
//! running UI can be patched in place or must be remounted.

use vstd::prelude::*;
use crate::ir::{IrExpr, NodeId, NodeIr, PropKey, ScreenIr, SlotDef, StaticProp};
use crate::num::{f64_bits_is_nan, f64_is_nan};
use crate::span::Symbol;

verus! {

/// What a recompile asks of the running screen.
#[derive(Clone, Copy, Debug, PartialEq, Eq, Structural)]
pub enum HotReloadPlan {
    /// Tree shape unchanged: patch props only, keep slot values.
    PropsOnly,
    /// Node tree or handlers changed: remount, keeping slots by name.
    Remount { reason: RemountReason },
}

#[derive(Clone, Copy, Debug, PartialEq, Eq, Structural)]
pub enum RemountReason {
    NodeCountChanged,
    NodeKindChanged,
    ChildrenChanged,
    SlotCountChanged,
    HandlerCountChanged,
}

/// Two nodes have the same place in the tree: same kind, parent and children.
pub open spec fn same_node(a: NodeIr, b: NodeIr) -> bool {
    a.kind == b.kind && a.parent == b.parent && a.children@ == b.children@
}

pub open spec fn same_node_tree_spec(old: Seq<NodeIr>, new: Seq<NodeIr>) -> bool {
    old.len() == new.len() && forall|i: int| 0 <= i < old.len() ==> #[trigger] same_node(old[i], new[i])
}

/// A hot reload patches props in place only when nothing the mounted tree is
/// wired to has changed: the plan is `PropsOnly` exactly when the two screens
/// have as many slots, as many handlers, and node tables of one length with
/// the same kind, parent and children at every position. Otherwise the
/// screen is remounted; with as many slots on both sides, a change in the
/// number of handlers is the reason given, and a change in the number of
/// slots is always the reason when it happens.
pub proof fn law_hot_reload_plan(old: ScreenIr, new: ScreenIr)
    ensures
        (hot_reload_plan(old, new) == HotReloadPlan::PropsOnly) <==> {
            &&& old.slots@.len() == new.slots@.len()
            &&& old.handlers@.len() == new.handlers@.len()
            &&& old.nodes@.len() == new.nodes@.len()
            &&& forall|i: int| 0 <= i < old.nodes@.len() ==> {
                &&& (#[trigger] old.nodes@[i]).kind == new.nodes@[i].kind
                &&& old.nodes@[i].parent == new.nodes@[i].parent
                &&& old.nodes@[i].children@ == new.nodes@[i].children@
            }
        },
        old.slots@.len() != new.slots@.len() ==> hot_reload_plan(old, new) == (HotReloadPlan::Remount {
            reason: RemountReason::SlotCountChanged,
        }),
        old.slots@.len() == new.slots@.len() && old.handlers@.len() != new.handlers@.len() ==> hot_reload_plan(old, new)
            == (HotReloadPlan::Remount { reason: RemountReason::HandlerCountChanged }),
{
    if old.slots@.len() == new.slots@.len() && old.handlers@.len() == new.handlers@.len() && old.nodes@.len() == new.nodes@.len() {
        if forall|i: int| 0 <= i < old.nodes@.len() ==> {
            &&& (#[trigger] old.nodes@[i]).kind == new.nodes@[i].kind
            &&& old.nodes@[i].parent == new.nodes@[i].parent
            &&& old.nodes@[i].children@ == new.nodes@[i].children@
        } {
            assert(same_node_tree_spec(old.nodes@, new.nodes@));
        } else {
            let i = choose|i: int| 0 <= i < old.nodes@.len() && !({
                &&& (#[trigger] old.nodes@[i]).kind == new.nodes@[i].kind
                &&& old.nodes@[i].parent == new.nodes@[i].parent
                &&& old.nodes@[i].children@ == new.nodes@[i].children@
            });
            assert(!same_node(old.nodes@[i], new.nodes@[i]));
        }
    }
}

/// The first node position from `i` on where the trees differ, and why.
pub open spec fn first_node_difference(old: Seq<NodeIr>, new: Seq<NodeIr>, i: int) -> RemountReason
    decreases old.len() - i,
{
    if i < 0 || i >= old.len() {
        RemountReason::NodeCountChanged
    } else if old[i].kind != new[i].kind {
        RemountReason::NodeKindChanged
    } else if old[i].parent != new[i].parent || old[i].children@ != new[i].children@ {
        RemountReason::ChildrenChanged
    } else {
        first_node_difference(old, new, i + 1)
    }
}

pub open spec fn node_remount_reason(old: Seq<NodeIr>, new: Seq<NodeIr>) -> RemountReason {
    if old.len() != new.len() {
        RemountReason::NodeCountChanged
    } else {
        first_node_difference(old, new, 0)
    }
}

/// The plan for going from screen `old` to screen `new`: slot count first,
/// then handler count, then the node tree.
pub open spec fn hot_reload_plan(old: ScreenIr, new: ScreenIr) -> HotReloadPlan {
    if old.slots@.len() != new.slots@.len() {
        HotReloadPlan::Remount { reason: RemountReason::SlotCountChanged }
    } else if old.handlers@.len() != new.handlers@.len() {
        HotReloadPlan::Remount { reason: RemountReason::HandlerCountChanged }
    } else if !same_node_tree_spec(old.nodes@, new.nodes@) {
        HotReloadPlan::Remount { reason: node_remount_reason(old.nodes@, new.nodes@) }
    } else {
        HotReloadPlan::PropsOnly
    }
}

/// Two IR values print alike in debug form: the same structure, with floats
/// compared by bit pattern except that every `NaN` prints as `NaN`.
pub open spec fn expr_same(a: IrExpr, b: IrExpr) -> bool
    decreases a, 0int,
{
    match a {
        IrExpr::Int(x) => b == IrExpr::Int(x),
        IrExpr::Float(x) => match b {
            IrExpr::Float(y) => x.bits == y.bits || (f64_is_nan(x.bits) && f64_is_nan(y.bits)),
            _ => false,
        },
        IrExpr::Bool(x) => b == IrExpr::Bool(x),
        IrExpr::Str(x) => match b {
            IrExpr::Str(y) => x@ == y@,
            _ => false,
        },
        IrExpr::Slot(x) => b == IrExpr::Slot(x),
        IrExpr::Concat(xs) => match b {
            IrExpr::Concat(ys) => xs@.len() == ys@.len() && exprs_same_from(xs@, ys@, 0),
            _ => false,
        },
        IrExpr::Add(s, k) => b == IrExpr::Add(s, k),
        IrExpr::Error => b == IrExpr::Error,
    }
}

/// The parts of two concatenations from `i` on print alike, pairwise.
pub open spec fn exprs_same_from(xs: Seq<IrExpr>, ys: Seq<IrExpr>, i: int) -> bool
    decreases xs, xs.len() - i,
{
    if i < 0 || i >= xs.len() || i >= ys.len() {
        true
    } else {
        expr_same(xs[i], ys[i]) && exprs_same_from(xs, ys, i + 1)
    }
}

/// The value of the first prop of `ps` on `node` under `key`, if any.
pub open spec fn first_match(ps: Seq<StaticProp>, node: NodeId, key: PropKey) -> Option<IrExpr>
    decreases ps.len(),
{
    if ps.len() == 0 {
        None
    } else if ps[0].node == node && ps[0].key == key {
        Some(ps[0].value)
    } else {
        first_match(ps.drop_first(), node, key)
    }
}

/// Prop `np` of the new compilation differs from the old one: it had no value
/// there, or its first value there prints differently.
pub open spec fn prop_changed(old: Seq<StaticProp>, np: StaticProp) -> bool {
    match first_match(old, np.node, np.key) {
        None => true,
        Some(v) => !expr_same(v, np.value),
    }
}

pub open spec fn prop_entry(p: StaticProp) -> (u32, PropKey) {
    (p.node.0, p.key)
}

/// The entries of `new` whose value changed, in order.
pub open spec fn changed_props(old: Seq<StaticProp>, new: Seq<StaticProp>) -> Seq<(u32, PropKey)>
    decreases new.len(),
{
    if new.len() == 0 {
        Seq::empty()
    } else {
        changed_props(old, new.drop_last()) + (if prop_changed(old, new.last()) {
            seq![prop_entry(new.last())]
        } else {
            Seq::empty()
        })
    }
}

/// The entries of `new` with no prop on the same node and key in `old`, in order.
pub open spec fn added_props(old: Seq<StaticProp>, new: Seq<StaticProp>) -> Seq<(u32, PropKey)>
    decreases new.len(),
{
    if new.len() == 0 {
        Seq::empty()
    } else {
        added_props(old, new.drop_last()) + (if first_match(old, new.last().node, new.last().key) is None {
            seq![prop_entry(new.last())]
        } else {
            Seq::empty()
        })
    }
}

/// What `diff_static_props` reports: the changed entries, then the added ones
/// (an added prop is thus listed twice).
pub open spec fn static_prop_diff(old: Seq<StaticProp>, new: Seq<StaticProp>) -> Seq<(u32, PropKey)> {
    changed_props(old, new) + added_props(old, new)
}

/// The position of the first slot of `slots` named `name`, if any.
pub open spec fn slot_position(slots: Seq<SlotDef>, name: Symbol) -> Option<int>
    decreases slots.len(),
{
    if slots.len() == 0 {
        None
    } else {
        match slot_position(slots.drop_last(), name) {
            Some(i) => Some(i),
            None => if slots.last().name == name {
                Some(slots.len() - 1)
            } else {
                None
            },
        }
    }
}

/// The value a new slot starts with when no old slot has its name: its
/// integer initialiser, else 0.
pub open spec fn slot_default(s: SlotDef) -> i64 {
    match s.init {
        IrExpr::Int(v) => v,
        _ => 0,
    }
}

pub open spec fn mapped_slot_value(old_slots: Seq<SlotDef>, old_values: Seq<i64>, ns: SlotDef) -> i64 {
    match slot_position(old_slots, ns.name) {
        Some(i) => old_values[i],
        None => slot_default(ns),
    }
}

/// Every new slot found among the old ones by name is found at a position
/// that has a value.
pub open spec fn old_values_cover(old_slots: Seq<SlotDef>, old_values: Seq<i64>, new_slots: Seq<SlotDef>) -> bool {
    forall|j: int|
        0 <= j < new_slots.len() ==> match #[trigger] slot_position(old_slots, new_slots[j].name) {
            Some(i) => i < old_values.len(),
            None => true,
        }
}

/// A slot found by name is the first slot with that name; a name not found
/// names no slot.
pub proof fn lemma_slot_position_bounds(slots: Seq<SlotDef>, name: Symbol)
    ensures
        match slot_position(slots, name) {
            Some(i) => 0 <= i < slots.len() && slots[i].name == name && forall|k: int|
                0 <= k < i ==> slots[k].name != name,
            None => forall|k: int| 0 <= k < slots.len() ==> slots[k].name != name,
        },
    decreases slots.len(),
{
    if slots.len() > 0 {
        let init = slots.drop_last();
        lemma_slot_position_bounds(init, name);
        assert forall|k: int| 0 <= k < init.len() implies #[trigger] init[k] == slots[k] by {}
        match slot_position(init, name) {
            Some(i) => {
                assert(init[i] == slots[i]);
                assert forall|k: int| 0 <= k < i implies slots[k].name != name by {
                    assert(init[k] == slots[k]);
                }
            },
            None => {
                assert forall|k: int| 0 <= k < slots.len() - 1 implies slots[k].name != name by {
                    assert(init[k] == slots[k]);
                }
            },
        }
    }
}

fn same_children(a: &Vec<NodeId>, b: &Vec<NodeId>) -> (r: bool)
    ensures
        r == (a@ == b@),
{
    if a.len() != b.len() {
        return false;
    }
    let mut i: usize = 0;
    while i < a.len()
        invariant
            a.len() == b.len(),
            i <= a.len(),
            forall|k: int| 0 <= k < i ==> a@[k] == b@[k],
        decreases a.len() - i,
    {
        if a[i].0 != b[i].0 {
            return false;
        }
        i = i + 1;
    }
    assert(a@ =~= b@);
    true
}

fn same_parent(a: Option<NodeId>, b: Option<NodeId>) -> (r: bool)
    ensures
        r == (a == b),
{
    match (a, b) {
        (None, None) => true,
        (Some(x), Some(y)) => x.0 == y.0,
        _ => false,
    }
}

fn same_node_tree(old: &Vec<NodeIr>, new: &Vec<NodeIr>) -> (r: bool)
    ensures
        r == same_node_tree_spec(old@, new@),
{
    if old.len() != new.len() {
        return false;
    }
    let mut i: usize = 0;
    while i < old.len()
        invariant
            old.len() == new.len(),
            i <= old.len(),
            forall|k: int| 0 <= k < i ==> #[trigger] same_node(old@[k], new@[k]),
        decreases old.len() - i,
    {
        let a = &old[i];
        let b = &new[i];
        if a.kind != b.kind || !same_parent(a.parent, b.parent) || !same_children(&a.children, &b.children) {
            assert(!same_node(old@[i as int], new@[i as int]));
            return false;
        }
        i = i + 1;
    }
    true
}

fn remount_reason_for_nodes(old: &Vec<NodeIr>, new: &Vec<NodeIr>) -> (r: RemountReason)
    ensures
        r == node_remount_reason(old@, new@),
{
    if old.len() != new.len() {
        return RemountReason::NodeCountChanged;
    }
    let mut i: usize = 0;
    while i < old.len()
        invariant
            old.len() == new.len(),
            i <= old.len(),
            first_node_difference(old@, new@, 0) == first_node_difference(old@, new@, i as int),
        decreases old.len() - i,
    {
        let a = &old[i];
        let b = &new[i];
        if a.kind != b.kind {
            return RemountReason::NodeKindChanged;
        }
        if !same_parent(a.parent, b.parent) || !same_children(&a.children, &b.children) {
            return RemountReason::ChildrenChanged;
        }
        i = i + 1;
    }
    RemountReason::NodeCountChanged
}

/// Compares two compilations of a screen and decides between patching props
/// and remounting.
pub fn plan_hot_reload(old: &ScreenIr, new: &ScreenIr) -> (p: HotReloadPlan)
    ensures
        p == hot_reload_plan(*old, *new),
{
    if old.slots.len() != new.slots.len() {
        return HotReloadPlan::Remount { reason: RemountReason::SlotCountChanged };
    }
    if old.handlers.len() != new.handlers.len() {
        return HotReloadPlan::Remount { reason: RemountReason::HandlerCountChanged };
    }
    if !same_node_tree(&old.nodes, &new.nodes) {
        return HotReloadPlan::Remount { reason: remount_reason_for_nodes(&old.nodes, &new.nodes) };
    }
    HotReloadPlan::PropsOnly
}

/// Whether two IR values print alike in debug form.
pub fn exprs_print_alike(a: &IrExpr, b: &IrExpr) -> (r: bool)
    ensures
        r == expr_same(*a, *b),
    decreases a,
{
    match a {
        IrExpr::Int(x) => match b {
            IrExpr::Int(y) => *x == *y,
            _ => false,
        },
        IrExpr::Float(x) => match b {
            IrExpr::Float(y) => {
                x.bits == y.bits || (f64_bits_is_nan(x.bits) && f64_bits_is_nan(y.bits))
            },
            _ => false,
        },
        IrExpr::Bool(x) => match b {
            IrExpr::Bool(y) => *x == *y,
            _ => false,
        },
        IrExpr::Str(x) => match b {
            IrExpr::Str(y) => crate::bytes::str_eq(x.as_str(), y.as_str()),
            _ => false,
        },
        IrExpr::Slot(x) => match b {
            IrExpr::Slot(y) => x.0 == y.0,
            _ => false,
        },
        IrExpr::Concat(xs) => match b {
            IrExpr::Concat(ys) => {
                if xs.len() != ys.len() {
                    return false;
                }
                let mut i: usize = 0;
                while i < xs.len()
                    invariant
                        *a == IrExpr::Concat(*xs),
                        *b == IrExpr::Concat(*ys),
                        xs@.len() == ys@.len(),
                        i <= xs.len(),
                        exprs_same_from(xs@, ys@, 0) == exprs_same_from(xs@, ys@, i as int),
                    decreases xs.len() - i,
                {
                    proof {
                        assert(decreases_to!(*a => (*a)->Concat_0));
                        assert(decreases_to!(*xs => xs@));
                        assert(decreases_to!(xs@ => xs@[i as int]));
                        assert(decreases_to!(*a => xs@[i as int]));
                    }
                    if !exprs_print_alike(&xs[i], &ys[i]) {
                        return false;
                    }
                    i = i + 1;
                }
                true
            },
            _ => false,
        },
        IrExpr::Add(s, k) => match b {
            IrExpr::Add(t, m) => s.0 == t.0 && *k == *m,
            _ => false,
        },
        IrExpr::Error => match b {
            IrExpr::Error => true,
            _ => false,
        },
    }
}

fn find_prop_value<'a>(ps: &'a Vec<StaticProp>, node: NodeId, key: PropKey) -> (r: Option<&'a IrExpr>)
    ensures
        match first_match(ps@, node, key) {
            None => r is None,
            Some(v) => r is Some && *r->0 == v,
        },
{
    let mut i: usize = 0;
    assert(ps@.skip(0) =~= ps@);
    while i < ps.len()
        invariant
            i <= ps.len(),
            first_match(ps@, node, key) == first_match(ps@.skip(i as int), node, key),
        decreases ps.len() - i,
    {
        assert(ps@.skip(i as int)[0] == ps@[i as int]);
        assert(ps@.skip(i as int).drop_first() =~= ps@.skip(i + 1));
        if ps[i].node.0 == node.0 && ps[i].key == key {
            return Some(&ps[i].value);
        }
        i = i + 1;
    }
    assert(ps@.skip(i as int).len() == 0);
    None
}

/// The props of `new` whose value differs from `old` (by node and key),
/// followed by those of `new` that `old` lacks.
pub fn diff_static_props(old: &Vec<StaticProp>, new: &Vec<StaticProp>) -> (changed: Vec<(u32, PropKey)>)
    ensures
        changed@ == static_prop_diff(old@, new@),
{
    let mut changed: Vec<(u32, PropKey)> = Vec::new();
    let mut i: usize = 0;
    while i < new.len()
        invariant
            i <= new.len(),
            changed@ == changed_props(old@, new@.take(i as int)),
        decreases new.len() - i,
    {
        let np = &new[i];
        let differs = match find_prop_value(old, np.node, np.key) {
            None => true,
            Some(v) => !exprs_print_alike(v, &np.value),
        };
        assert(new@.take(i + 1).drop_last() =~= new@.take(i as int));
        if differs {
            changed.push((np.node.0, np.key));
        }
        i = i + 1;
    }
    assert(new@.take(new.len() as int) =~= new@);
    let ghost first = changed@;
    let mut j: usize = 0;
    while j < new.len()
        invariant
            j <= new.len(),
            changed@ == first + added_props(old@, new@.take(j as int)),
        decreases new.len() - j,
    {
        let op = &new[j];
        let absent = find_prop_value(old, op.node, op.key).is_none();
        assert(new@.take(j + 1).drop_last() =~= new@.take(j as int));
        if absent {
            changed.push((op.node.0, op.key));
        }
        j = j + 1;
    }
    assert(new@.take(new.len() as int) =~= new@);
    changed
}

/// The values the slots of `new_slots` start with after a recompile: that of
/// the first old slot with the same name, else the new slot's default.
pub fn map_slot_values(old_slots: &Vec<SlotDef>, old_values: &[i64], new_slots: &Vec<SlotDef>) -> (mapped: Vec<i64>)
    requires
        old_values_cover(old_slots@, old_values@, new_slots@),
    ensures
        mapped@.len() == new_slots@.len(),
        forall|j: int|
            0 <= j < new_slots@.len() ==> #[trigger] mapped@[j] == mapped_slot_value(
                old_slots@,
                old_values@,
                new_slots@[j],
            ),
{
    let mut mapped: Vec<i64> = Vec::new();
    let mut j: usize = 0;
    while j < new_slots.len()
        invariant
            j <= new_slots.len(),
            old_values_cover(old_slots@, old_values@, new_slots@),
            mapped@.len() == j,
            forall|k: int|
                0 <= k < j ==> #[trigger] mapped@[k] == mapped_slot_value(
                    old_slots@,
                    old_values@,
                    new_slots@[k],
                ),
        decreases new_slots.len() - j,
    {
        let ns = &new_slots[j];
        let ghost pos = slot_position(old_slots@, ns.name);
        proof {
            lemma_slot_position_bounds(old_slots@, ns.name);
        }
        let mut i: usize = 0;
        let mut found: Option<usize> = None;
        while i < old_slots.len()
            invariant_except_break
                found is None,
            invariant
                i <= old_slots.len(),
                forall|k: int| 0 <= k < i ==> old_slots@[k].name != ns.name,
            ensures
                match found {
                    Some(f) => f < old_slots.len() && old_slots@[f as int].name == ns.name && forall|k: int|
                        0 <= k < f ==> old_slots@[k].name != ns.name,
                    None => forall|k: int| 0 <= k < old_slots.len() ==> old_slots@[k].name != ns.name,
                },
            decreases old_slots.len() - i,
        {
            if old_slots[i].name.0 == ns.name.0 {
                found = Some(i);
                break;
            }
            i = i + 1;
        }
        let v: i64 = match found {
            Some(f) => {
                assert(pos == Some(f as int));
                assert(f < old_values.len()) by {
                    assert(old_values_cover(old_slots@, old_values@, new_slots@));
                    assert(match slot_position(old_slots@, new_slots@[j as int].name) {
                        Some(p) => p < old_values@.len(),
                        None => true,
                    });
                }
                old_values[f]
            },
            None => match &ns.init {
                IrExpr::Int(x) => *x,
                _ => 0,
            },
        };
        mapped.push(v);
        j = j + 1;
    }
    mapped
}

} // verus!

verus! {

/// Every IR value prints like itself.
pub proof fn lemma_expr_same_reflexive(a: IrExpr)
    ensures
        expr_same(a, a),
    decreases a, 0int,
{
    match a {
        IrExpr::Concat(xs) => {
            lemma_exprs_same_from_reflexive(xs@, 0);
        },
        _ => {},
    }
}

proof fn lemma_exprs_same_from_reflexive(xs: Seq<IrExpr>, i: int)
    ensures
        exprs_same_from(xs, xs, i),
    decreases xs, xs.len() - i,
{
    if 0 <= i < xs.len() {
        lemma_expr_same_reflexive(xs[i]);
        lemma_exprs_same_from_reflexive(xs, i + 1);
    }
}

/// Recompiling a screen into the very same IR asks only for a props patch.
pub proof fn lemma_plan_same_screen(s: ScreenIr)
    ensures
        hot_reload_plan(s, s) == HotReloadPlan::PropsOnly,
{
    assert(same_node_tree_spec(s.nodes@, s.nodes@));
}

/// No two props of `ps` set the same key of the same node.
pub open spec fn props_keys_distinct(ps: Seq<StaticProp>) -> bool {
    forall|i: int, j: int|
        0 <= i < j < ps.len() ==> !(ps[i].node == ps[j].node && ps[i].key == ps[j].key)
}

proof fn lemma_first_match_finds(ps: Seq<StaticProp>, k: int)
    requires
        props_keys_distinct(ps),
        0 <= k < ps.len(),
    ensures
        first_match(ps, ps[k].node, ps[k].key) == Some(ps[k].value),
    decreases ps.len(),
{
    if k > 0 {
        let rest = ps.drop_first();
        assert(rest[k - 1] == ps[k]);
        assert(!(ps[0].node == ps[k].node && ps[0].key == ps[k].key));
        assert forall|i: int, j: int| 0 <= i < j < rest.len() implies !(rest[i].node == rest[j].node
            && rest[i].key == rest[j].key) by {
            assert(rest[i] == ps[i + 1] && rest[j] == ps[j + 1]);
        }
        lemma_first_match_finds(rest, k - 1);
    }
}

/// Comparing a list of static props with itself reports nothing, provided no
/// two props set the same key of the same node.
pub proof fn lemma_diff_same_props(ps: Seq<StaticProp>)
    requires
        props_keys_distinct(ps),
    ensures
        static_prop_diff(ps, ps) == Seq::<(u32, PropKey)>::empty(),
{
    lemma_no_change_prefix(ps, ps.len() as int);
    assert(ps.take(ps.len() as int) =~= ps);
}

proof fn lemma_no_change_prefix(ps: Seq<StaticProp>, n: int)
    requires
        props_keys_distinct(ps),
        0 <= n <= ps.len(),
    ensures
        changed_props(ps, ps.take(n)) == Seq::<(u32, PropKey)>::empty(),
        added_props(ps, ps.take(n)) == Seq::<(u32, PropKey)>::empty(),
    decreases n,
{
    if n > 0 {
        lemma_no_change_prefix(ps, n - 1);
        assert(ps.take(n).drop_last() =~= ps.take(n - 1));
        assert(ps.take(n).last() == ps[n - 1]);
        lemma_first_match_finds(ps, n - 1);
        lemma_expr_same_reflexive(ps[n - 1].value);
        assert(!prop_changed(ps, ps[n - 1]));
        assert(changed_props(ps, ps.take(n)) =~= Seq::<(u32, PropKey)>::empty());
        assert(added_props(ps, ps.take(n)) =~= Seq::<(u32, PropKey)>::empty());
    }
}

/// No two slots of `slots` share a name.
pub open spec fn slot_names_distinct(slots: Seq<SlotDef>) -> bool {
    forall|i: int, j: int| 0 <= i < j < slots.len() ==> slots[i].name != slots[j].name
}

/// Keeping slot values across a recompile that did not change the slots gives
/// every slot back its own value.
pub proof fn lemma_map_same_slots(slots: Seq<SlotDef>, values: Seq<i64>)
    requires
        slot_names_distinct(slots),
        values.len() == slots.len(),
    ensures
        old_values_cover(slots, values, slots),
        forall|j: int| 0 <= j < slots.len() ==> #[trigger] mapped_slot_value(slots, values, slots[j]) == values[j],
{
    assert forall|j: int| 0 <= j < slots.len() implies slot_position(slots, #[trigger] slots[j].name) == Some(j) by {
        lemma_slot_position_bounds(slots, slots[j].name);
        match slot_position(slots, slots[j].name) {
            Some(i) => {
                if i < j {
                    assert(slots[i].name != slots[j].name);
                }
                if i > j {
                    assert(slots[j].name != slots[j].name);
                }
            },
            None => {
                assert(slots[j].name != slots[j].name);
            },
        }
    }
    assert forall|j: int| 0 <= j < slots.len() implies #[trigger] mapped_slot_value(slots, values, slots[j]) == values[j] by {
        assert(slot_position(slots, slots[j].name) == Some(j));
    }
    assert forall|j: int| 0 <= j < slots.len() implies match #[trigger] slot_position(slots, slots[j].name) {
        Some(i) => i < values.len(),
        None => true,
    } by {
        assert(slot_position(slots, slots[j].name) == Some(j));
    }
}

} // verus!
