//! The live renderer: an in-memory UI tree for dev mode, which records a patch
//! whenever a property actually changes.

use vstd::prelude::*;
use vstd::string::StringExecFns;
use crate::ir::{node_kind_name, NodeId, NodeKind, PropKey};
use crate::num::{f64_eq, nat_digits, push_i64_text, push_u64_digits, int_text};
use crate::runtime::renderer::{clone_prop_value, prop_value_view, PropValue, RenderCall};

verus! {

/// A change made to the live tree.
#[derive(Clone, Debug, PartialEq)]
pub enum PatchOp<S = String> {
    SetProp { node: NodeId, key: PropKey, value: PropValue<S> },
    Remount,
}

/// The properties of one node, each key at most once.
pub type PropEntries = Seq<(PropKey, PropValue<Seq<char>>)>;

/// A live tree: each node's kind and properties, and the patches recorded.
pub type LiveState = (Seq<(NodeKind, PropEntries)>, Seq<PatchOp<Seq<char>>>);

#[derive(Clone, Debug)]
struct NodeState {
    kind: NodeKind,
    props: Vec<(PropKey, PropValue)>,
}

/// The in-memory UI tree.
#[derive(Clone, Debug)]
pub struct LiveRenderer {
    nodes: Vec<NodeState>,
    pub patch_log: Vec<PatchOp>,
}

pub open spec fn entries_view(props: Seq<(PropKey, PropValue)>) -> PropEntries {
    props.map_values(|e: (PropKey, PropValue)| (e.0, prop_value_view(e.1)))
}

spec fn node_view(n: NodeState) -> (NodeKind, PropEntries) {
    (n.kind, entries_view(n.props@))
}

pub open spec fn patch_view(p: PatchOp) -> PatchOp<Seq<char>> {
    match p {
        PatchOp::SetProp { node, key, value } => PatchOp::SetProp { node, key, value: prop_value_view(value) },
        PatchOp::Remount => PatchOp::Remount,
    }
}

/// The position of the entry for `key`, if any.
pub open spec fn key_position(entries: PropEntries, key: PropKey) -> Option<int>
    decreases entries.len(),
{
    if entries.len() == 0 {
        None
    } else {
        match key_position(entries.drop_last(), key) {
            Some(i) => Some(i),
            None => if entries.last().0 == key {
                Some(entries.len() - 1)
            } else {
                None
            },
        }
    }
}

pub open spec fn lookup(entries: PropEntries, key: PropKey) -> Option<PropValue<Seq<char>>> {
    match key_position(entries, key) {
        Some(i) => Some(entries[i].1),
        None => None,
    }
}

/// `entries` with `key` set to `v`: replaced in place, or added at the end.
pub open spec fn store_entry(entries: PropEntries, key: PropKey, v: PropValue<Seq<char>>) -> PropEntries {
    match key_position(entries, key) {
        Some(i) => entries.update(i, (key, v)),
        None => entries.push((key, v)),
    }
}

/// Two property values are equal as values: strings by their text, floats as
/// `f64` values are.
pub open spec fn prop_value_same(a: PropValue<Seq<char>>, b: PropValue<Seq<char>>) -> bool {
    match (a, b) {
        (PropValue::Str(x), PropValue::Str(y)) => x == y,
        (PropValue::Int(x), PropValue::Int(y)) => x == y,
        (PropValue::Float(x), PropValue::Float(y)) => f64_eq(x.bits, y.bits),
        (PropValue::Bool(x), PropValue::Bool(y)) => x == y,
        _ => false,
    }
}

/// Setting a property: a patch is recorded unless the node already holds an
/// equal value under that key; a node that does not exist is left alone.
pub open spec fn live_set(st: LiveState, node: NodeId, key: PropKey, v: PropValue<Seq<char>>) -> LiveState {
    let nodes = st.0;
    if node.0 < nodes.len() {
        let n = nodes[node.0 as int];
        let patches = match lookup(n.1, key) {
            Some(prev) => if prop_value_same(prev, v) {
                st.1
            } else {
                st.1.push(PatchOp::SetProp { node, key, value: v })
            },
            None => st.1.push(PatchOp::SetProp { node, key, value: v }),
        };
        (nodes.update(node.0 as int, (n.0, store_entry(n.1, key, v))), patches)
    } else {
        st
    }
}

/// The effect of one renderer call on a live tree.
pub open spec fn live_apply(st: LiveState, c: RenderCall<Seq<char>>) -> LiveState {
    match c {
        RenderCall::Create { kind } => (st.0.push((kind, Seq::empty())), st.1),
        RenderCall::SetProp { node, key, value } => live_set(st, node, key, value),
        RenderCall::Commit => st,
    }
}

/// The effect of a sequence of renderer calls, in order.
pub open spec fn live_apply_all(st: LiveState, calls: Seq<RenderCall<Seq<char>>>) -> LiveState
    decreases calls.len(),
{
    if calls.len() == 0 {
        st
    } else {
        live_apply(live_apply_all(st, calls.drop_last()), calls.last())
    }
}

/// How many of the patches set a property.
pub open spec fn count_set_props(patches: Seq<PatchOp<Seq<char>>>) -> nat
    decreases patches.len(),
{
    if patches.len() == 0 {
        0
    } else {
        count_set_props(patches.drop_last()) + (if patches.last() is SetProp {
            1nat
        } else {
            0nat
        })
    }
}

pub open spec fn entries_keys_distinct(entries: PropEntries) -> bool {
    forall|i: int, j: int| 0 <= i < j < entries.len() ==> entries[i].0 != entries[j].0
}

proof fn lemma_key_position(entries: PropEntries, key: PropKey)
    ensures
        match key_position(entries, key) {
            Some(i) => 0 <= i < entries.len() && entries[i].0 == key && forall|k: int|
                0 <= k < i ==> entries[k].0 != key,
            None => forall|k: int| 0 <= k < entries.len() ==> entries[k].0 != key,
        },
    decreases entries.len(),
{
    if entries.len() > 0 {
        let init = entries.drop_last();
        lemma_key_position(init, key);
        assert forall|k: int| 0 <= k < init.len() implies #[trigger] init[k] == entries[k] by {}
        match key_position(init, key) {
            Some(p) => {
                assert(init[p] == entries[p]);
                assert forall|k: int| 0 <= k < p implies entries[k].0 != key by {
                    assert(init[k] == entries[k]);
                }
            },
            None => {
                assert forall|k: int| 0 <= k < entries.len() - 1 implies entries[k].0 != key by {
                    assert(init[k] == entries[k]);
                }
            },
        }
    }
}

/// Storing a key keeps the keys of a node distinct.
pub proof fn lemma_store_entry_distinct(entries: PropEntries, key: PropKey, v: PropValue<Seq<char>>)
    requires
        entries_keys_distinct(entries),
    ensures
        entries_keys_distinct(store_entry(entries, key, v)),
        lookup(store_entry(entries, key, v), key) == Some(v),
{
    lemma_key_position(entries, key);
    let e2 = store_entry(entries, key, v);
    lemma_key_position(e2, key);
    let target: int = match key_position(entries, key) {
        Some(i) => i,
        None => entries.len() as int,
    };
    match key_position(entries, key) {
        Some(i) => {
            assert forall|a: int, b: int| 0 <= a < b < e2.len() implies e2[a].0 != e2[b].0 by {
                assert(entries[a].0 != entries[b].0);
            }
        },
        None => {
            assert forall|a: int, b: int| 0 <= a < b < e2.len() implies e2[a].0 != e2[b].0 by {
                if b < entries.len() {
                    assert(entries[a].0 != entries[b].0);
                } else {
                    assert(e2[a] == entries[a]);
                }
            }
            assert(e2[entries.len() as int].0 == key);
        },
    }
    assert(e2[target] == (key, v));
    match key_position(e2, key) {
        Some(p) => {
            if p != target {
                assert(e2[p].0 == e2[target].0);
                assert(false);
            }
        },
        None => {
            assert(e2[target].0 == key);
        },
    }
}

fn prop_values_equal(a: &PropValue, b: &PropValue) -> (r: bool)
    ensures
        r == prop_value_same(prop_value_view(*a), prop_value_view(*b)),
{
    match (a, b) {
        (PropValue::Str(x), PropValue::Str(y)) => crate::bytes::str_eq(x.as_str(), y.as_str()),
        (PropValue::Int(x), PropValue::Int(y)) => *x == *y,
        (PropValue::Float(x), PropValue::Float(y)) => crate::num::f64_bits_eq(x.bits, y.bits),
        (PropValue::Bool(x), PropValue::Bool(y)) => *x == *y,
        _ => false,
    }
}

fn find_entry(props: &Vec<(PropKey, PropValue)>, key: PropKey) -> (r: Option<usize>)
    ensures
        match r {
            Some(j) => key_position(entries_view(props@), key) == Some(j as int) && j < props@.len(),
            None => key_position(entries_view(props@), key) is None,
        },
{
    let ghost ev = entries_view(props@);
    proof {
        lemma_key_position(ev, key);
    }
    let mut i: usize = 0;
    while i < props.len()
        invariant
            i <= props@.len(),
            ev == entries_view(props@),
            forall|k: int| 0 <= k < i ==> ev[k].0 != key,
        decreases props@.len() - i,
    {
        assert(ev[i as int] == (props@[i as int].0, prop_value_view(props@[i as int].1)));
        if props[i].0 == key {
            assert(ev[i as int].0 == key);
            proof {
                lemma_key_position(ev, key);
                match key_position(ev, key) {
                    Some(p) => {
                        if p < i as int {
                            assert(ev[p].0 != key);
                        }
                        if p > i as int {
                            assert(ev[i as int].0 != key);
                        }
                    },
                    None => {
                        assert(ev[i as int].0 != key);
                    },
                }
            }
            return Some(i);
        }
        i = i + 1;
    }
    None
}

/// The quoted or plain text a property value is described with.
pub open spec fn value_text(v: PropValue<Seq<char>>) -> Seq<char> {
    match v {
        PropValue::Str(s) => seq!['"'] + s + seq!['"'],
        PropValue::Int(n) => int_text(n as int),
        PropValue::Float(f) => f.text,
        PropValue::Bool(b) => if b {
            "true"@
        } else {
            "false"@
        },
    }
}

pub open spec fn key_text(k: PropKey) -> Seq<char> {
    match k {
        PropKey::Text => "text"@,
        PropKey::Title => "title"@,
        PropKey::Value => "value"@,
        PropKey::Src => "src"@,
    }
}

/// `key=value` pairs joined by `, `.
pub open spec fn entries_text(entries: PropEntries) -> Seq<char>
    decreases entries.len(),
{
    if entries.len() == 0 {
        Seq::empty()
    } else if entries.len() == 1 {
        key_text(entries[0].0) + seq!['='] + value_text(entries[0].1)
    } else {
        entries_text(entries.drop_last()) + seq![',', ' '] + key_text(entries.last().0) + seq!['=']
            + value_text(entries.last().1)
    }
}

/// The line describing node `i`: `  node<i> <Kind> [<props>]`.
pub open spec fn node_line(i: int, n: (NodeKind, PropEntries)) -> Seq<char> {
    seq![' ', ' ', 'n', 'o', 'd', 'e'] + nat_digits(i as nat) + seq![' '] + node_kind_name(n.0) + seq![' ', '[']
        + entries_text(n.1) + seq![']']
}

impl LiveRenderer {
    /// The tree: every node's kind and properties.
    pub closed spec fn tree(&self) -> Seq<(NodeKind, PropEntries)> {
        self.nodes@.map_values(|n: NodeState| node_view(n))
    }

    /// The patches recorded since the last clear.
    pub closed spec fn patches(&self) -> Seq<PatchOp<Seq<char>>> {
        self.patch_log@.map_values(|p: PatchOp| patch_view(p))
    }

    pub open spec fn state(&self) -> LiveState {
        (self.tree(), self.patches())
    }

    /// No node holds a key twice.
    pub open spec fn wf(&self) -> bool {
        forall|i: int| 0 <= i < self.tree().len() ==> entries_keys_distinct(#[trigger] self.tree()[i].1)
    }

    pub fn new() -> (r: LiveRenderer)
        ensures
            r.wf(),
            r.tree() == Seq::<(NodeKind, PropEntries)>::empty(),
            r.patches() == Seq::<PatchOp<Seq<char>>>::empty(),
    {
        let r = LiveRenderer { nodes: Vec::new(), patch_log: Vec::new() };
        assert(r.tree() =~= Seq::<(NodeKind, PropEntries)>::empty());
        assert(r.patches() =~= Seq::<PatchOp<Seq<char>>>::empty());
        r
    }

    pub fn clear(&mut self)
        ensures
            final(self).wf(),
            final(self).tree() == Seq::<(NodeKind, PropEntries)>::empty(),
            final(self).patches() == Seq::<PatchOp<Seq<char>>>::empty(),
    {
        self.nodes.clear();
        self.patch_log.clear();
        assert(self.tree() =~= Seq::<(NodeKind, PropEntries)>::empty());
        assert(self.patches() =~= Seq::<PatchOp<Seq<char>>>::empty());
    }

    /// Forgets the recorded patches; the tree stays.
    pub(crate) fn clear_patches(&mut self)
        requires
            old(self).wf(),
        ensures
            final(self).wf(),
            final(self).tree() == old(self).tree(),
            final(self).patches() == Seq::<PatchOp<Seq<char>>>::empty(),
    {
        self.patch_log.clear();
        assert(self.patches() =~= Seq::<PatchOp<Seq<char>>>::empty());
        assert(self.tree() == old(self).tree());
        assert forall|i: int| 0 <= i < self.tree().len() implies entries_keys_distinct(
            #[trigger] self.tree()[i].1,
        ) by {
            assert(self.tree()[i] == old(self).tree()[i]);
        }
    }

    /// Adds a node of `kind` with no properties.
    pub fn create(&mut self, kind: NodeKind, node: NodeId)
        requires
            old(self).wf(),
        ensures
            final(self).wf(),
            final(self).state() == live_apply(old(self).state(), RenderCall::Create { kind }),
    {
        self.nodes.push(NodeState { kind, props: Vec::new() });
        assert(entries_view(Seq::<(PropKey, PropValue)>::empty()) =~= Seq::<(PropKey, PropValue<Seq<char>>)>::empty());
        assert(self.tree() =~= old(self).tree().push((kind, Seq::<(PropKey, PropValue<Seq<char>>)>::empty())));
    }

    /// Sets property `key` of `node`, recording a patch if the value changes.
    pub fn set_prop(&mut self, node: NodeId, key: PropKey, value: PropValue)
        requires
            old(self).wf(),
        ensures
            final(self).wf(),
            final(self).state() == live_set(old(self).state(), node, key, prop_value_view(value)),
    {
        let ghost v = prop_value_view(value);
        let i = node.0 as usize;
        if i < self.nodes.len() {
            let ghost n = self.tree()[i as int];
            assert(n == node_view(self.nodes@[i as int]));
            let ghost old_props = self.nodes@[i as int].props@;
            let pos = find_entry(&self.nodes[i].props, key);
            let changed = match pos {
                None => true,
                Some(p) => !prop_values_equal(&self.nodes[i].props[p].1, &value),
            };
            if changed {
                let copy = clone_prop_value(&value);
                self.patch_log.push(PatchOp::SetProp { node, key, value: copy });
            }
            let mut ns = self.nodes.remove(i);
            assert(ns.props@ == old_props);
            match pos {
                Some(p) => {
                    ns.props.set(p, (key, value));
                    assert(entries_view(ns.props@) =~= entries_view(old_props).update(p as int, (key, v)));
                },
                None => {
                    ns.props.push((key, value));
                    assert(entries_view(ns.props@) =~= entries_view(old_props).push((key, v)));
                },
            }
            self.nodes.insert(i, ns);
            proof {
                lemma_store_entry_distinct(n.1, key, v);
                assert(n.1 == entries_view(old_props));
                match pos {
                    Some(p) => {
                        assert(key_position(n.1, key) == Some(p as int));
                    },
                    None => {
                        assert(key_position(n.1, key) is None);
                    },
                }
                assert(entries_view(ns.props@) =~= store_entry(n.1, key, v));
                assert(self.tree() =~= old(self).tree().update(i as int, (n.0, store_entry(n.1, key, v))));
                assert(self.patches() =~= live_set(old(self).state(), node, key, v).1);
                assert forall|k: int| 0 <= k < self.tree().len() implies entries_keys_distinct(
                    #[trigger] self.tree()[k].1,
                ) by {
                    if k != i {
                        assert(self.tree()[k] == old(self).tree()[k]);
                    }
                }
            }
        }
    }

    /// How many of the recorded patches set a property.
    pub(crate) fn set_prop_patch_count(&self) -> (n: usize)
        ensures
            n == count_set_props(self.patches()),
    {
        let mut n: usize = 0;
        let mut i: usize = 0;
        while i < self.patch_log.len()
            invariant
                i <= self.patch_log@.len(),
                n == count_set_props(self.patches().take(i as int)),
                n <= i,
            decreases self.patch_log@.len() - i,
        {
            assert(self.patches().take(i + 1).drop_last() =~= self.patches().take(i as int));
            assert(self.patches()[i as int] == patch_view(self.patch_log@[i as int]));
            if let PatchOp::SetProp { .. } = &self.patch_log[i] {
                n = n + 1;
            }
            i = i + 1;
        }
        assert(self.patches().take(i as int) =~= self.patches());
        n
    }

    pub fn commit(&mut self)
        ensures
            *final(self) == *old(self),
    {
    }

    pub fn node_count(&self) -> (n: usize)
        ensures
            n == self.tree().len(),
    {
        self.nodes.len()
    }

    /// The value of property `key` of `node`, if the node exists and has it.
    pub fn prop(&self, node: NodeId, key: PropKey) -> (r: Option<&PropValue>)
        ensures
            match r {
                Some(v) => node.0 < self.tree().len() && lookup(self.tree()[node.0 as int].1, key) == Some(
                    prop_value_view(*v),
                ),
                None => node.0 >= self.tree().len() || lookup(self.tree()[node.0 as int].1, key) is None,
            },
    {
        let i = node.0 as usize;
        if i < self.nodes.len() {
            assert(self.tree()[i as int] == node_view(self.nodes@[i as int]));
            match find_entry(&self.nodes[i].props, key) {
                Some(p) => {
                    let ghost props = self.nodes@[i as int].props@;
                    assert(entries_view(props)[p as int] == (props[p as int].0, prop_value_view(props[p as int].1)));
                    assert(self.tree()[i as int].1 == entries_view(props));
                    assert(lookup(entries_view(props), key) == Some(prop_value_view(props[p as int].1)));
                    Some(&self.nodes[i].props[p].1)
                },
                None => None,
            }
        } else {
            None
        }
    }

    /// One line per node, in order: `  node<i> <Kind> [key=value, ...]`.
    pub fn describe(&self) -> (lines: Vec<String>)
        ensures
            lines@.len() == self.tree().len(),
            forall|i: int| 0 <= i < lines@.len() ==> #[trigger] lines@[i]@ == node_line(i, self.tree()[i]),
    {
        let mut lines: Vec<String> = Vec::new();
        let mut i: usize = 0;
        while i < self.nodes.len()
            invariant
                i <= self.nodes@.len(),
                lines@.len() == i,
                forall|k: int| 0 <= k < i ==> #[trigger] lines@[k]@ == node_line(k, self.tree()[k]),
            decreases self.nodes@.len() - i,
        {
            let n = &self.nodes[i];
            let mut line = String::new();
            line.append("  node");
            push_u64_digits(&mut line, i as u64);
            line.append(" ");
            line.append(n.kind.name());
            line.append(" [");
            let mut j: usize = 0;
            let ghost start = line@;
            while j < n.props.len()
                invariant
                    j <= n.props@.len(),
                    line@ == start + entries_text(entries_view(n.props@).take(j as int)),
                decreases n.props@.len() - j,
            {
                let ghost ev = entries_view(n.props@);
                assert(ev.take(j + 1).drop_last() =~= ev.take(j as int));
                if j > 0 {
                    line.append(", ");
                }
                let e = &n.props[j];
                line.append(prop_key_name(&e.0));
                line.append("=");
                push_value_text(&mut line, &e.1);
                j = j + 1;
                proof {
                    reveal_strlit(", ");
                    reveal_strlit("=");
                    if j == 1 {
                        assert(ev.take(1)[0] == ev[0]);
                    }
                    assert(line@ =~= start + entries_text(ev.take(j as int)));
                }
            }
            line.append("]");
            proof {
                reveal_strlit("  node");
                reveal_strlit(" ");
                reveal_strlit(" [");
                reveal_strlit("]");
                assert(entries_view(n.props@).take(j as int) =~= entries_view(n.props@));
                assert(self.tree()[i as int] == node_view(*n));
                assert(line@ =~= node_line(i as int, self.tree()[i as int]));
            }
            lines.push(line);
            i = i + 1;
        }
        lines
    }
}

fn prop_key_name(key: &PropKey) -> (s: &'static str)
    ensures
        s@ == key_text(*key),
{
    match key {
        PropKey::Text => "text",
        PropKey::Title => "title",
        PropKey::Value => "value",
        PropKey::Src => "src",
    }
}

fn push_value_text(out: &mut String, v: &PropValue)
    ensures
        final(out)@ == old(out)@ + value_text(prop_value_view(*v)),
{
    match v {
        PropValue::Str(s) => {
            out.push('"');
            out.append(s.as_str());
            out.push('"');
        },
        PropValue::Int(n) => push_i64_text(out, *n),
        PropValue::Float(f) => out.append(f.text.as_str()),
        PropValue::Bool(b) => {
            if *b {
                out.append("true");
            } else {
                out.append("false");
            }
        },
    }
    proof {
        reveal_strlit("true");
        reveal_strlit("false");
        assert(out@ =~= old(out)@ + value_text(prop_value_view(*v)));
    }
}

impl Default for LiveRenderer {
    fn default() -> (r: LiveRenderer)
        ensures
            r.wf(),
            r.tree() == Seq::<(NodeKind, PropEntries)>::empty(),
            r.patches() == Seq::<PatchOp<Seq<char>>>::empty(),
    {
        LiveRenderer::new()
    }
}

} // verus!
