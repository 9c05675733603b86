//! A recording renderer: it logs every call, so that tests can check which
//! properties an update touched.

use vstd::prelude::*;
use crate::ir::{NodeId, NodeKind, PropKey};
use crate::num::{copy_float, float_view, FloatLit};

verus! {

/// A property value handed to a renderer.
#[derive(Clone, Debug, PartialEq)]
pub enum PropValue<S = String> {
    Str(S),
    Int(i64),
    Float(FloatLit<S>),
    Bool(bool),
}

#[derive(Clone, Debug, PartialEq)]
pub enum RenderCall<S = String> {
    Create { kind: NodeKind },
    SetProp { node: NodeId, key: PropKey, value: PropValue<S> },
    Commit,
}

pub open spec fn prop_value_view(v: PropValue) -> PropValue<Seq<char>> {
    match v {
        PropValue::Str(s) => PropValue::Str(s@),
        PropValue::Int(n) => PropValue::Int(n),
        PropValue::Float(f) => PropValue::Float(float_view(f)),
        PropValue::Bool(b) => PropValue::Bool(b),
    }
}

pub open spec fn render_call_view(c: RenderCall) -> RenderCall<Seq<char>> {
    match c {
        RenderCall::Create { kind } => RenderCall::Create { kind },
        RenderCall::SetProp { node, key, value } => RenderCall::SetProp {
            node,
            key,
            value: prop_value_view(value),
        },
        RenderCall::Commit => RenderCall::Commit,
    }
}

pub open spec fn render_calls_view(log: Seq<RenderCall>) -> Seq<RenderCall<Seq<char>>> {
    log.map_values(|c: RenderCall| render_call_view(c))
}

/// A copy of `v`.
pub fn clone_prop_value(v: &PropValue) -> (r: PropValue)
    ensures
        prop_value_view(r) == prop_value_view(*v),
{
    match v {
        PropValue::Str(s) => PropValue::Str(s.clone()),
        PropValue::Int(n) => PropValue::Int(*n),
        PropValue::Float(f) => PropValue::Float(copy_float(f)),
        PropValue::Bool(b) => PropValue::Bool(*b),
    }
}

/// Records every call made to it.
pub struct MockRenderer {
    pub log: Vec<RenderCall>,
    next_handle: u32,
}

impl MockRenderer {
    /// The calls recorded so far.
    pub closed spec fn calls(&self) -> Seq<RenderCall<Seq<char>>> {
        render_calls_view(self.log@)
    }

    /// How many nodes have been created.
    pub closed spec fn handles_made(&self) -> nat {
        self.next_handle as nat
    }

    pub fn new() -> (r: MockRenderer)
        ensures
            r.calls() == Seq::<RenderCall<Seq<char>>>::empty(),
            r.handles_made() == 0,
    {
        MockRenderer { log: Vec::new(), next_handle: 0 }
    }

    pub fn clear_log(&mut self)
        ensures
            final(self).calls() == Seq::<RenderCall<Seq<char>>>::empty(),
            final(self).handles_made() == old(self).handles_made(),
    {
        self.log.clear();
        assert(render_calls_view(self.log@) =~= Seq::<RenderCall<Seq<char>>>::empty());
    }

    pub fn log(&self) -> (r: &[RenderCall])
        ensures
            render_calls_view(r@) == self.calls(),
    {
        self.log.as_slice()
    }

    pub fn create(&mut self, kind: NodeKind, node: NodeId)
        requires
            old(self).handles_made() < u32::MAX,
        ensures
            final(self).calls() == old(self).calls().push(RenderCall::Create { kind }),
            final(self).handles_made() == old(self).handles_made() + 1,
    {
        self.next_handle = self.next_handle + 1;
        self.log.push(RenderCall::Create { kind });
        assert(render_calls_view(self.log@) =~= render_calls_view(old(self).log@).push(
            RenderCall::Create { kind },
        ));
    }

    pub fn set_prop(&mut self, node: NodeId, key: PropKey, value: PropValue)
        ensures
            final(self).calls() == old(self).calls().push(
                RenderCall::SetProp { node, key, value: prop_value_view(value) },
            ),
            final(self).handles_made() == old(self).handles_made(),
    {
        let ghost v = value;
        self.log.push(RenderCall::SetProp { node, key, value });
        assert(render_calls_view(self.log@) =~= render_calls_view(old(self).log@).push(
            RenderCall::SetProp { node, key, value: prop_value_view(v) },
        ));
    }

    pub fn commit(&mut self)
        ensures
            final(self).calls() == old(self).calls().push(RenderCall::Commit),
            final(self).handles_made() == old(self).handles_made(),
    {
        self.log.push(RenderCall::Commit);
        assert(render_calls_view(self.log@) =~= render_calls_view(old(self).log@).push(
            RenderCall::Commit,
        ));
    }
}

} // verus!
