//! Native renderer: builds the command buffer for a native host and flushes
//! it on `commit`.

use vstd::prelude::*;
use crate::ir::{NodeId, NodeKind};
use crate::platform::host::HostCallbacks;
use crate::platform::renderer::{ops_bytes, ops_view, CommandBuffer, CommandOp, OpView, PropKey, PropValue};

verus! {

broadcast use vstd::std_specs::hash::group_hash_axioms;

/// Renderer that batches operations and flushes them to a native host on `commit`.
pub struct NativeRenderer<H: HostCallbacks> {
    buffer: CommandBuffer,
    next_handle: u32,
    node_handles: std::collections::HashMap<u32, u32>,
    host: H,
    sent: Ghost<Seq<Seq<u8>>>,
}

impl<H: HostCallbacks> NativeRenderer<H> {
    /// The operations buffered since the last commit.
    pub closed spec fn pending(&self) -> Seq<CommandOp> {
        self.buffer.ops@
    }

    /// The handle the next created node receives.
    pub closed spec fn next(&self) -> u32 {
        self.next_handle
    }

    /// Native handles of registered nodes, by node id.
    pub closed spec fn handles(&self) -> Map<u32, u32> {
        self.node_handles@
    }

    pub closed spec fn host_of(&self) -> H {
        self.host
    }

    /// Every buffer handed to the host so far, in order.
    pub closed spec fn sent(&self) -> Seq<Seq<u8>> {
        self.sent@
    }

    /// The buffered operations, by their views.
    pub open spec fn pending_view(&self) -> Seq<OpView> {
        ops_view(self.pending())
    }

    pub fn new(host: H) -> (r: Self)
        ensures
            r.pending().len() == 0,
            r.next() == 1,
            r.handles() == Map::<u32, u32>::empty(),
            handles_fresh(r.next(), r.handles()),
            r.host_of() == host,
            r.sent().len() == 0,
    {
        NativeRenderer {
            buffer: CommandBuffer::new(),
            next_handle: 1,
            node_handles: std::collections::HashMap::new(),
            host,
            sent: Ghost(Seq::empty()),
        }
    }

    pub fn pending_ops(&self) -> (n: usize)
        ensures
            n == self.pending().len(),
    {
        self.buffer.len()
    }

    pub fn encode_pending(&self) -> (b: Vec<u8>)
        ensures
            b@ == ops_bytes(self.pending()),
    {
        self.buffer.encode()
    }

    pub fn host(&self) -> (h: &H)
        ensures
            *h == self.host_of(),
    {
        &self.host
    }

    /// Creates a native view for `node` and remembers its handle.
    pub fn register_node(&mut self, node: NodeId, kind: NodeKind) -> (handle: u32)
        requires
            old(self).next() < u32::MAX,
        ensures
            handle == old(self).next(),
            handles_fresh(old(self).next(), old(self).handles()) ==> {
                &&& 1 <= handle
                &&& forall|n: u32| old(self).handles().contains_key(n) ==> #[trigger] old(self).handles()[n] < handle
                &&& handles_fresh(final(self).next(), final(self).handles())
            },
            final(self).next() == old(self).next() + 1,
            final(self).handles() == old(self).handles().insert(node.0, handle),
            final(self).pending() == old(self).pending().push(CommandOp::Create { kind, handle }),
            final(self).host_of() == old(self).host_of(),
            final(self).sent() == old(self).sent(),
    {
        let handle = self.next_handle;
        self.next_handle = self.next_handle + 1;
        self.node_handles.insert(node.0, handle);
        self.buffer.ops.push(CommandOp::Create { kind, handle });
        handle
    }

    /// The native handle registered for `node`, if any.
    pub fn handle_for(&self, node: NodeId) -> (h: Option<u32>)
        ensures
            handles_fresh(self.next(), self.handles()) ==> (h matches Some(x) ==> 1 <= x < self.next()),
            h == (if self.handles().contains_key(node.0) {
                Some(self.handles()[node.0])
            } else {
                None::<u32>
            }),
    {
        match self.node_handles.get(&node.0) {
            Some(h) => Some(*h),
            None => None,
        }
    }

    pub fn create(&mut self, kind: NodeKind) -> (handle: u32)
        requires
            old(self).next() < u32::MAX,
        ensures
            handle == old(self).next(),
            handles_fresh(old(self).next(), old(self).handles()) ==> {
                &&& 1 <= handle
                &&& forall|n: u32| old(self).handles().contains_key(n) ==> #[trigger] old(self).handles()[n] < handle
                &&& handles_fresh(final(self).next(), final(self).handles())
            },
            final(self).next() == old(self).next() + 1,
            final(self).handles() == old(self).handles(),
            final(self).pending() == old(self).pending().push(CommandOp::Create { kind, handle }),
            final(self).host_of() == old(self).host_of(),
            final(self).sent() == old(self).sent(),
    {
        let handle = self.next_handle;
        self.next_handle = self.next_handle + 1;
        self.buffer.ops.push(CommandOp::Create { kind, handle });
        handle
    }

    pub fn set_prop(&mut self, handle: u32, key: PropKey, value: PropValue)
        ensures
            final(self).pending() == old(self).pending().push(CommandOp::SetProp { handle, key, value }),
            final(self).next() == old(self).next(),
            final(self).handles() == old(self).handles(),
            final(self).host_of() == old(self).host_of(),
            final(self).sent() == old(self).sent(),
    {
        self.buffer.ops.push(CommandOp::SetProp { handle, key, value });
    }

    pub fn insert_child(&mut self, parent: u32, child: u32, index: u32)
        ensures
            final(self).pending() == old(self).pending().push(CommandOp::InsertChild { parent, child, index }),
            final(self).next() == old(self).next(),
            final(self).handles() == old(self).handles(),
            final(self).host_of() == old(self).host_of(),
            final(self).sent() == old(self).sent(),
    {
        self.buffer.ops.push(CommandOp::InsertChild { parent, child, index });
    }

    pub fn remove(&mut self, handle: u32)
        ensures
            final(self).pending() == old(self).pending().push(CommandOp::Remove { handle }),
            final(self).next() == old(self).next(),
            final(self).handles() == old(self).handles(),
            final(self).host_of() == old(self).host_of(),
            final(self).sent() == old(self).sent(),
    {
        self.buffer.ops.push(CommandOp::Remove { handle });
    }

    pub fn set_handler(&mut self, handle: u32, handler_id: u32)
        ensures
            final(self).pending() == old(self).pending().push(CommandOp::SetHandler { handle, handler_id }),
            final(self).next() == old(self).next(),
            final(self).handles() == old(self).handles(),
            final(self).host_of() == old(self).host_of(),
            final(self).sent() == old(self).sent(),
    {
        self.buffer.ops.push(CommandOp::SetHandler { handle, handler_id });
    }

    /// Buffers a frame assignment (coordinates as `f32` bit patterns).
    pub fn set_frame(&mut self, handle: u32, x: u32, y: u32, width: u32, height: u32)
        ensures
            final(self).pending() == old(self).pending().push(
                CommandOp::SetFrame { handle, x, y, width, height },
            ),
            final(self).next() == old(self).next(),
            final(self).handles() == old(self).handles(),
            final(self).host_of() == old(self).host_of(),
            final(self).sent() == old(self).sent(),
    {
        self.buffer.ops.push(CommandOp::SetFrame { handle, x, y, width, height });
    }

    /// One boundary crossing: hands the encoded buffer to the host and clears
    /// it; nothing is sent when the buffer is empty.
    pub fn commit(&mut self)
        ensures
            final(self).pending().len() == 0,
            final(self).next() == old(self).next(),
            final(self).handles() == old(self).handles(),
            old(self).pending().len() == 0 ==> final(self).host_of() == old(self).host_of()
                && final(self).sent() == old(self).sent(),
            old(self).pending().len() > 0 ==> final(self).sent() == old(self).sent().push(
                ops_bytes(old(self).pending()),
            ),
    {
        if self.buffer.ops.len() > 0 {
            let bytes = self.buffer.encode();
            proof {
                self.sent@ = self.sent@.push(bytes@);
            }
            self.host.apply_ops(bytes.as_slice());
            self.buffer.clear();
        }
    }
}

/// Handles are fresh: they start at 1, and every handle given to a node is
/// below the handle the next node receives.
pub open spec fn handles_fresh(next: u32, handles: Map<u32, u32>) -> bool {
    next >= 1 && forall|n: u32| handles.contains_key(n) ==> 1 <= #[trigger] handles[n] < next
}

/// A new renderer's handles are fresh.
pub proof fn lemma_new_handles_fresh()
    ensures
        handles_fresh(1, Map::<u32, u32>::empty()),
{
}

/// Registering a node keeps the handles fresh, and gives it a handle that no
/// other registered node has; creating an unregistered view keeps them fresh
/// too.
pub proof fn lemma_register_keeps_handles_fresh(next: u32, handles: Map<u32, u32>, node: u32)
    requires
        handles_fresh(next, handles),
        next < u32::MAX,
    ensures
        handles_fresh((next + 1) as u32, handles.insert(node, next)),
        handles_fresh((next + 1) as u32, handles),
        forall|n: u32| handles.contains_key(n) && n != node ==> #[trigger] handles.insert(node, next)[n] != next,
{
}

/// Sets a prop on a Flash node through its native handle; does nothing for a
/// node that was never registered.
pub fn set_node_prop<H: HostCallbacks>(renderer: &mut NativeRenderer<H>, node: NodeId, key: PropKey, value: PropValue)
    ensures
        final(renderer).pending() == (if old(renderer).handles().contains_key(node.0) {
            old(renderer).pending().push(
                CommandOp::SetProp { handle: old(renderer).handles()[node.0], key, value },
            )
        } else {
            old(renderer).pending()
        }),
        final(renderer).next() == old(renderer).next(),
        final(renderer).handles() == old(renderer).handles(),
        final(renderer).host_of() == old(renderer).host_of(),
        final(renderer).sent() == old(renderer).sent(),
{
    if let Some(handle) = renderer.handle_for(node) {
        renderer.set_prop(handle, key, value);
    }
}

} // verus!
