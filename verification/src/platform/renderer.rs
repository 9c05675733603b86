//! Platform-agnostic renderer trait and the command buffer that batches all
//! native UI operations of a frame into one boundary crossing.

use vstd::prelude::*;
use vstd::string::StringSliceAdditionalSpecFns;
use crate::bytes::{le16, le32, le64, push_le16, push_le32, push_le64};
use crate::ir::{node_kind_code, NodeKind};
use crate::num::FloatLit;

verus! {

/// Property keys shared across all platforms.
#[derive(Clone, Copy, Debug, PartialEq, Eq, Structural)]
pub enum PropKey {
    Text,
    Title,
    Value,
    Src,
    FontSize,
    FontWeight,
    Color,
    Padding,
    Background,
}

/// The wire number of a property key.
pub open spec fn prop_key_code(k: PropKey) -> u16 {
    match k {
        PropKey::Text => 0,
        PropKey::Title => 1,
        PropKey::Value => 2,
        PropKey::Src => 3,
        PropKey::FontSize => 4,
        PropKey::FontWeight => 5,
        PropKey::Color => 6,
        PropKey::Padding => 7,
        PropKey::Background => 8,
    }
}

/// Platform-neutral property value.
#[derive(Clone, Debug)]
pub enum PropValue {
    Str(String),
    Int(i64),
    Float(FloatLit),
    Bool(bool),
}

/// One native UI operation. Frame coordinates are `f32` values held as their
/// IEEE-754 bit patterns.
#[derive(Clone, Debug)]
pub enum CommandOp {
    Create { kind: NodeKind, handle: u32 },
    SetProp { handle: u32, key: PropKey, value: PropValue },
    InsertChild { parent: u32, child: u32, index: u32 },
    Remove { handle: u32 },
    SetHandler { handle: u32, handler_id: u32 },
    SetFrame { handle: u32, x: u32, y: u32, width: u32, height: u32 },
}

/// Batched operations of one frame.
#[derive(Clone, Debug)]
pub struct CommandBuffer {
    pub ops: Vec<CommandOp>,
}

/// The UTF-8 bytes of a string.
pub open spec fn str_bytes(s: Seq<char>) -> Seq<u8> {
    vstd::utf8::encode_utf8(s)
}

/// The wire form of a value: a tag byte, then the payload. A string's length
/// is written as a `u16`, so only its low 16 bits survive.
pub open spec fn value_bytes(v: PropValue) -> Seq<u8> {
    match v {
        PropValue::Str(s) => seq![0u8] + le16(str_bytes(s@).len() as u16) + str_bytes(s@),
        PropValue::Int(n) => seq![1u8] + le64(n as u64),
        PropValue::Float(f) => seq![2u8] + le64(f.bits),
        PropValue::Bool(b) => seq![3u8, if b { 1u8 } else { 0u8 }],
    }
}

/// The wire form of one operation: a tag byte, then its fields in order.
pub open spec fn op_bytes(op: CommandOp) -> Seq<u8> {
    match op {
        CommandOp::Create { kind, handle } => seq![0u8] + le32(handle) + le16(node_kind_code(kind)),
        CommandOp::SetProp { handle, key, value } => seq![1u8] + le32(handle) + le16(
            prop_key_code(key),
        ) + value_bytes(value),
        CommandOp::InsertChild { parent, child, index } => seq![2u8] + le32(parent) + le32(child)
            + le32(index),
        CommandOp::Remove { handle } => seq![3u8] + le32(handle),
        CommandOp::SetHandler { handle, handler_id } => seq![4u8] + le32(handle) + le32(handler_id),
        CommandOp::SetFrame { handle, x, y, width, height } => seq![5u8] + le32(handle) + le32(x)
            + le32(y) + le32(width) + le32(height),
    }
}

/// The wire form of a sequence of operations: their forms one after another.
pub open spec fn ops_bytes(ops: Seq<CommandOp>) -> Seq<u8>
    decreases ops.len(),
{
    if ops.len() == 0 {
        Seq::empty()
    } else {
        op_bytes(ops[0]) + ops_bytes(ops.drop_first())
    }
}

pub fn key_as_u16(key: &PropKey) -> (c: u16)
    ensures
        c == prop_key_code(*key),
{
    match key {
        PropKey::Text => 0,
        PropKey::Title => 1,
        PropKey::Value => 2,
        PropKey::Src => 3,
        PropKey::FontSize => 4,
        PropKey::FontWeight => 5,
        PropKey::Color => 6,
        PropKey::Padding => 7,
        PropKey::Background => 8,
    }
}

pub(crate) fn push_bytes(buf: &mut Vec<u8>, b: &[u8])
    ensures
        final(buf)@ == old(buf)@ + b@,
{
    let mut i: usize = 0;
    while i < b.len()
        invariant
            i <= b@.len(),
            buf@ == old(buf)@ + b@.subrange(0, i as int),
        decreases b@.len() - i,
    {
        buf.push(b[i]);
        i = i + 1;
        assert(buf@ =~= old(buf)@ + b@.subrange(0, i as int));
    }
    assert(b@.subrange(0, b@.len() as int) =~= b@);
}

pub fn encode_value(buf: &mut Vec<u8>, value: &PropValue)
    ensures
        final(buf)@ == old(buf)@ + value_bytes(*value),
{
    match value {
        PropValue::Str(s) => {
            buf.push(0);
            let bytes = s.as_str().as_bytes();
            push_le16(buf, bytes.len() as u16);
            push_bytes(buf, bytes);
        },
        PropValue::Int(v) => {
            buf.push(1);
            push_le64(buf, *v as u64);
        },
        PropValue::Float(v) => {
            buf.push(2);
            push_le64(buf, v.bits);
        },
        PropValue::Bool(v) => {
            buf.push(3);
            buf.push(if *v { 1 } else { 0 });
        },
    }
    assert(final(buf)@ =~= old(buf)@ + value_bytes(*value));
}

fn encode_op(buf: &mut Vec<u8>, op: &CommandOp)
    ensures
        final(buf)@ == old(buf)@ + op_bytes(*op),
{
    match op {
        CommandOp::Create { kind, handle } => {
            buf.push(0);
            push_le32(buf, *handle);
            push_le16(buf, kind.as_u16());
        },
        CommandOp::SetProp { handle, key, value } => {
            buf.push(1);
            push_le32(buf, *handle);
            push_le16(buf, key_as_u16(key));
            encode_value(buf, value);
        },
        CommandOp::InsertChild { parent, child, index } => {
            buf.push(2);
            push_le32(buf, *parent);
            push_le32(buf, *child);
            push_le32(buf, *index);
        },
        CommandOp::Remove { handle } => {
            buf.push(3);
            push_le32(buf, *handle);
        },
        CommandOp::SetHandler { handle, handler_id } => {
            buf.push(4);
            push_le32(buf, *handle);
            push_le32(buf, *handler_id);
        },
        CommandOp::SetFrame { handle, x, y, width, height } => {
            buf.push(5);
            push_le32(buf, *handle);
            push_le32(buf, *x);
            push_le32(buf, *y);
            push_le32(buf, *width);
            push_le32(buf, *height);
        },
    }
    assert(final(buf)@ =~= old(buf)@ + op_bytes(*op));
}

impl CommandBuffer {
    pub fn new() -> (b: CommandBuffer)
        ensures
            b.ops@.len() == 0,
    {
        CommandBuffer { ops: Vec::new() }
    }

    pub fn clear(&mut self)
        ensures
            final(self).ops@.len() == 0,
    {
        self.ops.clear();
    }

    pub fn len(&self) -> (n: usize)
        ensures
            n == self.ops@.len(),
    {
        self.ops.len()
    }

    /// Encodes the buffer to bytes for one boundary crossing.
    pub fn encode(&self) -> (buf: Vec<u8>)
        ensures
            buf@ == ops_bytes(self.ops@),
    {
        let mut buf: Vec<u8> = Vec::new();
        let mut i: usize = 0;
        assert(self.ops@.subrange(0, self.ops@.len() as int) =~= self.ops@);
        assert(buf@ + ops_bytes(self.ops@) =~= ops_bytes(self.ops@));
        while i < self.ops.len()
            invariant
                i <= self.ops@.len(),
                buf@ + ops_bytes(self.ops@.subrange(i as int, self.ops@.len() as int)) == ops_bytes(self.ops@),
            decreases self.ops@.len() - i,
        {
            let ghost before = buf@;
            proof {
                lemma_ops_bytes_step(self.ops@, i as int);
            }
            encode_op(&mut buf, &self.ops[i]);
            i = i + 1;
            proof {
                assert(buf@ + ops_bytes(self.ops@.subrange(i as int, self.ops@.len() as int)) =~= before
                    + ops_bytes(self.ops@.subrange(i - 1, self.ops@.len() as int)));
            }
        }
        proof {
            assert(self.ops@.subrange(0, self.ops@.len() as int) =~= self.ops@);
        }
        buf
    }
}

proof fn lemma_ops_bytes_step(ops: Seq<CommandOp>, i: int)
    requires
        0 <= i < ops.len(),
    ensures
        ops_bytes(ops.subrange(i, ops.len() as int)) == op_bytes(ops[i]) + ops_bytes(
            ops.subrange(i + 1, ops.len() as int),
        ),
{
    let rest = ops.subrange(i, ops.len() as int);
    assert(rest.drop_first() =~= ops.subrange(i + 1, ops.len() as int));
    assert(rest[0] == ops[i]);
}

/// What a property value amounts to: a string by its characters, a float by
/// its bit pattern.
pub enum ValueView {
    Str(Seq<char>),
    Int(i64),
    Float(u64),
    Bool(bool),
}

/// What an operation amounts to, its values taken by their views.
pub enum OpView {
    Create { kind: NodeKind, handle: u32 },
    SetProp { handle: u32, key: PropKey, value: ValueView },
    InsertChild { parent: u32, child: u32, index: u32 },
    Remove { handle: u32 },
    SetHandler { handle: u32, handler_id: u32 },
    SetFrame { handle: u32, x: u32, y: u32, width: u32, height: u32 },
}

pub open spec fn value_view_of(v: PropValue) -> ValueView {
    match v {
        PropValue::Str(s) => ValueView::Str(s@),
        PropValue::Int(n) => ValueView::Int(n),
        PropValue::Float(f) => ValueView::Float(f.bits),
        PropValue::Bool(b) => ValueView::Bool(b),
    }
}

pub open spec fn op_view_of(op: CommandOp) -> OpView {
    match op {
        CommandOp::Create { kind, handle } => OpView::Create { kind, handle },
        CommandOp::SetProp { handle, key, value } => OpView::SetProp { handle, key, value: value_view_of(value) },
        CommandOp::InsertChild { parent, child, index } => OpView::InsertChild { parent, child, index },
        CommandOp::Remove { handle } => OpView::Remove { handle },
        CommandOp::SetHandler { handle, handler_id } => OpView::SetHandler { handle, handler_id },
        CommandOp::SetFrame { handle, x, y, width, height } => OpView::SetFrame { handle, x, y, width, height },
    }
}

pub open spec fn ops_view(ops: Seq<CommandOp>) -> Seq<OpView> {
    ops.map_values(|o: CommandOp| op_view_of(o))
}

pub open spec fn value_view_bytes(v: ValueView) -> Seq<u8> {
    match v {
        ValueView::Str(s) => seq![0u8] + le16(str_bytes(s).len() as u16) + str_bytes(s),
        ValueView::Int(n) => seq![1u8] + le64(n as u64),
        ValueView::Float(f) => seq![2u8] + le64(f),
        ValueView::Bool(b) => seq![3u8, if b { 1u8 } else { 0u8 }],
    }
}

pub open spec fn op_view_bytes(op: OpView) -> Seq<u8> {
    match op {
        OpView::Create { kind, handle } => seq![0u8] + le32(handle) + le16(node_kind_code(kind)),
        OpView::SetProp { handle, key, value } => seq![1u8] + le32(handle) + le16(prop_key_code(key))
            + value_view_bytes(value),
        OpView::InsertChild { parent, child, index } => seq![2u8] + le32(parent) + le32(child) + le32(
            index,
        ),
        OpView::Remove { handle } => seq![3u8] + le32(handle),
        OpView::SetHandler { handle, handler_id } => seq![4u8] + le32(handle) + le32(handler_id),
        OpView::SetFrame { handle, x, y, width, height } => seq![5u8] + le32(handle) + le32(x) + le32(y)
            + le32(width) + le32(height),
    }
}

/// The wire form of a sequence of operation views.
pub open spec fn views_bytes(ops: Seq<OpView>) -> Seq<u8>
    decreases ops.len(),
{
    if ops.len() == 0 {
        Seq::empty()
    } else {
        op_view_bytes(ops[0]) + views_bytes(ops.drop_first())
    }
}

/// The bytes of a buffer depend only on the views of its operations.
pub proof fn lemma_ops_bytes_view(ops: Seq<CommandOp>)
    ensures
        ops_bytes(ops) == views_bytes(ops_view(ops)),
    decreases ops.len(),
{
    if ops.len() > 0 {
        lemma_ops_bytes_view(ops.drop_first());
        assert(ops_view(ops).drop_first() =~= ops_view(ops.drop_first()));
        assert(ops_view(ops)[0] == op_view_of(ops[0]));
        assert(op_bytes(ops[0]) == op_view_bytes(op_view_of(ops[0])));
    }
}

/// The renderer seam, implemented by the iOS, Android and Web adapters.
/// Frame coordinates are `f32` bit patterns.
pub trait PlatformRenderer {
    type Handle: Copy + Eq;

    fn create(&mut self, kind: NodeKind) -> Self::Handle;

    fn set_prop(&mut self, handle: Self::Handle, key: PropKey, value: PropValue);

    fn insert_child(&mut self, parent: Self::Handle, child: Self::Handle, index: u32);

    fn remove(&mut self, handle: Self::Handle);

    fn set_handler(&mut self, handle: Self::Handle, handler_id: u32);

    fn set_frame(&mut self, handle: Self::Handle, x: u32, y: u32, width: u32, height: u32);

    /// One boundary crossing per frame: flushes the buffered operations.
    fn commit(&mut self);
}

} // verus!
