//! Native host bridge: decoding the command buffer on the host side, and an
//! in-process host that applies decoded operations to an in-memory view tree.

use vstd::prelude::*;
use crate::bytes::{le16, le32, le64, read_le16, read_le32, read_le64, u16_at, u32_at, u64_at};
use crate::bytes::{lemma_le16, lemma_le32, lemma_le64, push_le64};
use crate::ir::node_kind_code;
use crate::platform::renderer::{
    op_bytes, ops_bytes, prop_key_code, push_bytes, str_bytes, value_bytes, CommandOp, PropKey, PropValue,
};

verus! {

/// An operation as a native host (Swift/Kotlin) reads it. `S` is the type of
/// string payloads (`String`, or `Seq<char>` in the specification).
#[derive(Clone, Debug)]
pub enum DecodedOp<S = String> {
    Create { handle: u32, kind: u16 },
    SetProp { handle: u32, key: u16, value: DecodedValue<S> },
    InsertChild { parent: u32, child: u32, index: u32 },
    Remove { handle: u32 },
    SetHandler { handle: u32, handler_id: u32 },
}

/// A decoded property value; a float is its `f64` bit pattern.
#[derive(Clone, Debug)]
pub enum DecodedValue<S = String> {
    Str(S),
    Int(i64),
    Float(u64),
    Bool(bool),
}

#[derive(Clone, Copy, Debug, PartialEq, Eq, Structural)]
pub enum DecodeError {
    UnexpectedEof,
    UnknownOp(u8),
    UnknownValueTag(u8),
}

pub open spec fn value_view(v: DecodedValue) -> DecodedValue<Seq<char>> {
    match v {
        DecodedValue::Str(s) => DecodedValue::Str(s@),
        DecodedValue::Int(n) => DecodedValue::Int(n),
        DecodedValue::Float(f) => DecodedValue::Float(f),
        DecodedValue::Bool(b) => DecodedValue::Bool(b),
    }
}

pub open spec fn op_view(o: DecodedOp) -> DecodedOp<Seq<char>> {
    match o {
        DecodedOp::Create { handle, kind } => DecodedOp::Create { handle, kind },
        DecodedOp::SetProp { handle, key, value } => DecodedOp::SetProp {
            handle,
            key,
            value: value_view(value),
        },
        DecodedOp::InsertChild { parent, child, index } => DecodedOp::InsertChild {
            parent,
            child,
            index,
        },
        DecodedOp::Remove { handle } => DecodedOp::Remove { handle },
        DecodedOp::SetHandler { handle, handler_id } => DecodedOp::SetHandler { handle, handler_id },
    }
}

pub open spec fn ops_view(ops: Seq<DecodedOp>) -> Seq<DecodedOp<Seq<char>>> {
    ops.map_values(|o: DecodedOp| op_view(o))
}

/// The characters `String::from_utf8_lossy` makes of `b`.
pub uninterp spec fn utf8_lossy(b: Seq<u8>) -> Seq<char>;

/// Calls `String::from_utf8_lossy`. Its result is named `utf8_lossy`; as std
/// documents, valid UTF-8 is decoded unchanged (invalid sequences become
/// U+FFFD, which is left unsaid here).
#[verifier::external_body]
pub(crate) fn string_from_utf8_lossy(b: &[u8]) -> (s: String)
    ensures
        s@ == utf8_lossy(b@),
        vstd::utf8::valid_utf8(b@) ==> s@ == vstd::utf8::decode_utf8(b@),
{
    String::from_utf8_lossy(b).into_owned()
}

/// The characters a string payload `b` decodes to: its UTF-8 decoding where it
/// is valid UTF-8, else what lossy decoding makes of it.
pub open spec fn utf8_text(b: Seq<u8>) -> Seq<char> {
    if vstd::utf8::valid_utf8(b) {
        vstd::utf8::decode_utf8(b)
    } else {
        utf8_lossy(b)
    }
}

/// The value encoded at `i` of `b`, and the position after it.
pub open spec fn decode_value_at(b: Seq<u8>, i: int) -> Result<(DecodedValue<Seq<char>>, int), DecodeError> {
    if i >= b.len() {
        Err(DecodeError::UnexpectedEof)
    } else if b[i] == 0 {
        if i + 3 > b.len() {
            Err(DecodeError::UnexpectedEof)
        } else {
            let end = i + 3 + u16_at(b, i + 1);
            if end > b.len() {
                Err(DecodeError::UnexpectedEof)
            } else {
                Ok((DecodedValue::Str(utf8_text(b.subrange(i + 3, end))), end))
            }
        }
    } else if b[i] == 1 {
        if i + 9 > b.len() {
            Err(DecodeError::UnexpectedEof)
        } else {
            Ok((DecodedValue::Int(u64_at(b, i + 1) as i64), i + 9))
        }
    } else if b[i] == 2 {
        if i + 9 > b.len() {
            Err(DecodeError::UnexpectedEof)
        } else {
            Ok((DecodedValue::Float(u64_at(b, i + 1)), i + 9))
        }
    } else if b[i] == 3 {
        if i + 2 > b.len() {
            Err(DecodeError::UnexpectedEof)
        } else {
            Ok((DecodedValue::Bool(b[i + 1] != 0), i + 2))
        }
    } else {
        Err(DecodeError::UnknownValueTag(b[i]))
    }
}

/// The operation encoded at the start of `b` (not empty), and its length.
pub open spec fn decode_one(b: Seq<u8>) -> Result<(DecodedOp<Seq<char>>, int), DecodeError> {
    let tag = b[0];
    if tag == 0 {
        if 7 > b.len() {
            Err(DecodeError::UnexpectedEof)
        } else {
            Ok((DecodedOp::Create { handle: u32_at(b, 1), kind: u16_at(b, 5) }, 7))
        }
    } else if tag == 1 {
        if 7 > b.len() {
            Err(DecodeError::UnexpectedEof)
        } else {
            match decode_value_at(b, 7) {
                Ok((value, n)) => Ok(
                    (DecodedOp::SetProp { handle: u32_at(b, 1), key: u16_at(b, 5), value }, n),
                ),
                Err(e) => Err(e),
            }
        }
    } else if tag == 2 {
        if 13 > b.len() {
            Err(DecodeError::UnexpectedEof)
        } else {
            Ok(
                (
                    DecodedOp::InsertChild {
                        parent: u32_at(b, 1),
                        child: u32_at(b, 5),
                        index: u32_at(b, 9),
                    },
                    13,
                ),
            )
        }
    } else if tag == 3 {
        if 5 > b.len() {
            Err(DecodeError::UnexpectedEof)
        } else {
            Ok((DecodedOp::Remove { handle: u32_at(b, 1) }, 5))
        }
    } else if tag == 4 {
        if 9 > b.len() {
            Err(DecodeError::UnexpectedEof)
        } else {
            Ok((DecodedOp::SetHandler { handle: u32_at(b, 1), handler_id: u32_at(b, 5) }, 9))
        }
    } else {
        Err(DecodeError::UnknownOp(tag))
    }
}

pub proof fn lemma_decode_one_len(b: Seq<u8>)
    requires
        b.len() > 0,
    ensures
        decode_one(b) matches Ok((_, n)) ==> 0 < n <= b.len(),
{
}

/// Decoding a whole buffer: the operations one after another, or the first error.
pub open spec fn decode_seq(b: Seq<u8>) -> Result<Seq<DecodedOp<Seq<char>>>, DecodeError>
    decreases b.len(),
{
    if b.len() == 0 {
        Ok(Seq::empty())
    } else {
        match decode_one(b) {
            Err(e) => Err(e),
            Ok((op, n)) => {
                proof {
                    lemma_decode_one_len(b);
                }
                match decode_seq(b.subrange(n, b.len() as int)) {
                    Ok(rest) => Ok(seq![op] + rest),
                    Err(e) => Err(e),
                }
            },
        }
    }
}

pub open spec fn prepend<T>(p: Seq<T>, r: Result<Seq<T>, DecodeError>) -> Result<Seq<T>, DecodeError> {
    match r {
        Ok(x) => Ok(p + x),
        Err(e) => Err(e),
    }
}

fn read_u32(bytes: &[u8], i: usize) -> (r: Result<(u32, usize), DecodeError>)
    ensures
        match r {
            Ok((v, n)) => i + 4 <= bytes@.len() && v == u32_at(bytes@, i as int) && n == i + 4,
            Err(e) => i + 4 > bytes@.len() && e == DecodeError::UnexpectedEof,
        },
{
    if i > bytes.len() || bytes.len() - i < 4 {
        return Err(DecodeError::UnexpectedEof);
    }
    Ok((read_le32(bytes, i), i + 4))
}

fn read_u16(bytes: &[u8], i: usize) -> (r: Result<(u16, usize), DecodeError>)
    ensures
        match r {
            Ok((v, n)) => i + 2 <= bytes@.len() && v == u16_at(bytes@, i as int) && n == i + 2,
            Err(e) => i + 2 > bytes@.len() && e == DecodeError::UnexpectedEof,
        },
{
    if i > bytes.len() || bytes.len() - i < 2 {
        return Err(DecodeError::UnexpectedEof);
    }
    Ok((read_le16(bytes, i), i + 2))
}

fn read_u64(bytes: &[u8], i: usize) -> (r: Result<(u64, usize), DecodeError>)
    ensures
        match r {
            Ok((v, n)) => i + 8 <= bytes@.len() && v == u64_at(bytes@, i as int) && n == i + 8,
            Err(e) => i + 8 > bytes@.len() && e == DecodeError::UnexpectedEof,
        },
{
    if i > bytes.len() || bytes.len() - i < 8 {
        return Err(DecodeError::UnexpectedEof);
    }
    Ok((read_le64(bytes, i), i + 8))
}

fn read_i64(bytes: &[u8], i: usize) -> (r: Result<(i64, usize), DecodeError>)
    ensures
        match r {
            Ok((v, n)) => i + 8 <= bytes@.len() && v == u64_at(bytes@, i as int) as i64 && n == i + 8,
            Err(e) => i + 8 > bytes@.len() && e == DecodeError::UnexpectedEof,
        },
{
    let (v, n) = read_u64(bytes, i)?;
    Ok((v as i64, n))
}

fn decode_value(bytes: &[u8], i: usize) -> (r: Result<(DecodedValue, usize), DecodeError>)
    ensures
        match r {
            Ok((v, n)) => decode_value_at(bytes@, i as int) == Ok::<_, DecodeError>((value_view(v), n as int)),
            Err(e) => decode_value_at(bytes@, i as int) == Err::<(DecodedValue<Seq<char>>, int), _>(e),
        },
{
    if i >= bytes.len() {
        return Err(DecodeError::UnexpectedEof);
    }
    let tag = bytes[i];
    if tag == 0 {
        let (len, ni) = read_u16(bytes, i + 1)?;
        if len as usize > bytes.len() - ni {
            return Err(DecodeError::UnexpectedEof);
        }
        let end = ni + len as usize;
        let s = string_from_utf8_lossy(&bytes[ni..end]);
        assert(s@ == utf8_text(bytes@.subrange(ni as int, end as int)));
        Ok((DecodedValue::Str(s), end))
    } else if tag == 1 {
        let (v, ni) = read_i64(bytes, i + 1)?;
        Ok((DecodedValue::Int(v), ni))
    } else if tag == 2 {
        let (v, ni) = read_u64(bytes, i + 1)?;
        Ok((DecodedValue::Float(v), ni))
    } else if tag == 3 {
        if bytes.len() - i < 2 {
            return Err(DecodeError::UnexpectedEof);
        }
        Ok((DecodedValue::Bool(bytes[i + 1] != 0), i + 2))
    } else {
        Err(DecodeError::UnknownValueTag(tag))
    }
}

/// Decodes the operation at the start of `b`.
fn decode_first(b: &[u8]) -> (r: Result<(DecodedOp, usize), DecodeError>)
    requires
        b@.len() > 0,
    ensures
        match r {
            Ok((op, n)) => decode_one(b@) == Ok::<_, DecodeError>((op_view(op), n as int)),
            Err(e) => decode_one(b@) == Err::<(DecodedOp<Seq<char>>, int), _>(e),
        },
{
    let tag = b[0];
    if tag == 0 {
        let (handle, ni) = read_u32(b, 1)?;
        let (kind, nk) = read_u16(b, ni)?;
        Ok((DecodedOp::Create { handle, kind }, nk))
    } else if tag == 1 {
        let (handle, ni) = read_u32(b, 1)?;
        let (key, nk) = read_u16(b, ni)?;
        let (value, nv) = decode_value(b, nk)?;
        Ok((DecodedOp::SetProp { handle, key, value }, nv))
    } else if tag == 2 {
        let (parent, ni) = read_u32(b, 1)?;
        let (child, nc) = read_u32(b, ni)?;
        let (index, nx) = read_u32(b, nc)?;
        Ok((DecodedOp::InsertChild { parent, child, index }, nx))
    } else if tag == 3 {
        let (handle, ni) = read_u32(b, 1)?;
        Ok((DecodedOp::Remove { handle }, ni))
    } else if tag == 4 {
        let (handle, ni) = read_u32(b, 1)?;
        let (handler_id, nh) = read_u32(b, ni)?;
        Ok((DecodedOp::SetHandler { handle, handler_id }, nh))
    } else {
        Err(DecodeError::UnknownOp(tag))
    }
}

/// Decodes a command buffer produced by `CommandBuffer::encode`.
pub fn decode_ops(bytes: &[u8]) -> (r: Result<Vec<DecodedOp>, DecodeError>)
    ensures
        match r {
            Ok(ops) => decode_seq(bytes@) == Ok::<_, DecodeError>(ops_view(ops@)),
            Err(e) => decode_seq(bytes@) == Err::<Seq<DecodedOp<Seq<char>>>, _>(e),
        },
{
    let mut ops: Vec<DecodedOp> = Vec::new();
    let mut i: usize = 0;
    assert(bytes@.subrange(0, bytes@.len() as int) =~= bytes@);
    assert(ops_view(ops@) =~= Seq::<DecodedOp<Seq<char>>>::empty());
    while i < bytes.len()
        invariant
            i <= bytes@.len(),
            decode_seq(bytes@) == prepend(ops_view(ops@), decode_seq(bytes@.subrange(i as int, bytes@.len() as int))),
        decreases bytes@.len() - i,
    {
        let rest = &bytes[i..bytes.len()];
        let ghost before = ops_view(ops@);
        match decode_first(rest) {
            Err(e) => {
                return Err(e);
            },
            Ok((op, n)) => {
                proof {
                    lemma_decode_one_len(rest@);
                    assert(rest@.subrange(n as int, rest@.len() as int) =~= bytes@.subrange(
                        i + n,
                        bytes@.len() as int,
                    ));
                }
                ops.push(op);
                i = i + n;
                proof {
                    assert(ops_view(ops@) =~= before.push(op_view(op)));
                    let tail = decode_seq(bytes@.subrange(i as int, bytes@.len() as int));
                    match tail {
                        Ok(x) => {
                            assert(before + (seq![op_view(op)] + x) =~= ops_view(ops@) + x);
                        },
                        Err(_) => {},
                    }
                }
            },
        }
    }
    proof {
        assert(bytes@.subrange(i as int, bytes@.len() as int) =~= Seq::<u8>::empty());
        assert(ops_view(ops@) + Seq::<DecodedOp<Seq<char>>>::empty() =~= ops_view(ops@));
    }
    Ok(ops)
}


// ---------------------------------------------------------------------------
// Encoding then decoding

/// Operations that survive the wire unchanged: the decoder has no `SetFrame`,
/// and a string's length must fit the 16-bit length field.
pub open spec fn roundtrip_ok(op: CommandOp) -> bool {
    match op {
        CommandOp::SetFrame { .. } => false,
        CommandOp::SetProp { value: PropValue::Str(s), .. } => str_bytes(s@).len() <= 65535,
        _ => true,
    }
}

pub open spec fn decoded_value_of(v: PropValue) -> DecodedValue<Seq<char>> {
    match v {
        PropValue::Str(s) => DecodedValue::Str(s@),
        PropValue::Int(n) => DecodedValue::Int(n),
        PropValue::Float(f) => DecodedValue::Float(f.bits),
        PropValue::Bool(b) => DecodedValue::Bool(b),
    }
}

/// What the host reads back for an operation the renderer encoded.
pub open spec fn decoded_of(op: CommandOp) -> DecodedOp<Seq<char>> {
    match op {
        CommandOp::Create { kind, handle } => DecodedOp::Create { handle, kind: node_kind_code(kind) },
        CommandOp::SetProp { handle, key, value } => DecodedOp::SetProp {
            handle,
            key: prop_key_code(key),
            value: decoded_value_of(value),
        },
        CommandOp::InsertChild { parent, child, index } => DecodedOp::InsertChild {
            parent,
            child,
            index,
        },
        CommandOp::Remove { handle } => DecodedOp::Remove { handle },
        CommandOp::SetHandler { handle, handler_id } => DecodedOp::SetHandler { handle, handler_id },
        CommandOp::SetFrame { handle, .. } => DecodedOp::Remove { handle },
    }
}

proof fn lemma_u16_in(b: Seq<u8>, i: int, x: u16)
    requires
        0 <= i,
        i + 2 <= b.len(),
        b.subrange(i, i + 2) == le16(x),
    ensures
        u16_at(b, i) == x,
{
    lemma_le16(x);
    assert(b[i] == le16(x)[0] && b[i + 1] == le16(x)[1]);
}

proof fn lemma_u32_in(b: Seq<u8>, i: int, x: u32)
    requires
        0 <= i,
        i + 4 <= b.len(),
        b.subrange(i, i + 4) == le32(x),
    ensures
        u32_at(b, i) == x,
{
    lemma_le32(x);
    assert(b[i] == le32(x)[0] && b[i + 1] == le32(x)[1] && b[i + 2] == le32(x)[2] && b[i + 3] == le32(x)[3]);
}

proof fn lemma_u64_in(b: Seq<u8>, i: int, x: u64)
    requires
        0 <= i,
        i + 8 <= b.len(),
        b.subrange(i, i + 8) == le64(x),
    ensures
        u64_at(b, i) == x,
{
    lemma_le64(x);
    let e = le64(x);
    assert forall|k: int| 0 <= k < 8 implies b[i + k] == e[k] by {
        assert(b.subrange(i, i + 8)[k] == b[i + k]);
    }
}

proof fn lemma_decode_value_bytes(pre: Seq<u8>, v: PropValue, tail: Seq<u8>)
    requires
        match v {
            PropValue::Str(s) => str_bytes(s@).len() <= 65535,
            _ => true,
        },
    ensures
        decode_value_at(pre + value_bytes(v) + tail, pre.len() as int) == Ok::<_, DecodeError>(
            (decoded_value_of(v), (pre.len() + value_bytes(v).len()) as int),
        ),
{
    let b = pre + value_bytes(v) + tail;
    let i = pre.len() as int;
    assert(b[i] == value_bytes(v)[0]);
    match v {
        PropValue::Str(s) => {
            let bytes = str_bytes(s@);
            let n = bytes.len();
            assert(b.subrange(i + 1, i + 3) =~= le16(n as u16));
            lemma_u16_in(b, i + 1, n as u16);
            assert(b.subrange(i + 3, i + 3 + n) =~= bytes);
            vstd::utf8::encode_utf8_valid_utf8(s@);
            vstd::utf8::encode_utf8_decode_utf8(s@);
        },
        PropValue::Int(x) => {
            assert(b.subrange(i + 1, i + 9) =~= le64(x as u64));
            lemma_u64_in(b, i + 1, x as u64);
            assert((x as u64) as i64 == x) by (bit_vector);
        },
        PropValue::Float(f) => {
            assert(b.subrange(i + 1, i + 9) =~= le64(f.bits));
            lemma_u64_in(b, i + 1, f.bits);
        },
        PropValue::Bool(x) => {},
    }
}

proof fn lemma_decode_create(kind: crate::ir::NodeKind, handle: u32, tail: Seq<u8>)
    ensures
        ({
            let op = CommandOp::Create { kind, handle };
            decode_one(op_bytes(op) + tail) == Ok::<_, DecodeError>((decoded_of(op), op_bytes(op).len() as int))
        }),
{
    let b = op_bytes(CommandOp::Create { kind, handle }) + tail;
    assert(b.subrange(1, 5) =~= le32(handle));
    assert(b.subrange(5, 7) =~= le16(node_kind_code(kind)));
    lemma_u32_in(b, 1, handle);
    lemma_u16_in(b, 5, node_kind_code(kind));
}

proof fn lemma_decode_set_prop(handle: u32, key: PropKey, value: PropValue, tail: Seq<u8>)
    requires
        roundtrip_ok(CommandOp::SetProp { handle, key, value }),
    ensures
        ({
            let op = CommandOp::SetProp { handle, key, value };
            decode_one(op_bytes(op) + tail) == Ok::<_, DecodeError>((decoded_of(op), op_bytes(op).len() as int))
        }),
{
    let b = op_bytes(CommandOp::SetProp { handle, key, value }) + tail;
    let pre = seq![1u8] + le32(handle) + le16(prop_key_code(key));
    assert(b =~= pre + value_bytes(value) + tail);
    assert(b.subrange(1, 5) =~= le32(handle));
    assert(b.subrange(5, 7) =~= le16(prop_key_code(key)));
    lemma_u32_in(b, 1, handle);
    lemma_u16_in(b, 5, prop_key_code(key));
    lemma_decode_value_bytes(pre, value, tail);
}

proof fn lemma_decode_insert_child(parent: u32, child: u32, index: u32, tail: Seq<u8>)
    ensures
        ({
            let op = CommandOp::InsertChild { parent, child, index };
            decode_one(op_bytes(op) + tail) == Ok::<_, DecodeError>((decoded_of(op), op_bytes(op).len() as int))
        }),
{
    let b = op_bytes(CommandOp::InsertChild { parent, child, index }) + tail;
    assert(b.subrange(1, 5) =~= le32(parent));
    assert(b.subrange(5, 9) =~= le32(child));
    assert(b.subrange(9, 13) =~= le32(index));
    lemma_u32_in(b, 1, parent);
    lemma_u32_in(b, 5, child);
    lemma_u32_in(b, 9, index);
}

proof fn lemma_decode_remove(handle: u32, tail: Seq<u8>)
    ensures
        ({
            let op = CommandOp::Remove { handle };
            decode_one(op_bytes(op) + tail) == Ok::<_, DecodeError>((decoded_of(op), op_bytes(op).len() as int))
        }),
{
    let b = op_bytes(CommandOp::Remove { handle }) + tail;
    assert(b.subrange(1, 5) =~= le32(handle));
    lemma_u32_in(b, 1, handle);
}

proof fn lemma_decode_set_handler(handle: u32, handler_id: u32, tail: Seq<u8>)
    ensures
        ({
            let op = CommandOp::SetHandler { handle, handler_id };
            decode_one(op_bytes(op) + tail) == Ok::<_, DecodeError>((decoded_of(op), op_bytes(op).len() as int))
        }),
{
    let b = op_bytes(CommandOp::SetHandler { handle, handler_id }) + tail;
    assert(b.subrange(1, 5) =~= le32(handle));
    assert(b.subrange(5, 9) =~= le32(handler_id));
    lemma_u32_in(b, 1, handle);
    lemma_u32_in(b, 5, handler_id);
}

proof fn lemma_decode_op_bytes(op: CommandOp, tail: Seq<u8>)
    requires
        roundtrip_ok(op),
    ensures
        decode_one(op_bytes(op) + tail) == Ok::<_, DecodeError>((decoded_of(op), op_bytes(op).len() as int)),
{
    match op {
        CommandOp::Create { kind, handle } => lemma_decode_create(kind, handle, tail),
        CommandOp::SetProp { handle, key, value } => lemma_decode_set_prop(handle, key, value, tail),
        CommandOp::InsertChild { parent, child, index } => lemma_decode_insert_child(parent, child, index, tail),
        CommandOp::Remove { handle } => lemma_decode_remove(handle, tail),
        CommandOp::SetHandler { handle, handler_id } => lemma_decode_set_handler(handle, handler_id, tail),
        CommandOp::SetFrame { .. } => {},
    }
}

/// Decoding what `CommandBuffer::encode` produced gives back every operation,
/// in order, as the host sees it — for buffers without `SetFrame` whose strings
/// fit the 16-bit length field.
pub proof fn lemma_encode_decode_roundtrip(ops: Seq<CommandOp>)
    requires
        forall|i: int| 0 <= i < ops.len() ==> roundtrip_ok(#[trigger] ops[i]),
    ensures
        decode_seq(ops_bytes(ops)) == Ok::<_, DecodeError>(ops.map_values(|op: CommandOp| decoded_of(op))),
    decreases ops.len(),
{
    if ops.len() == 0 {
        assert(ops.map_values(|op: CommandOp| decoded_of(op)) =~= Seq::<DecodedOp<Seq<char>>>::empty());
    } else {
        let rest = ops.drop_first();
        assert forall|i: int| 0 <= i < rest.len() implies roundtrip_ok(#[trigger] rest[i]) by {
            assert(rest[i] == ops[i + 1]);
        }
        lemma_encode_decode_roundtrip(rest);
        let b = ops_bytes(ops);
        let first = op_bytes(ops[0]);
        assert(roundtrip_ok(ops[0]));
        lemma_decode_op_bytes(ops[0], ops_bytes(rest));
        assert(b == first + ops_bytes(rest));
        assert(b.subrange(first.len() as int, b.len() as int) =~= ops_bytes(rest));
        assert(ops.map_values(|op: CommandOp| decoded_of(op)) =~= seq![decoded_of(ops[0])]
            + rest.map_values(|op: CommandOp| decoded_of(op)));
    }
}

} // verus!

verus! {

broadcast use vstd::std_specs::hash::group_hash_axioms;

/// The bytes a C host is handed for a property value: a string's UTF-8
/// bytes, an integer's eight little-endian bytes, a float's eight
/// little-endian bytes of its bit pattern, a boolean's one byte.
pub open spec fn c_value_bytes(v: DecodedValue<Seq<char>>) -> Seq<u8> {
    match v {
        DecodedValue::Str(s) => str_bytes(s),
        DecodedValue::Int(n) => le64(n as u64),
        DecodedValue::Float(bits) => le64(bits),
        DecodedValue::Bool(b) => seq![if b { 1u8 } else { 0u8 }],
    }
}

/// Encodes a decoded property value for a C host.
pub fn encode_value_for_c(value: &DecodedValue) -> (r: Vec<u8>)
    ensures
        r@ == c_value_bytes(value_view(*value)),
{
    let mut buf: Vec<u8> = Vec::new();
    match value {
        DecodedValue::Str(s) => push_bytes(&mut buf, s.as_str().as_bytes()),
        DecodedValue::Int(n) => push_le64(&mut buf, *n as u64),
        DecodedValue::Float(bits) => push_le64(&mut buf, *bits),
        DecodedValue::Bool(b) => buf.push(if *b { 1 } else { 0 }),
    }
    assert(buf@ =~= c_value_bytes(value_view(*value)));
    buf
}

/// Platform callbacks invoked when a renderer flushes a frame with the
/// encoded command buffer.
pub trait HostCallbacks: Send {
    fn apply_ops(&mut self, ops: &[u8]);
}

/// One view of the in-process host.
#[derive(Clone, Debug)]
pub struct ViewState {
    pub kind: u16,
    pub props: std::collections::HashMap<u16, DecodedValue>,
    pub children: Vec<u32>,
}

/// In-process host for tests: applies decoded operations to an in-memory view tree.
#[derive(Clone, Debug)]
pub struct InProcessHost {
    pub ops_log: Vec<DecodedOp>,
    pub views: std::collections::HashMap<u32, ViewState>,
    pub root_children: Vec<u32>,
}

pub struct ViewModel {
    pub kind: u16,
    pub props: Map<u16, DecodedValue<Seq<char>>>,
    pub children: Seq<u32>,
}

pub struct HostModel {
    pub ops_log: Seq<DecodedOp<Seq<char>>>,
    pub views: Map<u32, ViewModel>,
    pub root_children: Seq<u32>,
}

pub open spec fn view_model(v: ViewState) -> ViewModel {
    ViewModel {
        kind: v.kind,
        props: v.props@.map_values(|d: DecodedValue| value_view(d)),
        children: v.children@,
    }
}

pub open spec fn host_model(h: InProcessHost) -> HostModel {
    HostModel {
        ops_log: ops_view(h.ops_log@),
        views: h.views@.map_values(|v: ViewState| view_model(v)),
        root_children: h.root_children@,
    }
}

/// `index` capped at `len` (as a `u32`).
pub open spec fn capped(index: u32, len: nat) -> u32 {
    if index < (len as u32) {
        index
    } else {
        len as u32
    }
}

/// The host after applying one decoded operation.
pub open spec fn apply_one_spec(h: HostModel, op: DecodedOp<Seq<char>>) -> HostModel {
    match op {
        DecodedOp::Create { handle, kind } => HostModel {
            views: h.views.insert(handle, ViewModel { kind, props: Map::empty(), children: Seq::empty() }),
            ..h
        },
        DecodedOp::SetProp { handle, key, value } => if h.views.contains_key(handle) {
            let v = h.views[handle];
            HostModel { views: h.views.insert(handle, ViewModel { props: v.props.insert(key, value), ..v }), ..h }
        } else {
            h
        },
        DecodedOp::InsertChild { parent, child, index } => if parent == u32::MAX {
            let idx = capped(index, h.root_children.len());
            if idx <= h.root_children.len() {
                HostModel { root_children: h.root_children.insert(idx as int, child), ..h }
            } else {
                h
            }
        } else if h.views.contains_key(parent) {
            let p = h.views[parent];
            let idx = capped(index, p.children.len());
            HostModel {
                views: h.views.insert(parent, ViewModel { children: p.children.insert(idx as int, child), ..p }),
                ..h
            }
        } else {
            h
        },
        DecodedOp::Remove { handle } => HostModel { views: h.views.remove(handle), ..h },
        DecodedOp::SetHandler { .. } => h,
    }
}

/// The host after applying decoded operations in order, each logged.
pub open spec fn apply_all_spec(h: HostModel, ops: Seq<DecodedOp<Seq<char>>>) -> HostModel
    decreases ops.len(),
{
    if ops.len() == 0 {
        h
    } else {
        let h1 = apply_one_spec(h, ops[0]);
        apply_all_spec(HostModel { ops_log: h1.ops_log.push(ops[0]), ..h1 }, ops.drop_first())
    }
}

fn clone_value(v: &DecodedValue) -> (r: DecodedValue)
    ensures
        value_view(r) == value_view(*v),
{
    match v {
        DecodedValue::Str(s) => DecodedValue::Str(s.clone()),
        DecodedValue::Int(n) => DecodedValue::Int(*n),
        DecodedValue::Float(f) => DecodedValue::Float(*f),
        DecodedValue::Bool(b) => DecodedValue::Bool(*b),
    }
}

fn clone_op(o: &DecodedOp) -> (r: DecodedOp)
    ensures
        op_view(r) == op_view(*o),
{
    match o {
        DecodedOp::Create { handle, kind } => DecodedOp::Create { handle: *handle, kind: *kind },
        DecodedOp::SetProp { handle, key, value } => DecodedOp::SetProp {
            handle: *handle,
            key: *key,
            value: clone_value(value),
        },
        DecodedOp::InsertChild { parent, child, index } => DecodedOp::InsertChild {
            parent: *parent,
            child: *child,
            index: *index,
        },
        DecodedOp::Remove { handle } => DecodedOp::Remove { handle: *handle },
        DecodedOp::SetHandler { handle, handler_id } => DecodedOp::SetHandler {
            handle: *handle,
            handler_id: *handler_id,
        },
    }
}

impl HostCallbacks for InProcessHost {
    /// Decodes the buffer and applies its operations in order, logging each;
    /// a buffer that does not decode is not applied at all.
    fn apply_ops(&mut self, bytes: &[u8])
        ensures
            decode_seq(bytes@) is Ok ==> host_model(*final(self)) == apply_all_spec(
                host_model(*old(self)),
                decode_seq(bytes@)->Ok_0,
            ),
            decode_seq(bytes@) is Err ==> host_model(*final(self)) == host_model(*old(self)),
    {
        let decoded = match decode_ops(bytes) {
            Ok(d) => d,
            Err(_) => return,
        };
        let ghost all = ops_view(decoded@);
        let mut i: usize = 0;
        assert(all.subrange(0, all.len() as int) =~= all);
        while i < decoded.len()
            invariant
                i <= decoded@.len(),
                all == ops_view(decoded@),
                apply_all_spec(host_model(*self), all.subrange(i as int, all.len() as int))
                    == apply_all_spec(host_model(*old(self)), all),
            decreases decoded@.len() - i,
        {
            let ghost before = host_model(*self);
            let ghost rest = all.subrange(i as int, all.len() as int);
            assert(rest[0] == op_view(decoded@[i as int]));
            assert(rest.drop_first() =~= all.subrange(i + 1, all.len() as int));
            self.apply_one(&decoded[i]);
            let ghost mid = host_model(*self);
            let logged = clone_op(&decoded[i]);
            self.ops_log.push(logged);
            assert(ops_view(self.ops_log@) =~= mid.ops_log.push(op_view(decoded@[i as int])));
            i = i + 1;
        }
        assert(all.subrange(i as int, all.len() as int) =~= Seq::<DecodedOp<Seq<char>>>::empty());
        assert(all.subrange(0, all.len() as int) =~= all);
    }
}

impl Default for InProcessHost {
    fn default() -> (h: InProcessHost)
        ensures
            host_model(h).ops_log.len() == 0,
            host_model(h).views == Map::<u32, ViewModel>::empty(),
            host_model(h).root_children.len() == 0,
    {
        InProcessHost::new()
    }
}

impl InProcessHost {
    pub fn new() -> (h: InProcessHost)
        ensures
            host_model(h).ops_log.len() == 0,
            host_model(h).views == Map::<u32, ViewModel>::empty(),
            host_model(h).root_children.len() == 0,
    {
        let h = InProcessHost {
            ops_log: Vec::new(),
            views: std::collections::HashMap::new(),
            root_children: Vec::new(),
        };
        assert(host_model(h).views =~= Map::<u32, ViewModel>::empty());
        h
    }

    fn apply_one(&mut self, op: &DecodedOp)
        ensures
            host_model(*final(self)) == apply_one_spec(host_model(*old(self)), op_view(*op)),
    {
        let ghost h0 = host_model(*self);
        match *op {
            DecodedOp::Create { handle, kind } => {
                let v = ViewState { kind, props: std::collections::HashMap::new(), children: Vec::new() };
                assert(view_model(v).props =~= Map::<u16, DecodedValue<Seq<char>>>::empty());
                assert(view_model(v).children =~= Seq::<u32>::empty());
                self.views.insert(handle, v);
                assert(host_model(*self).views =~= h0.views.insert(handle, view_model(v)));
            },
            DecodedOp::SetProp { handle, key, ref value } => {
                let value = clone_value(value);
                if let Some(mut v) = self.views.remove(&handle) {
                    let ghost vm = view_model(v);
                    let ghost dv = value_view(value);
                    v.props.insert(key, value);
                    assert(view_model(v).props =~= vm.props.insert(key, dv));
                    self.views.insert(handle, v);
                    assert(host_model(*self).views =~= h0.views.insert(
                        handle,
                        ViewModel { props: vm.props.insert(key, dv), ..vm },
                    ));
                } else {
                    assert(host_model(*self).views =~= h0.views);
                }
            },
            DecodedOp::InsertChild { parent, child, index } => {
                if parent == u32::MAX {
                    let n = self.root_children.len();
                    let cap = n as u32;
                    let idx = if index < cap { index } else { cap } as usize;
                    if idx <= self.root_children.len() {
                        self.root_children.insert(idx, child);
                    }
                } else if let Some(mut p) = self.views.remove(&parent) {
                    let ghost pm = view_model(p);
                    let n = p.children.len();
                    let cap = n as u32;
                    let idx = if index < cap { index } else { cap } as usize;
                    p.children.insert(idx, child);
                    self.views.insert(parent, p);
                    assert(host_model(*self).views =~= h0.views.insert(
                        parent,
                        ViewModel { children: pm.children.insert(idx as int, child), ..pm },
                    ));
                } else {
                    assert(host_model(*self).views =~= h0.views);
                }
            },
            DecodedOp::Remove { handle } => {
                self.views.remove(&handle);
                assert(host_model(*self).views =~= h0.views.remove(handle));
            },
            DecodedOp::SetHandler { .. } => {},
        }
    }
}

} // verus!

verus! {

/// Maps prop keys to their wire numbers (as Swift/Kotlin `FlashPropKey` read them).
pub fn prop_key_to_wire(key: &PropKey) -> (c: u16)
    ensures
        c == prop_key_code(*key),
{
    match key {
        PropKey::Text => 0,
        PropKey::Title => 1,
        PropKey::Value => 2,
        PropKey::Src => 3,
        PropKey::FontSize => 4,
        PropKey::FontWeight => 5,
        PropKey::Color => 6,
        PropKey::Padding => 7,
        PropKey::Background => 8,
    }
}

/// The platform key of an IR prop key.
pub open spec fn platform_key_of(key: crate::ir::PropKey) -> PropKey {
    match key {
        crate::ir::PropKey::Text => PropKey::Text,
        crate::ir::PropKey::Title => PropKey::Title,
        crate::ir::PropKey::Value => PropKey::Value,
        crate::ir::PropKey::Src => PropKey::Src,
    }
}

pub fn ir_prop_to_platform(key: crate::ir::PropKey) -> (k: PropKey)
    ensures
        k == platform_key_of(key),
{
    match key {
        crate::ir::PropKey::Text => PropKey::Text,
        crate::ir::PropKey::Title => PropKey::Title,
        crate::ir::PropKey::Value => PropKey::Value,
        crate::ir::PropKey::Src => PropKey::Src,
    }
}

/// Distinct keys have distinct wire numbers, and IR keys keep theirs.
pub proof fn lemma_prop_key_wire(a: PropKey, b: PropKey, k: crate::ir::PropKey, l: crate::ir::PropKey)
    ensures
        prop_key_code(a) == prop_key_code(b) ==> a == b,
        platform_key_of(k) == platform_key_of(l) ==> k == l,
{
}

} // verus!
