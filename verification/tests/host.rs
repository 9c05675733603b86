use flash::ir::NodeKind;
use flash::platform::host::{decode_ops, DecodeError, DecodedOp, DecodedValue, HostCallbacks, InProcessHost};
use flash::platform::renderer::{CommandBuffer, CommandOp, PropKey, PropValue};

#[test]
fn roundtrip_command_buffer() {
    let mut buf = CommandBuffer::new();
    buf.ops.push(CommandOp::Create {
        kind: NodeKind::TEXT,
        handle: 1,
    });
    buf.ops.push(CommandOp::SetProp {
        handle: 1,
        key: PropKey::Text,
        value: PropValue::Str("Hello".into()),
    });
    let bytes = buf.encode();
    let ops = decode_ops(&bytes).unwrap();
    assert_eq!(ops.len(), 2);
    assert!(matches!(
        &ops[1],
        DecodedOp::SetProp { value: DecodedValue::Str(s), .. } if s == "Hello"
    ));
}

#[test]
fn in_process_host_creates_views() {
    let mut host = InProcessHost::default();
    let mut buf = CommandBuffer::new();
    buf.ops.push(CommandOp::Create {
        kind: NodeKind::COLUMN,
        handle: 0,
    });
    buf.ops.push(CommandOp::Create {
        kind: NodeKind::TEXT,
        handle: 1,
    });
    buf.ops.push(CommandOp::InsertChild {
        parent: 0,
        child: 1,
        index: 0,
    });
    host.apply_ops(&buf.encode());
    assert_eq!(host.views.len(), 2);
    assert_eq!(host.views.get(&0).unwrap().children, vec![1]);
}

#[test]
fn encoding_bytes_are_exact() {
    let mut buf = CommandBuffer::new();
    buf.ops.push(CommandOp::Create { kind: NodeKind::BUTTON, handle: 0x0102_0304 });
    buf.ops.push(CommandOp::SetProp { handle: 7, key: PropKey::Title, value: PropValue::Bool(true) });
    assert_eq!(
        buf.encode(),
        vec![0, 4, 3, 2, 1, 1, 0, 1, 7, 0, 0, 0, 1, 0, 3, 1]
    );
    assert_eq!(buf.len(), 2);
    buf.clear();
    assert_eq!(buf.len(), 0);
    assert!(buf.encode().is_empty());
}

#[test]
fn decode_errors() {
    assert_eq!(decode_ops(&[9]).unwrap_err(), DecodeError::UnknownOp(9));
    assert_eq!(decode_ops(&[0, 1, 0]).unwrap_err(), DecodeError::UnexpectedEof);
    assert_eq!(
        decode_ops(&[1, 1, 0, 0, 0, 0, 0, 7]).unwrap_err(),
        DecodeError::UnknownValueTag(7)
    );
    assert!(decode_ops(&[]).unwrap().is_empty());
}

#[test]
fn decode_int_and_float_values() {
    let mut buf = CommandBuffer::new();
    buf.ops.push(CommandOp::SetProp { handle: 2, key: PropKey::Value, value: PropValue::Int(-5) });
    buf.ops.push(CommandOp::Remove { handle: 2 });
    buf.ops.push(CommandOp::SetHandler { handle: 3, handler_id: 9 });
    let ops = decode_ops(&buf.encode()).unwrap();
    assert!(matches!(ops[0], DecodedOp::SetProp { handle: 2, key: 2, value: DecodedValue::Int(-5) }));
    assert!(matches!(ops[1], DecodedOp::Remove { handle: 2 }));
    assert!(matches!(ops[2], DecodedOp::SetHandler { handle: 3, handler_id: 9 }));
}

#[test]
fn host_applies_props_and_removals() {
    let mut host = InProcessHost::new();
    let mut buf = CommandBuffer::new();
    buf.ops.push(CommandOp::Create { kind: NodeKind::TEXT, handle: 4 });
    buf.ops.push(CommandOp::SetProp { handle: 4, key: PropKey::Text, value: PropValue::Str("hi".into()) });
    buf.ops.push(CommandOp::SetProp { handle: 5, key: PropKey::Text, value: PropValue::Str("ignored".into()) });
    buf.ops.push(CommandOp::InsertChild { parent: u32::MAX, child: 4, index: 10 });
    host.apply_ops(&buf.encode());
    assert_eq!(host.ops_log.len(), 4);
    assert_eq!(host.root_children, vec![4]);
    assert!(matches!(host.views.get(&4).unwrap().props.get(&0), Some(DecodedValue::Str(s)) if s == "hi"));
    let mut rm = CommandBuffer::new();
    rm.ops.push(CommandOp::Remove { handle: 4 });
    host.apply_ops(&rm.encode());
    assert!(host.views.is_empty());
}
