use flash::ir::{NodeId, NodeKind};
use flash::platform::host::{decode_ops, encode_value_for_c, prop_key_to_wire, DecodedOp, DecodedValue, InProcessHost};
use flash::platform::native_renderer::{set_node_prop, NativeRenderer};
use flash::platform::renderer::{PropKey, PropValue};
use flash::ir::animation::{AnimatableProp, Easing};
use flash::platform::animation::{animatable_to_native_key, easing_to_platform, AnimationHandle};
use flash::platform::target::PlatformTarget;

#[test]
fn targets_parse_in_any_case() {
    assert_eq!(PlatformTarget::from_str("IOS"), Some(PlatformTarget::Ios));
    assert_eq!(PlatformTarget::from_str("Android"), Some(PlatformTarget::Android));
    assert_eq!(PlatformTarget::from_str("web"), Some(PlatformTarget::Web));
    assert_eq!(PlatformTarget::from_str("wasm"), None);
    for t in PlatformTarget::all() {
        assert_eq!(PlatformTarget::from_str(t.name()), Some(t));
    }
    assert_eq!(PlatformTarget::all_mobile(), [PlatformTarget::Ios, PlatformTarget::Android]);
    assert_eq!(PlatformTarget::Android.triple(), "aarch64-linux-android");
    assert_eq!(PlatformTarget::Web.native_backend(), "DOM");
    assert_eq!(PlatformTarget::Ios.ffi_mechanism(), "C static lib + vtable");
    assert_eq!(PlatformTarget::Android.frame_driver(), "Choreographer");
}

#[test]
fn easing_and_key_names() {
    assert_eq!(easing_to_platform(Easing::EaseIn, PlatformTarget::Ios), "easeIn");
    assert_eq!(easing_to_platform(Easing::EaseIn, PlatformTarget::Android), "accelerate");
    assert_eq!(easing_to_platform(Easing::EaseOut, PlatformTarget::Web), "decelerate");
    assert_eq!(
        easing_to_platform(Easing::Spring { damping: 0x3f00_0000, stiffness: 0x42c8_0000 }, PlatformTarget::Web),
        "spring"
    );
    assert_eq!(animatable_to_native_key(AnimatableProp::Scale, PlatformTarget::Android), "scaleX");
    assert_eq!(animatable_to_native_key(AnimatableProp::Rotate, PlatformTarget::Ios), "transform.rotation.z");
    assert_eq!(animatable_to_native_key(AnimatableProp::Opacity, PlatformTarget::Web), "opacity");
    assert_eq!(AnimationHandle(3), AnimationHandle(3));
}

#[test]
fn animatable_names() {
    assert!(AnimatableProp::is_animatable("offset"));
    assert_eq!(AnimatableProp::from_name("offset"), None);
    assert_eq!(AnimatableProp::from_name("translateY"), Some(AnimatableProp::TranslateY));
    assert!(!AnimatableProp::is_animatable("width"));
}

#[test]
fn prop_keys_have_fixed_wire_numbers() {
    assert_eq!(prop_key_to_wire(&PropKey::Text), 0);
    assert_eq!(prop_key_to_wire(&PropKey::Title), 1);
    assert_eq!(prop_key_to_wire(&PropKey::Src), 3);
    assert_eq!(prop_key_to_wire(&PropKey::Background), 8);
}

#[test]
fn native_renderer_batches_until_commit() {
    let mut r = NativeRenderer::new(InProcessHost::new());
    let h = r.register_node(NodeId(0), NodeKind::TEXT);
    assert_eq!(h, 1);
    assert_eq!(r.handle_for(NodeId(0)), Some(1));
    set_node_prop(&mut r, NodeId(0), PropKey::Text, PropValue::Str("hi".into()));
    set_node_prop(&mut r, NodeId(7), PropKey::Text, PropValue::Str("lost".into()));
    assert_eq!(r.pending_ops(), 2);
    let ops = decode_ops(&r.encode_pending()).unwrap();
    assert_eq!(ops.len(), 2);
    assert!(matches!(ops[0], DecodedOp::Create { handle: 1, .. }));
    assert!(matches!(ops[1], DecodedOp::SetProp { handle: 1, key: 0, .. }));
    assert_eq!(r.host().ops_log.len(), 0);
    r.commit();
    assert_eq!(r.pending_ops(), 0);
    assert_eq!(r.host().ops_log.len(), 2);
}

#[test]
fn commit_sends_frames_the_host_cannot_decode() {
    let mut r = NativeRenderer::new(InProcessHost::new());
    let h = r.register_node(NodeId(0), NodeKind::TEXT);
    r.set_frame(h, 0, 0, 0x3f80_0000, 0x3f80_0000);
    assert_eq!(r.pending_ops(), 2);
    r.commit();
    assert_eq!(r.pending_ops(), 0);
    assert_eq!(r.handle_for(NodeId(0)), Some(1));
    // The in-process host has no frame operation, so it applies nothing.
    assert_eq!(r.host().ops_log.len(), 0);
    r.commit();
    assert_eq!(r.pending_ops(), 0);
}

#[test]
fn values_for_c_hosts() {
    assert_eq!(encode_value_for_c(&DecodedValue::Str("hé".to_string())), vec![b'h', 0xc3, 0xa9]);
    assert_eq!(encode_value_for_c(&DecodedValue::Int(-2)), vec![0xfe, 0xff, 0xff, 0xff, 0xff, 0xff, 0xff, 0xff]);
    assert_eq!(encode_value_for_c(&DecodedValue::Int(258)), vec![2, 1, 0, 0, 0, 0, 0, 0]);
    assert_eq!(encode_value_for_c(&DecodedValue::Float(1.5f64.to_bits())), 1.5f64.to_le_bytes().to_vec());
    assert_eq!(encode_value_for_c(&DecodedValue::Bool(true)), vec![1]);
    assert_eq!(encode_value_for_c(&DecodedValue::Bool(false)), vec![0]);
}

#[test]
fn handles_are_fresh() {
    let mut r = NativeRenderer::new(InProcessHost::new());
    let a = r.register_node(NodeId(4), NodeKind::TEXT);
    let b = r.create(NodeKind::COLUMN);
    let c = r.register_node(NodeId(9), NodeKind::BUTTON);
    assert_eq!((a, b, c), (1, 2, 3));
    assert_eq!(r.handle_for(NodeId(4)), Some(1));
    assert_eq!(r.handle_for(NodeId(9)), Some(3));
    let d = r.register_node(NodeId(4), NodeKind::TEXT);
    assert_eq!(d, 4);
    assert_eq!(r.handle_for(NodeId(4)), Some(4));
}
