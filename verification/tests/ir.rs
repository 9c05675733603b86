use flash::ir::text::push_body_debug;
use flash::ir::{AssignOp, DepTable, ExprId, HandlerBody, IrExpr, NodeId, NodeKind, PropKey, SlotId, UpdateOp};
use flash::num::{i64_to_string, FloatLit};
use flash::span::{Interner, Symbol};

#[test]
fn node_kinds_by_name_and_number() {
    assert_eq!(NodeKind::from_name("ScrollView"), Some(NodeKind::SCROLL_VIEW));
    assert_eq!(NodeKind::from_name("scrollview"), None);
    assert_eq!(NodeKind::LOADING.name(), "Loading");
    assert_eq!(NodeKind::TEXT_FIELD.as_u16(), 6);
    for k in [NodeKind::TEXT, NodeKind::BUTTON, NodeKind::LIST, NodeKind::IMAGE] {
        assert_eq!(NodeKind::from_name(k.name()), Some(k));
    }
}

fn op(node: u32, reads: Vec<u32>) -> UpdateOp {
    UpdateOp { node: NodeId(node), key: PropKey::Text, expr: ExprId(0), reads: reads.into_iter().map(SlotId).collect() }
}

#[test]
fn dependency_table_lists_readers() {
    let ops = vec![op(0, vec![1]), op(1, vec![0, 1]), op(2, vec![]), op(3, vec![1, 1])];
    let t = DepTable::build(3, &ops);
    assert_eq!(t.offsets, vec![0, 1, 5, 5]);
    assert_eq!(t.ops_for(SlotId(0)), &[1]);
    assert_eq!(t.ops_for(SlotId(1)), &[0, 1, 3, 3]);
    assert!(t.ops_for(SlotId(2)).is_empty());
}

#[test]
fn integer_text() {
    assert_eq!(i64_to_string(0), "0");
    assert_eq!(i64_to_string(-42), "-42");
    assert_eq!(i64_to_string(i64::MIN), "-9223372036854775808");
    assert_eq!(i64_to_string(i64::MAX), "9223372036854775807");
}

#[test]
fn float_equality_is_ieee() {
    let nan = FloatLit { bits: 0x7ff8_0000_0000_0000, text: "NaN".to_string() };
    assert!(nan != nan.clone());
    let zero = FloatLit { bits: 0, text: "0".to_string() };
    let neg_zero = FloatLit { bits: 0x8000_0000_0000_0000, text: "-0".to_string() };
    assert!(zero == neg_zero);
}

#[test]
fn interner_gives_back_symbols() {
    let mut i = Interner::new();
    let a = i.intern(b"count");
    let b = i.intern(b"total");
    let c = i.intern(b"count");
    assert_eq!(a, c);
    assert_ne!(a, b);
    assert_eq!(i.len(), 2);
    assert_eq!(a, Symbol(0));
}

#[test]
fn handler_bodies_print_as_debug_does() {
    let bodies = vec![
        HandlerBody::Increment(SlotId(0)),
        HandlerBody::Decrement(SlotId(7)),
        HandlerBody::InvokeAction(3),
        HandlerBody::Assign {
            slot: SlotId(1),
            op: AssignOp::Store,
            value: IrExpr::Concat(vec![IrExpr::Str("a\"b\\c\nd\te".to_string()), IrExpr::Slot(SlotId(2)), IrExpr::Bool(true)]),
        },
        HandlerBody::Assign { slot: SlotId(1), op: AssignOp::Add, value: IrExpr::Add(SlotId(4), -5) },
        HandlerBody::Sequence(vec![HandlerBody::Increment(SlotId(1)), HandlerBody::Assign {
            slot: SlotId(0),
            op: AssignOp::Store,
            value: IrExpr::Int(-12),
        }]),
        HandlerBody::Assign { slot: SlotId(0), op: AssignOp::Store, value: IrExpr::Error },
    ];
    for b in &bodies {
        let mut s = String::new();
        push_body_debug(&mut s, b);
        assert_eq!(s, format!("{:?}", b));
    }
}
