use flash::ir::hot_reload::{diff_static_props, map_slot_values, plan_hot_reload, HotReloadPlan, RemountReason};
use flash::ir::{DepTable, ExprId, IrExpr, NodeId, NodeIr, NodeKind, PropKey, ScreenIr, SlotDef, SlotId, StaticProp, TypeKind, UpdateOp};
use flash::num::FloatLit;
use flash::runtime::hot_reload::DevSession;
use flash::runtime::reactive::ops_evaluate;
use flash::span::Symbol;

fn minimal_screen(text_label: &str) -> ScreenIr {
    ScreenIr {
        name: Symbol(1),
        slots: vec![SlotDef {
            name: Symbol(2),
            ty: TypeKind::Int,
            init: IrExpr::Int(0),
        }],
        nodes: vec![
            NodeIr {
                kind: NodeKind::COLUMN,
                parent: None,
                children: vec![NodeId(1), NodeId(2)],
                handler: None,
            },
            NodeIr {
                kind: NodeKind::TEXT,
                parent: Some(NodeId(0)),
                children: vec![],
                handler: None,
            },
            NodeIr {
                kind: NodeKind::BUTTON,
                parent: Some(NodeId(0)),
                children: vec![],
                handler: None,
            },
        ],
        static_props: vec![StaticProp {
            node: NodeId(2),
            key: PropKey::Title,
            value: IrExpr::Str(text_label.to_string()),
        }],
        update_ops: vec![UpdateOp {
            node: NodeId(1),
            key: PropKey::Text,
            expr: ExprId(0),
            reads: vec![SlotId(0)],
        }],
        deps: DepTable::build(
            1,
            &[UpdateOp {
                node: NodeId(1),
                key: PropKey::Text,
                expr: ExprId(0),
                reads: vec![SlotId(0)],
            }],
        ),
        handlers: vec![],
        actions: vec![],
        listens: vec![],
        exprs: vec![IrExpr::Slot(SlotId(0))],
    }
}

#[test]
fn props_only_when_label_changes() {
    let old = minimal_screen("Increment");
    let new = minimal_screen("Add");
    assert_eq!(plan_hot_reload(&old, &new), HotReloadPlan::PropsOnly);
    assert!(!diff_static_props(&old.static_props, &new.static_props).is_empty());
}

#[test]
fn remount_when_node_count_changes() {
    let old = minimal_screen("Go");
    let mut new = minimal_screen("Go");
    new.nodes.push(NodeIr {
        kind: NodeKind::TEXT,
        parent: Some(NodeId(0)),
        children: vec![],
        handler: None,
    });
    assert!(matches!(
        plan_hot_reload(&old, &new),
        HotReloadPlan::Remount { reason: RemountReason::NodeCountChanged }
    ));
}

#[test]
fn preserve_slots_by_name() {
    let old_slots = vec![
        SlotDef {
            name: Symbol(10),
            ty: TypeKind::Int,
            init: IrExpr::Int(0),
        },
        SlotDef {
            name: Symbol(11),
            ty: TypeKind::Int,
            init: IrExpr::Int(0),
        },
    ];
    let new_slots = vec![
        SlotDef {
            name: Symbol(11),
            ty: TypeKind::Int,
            init: IrExpr::Int(0),
        },
        SlotDef {
            name: Symbol(12),
            ty: TypeKind::Int,
            init: IrExpr::Int(99),
        },
    ];
    let mapped = map_slot_values(&old_slots, &[3, 7], &new_slots);
    assert_eq!(mapped, vec![7, 99]);
}

#[test]
fn same_screen_patches_props_only_and_diffs_nothing() {
    let a = minimal_screen("Go");
    let b = minimal_screen("Go");
    assert_eq!(plan_hot_reload(&a, &b), HotReloadPlan::PropsOnly);
    assert!(diff_static_props(&a.static_props, &b.static_props).is_empty());
}

#[test]
fn slot_count_change_is_checked_first() {
    let old = minimal_screen("Go");
    let mut new = minimal_screen("Go");
    new.slots.push(SlotDef { name: Symbol(3), ty: TypeKind::Int, init: IrExpr::Int(5) });
    new.nodes.pop();
    assert_eq!(
        plan_hot_reload(&old, &new),
        HotReloadPlan::Remount { reason: RemountReason::SlotCountChanged }
    );
}

#[test]
fn kind_change_is_reported() {
    let old = minimal_screen("Go");
    let mut new = minimal_screen("Go");
    new.nodes[1].kind = NodeKind::IMAGE;
    assert_eq!(
        plan_hot_reload(&old, &new),
        HotReloadPlan::Remount { reason: RemountReason::NodeKindChanged }
    );
}

#[test]
fn children_change_is_reported() {
    let old = minimal_screen("Go");
    let mut new = minimal_screen("Go");
    new.nodes[0].children = vec![NodeId(2), NodeId(1)];
    assert_eq!(
        plan_hot_reload(&old, &new),
        HotReloadPlan::Remount { reason: RemountReason::ChildrenChanged }
    );
}

#[test]
fn added_prop_is_listed_twice() {
    let old = minimal_screen("Go");
    let mut new = minimal_screen("Go");
    new.static_props.push(StaticProp { node: NodeId(1), key: PropKey::Text, value: IrExpr::Int(1) });
    assert_eq!(
        diff_static_props(&old.static_props, &new.static_props),
        vec![(1, PropKey::Text), (1, PropKey::Text)]
    );
}

#[test]
fn nan_props_print_alike() {
    let nan = 0x7ff8_0000_0000_0000u64;
    let other_nan = 0xfff8_0000_0000_0001u64;
    let old = vec![StaticProp {
        node: NodeId(0),
        key: PropKey::Value,
        value: IrExpr::Float(FloatLit { bits: nan, text: "NaN".to_string() }),
    }];
    let new = vec![StaticProp {
        node: NodeId(0),
        key: PropKey::Value,
        value: IrExpr::Float(FloatLit { bits: other_nan, text: "NaN".to_string() }),
    }];
    assert!(diff_static_props(&old, &new).is_empty());
    let zero = vec![StaticProp {
        node: NodeId(0),
        key: PropKey::Value,
        value: IrExpr::Float(FloatLit { bits: 0, text: "0".to_string() }),
    }];
    let neg_zero = vec![StaticProp {
        node: NodeId(0),
        key: PropKey::Value,
        value: IrExpr::Float(FloatLit { bits: 0x8000_0000_0000_0000, text: "-0".to_string() }),
    }];
    assert_eq!(diff_static_props(&zero, &neg_zero), vec![(0, PropKey::Value)]);
}

#[test]
fn unknown_slot_takes_its_default() {
    let old_slots = vec![SlotDef { name: Symbol(1), ty: TypeKind::Int, init: IrExpr::Int(4) }];
    let new_slots = vec![
        SlotDef { name: Symbol(2), ty: TypeKind::Str, init: IrExpr::Str("x".to_string()) },
        SlotDef { name: Symbol(1), ty: TypeKind::Int, init: IrExpr::Int(0) },
    ];
    assert_eq!(map_slot_values(&old_slots, &[42], &new_slots), vec![0, 42]);
}

#[test]
fn mounting_checks_that_updates_evaluate() {
    let ok = minimal_screen("Add");
    assert!(DevSession::can_mount(&ok));
    let mut overflowing = minimal_screen("Add");
    overflowing.slots[0].init = IrExpr::Int(1);
    overflowing.exprs[0] = IrExpr::Add(SlotId(0), i64::MAX);
    assert!(!DevSession::can_mount(&overflowing));
    let mut missing = minimal_screen("Add");
    missing.exprs[0] = IrExpr::Concat(vec![IrExpr::Str("n=".to_string()), IrExpr::Slot(SlotId(3))]);
    assert!(!DevSession::can_mount(&missing));
    assert!(ops_evaluate(&overflowing, &[-1]));
    assert!(!ops_evaluate(&overflowing, &[1]));
}

#[test]
fn reloading_checks_the_values_it_keeps() {
    let session = DevSession::mount(minimal_screen("Add"));
    assert!(session.can_apply(&minimal_screen("Plus")));
    let mut overflowing = minimal_screen("Plus");
    overflowing.exprs[0] = IrExpr::Add(SlotId(0), i64::MAX);
    assert!(session.can_apply(&overflowing));
    overflowing.exprs[0] = IrExpr::Add(SlotId(0), i64::MIN);
    assert!(session.can_apply(&overflowing));
    let mut wider = minimal_screen("Plus");
    wider.slots[0].init = IrExpr::Int(5);
    wider.exprs[0] = IrExpr::Add(SlotId(1), 1);
    assert!(!session.can_apply(&wider));
}
