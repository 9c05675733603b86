use flash::ir::hot_reload::{plan_hot_reload, HotReloadPlan};
use flash::ir::{
    DepTable, ExprId, HandlerBody, HandlerId, HandlerIr, IrExpr, NodeId, NodeIr, NodeKind, PropKey, ScreenIr,
    SlotDef, SlotId, StaticProp, TypeKind, UpdateOp,
};
use flash::platform::host::{DecodedValue, InProcessHost};
use flash::runtime::hot_reload::{DevSession, HotReloadKind};
use flash::runtime::live_renderer::{LiveRenderer, PatchOp};
use flash::runtime::native::NativeSession;
use flash::runtime::reactive::ReactiveEngine;
use flash::runtime::renderer::{MockRenderer, PropValue, RenderCall};
use flash::runtime::state::SlotStore;
use flash::span::Symbol;

fn counter_ops() -> Vec<UpdateOp> {
    vec![UpdateOp {
        node: NodeId(1),
        key: PropKey::Text,
        expr: ExprId(0),
        reads: vec![SlotId(0)],
    }]
}

/// Column { Text("Count: ${count}") Button("Increment") { count++ } }
fn counter_screen(label: &str) -> ScreenIr {
    ScreenIr {
        name: Symbol(0),
        slots: vec![SlotDef { name: Symbol(1), ty: TypeKind::Int, init: IrExpr::Int(0) }],
        nodes: vec![
            NodeIr { kind: NodeKind::COLUMN, parent: None, children: vec![NodeId(1), NodeId(2)], handler: None },
            NodeIr { kind: NodeKind::TEXT, parent: Some(NodeId(0)), children: vec![], handler: None },
            NodeIr {
                kind: NodeKind::BUTTON,
                parent: Some(NodeId(0)),
                children: vec![],
                handler: Some(HandlerId(0)),
            },
        ],
        static_props: vec![StaticProp { node: NodeId(2), key: PropKey::Title, value: IrExpr::Str(label.to_string()) }],
        update_ops: counter_ops(),
        deps: DepTable::build(1, &counter_ops()),
        handlers: vec![HandlerIr {
            id: HandlerId(0),
            node: NodeId(2),
            writes: vec![SlotId(0)],
            body: HandlerBody::Increment(SlotId(0)),
        }],
        actions: vec![],
        listens: vec![],
        exprs: vec![IrExpr::Concat(vec![IrExpr::Str("Count: ".to_string()), IrExpr::Slot(SlotId(0))])],
    }
}

fn set_text(node: u32, text: &str) -> RenderCall {
    RenderCall::SetProp { node: NodeId(node), key: PropKey::Text, value: PropValue::Str(text.to_string()) }
}

#[test]
fn mount_creates_nodes_then_props() {
    let engine = ReactiveEngine::new(counter_screen("Increment"));
    let mut renderer = MockRenderer::new();
    engine.mount(&mut renderer);
    assert_eq!(
        renderer.log(),
        &[
            RenderCall::Create { kind: NodeKind::COLUMN },
            RenderCall::Create { kind: NodeKind::TEXT },
            RenderCall::Create { kind: NodeKind::BUTTON },
            RenderCall::SetProp {
                node: NodeId(2),
                key: PropKey::Title,
                value: PropValue::Str("Increment".to_string())
            },
            set_text(1, "Count: 0"),
            RenderCall::Commit,
        ]
    );
}

#[test]
fn increment_updates_exactly_one_prop() {
    let mut engine = ReactiveEngine::new(counter_screen("Increment"));
    let mut renderer = MockRenderer::new();
    engine.mount(&mut renderer);
    renderer.clear_log();
    engine.fire_handler(HandlerId(0));
    engine.flush(&mut renderer);
    assert_eq!(renderer.log(), &[set_text(1, "Count: 1"), RenderCall::Commit]);
    renderer.clear_log();
    engine.flush(&mut renderer);
    assert_eq!(renderer.log(), &[RenderCall::Commit]);
}

#[test]
fn decrement_and_assign_handlers() {
    let mut screen = counter_screen("Go");
    screen.handlers.push(HandlerIr {
        id: HandlerId(1),
        node: NodeId(2),
        writes: vec![SlotId(0)],
        body: HandlerBody::Decrement(SlotId(0)),
    });
    screen.handlers.push(HandlerIr {
        id: HandlerId(2),
        node: NodeId(2),
        writes: vec![SlotId(0)],
        body: HandlerBody::Sequence(vec![
            HandlerBody::Assign { slot: SlotId(0), op: flash::ir::AssignOp::Add, value: IrExpr::Int(10) },
            HandlerBody::Increment(SlotId(0)),
        ]),
    });
    let mut engine = ReactiveEngine::new(screen);
    engine.fire_handler(HandlerId(1));
    assert_eq!(engine.slots.get_int(SlotId(0)), -1);
    engine.fire_handler(HandlerId(2));
    assert_eq!(engine.slots.get_int(SlotId(0)), 11);
}

#[test]
fn slot_store_tracks_changes_only() {
    let mut store = SlotStore::new(3);
    store.set_int(SlotId(1), 0);
    assert!(store.drain_dirty().is_empty());
    store.set_int(SlotId(2), 5);
    store.increment(SlotId(0));
    assert_eq!(store.drain_dirty(), vec![SlotId(0), SlotId(2)]);
    assert!(store.drain_dirty().is_empty());
    assert_eq!(store.get_int(SlotId(0)), 1);
    assert_eq!(store.get_int(SlotId(2)), 5);
    let from = SlotStore::from_init(vec![4, 8]);
    assert_eq!(from.ints, vec![4, 8]);
}

#[test]
fn live_renderer_patches_on_change_only() {
    let mut r = LiveRenderer::new();
    r.create(NodeKind::TEXT, NodeId(0));
    r.set_prop(NodeId(0), PropKey::Text, PropValue::Str("a".to_string()));
    r.set_prop(NodeId(0), PropKey::Text, PropValue::Str("a".to_string()));
    r.set_prop(NodeId(0), PropKey::Text, PropValue::Str("b".to_string()));
    r.set_prop(NodeId(5), PropKey::Text, PropValue::Str("missing".to_string()));
    assert_eq!(r.patch_log.len(), 2);
    assert!(matches!(&r.patch_log[1], PatchOp::SetProp { value: PropValue::Str(s), .. } if s == "b"));
    assert!(matches!(r.prop(NodeId(0), PropKey::Text), Some(PropValue::Str(s)) if s == "b"));
    assert!(r.prop(NodeId(0), PropKey::Title).is_none());
    assert!(r.prop(NodeId(5), PropKey::Text).is_none());
    r.set_prop(NodeId(0), PropKey::Title, PropValue::Int(3));
    assert_eq!(r.describe(), vec!["  node0 Text [text=\"b\", title=3]".to_string()]);
    assert_eq!(r.node_count(), 1);
    r.clear();
    assert_eq!(r.node_count(), 0);
}

#[test]
fn dev_session_hot_reload_and_restart() {
    let mut session = DevSession::mount(counter_screen("Increment"));
    assert_eq!(
        session.renderer.describe(),
        vec![
            "  node0 Column []".to_string(),
            "  node1 Text [text=\"Count: 0\"]".to_string(),
            "  node2 Button [title=\"Increment\"]".to_string(),
        ]
    );
    session.fire_handler(HandlerId(0));
    session.fire_handler(HandlerId(0));
    assert_eq!(session.slot_values(), &[2]);

    let same = session.apply(counter_screen("Increment"));
    assert_eq!(same.kind, HotReloadKind::HotReload);
    assert_eq!(same.props_patched, 0);

    let relabel = session.apply(counter_screen("Add"));
    assert_eq!(relabel.kind, HotReloadKind::HotReload);
    assert_eq!(relabel.props_patched, 1);
    assert!(relabel.slots_preserved);
    assert_eq!(session.slot_values(), &[2]);

    let mut bigger = counter_screen("Add");
    bigger.nodes.push(NodeIr { kind: NodeKind::TEXT, parent: None, children: vec![], handler: None });
    assert!(matches!(plan_hot_reload(&session.engine.screen, &bigger), HotReloadPlan::Remount { .. }));
    let restart = session.apply(bigger);
    assert_eq!(restart.kind, HotReloadKind::HotRestart);
    assert_eq!(restart.props_patched, 4);
    assert_eq!(session.slot_values(), &[2]);
    assert_eq!(session.renderer.describe()[1], "  node1 Text [text=\"Count: 2\"]".to_string());
}

#[test]
fn native_session_sends_one_prop_per_tap() {
    let mut session = NativeSession::mount(counter_screen("Increment"), InProcessHost::default());
    {
        let host = session.renderer.host();
        assert_eq!(host.views.len(), 3);
        assert_eq!(host.views.get(&1).unwrap().children, vec![2, 3]);
        assert!(matches!(host.views.get(&2).unwrap().props.get(&0), Some(DecodedValue::Str(s)) if s == "Count: 0"));
        assert!(matches!(host.views.get(&3).unwrap().props.get(&1), Some(DecodedValue::Str(s)) if s == "Increment"));
    }
    let before = session.renderer.host().ops_log.len();
    session.fire_handler(HandlerId(0));
    let host = session.renderer.host();
    assert_eq!(host.ops_log.len(), before + 1);
    assert!(matches!(host.views.get(&2).unwrap().props.get(&0), Some(DecodedValue::Str(s)) if s == "Count: 1"));
    assert_eq!(session.renderer.pending_ops(), 0);
}

#[test]
fn handler_checks_catch_overflow_and_missing_handlers() {
    let engine = ReactiveEngine::new(counter_screen("Increment"));
    assert!(engine.handler_checks(HandlerId(0)));
    assert!(!engine.handler_checks(HandlerId(7)));

    let mut full = counter_screen("Increment");
    full.slots[0].init = IrExpr::Int(i64::MAX);
    let engine = ReactiveEngine::new(full);
    assert!(!engine.handler_checks(HandlerId(0)));

    let mut sum = counter_screen("Increment");
    sum.slots[0].init = IrExpr::Int(i64::MAX - 1);
    sum.exprs = vec![IrExpr::Add(SlotId(0), 1)];
    let engine = ReactiveEngine::new(sum);
    assert!(!engine.handler_checks(HandlerId(0)));
}

#[test]
fn slot_stores_start_empty() {
    let mut store = SlotStore::new(2);
    assert_eq!(store.ints, vec![0, 0]);
    assert_eq!(store.strings, vec![String::new(), String::new()]);
    assert_eq!(store.bools, vec![false, false]);
    assert!(store.drain_dirty().is_empty());
    let mut from = SlotStore::from_init(vec![7, -1, 3]);
    assert_eq!(from.ints, vec![7, -1, 3]);
    assert_eq!(from.strings, vec![String::new(), String::new(), String::new()]);
    assert_eq!(from.bools, vec![false, false, false]);
    assert!(from.drain_dirty().is_empty());
}
