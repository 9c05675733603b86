use flash::ast::{Ast, InjectDef, Item, TypeRef};
use flash::driver::{compile, CompileError};
use flash::parser::parse;
use flash::sema::Compiler;
use flash::span::{FileId, Interner, Span};
use flash::ir::{HandlerBody, IrExpr, NodeKind, PropKey, SlotId, TypeKind};
use flash::num::FloatLit;
use flash::sema::FloatValue;

const COUNTER: &str = r#"screen Home {
    state count: Int = 0
    Column {
        Text("Count: ${count}")
        Button("+") { count++ }
    }
}"#;

#[test]
fn counter_compiles_to_flat_ir() {
    let res = compile(COUNTER, Vec::new()).expect("counter compiles");
    assert_eq!(res.ir.screens.len(), 1);
    let screen = &res.ir.screens[0];
    assert_eq!(res.interner.get(screen.name), b"Home");

    assert_eq!(screen.slots.len(), 1);
    assert_eq!(res.interner.get(screen.slots[0].name), b"count");
    assert!(matches!(screen.slots[0].ty, TypeKind::Int));
    assert!(matches!(screen.slots[0].init, IrExpr::Int(0)));

    let kinds: Vec<NodeKind> = screen.nodes.iter().map(|n| n.kind).collect();
    assert_eq!(kinds, vec![NodeKind::Column, NodeKind::Text, NodeKind::Button]);
    assert_eq!(screen.nodes[0].parent, None);
    assert_eq!(screen.nodes[1].parent, Some(flash::ir::NodeId(0)));
    assert_eq!(screen.nodes[2].parent, Some(flash::ir::NodeId(0)));
    assert_eq!(screen.nodes[0].children, vec![flash::ir::NodeId(1), flash::ir::NodeId(2)]);

    // Every string literal is an interpolation: the text reads `count`, the
    // button's title reads nothing.
    assert!(screen.static_props.is_empty());
    assert_eq!(screen.update_ops.len(), 2);
    assert_eq!(screen.update_ops[0].node, flash::ir::NodeId(1));
    assert_eq!(screen.update_ops[0].key, PropKey::Text);
    assert_eq!(screen.update_ops[0].reads, vec![SlotId(0)]);
    match &screen.exprs[screen.update_ops[0].expr.0 as usize] {
        IrExpr::Concat(parts) => {
            assert_eq!(parts.len(), 2);
            assert!(matches!(&parts[0], IrExpr::Str(s) if s == "Count: "));
            assert!(matches!(parts[1], IrExpr::Slot(SlotId(0))));
        }
        other => panic!("unexpected {:?}", other),
    }
    assert_eq!(screen.update_ops[1].node, flash::ir::NodeId(2));
    assert_eq!(screen.update_ops[1].key, PropKey::Title);
    assert!(screen.update_ops[1].reads.is_empty());
    match &screen.exprs[screen.update_ops[1].expr.0 as usize] {
        IrExpr::Concat(parts) => {
            assert_eq!(parts.len(), 1);
            assert!(matches!(&parts[0], IrExpr::Str(s) if s == "+"));
        }
        other => panic!("unexpected {:?}", other),
    }

    // `count++` on the button.
    assert_eq!(screen.handlers.len(), 1);
    assert_eq!(screen.handlers[0].node, flash::ir::NodeId(2));
    assert_eq!(screen.handlers[0].writes, vec![SlotId(0)]);
    assert!(matches!(screen.handlers[0].body, HandlerBody::Increment(SlotId(0))));
    assert_eq!(screen.nodes[2].handler, Some(screen.handlers[0].id));

    // Slot 0 drives update operation 0.
    assert_eq!(screen.deps.ops_for(SlotId(0)), &[0u32][..]);
}

#[test]
fn unknown_variable_is_reported() {
    let src = r#"screen H { Button("x") { y++ } }"#;
    match compile(src, Vec::new()) {
        Err(CompileError::Semantic(diags)) => {
            assert_eq!(diags.len(), 1);
            assert_eq!(diags[0].code, "UI1003");
            assert_eq!(diags[0].message, "unknown variable `y`");
            assert!(diags[0].suggestion.is_none());
        }
        Err(other) => panic!("unexpected {:?}", other),
        Ok(_) => panic!("expected a diagnostic"),
    }
}

#[test]
fn decrement_of_unknown_name_is_ignored() {
    let src = r#"screen H { Button("x") { y-- } }"#;
    let res = compile(src, Vec::new()).expect("compiles");
    assert!(res.ir.screens[0].handlers.is_empty());
    assert_eq!(res.ir.screens[0].nodes[0].handler, None);
}

#[test]
fn parse_errors_come_back() {
    match compile("screen { }", Vec::new()) {
        Err(CompileError::Parse(errors)) => assert!(!errors.is_empty()),
        _ => panic!("expected a parse error"),
    }
}

#[test]
fn assignment_and_decrement_handlers() {
    let src = r#"screen H {
        state n: Int = 5
        state m: Int = n
        Button("reset") { n = 0 m-- }
    }"#;
    let res = compile(src, Vec::new()).expect("compiles");
    let screen = &res.ir.screens[0];
    assert!(matches!(screen.slots[1].init, IrExpr::Slot(SlotId(0))));
    assert_eq!(screen.handlers.len(), 2);
    assert_eq!(screen.handlers[0].id, screen.handlers[1].id);
    match &screen.handlers[0].body {
        HandlerBody::Assign { slot, value, .. } => {
            assert_eq!(*slot, SlotId(0));
            assert!(matches!(value, IrExpr::Int(0)));
        }
        other => panic!("unexpected {:?}", other),
    }
    assert!(matches!(screen.handlers[1].body, HandlerBody::Decrement(SlotId(1))));
}

#[test]
fn state_types_resolve() {
    let src = r#"screen H {
        state a: String = "hi"
        state b: Bool = true
        state c: List<Int> = 1
        state d: Money = 2
    }"#;
    let res = compile(src, Vec::new()).expect("compiles");
    let slots = &res.ir.screens[0].slots;
    assert!(matches!(slots[0].ty, TypeKind::Str));
    // A string literal is an interpolation, which a state's initial value cannot be.
    assert!(matches!(slots[0].init, IrExpr::Error));
    assert!(matches!(slots[1].ty, TypeKind::Bool));
    assert!(matches!(slots[1].init, IrExpr::Bool(true)));
    assert!(matches!(slots[2].ty, TypeKind::Error));
    assert!(matches!(slots[3].ty, TypeKind::Error));
}

#[test]
fn float_literals_take_the_given_values() {
    let src = r#"screen H { state f: Float = 1.5 state g: Float = 2.5 }"#;
    let value = FloatLit { bits: 1.5f64.to_bits(), text: "1.5".to_string() };
    let floats = vec![FloatValue { literal: b"1.5".to_vec(), value }];
    let res = compile(src, floats).expect("compiles");
    let slots = &res.ir.screens[0].slots;
    match &slots[0].init {
        IrExpr::Float(f) => {
            assert_eq!(f.bits, 1.5f64.to_bits());
            assert_eq!(f.text, "1.5");
        }
        other => panic!("unexpected {:?}", other),
    }
    assert!(matches!(slots[1].init, IrExpr::Error));
}

#[test]
fn providers_are_summarised() {
    let src = "@provider Cart { @state items: Int = 0 @state total: Int = 0 @action add() { items++ } }";
    let res = compile(src, Vec::new()).expect("compiles");
    assert_eq!(res.ir.providers.len(), 1);
    let p = &res.ir.providers[0];
    assert_eq!(res.interner.get(p.name), b"Cart");
    let fields: Vec<&[u8]> = p.state_fields.iter().map(|s| res.interner.get(*s)).collect();
    assert_eq!(fields, vec![&b"items"[..], &b"total"[..]]);
    let actions: Vec<&[u8]> = p.actions.iter().map(|s| res.interner.get(*s)).collect();
    assert_eq!(actions, vec![&b"add"[..]]);
}

#[test]
fn components_lower_their_body() {
    let src = r#"component Badge(label: String) { Text("x") }"#;
    let res = compile(src, Vec::new()).expect("compiles");
    assert_eq!(res.ir.components.len(), 1);
    let c = &res.ir.components[0];
    assert_eq!(c.params.len(), 1);
    assert!(matches!(c.params[0].ty, TypeKind::Str));
    assert_eq!(c.nodes.len(), 1);
    assert_eq!(c.nodes[0].kind, NodeKind::Text);
    assert!(c.exprs.is_empty());
}

#[test]
fn unknown_widgets_become_text() {
    let src = r#"screen H { Gizmo { Row { } } }"#;
    let res = compile(src, Vec::new()).expect("compiles");
    let kinds: Vec<NodeKind> = res.ir.screens[0].nodes.iter().map(|n| n.kind).collect();
    assert_eq!(kinds, vec![NodeKind::Text, NodeKind::Row]);
}

#[test]
fn counter_ir_text() {
    let res = compile(COUNTER, Vec::new()).expect("counter compiles");
    let expected = "SCREEN Home\n  SLOTS\n    0  count : Int\n\n  NODES\n    0  Column       parent=- children=[1,2] \n    1  Text         parent=0 children=[] \n    2  Button       parent=0 children=[] handler=h0\n\n  STATIC_PROPS\n\n  UPDATE_OPS\n    op0  node=1 prop=Text reads=[0]\n    op1  node=2 prop=Title reads=[]\n\n  HANDLERS\n    h0  node=2 writes=[0] Increment(SlotId(0))\n\n  DEPENDENCIES\n    slot0(count) → [op0]\n";
    assert_eq!(res.ir_text, expected);
}

#[test]
fn ir_text_of_a_file_without_screens() {
    let res = compile("component C() { Text(\"x\") }", Vec::new()).expect("compiles");
    assert_eq!(res.ir_text, "");
}

fn parsed_with_inject(src: &str, provider: &[u8], as_name: &[u8]) -> (Ast, Interner) {
    let parsed = parse(src, FileId(0)).ok().expect("parses");
    let mut ast = parsed.ast;
    let mut interner = parsed.interner;
    let ty = interner.intern(provider);
    let name = interner.intern(as_name);
    let span = Span::new(FileId(0), 0, 0);
    for item in ast.items.iter_mut() {
        if let Item::Screen(s) = item {
            s.injects.push(InjectDef {
                name,
                ty: TypeRef { name: ty, generics: Vec::new(), optional: false, span },
                family_args: Vec::new(),
                span,
            });
        }
    }
    (ast, interner)
}

#[test]
fn injected_provider_state_comes_first() {
    let src = r#"@provider Cart { @state items: Int = 2 @action add() { items++ } }
screen Home {
    state count: Int = 0
    Text("x")
}"#;
    let (ast, mut interner) = parsed_with_inject(src, b"Cart", b"cart");
    let mut compiler = Compiler::new();
    let ui = compiler.compile(&ast, &mut interner).expect("lowers");
    assert!(compiler.diagnostics().is_empty());
    let screen = &ui.screens[0];
    assert_eq!(screen.slots.len(), 2);
    assert_eq!(interner.get(screen.slots[0].name), b"cart.items");
    assert!(matches!(screen.slots[0].ty, TypeKind::Int));
    assert!(matches!(screen.slots[0].init, IrExpr::Int(2)));
    assert_eq!(interner.get(screen.slots[1].name), b"count");
    assert!(matches!(screen.slots[1].init, IrExpr::Int(0)));
    assert_eq!(screen.actions.len(), 1);
    let act = &screen.actions[0];
    assert_eq!(interner.get(act.name), b"add");
    assert_eq!(act.provider.map(|p| interner.get(p).to_vec()), Some(b"Cart".to_vec()));
    assert_eq!(act.writes, vec![SlotId(0)]);
    assert!(matches!(act.body[..], [HandlerBody::Increment(SlotId(0))]));
}

#[test]
fn unknown_injected_provider_is_reported() {
    let src = r#"screen Home { Text("x") }"#;
    let (ast, mut interner) = parsed_with_inject(src, b"Nope", b"n");
    let mut compiler = Compiler::new();
    assert!(compiler.compile(&ast, &mut interner).is_none());
    let diags = compiler.diagnostics();
    assert_eq!(diags.len(), 1);
    assert_eq!(diags[0].code, "UI2001");
    assert_eq!(diags[0].message, "unknown provider type `Nope`");
}
