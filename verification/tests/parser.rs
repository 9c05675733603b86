use flash::ast::{AstNode, Expr, Item, ScreenBodyItem, Stmt};
use flash::parser::parse;
use flash::span::FileId;

#[test]
fn parse_interp() {
    let src = r#"screen H { Text("Count: ${count}") }"#;
    parse(src, FileId(0)).expect("parse failed");
}

#[test]
fn parse_button_handler() {
    let src = r#"screen H { Button("Go") { count++ } }"#;
    parse(src, FileId(0)).expect("parse failed");
}

#[test]
fn parse_column() {
    let src = r#"screen H { Column { Text("a") Button("b") { x++ } } }"#;
    parse(src, FileId(0)).expect("parse failed");
}

#[test]
fn parse_if_in_action() {
    let src = r#"
@provider C {
    @action inc() {
        if count > 0 {
            count++
        }
    }
}
"#;
    let result = parse(src, FileId(0));
    assert!(result.is_ok(), "{:?}", result.err());
}

#[test]
fn parse_minimal_provider() {
    let src = "@provider C { @state x: Int = 0 }";
    let result = parse(src, FileId(0));
    assert!(result.is_ok(), "parse failed: {:?}", result.err());
    assert_eq!(result.unwrap().ast.items.len(), 1);
}

#[test]
fn parse_screen_shape() {
    let src = r#"screen Home { state count: Int = 0
        Column { Text("Count: ${count}") Button("+") { count += 1 } } }"#;
    let res = parse(src, FileId(0)).expect("parse failed");
    assert_eq!(res.ast.items.len(), 1);
    match &res.ast.items[0] {
        Item::Screen(s) => {
            assert_eq!(res.interner.get(s.name), b"Home");
            assert_eq!(s.state.len(), 1);
            assert_eq!(s.body.len(), 1);
            match &s.body[0] {
                ScreenBodyItem::Node(id) => match &res.ast.nodes[id.0 as usize] {
                    AstNode::Element { kind, children, .. } => {
                        assert_eq!(res.interner.get(*kind), b"Column");
                        assert_eq!(children.len(), 2);
                    }
                    other => panic!("unexpected node {:?}", other),
                },
                other => panic!("unexpected body item {:?}", other),
            }
        }
        other => panic!("unexpected item {:?}", other),
    }
}

#[test]
fn parse_operator_precedence() {
    let src = "screen H { Text(1 + 2 * 3) }";
    let res = parse(src, FileId(0)).expect("parse failed");
    let top = res
        .ast
        .exprs
        .iter()
        .filter(|e| matches!(e, Expr::Binary { .. }))
        .count();
    assert_eq!(top, 2);
    let last = res.ast.exprs.iter().rev().find(|e| matches!(e, Expr::Binary { .. }));
    match last {
        Some(Expr::Binary { op, rhs, .. }) => {
            assert_eq!(format!("{:?}", op), "Add");
            assert!(matches!(res.ast.exprs[rhs.0 as usize], Expr::Binary { .. }));
        }
        other => panic!("unexpected {:?}", other),
    }
}

#[test]
fn parse_action_statements() {
    let src = "@provider P { @action go() { x = 1 y++ } }";
    let res = parse(src, FileId(0)).expect("parse failed");
    match &res.ast.items[0] {
        Item::Provider(p) => {
            assert_eq!(p.actions.len(), 1);
            let h = &res.ast.handlers[p.actions[0].handler.0 as usize];
            assert_eq!(h.stmts.len(), 2);
            assert!(matches!(h.stmts[0], Stmt::Assign { .. }));
            assert!(matches!(h.stmts[1], Stmt::IncDec { .. }));
        }
        other => panic!("unexpected item {:?}", other),
    }
}

#[test]
fn parse_comparison_operators() {
    let src = "screen H { Text(a > 1) Text(b < 2) }";
    let res = parse(src, FileId(0)).expect("parse failed");
    let ops: Vec<String> = res
        .ast
        .exprs
        .iter()
        .filter_map(|e| match e {
            Expr::Binary { op, .. } => Some(format!("{:?}", op)),
            _ => None,
        })
        .collect();
    assert_eq!(ops, vec!["Gt".to_string(), "Lt".to_string()]);
}

#[test]
fn parse_reports_errors() {
    let result = parse("screen { }", FileId(0));
    let errors = result.err().expect("expected an error");
    assert!(!errors.is_empty());
}

#[test]
fn parse_empty_source() {
    let res = parse("", FileId(0)).expect("parse failed");
    assert!(res.ast.items.is_empty());
}

#[test]
fn parse_items_in_source_order() {
    let src = "use app::theme\nscreen Home { }\ncomponent Card(title: String) { Text(title) }\n@provider Store { @state n: Int = 0 }";
    let res = parse(src, FileId(0)).expect("parse failed");
    let items = &res.ast.items;
    assert_eq!(items.len(), 4);
    match &items[0] {
        Item::Import(d) => assert_eq!(res.interner.get(d.path[0]), b"app"),
        _ => panic!("expected an import"),
    }
    match &items[1] {
        Item::Screen(d) => assert_eq!(res.interner.get(d.name), b"Home"),
        _ => panic!("expected a screen"),
    }
    match &items[2] {
        Item::Component(d) => assert_eq!(res.interner.get(d.name), b"Card"),
        _ => panic!("expected a component"),
    }
    match &items[3] {
        Item::Provider(d) => assert_eq!(res.interner.get(d.name), b"Store"),
        _ => panic!("expected a provider"),
    }
}

#[test]
fn parse_rejects_what_the_grammar_does_not_hold() {
    assert!(parse("screen { }", FileId(0)).is_err());
    assert!(parse("screen A { Text(1 + ) }", FileId(0)).is_err());
    assert!(parse("screen A { Column { state x: Int = 0 } }", FileId(0)).is_err());
    assert!(parse("component C { }", FileId(0)).is_err());
    assert!(parse("@provider P { state x: Int = 0 }", FileId(0)).is_err());
    assert!(parse("screen A { Button(\"b\") { x += 1 } }", FileId(0)).is_ok());
}

#[test]
fn parse_stops_at_stray_closing_braces() {
    let errs = parse("}", FileId(0)).err().expect("a stray brace is an error");
    assert!(!errs.is_empty());
    assert!(parse("screen A { } }", FileId(0)).is_err());
    assert!(parse("} screen A { }", FileId(0)).is_err());
}
