//! Recursive-descent parser for `.ui` files, with precedence climbing for
//! expressions.

use vstd::prelude::*;
use crate::ast::{
    actions_ok, args_ok, arenas_of, ast_wf, below_expr, below_node, expr_id_ok, expr_refs_ok, grown, item_refs_ok, node_ids_ok, node_refs_ok,
    params_ok, parts_ok, states_ok, stmt_refs_ok, stmts_ok, ActionDef, Arenas, Arg, AssignOp, Ast, AstNode,
    BinOp, ComponentDef, Expr, ExprId, Handler, HandlerId, ImportDef, IncDecOp, InterpPart, Item, LValue,
    LifecycleDef, LifecycleKind, Modifier, NodeId, Param, ProviderDef, ProviderScope, ScreenBodyItem,
    ScreenDef, StateDef, Stmt, TypeRef, UnOp,
};
use crate::bytes::bytes_eq;
use crate::grammar::{
    args_tree, arg_tree, ArgTrees, at, eat, eat_ident, g_args, g_expr, gt_arg, gt_arg_list, gt_args, gt_binops, gt_expr, gt_expr_bp,
    gt_interp, gt_parts, gt_postfix, gt_prefix, lemma_args_stable, lemma_args_tree_grow, lemma_args_tree_push, lemma_parts_stable,
    lemma_parts_tree_grow, lemma_parts_tree_push, lemma_prefix_trans, lemma_tree_stable, parts_tree, tree_of, ETree, g_type, g_type_list, g_param, g_param_list, g_params, g_state, g_dot_path, g_lvalue, g_assign_op, g_stmt,
    g_stmts, g_handler_stmts, g_handler, g_modifier, g_modifiers, g_node, g_if_node, g_list_node, g_list_body, g_children,
    g_child_items, g_lifecycle, g_screen_items, g_screen, g_component_items, g_component, g_colon_path, g_import,
    g_provider_items, g_provider, g_item, g_program, g_item_starts, item_at, item_states_at, provider_state_starts,
    screen_items_from, screen_state_starts, state_at, states_at, body_node_ids, item_body_at, node_head_at, nodes_at,
    screen_body_starts, component_body_starts, component_items_from, assign_op_of, handler_at, handler_stmt_starts,
    lvalue_names, stmt_head_at, element_body_from, child_starts, node_at, named, action_at, actions_at,
    provider_action_starts,
};
use crate::lexer::{kind_view, tokens_view, tokenize, LexError, SpecToken, Token, TokenKind};
use crate::span::{FileId, Interner, Span, Symbol};
use vstd::string::{StringExecFns, StringSliceAdditionalSpecFns};

verus! {

pub open spec fn kind_tag<F>(k: TokenKind<F>) -> int {
    match k {
        TokenKind::Int(..) => 0,
        TokenKind::Float(..) => 1,
        TokenKind::Bool(..) => 2,
        TokenKind::StrStart => 3,
        TokenKind::StrText(..) => 4,
        TokenKind::InterpStart => 5,
        TokenKind::InterpEnd => 6,
        TokenKind::StrEnd => 7,
        TokenKind::Ident(..) => 8,
        TokenKind::Screen => 9,
        TokenKind::Component => 10,
        TokenKind::State => 11,
        TokenKind::Use => 12,
        TokenKind::If => 13,
        TokenKind::Else => 14,
        TokenKind::Match => 15,
        TokenKind::In => 16,
        TokenKind::Await => 17,
        TokenKind::OnLoad => 18,
        TokenKind::OnAppear => 19,
        TokenKind::OnDispose => 20,
        TokenKind::Platform => 21,
        TokenKind::LBrace => 22,
        TokenKind::RBrace => 23,
        TokenKind::LParen => 24,
        TokenKind::RParen => 25,
        TokenKind::LAngle => 26,
        TokenKind::RAngle => 27,
        TokenKind::Comma => 28,
        TokenKind::Colon => 29,
        TokenKind::ColonColon => 30,
        TokenKind::Dot => 31,
        TokenKind::Arrow => 32,
        TokenKind::Question => 33,
        TokenKind::Underscore => 34,
        TokenKind::Eq => 35,
        TokenKind::PlusEq => 36,
        TokenKind::MinusEq => 37,
        TokenKind::StarEq => 38,
        TokenKind::SlashEq => 39,
        TokenKind::PlusPlus => 40,
        TokenKind::MinusMinus => 41,
        TokenKind::Plus => 42,
        TokenKind::Minus => 43,
        TokenKind::Star => 44,
        TokenKind::Slash => 45,
        TokenKind::Percent => 46,
        TokenKind::Bang => 47,
        TokenKind::EqEq => 48,
        TokenKind::NotEq => 49,
        TokenKind::Lt => 50,
        TokenKind::Gt => 51,
        TokenKind::LtEq => 52,
        TokenKind::GtEq => 53,
        TokenKind::AndAnd => 54,
        TokenKind::OrOr => 55,
        TokenKind::Eof => 56,
        TokenKind::Error(..) => 57,
    }
}

fn tag_of(k: &TokenKind) -> (t: u8)
    ensures
        t as int == kind_tag(*k),
{
    match k {
        TokenKind::Int(..) => 0,
        TokenKind::Float(..) => 1,
        TokenKind::Bool(..) => 2,
        TokenKind::StrStart => 3,
        TokenKind::StrText(..) => 4,
        TokenKind::InterpStart => 5,
        TokenKind::InterpEnd => 6,
        TokenKind::StrEnd => 7,
        TokenKind::Ident(..) => 8,
        TokenKind::Screen => 9,
        TokenKind::Component => 10,
        TokenKind::State => 11,
        TokenKind::Use => 12,
        TokenKind::If => 13,
        TokenKind::Else => 14,
        TokenKind::Match => 15,
        TokenKind::In => 16,
        TokenKind::Await => 17,
        TokenKind::OnLoad => 18,
        TokenKind::OnAppear => 19,
        TokenKind::OnDispose => 20,
        TokenKind::Platform => 21,
        TokenKind::LBrace => 22,
        TokenKind::RBrace => 23,
        TokenKind::LParen => 24,
        TokenKind::RParen => 25,
        TokenKind::LAngle => 26,
        TokenKind::RAngle => 27,
        TokenKind::Comma => 28,
        TokenKind::Colon => 29,
        TokenKind::ColonColon => 30,
        TokenKind::Dot => 31,
        TokenKind::Arrow => 32,
        TokenKind::Question => 33,
        TokenKind::Underscore => 34,
        TokenKind::Eq => 35,
        TokenKind::PlusEq => 36,
        TokenKind::MinusEq => 37,
        TokenKind::StarEq => 38,
        TokenKind::SlashEq => 39,
        TokenKind::PlusPlus => 40,
        TokenKind::MinusMinus => 41,
        TokenKind::Plus => 42,
        TokenKind::Minus => 43,
        TokenKind::Star => 44,
        TokenKind::Slash => 45,
        TokenKind::Percent => 46,
        TokenKind::Bang => 47,
        TokenKind::EqEq => 48,
        TokenKind::NotEq => 49,
        TokenKind::Lt => 50,
        TokenKind::Gt => 51,
        TokenKind::LtEq => 52,
        TokenKind::GtEq => 53,
        TokenKind::AndAnd => 54,
        TokenKind::OrOr => 55,
        TokenKind::Eof => 56,
        TokenKind::Error(..) => 57,
    }
}

/// The name of a token kind without payload, as `{:?}` prints it.
pub open spec fn unit_kind_name(k: TokenKind) -> Seq<char> {
    match k {
        TokenKind::StrStart => "StrStart"@,
        TokenKind::InterpStart => "InterpStart"@,
        TokenKind::InterpEnd => "InterpEnd"@,
        TokenKind::StrEnd => "StrEnd"@,
        TokenKind::Screen => "Screen"@,
        TokenKind::Component => "Component"@,
        TokenKind::State => "State"@,
        TokenKind::Use => "Use"@,
        TokenKind::If => "If"@,
        TokenKind::Else => "Else"@,
        TokenKind::Match => "Match"@,
        TokenKind::In => "In"@,
        TokenKind::Await => "Await"@,
        TokenKind::OnLoad => "OnLoad"@,
        TokenKind::OnAppear => "OnAppear"@,
        TokenKind::OnDispose => "OnDispose"@,
        TokenKind::Platform => "Platform"@,
        TokenKind::LBrace => "LBrace"@,
        TokenKind::RBrace => "RBrace"@,
        TokenKind::LParen => "LParen"@,
        TokenKind::RParen => "RParen"@,
        TokenKind::LAngle => "LAngle"@,
        TokenKind::RAngle => "RAngle"@,
        TokenKind::Comma => "Comma"@,
        TokenKind::Colon => "Colon"@,
        TokenKind::ColonColon => "ColonColon"@,
        TokenKind::Dot => "Dot"@,
        TokenKind::Arrow => "Arrow"@,
        TokenKind::Question => "Question"@,
        TokenKind::Underscore => "Underscore"@,
        TokenKind::Eq => "Eq"@,
        TokenKind::PlusEq => "PlusEq"@,
        TokenKind::MinusEq => "MinusEq"@,
        TokenKind::StarEq => "StarEq"@,
        TokenKind::SlashEq => "SlashEq"@,
        TokenKind::PlusPlus => "PlusPlus"@,
        TokenKind::MinusMinus => "MinusMinus"@,
        TokenKind::Plus => "Plus"@,
        TokenKind::Minus => "Minus"@,
        TokenKind::Star => "Star"@,
        TokenKind::Slash => "Slash"@,
        TokenKind::Percent => "Percent"@,
        TokenKind::Bang => "Bang"@,
        TokenKind::EqEq => "EqEq"@,
        TokenKind::NotEq => "NotEq"@,
        TokenKind::Lt => "Lt"@,
        TokenKind::Gt => "Gt"@,
        TokenKind::LtEq => "LtEq"@,
        TokenKind::GtEq => "GtEq"@,
        TokenKind::AndAnd => "AndAnd"@,
        TokenKind::OrOr => "OrOr"@,
        TokenKind::Eof => "Eof"@,
        _ => ""@,
    }
}

fn unit_kind_text(k: &TokenKind) -> (s: &'static str)
    ensures
        s@ == unit_kind_name(*k),
{
    match k {
        TokenKind::StrStart => "StrStart",
        TokenKind::InterpStart => "InterpStart",
        TokenKind::InterpEnd => "InterpEnd",
        TokenKind::StrEnd => "StrEnd",
        TokenKind::Screen => "Screen",
        TokenKind::Component => "Component",
        TokenKind::State => "State",
        TokenKind::Use => "Use",
        TokenKind::If => "If",
        TokenKind::Else => "Else",
        TokenKind::Match => "Match",
        TokenKind::In => "In",
        TokenKind::Await => "Await",
        TokenKind::OnLoad => "OnLoad",
        TokenKind::OnAppear => "OnAppear",
        TokenKind::OnDispose => "OnDispose",
        TokenKind::Platform => "Platform",
        TokenKind::LBrace => "LBrace",
        TokenKind::RBrace => "RBrace",
        TokenKind::LParen => "LParen",
        TokenKind::RParen => "RParen",
        TokenKind::LAngle => "LAngle",
        TokenKind::RAngle => "RAngle",
        TokenKind::Comma => "Comma",
        TokenKind::Colon => "Colon",
        TokenKind::ColonColon => "ColonColon",
        TokenKind::Dot => "Dot",
        TokenKind::Arrow => "Arrow",
        TokenKind::Question => "Question",
        TokenKind::Underscore => "Underscore",
        TokenKind::Eq => "Eq",
        TokenKind::PlusEq => "PlusEq",
        TokenKind::MinusEq => "MinusEq",
        TokenKind::StarEq => "StarEq",
        TokenKind::SlashEq => "SlashEq",
        TokenKind::PlusPlus => "PlusPlus",
        TokenKind::MinusMinus => "MinusMinus",
        TokenKind::Plus => "Plus",
        TokenKind::Minus => "Minus",
        TokenKind::Star => "Star",
        TokenKind::Slash => "Slash",
        TokenKind::Percent => "Percent",
        TokenKind::Bang => "Bang",
        TokenKind::EqEq => "EqEq",
        TokenKind::NotEq => "NotEq",
        TokenKind::Lt => "Lt",
        TokenKind::Gt => "Gt",
        TokenKind::LtEq => "LtEq",
        TokenKind::GtEq => "GtEq",
        TokenKind::AndAnd => "AndAnd",
        TokenKind::OrOr => "OrOr",
        TokenKind::Eof => "Eof",
        _ => "",
    }
}

/// A parser over the tokens of one file.
pub struct Parser {
    tokens: Vec<Token>,
    pos: usize,
    ast: Ast,
    interner: Interner,
    file: FileId,
}

/// A parsed file and the interner its symbols index.
pub struct ParseResult {
    pub ast: Ast,
    pub interner: Interner,
}

#[derive(Clone, Debug)]
pub struct ParseError {
    pub message: String,
    pub span: Span,
}

proof fn lemma_args_grow(args: Seq<Arg>, s: Arenas, t: Arenas)
    requires
        args_ok(args, s),
        grown(s, t),
    ensures
        args_ok(args, t),
{
}

proof fn lemma_node_ids_grow(ns: Seq<NodeId>, s: Arenas, t: Arenas)
    requires
        node_ids_ok(ns, s),
        grown(s, t),
    ensures
        node_ids_ok(ns, t),
{
}

proof fn lemma_params_grow(ps: Seq<Param>, s: Arenas, t: Arenas)
    requires
        params_ok(ps, s),
        grown(s, t),
    ensures
        params_ok(ps, t),
{
    assert forall|i: int| 0 <= i < ps.len() implies match #[trigger] ps[i].default {
        Some(d) => expr_id_ok(d, t),
        None => true,
    } by {
        assert(match ps[i].default {
            Some(d) => expr_id_ok(d, s),
            None => true,
        });
    }
}

proof fn lemma_expr_grow(e: Expr, s: Arenas, t: Arenas)
    requires
        expr_refs_ok(e, s),
        grown(s, t),
    ensures
        expr_refs_ok(e, t),
{
    match e {
        Expr::Interp(parts) => {
            assert forall|i: int| 0 <= i < parts@.len() implies match #[trigger] parts@[i] {
                InterpPart::Expr(x) => expr_id_ok(x, t),
                InterpPart::Text(_) => true,
            } by {
                assert(match parts@[i] {
                    InterpPart::Expr(x) => expr_id_ok(x, s),
                    InterpPart::Text(_) => true,
                });
            }
        },
        _ => {},
    }
}

proof fn lemma_node_grow(n: AstNode, s: Arenas, t: Arenas)
    requires
        node_refs_ok(n, s),
        grown(s, t),
    ensures
        node_refs_ok(n, t),
{
    match n {
        AstNode::Element { modifiers, .. } => {
            assert forall|i: int| 0 <= i < modifiers@.len() implies args_ok(#[trigger] modifiers@[i].args@, t) by {
                lemma_args_grow(modifiers@[i].args@, s, t);
            }
        },
        _ => {},
    }
}

proof fn lemma_stmt_grow(st: Stmt, s: Arenas, t: Arenas)
    requires
        stmt_refs_ok(st, s),
        grown(s, t),
    ensures
        stmt_refs_ok(st, t),
    decreases st,
{
    match st {
        Stmt::If { then_, else_, .. } => {
            assert forall|i: int| 0 <= i < then_@.len() implies stmt_refs_ok(#[trigger] then_@[i], t) by {
                lemma_stmt_grow(then_@[i], s, t);
            }
            match else_ {
                Some(e) => {
                    assert forall|i: int| 0 <= i < e@.len() implies stmt_refs_ok(#[trigger] e@[i], t) by {
                        lemma_stmt_grow(e@[i], s, t);
                    }
                },
                None => {},
            }
        },
        _ => {},
    }
}

proof fn lemma_stmts_grow(sts: Seq<Stmt>, s: Arenas, t: Arenas)
    requires
        stmts_ok(sts, s),
        grown(s, t),
    ensures
        stmts_ok(sts, t),
{
    assert forall|i: int| 0 <= i < sts.len() implies stmt_refs_ok(#[trigger] sts[i], t) by {
        lemma_stmt_grow(sts[i], s, t);
    }
}

proof fn lemma_listens_grow(ls: Seq<crate::ast::ListenDef>, s: Arenas, t: Arenas)
    requires
        crate::ast::listens_ok(ls, s),
        grown(s, t),
    ensures
        crate::ast::listens_ok(ls, t),
{
    assert forall|i: int| 0 <= i < ls.len() implies expr_id_ok(#[trigger] ls[i].expr, t) && ls[i].handler.0 < t.handlers by {
        assert(expr_id_ok(ls[i].expr, s));
    }
}

#[verifier::spinoff_prover]
proof fn lemma_item_grow(it: Item, s: Arenas, t: Arenas)
    requires
        item_refs_ok(it, s),
        grown(s, t),
    ensures
        item_refs_ok(it, t),
{
    match it {
        Item::Screen(d) => {
            lemma_params_grow(d.params@, s, t);
            assert forall|i: int| 0 <= i < d.body@.len() implies crate::ast::body_item_ok(#[trigger] d.body@[i], t) by {
                assert(crate::ast::body_item_ok(d.body@[i], s));
                if let ScreenBodyItem::Match(m) = d.body@[i] {
                    assert forall|k: int| 0 <= k < m.arms@.len() implies node_ids_ok(#[trigger] m.arms@[k].body@, t) by {
                        assert(node_ids_ok(m.arms@[k].body@, s));
                    }
                }
            }
            assert forall|i: int, j: int|
                0 <= i < d.injects@.len() && 0 <= j < d.injects@[i].family_args@.len() implies expr_id_ok(
                #[trigger] d.injects@[i].family_args@[j],
                t,
            ) by {
                assert(expr_id_ok(d.injects@[i].family_args@[j], s));
            }
            lemma_listens_grow(d.listens@, s, t);
            assert forall|i: int| 0 <= i < d.lifecycle@.len() implies #[trigger] d.lifecycle@[i].handler.0 < t.handlers by {
                assert(d.lifecycle@[i].handler.0 < s.handlers);
            }
            assert(crate::ast::states_ok(d.state@, t)) by {
                assert forall|i: int| 0 <= i < d.state@.len() implies expr_id_ok(#[trigger] d.state@[i].init, t) by {
                    assert(expr_id_ok(d.state@[i].init, s));
                }
            }
        },
        Item::Component(d) => {
            lemma_params_grow(d.params@, s, t);
        },
        Item::Import(_) => {},
        Item::Provider(d) => {
            lemma_params_grow(d.params@, s, t);
            lemma_actions_grow(d.actions@, s, t);
        },
    }
}

proof fn lemma_exprs_prefix(a: Seq<Expr>, b: Seq<Expr>)
    requires
        exprs_kept(a, b),
    ensures
        a.is_prefix_of(b),
{
    assert(a =~= b.subrange(0, a.len() as int));
}

/// Declarations read against an arena stay as read when the arena grows.
proof fn lemma_states_stable(
    states: Seq<StateDef>,
    a: Seq<Expr>,
    b: Seq<Expr>,
    t: Seq<SpecToken>,
    s: Seq<Seq<u8>>,
    starts: Seq<int>,
)
    requires
        states_at(states, a, t, s, starts),
        exprs_kept(a, b),
        forall|k: int| 0 <= k < states.len() ==> (#[trigger] states[k]).init.0 < a.len(),
    ensures
        states_at(states, b, t, s, starts),
{
    assert(a.is_prefix_of(b)) by {
        assert(a =~= b.subrange(0, a.len() as int));
    }
    assert forall|k: int| 0 <= k < starts.len() implies state_at(#[trigger] states[k], b, t, s, starts[k]) by {
        lemma_tree_stable(a, b, states[k].init.0 as int);
    }
}

/// Statement heads read against an arena stay as read when it grows.
proof fn lemma_stmt_heads_stable(
    stmts: Seq<Stmt>,
    a: Seq<Expr>,
    b: Seq<Expr>,
    t: Seq<SpecToken>,
    s: Seq<Seq<u8>>,
    starts: Seq<int>,
    ar: Arenas,
)
    requires
        stmts.len() == starts.len(),
        forall|k: int| 0 <= k < starts.len() ==> stmt_head_at(#[trigger] stmts[k], a, t, s, starts[k]),
        stmts_ok(stmts, ar),
        ar.exprs <= a.len(),
        exprs_kept(a, b),
    ensures
        forall|k: int| 0 <= k < starts.len() ==> stmt_head_at(#[trigger] stmts[k], b, t, s, starts[k]),
{
    lemma_exprs_prefix(a, b);
    assert forall|k: int| 0 <= k < starts.len() implies stmt_head_at(#[trigger] stmts[k], b, t, s, starts[k]) by {
        assert(stmt_refs_ok(stmts[k], ar));
        if let Stmt::Assign { value, .. } = stmts[k] {
            lemma_tree_stable(a, b, value.0 as int);
        }
    }
}

/// A node read against the arenas stays as read when the arenas grow.
proof fn lemma_node_at_stable(
    a: Ast,
    n2: Seq<AstNode>,
    h2: Seq<Handler>,
    e2: Seq<Expr>,
    id: int,
    t: Seq<SpecToken>,
    s: Seq<Seq<u8>>,
    p: int,
)
    requires
        ast_wf(a),
        node_at(a.nodes@, a.handlers@, a.exprs@, id, t, s, p),
        nodes_kept(a.nodes@, n2),
        handlers_kept(a.handlers@, h2),
        exprs_kept(a.exprs@, e2),
    ensures
        node_at(n2, h2, e2, id, t, s, p),
    decreases id,
{
    reveal(node_head_at);
    reveal(node_at);
    lemma_exprs_prefix(a.exprs@, e2);
    assert(n2[id] == a.nodes@[id]);
    assert(node_refs_ok(a.nodes@[id], below_node(arenas_of(a), id)));
    if let AstNode::Element { args, handler, children, .. } = a.nodes@[id] {
        assert forall|j: int| 0 <= j < args@.len() implies (#[trigger] args@[j]).value.0 < a.exprs@.len() by {
            assert(expr_id_ok(args@[j].value, below_node(arenas_of(a), id)));
        }
        lemma_args_tree_grow(a.exprs@, e2, args@, 0);
        if let Some(h) = handler {
            if (h.0 as int) < a.handlers@.len() {
                let hs = a.handlers@[h.0 as int].stmts@;
                assert(h2[h.0 as int] == a.handlers@[h.0 as int]);
                assert(stmts_ok(hs, arenas_of(a)));
                if let Some(m) = element_body_from(t, s, p) {
                    lemma_stmt_heads_stable(hs, a.exprs@, e2, t, s, handler_stmt_starts(t, s, m + 1), arenas_of(a));
                }
            }
        }
        if let Some(m) = element_body_from(t, s, p) {
            if at(t, m, TokenKind::LBrace) && !named(t, s, p, "Button".spec_bytes()) && !named(t, s, p, "TextField".spec_bytes()) {
                let cs = child_starts(t, s, m + 1);
                assert forall|k: int| 0 <= k < cs.len() implies (#[trigger] children@[k]).0 < id && node_at(
                    n2,
                    h2,
                    e2,
                    children@[k].0 as int,
                    t,
                    s,
                    cs[k],
                ) by {
                    lemma_node_at_stable(a, n2, h2, e2, children@[k].0 as int, t, s, cs[k]);
                }
            }
        }
    }
    if let AstNode::If { cond, then_, .. } = a.nodes@[id] {
        assert(expr_id_ok(cond, below_node(arenas_of(a), id)));
        lemma_tree_stable(a.exprs@, e2, cond.0 as int);
        if let Some(r) = gt_expr(t, s, p + 1) {
            let cs = child_starts(t, s, r.1 + 1);
            assert forall|k: int| 0 <= k < cs.len() implies (#[trigger] then_@[k]).0 < id && node_at(
                n2,
                h2,
                e2,
                then_@[k].0 as int,
                t,
                s,
                cs[k],
            ) by {
                lemma_node_at_stable(a, n2, h2, e2, then_@[k].0 as int, t, s, cs[k]);
            }
        }
    }
}

/// Nodes read against the arenas stay as read when the arenas grow.
proof fn lemma_nodes_at_stable(
    ids: Seq<NodeId>,
    a: Ast,
    n2: Seq<AstNode>,
    h2: Seq<Handler>,
    e2: Seq<Expr>,
    t: Seq<SpecToken>,
    s: Seq<Seq<u8>>,
    starts: Seq<int>,
)
    requires
        ast_wf(a),
        nodes_at(ids, a.nodes@, a.handlers@, a.exprs@, t, s, starts),
        nodes_kept(a.nodes@, n2),
        handlers_kept(a.handlers@, h2),
        exprs_kept(a.exprs@, e2),
    ensures
        nodes_at(ids, n2, h2, e2, t, s, starts),
{
    assert forall|k: int| 0 <= k < starts.len() implies node_at(n2, h2, e2, (#[trigger] ids[k]).0 as int, t, s, starts[k]) by {
        lemma_node_at_stable(a, n2, h2, e2, ids[k].0 as int, t, s, starts[k]);
    }
}

/// Actions read against the arenas stay as read when the arenas grow.
proof fn lemma_actions_at_stable(
    acts: Seq<ActionDef>,
    a: Ast,
    h2: Seq<Handler>,
    e2: Seq<Expr>,
    t: Seq<SpecToken>,
    s: Seq<Seq<u8>>,
    starts: Seq<int>,
)
    requires
        ast_wf(a),
        actions_at(acts, a.handlers@, a.exprs@, t, s, starts),
        handlers_kept(a.handlers@, h2),
        exprs_kept(a.exprs@, e2),
    ensures
        actions_at(acts, h2, e2, t, s, starts),
{
    assert forall|k: int| 0 <= k < starts.len() implies action_at(#[trigger] acts[k], h2, e2, t, s, starts[k]) by {
        let h = acts[k].handler.0 as int;
        assert(h2[h] == a.handlers@[h]);
        assert(stmts_ok(a.handlers@[h].stmts@, arenas_of(a)));
        if let Some(q) = g_params(t, s, starts[k] + 3) {
            lemma_stmt_heads_stable(a.handlers@[h].stmts@, a.exprs@, e2, t, s, handler_stmt_starts(t, s, q + 1), arenas_of(a));
        }
    }
}

/// An item's body, read against the arenas, stays as read when they grow.
proof fn lemma_item_body_stable(
    it: Item,
    a: Ast,
    n2: Seq<AstNode>,
    h2: Seq<Handler>,
    e2: Seq<Expr>,
    t: Seq<SpecToken>,
    s: Seq<Seq<u8>>,
    p: int,
)
    requires
        ast_wf(a),
        item_body_at(it, a.nodes@, a.handlers@, a.exprs@, t, s, p),
        nodes_kept(a.nodes@, n2),
        handlers_kept(a.handlers@, h2),
        exprs_kept(a.exprs@, e2),
    ensures
        item_body_at(it, n2, h2, e2, t, s, p),
{
    match it {
        Item::Screen(d) => lemma_nodes_at_stable(
            body_node_ids(d.body@),
            a,
            n2,
            h2,
            e2,
            t,
            s,
            screen_body_starts(t, s, screen_items_from(t, s, p)),
        ),
        Item::Component(d) => lemma_nodes_at_stable(
            d.body@,
            a,
            n2,
            h2,
            e2,
            t,
            s,
            component_body_starts(t, s, component_items_from(t, s, p)),
        ),
        Item::Provider(d) => lemma_actions_at_stable(d.actions@, a, h2, e2, t, s, provider_action_starts(t, s, p + 4)),
        _ => {},
    }
}

/// An item's states, read against an arena, stay as read when the arena grows.
proof fn lemma_item_states_stable(
    it: Item,
    a: Seq<Expr>,
    b: Seq<Expr>,
    t: Seq<SpecToken>,
    s: Seq<Seq<u8>>,
    p: int,
    ar: Arenas,
)
    requires
        item_states_at(it, a, t, s, p),
        exprs_kept(a, b),
        item_refs_ok(it, ar),
        ar.exprs <= a.len(),
    ensures
        item_states_at(it, b, t, s, p),
{
    match it {
        Item::Screen(d) => {
            assert forall|k: int| 0 <= k < d.state@.len() implies (#[trigger] d.state@[k]).init.0 < a.len() by {
                assert(expr_id_ok(d.state@[k].init, ar));
            }
            lemma_states_stable(d.state@, a, b, t, s, screen_state_starts(t, s, screen_items_from(t, s, p)));
        },
        Item::Provider(d) => {
            assert forall|k: int| 0 <= k < d.states@.len() implies (#[trigger] d.states@[k]).init.0 < a.len() by {
                assert(expr_id_ok(d.states@[k].init, ar));
            }
            lemma_states_stable(d.states@, a, b, t, s, provider_state_starts(t, s, p + 4));
        },
        _ => {},
    }
}

proof fn lemma_actions_grow(acts: Seq<ActionDef>, s: Arenas, t: Arenas)
    requires
        actions_ok(acts, s),
        grown(s, t),
    ensures
        actions_ok(acts, t),
{
    assert forall|i: int| 0 <= i < acts.len() implies params_ok(#[trigger] acts[i].params@, t) && acts[i].handler.0
        < t.handlers by {
        lemma_params_grow(acts[i].params@, s, t);
    }
}

proof fn lemma_actions_push(acts: Seq<ActionDef>, a: ActionDef, s: Arenas)
    requires
        actions_ok(acts, s),
        params_ok(a.params@, s),
        a.handler.0 < s.handlers,
    ensures
        actions_ok(acts.push(a), s),
{
    let r = acts.push(a);
    assert forall|i: int| 0 <= i < r.len() implies params_ok(#[trigger] r[i].params@, s) && r[i].handler.0 < s.handlers by {
        if i < acts.len() {
            assert(r[i] == acts[i]);
        }
    }
}

/// An arena that only gained entries, each with its ids in range, is still
/// well formed.
proof fn lemma_wf_grow(a: Ast, b: Ast)
    requires
        ast_wf(a),
        grown(arenas_of(a), arenas_of(b)),
        b.spans@.len() == b.entries(),
        b.items@ == a.items@,
        a.exprs@ == b.exprs@.subrange(0, a.exprs@.len() as int),
        a.nodes@ == b.nodes@.subrange(0, a.nodes@.len() as int),
        a.handlers@ == b.handlers@.subrange(0, a.handlers@.len() as int),
        forall|i: int| a.exprs@.len() <= i < b.exprs@.len() ==> expr_refs_ok(#[trigger] b.exprs@[i], below_expr(arenas_of(b), i)),
        forall|i: int| a.nodes@.len() <= i < b.nodes@.len() ==> node_refs_ok(#[trigger] b.nodes@[i], below_node(arenas_of(b), i)),
        forall|i: int|
            a.handlers@.len() <= i < b.handlers@.len() ==> stmts_ok(#[trigger] b.handlers@[i].stmts@, arenas_of(b)),
    ensures
        ast_wf(b),
{
    let s = arenas_of(a);
    let t = arenas_of(b);
    assert forall|i: int| 0 <= i < b.exprs@.len() implies expr_refs_ok(#[trigger] b.exprs@[i], below_expr(t, i)) by {
        if i < a.exprs@.len() {
            assert(b.exprs@[i] == a.exprs@[i]);
            lemma_expr_grow(a.exprs@[i], below_expr(s, i), below_expr(t, i));
        }
    }
    assert forall|i: int| 0 <= i < b.nodes@.len() implies node_refs_ok(#[trigger] b.nodes@[i], below_node(t, i)) by {
        if i < a.nodes@.len() {
            assert(b.nodes@[i] == a.nodes@[i]);
            lemma_node_grow(a.nodes@[i], below_node(s, i), below_node(t, i));
        }
    }
    assert forall|i: int| 0 <= i < b.handlers@.len() implies stmts_ok(#[trigger] b.handlers@[i].stmts@, t) by {
        if i < a.handlers@.len() {
            assert(b.handlers@[i] == a.handlers@[i]);
            lemma_stmts_grow(a.handlers@[i].stmts@, s, t);
        }
    }
    assert forall|i: int| 0 <= i < b.items@.len() implies item_refs_ok(#[trigger] b.items@[i], t) by {
        lemma_item_grow(a.items@[i], s, t);
    }
}

/// Viewing a token kind keeps its tag and the operator it stands for.
proof fn lemma_kind_view(k: TokenKind)
    ensures
        kind_tag(kind_view(k)) == kind_tag(k),
        binop_of(kind_view(k)) == binop_of(k),
        kind_view(k) is Ident <==> k is Ident,
        k is Ident ==> kind_view(k)->Ident_0 == k->Ident_0,
        k is Int ==> kind_view(k)->Int_0 == k->Int_0,
        k is Bool ==> kind_view(k)->Bool_0 == k->Bool_0,
        k is Float ==> kind_view(k)->Float_0 == k->Float_0@,
        k is StrText ==> kind_view(k)->StrText_0 == k->StrText_0,
        kind_view(k) is Int <==> k is Int,
        kind_view(k) is Float <==> k is Float,
        kind_view(k) is Bool <==> k is Bool,
        kind_view(k) is StrText <==> k is StrText,
        kind_view(k) is Eof <==> k is Eof,
        k is Error ==> kind_view(k) == TokenKind::<Seq<u8>>::Error(k->Error_0),
        kind_view(k) is Error ==> k is Error,
{
}

/// The expressions of `a` stay, at their places, in `b`.
pub open spec fn exprs_kept(a: Seq<Expr>, b: Seq<Expr>) -> bool {
    a.len() <= b.len() && forall|i: int| 0 <= i < a.len() ==> #[trigger] b[i] == a[i]
}

/// The handlers of `a` stay, at their places, in `b`.
pub open spec fn handlers_kept(a: Seq<Handler>, b: Seq<Handler>) -> bool {
    a.len() <= b.len() && forall|i: int| 0 <= i < a.len() ==> #[trigger] b[i] == a[i]
}

/// The nodes of `a` stay, at their places, in `b`.
pub open spec fn nodes_kept(a: Seq<AstNode>, b: Seq<AstNode>) -> bool {
    a.len() <= b.len() && forall|i: int| 0 <= i < a.len() ==> #[trigger] b[i] == a[i]
}

impl Parser {
    pub closed spec fn inv(&self) -> bool {
        &&& self.tokens@.len() > 0
        &&& self.tokens@.len() < u32::MAX
        &&& self.tokens@.last().kind is Eof
        &&& self.pos < self.tokens@.len()
        &&& ast_wf(self.ast)
        &&& self.ast.exprs@.len() <= self.pos
        &&& self.ast.nodes@.len() <= self.pos
        &&& self.ast.handlers@.len() <= self.pos
    }

    /// `self` follows `before`: same tokens, interner and items; the position
    /// and the arenas only moved forward.
    pub closed spec fn follows(&self, before: Parser) -> bool {
        &&& self.inv()
        &&& self.tokens@ == before.tokens@
        &&& self.interner@ == before.interner@
        &&& self.file == before.file
        &&& before.pos <= self.pos
        &&& grown(arenas_of(before.ast), arenas_of(self.ast))
        &&& self.ast.items@ == before.ast.items@
        &&& self.ast.exprs@.len() - self.pos <= before.ast.exprs@.len() - before.pos
        &&& self.ast.nodes@.len() - self.pos <= before.ast.nodes@.len() - before.pos
        &&& self.ast.handlers@.len() - self.pos <= before.ast.handlers@.len() - before.pos
        &&& handlers_kept(before.ast.handlers@, self.ast.handlers@)
        &&& exprs_kept(before.ast.exprs@, self.ast.exprs@)
        &&& nodes_kept(before.ast.nodes@, self.ast.nodes@)
    }

    pub closed spec fn arenas(&self) -> Arenas {
        arenas_of(self.ast)
    }

    pub closed spec fn at(&self) -> int {
        self.pos as int
    }

    pub closed spec fn cur(&self) -> TokenKind {
        self.tokens@[self.pos as int].kind
    }

    /// The tokens as the grammar reads them.
    pub closed spec fn toks(&self) -> Seq<SpecToken> {
        tokens_view(self.tokens@)
    }

    fn current(&self) -> (t: &Token)
        requires
            self.inv(),
        ensures
            t.kind == self.cur(),
    {
        &self.tokens[self.pos]
    }

    fn current_span(&self) -> (s: Span)
        requires
            self.inv(),
        ensures
            s == self.tokens@[self.pos as int].span,
    {
        self.tokens[self.pos].span
    }

    /// The current token is of the same kind as `kind` (payloads aside).
    fn check(&self, kind: &TokenKind) -> (r: bool)
        requires
            self.inv(),
        ensures
            r == (kind_tag(self.cur()) == kind_tag(*kind)),
            r == at(self.toks(), self.pos as int, kind_view(*kind)),
            self.toks()[self.pos as int].kind == kind_view(self.cur()),
            self.toks().len() == self.tokens@.len(),
    {
        proof {
            lemma_kind_view(self.cur());
            lemma_kind_view(*kind);
        }
        tag_of(&self.tokens[self.pos].kind) == tag_of(kind)
    }

    /// Moves to the next token, staying on the final end-of-file token.
    fn advance(&mut self)
        requires
            old(self).inv(),
        ensures
            final(self).follows(*old(self)),
            final(self).arenas() == old(self).arenas(),
            final(self).ast == old(self).ast,
            final(self).pos as int == (if old(self).cur() is Eof {
                old(self).pos as int
            } else {
                old(self).pos + 1
            }),
    {
        let n = self.tokens.len();
        if !matches!(self.tokens[self.pos].kind, TokenKind::Eof) {
            assert(self.pos != n - 1);
            self.pos = self.pos + 1;
        }
    }

    fn error(&self, msg: &str) -> (e: ParseError)
        requires
            self.inv(),
        ensures
            e.message@ == msg@,
    {
        ParseError { message: String::from_str(msg), span: self.current_span() }
    }

    fn expect(&mut self, kind: &TokenKind) -> (r: Result<(), ParseError>)
        requires
            old(self).inv(),
            !(*kind is Eof),
        ensures
            final(self).follows(*old(self)),
            final(self).ast == old(self).ast,
            match r {
                Ok(_) => eat(old(self).toks(), old(self).pos as int, kind_view(*kind)) == Some(final(self).pos as int),
                Err(_) => eat(old(self).toks(), old(self).pos as int, kind_view(*kind)) is None,
            },
            match r {
                Ok(_) => kind_tag(old(self).cur()) == kind_tag(*kind) && final(self).pos == old(self).pos + 1,
                Err(e) => kind_tag(old(self).cur()) != kind_tag(*kind) && final(self).pos == old(self).pos
                    && e.message@ == "expected "@ + unit_kind_name(*kind),
            },
    {
        if self.check(kind) {
            proof {
                if self.cur() is Eof {
                    assert(kind_tag(self.cur()) == 56);
                }
            }
            self.advance();
            Ok(())
        } else {
            let mut message = String::from_str("expected ");
            message.append(unit_kind_text(kind));
            Err(ParseError { message, span: self.current_span() })
        }
    }

    fn expect_ident(&mut self) -> (r: Result<Symbol, ParseError>)
        requires
            old(self).inv(),
        ensures
            final(self).follows(*old(self)),
            final(self).ast == old(self).ast,
            match r {
                Ok(_) => eat_ident(old(self).toks(), old(self).pos as int) == Some(final(self).pos as int),
                Err(_) => eat_ident(old(self).toks(), old(self).pos as int) is None,
            },
            match r {
                Ok(sym) => old(self).cur() == TokenKind::<Vec<u8>>::Ident(sym) && final(self).pos == old(self).pos + 1,
                Err(e) => !(old(self).cur() is Ident) && final(self).pos == old(self).pos,
            },
    {
        if let TokenKind::Ident(sym) = self.tokens[self.pos].kind {
            self.advance();
            Ok(sym)
        } else {
            Err(self.error("expected identifier"))
        }
    }

    /// The current token names `name`.
    fn is_ident(&self, name: &[u8]) -> (r: bool)
        requires
            self.inv(),
        ensures
            r == (self.cur() is Ident && (self.cur()->Ident_0.0 as int) < self.interner@.len()
                && self.interner@[self.cur()->Ident_0.0 as int] == name@),
    {
        if let TokenKind::Ident(sym) = self.tokens[self.pos].kind {
            (sym.0 as usize) < self.interner.len() && bytes_eq(self.interner.get(sym), name)
        } else {
            false
        }
    }

    /// An identifier followed by a colon: a named argument.
    fn peek_name_colon(&self) -> (r: bool)
        requires
            self.inv(),
        ensures
            r == (self.cur() is Ident && self.pos + 1 < self.tokens@.len() && self.tokens@[self.pos + 1].kind is Colon),
    {
        if !matches!(self.tokens[self.pos].kind, TokenKind::Ident(_)) {
            return false;
        }
        if self.pos < self.tokens.len() - 1 {
            matches!(self.tokens[self.pos + 1].kind, TokenKind::Colon)
        } else {
            false
        }
    }

    fn current_binop(&self) -> (op: Option<BinOp>)
        requires
            self.inv(),
        ensures
            op == binop_of(self.cur()),
            op == binop_of(self.toks()[self.pos as int].kind),
    {
        proof {
            lemma_kind_view(self.cur());
        }
        match &self.tokens[self.pos].kind {
            TokenKind::OrOr => Some(BinOp::Or),
            TokenKind::AndAnd => Some(BinOp::And),
            TokenKind::EqEq => Some(BinOp::Eq),
            TokenKind::NotEq => Some(BinOp::NotEq),
            TokenKind::Lt | TokenKind::LAngle => Some(BinOp::Lt),
            TokenKind::Gt | TokenKind::RAngle => Some(BinOp::Gt),
            TokenKind::LtEq => Some(BinOp::LtEq),
            TokenKind::GtEq => Some(BinOp::GtEq),
            TokenKind::Plus => Some(BinOp::Add),
            TokenKind::Minus => Some(BinOp::Sub),
            TokenKind::Star => Some(BinOp::Mul),
            TokenKind::Slash => Some(BinOp::Div),
            TokenKind::Percent => Some(BinOp::Mod),
            _ => None,
        }
    }
}

impl Parser {
    /// Adds an expression whose ids are all in the arenas.
    fn push_expr(&mut self, e: Expr, span: Span) -> (id: ExprId)
        requires
            old(self).inv(),
            expr_refs_ok(e, old(self).arenas()),
            old(self).ast.exprs@.len() < old(self).pos,
        ensures
            final(self).inv(),
            final(self).tokens@ == old(self).tokens@,
            final(self).interner@ == old(self).interner@,
            final(self).file == old(self).file,
            grown(arenas_of(old(self).ast), arenas_of(final(self).ast)),
            final(self).ast.items@ == old(self).ast.items@,
            final(self).pos == old(self).pos,
            id.0 < final(self).arenas().exprs,
            id.0 == old(self).ast.exprs@.len(),
            final(self).ast.exprs@ == old(self).ast.exprs@.push(e),
            final(self).ast.nodes@ == old(self).ast.nodes@,
            final(self).ast.handlers@ == old(self).ast.handlers@,
    {
        let ghost a = self.ast;
        let ghost e2 = e;
        let n = self.ast.exprs.len();
        let id = self.ast.add_expr(e, span);
        assert((n as u32) as usize <= n) by (bit_vector);
        proof {
            lemma_expr_grow(e2, arenas_of(a), arenas_of(self.ast));
            assert(a.exprs@ == self.ast.exprs@.subrange(0, a.exprs@.len() as int));
            assert(a.nodes@ == self.ast.nodes@.subrange(0, a.nodes@.len() as int));
            assert(a.handlers@ == self.ast.handlers@.subrange(0, a.handlers@.len() as int));
            lemma_wf_grow(a, self.ast);
        }
        id
    }

    /// Adds a node whose ids are all in the arenas.
    fn push_node(&mut self, node: AstNode, span: Span) -> (id: NodeId)
        requires
            old(self).inv(),
            node_refs_ok(node, old(self).arenas()),
            old(self).ast.nodes@.len() < old(self).pos,
        ensures
            final(self).inv(),
            final(self).tokens@ == old(self).tokens@,
            final(self).interner@ == old(self).interner@,
            final(self).file == old(self).file,
            grown(arenas_of(old(self).ast), arenas_of(final(self).ast)),
            final(self).ast.items@ == old(self).ast.items@,
            final(self).ast.handlers@ == old(self).ast.handlers@,
            final(self).pos == old(self).pos,
            id.0 < final(self).arenas().nodes,
            id.0 == old(self).ast.nodes@.len(),
            final(self).ast.handlers@ == old(self).ast.handlers@,
            final(self).ast.nodes@ == old(self).ast.nodes@.push(node),
            final(self).ast.exprs@ == old(self).ast.exprs@,
    {
        let ghost a = self.ast;
        let ghost n2 = node;
        let n = self.ast.nodes.len();
        let id = self.ast.add_node(node, span);
        assert((n as u32) as usize <= n) by (bit_vector);
        proof {
            lemma_node_grow(n2, arenas_of(a), arenas_of(self.ast));
            assert(a.exprs@ == self.ast.exprs@.subrange(0, a.exprs@.len() as int));
            assert(a.nodes@ == self.ast.nodes@.subrange(0, a.nodes@.len() as int));
            assert(a.handlers@ == self.ast.handlers@.subrange(0, a.handlers@.len() as int));
            lemma_wf_grow(a, self.ast);
        }
        id
    }

    /// Adds a handler whose statements hold only ids in the arenas.
    fn push_handler(&mut self, handler: Handler, span: Span) -> (id: HandlerId)
        requires
            old(self).inv(),
            stmts_ok(handler.stmts@, old(self).arenas()),
            old(self).ast.handlers@.len() < old(self).pos,
        ensures
            final(self).inv(),
            final(self).tokens@ == old(self).tokens@,
            final(self).interner@ == old(self).interner@,
            final(self).file == old(self).file,
            grown(arenas_of(old(self).ast), arenas_of(final(self).ast)),
            final(self).ast.items@ == old(self).ast.items@,
            final(self).ast.exprs@ == old(self).ast.exprs@,
            final(self).ast.nodes@ == old(self).ast.nodes@,
            final(self).ast.handlers@ == old(self).ast.handlers@.push(handler),
            final(self).pos == old(self).pos,
            id.0 < final(self).arenas().handlers,
            id.0 == old(self).ast.handlers@.len(),
    {
        let ghost a = self.ast;
        let ghost h2 = handler.stmts@;
        let n = self.ast.handlers.len();
        let id = self.ast.add_handler(handler, span);
        assert((n as u32) as usize <= n) by (bit_vector);
        proof {
            lemma_stmts_grow(h2, arenas_of(a), arenas_of(self.ast));
            assert(a.exprs@ == self.ast.exprs@.subrange(0, a.exprs@.len() as int));
            assert(a.nodes@ == self.ast.nodes@.subrange(0, a.nodes@.len() as int));
            assert(a.handlers@ == self.ast.handlers@.subrange(0, a.handlers@.len() as int));
            lemma_wf_grow(a, self.ast);
        }
        id
    }
}

/// Each arithmetic operator has its own token: `+` stands for `Add`, `-`
/// for `Sub`, `*` for `Mul`, `/` for `Div` and `%` for `Mod`, and no other
/// token stands for any of them. Two tokens stand for the same operator only
/// when they are the same token, or both spell `<` or both spell `>`.
pub proof fn law_binop_tokens<F>(t1: TokenKind<F>, t2: TokenKind<F>)
    ensures
        (binop_of(t1) == Some(BinOp::Add)) <==> t1 is Plus,
        (binop_of(t1) == Some(BinOp::Sub)) <==> t1 is Minus,
        (binop_of(t1) == Some(BinOp::Mul)) <==> t1 is Star,
        (binop_of(t1) == Some(BinOp::Div)) <==> t1 is Slash,
        (binop_of(t1) == Some(BinOp::Mod)) <==> t1 is Percent,
        binop_of(t1) is Some && binop_of(t1) == binop_of(t2) ==> t1 == t2 || (t1 is Lt || t1 is LAngle) && (t2 is Lt
            || t2 is LAngle) || (t1 is Gt || t1 is RAngle) && (t2 is Gt || t2 is RAngle),
{
}

/// The binary operator a token stands for, if any.
pub open spec fn binop_of<F>(k: TokenKind<F>) -> Option<BinOp> {
    match k {
        TokenKind::OrOr => Some(BinOp::Or),
        TokenKind::AndAnd => Some(BinOp::And),
        TokenKind::EqEq => Some(BinOp::Eq),
        TokenKind::NotEq => Some(BinOp::NotEq),
        TokenKind::Lt | TokenKind::LAngle => Some(BinOp::Lt),
        TokenKind::Gt | TokenKind::RAngle => Some(BinOp::Gt),
        TokenKind::LtEq => Some(BinOp::LtEq),
        TokenKind::GtEq => Some(BinOp::GtEq),
        TokenKind::Plus => Some(BinOp::Add),
        TokenKind::Minus => Some(BinOp::Sub),
        TokenKind::Star => Some(BinOp::Mul),
        TokenKind::Slash => Some(BinOp::Div),
        TokenKind::Percent => Some(BinOp::Mod),
        _ => None,
    }
}

} // verus!

verus! {

/// What is left of an argument list from `p` on, the names and trees before
/// `p` being `names` and `trees`.
spec fn args_rest(t: Seq<SpecToken>, s: Seq<Seq<u8>>, p: int, names: Seq<Option<Symbol>>, trees: Seq<ETree>) -> Option<
    (ArgTrees, int),
> {
    match gt_arg_list(t, s, p) {
        Some((a, q)) => match eat(t, q, TokenKind::RParen) {
            Some(q2) => Some(((names + a.0, trees + a.1), q2)),
            None => None,
        },
        None => None,
    }
}

/// The closing parenthesis of an argument list at `p`.
spec fn args_close(t: Seq<SpecToken>, p: int, names: Seq<Option<Symbol>>, trees: Seq<ETree>) -> Option<(ArgTrees, int)> {
    match eat(t, p, TokenKind::RParen) {
        Some(q2) => Some(((names, trees), q2)),
        None => None,
    }
}

/// One argument read at `p0`, ending at `p1`.
proof fn lemma_args_step(
    t: Seq<SpecToken>,
    s: Seq<Seq<u8>>,
    p0: int,
    p1: int,
    names: Seq<Option<Symbol>>,
    trees: Seq<ETree>,
    n: Option<Symbol>,
    v: ETree,
)
    requires
        gt_arg(t, s, p0) == Some((n, v, p1)),
        0 <= p0 < p1 < t.len(),
    ensures
        at(t, p1, TokenKind::Comma) ==> args_rest(t, s, p0, names, trees) == args_rest(t, s, p1 + 1, names.push(n), trees.push(v)),
        !at(t, p1, TokenKind::Comma) ==> args_rest(t, s, p0, names, trees) == args_close(t, p1, names.push(n), trees.push(v)),
{
    if at(t, p1, TokenKind::Comma) {
        if let Some((a, q)) = gt_arg_list(t, s, p1 + 1) {
            assert(names + (seq![n] + a.0) =~= names.push(n) + a.0);
            assert(trees + (seq![v] + a.1) =~= trees.push(v) + a.1);
        }
    } else {
        assert(names + seq![n] =~= names.push(n));
        assert(trees + seq![v] =~= trees.push(v));
    }
}

/// The first position from `p` on whose token can start or close an item
/// (`screen`, `component`, `state`, `}`) or ends the file.
pub open spec fn recovery_point(t: Seq<SpecToken>, p: int) -> int
    decreases t.len() - p,
{
    if !(0 <= p < t.len()) || at(t, p, TokenKind::Eof) || at(t, p, TokenKind::Screen) || at(t, p, TokenKind::Component)
        || at(t, p, TokenKind::State) || at(t, p, TokenKind::RBrace) {
        p
    } else {
        recovery_point(t, p + 1)
    }
}

impl Parser {
    fn parse_expr(&mut self) -> (r: Result<ExprId, ParseError>)
        requires
            old(self).inv(),
        ensures
            final(self).follows(*old(self)),
            old(self).ast.exprs@.is_prefix_of(final(self).ast.exprs@),
            r is Ok ==> final(self).pos > old(self).pos && r->Ok_0.0 < final(self).arenas().exprs,
            match r {
                Ok(id) => gt_expr(old(self).toks(), old(self).interner@, old(self).pos as int) == Some(
                    (tree_of(final(self).ast.exprs@, id.0 as int), final(self).pos as int),
                ),
                Err(_) => gt_expr(old(self).toks(), old(self).interner@, old(self).pos as int) is None,
            },
            match r {
                Ok(_) => g_expr(old(self).toks(), old(self).interner@, old(self).pos as int) == Some(final(self).pos as int),
                Err(_) => g_expr(old(self).toks(), old(self).interner@, old(self).pos as int) is None,
            },
        decreases old(self).tokens@.len() - old(self).pos, 3int,
    {
        self.parse_expr_bp(0)
    }

    /// An expression whose operators bind at least `min_bp` tightly.
    #[verifier::spinoff_prover]
    fn parse_expr_bp(&mut self, min_bp: u8) -> (r: Result<ExprId, ParseError>)
        requires
            old(self).inv(),
        ensures
            final(self).follows(*old(self)),
            old(self).ast.exprs@.is_prefix_of(final(self).ast.exprs@),
            r is Ok ==> final(self).pos > old(self).pos && r->Ok_0.0 < final(self).arenas().exprs,
            match r {
                Ok(id) => gt_expr_bp(old(self).toks(), old(self).interner@, old(self).pos as int, min_bp) == Some(
                    (tree_of(final(self).ast.exprs@, id.0 as int), final(self).pos as int),
                ),
                Err(_) => gt_expr_bp(old(self).toks(), old(self).interner@, old(self).pos as int, min_bp) is None,
            },
        decreases old(self).tokens@.len() - old(self).pos, 2int,
    {
        let ghost entry = *self;
        let ghost t = self.toks();
        let ghost strs = self.interner@;
        let start = self.current_span();
        let (mut lhs, _next_bp) = self.parse_prefix()?;
        loop
            invariant
                entry == *old(self),
                self.follows(entry),
                self.pos > entry.pos,
                lhs.0 < self.arenas().exprs,
                t == self.toks(),
                strs == self.interner@,
                entry.ast.exprs@.is_prefix_of(self.ast.exprs@),
                gt_expr_bp(t, strs, entry.pos as int, min_bp) == gt_binops(
                    t,
                    strs,
                    self.pos as int,
                    min_bp,
                    tree_of(self.ast.exprs@, lhs.0 as int),
                ),
            ensures
                self.follows(entry),
                self.pos > entry.pos,
                lhs.0 < self.arenas().exprs,
                entry.ast.exprs@.is_prefix_of(self.ast.exprs@),
                gt_expr_bp(t, strs, entry.pos as int, min_bp) == Some((tree_of(self.ast.exprs@, lhs.0 as int), self.pos as int)),
            decreases self.tokens@.len() - self.pos,
        {
            let op = match self.current_binop() {
                Some(op) => op,
                None => break,
            };
            let (l_bp, r_bp) = op.precedence();
            if l_bp < min_bp {
                break;
            }
            let ghost before = *self;
            self.advance();
            let rhs = self.parse_expr_bp(r_bp)?;
            let span = start.merge(self.current_span());
            let ghost mid = self.arenas();
            let ghost e2 = self.ast.exprs@;
            proof {
                assert(lhs.0 < mid.exprs);
                lemma_tree_stable(before.ast.exprs@, e2, lhs.0 as int);
                lemma_prefix_trans(entry.ast.exprs@, before.ast.exprs@, e2);
            }
            let new_lhs = self.push_expr(Expr::Binary { op, lhs, rhs, span }, span);
            proof {
                let e3 = self.ast.exprs@;
                assert(e2.is_prefix_of(e3));
                lemma_tree_stable(e2, e3, lhs.0 as int);
                lemma_tree_stable(e2, e3, rhs.0 as int);
                lemma_prefix_trans(entry.ast.exprs@, e2, e3);
                assert(tree_of(e3, new_lhs.0 as int) == ETree::Binary(
                    op,
                    Box::new(tree_of(e3, lhs.0 as int)),
                    Box::new(tree_of(e3, rhs.0 as int)),
                ));
            }
            lhs = new_lhs;
        }
        Ok(lhs)
    }

    #[verifier::spinoff_prover]
    fn parse_prefix(&mut self) -> (r: Result<(ExprId, u8), ParseError>)
        requires
            old(self).inv(),
        ensures
            final(self).follows(*old(self)),
            old(self).ast.exprs@.is_prefix_of(final(self).ast.exprs@),
            r is Ok ==> final(self).pos > old(self).pos && r->Ok_0.0.0 < final(self).arenas().exprs,
            match r {
                Ok((id, _)) => gt_prefix(old(self).toks(), old(self).interner@, old(self).pos as int) == Some(
                    (tree_of(final(self).ast.exprs@, id.0 as int), final(self).pos as int),
                ),
                Err(_) => gt_prefix(old(self).toks(), old(self).interner@, old(self).pos as int) is None,
            },
        decreases old(self).tokens@.len() - old(self).pos, 1int,
    {
        let ghost entry = *self;
        proof {
            lemma_kind_view(self.cur());
        }
        let start = self.current_span();
        if self.check(&TokenKind::Await) {
            self.advance();
            let inner = self.parse_expr_bp(0)?;
            let span = start.merge(self.current_span());
            let ghost e2 = self.ast.exprs@;
            let id = self.push_expr(Expr::Await(inner, span), span);
            proof {
                lemma_tree_stable(e2, self.ast.exprs@, inner.0 as int);
                lemma_prefix_trans(entry.ast.exprs@, e2, self.ast.exprs@);
            }
            return Ok((id, 0));
        }
        if self.check(&TokenKind::Bang) {
            self.advance();
            let rhs = self.parse_expr_bp(8)?;
            let span = start.merge(self.current_span());
            let ghost e2 = self.ast.exprs@;
            let id = self.push_expr(Expr::Unary { op: UnOp::Not, rhs, span }, span);
            proof {
                lemma_tree_stable(e2, self.ast.exprs@, rhs.0 as int);
                lemma_prefix_trans(entry.ast.exprs@, e2, self.ast.exprs@);
            }
            return Ok((id, 0));
        }
        if self.check(&TokenKind::Minus) {
            self.advance();
            let rhs = self.parse_expr_bp(8)?;
            let span = start.merge(self.current_span());
            let ghost e2 = self.ast.exprs@;
            let id = self.push_expr(Expr::Unary { op: UnOp::Neg, rhs, span }, span);
            proof {
                lemma_tree_stable(e2, self.ast.exprs@, rhs.0 as int);
                lemma_prefix_trans(entry.ast.exprs@, e2, self.ast.exprs@);
            }
            return Ok((id, 0));
        }
        if self.check(&TokenKind::LParen) {
            self.advance();
            let expr = self.parse_expr()?;
            self.expect(&TokenKind::RParen)?;
            return Ok((expr, 0));
        }
        if self.check(&TokenKind::StrStart) {
            return self.parse_string_interp();
        }
        if let TokenKind::Int(v) = self.tokens[self.pos].kind {
            self.advance();
            let span = start.merge(self.current_span());
            let id = self.push_expr(Expr::Int(v), span);
            return Ok((id, 0));
        }
        if let TokenKind::Float(v) = &self.tokens[self.pos].kind {
            let v2 = crate::bytes::copy_range(v.as_slice(), 0, v.len());
            assert(v2@ =~= v@);
            self.advance();
            let span = start.merge(self.current_span());
            let id = self.push_expr(Expr::Float(v2), span);
            return Ok((id, 0));
        }
        if let TokenKind::Bool(v) = self.tokens[self.pos].kind {
            self.advance();
            let span = start.merge(self.current_span());
            let id = self.push_expr(Expr::Bool(v), span);
            return Ok((id, 0));
        }
        if let TokenKind::Ident(sym) = self.tokens[self.pos].kind {
            self.advance();
            let span0 = start.merge(self.current_span());
            let mut expr = self.push_expr(Expr::Ident(sym), span0);
            loop
                invariant
                    entry == *old(self),
                    self.follows(entry),
                    self.pos > entry.pos,
                    expr.0 < self.arenas().exprs,
                    entry.ast.exprs@.is_prefix_of(self.ast.exprs@),
                    gt_prefix(entry.toks(), entry.interner@, entry.pos as int) == gt_postfix(
                        self.toks(),
                        self.interner@,
                        self.pos as int,
                        tree_of(self.ast.exprs@, expr.0 as int),
                    ),
                ensures
                    self.follows(entry),
                    self.pos > entry.pos,
                    expr.0 < self.arenas().exprs,
                    entry.ast.exprs@.is_prefix_of(self.ast.exprs@),
                    gt_prefix(entry.toks(), entry.interner@, entry.pos as int) == Some(
                        (tree_of(self.ast.exprs@, expr.0 as int), self.pos as int),
                    ),
                decreases self.tokens@.len() - self.pos,
            {
                if self.check(&TokenKind::Dot) {
                    self.advance();
                    proof {
                        lemma_kind_view(self.cur());
                    }
                    let field = self.expect_ident()?;
                    let span = start.merge(self.current_span());
                    let ghost e2 = self.ast.exprs@;
                    let e = self.push_expr(Expr::Field { base: expr, field, span }, span);
                    proof {
                        lemma_tree_stable(e2, self.ast.exprs@, expr.0 as int);
                        lemma_prefix_trans(entry.ast.exprs@, e2, self.ast.exprs@);
                    }
                    expr = e;
                } else if self.check(&TokenKind::LParen) {
                    let ghost e1 = self.ast.exprs@;
                    let args = self.parse_args()?;
                    let span = start.merge(self.current_span());
                    let ghost e2 = self.ast.exprs@;
                    let e = self.push_expr(Expr::Call { callee: expr, args, span }, span);
                    proof {
                        let e3 = self.ast.exprs@;
                        lemma_tree_stable(e1, e2, expr.0 as int);
                        lemma_tree_stable(e2, e3, expr.0 as int);
                        lemma_args_stable(e2, e3, args@, e2.len() as int, 0);
                        lemma_prefix_trans(entry.ast.exprs@, e1, e2);
                        lemma_prefix_trans(entry.ast.exprs@, e2, e3);
                    }
                    expr = e;
                } else {
                    break;
                }
            }
            return Ok((expr, 0));
        }
        Err(self.error("expected expression"))
    }

    #[verifier::spinoff_prover]
    fn parse_string_interp(&mut self) -> (r: Result<(ExprId, u8), ParseError>)
        requires
            old(self).inv(),
        ensures
            final(self).follows(*old(self)),
            old(self).ast.exprs@.is_prefix_of(final(self).ast.exprs@),
            r is Ok ==> final(self).pos > old(self).pos && r->Ok_0.0.0 < final(self).arenas().exprs,
            match r {
                Ok((id, _)) => gt_interp(old(self).toks(), old(self).interner@, old(self).pos as int) == Some(
                    (tree_of(final(self).ast.exprs@, id.0 as int), final(self).pos as int),
                ),
                Err(_) => gt_interp(old(self).toks(), old(self).interner@, old(self).pos as int) is None,
            },
        decreases old(self).tokens@.len() - old(self).pos, 0int,
    {
        let ghost entry = *self;
        let ghost t = self.toks();
        let ghost strs = self.interner@;
        let start = self.current_span();
        self.expect(&TokenKind::StrStart)?;
        let mut parts: Vec<InterpPart> = Vec::new();
        proof {
            assert(parts_tree(self.ast.exprs@, parts@, self.ast.exprs@.len() as int, 0) =~= Seq::<ETree>::empty());
        }
        while !self.check(&TokenKind::StrEnd) && !self.check(&TokenKind::Eof)
            invariant
                gt_interp(t, strs, entry.pos as int) == match gt_parts(t, strs, self.pos as int) {
                    Some((ps, q)) => match eat(t, q, TokenKind::StrEnd) {
                        Some(q2) => Some(
                            (
                                ETree::Interp(parts_tree(self.ast.exprs@, parts@, self.ast.exprs@.len() as int, 0) + ps),
                                q2,
                            ),
                        ),
                        None => None,
                    },
                    None => None,
                },
                entry == *old(self),
                self.follows(entry),
                self.pos > entry.pos,
                parts_ok(parts@, self.arenas()),
                t == self.toks(),
                strs == self.interner@,
                entry.ast.exprs@.is_prefix_of(self.ast.exprs@),
            ensures
                gt_parts(t, strs, self.pos as int) == Some((Seq::<ETree>::empty(), self.pos as int)),
            decreases self.tokens@.len() - self.pos,
        {
            proof {
                lemma_kind_view(self.cur());
            }
            let ghost e1 = self.ast.exprs@;
            let ghost p1 = parts@;
            let ghost q = self.pos as int;
            if let TokenKind::StrText(sym) = self.tokens[self.pos].kind {
                self.advance();
                parts.push(InterpPart::Text(sym));
                proof {
                    lemma_parts_tree_push(e1, p1, InterpPart::Text(sym), e1.len() as int, 0);
                    let rest = gt_parts(t, strs, q + 1);
                    if let Some((ps, q2)) = rest {
                        assert(parts_tree(e1, p1, e1.len() as int, 0) + (seq![ETree::Text(sym)] + ps) =~= parts_tree(
                            e1,
                            parts@,
                            e1.len() as int,
                            0,
                        ) + ps);
                    }
                }
            } else if self.check(&TokenKind::InterpStart) {
                self.advance();
                let expr = self.parse_expr()?;
                self.expect(&TokenKind::InterpEnd)?;
                parts.push(InterpPart::Expr(expr));
                proof {
                    let e2 = self.ast.exprs@;
                    lemma_parts_tree_grow(e1, e2, p1, 0);
                    lemma_parts_tree_push(e2, p1, InterpPart::Expr(expr), e2.len() as int, 0);
                    lemma_prefix_trans(entry.ast.exprs@, e1, e2);
                    let rest = gt_parts(t, strs, self.pos as int);
                    if let Some((ps, q4)) = rest {
                        assert(parts_tree(e1, p1, e1.len() as int, 0) + (seq![tree_of(e2, expr.0 as int)] + ps) =~= parts_tree(
                            e2,
                            parts@,
                            e2.len() as int,
                            0,
                        ) + ps);
                    }
                }
            } else {
                break;
            }
        }
        proof {
            let e1 = self.ast.exprs@;
            assert(parts_tree(e1, parts@, e1.len() as int, 0) + Seq::<ETree>::empty() =~= parts_tree(e1, parts@, e1.len() as int, 0));
        }
        self.expect(&TokenKind::StrEnd)?;
        let span = start.merge(self.current_span());
        let ghost e2 = self.ast.exprs@;
        let id = self.push_expr(Expr::Interp(parts), span);
        proof {
            lemma_parts_stable(e2, self.ast.exprs@, parts@, e2.len() as int, 0);
            lemma_prefix_trans(entry.ast.exprs@, e2, self.ast.exprs@);
        }
        Ok((id, 0))
    }

    #[verifier::spinoff_prover]
    fn parse_args(&mut self) -> (r: Result<Vec<Arg>, ParseError>)
        requires
            old(self).inv(),
        ensures
            final(self).follows(*old(self)),
            old(self).ast.exprs@.is_prefix_of(final(self).ast.exprs@),
            r is Ok ==> final(self).pos > old(self).pos && args_ok(r->Ok_0@, final(self).arenas()),
            r is Ok ==> final(self).ast.exprs@.len() - final(self).pos < old(self).ast.exprs@.len() - old(self).pos,
            match r {
                Ok(args) => gt_args(old(self).toks(), old(self).interner@, old(self).pos as int) == Some(
                    (
                        (
                            args@.map_values(|a: Arg| a.name),
                            args_tree(final(self).ast.exprs@, args@, final(self).ast.exprs@.len() as int, 0),
                        ),
                        final(self).pos as int,
                    ),
                ),
                Err(_) => gt_args(old(self).toks(), old(self).interner@, old(self).pos as int) is None,
            },
            match r {
                Ok(_) => g_args(old(self).toks(), old(self).interner@, old(self).pos as int) == Some(final(self).pos as int),
                Err(_) => g_args(old(self).toks(), old(self).interner@, old(self).pos as int) is None,
            },
        decreases old(self).tokens@.len() - old(self).pos, 5int,
    {
        let ghost entry = *self;
        let ghost t = self.toks();
        let ghost strs = self.interner@;
        self.expect(&TokenKind::LParen)?;
        let mut args: Vec<Arg> = Vec::new();
        proof {
            assert(args@.map_values(|a: Arg| a.name) =~= Seq::<Option<Symbol>>::empty());
            assert(args_tree(self.ast.exprs@, args@, self.ast.exprs@.len() as int, 0) =~= Seq::<ETree>::empty());
        }
        if !self.check(&TokenKind::RParen) {
            loop
                invariant_except_break
                    gt_args(t, strs, entry.pos as int) == args_rest(
                        t,
                        strs,
                        self.pos as int,
                        args@.map_values(|x: Arg| x.name),
                        args_tree(self.ast.exprs@, args@, self.ast.exprs@.len() as int, 0),
                    ),
                invariant
                    entry == *old(self),
                    self.follows(entry),
                    self.pos > entry.pos,
                    args_ok(args@, self.arenas()),
                    t == self.toks(),
                    strs == self.interner@,
                    entry.ast.exprs@.is_prefix_of(self.ast.exprs@),
                    self.ast.exprs@.len() - self.pos < entry.ast.exprs@.len() - entry.pos,
                ensures
                    self.follows(entry),
                    self.pos > entry.pos,
                    args_ok(args@, self.arenas()),
                    entry.ast.exprs@.is_prefix_of(self.ast.exprs@),
                    self.ast.exprs@.len() - self.pos < entry.ast.exprs@.len() - entry.pos,
                    gt_args(t, strs, entry.pos as int) == args_close(
                        t,
                        self.pos as int,
                        args@.map_values(|x: Arg| x.name),
                        args_tree(self.ast.exprs@, args@, self.ast.exprs@.len() as int, 0),
                    ),
                decreases self.tokens@.len() - self.pos,
            {
                let ghost p0 = self.pos as int;
                let ghost e1 = self.ast.exprs@;
                let ghost a1 = args@;
                let arg = self.parse_arg()?;
                args.push(arg);
                let ghost p1 = self.pos as int;
                proof {
                    let e2 = self.ast.exprs@;
                    lemma_args_tree_grow(e1, e2, a1, 0);
                    lemma_args_tree_push(e2, a1, arg, e2.len() as int, 0);
                    lemma_prefix_trans(entry.ast.exprs@, e1, e2);
                    assert(args@.map_values(|x: Arg| x.name) =~= a1.map_values(|x: Arg| x.name).push(arg.name));
                    lemma_args_step(
                        t,
                        strs,
                        p0,
                        p1,
                        a1.map_values(|x: Arg| x.name),
                        args_tree(e1, a1, e1.len() as int, 0),
                        arg.name,
                        tree_of(e2, arg.value.0 as int),
                    );
                }
                if self.check(&TokenKind::Comma) {
                    self.advance();
                } else {
                    break;
                }
            }
        }
        self.expect(&TokenKind::RParen)?;
        Ok(args)
    }

    fn parse_arg(&mut self) -> (r: Result<Arg, ParseError>)
        requires
            old(self).inv(),
        ensures
            final(self).follows(*old(self)),
            old(self).ast.exprs@.is_prefix_of(final(self).ast.exprs@),
            r is Ok ==> final(self).pos > old(self).pos && expr_id_ok(r->Ok_0.value, final(self).arenas()),
            match r {
                Ok(arg) => gt_arg(old(self).toks(), old(self).interner@, old(self).pos as int) == Some(
                    (arg.name, tree_of(final(self).ast.exprs@, arg.value.0 as int), final(self).pos as int),
                ),
                Err(_) => gt_arg(old(self).toks(), old(self).interner@, old(self).pos as int) is None,
            },
        decreases old(self).tokens@.len() - old(self).pos, 4int,
    {
        proof {
            lemma_kind_view(self.cur());
        }
        let start = self.current_span();
        let name = if self.peek_name_colon() {
            let n = self.expect_ident()?;
            self.expect(&TokenKind::Colon)?;
            Some(n)
        } else {
            None
        };
        let value = self.parse_expr()?;
        Ok(Arg { name, value, span: start.merge(self.current_span()) })
    }
}

} // verus!

verus! {

impl Parser {
    fn parse_type(&mut self) -> (r: Result<TypeRef, ParseError>)
        requires
            old(self).inv(),
        ensures
            final(self).follows(*old(self)),
            r is Ok ==> final(self).pos > old(self).pos,
            r matches Ok(ty) ==> old(self).toks()[old(self).pos as int].kind == TokenKind::<Seq<u8>>::Ident(ty.name),
            match r {
                Ok(_) => g_type(old(self).toks(), old(self).pos as int) == Some(final(self).pos as int),
                Err(_) => g_type(old(self).toks(), old(self).pos as int) is None,
            },
        decreases old(self).tokens@.len() - old(self).pos,
    {
        let ghost entry = *self;
        let start = self.current_span();
        let name = self.expect_ident()?;
        let mut generics: Vec<TypeRef> = Vec::new();
        if self.check(&TokenKind::LAngle) {
            self.advance();
            let ghost p2 = self.pos as int;
            loop
                invariant_except_break
                    g_type_list(entry.toks(), p2) == g_type_list(self.toks(), self.pos as int),
                invariant
                    entry == *old(self),
                    self.follows(entry),
                    self.pos > entry.pos,
                    p2 == entry.pos + 2,
                    eat_ident(entry.toks(), entry.pos as int) == Some(entry.pos + 1),
                    at(entry.toks(), entry.pos + 1, TokenKind::LAngle),
                ensures
                    self.follows(entry),
                    self.pos > entry.pos,
                    g_type_list(entry.toks(), p2) == Some(self.pos as int),
                decreases self.tokens@.len() - self.pos,
            {
                let t = self.parse_type()?;
                generics.push(t);
                if self.check(&TokenKind::Comma) {
                    self.advance();
                } else {
                    break;
                }
            }
            self.expect(&TokenKind::RAngle)?;
        }
        let optional = if self.check(&TokenKind::Question) {
            self.advance();
            true
        } else {
            false
        };
        Ok(TypeRef { name, generics, optional, span: start.merge(self.current_span()) })
    }

    fn parse_param(&mut self) -> (r: Result<Param, ParseError>)
        requires
            old(self).inv(),
        ensures
            final(self).follows(*old(self)),
            r is Ok ==> final(self).pos > old(self).pos && params_ok(seq![r->Ok_0], final(self).arenas()),
            match r {
                Ok(_) => g_param(old(self).toks(), old(self).interner@, old(self).pos as int) == Some(final(self).pos as int),
                Err(_) => g_param(old(self).toks(), old(self).interner@, old(self).pos as int) is None,
            },
    {
        let start = self.current_span();
        let name = self.expect_ident()?;
        self.expect(&TokenKind::Colon)?;
        let ty = self.parse_type()?;
        let default = if self.check(&TokenKind::Eq) {
            self.advance();
            Some(self.parse_expr()?)
        } else {
            None
        };
        let p = Param { name, ty, default, span: start.merge(self.current_span()) };
        assert(seq![p][0] == p);
        Ok(p)
    }

    fn parse_params(&mut self) -> (r: Result<Vec<Param>, ParseError>)
        requires
            old(self).inv(),
        ensures
            final(self).follows(*old(self)),
            r is Ok ==> final(self).pos > old(self).pos && params_ok(r->Ok_0@, final(self).arenas()),
            match r {
                Ok(_) => g_params(old(self).toks(), old(self).interner@, old(self).pos as int) == Some(final(self).pos as int),
                Err(_) => g_params(old(self).toks(), old(self).interner@, old(self).pos as int) is None,
            },
    {
        let ghost entry = *self;
        let ghost t = self.toks();
        let ghost strs = self.interner@;
        self.expect(&TokenKind::LParen)?;
        let mut params: Vec<Param> = Vec::new();
        if !self.check(&TokenKind::RParen) {
            loop
                invariant_except_break
                    g_params(t, strs, entry.pos as int) == match g_param_list(t, strs, self.pos as int) {
                        Some(q) => eat(t, q, TokenKind::RParen),
                        None => None,
                    },
                invariant
                    entry == *old(self),
                    self.follows(entry),
                    self.pos > entry.pos,
                    params_ok(params@, self.arenas()),
                    t == self.toks(),
                    strs == self.interner@,
                ensures
                    self.follows(entry),
                    self.pos > entry.pos,
                    params_ok(params@, self.arenas()),
                    g_params(t, strs, entry.pos as int) == eat(t, self.pos as int, TokenKind::RParen),
                decreases self.tokens@.len() - self.pos,
            {
                let ghost before = self.arenas();
                let p = self.parse_param()?;
                proof {
                    lemma_params_grow(params@, before, self.arenas());
                    assert(seq![p][0] == p);
                }
                params.push(p);
                if self.check(&TokenKind::Comma) {
                    self.advance();
                } else {
                    break;
                }
            }
        }
        self.expect(&TokenKind::RParen)?;
        Ok(params)
    }

    fn parse_state(&mut self) -> (r: Result<StateDef, ParseError>)
        requires
            old(self).inv(),
        ensures
            final(self).follows(*old(self)),
            r is Ok ==> final(self).pos > old(self).pos && expr_id_ok(r->Ok_0.init, final(self).arenas()),
            r matches Ok(d) ==> state_at(d, final(self).ast.exprs@, old(self).toks(), old(self).interner@, old(self).pos as int),
            match r {
                Ok(_) => g_state(old(self).toks(), old(self).interner@, old(self).pos as int) == Some(final(self).pos as int),
                Err(_) => g_state(old(self).toks(), old(self).interner@, old(self).pos as int) is None,
            },
    {
        let start = self.current_span();
        self.expect(&TokenKind::State)?;
        let name = self.expect_ident()?;
        self.expect(&TokenKind::Colon)?;
        let ty = self.parse_type()?;
        self.expect(&TokenKind::Eq)?;
        let init = self.parse_expr()?;
        Ok(StateDef { name, ty, init, span: start.merge(self.current_span()) })
    }

    fn parse_lvalue(&mut self) -> (r: Result<LValue, ParseError>)
        requires
            old(self).inv(),
        ensures
            final(self).follows(*old(self)),
            r is Ok ==> final(self).pos > old(self).pos && r->Ok_0.path@.len() > 0,
            r matches Ok(lv) ==> lv.path@ == lvalue_names(old(self).toks(), old(self).pos as int),
            match r {
                Ok(_) => g_lvalue(old(self).toks(), old(self).pos as int) == Some(final(self).pos as int),
                Err(_) => g_lvalue(old(self).toks(), old(self).pos as int) is None,
            },
    {
        let ghost entry = *self;
        let start = self.current_span();
        let first = self.expect_ident()?;
        let mut path: Vec<Symbol> = vec![first];
        proof {
            let t = self.toks();
            let rest = if at(t, self.pos as int, TokenKind::Dot) && eat_ident(t, self.pos + 1) is Some {
                lvalue_names(t, self.pos + 1)
            } else {
                Seq::empty()
            };
            assert(lvalue_names(t, entry.pos as int) == seq![first] + rest);
            assert(path@ =~= seq![first]);
        }
        while self.check(&TokenKind::Dot)
            invariant
                entry == *old(self),
                self.follows(entry),
                self.pos > entry.pos,
                path@.len() > 0,
                g_lvalue(entry.toks(), entry.pos as int) == g_dot_path(self.toks(), self.pos as int),
                path@ + (if at(self.toks(), self.pos as int, TokenKind::Dot) && eat_ident(self.toks(), self.pos + 1) is Some {
                    lvalue_names(self.toks(), self.pos + 1)
                } else {
                    Seq::empty()
                }) == lvalue_names(entry.toks(), entry.pos as int),
            decreases self.tokens@.len() - self.pos,
        {
            let ghost p0 = self.pos as int;
            let ghost path0 = path@;
            self.advance();
            let s = self.expect_ident()?;
            path.push(s);
            proof {
                let t = self.toks();
                let rest = if at(t, self.pos as int, TokenKind::Dot) && eat_ident(t, self.pos + 1) is Some {
                    lvalue_names(t, self.pos + 1)
                } else {
                    Seq::empty()
                };
                assert(lvalue_names(t, p0 + 1) == seq![s] + rest);
                assert(path@ + rest =~= path0 + (seq![s] + rest));
            }
        }
        proof {
            assert(path@ + Seq::<Symbol>::empty() =~= path@);
        }
        Ok(LValue { path, span: start.merge(self.current_span()) })
    }

    fn parse_assign_op(&mut self) -> (r: Result<AssignOp, ParseError>)
        requires
            old(self).inv(),
        ensures
            final(self).follows(*old(self)),
            r is Ok ==> final(self).pos == old(self).pos + 1,
            r is Err ==> final(self).pos == old(self).pos,
            r matches Ok(op) ==> op == assign_op_of(old(self).toks()[old(self).pos as int].kind),
            match r {
                Ok(_) => g_assign_op(old(self).toks(), old(self).pos as int) == Some(final(self).pos as int),
                Err(_) => g_assign_op(old(self).toks(), old(self).pos as int) is None,
            },
    {
        proof {
            lemma_kind_view(self.cur());
        }
        let op = match &self.tokens[self.pos].kind {
            TokenKind::Eq => AssignOp::Store,
            TokenKind::PlusEq => AssignOp::Add,
            TokenKind::MinusEq => AssignOp::Sub,
            TokenKind::StarEq => AssignOp::Mul,
            TokenKind::SlashEq => AssignOp::Div,
            _ => {
                return Err(self.error("expected assignment operator"));
            },
        };
        self.advance();
        Ok(op)
    }

    /// Statements up to the closing brace of a block.
    fn parse_stmt_block(&mut self) -> (r: Result<Vec<Stmt>, ParseError>)
        requires
            old(self).inv(),
        ensures
            final(self).follows(*old(self)),
            r is Ok ==> stmts_ok(r->Ok_0@, final(self).arenas()),
            match r {
                Ok(_) => g_stmts(old(self).toks(), old(self).interner@, old(self).pos as int) == Some(final(self).pos as int),
                Err(_) => g_stmts(old(self).toks(), old(self).interner@, old(self).pos as int) is None,
            },
        decreases old(self).tokens@.len() - old(self).pos, 2int,
    {
        let ghost entry = *self;
        let mut stmts: Vec<Stmt> = Vec::new();
        while !self.check(&TokenKind::RBrace)
            invariant
                entry == *old(self),
                self.follows(entry),
                stmts_ok(stmts@, self.arenas()),
                g_stmts(entry.toks(), entry.interner@, entry.pos as int) == g_stmts(
                    self.toks(),
                    self.interner@,
                    self.pos as int,
                ),
            decreases self.tokens@.len() - self.pos,
        {
            let ghost before = self.arenas();
            let st = self.parse_stmt()?;
            proof {
                lemma_stmts_grow(stmts@, before, self.arenas());
            }
            stmts.push(st);
            assert(stmts_ok(stmts@, self.arenas())) by {
                assert forall|i: int| 0 <= i < stmts@.len() implies stmt_refs_ok(#[trigger] stmts@[i], self.arenas()) by {
                    if i < stmts@.len() - 1 {
                        assert(stmts@[i] == stmts@.drop_last()[i]);
                    }
                }
            }
        }
        Ok(stmts)
    }

    fn parse_stmt(&mut self) -> (r: Result<Stmt, ParseError>)
        requires
            old(self).inv(),
        ensures
            final(self).follows(*old(self)),
            r is Ok ==> final(self).pos > old(self).pos && stmt_refs_ok(r->Ok_0, final(self).arenas()),
            r matches Ok(st) ==> stmt_head_at(st, final(self).ast.exprs@, old(self).toks(), old(self).interner@, old(self).pos as int),
            match r {
                Ok(_) => g_stmt(old(self).toks(), old(self).interner@, old(self).pos as int) == Some(final(self).pos as int),
                Err(_) => g_stmt(old(self).toks(), old(self).interner@, old(self).pos as int) is None,
            },
        decreases old(self).tokens@.len() - old(self).pos, 1int,
    {
        let start = self.current_span();
        if self.check(&TokenKind::If) {
            self.advance();
            let cond = self.parse_expr()?;
            self.expect(&TokenKind::LBrace)?;
            let ghost a1 = self.arenas();
            let then_ = self.parse_stmt_block()?;
            self.expect(&TokenKind::RBrace)?;
            let else_ = if self.check(&TokenKind::Else) {
                self.advance();
                self.expect(&TokenKind::LBrace)?;
                let ghost a2 = self.arenas();
                let els = self.parse_stmt_block()?;
                self.expect(&TokenKind::RBrace)?;
                proof {
                    lemma_stmts_grow(then_@, a2, self.arenas());
                }
                Some(els)
            } else {
                None
            };
            let st = Stmt::If { cond, then_, else_, span: start.merge(self.current_span()) };
            return Ok(st);
        }
        let lvalue = self.parse_lvalue()?;
        if self.check(&TokenKind::PlusPlus) {
            self.advance();
            return Ok(Stmt::IncDec { target: lvalue, op: IncDecOp::Inc, span: start.merge(self.current_span()) });
        }
        if self.check(&TokenKind::MinusMinus) {
            self.advance();
            return Ok(Stmt::IncDec { target: lvalue, op: IncDecOp::Dec, span: start.merge(self.current_span()) });
        }
        let op = self.parse_assign_op()?;
        let value = self.parse_expr()?;
        Ok(Stmt::Assign { target: lvalue, op, value, span: start.merge(self.current_span()) })
    }

    fn parse_handler(&mut self) -> (r: Result<HandlerId, ParseError>)
        requires
            old(self).inv(),
        ensures
            final(self).follows(*old(self)),
            r is Ok ==> final(self).pos > old(self).pos && r->Ok_0.0 < final(self).arenas().handlers,
            r matches Ok(h) ==> handler_at(
                final(self).ast.handlers@[h.0 as int].stmts@,
                final(self).ast.exprs@,
                old(self).toks(),
                old(self).interner@,
                old(self).pos as int,
            ),
            match r {
                Ok(_) => g_handler(old(self).toks(), old(self).interner@, old(self).pos as int) == Some(final(self).pos as int),
                Err(_) => g_handler(old(self).toks(), old(self).interner@, old(self).pos as int) is None,
            },
    {
        let start = self.current_span();
        self.expect(&TokenKind::LBrace)?;
        let ghost entry = *self;
        let mut stmts: Vec<Stmt> = Vec::new();
        let ghost mut done: Seq<int> = Seq::empty();
        proof {
            assert(done + handler_stmt_starts(self.toks(), self.interner@, self.pos as int) =~= handler_stmt_starts(
                entry.toks(),
                entry.interner@,
                entry.pos as int,
            ));
        }
        while !self.check(&TokenKind::RBrace) && !self.check(&TokenKind::Eof)
            invariant
                entry.follows(*old(self)),
                entry.pos == old(self).pos + 1,
                handler_stmt_starts(entry.toks(), entry.interner@, entry.pos as int) == done + handler_stmt_starts(
                    self.toks(),
                    self.interner@,
                    self.pos as int,
                ),
                stmts@.len() == done.len(),
                forall|k: int| 0 <= k < done.len() ==> stmt_head_at(#[trigger] stmts@[k], self.ast.exprs@, entry.toks(), entry.interner@, done[k]),
                self.follows(entry),
                stmts_ok(stmts@, self.arenas()),
                g_handler_stmts(entry.toks(), entry.interner@, entry.pos as int) == g_handler_stmts(
                    self.toks(),
                    self.interner@,
                    self.pos as int,
                ),
                g_handler(old(self).toks(), old(self).interner@, old(self).pos as int) == match g_handler_stmts(
                    entry.toks(),
                    entry.interner@,
                    entry.pos as int,
                ) {
                    Some(q) => eat(entry.toks(), q, TokenKind::RBrace),
                    None => None,
                },
            decreases self.tokens@.len() - self.pos,
        {
            let ghost before = self.arenas();
            let ghost b = self.pos as int;
            let ghost ex0 = self.ast.exprs@;
            let ghost st0 = stmts@;
            let ghost rest = handler_stmt_starts(self.toks(), self.interner@, b);
            let st = self.parse_stmt()?;
            proof {
                lemma_stmts_grow(stmts@, before, self.arenas());
                lemma_stmt_heads_stable(st0, ex0, self.ast.exprs@, entry.toks(), entry.interner@, done, before);
            }
            stmts.push(st);
            assert(stmts_ok(stmts@, self.arenas())) by {
                assert forall|i: int| 0 <= i < stmts@.len() implies stmt_refs_ok(#[trigger] stmts@[i], self.arenas()) by {
                    if i < stmts@.len() - 1 {
                        assert(stmts@[i] == stmts@.drop_last()[i]);
                    }
                }
            }
            proof {
                assert(rest == seq![b] + handler_stmt_starts(self.toks(), self.interner@, self.pos as int));
                assert(done + rest =~= done.push(b) + handler_stmt_starts(self.toks(), self.interner@, self.pos as int));
                done = done.push(b);
                assert forall|k: int| 0 <= k < done.len() implies stmt_head_at(
                    #[trigger] stmts@[k],
                    self.ast.exprs@,
                    entry.toks(),
                    entry.interner@,
                    done[k],
                ) by {
                    if k < st0.len() {
                        assert(stmts@[k] == st0[k]);
                    }
                }
            }
        }
        proof {
            assert(handler_stmt_starts(self.toks(), self.interner@, self.pos as int) =~= Seq::<int>::empty());
            assert(done + Seq::<int>::empty() =~= done);
        }
        self.expect(&TokenKind::RBrace)?;
        let span = start.merge(self.current_span());
        let h = Handler { stmts, span };
        let id = self.push_handler(h, span);
        Ok(id)
    }
}

} // verus!

verus! {

proof fn lemma_modifiers_grow(ms: Seq<Modifier>, s: Arenas, t: Arenas)
    requires
        crate::ast::modifiers_ok(ms, s),
        grown(s, t),
    ensures
        crate::ast::modifiers_ok(ms, t),
{
    assert forall|i: int| 0 <= i < ms.len() implies args_ok(#[trigger] ms[i].args@, t) by {
        lemma_args_grow(ms[i].args@, s, t);
    }
}

impl Parser {
    /// Symbol `sym` names `name` in the interner.
    fn sym_is(&self, sym: Symbol, name: &[u8]) -> (r: bool)
        requires
            self.inv(),
        ensures
            r == ((sym.0 as int) < self.interner@.len() && self.interner@[sym.0 as int] == name@),
    {
        (sym.0 as usize) < self.interner.len() && bytes_eq(self.interner.get(sym), name)
    }

    fn parse_modifier(&mut self) -> (r: Result<Modifier, ParseError>)
        requires
            old(self).inv(),
        ensures
            final(self).follows(*old(self)),
            r is Ok ==> final(self).pos > old(self).pos && args_ok(r->Ok_0.args@, final(self).arenas()),
            match r {
                Ok(_) => g_modifier(old(self).toks(), old(self).interner@, old(self).pos as int) == Some(final(self).pos as int),
                Err(_) => g_modifier(old(self).toks(), old(self).interner@, old(self).pos as int) is None,
            },
    {
        let start = self.current_span();
        self.expect(&TokenKind::Dot)?;
        let name = self.expect_ident()?;
        let args = if self.check(&TokenKind::LParen) {
            self.parse_args()?
        } else {
            Vec::new()
        };
        Ok(Modifier { name, args, span: start.merge(self.current_span()) })
    }

    #[verifier::spinoff_prover]
    #[verifier::rlimit(100)]
    fn parse_node(&mut self) -> (r: Result<NodeId, ParseError>)
        requires
            old(self).inv(),
        ensures
            final(self).follows(*old(self)),
            r is Ok ==> final(self).pos > old(self).pos && r->Ok_0.0 < final(self).arenas().nodes,
            r matches Ok(id) ==> node_at(
                final(self).ast.nodes@,
                final(self).ast.handlers@,
                final(self).ast.exprs@,
                id.0 as int,
                old(self).toks(),
                old(self).interner@,
                old(self).pos as int,
            ),
            match r {
                Ok(_) => g_node(old(self).toks(), old(self).interner@, old(self).pos as int) == Some(final(self).pos as int),
                Err(_) => g_node(old(self).toks(), old(self).interner@, old(self).pos as int) is None,
            },
        decreases old(self).tokens@.len() - old(self).pos, 1int,
    {
        let ghost entry = *self;
        let ghost t = self.toks();
        let ghost strs = self.interner@;
        proof {
            lemma_kind_view(self.cur());
            reveal(node_head_at);
            reveal(node_at);
        }
        let start = self.current_span();
        if self.check(&TokenKind::If) {
            return self.parse_if_node();
        }
        if self.is_ident("List".as_bytes()) {
            return self.parse_list_node();
        }
        let kind = self.expect_ident()?;
        let has_args = self.check(&TokenKind::LParen);
        let args = if has_args {
            self.parse_args()?
        } else {
            Vec::new()
        };
        let ghost e1 = self.ast.exprs@;
        proof {
            assert forall|j: int| 0 <= j < args@.len() implies (#[trigger] args@[j]).value.0 < e1.len() by {
                assert(expr_id_ok(args@[j].value, self.arenas()));
            }
        }
        let mut modifiers: Vec<Modifier> = Vec::new();
        let ghost q2 = self.pos as int;
        proof {
            assert(g_modifiers(t, strs, q2) is None ==> g_node(t, strs, entry.pos as int) is None);
        }
        while self.check(&TokenKind::Dot)
            invariant
                entry == *old(self),
                self.follows(entry),
                self.pos > entry.pos,
                args_ok(args@, self.arenas()),
                crate::ast::modifiers_ok(modifiers@, self.arenas()),
                t == self.toks(),
                strs == self.interner@,
                g_modifiers(t, strs, q2) == g_modifiers(t, strs, self.pos as int),
                g_modifiers(t, strs, q2) is None ==> g_node(t, strs, entry.pos as int) is None,
                self.ast.nodes@.len() - self.pos < entry.ast.nodes@.len() - entry.pos,
                exprs_kept(e1, self.ast.exprs@),
            decreases self.tokens@.len() - self.pos,
        {
            let ghost before = self.arenas();
            let m = self.parse_modifier()?;
            proof {
                lemma_args_grow(args@, before, self.arenas());
                lemma_modifiers_grow(modifiers@, before, self.arenas());
            }
            modifiers.push(m);
            assert(crate::ast::modifiers_ok(modifiers@, self.arenas())) by {
                assert forall|i: int| 0 <= i < modifiers@.len() implies args_ok(#[trigger] modifiers@[i].args@, self.arenas()) by {
                    if i < modifiers@.len() - 1 {
                        assert(modifiers@[i] == modifiers@.drop_last()[i]);
                    }
                }
            }
        }
        let ghost before = self.arenas();
        let ghost m = self.pos as int;
        let (children, handler) = if self.check(&TokenKind::LBrace) {
            let is_handler = self.sym_is(kind, "Button".as_bytes()) || self.sym_is(kind, "TextField".as_bytes());
            if is_handler {
                let h = self.parse_handler()?;
                (Vec::new(), Some(h))
            } else {
                (self.parse_child_block()?, None)
            }
        } else {
            (Vec::new(), None)
        };
        proof {
            lemma_args_grow(args@, before, self.arenas());
            lemma_modifiers_grow(modifiers@, before, self.arenas());
        }
        let span = start.merge(self.current_span());
        let ghost args_v = args@;
        let ghost children_v = children@;
        let ghost ast_b = self.ast;
        let node = AstNode::Element { kind, args, modifiers, children, handler, span };
        let id = self.push_node(node, span);
        proof {
            lemma_exprs_prefix(e1, self.ast.exprs@);
            lemma_args_tree_grow(e1, self.ast.exprs@, args_v, 0);
            if at(t, m, TokenKind::LBrace) && !named(t, strs, entry.pos as int, "Button".spec_bytes()) && !named(
                t,
                strs,
                entry.pos as int,
                "TextField".spec_bytes(),
            ) {
                lemma_nodes_at_stable(
                    children_v,
                    ast_b,
                    self.ast.nodes@,
                    self.ast.handlers@,
                    self.ast.exprs@,
                    t,
                    strs,
                    child_starts(t, strs, m + 1),
                );
                assert forall|k: int| 0 <= k < children_v.len() implies (#[trigger] children_v[k]).0 < id.0 by {
                    assert(node_ids_ok(children_v, arenas_of(ast_b)));
                }
            }
        }
        Ok(id)
    }

    #[verifier::spinoff_prover]
    #[verifier::rlimit(100)]
    fn parse_if_node(&mut self) -> (r: Result<NodeId, ParseError>)
        requires
            old(self).inv(),
        ensures
            final(self).follows(*old(self)),
            r is Ok ==> final(self).pos > old(self).pos && r->Ok_0.0 < final(self).arenas().nodes,
            r matches Ok(id) ==> final(self).ast.nodes@[id.0 as int] is If,
            r matches Ok(id) ==> node_at(
                final(self).ast.nodes@,
                final(self).ast.handlers@,
                final(self).ast.exprs@,
                id.0 as int,
                old(self).toks(),
                old(self).interner@,
                old(self).pos as int,
            ),
            match r {
                Ok(_) => g_if_node(old(self).toks(), old(self).interner@, old(self).pos as int) == Some(final(self).pos as int),
                Err(_) => g_if_node(old(self).toks(), old(self).interner@, old(self).pos as int) is None,
            },
        decreases old(self).tokens@.len() - old(self).pos, 0int,
    {
        let ghost t = self.toks();
        let ghost strs = self.interner@;
        let ghost p0 = self.pos as int;
        let start = self.current_span();
        self.expect(&TokenKind::If)?;
        let cond = self.parse_expr()?;
        let ghost e1 = self.ast.exprs@;
        let ghost p2 = self.pos as int;
        let then_ = self.parse_child_block()?;
        let ghost a1 = self.arenas();
        let ghost ast1 = self.ast;
        let else_ = if self.check(&TokenKind::Else) {
            self.advance();
            if self.check(&TokenKind::If) {
                let n = self.parse_if_node()?;
                Some(vec![n])
            } else {
                Some(self.parse_child_block()?)
            }
        } else {
            None
        };
        proof {
            lemma_node_ids_grow(then_@, a1, self.arenas());
        }
        let span = start.merge(self.current_span());
        let ghost then_v = then_@;
        let node = AstNode::If { cond, then_, else_, span };
        let id = self.push_node(node, span);
        proof {
            reveal(node_head_at);
            reveal(node_at);
            lemma_exprs_prefix(e1, self.ast.exprs@);
            lemma_tree_stable(e1, self.ast.exprs@, cond.0 as int);
            lemma_nodes_at_stable(then_v, ast1, self.ast.nodes@, self.ast.handlers@, self.ast.exprs@, t, strs, child_starts(t, strs, p2 + 1));
            assert forall|k: int| 0 <= k < then_v.len() implies (#[trigger] then_v[k]).0 < id.0 by {
                assert(node_ids_ok(then_v, a1));
            }
        }
        Ok(id)
    }

    #[verifier::spinoff_prover]
    #[verifier::rlimit(100)]
    fn parse_list_node(&mut self) -> (r: Result<NodeId, ParseError>)
        requires
            old(self).inv(),
        ensures
            final(self).follows(*old(self)),
            r is Ok ==> final(self).pos > old(self).pos && r->Ok_0.0 < final(self).arenas().nodes,
            r matches Ok(id) ==> final(self).ast.nodes@[id.0 as int] is List,
            match r {
                Ok(_) => g_list_node(old(self).toks(), old(self).interner@, old(self).pos as int) == Some(final(self).pos as int),
                Err(_) => g_list_node(old(self).toks(), old(self).interner@, old(self).pos as int) is None,
            },
        decreases old(self).tokens@.len() - old(self).pos, 0int,
    {
        let ghost entry = *self;
        let start = self.current_span();
        self.expect_ident()?;
        self.expect(&TokenKind::LParen)?;
        let source = self.parse_expr()?;
        self.expect(&TokenKind::RParen)?;
        let key = if self.is_ident("key".as_bytes()) {
            self.advance();
            self.expect(&TokenKind::Colon)?;
            Some(self.parse_expr()?)
        } else {
            None
        };
        self.expect(&TokenKind::LBrace)?;
        let binding = self.expect_ident()?;
        self.expect(&TokenKind::In)?;
        let mut body: Vec<NodeId> = Vec::new();
        let ghost q4 = self.pos as int;
        proof {
            assert(g_list_body(entry.toks(), entry.interner@, q4) is None ==> g_list_node(
                entry.toks(),
                entry.interner@,
                entry.pos as int,
            ) is None);
        }
        while !self.check(&TokenKind::RBrace)
            invariant
                entry == *old(self),
                self.follows(entry),
                self.pos > entry.pos,
                g_list_body(entry.toks(), entry.interner@, q4) == g_list_body(self.toks(), self.interner@, self.pos as int),
                g_list_body(entry.toks(), entry.interner@, q4) is None ==> g_list_node(
                    entry.toks(),
                    entry.interner@,
                    entry.pos as int,
                ) is None,
                expr_id_ok(source, self.arenas()),
                match key {
                    Some(k) => expr_id_ok(k, self.arenas()),
                    None => true,
                },
                node_ids_ok(body@, self.arenas()),
                self.ast.nodes@.len() - self.pos < entry.ast.nodes@.len() - entry.pos,
            decreases self.tokens@.len() - self.pos,
        {
            let n = self.parse_node()?;
            body.push(n);
            assert(node_ids_ok(body@, self.arenas())) by {
                assert forall|i: int| 0 <= i < body@.len() implies #[trigger] body@[i].0 < self.arenas().nodes by {
                    if i < body@.len() - 1 {
                        assert(body@[i] == body@.drop_last()[i]);
                    }
                }
            }
        }
        self.expect(&TokenKind::RBrace)?;
        let span = start.merge(self.current_span());
        let node = AstNode::List { source, key, binding, body, span };
        let id = self.push_node(node, span);
        Ok(id)
    }

    fn parse_child_block(&mut self) -> (r: Result<Vec<NodeId>, ParseError>)
        requires
            old(self).inv(),
        ensures
            final(self).follows(*old(self)),
            r is Ok ==> final(self).pos > old(self).pos && node_ids_ok(r->Ok_0@, final(self).arenas()),
            r matches Ok(cs) ==> nodes_at(
                cs@,
                final(self).ast.nodes@,
                final(self).ast.handlers@,
                final(self).ast.exprs@,
                old(self).toks(),
                old(self).interner@,
                child_starts(old(self).toks(), old(self).interner@, old(self).pos + 1),
            ),
            match r {
                Ok(_) => g_children(old(self).toks(), old(self).interner@, old(self).pos as int) == Some(final(self).pos as int),
                Err(_) => g_children(old(self).toks(), old(self).interner@, old(self).pos as int) is None,
            },
        decreases old(self).tokens@.len() - old(self).pos, 2int,
    {
        let ghost entry = *self;
        self.expect(&TokenKind::LBrace)?;
        let mut nodes: Vec<NodeId> = Vec::new();
        let ghost p1 = self.pos as int;
        let ghost mut bdone: Seq<int> = Seq::empty();
        proof {
            assert(bdone + child_starts(self.toks(), self.interner@, self.pos as int) =~= child_starts(
                entry.toks(),
                entry.interner@,
                p1,
            ));
        }
        while !self.check(&TokenKind::RBrace) && !self.check(&TokenKind::Eof)
            invariant
                child_starts(entry.toks(), entry.interner@, p1) == bdone + child_starts(
                    self.toks(),
                    self.interner@,
                    self.pos as int,
                ),
                nodes_at(nodes@, self.ast.nodes@, self.ast.handlers@, self.ast.exprs@, entry.toks(), entry.interner@, bdone),
                entry == *old(self),
                self.follows(entry),
                self.pos > entry.pos,
                p1 == entry.pos + 1,
                g_child_items(entry.toks(), entry.interner@, p1) == g_child_items(self.toks(), self.interner@, self.pos as int),
                g_children(entry.toks(), entry.interner@, entry.pos as int) == match g_child_items(
                    entry.toks(),
                    entry.interner@,
                    p1,
                ) {
                    Some(q) => eat(entry.toks(), q, TokenKind::RBrace),
                    None => None,
                },
                node_ids_ok(nodes@, self.arenas()),
            decreases self.tokens@.len() - self.pos,
        {
            if self.check(&TokenKind::State) {
                return Err(self.error("state declarations must appear before UI nodes"));
            }
            let ghost b = self.pos as int;
            let ghost brest = child_starts(self.toks(), self.interner@, b);
            let ghost ast0 = self.ast;
            let ghost nodes0 = nodes@;
            let n = self.parse_node()?;
            nodes.push(n);
            proof {
                lemma_nodes_at_stable(nodes0, ast0, self.ast.nodes@, self.ast.handlers@, self.ast.exprs@, entry.toks(), entry.interner@, bdone);
                assert(brest == seq![b] + child_starts(self.toks(), self.interner@, self.pos as int));
                assert(bdone + brest =~= bdone.push(b) + child_starts(self.toks(), self.interner@, self.pos as int));
                bdone = bdone.push(b);
                assert forall|k: int| 0 <= k < bdone.len() implies node_at(
                    self.ast.nodes@,
                    self.ast.handlers@,
                    self.ast.exprs@,
                    (#[trigger] nodes@[k]).0 as int,
                    entry.toks(),
                    entry.interner@,
                    bdone[k],
                ) by {
                    if k < nodes0.len() {
                        assert(nodes@[k] == nodes0[k]);
                    }
                }
            }
            assert(node_ids_ok(nodes@, self.arenas())) by {
                assert forall|i: int| 0 <= i < nodes@.len() implies #[trigger] nodes@[i].0 < self.arenas().nodes by {
                    if i < nodes@.len() - 1 {
                        assert(nodes@[i] == nodes@.drop_last()[i]);
                    }
                }
            }
        }
        proof {
            assert(child_starts(self.toks(), self.interner@, self.pos as int) =~= Seq::<int>::empty());
            assert(bdone + Seq::<int>::empty() =~= bdone);
        }
        self.expect(&TokenKind::RBrace)?;
        Ok(nodes)
    }
}

} // verus!

verus! {

impl Parser {
    /// The current token is `@` (which the lexer reports as an unexpected
    /// character) and the next one is the identifier `name`: a directive such
    /// as `@provider`.
    fn at_directive(&self, name: &[u8]) -> (r: bool)
        requires
            self.inv(),
        ensures
            r ==> self.pos + 1 < self.tokens@.len() && !(self.cur() is Eof) && self.tokens@[self.pos + 1].kind is Ident,
            r == crate::grammar::at_directive(self.toks(), self.interner@, self.pos as int, name@),
    {
        proof {
            lemma_kind_view(self.cur());
            if self.pos + 1 < self.tokens@.len() {
                lemma_kind_view(self.tokens@[self.pos + 1].kind);
            }
        }
        if !matches!(self.tokens[self.pos].kind, TokenKind::Error(LexError::UnexpectedChar('@'))) {
            return false;
        }
        if self.pos < self.tokens.len() - 1 {
            if let TokenKind::Ident(sym) = self.tokens[self.pos + 1].kind {
                return self.sym_is(sym, name);
            }
        }
        false
    }

    /// The current token is `@`.
    fn at_sign(&self) -> (r: bool)
        requires
            self.inv(),
        ensures
            r ==> !(self.cur() is Eof),
            r == crate::grammar::at_sign(self.toks(), self.pos as int),
    {
        proof {
            lemma_kind_view(self.cur());
        }
        matches!(self.tokens[self.pos].kind, TokenKind::Error(LexError::UnexpectedChar('@')))
    }

    fn push_item(&mut self, item: Item)
        requires
            old(self).inv(),
            item_refs_ok(item, old(self).arenas()),
        ensures
            final(self).inv(),
            final(self).tokens@ == old(self).tokens@,
            final(self).interner@ == old(self).interner@,
            final(self).pos == old(self).pos,
            final(self).arenas() == old(self).arenas(),
            final(self).ast.items@ == old(self).ast.items@.push(item),
            final(self).ast.exprs@ == old(self).ast.exprs@,
            final(self).ast.nodes@ == old(self).ast.nodes@,
            final(self).ast.handlers@ == old(self).ast.handlers@,
    {
        let ghost it = item;
        self.ast.items.push(item);
        assert forall|i: int| 0 <= i < self.ast.items@.len() implies item_refs_ok(#[trigger] self.ast.items@[i], self.arenas()) by {
            if i < self.ast.items@.len() - 1 {
                assert(self.ast.items@[i] == old(self).ast.items@[i]);
            }
        }
    }

    fn parse_lifecycle(&mut self) -> (r: Result<LifecycleDef, ParseError>)
        requires
            old(self).inv(),
            !(old(self).cur() is Eof),
        ensures
            final(self).follows(*old(self)),
            r is Ok ==> final(self).pos > old(self).pos && r->Ok_0.handler.0 < final(self).arenas().handlers,
            match r {
                Ok(_) => g_lifecycle(old(self).toks(), old(self).interner@, old(self).pos as int) == Some(final(self).pos as int),
                Err(_) => g_lifecycle(old(self).toks(), old(self).interner@, old(self).pos as int) is None,
            },
    {
        let start = self.current_span();
        let kind = if self.check(&TokenKind::OnLoad) {
            self.advance();
            LifecycleKind::OnLoad
        } else if self.check(&TokenKind::OnAppear) {
            self.advance();
            LifecycleKind::OnAppear
        } else {
            self.advance();
            LifecycleKind::OnDispose
        };
        let handler = self.parse_handler()?;
        Ok(LifecycleDef { kind, handler, span: start.merge(self.current_span()) })
    }

    #[verifier::spinoff_prover]
    #[verifier::rlimit(60)]
    fn parse_screen(&mut self) -> (r: Result<ScreenDef, ParseError>)
        requires
            old(self).inv(),
        ensures
            final(self).follows(*old(self)),
            r is Ok ==> final(self).pos > old(self).pos && item_refs_ok(Item::Screen(r->Ok_0), final(self).arenas()),
            r matches Ok(d) ==> d.injects@.len() == 0 && d.listens@.len() == 0,
            r matches Ok(d) ==> old(self).toks()[old(self).pos + 1].kind == TokenKind::<Seq<u8>>::Ident(d.name),
            r matches Ok(d) ==> item_states_at(
                Item::Screen(d),
                final(self).ast.exprs@,
                old(self).toks(),
                old(self).interner@,
                old(self).pos as int,
            ),
            r matches Ok(d) ==> item_body_at(
                Item::Screen(d),
                final(self).ast.nodes@,
                final(self).ast.handlers@,
                final(self).ast.exprs@,
                old(self).toks(),
                old(self).interner@,
                old(self).pos as int,
            ),
            match r {
                Ok(_) => g_screen(old(self).toks(), old(self).interner@, old(self).pos as int) == Some(final(self).pos as int),
                Err(_) => g_screen(old(self).toks(), old(self).interner@, old(self).pos as int) is None,
            },
    {
        let ghost entry = *self;
        let start = self.current_span();
        self.expect(&TokenKind::Screen)?;
        let name = self.expect_ident()?;
        let params = if self.check(&TokenKind::LParen) {
            self.parse_params()?
        } else {
            Vec::new()
        };
        self.expect(&TokenKind::LBrace)?;
        let mut state: Vec<StateDef> = Vec::new();
        let mut lifecycle: Vec<LifecycleDef> = Vec::new();
        let mut body: Vec<ScreenBodyItem> = Vec::new();
        let ghost q2 = self.pos as int;
        let ghost mut done: Seq<int> = Seq::empty();
        let ghost mut bdone: Seq<int> = Seq::empty();
        proof {
            assert(bdone + screen_body_starts(self.toks(), self.interner@, self.pos as int) =~= screen_body_starts(
                entry.toks(),
                entry.interner@,
                q2,
            ));
            assert(body_node_ids(body@) =~= Seq::<NodeId>::empty());
            assert(g_screen_items(entry.toks(), entry.interner@, q2) is None ==> g_screen(
                entry.toks(),
                entry.interner@,
                entry.pos as int,
            ) is None);
            assert(q2 == screen_items_from(entry.toks(), entry.interner@, entry.pos as int));
            assert(done + screen_state_starts(self.toks(), self.interner@, self.pos as int) =~= screen_state_starts(
                entry.toks(),
                entry.interner@,
                q2,
            ));
        }
        while !self.check(&TokenKind::RBrace) && !self.check(&TokenKind::Eof)
            invariant
                entry == *old(self),
                self.follows(entry),
                self.pos > entry.pos,
                g_screen_items(entry.toks(), entry.interner@, q2) == g_screen_items(self.toks(), self.interner@, self.pos as int),
                g_screen_items(entry.toks(), entry.interner@, q2) is None ==> g_screen(
                    entry.toks(),
                    entry.interner@,
                    entry.pos as int,
                ) is None,
                params_ok(params@, self.arenas()),
                states_ok(state@, self.arenas()),
                q2 == screen_items_from(entry.toks(), entry.interner@, entry.pos as int),
                screen_state_starts(entry.toks(), entry.interner@, q2) == done + screen_state_starts(
                    self.toks(),
                    self.interner@,
                    self.pos as int,
                ),
                states_at(state@, self.ast.exprs@, entry.toks(), entry.interner@, done),
                screen_body_starts(entry.toks(), entry.interner@, q2) == bdone + screen_body_starts(
                    self.toks(),
                    self.interner@,
                    self.pos as int,
                ),
                nodes_at(body_node_ids(body@), self.ast.nodes@, self.ast.handlers@, self.ast.exprs@, entry.toks(), entry.interner@, bdone),
                forall|i: int| 0 <= i < lifecycle@.len() ==> #[trigger] lifecycle@[i].handler.0 < self.arenas().handlers,
                forall|i: int|
                    0 <= i < body@.len() ==> match #[trigger] body@[i] {
                        ScreenBodyItem::Node(n) => n.0 < self.arenas().nodes,
                        ScreenBodyItem::Match(_) => false,
                    },
            decreases self.tokens@.len() - self.pos,
        {
            let ghost before = self.arenas();
            let ghost b = self.pos as int;
            let ghost ex0 = self.ast.exprs@;
            let ghost st0 = state@;
            let ghost rest = screen_state_starts(self.toks(), self.interner@, b);
            let ghost brest = screen_body_starts(self.toks(), self.interner@, b);
            let ghost ast0 = self.ast;
            let ghost body0 = body@;
            if self.check(&TokenKind::State) {
                let s = self.parse_state()?;
                state.push(s);
                proof {
                    lemma_states_stable(st0, ex0, self.ast.exprs@, entry.toks(), entry.interner@, done);
                    assert(rest == seq![b] + screen_state_starts(self.toks(), self.interner@, self.pos as int));
                    assert(done + rest =~= done.push(b) + screen_state_starts(self.toks(), self.interner@, self.pos as int));
                    done = done.push(b);
                    assert forall|k: int| 0 <= k < done.len() implies state_at(
                        #[trigger] state@[k],
                        self.ast.exprs@,
                        entry.toks(),
                        entry.interner@,
                        done[k],
                    ) by {
                        if k < st0.len() {
                            assert(state@[k] == st0[k]);
                        }
                    }
                }
            } else if self.check(&TokenKind::OnLoad) || self.check(&TokenKind::OnAppear) || self.check(
                &TokenKind::OnDispose,
            ) {
                let l = self.parse_lifecycle()?;
                lifecycle.push(l);
            } else {
                let n = self.parse_node()?;
                body.push(ScreenBodyItem::Node(n));
                proof {
                    lemma_nodes_at_stable(
                        body_node_ids(body0),
                        ast0,
                        self.ast.nodes@,
                        self.ast.handlers@,
                        self.ast.exprs@,
                        entry.toks(),
                        entry.interner@,
                        bdone,
                    );
                    assert(body_node_ids(body@) =~= body_node_ids(body0).push(n));
                    assert(brest == seq![b] + screen_body_starts(self.toks(), self.interner@, self.pos as int));
                    assert(bdone + brest =~= bdone.push(b) + screen_body_starts(self.toks(), self.interner@, self.pos as int));
                    bdone = bdone.push(b);
                    let ids = body_node_ids(body@);
                    assert forall|k: int| 0 <= k < bdone.len() implies node_at(
                        self.ast.nodes@,
                        self.ast.handlers@,
                        self.ast.exprs@,
                        (#[trigger] ids[k]).0 as int,
                        entry.toks(),
                        entry.interner@,
                        bdone[k],
                    ) by {
                        if k < body0.len() {
                            assert(ids[k] == body_node_ids(body0)[k]);
                        }
                    }
                }
            }
            proof {
                if at(entry.toks(), b, TokenKind::State) || at(entry.toks(), b, TokenKind::OnLoad) || at(
                    entry.toks(),
                    b,
                    TokenKind::OnAppear,
                ) || at(entry.toks(), b, TokenKind::OnDispose) {
                    lemma_nodes_at_stable(
                        body_node_ids(body0),
                        ast0,
                        self.ast.nodes@,
                        self.ast.handlers@,
                        self.ast.exprs@,
                        entry.toks(),
                        entry.interner@,
                        bdone,
                    );
                    assert(brest == screen_body_starts(self.toks(), self.interner@, self.pos as int));
                    assert(body@ == body0);
                }
                if !at(entry.toks(), b, TokenKind::State) {
                    lemma_states_stable(st0, ex0, self.ast.exprs@, entry.toks(), entry.interner@, done);
                    assert(rest == screen_state_starts(self.toks(), self.interner@, self.pos as int));
                }
                lemma_params_grow(params@, before, self.arenas());
                assert forall|i: int| 0 <= i < state@.len() implies expr_id_ok(#[trigger] state@[i].init, self.arenas()) by {
                    if i < state@.len() - 1 || !(old(self).cur() is State) {
                    }
                }
                assert forall|i: int| 0 <= i < body@.len() implies match #[trigger] body@[i] {
                    ScreenBodyItem::Node(n) => n.0 < self.arenas().nodes,
                    ScreenBodyItem::Match(_) => false,
                } by {}
            }
        }
        proof {
            assert(screen_state_starts(self.toks(), self.interner@, self.pos as int) =~= Seq::<int>::empty());
            assert(done + Seq::<int>::empty() =~= done);
            assert(screen_body_starts(self.toks(), self.interner@, self.pos as int) =~= Seq::<int>::empty());
            assert(bdone + Seq::<int>::empty() =~= bdone);
        }
        self.expect(&TokenKind::RBrace)?;
        let end = self.current_span();
        Ok(ScreenDef {
            name,
            params,
            injects: Vec::new(),
            listens: Vec::new(),
            state,
            lifecycle,
            body,
            span: start.merge(end),
        })
    }

    #[verifier::spinoff_prover]
    #[verifier::rlimit(60)]
    fn parse_component(&mut self) -> (r: Result<ComponentDef, ParseError>)
        requires
            old(self).inv(),
        ensures
            final(self).follows(*old(self)),
            r is Ok ==> final(self).pos > old(self).pos && item_refs_ok(Item::Component(r->Ok_0), final(self).arenas()),
            r matches Ok(d) ==> old(self).toks()[old(self).pos + 1].kind == TokenKind::<Seq<u8>>::Ident(d.name),
            r matches Ok(d) ==> item_body_at(
                Item::Component(d),
                final(self).ast.nodes@,
                final(self).ast.handlers@,
                final(self).ast.exprs@,
                old(self).toks(),
                old(self).interner@,
                old(self).pos as int,
            ),
            match r {
                Ok(_) => g_component(old(self).toks(), old(self).interner@, old(self).pos as int) == Some(final(self).pos as int),
                Err(_) => g_component(old(self).toks(), old(self).interner@, old(self).pos as int) is None,
            },
    {
        let ghost entry = *self;
        let start = self.current_span();
        self.expect(&TokenKind::Component)?;
        let name = self.expect_ident()?;
        let params = self.parse_params()?;
        self.expect(&TokenKind::LBrace)?;
        let mut body: Vec<NodeId> = Vec::new();
        let ghost q2 = self.pos as int;
        let ghost mut bdone: Seq<int> = Seq::empty();
        proof {
            assert(q2 == component_items_from(entry.toks(), entry.interner@, entry.pos as int));
            assert(bdone + component_body_starts(self.toks(), self.interner@, self.pos as int) =~= component_body_starts(
                entry.toks(),
                entry.interner@,
                q2,
            ));
            assert(g_component_items(entry.toks(), entry.interner@, q2) is None ==> g_component(
                entry.toks(),
                entry.interner@,
                entry.pos as int,
            ) is None);
        }
        while !self.check(&TokenKind::RBrace) && !self.check(&TokenKind::Eof)
            invariant
                entry == *old(self),
                self.follows(entry),
                self.pos > entry.pos,
                params_ok(params@, self.arenas()),
                g_component_items(entry.toks(), entry.interner@, q2) == g_component_items(
                    self.toks(),
                    self.interner@,
                    self.pos as int,
                ),
                g_component_items(entry.toks(), entry.interner@, q2) is None ==> g_component(
                    entry.toks(),
                    entry.interner@,
                    entry.pos as int,
                ) is None,
                node_ids_ok(body@, self.arenas()),
                q2 == component_items_from(entry.toks(), entry.interner@, entry.pos as int),
                component_body_starts(entry.toks(), entry.interner@, q2) == bdone + component_body_starts(
                    self.toks(),
                    self.interner@,
                    self.pos as int,
                ),
                nodes_at(body@, self.ast.nodes@, self.ast.handlers@, self.ast.exprs@, entry.toks(), entry.interner@, bdone),
            decreases self.tokens@.len() - self.pos,
        {
            let ghost before = self.arenas();
            let ghost b = self.pos as int;
            let ghost brest = component_body_starts(self.toks(), self.interner@, b);
            let ghost ast0 = self.ast;
            let ghost body0 = body@;
            let n = self.parse_node()?;
            proof {
                lemma_params_grow(params@, before, self.arenas());
            }
            body.push(n);
            proof {
                lemma_nodes_at_stable(body0, ast0, self.ast.nodes@, self.ast.handlers@, self.ast.exprs@, entry.toks(), entry.interner@, bdone);
                assert(brest == seq![b] + component_body_starts(self.toks(), self.interner@, self.pos as int));
                assert(bdone + brest =~= bdone.push(b) + component_body_starts(self.toks(), self.interner@, self.pos as int));
                bdone = bdone.push(b);
                assert forall|k: int| 0 <= k < bdone.len() implies node_at(
                    self.ast.nodes@,
                    self.ast.handlers@,
                    self.ast.exprs@,
                    (#[trigger] body@[k]).0 as int,
                    entry.toks(),
                    entry.interner@,
                    bdone[k],
                ) by {
                    if k < body0.len() {
                        assert(body@[k] == body0[k]);
                    }
                }
            }
            assert(node_ids_ok(body@, self.arenas())) by {
                assert forall|i: int| 0 <= i < body@.len() implies #[trigger] body@[i].0 < self.arenas().nodes by {
                    if i < body@.len() - 1 {
                        assert(body@[i] == body@.drop_last()[i]);
                    }
                }
            }
        }
        proof {
            assert(component_body_starts(self.toks(), self.interner@, self.pos as int) =~= Seq::<int>::empty());
            assert(bdone + Seq::<int>::empty() =~= bdone);
        }
        self.expect(&TokenKind::RBrace)?;
        let end = self.current_span();
        Ok(ComponentDef { name, params, body, span: start.merge(end) })
    }

    fn parse_import(&mut self) -> (r: Result<ImportDef, ParseError>)
        requires
            old(self).inv(),
        ensures
            final(self).follows(*old(self)),
            r is Ok ==> final(self).pos > old(self).pos,
            r matches Ok(d) ==> d.path@.len() > 0 && old(self).toks()[old(self).pos + 1].kind == TokenKind::<Seq<u8>>::Ident(
                d.path@[0],
            ),
            match r {
                Ok(_) => g_import(old(self).toks(), old(self).pos as int) == Some(final(self).pos as int),
                Err(_) => g_import(old(self).toks(), old(self).pos as int) is None,
            },
    {
        let ghost entry = *self;
        let start = self.current_span();
        self.expect(&TokenKind::Use)?;
        let first = self.expect_ident()?;
        let mut path: Vec<Symbol> = vec![first];
        while self.check(&TokenKind::ColonColon)
            invariant
                entry == *old(self),
                self.follows(entry),
                self.pos > entry.pos,
                g_import(entry.toks(), entry.pos as int) == g_colon_path(self.toks(), self.pos as int),
                path@.len() > 0 && path@[0] == first,
            decreases self.tokens@.len() - self.pos,
        {
            self.advance();
            let s = self.expect_ident()?;
            path.push(s);
        }
        let items = if self.check(&TokenKind::ColonColon) {
            self.advance();
            self.expect(&TokenKind::LBrace)?;
            let mut items: Vec<Symbol> = Vec::new();
            while !self.check(&TokenKind::RBrace)
                invariant
                    entry == *old(self),
                    self.follows(entry),
                    self.pos > entry.pos,
                    g_import(entry.toks(), entry.pos as int) is None,
                decreases self.tokens@.len() - self.pos,
            {
                let s = self.expect_ident()?;
                items.push(s);
                if self.check(&TokenKind::Comma) {
                    self.advance();
                }
            }
            self.expect(&TokenKind::RBrace)?;
            items
        } else {
            Vec::new()
        };
        Ok(ImportDef { path, items, span: start.merge(self.current_span()) })
    }

    /// `@provider Name { (@state ... | @action name(params) { ... })* }`.
    #[verifier::spinoff_prover]
    #[verifier::rlimit(100)]
    fn parse_provider(&mut self) -> (r: Result<ProviderDef, ParseError>)
        requires
            old(self).inv(),
            old(self).pos + 1 < old(self).tokens@.len(),
            !(old(self).cur() is Eof),
            !(old(self).tokens@[old(self).pos + 1].kind is Eof),
        ensures
            final(self).follows(*old(self)),
            r is Ok ==> final(self).pos > old(self).pos && item_refs_ok(Item::Provider(r->Ok_0), final(self).arenas()),
            r matches Ok(d) ==> old(self).toks()[old(self).pos + 2].kind == TokenKind::<Seq<u8>>::Ident(d.name),
            r matches Ok(d) ==> item_states_at(
                Item::Provider(d),
                final(self).ast.exprs@,
                old(self).toks(),
                old(self).interner@,
                old(self).pos as int,
            ),
            r matches Ok(d) ==> item_body_at(
                Item::Provider(d),
                final(self).ast.nodes@,
                final(self).ast.handlers@,
                final(self).ast.exprs@,
                old(self).toks(),
                old(self).interner@,
                old(self).pos as int,
            ),
            match r {
                Ok(_) => g_provider(old(self).toks(), old(self).interner@, old(self).pos as int) == Some(final(self).pos as int),
                Err(_) => g_provider(old(self).toks(), old(self).interner@, old(self).pos as int) is None,
            },
    {
        let ghost entry = *self;
        let start = self.current_span();
        self.advance();
        self.advance();
        let name = self.expect_ident()?;
        self.expect(&TokenKind::LBrace)?;
        let mut states: Vec<StateDef> = Vec::new();
        let mut actions: Vec<ActionDef> = Vec::new();
        let ghost q2 = self.pos as int;
        let ghost mut done: Seq<int> = Seq::empty();
        let ghost mut adone: Seq<int> = Seq::empty();
        proof {
            assert(g_provider_items(entry.toks(), entry.interner@, q2) is None ==> g_provider(
                entry.toks(),
                entry.interner@,
                entry.pos as int,
            ) is None);
            assert(q2 == entry.pos + 4);
            assert(adone + provider_action_starts(self.toks(), self.interner@, self.pos as int) =~= provider_action_starts(
                entry.toks(),
                entry.interner@,
                q2,
            ));
            assert(done + provider_state_starts(self.toks(), self.interner@, self.pos as int) =~= provider_state_starts(
                entry.toks(),
                entry.interner@,
                q2,
            ));
        }
        while !self.check(&TokenKind::RBrace) && !self.check(&TokenKind::Eof)
            invariant
                entry == *old(self),
                self.follows(entry),
                self.pos > entry.pos,
                g_provider_items(entry.toks(), entry.interner@, q2) == g_provider_items(
                    self.toks(),
                    self.interner@,
                    self.pos as int,
                ),
                g_provider_items(entry.toks(), entry.interner@, q2) is None ==> g_provider(
                    entry.toks(),
                    entry.interner@,
                    entry.pos as int,
                ) is None,
                states_ok(states@, self.arenas()),
                crate::ast::actions_ok(actions@, self.arenas()),
                q2 == entry.pos + 4,
                provider_state_starts(entry.toks(), entry.interner@, q2) == done + provider_state_starts(
                    self.toks(),
                    self.interner@,
                    self.pos as int,
                ),
                states_at(states@, self.ast.exprs@, entry.toks(), entry.interner@, done),
                provider_action_starts(entry.toks(), entry.interner@, q2) == adone + provider_action_starts(
                    self.toks(),
                    self.interner@,
                    self.pos as int,
                ),
                actions_at(actions@, self.ast.handlers@, self.ast.exprs@, entry.toks(), entry.interner@, adone),
            decreases self.tokens@.len() - self.pos,
        {
            if !self.at_sign() {
                return Err(self.error("expected @state or @action"));
            }
            let ghost before = self.arenas();
            let ghost old_actions = actions@;
            let ghost old_states = states@;
            let ghost b = self.pos as int;
            let ghost ex0 = self.ast.exprs@;
            let ghost rest = provider_state_starts(self.toks(), self.interner@, b);
            let ghost arest = provider_action_starts(self.toks(), self.interner@, b);
            let ghost ast0 = self.ast;
            self.advance();
            if self.check(&TokenKind::State) {
                let s = self.parse_state()?;
                states.push(s);
                proof {
                    lemma_actions_grow(old_actions, before, self.arenas());
                    lemma_states_stable(old_states, ex0, self.ast.exprs@, entry.toks(), entry.interner@, done);
                    lemma_actions_at_stable(old_actions, ast0, self.ast.handlers@, self.ast.exprs@, entry.toks(), entry.interner@, adone);
                    assert(arest == provider_action_starts(self.toks(), self.interner@, self.pos as int));
                    assert(rest == seq![b + 1] + provider_state_starts(self.toks(), self.interner@, self.pos as int));
                    assert(done + rest =~= done.push(b + 1) + provider_state_starts(self.toks(), self.interner@, self.pos as int));
                    done = done.push(b + 1);
                    assert forall|k: int| 0 <= k < done.len() implies state_at(
                        #[trigger] states@[k],
                        self.ast.exprs@,
                        entry.toks(),
                        entry.interner@,
                        done[k],
                    ) by {
                        if k < old_states.len() {
                            assert(states@[k] == old_states[k]);
                        }
                    }
                }
            } else if self.is_ident("action".as_bytes()) {
                let astart = self.current_span();
                self.advance();
                let aname = self.expect_ident()?;
                let params = self.parse_params()?;
                let ghost mid = self.arenas();
                let handler = self.parse_handler()?;
                proof {
                    lemma_params_grow(params@, mid, self.arenas());
                }
                let action = ActionDef {
                    name: aname,
                    params,
                    is_async: false,
                    handler,
                    span: astart.merge(self.current_span()),
                };
                proof {
                    lemma_actions_grow(old_actions, before, self.arenas());
                    lemma_actions_push(old_actions, action, self.arenas());
                    lemma_states_stable(old_states, ex0, self.ast.exprs@, entry.toks(), entry.interner@, done);
                    assert(rest == provider_state_starts(self.toks(), self.interner@, self.pos as int));
                    lemma_actions_at_stable(old_actions, ast0, self.ast.handlers@, self.ast.exprs@, entry.toks(), entry.interner@, adone);
                    assert(action_at(action, self.ast.handlers@, self.ast.exprs@, entry.toks(), entry.interner@, b));
                    assert(arest == seq![b] + provider_action_starts(self.toks(), self.interner@, self.pos as int));
                    assert(adone + arest =~= adone.push(b) + provider_action_starts(self.toks(), self.interner@, self.pos as int));
                }
                actions.push(action);
                proof {
                    adone = adone.push(b);
                    assert forall|k: int| 0 <= k < adone.len() implies action_at(
                        #[trigger] actions@[k],
                        self.ast.handlers@,
                        self.ast.exprs@,
                        entry.toks(),
                        entry.interner@,
                        adone[k],
                    ) by {
                        if k < old_actions.len() {
                            assert(actions@[k] == old_actions[k]);
                        }
                    }
                }
            } else {
                return Err(self.error("expected @state or @action"));
            }
            proof {
                assert forall|i: int| 0 <= i < states@.len() implies expr_id_ok(#[trigger] states@[i].init, self.arenas()) by {
                    if i < old_states.len() {
                        assert(states@[i] == old_states[i]);
                        assert(expr_id_ok(old_states[i].init, before));
                    }
                }
            }
        }
        proof {
            assert(provider_state_starts(self.toks(), self.interner@, self.pos as int) =~= Seq::<int>::empty());
            assert(done + Seq::<int>::empty() =~= done);
            assert(provider_action_starts(self.toks(), self.interner@, self.pos as int) =~= Seq::<int>::empty());
            assert(adone + Seq::<int>::empty() =~= adone);
        }
        self.expect(&TokenKind::RBrace)?;
        let p = ProviderDef {
            name,
            scope: ProviderScope::Screen,
            family_key: None,
            params: Vec::new(),
            states,
            actions,
            span: start.merge(self.current_span()),
        };
        Ok(p)
    }

    fn parse_item(&mut self) -> (r: Result<Item, ParseError>)
        requires
            old(self).inv(),
        ensures
            final(self).follows(*old(self)),
            r is Ok ==> final(self).pos > old(self).pos && item_refs_ok(r->Ok_0, final(self).arenas()),
            r matches Ok(it) ==> item_at(it, old(self).toks(), old(self).pos as int),
            r matches Ok(it) ==> item_states_at(it, final(self).ast.exprs@, old(self).toks(), old(self).interner@, old(self).pos as int),
            r matches Ok(it) ==> item_body_at(
                it,
                final(self).ast.nodes@,
                final(self).ast.handlers@,
                final(self).ast.exprs@,
                old(self).toks(),
                old(self).interner@,
                old(self).pos as int,
            ),
            match r {
                Ok(_) => g_item(old(self).toks(), old(self).interner@, old(self).pos as int) == Some(final(self).pos as int),
                Err(_) => g_item(old(self).toks(), old(self).interner@, old(self).pos as int) is None,
            },
    {
        if self.check(&TokenKind::Screen) {
            return Ok(Item::Screen(self.parse_screen()?));
        }
        if self.check(&TokenKind::Component) {
            return Ok(Item::Component(self.parse_component()?));
        }
        if self.check(&TokenKind::Use) {
            return Ok(Item::Import(self.parse_import()?));
        }
        if self.at_directive("provider".as_bytes()) {
            proof {
                assert(self.pos + 1 < self.tokens@.len());
            }
            return Ok(Item::Provider(self.parse_provider()?));
        }
        Err(self.error("expected screen, component, or use"))
    }

    /// Skips to the next token that can start or close an item.
    fn synchronize(&mut self)
        requires
            old(self).inv(),
        ensures
            final(self).follows(*old(self)),
            final(self).ast == old(self).ast,
            final(self).pos == recovery_point(old(self).toks(), old(self).pos as int),
    {
        let ghost entry = *self;
        while !self.check(&TokenKind::Eof)
            invariant
                entry == *old(self),
                self.follows(entry),
                self.ast == entry.ast,
                recovery_point(entry.toks(), entry.pos as int) == recovery_point(self.toks(), self.pos as int),
            decreases self.tokens@.len() - self.pos,
        {
            if self.check(&TokenKind::Screen) || self.check(&TokenKind::Component) || self.check(&TokenKind::State)
                || self.check(&TokenKind::RBrace) {
                return;
            }
            self.advance();
        }
    }

    /// Parses items up to the end of the file, recovering after an error at
    /// the next item boundary; a token at which recovery cannot move on is
    /// skipped.
    fn parse_program(&mut self) -> (r: Result<(), Vec<ParseError>>)
        requires
            old(self).inv(),
        ensures
            final(self).inv(),
            final(self).tokens@ == old(self).tokens@,
            final(self).interner@ == old(self).interner@,
            r is Err ==> r->Err_0@.len() > 0,
            r is Ok <==> g_program(old(self).toks(), old(self).interner@, old(self).pos as int),
            r is Ok ==> {
                let starts = g_item_starts(old(self).toks(), old(self).interner@, old(self).pos as int);
                &&& final(self).ast.items@.len() == old(self).ast.items@.len() + starts.len()
                &&& forall|k: int| 0 <= k < starts.len() ==> item_at(
                    #[trigger] final(self).ast.items@[old(self).ast.items@.len() + k],
                    old(self).toks(),
                    starts[k],
                )
                &&& forall|k: int| 0 <= k < starts.len() ==> item_states_at(
                    #[trigger] final(self).ast.items@[old(self).ast.items@.len() + k],
                    final(self).ast.exprs@,
                    old(self).toks(),
                    old(self).interner@,
                    starts[k],
                )
                &&& forall|k: int| 0 <= k < starts.len() ==> item_body_at(
                    #[trigger] final(self).ast.items@[old(self).ast.items@.len() + k],
                    final(self).ast.nodes@,
                    final(self).ast.handlers@,
                    final(self).ast.exprs@,
                    old(self).toks(),
                    old(self).interner@,
                    starts[k],
                )
            },
    {
        let mut errors: Vec<ParseError> = Vec::new();
        let ghost entry = *self;
        let ghost t = self.toks();
        let ghost strs = self.interner@;
        let ghost n0 = self.ast.items@.len();
        let ghost mut starts: Seq<int> = Seq::empty();
        while !self.check(&TokenKind::Eof)
            invariant
                errors@.len() == 0 ==> g_item_starts(t, strs, entry.pos as int) == starts + g_item_starts(
                    t,
                    strs,
                    self.pos as int,
                ),
                errors@.len() == 0 ==> self.ast.items@.len() == n0 + starts.len(),
                errors@.len() == 0 ==> forall|k: int| 0 <= k < starts.len() ==> item_at(
                    #[trigger] self.ast.items@[n0 + k],
                    t,
                    starts[k],
                ),
                errors@.len() == 0 ==> forall|k: int| 0 <= k < starts.len() ==> item_states_at(
                    #[trigger] self.ast.items@[n0 + k],
                    self.ast.exprs@,
                    t,
                    strs,
                    starts[k],
                ),
                errors@.len() == 0 ==> forall|k: int| 0 <= k < starts.len() ==> item_body_at(
                    #[trigger] self.ast.items@[n0 + k],
                    self.ast.nodes@,
                    self.ast.handlers@,
                    self.ast.exprs@,
                    t,
                    strs,
                    starts[k],
                ),
                n0 == entry.ast.items@.len(),
                self.inv(),
                self.tokens@ == entry.tokens@,
                self.interner@ == entry.interner@,
                entry == *old(self),
                t == self.toks(),
                strs == self.interner@,
                errors@.len() == 0 ==> g_program(t, strs, entry.pos as int) == g_program(t, strs, self.pos as int),
                errors@.len() > 0 ==> !g_program(t, strs, entry.pos as int),
            decreases self.tokens@.len() - self.pos,
        {
            let before = self.pos;
            let ghost items0 = self.ast.items@;
            let ghost ex0 = self.ast.exprs@;
            let ghost ar0 = self.arenas();
            let ghost ast0 = self.ast;
            match self.parse_item() {
                Ok(item) => {
                    let ghost ex1 = self.ast.exprs@;
                    let ghost nd1 = self.ast.nodes@;
                    let ghost hd1 = self.ast.handlers@;
                    self.push_item(item);
                    proof {
                        if errors@.len() == 0 {
                            assert forall|k: int| 0 <= k < starts.len() + 1 implies item_body_at(
                                #[trigger] self.ast.items@[n0 + k],
                                self.ast.nodes@,
                                self.ast.handlers@,
                                self.ast.exprs@,
                                t,
                                strs,
                                starts.push(before as int)[k],
                            ) by {
                                if k < starts.len() {
                                    assert(self.ast.items@[n0 + k] == items0[n0 + k]);
                                    lemma_item_body_stable(items0[n0 + k], ast0, nd1, hd1, ex1, t, strs, starts[k]);
                                }
                            }
                            assert forall|k: int| 0 <= k < starts.len() + 1 implies item_states_at(
                                #[trigger] self.ast.items@[n0 + k],
                                self.ast.exprs@,
                                t,
                                strs,
                                starts.push(before as int)[k],
                            ) by {
                                if k < starts.len() {
                                    assert(self.ast.items@[n0 + k] == items0[n0 + k]);
                                    assert(item_refs_ok(items0[n0 + k], ar0));
                                    lemma_item_states_stable(items0[n0 + k], ex0, ex1, t, strs, starts[k], ar0);
                                }
                            }
                            let rest = g_item_starts(t, strs, self.pos as int);
                            assert(g_item_starts(t, strs, before as int) == seq![before as int] + rest);
                            assert(starts + (seq![before as int] + rest) =~= starts.push(before as int) + rest);
                            assert forall|k: int| 0 <= k < starts.len() + 1 implies item_at(
                                #[trigger] self.ast.items@[n0 + k],
                                t,
                                starts.push(before as int)[k],
                            ) by {
                                if k < starts.len() {
                                    assert(self.ast.items@[n0 + k] == items0[n0 + k]);
                                }
                            }
                        }
                        starts = starts.push(before as int);
                    }
                },
                Err(e) => {
                    errors.push(e);
                    self.synchronize();
                    if self.pos == before {
                        self.advance();
                    }
                },
            }
        }
        if errors.len() == 0 {
            Ok(())
        } else {
            Err(errors)
        }
    }
}

/// Whether the tokens of `source` are items of the grammar one after another.
pub open spec fn source_parses(source: Seq<u8>, file: FileId) -> bool {
    let lexed = crate::lexer::lex_run(source, file, crate::lexer::lex_start(Seq::empty()));
    g_program(lexed.toks, lexed.strs, 0)
}

/// What a successful parse of `source` gives: a well-formed AST whose items
/// are, in order, those the grammar finds in the tokens of `source` (each of
/// its kind and name, a screen's and a provider's states those it declares,
/// a provider's actions with their statements, and the nodes of a screen's or
/// a component's body those it holds: each node by its head, an element with
/// its argument trees, its handler's statements and its children), with the
/// table of names the lexer built.
pub open spec fn parsed_from(source: Seq<u8>, file: FileId, ast: Ast, strs: Seq<Seq<u8>>) -> bool {
    let lexed = crate::lexer::lex_run(source, file, crate::lexer::lex_start(Seq::empty()));
    let starts = g_item_starts(lexed.toks, lexed.strs, 0);
    &&& ast_wf(ast)
    &&& strs == lexed.strs
    &&& ast.items@.len() == starts.len()
    &&& forall|k: int| 0 <= k < starts.len() ==> item_at(#[trigger] ast.items@[k], lexed.toks, starts[k])
    &&& forall|k: int| 0 <= k < starts.len() ==> item_states_at(#[trigger] ast.items@[k], ast.exprs@, lexed.toks, lexed.strs, starts[k])
    &&& forall|k: int| 0 <= k < starts.len() ==> item_body_at(
        #[trigger] ast.items@[k],
        ast.nodes@,
        ast.handlers@,
        ast.exprs@,
        lexed.toks,
        lexed.strs,
        starts[k],
    )
}

/// Parses a `.ui` source file. It succeeds exactly when the file's tokens are
/// items of the grammar one after another, and then holds those items in
/// order; otherwise it reports at least one error.
pub fn parse(source: &str, file: FileId) -> (r: Result<ParseResult, Vec<ParseError>>)
    requires
        source.spec_bytes().len() < i32::MAX,
    ensures
        r is Ok <==> source_parses(source.spec_bytes(), file),
        match r {
            Ok(res) => parsed_from(source.spec_bytes(), file, res.ast, res.interner@),
            Err(errors) => errors@.len() > 0,
        },
{
    let mut interner = Interner::new();
    let tokens = tokenize(source, file, &mut interner);
    proof {
        crate::lexer::lemma_run_budget(source.spec_bytes(), file, crate::lexer::lex_start(Seq::empty()));
        assert(tokens@.len() == tokens_view(tokens@).len());
    }
    let mut parser = Parser { tokens, pos: 0, ast: Ast::new(), interner, file };
    proof {
        assert(parser.tokens@.last().kind is Eof);
        assert forall|i: int| 0 <= i < parser.ast.items@.len() implies item_refs_ok(#[trigger] parser.ast.items@[i], arenas_of(parser.ast)) by {}
    }
    let ghost t = parser.toks();
    let ghost strs = parser.interner@;
    parser.parse_program()?;
    proof {
        let starts = g_item_starts(t, strs, 0);
        assert forall|k: int| 0 <= k < starts.len() implies item_at(#[trigger] parser.ast.items@[k], t, starts[k]) by {
            assert(item_at(parser.ast.items@[0 + k], t, starts[k]));
        }
        assert forall|k: int| 0 <= k < starts.len() implies item_states_at(
            #[trigger] parser.ast.items@[k],
            parser.ast.exprs@,
            t,
            strs,
            starts[k],
        ) by {
            assert(item_states_at(parser.ast.items@[0 + k], parser.ast.exprs@, t, strs, starts[k]));
        }
        assert forall|k: int| 0 <= k < starts.len() implies item_body_at(
            #[trigger] parser.ast.items@[k],
            parser.ast.nodes@,
            parser.ast.handlers@,
            parser.ast.exprs@,
            t,
            strs,
            starts[k],
        ) by {
            assert(item_body_at(parser.ast.items@[0 + k], parser.ast.nodes@, parser.ast.handlers@, parser.ast.exprs@, t, strs, starts[k]));
        }
    }
    Ok(ParseResult { ast: parser.ast, interner: parser.interner })
}

} // verus!
