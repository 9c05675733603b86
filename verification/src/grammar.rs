//! The grammar of `.ui` files, over the lexer's tokens: for each construct,
//! the position just past it when it starts at a given position, or nothing
//! when the tokens there do not form it.
//!
//! Each function takes the tokens `t`, the interned texts `s` (keywords such
//! as `List` or `key` are identifiers that name those texts) and a position
//! `p`. Positions always stay below `t.len()`; a construct that would not
//! move forward is not one.

use vstd::prelude::*;
use crate::ast::binding_power;
use crate::lexer::{LexError, SpecToken, TokenKind};
use crate::parser::{binop_of, kind_tag};
use crate::span::Symbol;
use vstd::string::StringSliceAdditionalSpecFns;

verus! {

/// `t[p]` is a token of the kind of `k` (payloads aside).
pub open spec fn at(t: Seq<SpecToken>, p: int, k: TokenKind<Seq<u8>>) -> bool {
    0 <= p < t.len() && kind_tag(t[p].kind) == kind_tag(k)
}

/// Consumes one token of the kind of `k`.
pub open spec fn eat(t: Seq<SpecToken>, p: int, k: TokenKind<Seq<u8>>) -> Option<int> {
    if at(t, p, k) {
        Some(p + 1)
    } else {
        None
    }
}

/// Consumes one identifier.
pub open spec fn eat_ident(t: Seq<SpecToken>, p: int) -> Option<int> {
    if 0 <= p < t.len() && t[p].kind is Ident {
        Some(p + 1)
    } else {
        None
    }
}

/// `t[p]` is an identifier whose text is `name`.
pub open spec fn named(t: Seq<SpecToken>, s: Seq<Seq<u8>>, p: int, name: Seq<u8>) -> bool {
    &&& 0 <= p < t.len()
    &&& t[p].kind is Ident
    &&& (t[p].kind->Ident_0.0 as int) < s.len()
    &&& s[t[p].kind->Ident_0.0 as int] == name
}

/// `q` lies past `p` and within the tokens.
pub open spec fn moved(t: Seq<SpecToken>, p: int, q: int) -> bool {
    p < q < t.len()
}

/// `t[p]` is the `@` sign, which the lexer reports as an unexpected character.
pub open spec fn at_sign(t: Seq<SpecToken>, p: int) -> bool {
    0 <= p < t.len() && t[p].kind == TokenKind::<Seq<u8>>::Error(LexError::UnexpectedChar('@'))
}

// ---------------------------------------------------------------------------
// Expressions: precedence climbing over the binary operators, with prefix
// operators, parentheses, literals, string interpolation, and field access
// and calls after a name. Each rule gives the tree it reads and where it
// ends.

/// The names and the value trees of an argument list.
pub type ArgTrees = (Seq<Option<Symbol>>, Seq<ETree>);

/// An expression.
pub open spec fn g_expr(t: Seq<SpecToken>, s: Seq<Seq<u8>>, p: int) -> Option<int> {
    match gt_expr(t, s, p) {
        Some((_, q)) => Some(q),
        None => None,
    }
}

/// An expression, with its tree.
pub open spec fn gt_expr(t: Seq<SpecToken>, s: Seq<Seq<u8>>, p: int) -> Option<(ETree, int)>
    decreases t.len() - p, 3int,
{
    if 0 <= p < t.len() {
        gt_expr_bp(t, s, p, 0)
    } else {
        None
    }
}

/// An expression whose binary operators bind at least `min` on their left.
pub open spec fn gt_expr_bp(t: Seq<SpecToken>, s: Seq<Seq<u8>>, p: int, min: u8) -> Option<(ETree, int)>
    decreases t.len() - p, 2int,
{
    if 0 <= p < t.len() {
        match gt_prefix(t, s, p) {
            Some((l, q)) => if moved(t, p, q) {
                gt_binops(t, s, q, min, l)
            } else {
                None
            },
            None => None,
        }
    } else {
        None
    }
}

/// The operators and right operands that follow a left operand `l` ending
/// at `q`; each operator takes all before it as its left operand.
pub open spec fn gt_binops(t: Seq<SpecToken>, s: Seq<Seq<u8>>, q: int, min: u8, l: ETree) -> Option<(ETree, int)>
    decreases t.len() - q, 2int,
{
    if 0 <= q < t.len() {
        match binop_of(t[q].kind) {
            Some(op) => if binding_power(op).0 < min {
                Some((l, q))
            } else {
                match gt_expr_bp(t, s, q + 1, binding_power(op).1) {
                    Some((r, q2)) => if moved(t, q, q2) {
                        gt_binops(t, s, q2, min, ETree::Binary(op, Box::new(l), Box::new(r)))
                    } else {
                        None
                    },
                    None => None,
                }
            },
            None => Some((l, q)),
        }
    } else {
        None
    }
}

/// A prefix operator and its operand, a parenthesised expression, a string,
/// a literal, or a name with what follows it.
pub open spec fn gt_prefix(t: Seq<SpecToken>, s: Seq<Seq<u8>>, p: int) -> Option<(ETree, int)>
    decreases t.len() - p, 1int,
{
    if !(0 <= p < t.len()) {
        None
    } else if at(t, p, TokenKind::Await) {
        match gt_expr_bp(t, s, p + 1, 0) {
            Some((e, q)) => Some((ETree::Await(Box::new(e)), q)),
            None => None,
        }
    } else if at(t, p, TokenKind::Bang) || at(t, p, TokenKind::Minus) {
        match gt_expr_bp(t, s, p + 1, 8) {
            Some((e, q)) => Some(
                (
                    ETree::Unary(
                        if at(t, p, TokenKind::Bang) {
                            crate::ast::UnOp::Not
                        } else {
                            crate::ast::UnOp::Neg
                        },
                        Box::new(e),
                    ),
                    q,
                ),
            ),
            None => None,
        }
    } else if at(t, p, TokenKind::LParen) {
        match gt_expr(t, s, p + 1) {
            Some((e, q)) => match eat(t, q, TokenKind::RParen) {
                Some(q2) => Some((e, q2)),
                None => None,
            },
            None => None,
        }
    } else if at(t, p, TokenKind::StrStart) {
        gt_interp(t, s, p)
    } else if t[p].kind is Int {
        Some((ETree::Int(t[p].kind->Int_0), p + 1))
    } else if t[p].kind is Float {
        Some((ETree::Float(t[p].kind->Float_0), p + 1))
    } else if t[p].kind is Bool {
        Some((ETree::Bool(t[p].kind->Bool_0), p + 1))
    } else if t[p].kind is Ident {
        gt_postfix(t, s, p + 1, ETree::Ident(t[p].kind->Ident_0))
    } else {
        None
    }
}

/// Field accesses and calls from `q` on after the expression `base`.
pub open spec fn gt_postfix(t: Seq<SpecToken>, s: Seq<Seq<u8>>, q: int, base: ETree) -> Option<(ETree, int)>
    decreases t.len() - q, 1int,
{
    if !(0 <= q < t.len()) {
        None
    } else if at(t, q, TokenKind::Dot) {
        match eat_ident(t, q + 1) {
            Some(q2) => gt_postfix(t, s, q2, ETree::Field(Box::new(base), t[q + 1].kind->Ident_0)),
            None => None,
        }
    } else if at(t, q, TokenKind::LParen) {
        match gt_args(t, s, q) {
            Some((a, q2)) => if moved(t, q, q2) {
                gt_postfix(t, s, q2, ETree::Call(Box::new(base), a.0, a.1))
            } else {
                None
            },
            None => None,
        }
    } else {
        Some((base, q))
    }
}

/// A string: its texts and interpolated expressions between the quotes.
pub open spec fn gt_interp(t: Seq<SpecToken>, s: Seq<Seq<u8>>, p: int) -> Option<(ETree, int)>
    decreases t.len() - p, 0int,
{
    if at(t, p, TokenKind::StrStart) {
        match gt_parts(t, s, p + 1) {
            Some((ps, q)) => match eat(t, q, TokenKind::StrEnd) {
                Some(q2) => Some((ETree::Interp(ps), q2)),
                None => None,
            },
            None => None,
        }
    } else {
        None
    }
}

/// The parts of a string from `q` on, up to its end (or the end of the file,
/// or a token that is no part).
pub open spec fn gt_parts(t: Seq<SpecToken>, s: Seq<Seq<u8>>, q: int) -> Option<(Seq<ETree>, int)>
    decreases t.len() - q, 0int,
{
    if !(0 <= q < t.len()) {
        None
    } else if at(t, q, TokenKind::StrEnd) || at(t, q, TokenKind::Eof) {
        Some((Seq::empty(), q))
    } else if t[q].kind is StrText {
        match gt_parts(t, s, q + 1) {
            Some((ps, q2)) => Some((seq![ETree::Text(t[q].kind->StrText_0)] + ps, q2)),
            None => None,
        }
    } else if at(t, q, TokenKind::InterpStart) {
        match gt_expr(t, s, q + 1) {
            Some((e, q2)) => match eat(t, q2, TokenKind::InterpEnd) {
                Some(q3) => if moved(t, q, q3) {
                    match gt_parts(t, s, q3) {
                        Some((ps, q4)) => Some((seq![e] + ps, q4)),
                        None => None,
                    }
                } else {
                    None
                },
                None => None,
            },
            None => None,
        }
    } else {
        Some((Seq::empty(), q))
    }
}

/// An argument list in parentheses.
pub open spec fn g_args(t: Seq<SpecToken>, s: Seq<Seq<u8>>, p: int) -> Option<int> {
    match gt_args(t, s, p) {
        Some((_, q)) => Some(q),
        None => None,
    }
}

/// An argument list in parentheses, with the names and value trees.
pub open spec fn gt_args(t: Seq<SpecToken>, s: Seq<Seq<u8>>, p: int) -> Option<(ArgTrees, int)>
    decreases t.len() - p, 0int,
{
    match eat(t, p, TokenKind::LParen) {
        Some(p1) => if at(t, p1, TokenKind::RParen) {
            Some(((Seq::empty(), Seq::empty()), p1 + 1))
        } else {
            match gt_arg_list(t, s, p1) {
                Some((a, q)) => match eat(t, q, TokenKind::RParen) {
                    Some(q2) => Some((a, q2)),
                    None => None,
                },
                None => None,
            }
        },
        None => None,
    }
}

/// Arguments separated by commas, from `p` on.
pub open spec fn gt_arg_list(t: Seq<SpecToken>, s: Seq<Seq<u8>>, p: int) -> Option<(ArgTrees, int)>
    decreases t.len() - p, 5int,
{
    if !(0 <= p < t.len()) {
        None
    } else {
        match gt_arg(t, s, p) {
            Some((n, v, q)) => if !moved(t, p, q) {
                None
            } else if at(t, q, TokenKind::Comma) {
                match gt_arg_list(t, s, q + 1) {
                    Some((a, q2)) => Some(((seq![n] + a.0, seq![v] + a.1), q2)),
                    None => None,
                }
            } else {
                Some(((seq![n], seq![v]), q))
            },
            None => None,
        }
    }
}

/// An argument: an expression, named by `name:` or not.
pub open spec fn gt_arg(t: Seq<SpecToken>, s: Seq<Seq<u8>>, p: int) -> Option<(Option<Symbol>, ETree, int)>
    decreases t.len() - p, 4int,
{
    if !(0 <= p < t.len()) {
        None
    } else if t[p].kind is Ident && at(t, p + 1, TokenKind::Colon) {
        match gt_expr(t, s, p + 2) {
            Some((e, q)) => Some((Some(t[p].kind->Ident_0), e, q)),
            None => None,
        }
    } else {
        match gt_expr(t, s, p) {
            Some((e, q)) => Some((None, e, q)),
            None => None,
        }
    }
}

// ---------------------------------------------------------------------------
// Types, parameters, state declarations, assignment targets.

/// A type: a name, its generic arguments in angle brackets, and `?`.
pub open spec fn g_type(t: Seq<SpecToken>, p: int) -> Option<int>
    decreases t.len() - p, 0int,
{
    match eat_ident(t, p) {
        Some(p1) => {
            let p2 = if at(t, p1, TokenKind::LAngle) {
                match g_type_list(t, p1 + 1) {
                    Some(q) => eat(t, q, TokenKind::RAngle),
                    None => None,
                }
            } else {
                Some(p1)
            };
            match p2 {
                Some(p3) => if at(t, p3, TokenKind::Question) {
                    Some(p3 + 1)
                } else {
                    Some(p3)
                },
                None => None,
            }
        },
        None => None,
    }
}

/// Types separated by commas, from `p` on.
pub open spec fn g_type_list(t: Seq<SpecToken>, p: int) -> Option<int>
    decreases t.len() - p, 1int,
{
    if !(0 <= p < t.len()) {
        None
    } else {
        match g_type(t, p) {
            Some(q) => if !moved(t, p, q) {
                None
            } else if at(t, q, TokenKind::Comma) {
                g_type_list(t, q + 1)
            } else {
                Some(q)
            },
            None => None,
        }
    }
}

/// A parameter: `name: Type`, with `= default` or not.
pub open spec fn g_param(t: Seq<SpecToken>, s: Seq<Seq<u8>>, p: int) -> Option<int> {
    match eat_ident(t, p) {
        Some(p1) => match eat(t, p1, TokenKind::Colon) {
            Some(p2) => match g_type(t, p2) {
                Some(p3) => if at(t, p3, TokenKind::Eq) {
                    g_expr(t, s, p3 + 1)
                } else {
                    Some(p3)
                },
                None => None,
            },
            None => None,
        },
        None => None,
    }
}

/// Parameters separated by commas, from `p` on.
pub open spec fn g_param_list(t: Seq<SpecToken>, s: Seq<Seq<u8>>, p: int) -> Option<int>
    decreases t.len() - p,
{
    if !(0 <= p < t.len()) {
        None
    } else {
        match g_param(t, s, p) {
            Some(q) => if !moved(t, p, q) {
                None
            } else if at(t, q, TokenKind::Comma) {
                g_param_list(t, s, q + 1)
            } else {
                Some(q)
            },
            None => None,
        }
    }
}

/// A parameter list in parentheses.
pub open spec fn g_params(t: Seq<SpecToken>, s: Seq<Seq<u8>>, p: int) -> Option<int> {
    match eat(t, p, TokenKind::LParen) {
        Some(p1) => if at(t, p1, TokenKind::RParen) {
            Some(p1 + 1)
        } else {
            match g_param_list(t, s, p1) {
                Some(q) => eat(t, q, TokenKind::RParen),
                None => None,
            }
        },
        None => None,
    }
}

/// `state name: Type = expression`.
pub open spec fn g_state(t: Seq<SpecToken>, s: Seq<Seq<u8>>, p: int) -> Option<int> {
    match eat(t, p, TokenKind::State) {
        Some(p1) => match eat_ident(t, p1) {
            Some(p2) => match eat(t, p2, TokenKind::Colon) {
                Some(p3) => match g_type(t, p3) {
                    Some(p4) => match eat(t, p4, TokenKind::Eq) {
                        Some(p5) => g_expr(t, s, p5),
                        None => None,
                    },
                    None => None,
                },
                None => None,
            },
            None => None,
        },
        None => None,
    }
}

/// `.name` segments from `q` on.
pub open spec fn g_dot_path(t: Seq<SpecToken>, q: int) -> Option<int>
    decreases t.len() - q,
{
    if at(t, q, TokenKind::Dot) {
        match eat_ident(t, q + 1) {
            Some(q2) => g_dot_path(t, q2),
            None => None,
        }
    } else {
        Some(q)
    }
}

/// An assignment target: names separated by dots.
pub open spec fn g_lvalue(t: Seq<SpecToken>, p: int) -> Option<int> {
    match eat_ident(t, p) {
        Some(p1) => g_dot_path(t, p1),
        None => None,
    }
}

/// `=`, `+=`, `-=`, `*=` or `/=`.
pub open spec fn g_assign_op(t: Seq<SpecToken>, p: int) -> Option<int> {
    if at(t, p, TokenKind::Eq) || at(t, p, TokenKind::PlusEq) || at(t, p, TokenKind::MinusEq) || at(t, p, TokenKind::StarEq)
        || at(t, p, TokenKind::SlashEq) {
        Some(p + 1)
    } else {
        None
    }
}

// ---------------------------------------------------------------------------
// Statements and handlers.

/// A statement: `if` with blocks, `target++`, `target--`, or an assignment.
pub open spec fn g_stmt(t: Seq<SpecToken>, s: Seq<Seq<u8>>, p: int) -> Option<int>
    decreases t.len() - p, 1int,
{
    if !(0 <= p < t.len()) {
        None
    } else if at(t, p, TokenKind::If) {
        match g_expr(t, s, p + 1) {
            Some(q1) => match eat(t, q1, TokenKind::LBrace) {
                Some(q2) => if !moved(t, p, q2) {
                    None
                } else {
                    match g_stmts(t, s, q2) {
                        Some(q3) => match eat(t, q3, TokenKind::RBrace) {
                            Some(q4) => if at(t, q4, TokenKind::Else) {
                                match eat(t, q4 + 1, TokenKind::LBrace) {
                                    Some(q5) => if !moved(t, p, q5) {
                                        None
                                    } else {
                                        match g_stmts(t, s, q5) {
                                            Some(q6) => eat(t, q6, TokenKind::RBrace),
                                            None => None,
                                        }
                                    },
                                    None => None,
                                }
                            } else {
                                Some(q4)
                            },
                            None => None,
                        },
                        None => None,
                    }
                },
                None => None,
            },
            None => None,
        }
    } else {
        match g_lvalue(t, p) {
            Some(q) => if at(t, q, TokenKind::PlusPlus) || at(t, q, TokenKind::MinusMinus) {
                Some(q + 1)
            } else {
                match g_assign_op(t, q) {
                    Some(q2) => g_expr(t, s, q2),
                    None => None,
                }
            },
            None => None,
        }
    }
}

/// Statements from `p` on, up to a closing brace (which is not consumed).
pub open spec fn g_stmts(t: Seq<SpecToken>, s: Seq<Seq<u8>>, p: int) -> Option<int>
    decreases t.len() - p, 2int,
{
    if !(0 <= p < t.len()) {
        None
    } else if at(t, p, TokenKind::RBrace) {
        Some(p)
    } else {
        match g_stmt(t, s, p) {
            Some(q) => if moved(t, p, q) {
                g_stmts(t, s, q)
            } else {
                None
            },
            None => None,
        }
    }
}

/// The statements of a handler from `p` on, up to a closing brace or the
/// end of the file.
pub open spec fn g_handler_stmts(t: Seq<SpecToken>, s: Seq<Seq<u8>>, p: int) -> Option<int>
    decreases t.len() - p,
{
    if !(0 <= p < t.len()) {
        None
    } else if at(t, p, TokenKind::RBrace) || at(t, p, TokenKind::Eof) {
        Some(p)
    } else {
        match g_stmt(t, s, p) {
            Some(q) => if moved(t, p, q) {
                g_handler_stmts(t, s, q)
            } else {
                None
            },
            None => None,
        }
    }
}

/// A handler: statements in braces.
pub open spec fn g_handler(t: Seq<SpecToken>, s: Seq<Seq<u8>>, p: int) -> Option<int> {
    match eat(t, p, TokenKind::LBrace) {
        Some(p1) => match g_handler_stmts(t, s, p1) {
            Some(q) => eat(t, q, TokenKind::RBrace),
            None => None,
        },
        None => None,
    }
}

// ---------------------------------------------------------------------------
// UI nodes.

/// A modifier: `.name`, with arguments or not.
pub open spec fn g_modifier(t: Seq<SpecToken>, s: Seq<Seq<u8>>, p: int) -> Option<int> {
    match eat(t, p, TokenKind::Dot) {
        Some(p1) => match eat_ident(t, p1) {
            Some(p2) => if at(t, p2, TokenKind::LParen) {
                g_args(t, s, p2)
            } else {
                Some(p2)
            },
            None => None,
        },
        None => None,
    }
}

/// Modifiers from `q` on.
pub open spec fn g_modifiers(t: Seq<SpecToken>, s: Seq<Seq<u8>>, q: int) -> Option<int>
    decreases t.len() - q,
{
    if !(0 <= q < t.len()) {
        None
    } else if at(t, q, TokenKind::Dot) {
        match g_modifier(t, s, q) {
            Some(q2) => if moved(t, q, q2) {
                g_modifiers(t, s, q2)
            } else {
                None
            },
            None => None,
        }
    } else {
        Some(q)
    }
}

/// A node: an `if`, a `List`, or an element with its arguments, modifiers,
/// and then either a handler (for `Button` and `TextField`) or children.
pub open spec fn g_node(t: Seq<SpecToken>, s: Seq<Seq<u8>>, p: int) -> Option<int>
    decreases t.len() - p, 1int,
{
    if !(0 <= p < t.len()) {
        None
    } else if at(t, p, TokenKind::If) {
        g_if_node(t, s, p)
    } else if named(t, s, p, "List".spec_bytes()) {
        g_list_node(t, s, p)
    } else {
        match eat_ident(t, p) {
            Some(p1) => {
                let p2 = if at(t, p1, TokenKind::LParen) {
                    g_args(t, s, p1)
                } else {
                    Some(p1)
                };
                match p2 {
                    Some(q2) => match g_modifiers(t, s, q2) {
                        Some(q3) => if !at(t, q3, TokenKind::LBrace) {
                            Some(q3)
                        } else if named(t, s, p, "Button".spec_bytes()) || named(t, s, p, "TextField".spec_bytes()) {
                            g_handler(t, s, q3)
                        } else if moved(t, p, q3) {
                            g_children(t, s, q3)
                        } else {
                            None
                        },
                        None => None,
                    },
                    None => None,
                }
            },
            None => None,
        }
    }
}

/// `if condition { children }`, with `else if ...` or `else { children }`.
pub open spec fn g_if_node(t: Seq<SpecToken>, s: Seq<Seq<u8>>, p: int) -> Option<int>
    decreases t.len() - p, 0int,
{
    match eat(t, p, TokenKind::If) {
        Some(p1) => match g_expr(t, s, p1) {
            Some(p2) => if !moved(t, p, p2) {
                None
            } else {
                match g_children(t, s, p2) {
                    Some(p3) => if !moved(t, p, p3) {
                        None
                    } else if at(t, p3, TokenKind::Else) {
                        if at(t, p3 + 1, TokenKind::If) {
                            g_if_node(t, s, p3 + 1)
                        } else {
                            g_children(t, s, p3 + 1)
                        }
                    } else {
                        Some(p3)
                    },
                    None => None,
                }
            },
            None => None,
        },
        None => None,
    }
}

/// `List(source) key: expression { binding in nodes }` (the key optional).
pub open spec fn g_list_node(t: Seq<SpecToken>, s: Seq<Seq<u8>>, p: int) -> Option<int>
    decreases t.len() - p, 0int,
{
    match eat_ident(t, p) {
        Some(p1) => match eat(t, p1, TokenKind::LParen) {
            Some(p2) => match g_expr(t, s, p2) {
                Some(p3) => match eat(t, p3, TokenKind::RParen) {
                    Some(p4) => {
                        let p5 = if named(t, s, p4, "key".spec_bytes()) {
                            match eat(t, p4 + 1, TokenKind::Colon) {
                                Some(k) => g_expr(t, s, k),
                                None => None,
                            }
                        } else {
                            Some(p4)
                        };
                        match p5 {
                            Some(q1) => match eat(t, q1, TokenKind::LBrace) {
                                Some(q2) => match eat_ident(t, q2) {
                                    Some(q3) => match eat(t, q3, TokenKind::In) {
                                        Some(q4) => if !moved(t, p, q4) {
                                            None
                                        } else {
                                            match g_list_body(t, s, q4) {
                                                Some(q5) => eat(t, q5, TokenKind::RBrace),
                                                None => None,
                                            }
                                        },
                                        None => None,
                                    },
                                    None => None,
                                },
                                None => None,
                            },
                            None => None,
                        }
                    },
                    None => None,
                },
                None => None,
            },
            None => None,
        },
        None => None,
    }
}

/// The nodes of a list's body from `q` on, up to a closing brace.
pub open spec fn g_list_body(t: Seq<SpecToken>, s: Seq<Seq<u8>>, q: int) -> Option<int>
    decreases t.len() - q, 2int,
{
    if !(0 <= q < t.len()) {
        None
    } else if at(t, q, TokenKind::RBrace) {
        Some(q)
    } else {
        match g_node(t, s, q) {
            Some(q2) => if moved(t, q, q2) {
                g_list_body(t, s, q2)
            } else {
                None
            },
            None => None,
        }
    }
}

/// Child nodes in braces; a `state` declaration among them is an error.
pub open spec fn g_children(t: Seq<SpecToken>, s: Seq<Seq<u8>>, p: int) -> Option<int>
    decreases t.len() - p, 0int,
{
    match eat(t, p, TokenKind::LBrace) {
        Some(p1) => match g_child_items(t, s, p1) {
            Some(q) => eat(t, q, TokenKind::RBrace),
            None => None,
        },
        None => None,
    }
}

/// Child nodes from `q` on, up to a closing brace or the end of the file.
pub open spec fn g_child_items(t: Seq<SpecToken>, s: Seq<Seq<u8>>, q: int) -> Option<int>
    decreases t.len() - q, 2int,
{
    if !(0 <= q < t.len()) {
        None
    } else if at(t, q, TokenKind::RBrace) || at(t, q, TokenKind::Eof) {
        Some(q)
    } else if at(t, q, TokenKind::State) {
        None
    } else {
        match g_node(t, s, q) {
            Some(q2) => if moved(t, q, q2) {
                g_child_items(t, s, q2)
            } else {
                None
            },
            None => None,
        }
    }
}

// ---------------------------------------------------------------------------
// Items.

/// `onLoad`, `onAppear` or `onDispose` and its handler.
pub open spec fn g_lifecycle(t: Seq<SpecToken>, s: Seq<Seq<u8>>, p: int) -> Option<int> {
    g_handler(t, s, p + 1)
}

/// The members of a screen from `q` on: state declarations, lifecycle
/// handlers and nodes, up to a closing brace or the end of the file.
pub open spec fn g_screen_items(t: Seq<SpecToken>, s: Seq<Seq<u8>>, q: int) -> Option<int>
    decreases t.len() - q,
{
    if !(0 <= q < t.len()) {
        None
    } else if at(t, q, TokenKind::RBrace) || at(t, q, TokenKind::Eof) {
        Some(q)
    } else {
        let r = if at(t, q, TokenKind::State) {
            g_state(t, s, q)
        } else if at(t, q, TokenKind::OnLoad) || at(t, q, TokenKind::OnAppear) || at(t, q, TokenKind::OnDispose) {
            g_lifecycle(t, s, q)
        } else {
            g_node(t, s, q)
        };
        match r {
            Some(q2) => if moved(t, q, q2) {
                g_screen_items(t, s, q2)
            } else {
                None
            },
            None => None,
        }
    }
}

/// `screen Name(params) { members }` (the parameters optional).
pub open spec fn g_screen(t: Seq<SpecToken>, s: Seq<Seq<u8>>, p: int) -> Option<int> {
    match eat(t, p, TokenKind::Screen) {
        Some(p1) => match eat_ident(t, p1) {
            Some(p2) => {
                let p3 = if at(t, p2, TokenKind::LParen) {
                    g_params(t, s, p2)
                } else {
                    Some(p2)
                };
                match p3 {
                    Some(q1) => match eat(t, q1, TokenKind::LBrace) {
                        Some(q2) => match g_screen_items(t, s, q2) {
                            Some(q3) => eat(t, q3, TokenKind::RBrace),
                            None => None,
                        },
                        None => None,
                    },
                    None => None,
                }
            },
            None => None,
        },
        None => None,
    }
}

/// The nodes of a component from `q` on, up to a closing brace or the end of
/// the file.
pub open spec fn g_component_items(t: Seq<SpecToken>, s: Seq<Seq<u8>>, q: int) -> Option<int>
    decreases t.len() - q,
{
    if !(0 <= q < t.len()) {
        None
    } else if at(t, q, TokenKind::RBrace) || at(t, q, TokenKind::Eof) {
        Some(q)
    } else {
        match g_node(t, s, q) {
            Some(q2) => if moved(t, q, q2) {
                g_component_items(t, s, q2)
            } else {
                None
            },
            None => None,
        }
    }
}

/// `component Name(params) { nodes }`.
pub open spec fn g_component(t: Seq<SpecToken>, s: Seq<Seq<u8>>, p: int) -> Option<int> {
    match eat(t, p, TokenKind::Component) {
        Some(p1) => match eat_ident(t, p1) {
            Some(p2) => match g_params(t, s, p2) {
                Some(p3) => match eat(t, p3, TokenKind::LBrace) {
                    Some(p4) => match g_component_items(t, s, p4) {
                        Some(q) => eat(t, q, TokenKind::RBrace),
                        None => None,
                    },
                    None => None,
                },
                None => None,
            },
            None => None,
        },
        None => None,
    }
}

/// `::name` segments from `q` on.
pub open spec fn g_colon_path(t: Seq<SpecToken>, q: int) -> Option<int>
    decreases t.len() - q,
{
    if at(t, q, TokenKind::ColonColon) {
        match eat_ident(t, q + 1) {
            Some(q2) => g_colon_path(t, q2),
            None => None,
        }
    } else {
        Some(q)
    }
}

/// `use a::b::c`.
pub open spec fn g_import(t: Seq<SpecToken>, p: int) -> Option<int> {
    match eat(t, p, TokenKind::Use) {
        Some(p1) => match eat_ident(t, p1) {
            Some(p2) => g_colon_path(t, p2),
            None => None,
        },
        None => None,
    }
}

/// The members of a provider from `q` on, each after an `@`: `state ...` or
/// `action name(params) { statements }`, up to a closing brace or the end of
/// the file.
pub open spec fn g_provider_items(t: Seq<SpecToken>, s: Seq<Seq<u8>>, q: int) -> Option<int>
    decreases t.len() - q,
{
    if !(0 <= q < t.len()) {
        None
    } else if at(t, q, TokenKind::RBrace) || at(t, q, TokenKind::Eof) {
        Some(q)
    } else if !at_sign(t, q) {
        None
    } else {
        let r = if at(t, q + 1, TokenKind::State) {
            g_state(t, s, q + 1)
        } else if named(t, s, q + 1, "action".spec_bytes()) {
            match eat_ident(t, q + 2) {
                Some(a1) => match g_params(t, s, a1) {
                    Some(a2) => g_handler(t, s, a2),
                    None => None,
                },
                None => None,
            }
        } else {
            None
        };
        match r {
            Some(q2) => if moved(t, q, q2) {
                g_provider_items(t, s, q2)
            } else {
                None
            },
            None => None,
        }
    }
}

/// `@provider Name { members }`, from the `@` at `p`.
pub open spec fn g_provider(t: Seq<SpecToken>, s: Seq<Seq<u8>>, p: int) -> Option<int> {
    match eat_ident(t, p + 2) {
        Some(p1) => match eat(t, p1, TokenKind::LBrace) {
            Some(p2) => match g_provider_items(t, s, p2) {
                Some(q) => eat(t, q, TokenKind::RBrace),
                None => None,
            },
            None => None,
        },
        None => None,
    }
}

/// `t[p]` is `@` and `t[p + 1]` the identifier `name`.
pub open spec fn at_directive(t: Seq<SpecToken>, s: Seq<Seq<u8>>, p: int, name: Seq<u8>) -> bool {
    at_sign(t, p) && named(t, s, p + 1, name)
}

/// An item of a file: a screen, a component, an import or a provider.
pub open spec fn g_item(t: Seq<SpecToken>, s: Seq<Seq<u8>>, p: int) -> Option<int> {
    if at(t, p, TokenKind::Screen) {
        g_screen(t, s, p)
    } else if at(t, p, TokenKind::Component) {
        g_component(t, s, p)
    } else if at(t, p, TokenKind::Use) {
        g_import(t, p)
    } else if at_directive(t, s, p, "provider".spec_bytes()) {
        g_provider(t, s, p)
    } else {
        None
    }
}

/// The tokens from `p` on are items, one after another, up to the end of the
/// file.
pub open spec fn g_program(t: Seq<SpecToken>, s: Seq<Seq<u8>>, p: int) -> bool
    decreases t.len() - p,
{
    if !(0 <= p < t.len()) {
        false
    } else if at(t, p, TokenKind::Eof) {
        true
    } else {
        match g_item(t, s, p) {
            Some(q) => moved(t, p, q) && g_program(t, s, q),
            None => false,
        }
    }
}

} // verus!

verus! {

/// The positions at which the items of a file start, from `p` on, as far as
/// they parse one after another.
pub open spec fn g_item_starts(t: Seq<SpecToken>, s: Seq<Seq<u8>>, p: int) -> Seq<int>
    decreases t.len() - p,
{
    if !(0 <= p < t.len()) || at(t, p, TokenKind::Eof) {
        Seq::empty()
    } else {
        match g_item(t, s, p) {
            Some(q) => if moved(t, p, q) {
                seq![p] + g_item_starts(t, s, q)
            } else {
                Seq::empty()
            },
            None => Seq::empty(),
        }
    }
}

/// Item `it` is the one that starts at `p`: of the kind its first token
/// says, and named by the identifier after its keyword (for an import, the
/// first segment of its path); a screen injects no provider and listens to
/// nothing, which the grammar has no syntax for.
pub open spec fn item_at(it: crate::ast::Item, t: Seq<SpecToken>, p: int) -> bool {
    match it {
        crate::ast::Item::Screen(d) => at(t, p, TokenKind::Screen) && t[p + 1].kind == TokenKind::<Seq<u8>>::Ident(d.name)
            && d.injects@.len() == 0 && d.listens@.len() == 0,
        crate::ast::Item::Component(d) => at(t, p, TokenKind::Component) && t[p + 1].kind == TokenKind::<Seq<u8>>::Ident(
            d.name,
        ),
        crate::ast::Item::Import(d) => at(t, p, TokenKind::Use) && d.path@.len() > 0 && t[p + 1].kind
            == TokenKind::<Seq<u8>>::Ident(d.path@[0]),
        crate::ast::Item::Provider(d) => at_sign(t, p) && t[p + 2].kind == TokenKind::<Seq<u8>>::Ident(d.name),
    }
}

/// Where the members of the screen at `p` start: after `screen Name`, its
/// parameters if it has them, and `{`.
pub open spec fn screen_items_from(t: Seq<SpecToken>, s: Seq<Seq<u8>>, p: int) -> int {
    if at(t, p + 2, TokenKind::LParen) {
        match g_params(t, s, p + 2) {
            Some(q) => q + 1,
            None => -1,
        }
    } else {
        p + 3
    }
}

/// The positions of the state declarations among the members of a screen,
/// from `q` on.
pub open spec fn screen_state_starts(t: Seq<SpecToken>, s: Seq<Seq<u8>>, q: int) -> Seq<int>
    decreases t.len() - q,
{
    if !(0 <= q < t.len()) || at(t, q, TokenKind::RBrace) || at(t, q, TokenKind::Eof) {
        Seq::empty()
    } else {
        let r = if at(t, q, TokenKind::State) {
            g_state(t, s, q)
        } else if at(t, q, TokenKind::OnLoad) || at(t, q, TokenKind::OnAppear) || at(t, q, TokenKind::OnDispose) {
            g_lifecycle(t, s, q)
        } else {
            g_node(t, s, q)
        };
        match r {
            Some(q2) => if moved(t, q, q2) {
                if at(t, q, TokenKind::State) {
                    seq![q] + screen_state_starts(t, s, q2)
                } else {
                    screen_state_starts(t, s, q2)
                }
            } else {
                Seq::empty()
            },
            None => Seq::empty(),
        }
    }
}

/// The positions of the state declarations (after their `@`) among the
/// members of a provider, from `q` on.
pub open spec fn provider_state_starts(t: Seq<SpecToken>, s: Seq<Seq<u8>>, q: int) -> Seq<int>
    decreases t.len() - q,
{
    if !(0 <= q < t.len()) || at(t, q, TokenKind::RBrace) || at(t, q, TokenKind::Eof) || !at_sign(t, q) {
        Seq::empty()
    } else {
        let r = if at(t, q + 1, TokenKind::State) {
            g_state(t, s, q + 1)
        } else if named(t, s, q + 1, "action".spec_bytes()) {
            match eat_ident(t, q + 2) {
                Some(a1) => match g_params(t, s, a1) {
                    Some(a2) => g_handler(t, s, a2),
                    None => None,
                },
                None => None,
            }
        } else {
            None
        };
        match r {
            Some(q2) => if moved(t, q, q2) {
                if at(t, q + 1, TokenKind::State) {
                    seq![q + 1] + provider_state_starts(t, s, q2)
                } else {
                    provider_state_starts(t, s, q2)
                }
            } else {
                Seq::empty()
            },
            None => Seq::empty(),
        }
    }
}

/// State declaration `d` is the one at `p`: named by the identifier after
/// `state`, of the type named by the identifier after the colon, and with
/// as initial value the tree of the expression after `=`.
pub open spec fn state_at(
    d: crate::ast::StateDef,
    exprs: Seq<crate::ast::Expr>,
    t: Seq<SpecToken>,
    s: Seq<Seq<u8>>,
    p: int,
) -> bool {
    &&& t[p + 1].kind == TokenKind::<Seq<u8>>::Ident(d.name)
    &&& t[p + 3].kind == TokenKind::<Seq<u8>>::Ident(d.ty.name)
    &&& match g_type(t, p + 3) {
        Some(q) => gt_expr(t, s, q + 1) matches Some(r) && r.0 == tree_of(exprs, d.init.0 as int),
        None => false,
    }
}

/// The states of `states` are, in order, the declarations at `starts`.
pub open spec fn states_at(
    states: Seq<crate::ast::StateDef>,
    exprs: Seq<crate::ast::Expr>,
    t: Seq<SpecToken>,
    s: Seq<Seq<u8>>,
    starts: Seq<int>,
) -> bool {
    states.len() == starts.len() && forall|k: int| 0 <= k < starts.len() ==> state_at(#[trigger] states[k], exprs, t, s, starts[k])
}

/// Node `n` is the one whose text starts at `p`, as far as its head goes:
/// an element named by the identifier at `p`, whose arguments are the trees
/// of the list in parentheses after it (none without one), and which has a
/// handler, the statements of the block, and no children when it is a
/// `Button` or a `TextField` followed by a block, no handler otherwise, and
/// no children without a block; a condition at `if`; a list at `List`.
/// The names of the assignment target at `p`: the identifier there, and the
/// one after each dot that follows.
pub open spec fn lvalue_names(t: Seq<SpecToken>, p: int) -> Seq<Symbol>
    decreases t.len() - p,
{
    if !(0 <= p < t.len()) || !(t[p].kind is Ident) {
        Seq::empty()
    } else if at(t, p + 1, TokenKind::Dot) && eat_ident(t, p + 2) is Some {
        seq![t[p].kind->Ident_0] + lvalue_names(t, p + 2)
    } else {
        seq![t[p].kind->Ident_0]
    }
}

/// The assignment operator a token stands for.
pub open spec fn assign_op_of(k: TokenKind<Seq<u8>>) -> crate::ast::AssignOp {
    match k {
        TokenKind::PlusEq => crate::ast::AssignOp::Add,
        TokenKind::MinusEq => crate::ast::AssignOp::Sub,
        TokenKind::StarEq => crate::ast::AssignOp::Mul,
        TokenKind::SlashEq => crate::ast::AssignOp::Div,
        _ => crate::ast::AssignOp::Store,
    }
}

/// Statement `st` is the one whose text starts at `p`, as far as its head
/// goes: `target++` or `target--` with the target's names; `target op= value`
/// with the target's names, the operator, and the tree of the value; or an
/// `if`.
pub open spec fn stmt_head_at(st: crate::ast::Stmt, exprs: Seq<crate::ast::Expr>, t: Seq<SpecToken>, s: Seq<Seq<u8>>, p: int) -> bool {
    match st {
        crate::ast::Stmt::IncDec { target, op, .. } => {
            &&& target.path@ == lvalue_names(t, p)
            &&& match g_lvalue(t, p) {
                Some(q) => if at(t, q, TokenKind::PlusPlus) {
                    op == crate::ast::IncDecOp::Inc
                } else {
                    at(t, q, TokenKind::MinusMinus) && op == crate::ast::IncDecOp::Dec
                },
                None => false,
            }
        },
        crate::ast::Stmt::Assign { target, op, value, .. } => {
            &&& target.path@ == lvalue_names(t, p)
            &&& match g_lvalue(t, p) {
                Some(q) => !at(t, q, TokenKind::PlusPlus) && !at(t, q, TokenKind::MinusMinus) && op == assign_op_of(t[q].kind)
                    && match gt_expr(t, s, q + 1) {
                    Some(r) => r.0 == tree_of(exprs, value.0 as int),
                    None => false,
                },
                None => false,
            }
        },
        crate::ast::Stmt::If { .. } => at(t, p, TokenKind::If),
        _ => false,
    }
}

/// The positions of the statements of a handler, from `q` on.
pub open spec fn handler_stmt_starts(t: Seq<SpecToken>, s: Seq<Seq<u8>>, q: int) -> Seq<int>
    decreases t.len() - q,
{
    if !(0 <= q < t.len()) || at(t, q, TokenKind::RBrace) || at(t, q, TokenKind::Eof) {
        Seq::empty()
    } else {
        match g_stmt(t, s, q) {
            Some(q2) => if moved(t, q, q2) {
                seq![q] + handler_stmt_starts(t, s, q2)
            } else {
                Seq::empty()
            },
            None => Seq::empty(),
        }
    }
}

/// The statements `stmts` are, in order and by their heads, those of the
/// handler block at `p`.
pub open spec fn handler_at(stmts: Seq<crate::ast::Stmt>, exprs: Seq<crate::ast::Expr>, t: Seq<SpecToken>, s: Seq<Seq<u8>>, p: int) -> bool {
    let starts = handler_stmt_starts(t, s, p + 1);
    &&& stmts.len() == starts.len()
    &&& forall|k: int| 0 <= k < starts.len() ==> stmt_head_at(#[trigger] stmts[k], exprs, t, s, starts[k])
}

/// Where the body of the element at `p` starts: after its name, its
/// arguments and its modifiers.
pub open spec fn element_body_from(t: Seq<SpecToken>, s: Seq<Seq<u8>>, p: int) -> Option<int> {
    let q = if at(t, p + 1, TokenKind::LParen) {
        g_args(t, s, p + 1)
    } else {
        Some(p + 1)
    };
    match q {
        Some(q2) => g_modifiers(t, s, q2),
        None => None,
    }
}

#[verifier::opaque]
pub open spec fn node_head_at(
    n: crate::ast::AstNode,
    handlers: Seq<crate::ast::Handler>,
    exprs: Seq<crate::ast::Expr>,
    t: Seq<SpecToken>,
    s: Seq<Seq<u8>>,
    p: int,
) -> bool {
    match n {
        crate::ast::AstNode::Element { kind, args, children, handler, .. } => {
            &&& t[p].kind == TokenKind::<Seq<u8>>::Ident(kind)
            &&& element_body_from(t, s, p) matches Some(m) && if !at(t, m, TokenKind::LBrace) {
                handler is None && children@.len() == 0
            } else if named(t, s, p, "Button".spec_bytes()) || named(t, s, p, "TextField".spec_bytes()) {
                &&& children@.len() == 0
                &&& handler matches Some(h) && (h.0 as int) < handlers.len() && handler_at(handlers[h.0 as int].stmts@, exprs, t, s, m)
            } else {
                handler is None
            }
            &&& if at(t, p + 1, TokenKind::LParen) {
                gt_args(t, s, p + 1) matches Some(r) && r.0 == (
                    args@.map_values(|a: crate::ast::Arg| a.name),
                    args_tree(exprs, args@, exprs.len() as int, 0),
                )
            } else {
                args@.len() == 0
            }
        },
        crate::ast::AstNode::If { .. } => at(t, p, TokenKind::If),
        crate::ast::AstNode::List { .. } => named(t, s, p, "List".spec_bytes()),
        crate::ast::AstNode::Error => false,
    }
}

/// The positions of the child nodes of a block, from `q` on.
pub open spec fn child_starts(t: Seq<SpecToken>, s: Seq<Seq<u8>>, q: int) -> Seq<int>
    decreases t.len() - q,
{
    if !(0 <= q < t.len()) || at(t, q, TokenKind::RBrace) || at(t, q, TokenKind::Eof) || at(t, q, TokenKind::State) {
        Seq::empty()
    } else {
        match g_node(t, s, q) {
            Some(q2) => if moved(t, q, q2) {
                seq![q] + child_starts(t, s, q2)
            } else {
                Seq::empty()
            },
            None => Seq::empty(),
        }
    }
}

/// Node `id` of the arena is the one whose text starts at `p`: its head as
/// `node_head_at` says; for an element with a block of children, its
/// children, in order, the nodes of that block; for a condition, the tree of
/// its condition and, in order, the nodes of its first block.
#[verifier::opaque]
pub open spec fn node_at(
    nodes: Seq<crate::ast::AstNode>,
    handlers: Seq<crate::ast::Handler>,
    exprs: Seq<crate::ast::Expr>,
    id: int,
    t: Seq<SpecToken>,
    s: Seq<Seq<u8>>,
    p: int,
) -> bool
    decreases id,
{
    &&& 0 <= id < nodes.len()
    &&& node_head_at(nodes[id], handlers, exprs, t, s, p)
    &&& match nodes[id] {
        crate::ast::AstNode::Element { children, .. } => match element_body_from(t, s, p) {
            Some(m) => at(t, m, TokenKind::LBrace) && !named(t, s, p, "Button".spec_bytes()) && !named(
                t,
                s,
                p,
                "TextField".spec_bytes(),
            ) ==> {
                let cs = child_starts(t, s, m + 1);
                &&& children@.len() == cs.len()
                &&& forall|k: int| 0 <= k < cs.len() ==> (#[trigger] children@[k]).0 < id && node_at(
                    nodes,
                    handlers,
                    exprs,
                    children@[k].0 as int,
                    t,
                    s,
                    cs[k],
                )
            },
            None => true,
        },
        crate::ast::AstNode::If { cond, then_, .. } => match gt_expr(t, s, p + 1) {
            Some(r) => {
                let cs = child_starts(t, s, r.1 + 1);
                &&& r.0 == tree_of(exprs, cond.0 as int)
                &&& then_@.len() == cs.len()
                &&& forall|k: int| 0 <= k < cs.len() ==> (#[trigger] then_@[k]).0 < id && node_at(
                    nodes,
                    handlers,
                    exprs,
                    then_@[k].0 as int,
                    t,
                    s,
                    cs[k],
                )
            },
            None => false,
        },
        _ => true,
    }
}

/// The positions of the nodes among the members of a screen, from `q` on.
pub open spec fn screen_body_starts(t: Seq<SpecToken>, s: Seq<Seq<u8>>, q: int) -> Seq<int>
    decreases t.len() - q,
{
    if !(0 <= q < t.len()) || at(t, q, TokenKind::RBrace) || at(t, q, TokenKind::Eof) {
        Seq::empty()
    } else {
        let lifecycle = at(t, q, TokenKind::OnLoad) || at(t, q, TokenKind::OnAppear) || at(t, q, TokenKind::OnDispose);
        let r = if at(t, q, TokenKind::State) {
            g_state(t, s, q)
        } else if lifecycle {
            g_lifecycle(t, s, q)
        } else {
            g_node(t, s, q)
        };
        match r {
            Some(q2) => if moved(t, q, q2) {
                if !at(t, q, TokenKind::State) && !lifecycle {
                    seq![q] + screen_body_starts(t, s, q2)
                } else {
                    screen_body_starts(t, s, q2)
                }
            } else {
                Seq::empty()
            },
            None => Seq::empty(),
        }
    }
}

/// The nodes `ids` of the arena `nodes` are, in order, those whose text
/// starts at `starts`.
pub open spec fn nodes_at(
    ids: Seq<crate::ast::NodeId>,
    nodes: Seq<crate::ast::AstNode>,
    handlers: Seq<crate::ast::Handler>,
    exprs: Seq<crate::ast::Expr>,
    t: Seq<SpecToken>,
    s: Seq<Seq<u8>>,
    starts: Seq<int>,
) -> bool {
    &&& ids.len() == starts.len()
    &&& forall|k: int| 0 <= k < starts.len() ==> node_at(nodes, handlers, exprs, (#[trigger] ids[k]).0 as int, t, s, starts[k])
}

/// Where the nodes of the component at `p` start: after `component Name`,
/// its parameters and `{`.
pub open spec fn component_items_from(t: Seq<SpecToken>, s: Seq<Seq<u8>>, p: int) -> int {
    match g_params(t, s, p + 2) {
        Some(q) => q + 1,
        None => -1,
    }
}

/// The positions of the nodes of a component, from `q` on.
pub open spec fn component_body_starts(t: Seq<SpecToken>, s: Seq<Seq<u8>>, q: int) -> Seq<int>
    decreases t.len() - q,
{
    if !(0 <= q < t.len()) || at(t, q, TokenKind::RBrace) || at(t, q, TokenKind::Eof) {
        Seq::empty()
    } else {
        match g_node(t, s, q) {
            Some(q2) => if moved(t, q, q2) {
                seq![q] + component_body_starts(t, s, q2)
            } else {
                Seq::empty()
            },
            None => Seq::empty(),
        }
    }
}

/// The body of a screen as node ids (a screen's body holds only nodes).
pub open spec fn body_node_ids(body: Seq<crate::ast::ScreenBodyItem>) -> Seq<crate::ast::NodeId> {
    body.map_values(|b: crate::ast::ScreenBodyItem| match b {
        crate::ast::ScreenBodyItem::Node(n) => n,
        crate::ast::ScreenBodyItem::Match(_) => crate::ast::NodeId(0),
    })
}

/// The positions (of their `@`) of the actions among the members of a
/// provider, from `q` on.
pub open spec fn provider_action_starts(t: Seq<SpecToken>, s: Seq<Seq<u8>>, q: int) -> Seq<int>
    decreases t.len() - q,
{
    if !(0 <= q < t.len()) || at(t, q, TokenKind::RBrace) || at(t, q, TokenKind::Eof) || !at_sign(t, q) {
        Seq::empty()
    } else {
        let r = if at(t, q + 1, TokenKind::State) {
            g_state(t, s, q + 1)
        } else if named(t, s, q + 1, "action".spec_bytes()) {
            match eat_ident(t, q + 2) {
                Some(a1) => match g_params(t, s, a1) {
                    Some(a2) => g_handler(t, s, a2),
                    None => None,
                },
                None => None,
            }
        } else {
            None
        };
        match r {
            Some(q2) => if moved(t, q, q2) {
                if at(t, q + 1, TokenKind::State) {
                    provider_action_starts(t, s, q2)
                } else {
                    seq![q] + provider_action_starts(t, s, q2)
                }
            } else {
                Seq::empty()
            },
            None => Seq::empty(),
        }
    }
}

/// Action `a` is the one whose `@` is at `p`: named by the identifier after
/// `action`, with the statements of the block after its parameters.
pub open spec fn action_at(
    a: crate::ast::ActionDef,
    handlers: Seq<crate::ast::Handler>,
    exprs: Seq<crate::ast::Expr>,
    t: Seq<SpecToken>,
    s: Seq<Seq<u8>>,
    p: int,
) -> bool {
    &&& t[p + 2].kind == TokenKind::<Seq<u8>>::Ident(a.name)
    &&& match g_params(t, s, p + 3) {
        Some(q) => (a.handler.0 as int) < handlers.len() && handler_at(handlers[a.handler.0 as int].stmts@, exprs, t, s, q),
        None => false,
    }
}

/// The actions `acts` are, in order, those whose `@` is at `starts`.
pub open spec fn actions_at(
    acts: Seq<crate::ast::ActionDef>,
    handlers: Seq<crate::ast::Handler>,
    exprs: Seq<crate::ast::Expr>,
    t: Seq<SpecToken>,
    s: Seq<Seq<u8>>,
    starts: Seq<int>,
) -> bool {
    &&& acts.len() == starts.len()
    &&& forall|k: int| 0 <= k < starts.len() ==> action_at(#[trigger] acts[k], handlers, exprs, t, s, starts[k])
}

/// The body of item `it`, which starts at `p`, is what its text holds, in
/// order: for a screen, its node members, and for a component, its nodes,
/// each as `node_at` reads it; for a provider, its actions.
pub open spec fn item_body_at(
    it: crate::ast::Item,
    nodes: Seq<crate::ast::AstNode>,
    handlers: Seq<crate::ast::Handler>,
    exprs: Seq<crate::ast::Expr>,
    t: Seq<SpecToken>,
    s: Seq<Seq<u8>>,
    p: int,
) -> bool {
    match it {
        crate::ast::Item::Screen(d) => {
            &&& forall|k: int| 0 <= k < d.body@.len() ==> (#[trigger] d.body@[k]) is Node
            &&& nodes_at(body_node_ids(d.body@), nodes, handlers, exprs, t, s, screen_body_starts(t, s, screen_items_from(t, s, p)))
        },
        crate::ast::Item::Component(d) => nodes_at(d.body@, nodes, handlers, exprs, t, s, component_body_starts(t, s, component_items_from(t, s, p))),
        crate::ast::Item::Provider(d) => actions_at(d.actions@, handlers, exprs, t, s, provider_action_starts(t, s, p + 4)),
        _ => true,
    }
}

/// The state of item `it`, which starts at `p`, is what its text declares,
/// in order: for a screen, its `state` members; for a provider, its
/// `@state` members.
pub open spec fn item_states_at(it: crate::ast::Item, exprs: Seq<crate::ast::Expr>, t: Seq<SpecToken>, s: Seq<Seq<u8>>, p: int) -> bool {
    match it {
        crate::ast::Item::Screen(d) => states_at(d.state@, exprs, t, s, screen_state_starts(t, s, screen_items_from(t, s, p))),
        crate::ast::Item::Provider(d) => states_at(d.states@, exprs, t, s, provider_state_starts(t, s, p + 4)),
        _ => true,
    }
}

} // verus!

verus! {

/// An expression as a tree, spans aside: what an expression of the arena
/// stands for.
pub enum ETree {
    Int(i64),
    Float(Seq<u8>),
    Bool(bool),
    Str(crate::span::Symbol),
    Text(crate::span::Symbol),
    Ident(crate::span::Symbol),
    Field(Box<ETree>, crate::span::Symbol),
    Call(Box<ETree>, Seq<Option<crate::span::Symbol>>, Seq<ETree>),
    Await(Box<ETree>),
    Unary(crate::ast::UnOp, Box<ETree>),
    Binary(crate::ast::BinOp, Box<ETree>, Box<ETree>),
    Interp(Seq<ETree>),
    Error,
}

/// The tree of expression `id` of the arena `exprs` (each part of an
/// expression lies before it; one that does not is an error).
pub open spec fn tree_of(exprs: Seq<crate::ast::Expr>, id: int) -> ETree
    decreases id, 1int, 0int,
{
    if !(0 <= id < exprs.len()) {
        ETree::Error
    } else {
        match exprs[id] {
            crate::ast::Expr::Int(v) => ETree::Int(v),
            crate::ast::Expr::Float(b) => ETree::Float(b@),
            crate::ast::Expr::Bool(b) => ETree::Bool(b),
            crate::ast::Expr::Str(sym) => ETree::Str(sym),
            crate::ast::Expr::Ident(sym) => ETree::Ident(sym),
            crate::ast::Expr::Interp(parts) => ETree::Interp(parts_tree(exprs, parts@, id, 0)),
            crate::ast::Expr::Field { base, field, .. } => if base.0 < id {
                ETree::Field(Box::new(tree_of(exprs, base.0 as int)), field)
            } else {
                ETree::Error
            },
            crate::ast::Expr::Call { callee, args, .. } => if callee.0 < id {
                ETree::Call(
                    Box::new(tree_of(exprs, callee.0 as int)),
                    args@.map_values(|a: crate::ast::Arg| a.name),
                    args_tree(exprs, args@, id, 0),
                )
            } else {
                ETree::Error
            },
            crate::ast::Expr::Await(e, _) => if e.0 < id {
                ETree::Await(Box::new(tree_of(exprs, e.0 as int)))
            } else {
                ETree::Error
            },
            crate::ast::Expr::Unary { op, rhs, .. } => if rhs.0 < id {
                ETree::Unary(op, Box::new(tree_of(exprs, rhs.0 as int)))
            } else {
                ETree::Error
            },
            crate::ast::Expr::Binary { op, lhs, rhs, .. } => if lhs.0 < id && rhs.0 < id {
                ETree::Binary(op, Box::new(tree_of(exprs, lhs.0 as int)), Box::new(tree_of(exprs, rhs.0 as int)))
            } else {
                ETree::Error
            },
            crate::ast::Expr::Error => ETree::Error,
        }
    }
}

/// The trees of the parts `parts[k..]` of a string below expression `bound`.
pub open spec fn parts_tree(exprs: Seq<crate::ast::Expr>, parts: Seq<crate::ast::InterpPart>, bound: int, k: int) -> Seq<ETree>
    decreases bound, 0int, parts.len() - k,
{
    if k < 0 || k >= parts.len() {
        Seq::empty()
    } else {
        let first = match parts[k] {
            crate::ast::InterpPart::Text(sym) => ETree::Text(sym),
            crate::ast::InterpPart::Expr(e) => if 0 <= e.0 < bound {
                tree_of(exprs, e.0 as int)
            } else {
                ETree::Error
            },
        };
        seq![first] + parts_tree(exprs, parts, bound, k + 1)
    }
}

/// The trees of the values of the arguments `args[k..]` below expression
/// `bound`.
pub open spec fn args_tree(exprs: Seq<crate::ast::Expr>, args: Seq<crate::ast::Arg>, bound: int, k: int) -> Seq<ETree>
    decreases bound, 0int, args.len() - k,
{
    if k < 0 || k >= args.len() {
        Seq::empty()
    } else {
        let first = if 0 <= args[k].value.0 < bound {
            tree_of(exprs, args[k].value.0 as int)
        } else {
            ETree::Error
        };
        seq![first] + args_tree(exprs, args, bound, k + 1)
    }
}

/// Appending to an arena leaves the trees of its expressions as they were.
pub proof fn lemma_tree_stable(a: Seq<crate::ast::Expr>, b: Seq<crate::ast::Expr>, id: int)
    requires
        a.is_prefix_of(b),
        0 <= id < a.len(),
    ensures
        tree_of(a, id) == tree_of(b, id),
    decreases id, 1int, 0int,
{
    assert(a[id] == b[id]);
    match a[id] {
        crate::ast::Expr::Interp(parts) => lemma_parts_stable(a, b, parts@, id, 0),
        crate::ast::Expr::Field { base, .. } => if base.0 < id {
            lemma_tree_stable(a, b, base.0 as int);
        },
        crate::ast::Expr::Call { callee, args, .. } => if callee.0 < id {
            lemma_tree_stable(a, b, callee.0 as int);
            lemma_args_stable(a, b, args@, id, 0);
        },
        crate::ast::Expr::Await(e, _) => if e.0 < id {
            lemma_tree_stable(a, b, e.0 as int);
        },
        crate::ast::Expr::Unary { rhs, .. } => if rhs.0 < id {
            lemma_tree_stable(a, b, rhs.0 as int);
        },
        crate::ast::Expr::Binary { lhs, rhs, .. } => if lhs.0 < id && rhs.0 < id {
            lemma_tree_stable(a, b, lhs.0 as int);
            lemma_tree_stable(a, b, rhs.0 as int);
        },
        _ => {},
    }
}

pub proof fn lemma_parts_stable(a: Seq<crate::ast::Expr>, b: Seq<crate::ast::Expr>, parts: Seq<crate::ast::InterpPart>, bound: int, k: int)
    requires
        a.is_prefix_of(b),
        bound <= a.len(),
    ensures
        parts_tree(a, parts, bound, k) == parts_tree(b, parts, bound, k),
    decreases bound, 0int, parts.len() - k,
{
    if 0 <= k < parts.len() {
        if let crate::ast::InterpPart::Expr(e) = parts[k] {
            if 0 <= e.0 < bound {
                lemma_tree_stable(a, b, e.0 as int);
            }
        }
        lemma_parts_stable(a, b, parts, bound, k + 1);
    }
}

pub proof fn lemma_args_stable(a: Seq<crate::ast::Expr>, b: Seq<crate::ast::Expr>, args: Seq<crate::ast::Arg>, bound: int, k: int)
    requires
        a.is_prefix_of(b),
        bound <= a.len(),
    ensures
        args_tree(a, args, bound, k) == args_tree(b, args, bound, k),
    decreases bound, 0int, args.len() - k,
{
    if 0 <= k < args.len() {
        if 0 <= args[k].value.0 < bound {
            lemma_tree_stable(a, b, args[k].value.0 as int);
        }
        lemma_args_stable(a, b, args, bound, k + 1);
    }
}

} // verus!

verus! {

/// The tree of an argument's value below `bound`.
pub open spec fn arg_tree(exprs: Seq<crate::ast::Expr>, a: crate::ast::Arg, bound: int) -> ETree {
    if 0 <= a.value.0 < bound {
        tree_of(exprs, a.value.0 as int)
    } else {
        ETree::Error
    }
}

/// The tree of a part of a string below `bound`.
pub open spec fn part_tree(exprs: Seq<crate::ast::Expr>, part: crate::ast::InterpPart, bound: int) -> ETree {
    match part {
        crate::ast::InterpPart::Text(sym) => ETree::Text(sym),
        crate::ast::InterpPart::Expr(e) => if 0 <= e.0 < bound {
            tree_of(exprs, e.0 as int)
        } else {
            ETree::Error
        },
    }
}

pub proof fn lemma_args_tree_push(exprs: Seq<crate::ast::Expr>, args: Seq<crate::ast::Arg>, a: crate::ast::Arg, bound: int, k: int)
    requires
        0 <= k <= args.len(),
    ensures
        args_tree(exprs, args.push(a), bound, k) == args_tree(exprs, args, bound, k) + seq![arg_tree(exprs, a, bound)],
    decreases args.len() - k,
{
    if k < args.len() {
        lemma_args_tree_push(exprs, args, a, bound, k + 1);
        assert(args.push(a)[k] == args[k]);
        assert(seq![arg_tree(exprs, args[k], bound)] + (args_tree(exprs, args, bound, k + 1) + seq![arg_tree(exprs, a, bound)])
            =~= (seq![arg_tree(exprs, args[k], bound)] + args_tree(exprs, args, bound, k + 1)) + seq![arg_tree(exprs, a, bound)]);
    } else {
        assert(args.push(a)[k] == a);
        assert(args_tree(exprs, args.push(a), bound, k + 1) == Seq::<ETree>::empty());
        assert(args_tree(exprs, args, bound, k) == Seq::<ETree>::empty());
        assert(seq![arg_tree(exprs, a, bound)] + Seq::<ETree>::empty() =~= Seq::<ETree>::empty() + seq![arg_tree(exprs, a, bound)]);
    }
}

pub proof fn lemma_parts_tree_push(
    exprs: Seq<crate::ast::Expr>,
    parts: Seq<crate::ast::InterpPart>,
    x: crate::ast::InterpPart,
    bound: int,
    k: int,
)
    requires
        0 <= k <= parts.len(),
    ensures
        parts_tree(exprs, parts.push(x), bound, k) == parts_tree(exprs, parts, bound, k) + seq![part_tree(exprs, x, bound)],
    decreases parts.len() - k,
{
    if k < parts.len() {
        lemma_parts_tree_push(exprs, parts, x, bound, k + 1);
        assert(parts.push(x)[k] == parts[k]);
        assert(seq![part_tree(exprs, parts[k], bound)] + (parts_tree(exprs, parts, bound, k + 1) + seq![part_tree(exprs, x, bound)])
            =~= (seq![part_tree(exprs, parts[k], bound)] + parts_tree(exprs, parts, bound, k + 1)) + seq![part_tree(exprs, x, bound)]);
    } else {
        assert(parts.push(x)[k] == x);
        assert(parts_tree(exprs, parts.push(x), bound, k + 1) == Seq::<ETree>::empty());
        assert(parts_tree(exprs, parts, bound, k) == Seq::<ETree>::empty());
        assert(seq![part_tree(exprs, x, bound)] + Seq::<ETree>::empty() =~= Seq::<ETree>::empty() + seq![part_tree(exprs, x, bound)]);
    }
}

/// The value trees of arguments below the arena's length stay as they were
/// as the arena grows.
pub proof fn lemma_args_tree_grow(a: Seq<crate::ast::Expr>, b: Seq<crate::ast::Expr>, args: Seq<crate::ast::Arg>, k: int)
    requires
        a.is_prefix_of(b),
        forall|j: int| 0 <= j < args.len() ==> (#[trigger] args[j]).value.0 < a.len(),
    ensures
        args_tree(a, args, a.len() as int, k) == args_tree(b, args, b.len() as int, k),
    decreases args.len() - k,
{
    if 0 <= k < args.len() {
        lemma_args_tree_grow(a, b, args, k + 1);
        assert(args[k].value.0 < a.len());
        lemma_tree_stable(a, b, args[k].value.0 as int);
    }
}

/// The trees of string parts below the arena's length stay as they were as
/// the arena grows.
pub proof fn lemma_parts_tree_grow(a: Seq<crate::ast::Expr>, b: Seq<crate::ast::Expr>, parts: Seq<crate::ast::InterpPart>, k: int)
    requires
        a.is_prefix_of(b),
        forall|j: int| 0 <= j < parts.len() ==> match #[trigger] parts[j] {
            crate::ast::InterpPart::Expr(e) => e.0 < a.len(),
            crate::ast::InterpPart::Text(_) => true,
        },
    ensures
        parts_tree(a, parts, a.len() as int, k) == parts_tree(b, parts, b.len() as int, k),
    decreases parts.len() - k,
{
    if 0 <= k < parts.len() {
        lemma_parts_tree_grow(a, b, parts, k + 1);
        if let crate::ast::InterpPart::Expr(e) = parts[k] {
            lemma_tree_stable(a, b, e.0 as int);
        }
    }
}

pub proof fn lemma_prefix_trans<A>(a: Seq<A>, b: Seq<A>, c: Seq<A>)
    requires
        a.is_prefix_of(b),
        b.is_prefix_of(c),
    ensures
        a.is_prefix_of(c),
{
    assert forall|i: int| 0 <= i < a.len() implies a[i] == c[i] by {
        assert(a[i] == b[i]);
    }
}

} // verus!
