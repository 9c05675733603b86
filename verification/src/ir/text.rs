//! The text form of a screen's IR, as `flash ir` prints it.

use vstd::prelude::*;
use vstd::string::{StrSliceExecFns, StringExecFns};
use crate::ir::{
    dep_ops, node_kind_name, AssignOp, HandlerBody, HandlerIr, IrExpr, NodeId, NodeIr, PropKey, ScreenIr, SlotDef, SlotId,
    StaticProp, TypeKind, UpdateOp,
};
use crate::num::{int_text, nat_digits, push_i64_text, push_u64_digits};
use crate::platform::host::string_from_utf8_lossy;
use crate::sema::name_text;
use crate::sema::provider::text_of;
use crate::span::Interner;

verus! {

/// The pieces `parts` one after another.
pub open spec fn concat_all(parts: Seq<Seq<char>>) -> Seq<char>
    decreases parts.len(),
{
    if parts.len() == 0 {
        Seq::empty()
    } else {
        concat_all(parts.drop_last()) + parts.last()
    }
}

/// The pieces `parts` with `sep` between each two.
pub open spec fn join(parts: Seq<Seq<char>>, sep: Seq<char>) -> Seq<char>
    decreases parts.len(),
{
    if parts.len() == 0 {
        Seq::empty()
    } else if parts.len() == 1 {
        parts[0]
    } else {
        join(parts.drop_last(), sep) + sep + parts.last()
    }
}

/// The decimal digits of `n`.
pub open spec fn digits(n: int) -> Seq<char> {
    nat_digits(n as nat)
}

/// `s` padded with spaces to at least twelve characters.
pub open spec fn pad12(s: Seq<char>) -> Seq<char> {
    if s.len() < 12 {
        s + Seq::new((12 - s.len()) as nat, |i: int| ' ')
    } else {
        s
    }
}

/// How a type is written in the source language.
pub open spec fn type_text(ty: TypeKind) -> Seq<char>
    decreases ty,
{
    match ty {
        TypeKind::Int => "Int"@,
        TypeKind::Float => "Float"@,
        TypeKind::Bool => "Bool"@,
        TypeKind::Str => "String"@,
        TypeKind::Option(inner) => type_text(*inner) + "?"@,
        TypeKind::Error => "<error>"@,
    }
}

/// The name of a property key.
pub open spec fn prop_key_text(k: PropKey) -> Seq<char> {
    match k {
        PropKey::Text => "Text"@,
        PropKey::Title => "Title"@,
        PropKey::Value => "Value"@,
        PropKey::Src => "Src"@,
    }
}

/// The name of an assignment operator.
pub open spec fn assign_op_text(op: AssignOp) -> Seq<char> {
    match op {
        AssignOp::Store => "Store"@,
        AssignOp::Add => "Add"@,
    }
}

/// An expression as a property value is printed: a literal, `slotN`,
/// `concat(a + b)`, `slotN + v` or `<error>`; a float as it was written.
pub open spec fn expr_ir_text(e: IrExpr) -> Seq<char>
    decreases e, 1int,
{
    match e {
        IrExpr::Int(v) => int_text(v as int),
        IrExpr::Float(f) => f.text@,
        IrExpr::Bool(b) => if b {
            "true"@
        } else {
            "false"@
        },
        IrExpr::Str(s) => "\""@ + s@ + "\""@,
        IrExpr::Slot(s) => "slot"@ + digits(s.0 as int),
        IrExpr::Concat(xs) => "concat("@ + exprs_ir_text(xs@, 0) + ")"@,
        IrExpr::Add(s, v) => "slot"@ + digits(s.0 as int) + " + "@ + int_text(v as int),
        IrExpr::Error => "<error>"@,
    }
}

/// The expressions of `xs` from `i` on, printed and joined by ` + `.
pub open spec fn exprs_ir_text(xs: Seq<IrExpr>, i: int) -> Seq<char>
    decreases xs, xs.len() - i, 0int,
{
    if i < 0 || i >= xs.len() {
        Seq::empty()
    } else if i == xs.len() - 1 {
        expr_ir_text(xs[i])
    } else {
        expr_ir_text(xs[i]) + " + "@ + exprs_ir_text(xs, i + 1)
    }
}

/// A string as `Debug` writes it: in quotes, with quotes, backslashes,
/// newlines, carriage returns and tabs escaped.
pub open spec fn debug_str(s: Seq<char>) -> Seq<char> {
    "\""@ + escaped(s) + "\""@
}

pub open spec fn escape_char(c: char) -> Seq<char> {
    if c == '"' {
        seq!['\\', '"']
    } else if c == '\\' {
        seq!['\\', '\\']
    } else if c == '\n' {
        seq!['\\', 'n']
    } else if c == '\r' {
        seq!['\\', 'r']
    } else if c == '\t' {
        seq!['\\', 't']
    } else {
        seq![c]
    }
}

pub open spec fn escaped(s: Seq<char>) -> Seq<char>
    decreases s.len(),
{
    if s.len() == 0 {
        Seq::empty()
    } else {
        escaped(s.drop_last()) + escape_char(s.last())
    }
}

/// `SlotId(n)`.
pub open spec fn slot_debug(s: SlotId) -> Seq<char> {
    "SlotId("@ + digits(s.0 as int) + ")"@
}

/// An expression as `Debug` writes it (a float as it was written).
pub open spec fn expr_debug(e: IrExpr) -> Seq<char>
    decreases e, 1int,
{
    match e {
        IrExpr::Int(v) => "Int("@ + int_text(v as int) + ")"@,
        IrExpr::Float(f) => "Float("@ + f.text@ + ")"@,
        IrExpr::Bool(b) => if b {
            "Bool(true)"@
        } else {
            "Bool(false)"@
        },
        IrExpr::Str(s) => "Str("@ + debug_str(s@) + ")"@,
        IrExpr::Slot(s) => "Slot("@ + slot_debug(s) + ")"@,
        IrExpr::Concat(xs) => "Concat(["@ + exprs_debug(xs@, 0) + "])"@,
        IrExpr::Add(s, v) => "Add("@ + slot_debug(s) + ", "@ + int_text(v as int) + ")"@,
        IrExpr::Error => "Error"@,
    }
}

/// The expressions of `xs` from `i` on, as `Debug` writes them, joined by `, `.
pub open spec fn exprs_debug(xs: Seq<IrExpr>, i: int) -> Seq<char>
    decreases xs, xs.len() - i, 0int,
{
    if i < 0 || i >= xs.len() {
        Seq::empty()
    } else if i == xs.len() - 1 {
        expr_debug(xs[i])
    } else {
        expr_debug(xs[i]) + ", "@ + exprs_debug(xs, i + 1)
    }
}

/// A handler body as `Debug` writes it.
pub open spec fn body_debug(b: HandlerBody) -> Seq<char>
    decreases b, 1int,
{
    match b {
        HandlerBody::Increment(s) => "Increment("@ + slot_debug(s) + ")"@,
        HandlerBody::Decrement(s) => "Decrement("@ + slot_debug(s) + ")"@,
        HandlerBody::Assign { slot, op, value } => "Assign { slot: "@ + slot_debug(slot) + ", op: "@ + assign_op_text(op)
            + ", value: "@ + expr_debug(value) + " }"@,
        HandlerBody::InvokeAction(n) => "InvokeAction("@ + digits(n as int) + ")"@,
        HandlerBody::Sequence(bs) => "Sequence(["@ + bodies_debug(bs@, 0) + "])"@,
    }
}

/// The bodies of `bs` from `i` on, as `Debug` writes them, joined by `, `.
pub open spec fn bodies_debug(bs: Seq<HandlerBody>, i: int) -> Seq<char>
    decreases bs, bs.len() - i, 0int,
{
    if i < 0 || i >= bs.len() {
        Seq::empty()
    } else if i == bs.len() - 1 {
        body_debug(bs[i])
    } else {
        body_debug(bs[i]) + ", "@ + bodies_debug(bs, i + 1)
    }
}

/// `h<n>` of a node's handler, or nothing.
pub open spec fn parent_text(p: Option<NodeId>) -> Seq<char> {
    match p {
        Some(n) => digits(n.0 as int),
        None => "-"@,
    }
}

pub open spec fn handler_ref_text(h: Option<crate::ir::HandlerId>) -> Seq<char> {
    match h {
        Some(id) => "handler=h"@ + digits(id.0 as int),
        None => Seq::empty(),
    }
}

pub open spec fn node_ids_text(ns: Seq<NodeId>) -> Seq<char> {
    join(ns.map_values(|c: NodeId| digits(c.0 as int)), ","@)
}

pub open spec fn slot_ids_text(ss: Seq<SlotId>) -> Seq<char> {
    join(ss.map_values(|c: SlotId| digits(c.0 as int)), ","@)
}

pub open spec fn op_refs_text(os: Seq<u32>) -> Seq<char> {
    join(os.map_values(|o: u32| "op"@ + digits(o as int)), ", "@)
}

/// `    i  name : Type`.
pub open spec fn slot_line(i: int, slot: SlotDef, strs: Seq<Seq<u8>>) -> Seq<char> {
    "    "@ + digits(i) + "  "@ + name_text(strs, slot.name) + " : "@ + type_text(slot.ty) + "\n"@
}

/// `    i  Kind         parent=p children=[c,..] handler=hN`.
pub open spec fn node_line(i: int, n: NodeIr) -> Seq<char> {
    "    "@ + digits(i) + "  "@ + pad12(node_kind_name(n.kind)) + " parent="@ + parent_text(n.parent) + " children=["@
        + node_ids_text(n.children@) + "] "@ + handler_ref_text(n.handler) + "\n"@
}

/// `    node=n prop=Key value=v`.
pub open spec fn static_line(p: StaticProp) -> Seq<char> {
    "    node="@ + digits(p.node.0 as int) + " prop="@ + prop_key_text(p.key) + " value="@ + expr_ir_text(p.value) + "\n"@
}

/// `    opI  node=n prop=Key reads=[s,..]`.
pub open spec fn op_line(i: int, op: UpdateOp) -> Seq<char> {
    "    op"@ + digits(i) + "  node="@ + digits(op.node.0 as int) + " prop="@ + prop_key_text(op.key) + " reads=["@
        + slot_ids_text(op.reads@) + "]\n"@
}

/// `    hI  node=n writes=[s,..] Body`.
pub open spec fn handler_line(h: HandlerIr) -> Seq<char> {
    "    h"@ + digits(h.id.0 as int) + "  node="@ + digits(h.node.0 as int) + " writes=["@ + slot_ids_text(h.writes@) + "] "@
        + body_debug(h.body) + "\n"@
}

/// `    slotI(name) → [opA, opB]`, for a slot that some operation reads.
pub open spec fn dep_line(i: int, slot: SlotDef, ops: Seq<u32>, strs: Seq<Seq<u8>>) -> Seq<char> {
    if ops.len() == 0 {
        Seq::empty()
    } else {
        "    slot"@ + digits(i) + "("@ + name_text(strs, slot.name) + ") → ["@ + op_refs_text(ops) + "]\n"@
    }
}

/// A dependency table that lists, for each of `n` slots, a range of its
/// operations.
pub open spec fn deps_cover(s: ScreenIr) -> bool {
    &&& s.deps.offsets@.len() == s.slots@.len() + 1
    &&& forall|i: int| 0 <= i < s.slots@.len() ==> s.deps.offsets@[i] <= #[trigger] s.deps.offsets@[i + 1] <= s.deps.ops@.len()
}

pub open spec fn slot_lines(s: ScreenIr, strs: Seq<Seq<u8>>) -> Seq<Seq<char>> {
    Seq::new(s.slots@.len(), |i: int| slot_line(i, s.slots@[i], strs))
}

pub open spec fn node_lines(s: ScreenIr) -> Seq<Seq<char>> {
    Seq::new(s.nodes@.len(), |i: int| node_line(i, s.nodes@[i]))
}

pub open spec fn static_lines(s: ScreenIr) -> Seq<Seq<char>> {
    Seq::new(s.static_props@.len(), |i: int| static_line(s.static_props@[i]))
}

pub open spec fn op_lines(s: ScreenIr) -> Seq<Seq<char>> {
    Seq::new(s.update_ops@.len(), |i: int| op_line(i, s.update_ops@[i]))
}

pub open spec fn handler_lines(s: ScreenIr) -> Seq<Seq<char>> {
    Seq::new(s.handlers@.len(), |i: int| handler_line(s.handlers@[i]))
}

pub open spec fn dep_lines(s: ScreenIr, strs: Seq<Seq<u8>>) -> Seq<Seq<char>> {
    Seq::new(s.slots@.len(), |i: int| dep_line(i, s.slots@[i], dep_ops(s.deps, i), strs))
}

/// The text form of a screen's IR: its name, then its slots, nodes, static
/// props, update operations, handlers and dependencies, one per line.
pub open spec fn screen_ir_text(s: ScreenIr, strs: Seq<Seq<u8>>) -> Seq<char> {
    "SCREEN "@ + name_text(strs, s.name) + "\n"@ + "  SLOTS\n"@ + concat_all(slot_lines(s, strs)) + "\n  NODES\n"@
        + concat_all(node_lines(s)) + "\n  STATIC_PROPS\n"@ + concat_all(static_lines(s)) + "\n  UPDATE_OPS\n"@
        + concat_all(op_lines(s)) + "\n  HANDLERS\n"@ + concat_all(handler_lines(s)) + "\n  DEPENDENCIES\n"@
        + concat_all(dep_lines(s, strs))
}

fn push_digits(out: &mut String, n: u32)
    ensures
        final(out)@ == old(out)@ + digits(n as int),
{
    push_u64_digits(out, n as u64);
}

fn push_name(out: &mut String, interner: &Interner, sym: crate::span::Symbol)
    ensures
        final(out)@ == old(out)@ + name_text(interner@, sym),
{
    let name = string_from_utf8_lossy(text_of(interner, sym));
    out.append(name.as_str());
}

/// Appends how a type is written.
pub fn push_type_text(out: &mut String, ty: &TypeKind)
    ensures
        final(out)@ == old(out)@ + type_text(*ty),
    decreases *ty,
{
    match ty {
        TypeKind::Int => out.append("Int"),
        TypeKind::Float => out.append("Float"),
        TypeKind::Bool => out.append("Bool"),
        TypeKind::Str => out.append("String"),
        TypeKind::Option(inner) => {
            push_type_text(out, &**inner);
            out.append("?");
            assert(final(out)@ =~= old(out)@ + type_text(*ty));
        },
        TypeKind::Error => out.append("<error>"),
    }
}

/// The name of a property key.
pub fn prop_key_name(k: PropKey) -> (s: &'static str)
    ensures
        s@ == prop_key_text(k),
{
    match k {
        PropKey::Text => "Text",
        PropKey::Title => "Title",
        PropKey::Value => "Value",
        PropKey::Src => "Src",
    }
}

/// Appends an expression as a property value is printed.
pub fn push_expr_ir_text(out: &mut String, e: &IrExpr)
    ensures
        final(out)@ == old(out)@ + expr_ir_text(*e),
    decreases *e, 1int,
{
    let ghost start = out@;
    match e {
        IrExpr::Int(v) => push_i64_text(out, *v),
        IrExpr::Float(f) => out.append(f.text.as_str()),
        IrExpr::Bool(b) => if *b {
            out.append("true");
        } else {
            out.append("false");
        },
        IrExpr::Str(t) => {
            out.append("\"");
            out.append(t.as_str());
            out.append("\"");
        },
        IrExpr::Slot(sl) => {
            out.append("slot");
            push_digits(out, sl.0);
        },
        IrExpr::Concat(xs) => {
            out.append("concat(");
            let ghost mid = out@;
            let mut i: usize = 0;
            while i < xs.len()
                invariant
                    *e == IrExpr::Concat(*xs),
                    i <= xs@.len(),
                    mid + exprs_ir_text(xs@, 0) == out@ + exprs_ir_text(xs@, i as int),
                decreases xs@.len() - i,
            {
                proof {
                    assert(decreases_to!(*e => (*e)->Concat_0));
                    assert(decreases_to!(*xs => xs@));
                    assert(decreases_to!(xs@ => xs@[i as int]));
                }
                let ghost before = out@;
                push_expr_ir_text(out, &xs[i]);
                if i + 1 < xs.len() {
                    out.append(" + ");
                }
                i = i + 1;
                assert(before + exprs_ir_text(xs@, i - 1) =~= out@ + exprs_ir_text(xs@, i as int));
            }
            assert(out@ + exprs_ir_text(xs@, i as int) =~= out@);
            out.append(")");
            assert(out@ =~= start + expr_ir_text(*e));
        },
        IrExpr::Add(sl, v) => {
            out.append("slot");
            push_digits(out, sl.0);
            out.append(" + ");
            push_i64_text(out, *v);
        },
        IrExpr::Error => out.append("<error>"),
    }
    assert(out@ =~= start + expr_ir_text(*e));
}

/// Appends a string as `Debug` writes it (see `debug_str`).
pub fn push_debug_str(out: &mut String, t: &str)
    ensures
        final(out)@ == old(out)@ + debug_str(t@),
{
    let ghost start = out@;
    out.append("\"");
    let ghost mid = out@;
    let n = t.unicode_len();
    let mut i: usize = 0;
    while i < n
        invariant
            n == t@.len(),
            i <= n,
            out@ == mid + escaped(t@.take(i as int)),
        decreases n - i,
    {
        let c = t.get_char(i);
        if c == '"' {
            out.append("\\\"");
        } else if c == '\\' {
            out.append("\\\\");
        } else if c == '\n' {
            out.append("\\n");
        } else if c == '\r' {
            out.append("\\r");
        } else if c == '\t' {
            out.append("\\t");
        } else {
            out.push(c);
        }
        proof {
            reveal_strlit("\\\"");
            reveal_strlit("\\\\");
            reveal_strlit("\\n");
            reveal_strlit("\\r");
            reveal_strlit("\\t");
            assert(t@.take(i + 1).drop_last() =~= t@.take(i as int));
            assert(out@ =~= mid + escaped(t@.take(i + 1)));
        }
        i = i + 1;
    }
    assert(t@.take(n as int) =~= t@);
    out.append("\"");
    assert(out@ =~= start + debug_str(t@));
}

fn push_slot_debug(out: &mut String, sl: SlotId)
    ensures
        final(out)@ == old(out)@ + slot_debug(sl),
{
    let ghost start = out@;
    out.append("SlotId(");
    push_digits(out, sl.0);
    out.append(")");
    assert(out@ =~= start + slot_debug(sl));
}

/// Appends an expression as `Debug` writes it.
pub fn push_expr_debug(out: &mut String, e: &IrExpr)
    ensures
        final(out)@ == old(out)@ + expr_debug(*e),
    decreases *e, 1int,
{
    let ghost start = out@;
    match e {
        IrExpr::Int(v) => {
            out.append("Int(");
            push_i64_text(out, *v);
            out.append(")");
        },
        IrExpr::Float(f) => {
            out.append("Float(");
            out.append(f.text.as_str());
            out.append(")");
        },
        IrExpr::Bool(b) => if *b {
            out.append("Bool(true)");
        } else {
            out.append("Bool(false)");
        },
        IrExpr::Str(t) => {
            out.append("Str(");
            push_debug_str(out, t.as_str());
            out.append(")");
        },
        IrExpr::Slot(sl) => {
            out.append("Slot(");
            push_slot_debug(out, *sl);
            out.append(")");
        },
        IrExpr::Concat(xs) => {
            out.append("Concat([");
            let ghost mid = out@;
            let mut i: usize = 0;
            while i < xs.len()
                invariant
                    *e == IrExpr::Concat(*xs),
                    i <= xs@.len(),
                    mid + exprs_debug(xs@, 0) == out@ + exprs_debug(xs@, i as int),
                decreases xs@.len() - i,
            {
                proof {
                    assert(decreases_to!(*e => (*e)->Concat_0));
                    assert(decreases_to!(*xs => xs@));
                    assert(decreases_to!(xs@ => xs@[i as int]));
                }
                let ghost before = out@;
                push_expr_debug(out, &xs[i]);
                if i + 1 < xs.len() {
                    out.append(", ");
                }
                i = i + 1;
                assert(before + exprs_debug(xs@, i - 1) =~= out@ + exprs_debug(xs@, i as int));
            }
            assert(out@ + exprs_debug(xs@, i as int) =~= out@);
            out.append("])");
        },
        IrExpr::Add(sl, v) => {
            out.append("Add(");
            push_slot_debug(out, *sl);
            out.append(", ");
            push_i64_text(out, *v);
            out.append(")");
        },
        IrExpr::Error => out.append("Error"),
    }
    assert(out@ =~= start + expr_debug(*e));
}

/// Appends a handler body as `Debug` writes it.
pub fn push_body_debug(out: &mut String, b: &HandlerBody)
    ensures
        final(out)@ == old(out)@ + body_debug(*b),
    decreases *b, 1int,
{
    let ghost start = out@;
    match b {
        HandlerBody::Increment(sl) => {
            out.append("Increment(");
            push_slot_debug(out, *sl);
            out.append(")");
        },
        HandlerBody::Decrement(sl) => {
            out.append("Decrement(");
            push_slot_debug(out, *sl);
            out.append(")");
        },
        HandlerBody::Assign { slot, op, value } => {
            out.append("Assign { slot: ");
            push_slot_debug(out, *slot);
            out.append(", op: ");
            match op {
                AssignOp::Store => out.append("Store"),
                AssignOp::Add => out.append("Add"),
            }
            out.append(", value: ");
            push_expr_debug(out, value);
            out.append(" }");
        },
        HandlerBody::InvokeAction(n) => {
            out.append("InvokeAction(");
            push_digits(out, *n);
            out.append(")");
        },
        HandlerBody::Sequence(bs) => {
            out.append("Sequence([");
            let ghost mid = out@;
            let mut i: usize = 0;
            while i < bs.len()
                invariant
                    *b == HandlerBody::Sequence(*bs),
                    i <= bs@.len(),
                    mid + bodies_debug(bs@, 0) == out@ + bodies_debug(bs@, i as int),
                decreases bs@.len() - i,
            {
                proof {
                    assert(decreases_to!(*b => (*b)->Sequence_0));
                    assert(decreases_to!(*bs => bs@));
                    assert(decreases_to!(bs@ => bs@[i as int]));
                }
                let ghost before = out@;
                push_body_debug(out, &bs[i]);
                if i + 1 < bs.len() {
                    out.append(", ");
                }
                i = i + 1;
                assert(before + bodies_debug(bs@, i - 1) =~= out@ + bodies_debug(bs@, i as int));
            }
            assert(out@ + bodies_debug(bs@, i as int) =~= out@);
            out.append("])");
        },
    }
    assert(out@ =~= start + body_debug(*b));
}

fn push_node_ids(out: &mut String, ns: &Vec<NodeId>)
    ensures
        final(out)@ == old(out)@ + node_ids_text(ns@),
{
    let ghost start = out@;
    let ghost parts = ns@.map_values(|c: NodeId| digits(c.0 as int));
    let mut i: usize = 0;
    while i < ns.len()
        invariant
            i <= ns@.len(),
            parts == ns@.map_values(|c: NodeId| digits(c.0 as int)),
            out@ == start + join(parts.take(i as int), ","@),
        decreases ns@.len() - i,
    {
        if i > 0 {
            out.append(",");
        }
        push_digits(out, ns[i].0);
        proof {
            assert(parts.take(i + 1).drop_last() =~= parts.take(i as int));
            if i == 0 {
                assert(parts.take(1)[0] == parts[0]);
            }
        }
        i = i + 1;
    }
    assert(parts.take(i as int) =~= parts);
}

fn push_slot_ids(out: &mut String, ss: &Vec<SlotId>)
    ensures
        final(out)@ == old(out)@ + slot_ids_text(ss@),
{
    let ghost start = out@;
    let ghost parts = ss@.map_values(|c: SlotId| digits(c.0 as int));
    let mut i: usize = 0;
    while i < ss.len()
        invariant
            i <= ss@.len(),
            parts == ss@.map_values(|c: SlotId| digits(c.0 as int)),
            out@ == start + join(parts.take(i as int), ","@),
        decreases ss@.len() - i,
    {
        if i > 0 {
            out.append(",");
        }
        push_digits(out, ss[i].0);
        proof {
            assert(parts.take(i + 1).drop_last() =~= parts.take(i as int));
            if i == 0 {
                assert(parts.take(1)[0] == parts[0]);
            }
        }
        i = i + 1;
    }
    assert(parts.take(i as int) =~= parts);
}

fn push_op_refs(out: &mut String, os: &[u32])
    ensures
        final(out)@ == old(out)@ + op_refs_text(os@),
{
    let ghost start = out@;
    let ghost parts = os@.map_values(|o: u32| "op"@ + digits(o as int));
    let mut i: usize = 0;
    while i < os.len()
        invariant
            i <= os@.len(),
            parts == os@.map_values(|o: u32| "op"@ + digits(o as int)),
            out@ == start + join(parts.take(i as int), ", "@),
        decreases os@.len() - i,
    {
        if i > 0 {
            out.append(", ");
        }
        let ghost before = out@;
        out.append("op");
        push_digits(out, os[i]);
        proof {
            assert(out@ =~= before + parts[i as int]);
            assert(parts.take(i + 1).drop_last() =~= parts.take(i as int));
            if i == 0 {
                assert(parts.take(1)[0] == parts[0]);
            }
        }
        i = i + 1;
    }
    assert(parts.take(i as int) =~= parts);
}

fn push_index(out: &mut String, i: usize)
    ensures
        final(out)@ == old(out)@ + digits(i as int),
{
    push_u64_digits(out, i as u64);
}

fn push_padded(out: &mut String, name: &str)
    ensures
        final(out)@ == old(out)@ + pad12(name@),
{
    let ghost start = out@;
    out.append(name);
    let n = name.unicode_len();
    let mut k: usize = n;
    while k < 12
        invariant
            n == name@.len(),
            n <= k,
            n < 12 ==> k <= 12,
            n >= 12 ==> k == n,
            out@ == start + name@ + Seq::new((k - n) as nat, |i: int| ' '),
        decreases 12 - k,
    {
        let ghost before = out@;
        out.push(' ');
        k = k + 1;
        assert(out@ =~= start + name@ + Seq::new((k - n) as nat, |i: int| ' '));
    }
    if n >= 12 {
        assert(Seq::new((k - n) as nat, |i: int| ' ') =~= Seq::<char>::empty());
        assert(out@ =~= start + name@);
    }
}

fn push_slot_line(out: &mut String, i: usize, slot: &SlotDef, interner: &Interner)
    ensures
        final(out)@ == old(out)@ + slot_line(i as int, *slot, interner@),
{
    let ghost start = out@;
    out.append("    ");
    push_index(out, i);
    out.append("  ");
    push_name(out, interner, slot.name);
    out.append(" : ");
    push_type_text(out, &slot.ty);
    out.append("\n");
    assert(out@ =~= start + slot_line(i as int, *slot, interner@));
}

fn push_node_line(out: &mut String, i: usize, node: &NodeIr)
    ensures
        final(out)@ == old(out)@ + node_line(i as int, *node),
{
    let ghost start = out@;
    out.append("    ");
    push_index(out, i);
    out.append("  ");
    push_padded(out, node.kind.name());
    out.append(" parent=");
    match node.parent {
        Some(p) => push_digits(out, p.0),
        None => out.append("-"),
    }
    out.append(" children=[");
    push_node_ids(out, &node.children);
    out.append("] ");
    match node.handler {
        Some(h) => {
            out.append("handler=h");
            push_digits(out, h.0);
        },
        None => {},
    }
    out.append("\n");
    assert(out@ =~= start + node_line(i as int, *node));
}

fn push_static_line(out: &mut String, p: &StaticProp)
    ensures
        final(out)@ == old(out)@ + static_line(*p),
{
    let ghost start = out@;
    out.append("    node=");
    push_digits(out, p.node.0);
    out.append(" prop=");
    out.append(prop_key_name(p.key));
    out.append(" value=");
    push_expr_ir_text(out, &p.value);
    out.append("\n");
    assert(out@ =~= start + static_line(*p));
}

fn push_op_line(out: &mut String, i: usize, op: &UpdateOp)
    ensures
        final(out)@ == old(out)@ + op_line(i as int, *op),
{
    let ghost start = out@;
    out.append("    op");
    push_index(out, i);
    out.append("  node=");
    push_digits(out, op.node.0);
    out.append(" prop=");
    out.append(prop_key_name(op.key));
    out.append(" reads=[");
    push_slot_ids(out, &op.reads);
    out.append("]\n");
    assert(out@ =~= start + op_line(i as int, *op));
}

fn push_handler_line(out: &mut String, h: &HandlerIr)
    ensures
        final(out)@ == old(out)@ + handler_line(*h),
{
    let ghost start = out@;
    out.append("    h");
    push_digits(out, h.id.0);
    out.append("  node=");
    push_digits(out, h.node.0);
    out.append(" writes=[");
    push_slot_ids(out, &h.writes);
    out.append("] ");
    push_body_debug(out, &h.body);
    out.append("\n");
    assert(out@ =~= start + handler_line(*h));
}

proof fn lemma_concat_step(lines: Seq<Seq<char>>, i: int)
    requires
        0 <= i < lines.len(),
    ensures
        concat_all(lines.take(i + 1)) == concat_all(lines.take(i)) + lines[i],
{
    assert(lines.take(i + 1).drop_last() =~= lines.take(i));
}

proof fn lemma_concat_whole(lines: Seq<Seq<char>>)
    ensures
        concat_all(lines.take(lines.len() as int)) == concat_all(lines),
{
    assert(lines.take(lines.len() as int) =~= lines);
}

fn push_dep_line(out: &mut String, i: usize, screen: &ScreenIr, interner: &Interner)
    requires
        i < screen.slots@.len(),
        screen.slots@.len() <= u32::MAX,
        deps_cover(*screen),
    ensures
        final(out)@ == old(out)@ + dep_line(i as int, screen.slots@[i as int], dep_ops(screen.deps, i as int), interner@),
{
    let ghost start = out@;
    assert(screen.deps.offsets@[i as int] <= screen.deps.offsets@[i + 1] <= screen.deps.ops@.len());
    let ops = screen.deps.ops_for(SlotId(i as u32));
    if ops.len() > 0 {
        out.append("    slot");
        push_index(out, i);
        out.append("(");
        push_name(out, interner, screen.slots[i].name);
        out.append(") → [");
        push_op_refs(out, ops);
        out.append("]\n");
    }
    assert(out@ =~= start + dep_line(i as int, screen.slots@[i as int], dep_ops(screen.deps, i as int), interner@));
}

/// The text form of a screen's IR (see `screen_ir_text`).
pub fn format_screen_ir(screen: &ScreenIr, interner: &Interner) -> (s: String)
    requires
        deps_cover(*screen),
        screen.slots@.len() <= u32::MAX,
    ensures
        s@ == screen_ir_text(*screen, interner@),
{
    let ghost strs = interner@;
    let mut out = String::new();
    out.append("SCREEN ");
    push_name(&mut out, interner, screen.name);
    out.append("\n");
    out.append("  SLOTS\n");
    let ghost p0 = out@;
    let ghost lines = slot_lines(*screen, strs);
    let mut i: usize = 0;
    while i < screen.slots.len()
        invariant
            i <= screen.slots@.len(),
            lines == slot_lines(*screen, strs),
            strs == interner@,
            out@ == p0 + concat_all(lines.take(i as int)),
        decreases screen.slots@.len() - i,
    {
        push_slot_line(&mut out, i, &screen.slots[i], interner);
        proof {
            lemma_concat_step(lines, i as int);
        }
        i = i + 1;
    }
    proof {
        lemma_concat_whole(lines);
    }
    out.append("\n  NODES\n");
    let ghost p1 = out@;
    let ghost lines = node_lines(*screen);
    let mut i: usize = 0;
    while i < screen.nodes.len()
        invariant
            i <= screen.nodes@.len(),
            lines == node_lines(*screen),
            out@ == p1 + concat_all(lines.take(i as int)),
        decreases screen.nodes@.len() - i,
    {
        push_node_line(&mut out, i, &screen.nodes[i]);
        proof {
            lemma_concat_step(lines, i as int);
        }
        i = i + 1;
    }
    proof {
        lemma_concat_whole(lines);
    }
    out.append("\n  STATIC_PROPS\n");
    let ghost p2 = out@;
    let ghost lines = static_lines(*screen);
    let mut i: usize = 0;
    while i < screen.static_props.len()
        invariant
            i <= screen.static_props@.len(),
            lines == static_lines(*screen),
            out@ == p2 + concat_all(lines.take(i as int)),
        decreases screen.static_props@.len() - i,
    {
        push_static_line(&mut out, &screen.static_props[i]);
        proof {
            lemma_concat_step(lines, i as int);
        }
        i = i + 1;
    }
    proof {
        lemma_concat_whole(lines);
    }
    out.append("\n  UPDATE_OPS\n");
    let ghost p3 = out@;
    let ghost lines = op_lines(*screen);
    let mut i: usize = 0;
    while i < screen.update_ops.len()
        invariant
            i <= screen.update_ops@.len(),
            lines == op_lines(*screen),
            out@ == p3 + concat_all(lines.take(i as int)),
        decreases screen.update_ops@.len() - i,
    {
        push_op_line(&mut out, i, &screen.update_ops[i]);
        proof {
            lemma_concat_step(lines, i as int);
        }
        i = i + 1;
    }
    proof {
        lemma_concat_whole(lines);
    }
    out.append("\n  HANDLERS\n");
    let ghost p4 = out@;
    let ghost lines = handler_lines(*screen);
    let mut i: usize = 0;
    while i < screen.handlers.len()
        invariant
            i <= screen.handlers@.len(),
            lines == handler_lines(*screen),
            out@ == p4 + concat_all(lines.take(i as int)),
        decreases screen.handlers@.len() - i,
    {
        push_handler_line(&mut out, &screen.handlers[i]);
        proof {
            lemma_concat_step(lines, i as int);
        }
        i = i + 1;
    }
    proof {
        lemma_concat_whole(lines);
    }
    out.append("\n  DEPENDENCIES\n");
    let ghost p5 = out@;
    let ghost lines = dep_lines(*screen, strs);
    let mut i: usize = 0;
    while i < screen.slots.len()
        invariant
            i <= screen.slots@.len(),
            screen.slots@.len() <= u32::MAX,
            deps_cover(*screen),
            strs == interner@,
            lines == dep_lines(*screen, strs),
            out@ == p5 + concat_all(lines.take(i as int)),
        decreases screen.slots@.len() - i,
    {
        push_dep_line(&mut out, i, screen, interner);
        proof {
            lemma_concat_step(lines, i as int);
        }
        i = i + 1;
    }
    proof {
        lemma_concat_whole(lines);
    }
    assert(out@ =~= screen_ir_text(*screen, strs));
    out
}

} // verus!
