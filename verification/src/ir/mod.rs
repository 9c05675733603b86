//! UI intermediate representation: a flat node table, static props, update
//! operations and a dependency table from state slots to update operations.

pub mod animation;
pub mod hot_reload;
pub mod layout;
pub mod text;

use vstd::prelude::*;
use crate::bytes::str_eq;
use crate::num::FloatLit;
use crate::span::Symbol;

verus! {

#[derive(Clone, Copy, Debug, PartialEq, Eq, Structural)]
pub struct NodeId(pub u32);

#[derive(Clone, Copy, Debug, PartialEq, Eq, Structural)]
pub struct SlotId(pub u32);

#[derive(Clone, Copy, Debug, PartialEq, Eq, Structural)]
pub struct OpId(pub u32);

#[derive(Clone, Copy, Debug, PartialEq, Eq, Structural)]
pub struct HandlerId(pub u32);

#[derive(Clone, Copy, Debug, PartialEq, Eq, Structural)]
pub struct ExprId(pub u32);

#[derive(Clone, Copy, Debug, PartialEq, Eq, Structural)]
pub struct RegionId(pub u32);

/// The kinds of UI nodes, numbered as on the wire.
#[derive(Clone, Copy, Debug, PartialEq, Eq, Structural)]
pub enum NodeKind {
    Text,
    Button,
    Column,
    Row,
    Stack,
    Image,
    TextField,
    ScrollView,
    List,
    Loading,
}

/// The node kind named `name`, if any.
pub open spec fn node_kind_named(name: Seq<char>) -> Option<NodeKind> {
    if name == "Text"@ {
        Some(NodeKind::Text)
    } else if name == "Button"@ {
        Some(NodeKind::Button)
    } else if name == "Column"@ {
        Some(NodeKind::Column)
    } else if name == "Row"@ {
        Some(NodeKind::Row)
    } else if name == "Stack"@ {
        Some(NodeKind::Stack)
    } else if name == "Image"@ {
        Some(NodeKind::Image)
    } else if name == "TextField"@ {
        Some(NodeKind::TextField)
    } else if name == "ScrollView"@ {
        Some(NodeKind::ScrollView)
    } else if name == "List"@ {
        Some(NodeKind::List)
    } else if name == "Loading"@ {
        Some(NodeKind::Loading)
    } else {
        None
    }
}

/// The name of a node kind.
pub open spec fn node_kind_name(k: NodeKind) -> Seq<char> {
    match k {
        NodeKind::Text => "Text"@,
        NodeKind::Button => "Button"@,
        NodeKind::Column => "Column"@,
        NodeKind::Row => "Row"@,
        NodeKind::Stack => "Stack"@,
        NodeKind::Image => "Image"@,
        NodeKind::TextField => "TextField"@,
        NodeKind::ScrollView => "ScrollView"@,
        NodeKind::List => "List"@,
        NodeKind::Loading => "Loading"@,
    }
}

/// The wire number of a node kind.
pub open spec fn node_kind_code(k: NodeKind) -> u16 {
    match k {
        NodeKind::Text => 0,
        NodeKind::Button => 1,
        NodeKind::Column => 2,
        NodeKind::Row => 3,
        NodeKind::Stack => 4,
        NodeKind::Image => 5,
        NodeKind::TextField => 6,
        NodeKind::ScrollView => 7,
        NodeKind::List => 8,
        NodeKind::Loading => 9,
    }
}

impl NodeKind {
    pub const TEXT: NodeKind = NodeKind::Text;
    pub const BUTTON: NodeKind = NodeKind::Button;
    pub const COLUMN: NodeKind = NodeKind::Column;
    pub const ROW: NodeKind = NodeKind::Row;
    pub const STACK: NodeKind = NodeKind::Stack;
    pub const IMAGE: NodeKind = NodeKind::Image;
    pub const TEXT_FIELD: NodeKind = NodeKind::TextField;
    pub const SCROLL_VIEW: NodeKind = NodeKind::ScrollView;
    pub const LIST: NodeKind = NodeKind::List;
    pub const LOADING: NodeKind = NodeKind::Loading;

    pub fn from_name(name: &str) -> (k: Option<NodeKind>)
        ensures
            k == node_kind_named(name@),
    {
        if str_eq(name, "Text") {
            Some(NodeKind::Text)
        } else if str_eq(name, "Button") {
            Some(NodeKind::Button)
        } else if str_eq(name, "Column") {
            Some(NodeKind::Column)
        } else if str_eq(name, "Row") {
            Some(NodeKind::Row)
        } else if str_eq(name, "Stack") {
            Some(NodeKind::Stack)
        } else if str_eq(name, "Image") {
            Some(NodeKind::Image)
        } else if str_eq(name, "TextField") {
            Some(NodeKind::TextField)
        } else if str_eq(name, "ScrollView") {
            Some(NodeKind::ScrollView)
        } else if str_eq(name, "List") {
            Some(NodeKind::List)
        } else if str_eq(name, "Loading") {
            Some(NodeKind::Loading)
        } else {
            None
        }
    }

    pub fn name(&self) -> (s: &'static str)
        ensures
            s@ == node_kind_name(*self),
    {
        match self {
            NodeKind::Text => "Text",
            NodeKind::Button => "Button",
            NodeKind::Column => "Column",
            NodeKind::Row => "Row",
            NodeKind::Stack => "Stack",
            NodeKind::Image => "Image",
            NodeKind::TextField => "TextField",
            NodeKind::ScrollView => "ScrollView",
            NodeKind::List => "List",
            NodeKind::Loading => "Loading",
        }
    }

    /// The kind's wire number.
    pub fn as_u16(&self) -> (c: u16)
        ensures
            c == node_kind_code(*self),
    {
        match self {
            NodeKind::Text => 0,
            NodeKind::Button => 1,
            NodeKind::Column => 2,
            NodeKind::Row => 3,
            NodeKind::Stack => 4,
            NodeKind::Image => 5,
            NodeKind::TextField => 6,
            NodeKind::ScrollView => 7,
            NodeKind::List => 8,
            NodeKind::Loading => 9,
        }
    }
}

/// Looking a kind up by its own name finds that kind.
pub proof fn lemma_node_kind_name_roundtrip(k: NodeKind)
    ensures
        node_kind_named(node_kind_name(k)) == Some(k),
{
    reveal_strlit("Text");
    reveal_strlit("Button");
    reveal_strlit("Column");
    reveal_strlit("Row");
    reveal_strlit("Stack");
    reveal_strlit("Image");
    reveal_strlit("TextField");
    reveal_strlit("ScrollView");
    reveal_strlit("List");
    reveal_strlit("Loading");
    assert("Button"@.len() != "Text"@.len());
    assert("Column"@.len() != "Text"@.len());
    assert("Column"@[0] != "Button"@[0]);
    assert("Row"@.len() != "Text"@.len());
    assert("Row"@.len() != "Button"@.len());
    assert("Row"@.len() != "Column"@.len());
    assert("Stack"@.len() != "Text"@.len());
    assert("Stack"@.len() != "Button"@.len());
    assert("Stack"@.len() != "Column"@.len());
    assert("Stack"@.len() != "Row"@.len());
    assert("Image"@.len() != "Text"@.len());
    assert("Image"@.len() != "Button"@.len());
    assert("Image"@.len() != "Column"@.len());
    assert("Image"@.len() != "Row"@.len());
    assert("Image"@[0] != "Stack"@[0]);
    assert("TextField"@.len() != "Text"@.len());
    assert("TextField"@.len() != "Button"@.len());
    assert("TextField"@.len() != "Column"@.len());
    assert("TextField"@.len() != "Row"@.len());
    assert("TextField"@.len() != "Stack"@.len());
    assert("TextField"@.len() != "Image"@.len());
    assert("ScrollView"@.len() != "Text"@.len());
    assert("ScrollView"@.len() != "Button"@.len());
    assert("ScrollView"@.len() != "Column"@.len());
    assert("ScrollView"@.len() != "Row"@.len());
    assert("ScrollView"@.len() != "Stack"@.len());
    assert("ScrollView"@.len() != "Image"@.len());
    assert("ScrollView"@.len() != "TextField"@.len());
    assert("List"@[0] != "Text"@[0]);
    assert("List"@.len() != "Button"@.len());
    assert("List"@.len() != "Column"@.len());
    assert("List"@.len() != "Row"@.len());
    assert("List"@.len() != "Stack"@.len());
    assert("List"@.len() != "Image"@.len());
    assert("List"@.len() != "TextField"@.len());
    assert("List"@.len() != "ScrollView"@.len());
    assert("Loading"@.len() != "Text"@.len());
    assert("Loading"@.len() != "Button"@.len());
    assert("Loading"@.len() != "Column"@.len());
    assert("Loading"@.len() != "Row"@.len());
    assert("Loading"@.len() != "Stack"@.len());
    assert("Loading"@.len() != "Image"@.len());
    assert("Loading"@.len() != "TextField"@.len());
    assert("Loading"@.len() != "ScrollView"@.len());
    assert("Loading"@.len() != "List"@.len());
}

/// Distinct kinds have distinct wire numbers.
pub proof fn lemma_node_kind_code_injective(a: NodeKind, b: NodeKind)
    ensures
        node_kind_code(a) == node_kind_code(b) ==> a == b,
{
}

/// Bindable properties of IR nodes.
#[derive(Clone, Copy, Debug, PartialEq, Eq, Structural)]
pub enum PropKey {
    Text,
    Title,
    Value,
    Src,
}

/// The static types slots and parameters are given.
#[derive(Debug)]
pub enum TypeKind {
    Int,
    Float,
    Bool,
    Str,
    Option(Box<TypeKind>),
    Error,
}

impl Clone for TypeKind {
    fn clone(&self) -> (r: Self)
        ensures
            r == *self,
        decreases self,
    {
        match self {
            TypeKind::Int => TypeKind::Int,
            TypeKind::Float => TypeKind::Float,
            TypeKind::Bool => TypeKind::Bool,
            TypeKind::Str => TypeKind::Str,
            TypeKind::Option(t) => TypeKind::Option(Box::new((**t).clone())),
            TypeKind::Error => TypeKind::Error,
        }
    }
}

/// An IR expression.
#[derive(Debug)]
pub enum IrExpr {
    Int(i64),
    Float(FloatLit),
    Bool(bool),
    Str(String),
    Slot(SlotId),
    Concat(Vec<IrExpr>),
    Add(SlotId, i64),
    Error,
}

#[derive(Debug)]
pub struct SlotDef {
    pub name: Symbol,
    pub ty: TypeKind,
    pub init: IrExpr,
}

#[derive(Clone, Debug)]
pub struct ParamDef {
    pub name: Symbol,
    pub ty: TypeKind,
}

#[derive(Clone, Debug)]
pub struct NodeIr {
    pub kind: NodeKind,
    pub parent: Option<NodeId>,
    pub children: Vec<NodeId>,
    pub handler: Option<HandlerId>,
}

#[derive(Debug)]
pub struct StaticProp {
    pub node: NodeId,
    pub key: PropKey,
    pub value: IrExpr,
}

/// Re-evaluates expression `expr` into property `key` of `node` whenever a slot
/// in `reads` changes.
#[derive(Clone, Debug)]
pub struct UpdateOp {
    pub node: NodeId,
    pub key: PropKey,
    pub expr: ExprId,
    pub reads: Vec<SlotId>,
}

#[derive(Clone, Copy, Debug, PartialEq, Eq, Structural)]
pub enum AssignOp {
    /// `=` (named `Set` in the language; `Set` is reserved here).
    Store,
    Add,
}

/// What a handler does to the slots.
#[derive(Debug)]
pub enum HandlerBody {
    Increment(SlotId),
    Decrement(SlotId),
    Assign { slot: SlotId, op: AssignOp, value: IrExpr },
    /// Runs the body of the screen's action with this index.
    InvokeAction(u32),
    Sequence(Vec<HandlerBody>),
}

#[derive(Debug)]
pub struct HandlerIr {
    pub id: HandlerId,
    pub node: NodeId,
    pub writes: Vec<SlotId>,
    pub body: HandlerBody,
}

/// An action of a provider, compiled for one screen.
#[derive(Debug)]
pub struct CompiledAction {
    pub name: Symbol,
    pub provider: Option<Symbol>,
    pub writes: Vec<SlotId>,
    pub body: Vec<HandlerBody>,
    pub is_async: bool,
}

/// A side-effect listener: runs `handler` when a slot in `reads` changes.
#[derive(Clone, Debug)]
pub struct ListenIr {
    pub reads: Vec<SlotId>,
    pub handler: HandlerId,
}

#[derive(Clone, Copy, Debug, PartialEq, Eq, Structural)]
pub enum ProviderScope {
    Screen,
    App,
    Family,
}

#[derive(Clone, Debug)]
pub struct ProviderIr {
    pub name: Symbol,
    pub scope: ProviderScope,
    pub state_fields: Vec<Symbol>,
    pub actions: Vec<Symbol>,
}

#[derive(Debug)]
pub struct ScreenIr {
    pub name: Symbol,
    pub slots: Vec<SlotDef>,
    pub nodes: Vec<NodeIr>,
    pub static_props: Vec<StaticProp>,
    pub update_ops: Vec<UpdateOp>,
    pub deps: DepTable,
    pub handlers: Vec<HandlerIr>,
    pub actions: Vec<CompiledAction>,
    pub listens: Vec<ListenIr>,
    pub exprs: Vec<IrExpr>,
}

#[derive(Debug)]
pub struct ComponentIr {
    pub name: Symbol,
    pub params: Vec<ParamDef>,
    pub nodes: Vec<NodeIr>,
    pub static_props: Vec<StaticProp>,
    pub update_ops: Vec<UpdateOp>,
    pub handlers: Vec<HandlerIr>,
    pub exprs: Vec<IrExpr>,
}

/// Top-level compiled UI IR for a module.
#[derive(Debug)]
pub struct UiIr {
    pub screens: Vec<ScreenIr>,
    pub components: Vec<ComponentIr>,
    pub providers: Vec<ProviderIr>,
}

/// Compressed-sparse-row dependency table: the update operations that read
/// slot `s` are `ops[offsets[s]..offsets[s + 1]]`.
#[derive(Clone, Debug)]
pub struct DepTable {
    pub offsets: Vec<u32>,
    pub ops: Vec<u32>,
}

} // verus!

verus! {

/// How many times slot `s` occurs in `reads`.
pub open spec fn count_slot(reads: Seq<SlotId>, s: int) -> nat
    decreases reads.len(),
{
    if reads.len() == 0 {
        0
    } else {
        count_slot(reads.drop_last(), s) + (if reads.last().0 == s {
            1nat
        } else {
            0nat
        })
    }
}

/// The indices of the update operations that read slot `s`, ascending, each
/// listed once per occurrence of `s` in its `reads`.
pub open spec fn ops_reading(ops: Seq<UpdateOp>, s: int) -> Seq<u32>
    decreases ops.len(),
{
    if ops.len() == 0 {
        Seq::empty()
    } else {
        ops_reading(ops.drop_last(), s) + Seq::new(
            count_slot(ops.last().reads@, s),
            |j: int| (ops.len() - 1) as u32,
        )
    }
}

/// The table's operations for slots `0..n`, one slot after another.
pub open spec fn csr_ops(ops: Seq<UpdateOp>, n: int) -> Seq<u32>
    decreases n,
{
    if n <= 0 {
        Seq::empty()
    } else {
        csr_ops(ops, n - 1) + ops_reading(ops, n - 1)
    }
}

/// The total number of slot reads of all operations.
pub open spec fn total_reads(ops: Seq<UpdateOp>) -> nat
    decreases ops.len(),
{
    if ops.len() == 0 {
        0
    } else {
        total_reads(ops.drop_last()) + ops.last().reads@.len()
    }
}

/// How many entries of `reads` name a slot below `n`.
pub open spec fn count_below(reads: Seq<SlotId>, n: int) -> nat
    decreases reads.len(),
{
    if reads.len() == 0 {
        0
    } else {
        count_below(reads.drop_last(), n) + (if reads.last().0 < n {
            1nat
        } else {
            0nat
        })
    }
}

pub open spec fn reads_below(ops: Seq<UpdateOp>, n: int) -> nat
    decreases ops.len(),
{
    if ops.len() == 0 {
        0
    } else {
        reads_below(ops.drop_last(), n) + count_below(ops.last().reads@, n)
    }
}

proof fn lemma_count_below_step(reads: Seq<SlotId>, n: int)
    requires
        n >= 0,
    ensures
        count_below(reads, n + 1) == count_below(reads, n) + count_slot(reads, n),
        count_below(reads, n) <= reads.len(),
    decreases reads.len(),
{
    if reads.len() > 0 {
        lemma_count_below_step(reads.drop_last(), n);
    }
}

proof fn lemma_reads_below_step(ops: Seq<UpdateOp>, n: int)
    requires
        n >= 0,
    ensures
        reads_below(ops, n + 1) == reads_below(ops, n) + ops_reading(ops, n).len(),
        reads_below(ops, n) <= total_reads(ops),
    decreases ops.len(),
{
    if ops.len() > 0 {
        lemma_reads_below_step(ops.drop_last(), n);
        lemma_count_below_step(ops.last().reads@, n);
    }
}

proof fn lemma_csr_len(ops: Seq<UpdateOp>, n: int)
    requires
        n >= 0,
    ensures
        csr_ops(ops, n).len() == reads_below(ops, n),
        csr_ops(ops, n).len() <= total_reads(ops),
    decreases n,
{
    if n > 0 {
        lemma_csr_len(ops, n - 1);
        lemma_reads_below_step(ops, n - 1);
    } else {
        lemma_reads_below_step(ops, 0);
        assert(reads_below(ops, 0) == 0) by {
            lemma_reads_below_zero(ops);
        }
    }
    lemma_reads_below_step(ops, n);
}

proof fn lemma_reads_below_zero(ops: Seq<UpdateOp>)
    ensures
        reads_below(ops, 0) == 0,
    decreases ops.len(),
{
    if ops.len() > 0 {
        lemma_reads_below_zero(ops.drop_last());
        lemma_count_below_zero(ops.last().reads@);
    }
}

proof fn lemma_count_below_zero(reads: Seq<SlotId>)
    ensures
        count_below(reads, 0) == 0,
    decreases reads.len(),
{
    if reads.len() > 0 {
        lemma_count_below_zero(reads.drop_last());
    }
}

/// A dependency table lists, for every slot below `n`, exactly the operations
/// reading it.
pub open spec fn dep_table_of(t: DepTable, n: int, ops: Seq<UpdateOp>) -> bool {
    &&& t.offsets@.len() == n + 1
    &&& t.offsets@[0] == 0
    &&& t.offsets@[n] == t.ops@.len()
    &&& forall|s: int|
        0 <= s < n ==> t.offsets@[s] <= #[trigger] t.offsets@[s + 1] <= t.ops@.len()
            && t.ops@.subrange(t.offsets@[s] as int, t.offsets@[s + 1] as int) == ops_reading(ops, s)
}

/// The operations of `t` for slot `s`, where the table is well formed at `s`.
pub open spec fn dep_ops(t: DepTable, s: int) -> Seq<u32> {
    t.ops@.subrange(t.offsets@[s] as int, t.offsets@[s + 1] as int)
}

impl DepTable {
    /// Builds the table for slots `0..num_slots` from the update operations.
    pub fn build(num_slots: usize, update_ops: &[UpdateOp]) -> (t: DepTable)
        requires
            forall|i: int, j: int|
                0 <= i < update_ops@.len() && 0 <= j < update_ops@[i].reads@.len()
                    ==> (#[trigger] update_ops@[i].reads@[j]).0 < num_slots,
            total_reads(update_ops@) <= u32::MAX,
        ensures
            dep_table_of(t, num_slots as int, update_ops@),
    {
        let mut offsets: Vec<u32> = Vec::new();
        let mut ops: Vec<u32> = Vec::new();
        let mut s: usize = 0;
        while s < num_slots
            invariant
                s <= num_slots,
                ops@ == csr_ops(update_ops@, s as int),
                total_reads(update_ops@) <= u32::MAX,
                offsets@.len() == s,
                s > 0 ==> offsets@[0] == 0,
                forall|k: int| 0 <= k < s ==> offsets@[k] == csr_ops(update_ops@, k).len(),
            decreases num_slots - s,
        {
            proof {
                lemma_csr_len(update_ops@, s as int);
            }
            offsets.push(ops.len() as u32);
            let mut i: usize = 0;
            while i < update_ops.len()
                invariant
                    s < num_slots,
                    i <= update_ops@.len(),
                    ops@ == csr_ops(update_ops@, s as int) + ops_reading(update_ops@.subrange(0, i as int), s as int),
                decreases update_ops@.len() - i,
            {
                let reads = &update_ops[i].reads;
                let ghost before = ops@;
                let mut j: usize = 0;
                while j < reads.len()
                    invariant
                        j <= reads@.len(),
                        reads@ == update_ops@[i as int].reads@,
                        ops@ == before + Seq::new(count_slot(reads@.subrange(0, j as int), s as int), |k: int| i as u32),
                    decreases reads@.len() - j,
                {
                    assert(reads@.subrange(0, j + 1).drop_last() =~= reads@.subrange(0, j as int));
                    if reads[j].0 as usize == s {
                        ops.push(i as u32);
                    }
                    j = j + 1;
                    assert(ops@ =~= before + Seq::new(count_slot(reads@.subrange(0, j as int), s as int), |k: int| i as u32));
                }
                assert(reads@.subrange(0, reads@.len() as int) =~= reads@);
                let ghost pre = update_ops@.subrange(0, i + 1);
                assert(pre.drop_last() =~= update_ops@.subrange(0, i as int));
                i = i + 1;
                assert(ops@ =~= csr_ops(update_ops@, s as int) + ops_reading(update_ops@.subrange(0, i as int), s as int));
            }
            assert(update_ops@.subrange(0, update_ops@.len() as int) =~= update_ops@);
            s = s + 1;
        }
        proof {
            lemma_csr_len(update_ops@, num_slots as int);
        }
        offsets.push(ops.len() as u32);
        let t = DepTable { offsets, ops };
        proof {
            assert forall|s: int| 0 <= s < num_slots implies t.offsets@[s] <= #[trigger] t.offsets@[s + 1]
                <= t.ops@.len() && t.ops@.subrange(t.offsets@[s] as int, t.offsets@[s + 1] as int)
                == ops_reading(update_ops@, s) by {
                lemma_csr_prefix(update_ops@, s + 1, num_slots as int);
                lemma_csr_len(update_ops@, s);
                lemma_csr_len(update_ops@, s + 1);
                assert(csr_ops(update_ops@, s + 1) == csr_ops(update_ops@, s) + ops_reading(update_ops@, s));
                assert(t.ops@.subrange(0, csr_ops(update_ops@, s + 1).len() as int) == csr_ops(update_ops@, s + 1));
                assert(t.ops@.subrange(t.offsets@[s] as int, t.offsets@[s + 1] as int) =~= csr_ops(update_ops@, s + 1).subrange(
                    csr_ops(update_ops@, s).len() as int,
                    csr_ops(update_ops@, s + 1).len() as int,
                ));
            }
        }
        t
    }

    /// The update operations that read `slot`.
    pub fn ops_for(&self, slot: SlotId) -> (r: &[u32])
        requires
            (slot.0 as int) + 1 < self.offsets@.len(),
            self.offsets@[slot.0 as int] <= self.offsets@[slot.0 + 1] <= self.ops@.len(),
        ensures
            r@ == dep_ops(*self, slot.0 as int),
    {
        let n = self.offsets.len();
        let i = slot.0 as usize;
        assert(i + 1 < n);
        let start = self.offsets[i] as usize;
        let end = self.offsets[i + 1] as usize;
        &self.ops.as_slice()[start..end]
    }
}

proof fn lemma_csr_prefix(ops: Seq<UpdateOp>, a: int, b: int)
    requires
        0 <= a <= b,
    ensures
        csr_ops(ops, b).subrange(0, csr_ops(ops, a).len() as int) == csr_ops(ops, a),
        csr_ops(ops, a).len() <= csr_ops(ops, b).len(),
    decreases b - a,
{
    if a < b {
        lemma_csr_prefix(ops, a, b - 1);
        assert(csr_ops(ops, b).subrange(0, csr_ops(ops, a).len() as int) =~= csr_ops(ops, b - 1).subrange(
            0,
            csr_ops(ops, a).len() as int,
        ));
    }
}

/// Each slot's entries in the table are exactly the operations reading it:
/// an index is listed if and only if that operation reads the slot, and the
/// indices come in ascending order.
pub proof fn lemma_ops_reading_exact(ops: Seq<UpdateOp>, s: int, i: int)
    requires
        ops.len() <= u32::MAX + 1,
    ensures
        (0 <= i < ops.len() && count_slot(ops[i].reads@, s) > 0) <==> ops_reading(ops, s).contains(i as u32) && 0 <= i < ops.len(),
        forall|a: int, b: int|
            0 <= a < b < ops_reading(ops, s).len() ==> ops_reading(ops, s)[a] <= ops_reading(ops, s)[b],
        forall|a: int| 0 <= a < ops_reading(ops, s).len() ==> ops_reading(ops, s)[a] < ops.len(),
    decreases ops.len(),
{
    if ops.len() > 0 {
        let pre = ops.drop_last();
        lemma_ops_reading_exact(pre, s, i);
        let last = (ops.len() - 1) as u32;
        let tail = Seq::new(count_slot(ops.last().reads@, s), |j: int| last);
        let whole = ops_reading(ops, s);
        assert(whole == ops_reading(pre, s) + tail);
        if 0 <= i < ops.len() {
            if i == ops.len() - 1 {
                if count_slot(ops[i].reads@, s) > 0 {
                    assert(whole[ops_reading(pre, s).len() as int] == i as u32);
                } else {
                    assert(!whole.contains(i as u32)) by {
                        if whole.contains(i as u32) {
                            let k = choose|k: int| 0 <= k < whole.len() && whole[k] == i as u32;
                            assert(k < ops_reading(pre, s).len());
                        }
                    }
                }
            } else {
                assert(ops[i] == pre[i]);
                if ops_reading(pre, s).contains(i as u32) {
                    let k = choose|k: int| 0 <= k < ops_reading(pre, s).len() && ops_reading(pre, s)[k] == i as u32;
                    assert(whole[k] == i as u32);
                }
                if whole.contains(i as u32) {
                    let k = choose|k: int| 0 <= k < whole.len() && whole[k] == i as u32;
                    assert(k < ops_reading(pre, s).len());
                    assert(ops_reading(pre, s)[k] == i as u32);
                }
            }
        }
    }
}

} // verus!
