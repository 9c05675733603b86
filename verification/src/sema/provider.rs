//! Slot tables and `@provider` lowering: providers' state becomes slots of the
//! screens that inject them, and their actions become compiled actions whose
//! writes are known at compile time.

use vstd::prelude::*;
use crate::ast::{
    ast_wf, stmt_refs_ok, arenas_of, ActionDef, AssignOp as AstAssignOp, Ast, Expr, ExprId as AstExprId,
    HandlerId as AstHandlerId, IncDecOp, Item, ProviderDef, ProviderScope, Stmt,
};
use crate::ir::{AssignOp, CompiledAction, HandlerBody, IrExpr, ProviderIr, ProviderScope as IrProviderScope, SlotId};
use crate::sema::builtins::{resolve_type, type_of};
use crate::sema::{
    body_ok, bodies_ok, float_of, lemma_lowered_below, lowers_to, name_text, slot_or_error, slots_below, unknown_variable,
    Compiler, DiagView, FloatValue, LowerCtx, ctx_ok,
};
use crate::ir::{SlotDef, TypeKind};
use crate::num::float_view;
use crate::span::{Interner, Symbol};

verus! {

/// Names a slot: field `field` of the provider injected as `prefix`, or the
/// screen's own state field `field` when `prefix` is `None`.
#[derive(Clone, Copy, Debug, PartialEq, Eq, Structural)]
pub struct SlotKey {
    pub prefix: Option<Symbol>,
    pub field: Symbol,
}

/// One registration in a slot table.
#[derive(Clone, Copy, Debug)]
pub struct SlotEntry {
    pub key: SlotKey,
    pub slot: SlotId,
}

/// The slot registered last under `k`, if any: a later registration of the
/// same key replaces an earlier one.
pub open spec fn lookup(entries: Seq<SlotEntry>, k: SlotKey) -> Option<SlotId>
    decreases entries.len(),
{
    if entries.len() == 0 {
        None
    } else if entries.last().key == k {
        Some(entries.last().slot)
    } else {
        lookup(entries.drop_last(), k)
    }
}

/// A slot found in `entries` is one of their slots.
pub proof fn lemma_lookup_in(entries: Seq<SlotEntry>, k: SlotKey, n: int)
    requires
        forall|i: int| 0 <= i < entries.len() ==> (#[trigger] entries[i]).slot.0 < n,
    ensures
        lookup(entries, k) matches Some(s) ==> s.0 < n,
    decreases entries.len(),
{
    if entries.len() > 0 && entries.last().key != k {
        lemma_lookup_in(entries.drop_last(), k, n);
    }
}

/// The slot registered last under `k` in `entries`.
pub fn find_slot(entries: &Vec<SlotEntry>, k: SlotKey) -> (r: Option<SlotId>)
    ensures
        r == lookup(entries@, k),
{
    let mut i: usize = entries.len();
    assert(entries@.take(i as int) =~= entries@);
    while i > 0
        invariant
            i <= entries@.len(),
            lookup(entries@, k) == lookup(entries@.take(i as int), k),
        decreases i,
    {
        proof {
            assert(entries@.take(i as int).drop_last() =~= entries@.take(i - 1));
        }
        if entries[i - 1].key == k {
            return Some(entries[i - 1].slot);
        }
        i = i - 1;
    }
    None
}

/// The slot a path names: `name` is a screen state field, `inject.field` a
/// field of an injected provider; longer paths name nothing.
pub open spec fn path_slot(entries: Seq<SlotEntry>, path: Seq<Symbol>) -> Option<SlotId> {
    if path.len() == 1 {
        lookup(entries, SlotKey { prefix: None, field: path[0] })
    } else if path.len() == 2 {
        lookup(entries, SlotKey { prefix: Some(path[0]), field: path[1] })
    } else {
        None
    }
}

/// The slot `path` names in the table `entries`.
pub fn resolve_path_readonly(entries: &Vec<SlotEntry>, path: &Vec<Symbol>) -> (r: Option<SlotId>)
    ensures
        r == path_slot(entries@, path@),
{
    if path.len() == 1 {
        find_slot(entries, SlotKey { prefix: None, field: path[0] })
    } else if path.len() == 2 {
        find_slot(entries, SlotKey { prefix: Some(path[0]), field: path[1] })
    } else {
        None
    }
}

/// The slot an assignment target in an action of the provider injected as
/// `prefix` names: a bare name is a field of that provider.
pub open spec fn action_path_slot(entries: Seq<SlotEntry>, path: Seq<Symbol>, prefix: Option<Symbol>) -> Option<SlotId> {
    if path.len() == 1 {
        lookup(entries, SlotKey { prefix: prefix, field: path[0] })
    } else {
        path_slot(entries, path)
    }
}

pub fn resolve_action_path(entries: &Vec<SlotEntry>, path: &Vec<Symbol>, prefix: Option<Symbol>) -> (r: Option<SlotId>)
    ensures
        r == action_path_slot(entries@, path@, prefix),
{
    if path.len() == 1 {
        find_slot(entries, SlotKey { prefix: prefix, field: path[0] })
    } else {
        resolve_path_readonly(entries, path)
    }
}

/// The key an assignment target writes, inside an action of the provider
/// injected as `prefix`.
pub open spec fn lvalue_key(path: Seq<Symbol>, prefix: Option<Symbol>) -> Option<SlotKey> {
    if path.len() == 1 {
        Some(SlotKey { prefix: prefix, field: path[0] })
    } else if path.len() == 2 {
        Some(SlotKey { prefix: Some(path[0]), field: path[1] })
    } else {
        None
    }
}

pub fn lvalue_to_slot_key(path: &Vec<Symbol>, inject_prefix: Option<Symbol>) -> (r: Option<SlotKey>)
    ensures
        r == lvalue_key(path@, inject_prefix),
{
    if path.len() == 0 {
        return None;
    }
    if path.len() == 1 {
        return Some(SlotKey { prefix: inject_prefix, field: path[0] });
    }
    if path.len() == 2 {
        return Some(SlotKey { prefix: Some(path[0]), field: path[1] });
    }
    None
}

/// The order keys are listed in: by prefix (none first), then by field.
pub open spec fn prefix_rank(p: Option<Symbol>) -> int {
    match p {
        Some(s) => s.0 as int,
        None => -1,
    }
}

pub open spec fn key_lt(a: SlotKey, b: SlotKey) -> bool {
    prefix_rank(a.prefix) < prefix_rank(b.prefix) || (prefix_rank(a.prefix) == prefix_rank(b.prefix)
        && a.field.0 < b.field.0)
}

pub open spec fn keys_sorted(s: Seq<SlotKey>) -> bool {
    forall|i: int, j: int| 0 <= i < j < s.len() ==> key_lt(#[trigger] s[i], #[trigger] s[j])
}

/// The keys for which `p` holds, in key order.
pub open spec fn sorted_keys(p: spec_fn(SlotKey) -> bool) -> Seq<SlotKey> {
    choose|r: Seq<SlotKey>| keys_sorted(r) && forall|k: SlotKey| #[trigger] r.contains(k) <==> p(k)
}

proof fn lemma_key_total(a: SlotKey, b: SlotKey)
    ensures
        !key_lt(a, a),
        !(key_lt(a, b) && key_lt(b, a)),
        a != b ==> key_lt(a, b) || key_lt(b, a),
{
    if a != b && prefix_rank(a.prefix) == prefix_rank(b.prefix) {
        match (a.prefix, b.prefix) {
            (Some(x), Some(y)) => {
                assert(x.0 == y.0);
                assert(x == y);
            },
            _ => {},
        }
    }
}

/// Two key-ordered lists with the same keys are equal.
pub proof fn lemma_keys_unique(a: Seq<SlotKey>, b: Seq<SlotKey>)
    requires
        keys_sorted(a),
        keys_sorted(b),
        forall|k: SlotKey| a.contains(k) <==> b.contains(k),
    ensures
        a == b,
    decreases a.len(),
{
    if a.len() == 0 {
        if b.len() > 0 {
            assert(b.contains(b[0]));
        }
        assert(a =~= b);
    } else {
        assert(a.contains(a[0]));
        assert(b.contains(b[0]));
        let j = choose|j: int| 0 <= j < b.len() && b[j] == a[0];
        let i = choose|i: int| 0 <= i < a.len() && a[i] == b[0];
        if i > 0 && j > 0 {
            assert(key_lt(a[0], a[i]));
            assert(key_lt(b[0], b[j]));
            lemma_key_total(a[0], b[0]);
        }
        assert(a[0] == b[0]);
        let ta = a.drop_first();
        let tb = b.drop_first();
        assert forall|k: SlotKey| ta.contains(k) <==> tb.contains(k) by {
            if ta.contains(k) {
                let m = choose|m: int| 0 <= m < ta.len() && ta[m] == k;
                assert(a[m + 1] == k);
                assert(key_lt(a[0], a[m + 1]));
                lemma_key_total(a[0], k);
                assert(a.contains(k));
                let l = choose|l: int| 0 <= l < b.len() && b[l] == k;
                assert(l != 0);
                assert(tb[l - 1] == k);
            }
            if tb.contains(k) {
                let m = choose|m: int| 0 <= m < tb.len() && tb[m] == k;
                assert(b[m + 1] == k);
                assert(key_lt(b[0], b[m + 1]));
                lemma_key_total(b[0], k);
                assert(b.contains(k));
                let l = choose|l: int| 0 <= l < a.len() && a[l] == k;
                assert(l != 0);
                assert(ta[l - 1] == k);
            }
        }
        lemma_keys_unique(ta, tb);
        assert(a =~= b) by {
            assert forall|m: int| 0 <= m < a.len() implies a[m] == b[m] by {
                if m > 0 {
                    assert(a[m] == ta[m - 1]);
                }
            }
        }
    }
}

fn key_less(a: SlotKey, b: SlotKey) -> (r: bool)
    ensures
        r == key_lt(a, b),
{
    match (a.prefix, b.prefix) {
        (None, None) => a.field.0 < b.field.0,
        (None, Some(_)) => true,
        (Some(_), None) => false,
        (Some(x), Some(y)) => x.0 < y.0 || (x.0 == y.0 && a.field.0 < b.field.0),
    }
}

/// Adds `k` to the ordered key list `v` unless it is there.
#[verifier::spinoff_prover]
fn insert_key(v: &mut Vec<SlotKey>, k: SlotKey)
    requires
        keys_sorted(old(v)@),
    ensures
        keys_sorted(final(v)@),
        forall|x: SlotKey| #[trigger] final(v)@.contains(x) <==> (old(v)@.contains(x) || x == k),
{
    let mut i: usize = 0;
    while i < v.len() && key_less(v[i], k)
        invariant
            i <= v@.len(),
            v@ == old(v)@,
            keys_sorted(v@),
            forall|j: int| 0 <= j < i ==> key_lt(#[trigger] v@[j], k),
        decreases v@.len() - i,
    {
        i = i + 1;
    }
    if i < v.len() && v[i] == k {
        return;
    }
    let ghost old_v = v@;
    proof {
        if i < old_v.len() {
            assert(!key_lt(old_v[i as int], k));
            assert(old_v[i as int] != k);
            assert(key_lt(k, old_v[i as int]));
            assert forall|j: int| i <= j < old_v.len() implies key_lt(k, #[trigger] old_v[j]) by {
                if j > i {
                    assert(key_lt(old_v[i as int], old_v[j]));
                }
            }
        }
    }
    v.insert(i, k);
    proof {
        assert forall|a: int, b: int| 0 <= a < b < v@.len() implies key_lt(#[trigger] v@[a], #[trigger] v@[b]) by {
            if b < i {
            } else if b == i {
            } else if a < i {
                assert(v@[b] == old_v[b - 1]);
                assert(key_lt(k, old_v[b - 1]));
            } else if a == i {
                assert(v@[b] == old_v[b - 1]);
            } else {
                assert(v@[a] == old_v[a - 1]);
                assert(v@[b] == old_v[b - 1]);
            }
        }
        assert forall|x: SlotKey| v@.contains(x) <==> (old_v.contains(x) || x == k) by {
            if v@.contains(x) {
                let j = choose|j: int| 0 <= j < v@.len() && v@[j] == x;
                if j < i {
                    assert(old_v[j] == x);
                } else if j > i {
                    assert(old_v[j - 1] == x);
                }
            }
            if old_v.contains(x) {
                let j = choose|j: int| 0 <= j < old_v.len() && old_v[j] == x;
                if j < i {
                    assert(v@[j] == x);
                } else {
                    assert(v@[j + 1] == x);
                }
            }
            if x == k {
                assert(v@[i as int] == k);
            }
        }
    }
}

/// The keys the statement `st` assigns, in an action of the provider injected
/// as `prefix`; statements under `if` count on both branches.
pub open spec fn stmt_writes(st: Stmt, prefix: Option<Symbol>, k: SlotKey) -> bool
    decreases st,
{
    match st {
        Stmt::Assign { target, .. } => lvalue_key(target.path@, prefix) == Some(k),
        Stmt::IncDec { target, .. } => lvalue_key(target.path@, prefix) == Some(k),
        Stmt::If { then_, else_, .. } => (exists|i: int| 0 <= i < then_@.len() && stmt_writes(#[trigger] then_@[i], prefix, k))
            || match else_ {
            Some(e) => exists|i: int| 0 <= i < e@.len() && stmt_writes(#[trigger] e@[i], prefix, k),
            None => false,
        },
        _ => false,
    }
}

pub open spec fn stmts_write(sts: Seq<Stmt>, prefix: Option<Symbol>, k: SlotKey) -> bool {
    exists|i: int| 0 <= i < sts.len() && stmt_writes(#[trigger] sts[i], prefix, k)
}

#[verifier::loop_isolation(false)]
fn collect_stmt_writes(stmt: &Stmt, prefix: Option<Symbol>, out: &mut Vec<SlotKey>)
    requires
        keys_sorted(old(out)@),
    ensures
        keys_sorted(final(out)@),
        forall|x: SlotKey| #[trigger] final(out)@.contains(x) <==> (old(out)@.contains(x) || stmt_writes(*stmt, prefix, x)),
    decreases stmt,
{
    match stmt {
        Stmt::Assign { target, .. } => {
            if let Some(key) = lvalue_to_slot_key(&target.path, prefix) {
                insert_key(out, key);
            }
        },
        Stmt::IncDec { target, .. } => {
            if let Some(key) = lvalue_to_slot_key(&target.path, prefix) {
                insert_key(out, key);
            }
        },
        Stmt::If { then_, else_, .. } => {
            let ghost start = out@;
            let mut i: usize = 0;
            while i < then_.len()
                invariant
                    i <= then_@.len(),
                    keys_sorted(out@),
                    forall|x: SlotKey| #[trigger] out@.contains(x) <==> (start.contains(x) || stmts_write(then_@.take(i as int), prefix, x)),
                decreases then_@.len() - i,
            {
                let ghost before = out@;
                collect_stmt_writes(&then_[i], prefix, out);
                proof {
                    lemma_writes_take_step(then_@, i as int, prefix);
                }
                i = i + 1;
            }
            assert(then_@.take(then_@.len() as int) =~= then_@);
            let ghost mid = out@;
            match else_ {
                Some(els) => {
                    let mut j: usize = 0;
                    while j < els.len()
                        invariant
                            j <= els@.len(),
                            keys_sorted(out@),
                            forall|x: SlotKey| #[trigger] out@.contains(x) <==> (mid.contains(x) || stmts_write(els@.take(j as int), prefix, x)),
                        decreases els@.len() - j,
                    {
                        collect_stmt_writes(&els[j], prefix, out);
                        proof {
                            lemma_writes_take_step(els@, j as int, prefix);
                        }
                        j = j + 1;
                    }
                    assert(els@.take(els@.len() as int) =~= els@);
                },
                None => {},
            }
            proof {
                assert forall|x: SlotKey| #[trigger] out@.contains(x) <==> (start.contains(x) || stmt_writes(*stmt, prefix, x)) by {
                    if stmts_write(then_@, prefix, x) {
                        let i = choose|i: int| 0 <= i < then_@.len() && stmt_writes(#[trigger] then_@[i], prefix, x);
                        assert(stmt_writes(then_@[i], prefix, x));
                    }
                    match else_ {
                        Some(e) => {
                            if stmts_write(e@, prefix, x) {
                                let i = choose|i: int| 0 <= i < e@.len() && stmt_writes(#[trigger] e@[i], prefix, x);
                                assert(stmt_writes(e@[i], prefix, x));
                            }
                        },
                        None => {},
                    }
                }
            }
        },
        _ => {},
    }
}

/// Taking one more statement adds what it writes.
proof fn lemma_writes_take_step(sts: Seq<Stmt>, i: int, prefix: Option<Symbol>)
    requires
        0 <= i < sts.len(),
    ensures
        forall|x: SlotKey| stmts_write(sts.take(i + 1), prefix, x) <==> (stmts_write(sts.take(i), prefix, x)
            || stmt_writes(sts[i], prefix, x)),
{
    assert forall|x: SlotKey| stmts_write(sts.take(i + 1), prefix, x) <==> (stmts_write(sts.take(i), prefix, x)
        || stmt_writes(sts[i], prefix, x)) by {
        let t = sts.take(i);
        let t1 = sts.take(i + 1);
        if stmts_write(t, prefix, x) {
            let j = choose|j: int| 0 <= j < t.len() && stmt_writes(#[trigger] t[j], prefix, x);
            assert(t1[j] == t[j]);
        }
        if stmt_writes(sts[i], prefix, x) {
            assert(t1[i] == sts[i]);
        }
        if stmts_write(t1, prefix, x) {
            let j = choose|j: int| 0 <= j < t1.len() && stmt_writes(#[trigger] t1[j], prefix, x);
            if j < i {
                assert(t[j] == t1[j]);
            }
        }
    }
}

/// The keys an action body assigns, each once, in key order.
pub fn infer_action_writes(ast: &Ast, handler_id: crate::ast::HandlerId, provider_prefix: Option<Symbol>) -> (r: Vec<SlotKey>)
    requires
        (handler_id.0 as int) < ast.handlers@.len(),
    ensures
        keys_sorted(r@),
        forall|x: SlotKey| #[trigger] r@.contains(x) <==> stmts_write(ast.handlers@[handler_id.0 as int].stmts@, provider_prefix, x),
        r@ == sorted_keys(|x: SlotKey| stmts_write(ast.handlers@[handler_id.0 as int].stmts@, provider_prefix, x)),
{
    let handler = &ast.handlers[handler_id.0 as usize];
    let mut writes: Vec<SlotKey> = Vec::new();
    let mut i: usize = 0;
    while i < handler.stmts.len()
        invariant
            i <= handler.stmts@.len(),
            keys_sorted(writes@),
            forall|x: SlotKey| #[trigger] writes@.contains(x) <==> stmts_write(handler.stmts@.take(i as int), provider_prefix, x),
        decreases handler.stmts@.len() - i,
    {
        collect_stmt_writes(&handler.stmts[i], provider_prefix, &mut writes);
        proof {
            lemma_writes_take_step(handler.stmts@, i as int, provider_prefix);
        }
        i = i + 1;
    }
    assert(handler.stmts@.take(handler.stmts@.len() as int) =~= handler.stmts@);
    proof {
        let p = |x: SlotKey| stmts_write(handler.stmts@, provider_prefix, x);
        let c = sorted_keys(p);
        assert(keys_sorted(writes@) && forall|k: SlotKey| #[trigger] writes@.contains(k) <==> p(k));
        assert(keys_sorted(c) && forall|k: SlotKey| #[trigger] c.contains(k) <==> p(k));
        lemma_keys_unique(c, writes@);
    }
    writes
}

/// The index of the last provider item named `name` among `items`, if any.
pub open spec fn provider_item(items: Seq<Item>, name: Symbol) -> Option<int>
    decreases items.len(),
{
    if items.len() == 0 {
        None
    } else if items.last() matches Item::Provider(p) && p.name == name {
        Some(items.len() - 1)
    } else {
        provider_item(items.drop_last(), name)
    }
}

pub proof fn lemma_provider_item(items: Seq<Item>, name: Symbol)
    ensures
        provider_item(items, name) matches Some(i) ==> (0 <= i < items.len() && (items[i] matches Item::Provider(p)
            && p.name == name)),
    decreases items.len(),
{
    if items.len() > 0 && !(items.last() matches Item::Provider(p) && p.name == name) {
        lemma_provider_item(items.drop_last(), name);
    }
}

/// The providers of a file, by name; a later provider of the same name
/// replaces an earlier one.
pub struct ProviderIndex {
    /// Indices of the provider items, in file order.
    pub providers: Vec<usize>,
}

/// `pi` lists exactly the provider items of `items`, in order.
pub open spec fn indexes(pi: ProviderIndex, items: Seq<Item>) -> bool {
    &&& forall|k: int| 0 <= k < pi.providers@.len() ==> (#[trigger] pi.providers@[k] as int) < items.len()
        && items[pi.providers@[k] as int] is Provider
    &&& forall|k: int, l: int| 0 <= k < l < pi.providers@.len() ==> #[trigger] pi.providers@[k] < #[trigger] pi.providers@[l]
    &&& forall|i: int| 0 <= i < items.len() && items[i] is Provider ==> #[trigger] pi.providers@.contains(i as usize)
}

pub open spec fn provider_named(it: Item, name: Symbol) -> bool {
    it matches Item::Provider(p) && p.name == name
}

/// The last provider named `name` is the one at `i`, if there is one at `i`
/// and none after it; there is none if no item is one.
proof fn lemma_provider_item_at(items: Seq<Item>, name: Symbol, i: int)
    requires
        -1 <= i < items.len(),
        i >= 0 ==> provider_named(items[i], name),
        forall|j: int| i < j < items.len() ==> !provider_named(#[trigger] items[j], name),
    ensures
        provider_item(items, name) == if i >= 0 { Some(i) } else { None::<int> },
    decreases items.len(),
{
    if items.len() > 0 && items.len() - 1 != i {
        assert(!provider_named(items[items.len() - 1], name));
        let t = items.drop_last();
        assert forall|j: int| i < j < t.len() implies !provider_named(#[trigger] t[j], name) by {
            assert(t[j] == items[j]);
        }
        if i >= 0 {
            assert(t[i] == items[i]);
        }
        lemma_provider_item_at(t, name, i);
    }
}

impl ProviderIndex {
    /// The item index of the last provider named `name`.
    pub fn get(&self, ast: &Ast, name: Symbol) -> (r: Option<usize>)
        requires
            indexes(*self, ast.items@),
        ensures
            r matches Some(i) ==> provider_item(ast.items@, name) == Some(i as int),
            r is None ==> provider_item(ast.items@, name) is None,
    {
        let n = ast.items.len();
        let mut k: usize = self.providers.len();
        while k > 0
            invariant
                k <= self.providers@.len(),
                n == ast.items@.len(),
                indexes(*self, ast.items@),
                forall|j: int| k <= j < self.providers@.len() ==> !provider_named(ast.items@[#[trigger] self.providers@[j] as int], name),
            decreases k,
        {
            let i = self.providers[k - 1];
            if let Item::Provider(p) = &ast.items[i] {
                if p.name == name {
                    proof {
                        assert forall|j: int| i < j < ast.items@.len() implies !provider_named(#[trigger] ast.items@[j], name) by {
                            if provider_named(ast.items@[j], name) {
                                assert(self.providers@.contains(j as usize));
                                let l = choose|l: int| 0 <= l < self.providers@.len() && self.providers@[l] == j as usize;
                                assert(self.providers@[l] as int == j);
                                if l < k - 1 {
                                    assert(self.providers@[l] < self.providers@[k - 1]);
                                } else if l == k - 1 {
                                    assert(self.providers@[l] == i);
                                } else {
                                    assert(!provider_named(ast.items@[self.providers@[l] as int], name));
                                }
                            }
                        }
                        lemma_provider_item_at(ast.items@, name, i as int);
                    }
                    return Some(i);
                }
            }
            k = k - 1;
        }
        proof {
            assert forall|j: int| -1 < j < ast.items@.len() implies !provider_named(#[trigger] ast.items@[j], name) by {
                if provider_named(ast.items@[j], name) {
                    assert(self.providers@.contains(j as usize));
                    let l = choose|l: int| 0 <= l < self.providers@.len() && self.providers@[l] == j as usize;
                    assert(self.providers@[l] as int == j);
                    assert(!provider_named(ast.items@[self.providers@[l] as int], name));
                }
            }
            lemma_provider_item_at(ast.items@, name, -1);
        }
        None
    }

    pub fn from_ast(ast: &Ast) -> (r: ProviderIndex)
        ensures
            indexes(r, ast.items@),
    {
        let mut providers: Vec<usize> = Vec::new();
        let mut i: usize = 0;
        while i < ast.items.len()
            invariant
                i <= ast.items@.len(),
                forall|k: int| 0 <= k < providers@.len() ==> (#[trigger] providers@[k] as int) < i
                    && ast.items@[providers@[k] as int] is Provider,
                forall|k: int, l: int| 0 <= k < l < providers@.len() ==> #[trigger] providers@[k] < #[trigger] providers@[l],
                forall|j: int| 0 <= j < i && ast.items@[j] is Provider ==> #[trigger] providers@.contains(j as usize),
            decreases ast.items@.len() - i,
        {
            if let Item::Provider(_) = &ast.items[i] {
                let ghost before = providers@;
                providers.push(i);
                proof {
                    assert(providers@[before.len() as int] == i);
                    assert forall|j: int| 0 <= j < i + 1 && ast.items@[j] is Provider implies #[trigger] providers@.contains(j as usize) by {
                        if j < i {
                            assert(before.contains(j as usize));
                            let k = choose|k: int| 0 <= k < before.len() && before[k] == j as usize;
                            assert(providers@[k] == j as usize);
                        } else {
                            assert(providers@[before.len() as int] == j as usize);
                        }
                    }
                }
            }
            i = i + 1;
        }
        ProviderIndex { providers }
    }
}

/// The IR summary of a provider: its name, scope, state fields and actions.
pub fn lower_provider_item(provider: &ProviderDef) -> (r: ProviderIr)
    ensures
        r.name == provider.name,
        r.scope == match provider.scope {
            ProviderScope::Screen => IrProviderScope::Screen,
            ProviderScope::App => IrProviderScope::App,
            ProviderScope::Family => IrProviderScope::Family,
        },
        r.state_fields@ == provider.states@.map_values(|s: crate::ast::StateDef| s.name),
        r.actions@ == provider.actions@.map_values(|a: crate::ast::ActionDef| a.name),
{
    let scope = match provider.scope {
        ProviderScope::Screen => IrProviderScope::Screen,
        ProviderScope::App => IrProviderScope::App,
        ProviderScope::Family => IrProviderScope::Family,
    };
    let mut state_fields: Vec<Symbol> = Vec::new();
    let mut i: usize = 0;
    while i < provider.states.len()
        invariant
            i <= provider.states@.len(),
            state_fields@ == provider.states@.take(i as int).map_values(|s: crate::ast::StateDef| s.name),
        decreases provider.states@.len() - i,
    {
        state_fields.push(provider.states[i].name);
        proof {
            assert(provider.states@.take(i + 1) =~= provider.states@.take(i as int).push(provider.states@[i as int]));
        }
        i = i + 1;
    }
    assert(provider.states@.take(provider.states@.len() as int) =~= provider.states@);
    let mut actions: Vec<Symbol> = Vec::new();
    let mut j: usize = 0;
    while j < provider.actions.len()
        invariant
            j <= provider.actions@.len(),
            actions@ == provider.actions@.take(j as int).map_values(|a: crate::ast::ActionDef| a.name),
        decreases provider.actions@.len() - j,
    {
        actions.push(provider.actions[j].name);
        proof {
            assert(provider.actions@.take(j + 1) =~= provider.actions@.take(j as int).push(provider.actions@[j as int]));
        }
        j = j + 1;
    }
    assert(provider.actions@.take(provider.actions@.len() as int) =~= provider.actions@);
    ProviderIr { name: provider.name, scope, state_fields, actions }
}

/// The text of `sym` in `strs`, or nothing for a symbol outside the table.
pub open spec fn sym_text(strs: Seq<Seq<u8>>, sym: Symbol) -> Seq<u8> {
    if (sym.0 as int) < strs.len() {
        strs[sym.0 as int]
    } else {
        Seq::empty()
    }
}

pub fn text_of(interner: &Interner, sym: Symbol) -> (t: &[u8])
    ensures
        t@ == sym_text(interner@, sym),
{
    if (sym.0 as usize) < interner.len() {
        interner.get(sym)
    } else {
        let none: &[u8] = &[];
        assert(none@ =~= Seq::<u8>::empty());
        none
    }
}

/// The display name of a slot: `prefix.field` for a provider field, the field
/// itself for a state field.
pub open spec fn display_text(strs: Seq<Seq<u8>>, key: SlotKey) -> Seq<u8> {
    match key.prefix {
        Some(p) => sym_text(strs, p) + seq![46u8] + sym_text(strs, key.field),
        None => sym_text(strs, key.field),
    }
}

/// The symbol of a slot's display name; a provider field's name is interned.
pub fn slot_display_name(interner: &mut Interner, key: &SlotKey) -> (sym: Symbol)
    requires
        old(interner)@.len() < u32::MAX,
    ensures
        key.prefix is None ==> sym == key.field && final(interner)@ == old(interner)@,
        key.prefix is Some ==> (final(interner)@, sym.0) == crate::span::intern_spec(
            old(interner)@,
            display_text(old(interner)@, *key),
        ),
{
    match key.prefix {
        Some(prefix) => {
            let mut s: Vec<u8> = Vec::new();
            let a = text_of(interner, prefix);
            let mut i: usize = 0;
            while i < a.len()
                invariant
                    i <= a@.len(),
                    s@ == a@.take(i as int),
                decreases a@.len() - i,
            {
                s.push(a[i]);
                proof {
                    assert(a@.take(i + 1) =~= a@.take(i as int).push(a@[i as int]));
                }
                i = i + 1;
            }
            s.push(46u8);
            let b = text_of(interner, key.field);
            let ghost head = s@;
            let mut j: usize = 0;
            while j < b.len()
                invariant
                    j <= b@.len(),
                    s@ == head + b@.take(j as int),
                decreases b@.len() - j,
            {
                s.push(b[j]);
                proof {
                    assert(b@.take(j + 1) =~= b@.take(j as int).push(b@[j as int]));
                    assert(head + b@.take(j + 1) =~= (head + b@.take(j as int)).push(b@[j as int]));
                }
                j = j + 1;
            }
            proof {
                assert(a@.take(a@.len() as int) =~= a@);
                assert(b@.take(b@.len() as int) =~= b@);
                assert(s@ =~= display_text(interner@, *key));
            }
            interner.intern(s.as_slice())
        },
        None => key.field,
    }
}

} // verus!

verus! {

/// What an action statement does.
pub enum ActOp {
    Inc(SlotId),
    Dec(SlotId),
    Assign(SlotId, AstExprId),
    Several(Seq<ActOp>),
}

/// The operation of an action statement, in an action of the provider
/// injected as `prefix`: `++`, `--` and `=` of a slot; an `if` runs the
/// operations of both its branches (one alone, or several in sequence);
/// anything else, or a name that is no slot, does nothing.
pub open spec fn act_op(entries: Seq<SlotEntry>, prefix: Option<Symbol>, st: Stmt) -> Option<ActOp>
    decreases st, 1int,
{
    match st {
        Stmt::IncDec { target, op, .. } => match action_path_slot(entries, target.path@, prefix) {
            Some(s) => Some(if op == IncDecOp::Inc { ActOp::Inc(s) } else { ActOp::Dec(s) }),
            None => None,
        },
        Stmt::Assign { target, op, value, .. } => if op == AstAssignOp::Store {
            match action_path_slot(entries, target.path@, prefix) {
                Some(s) => Some(ActOp::Assign(s, value)),
                None => None,
            }
        } else {
            None
        },
        Stmt::If { then_, else_, .. } => {
            let ops = act_ops(entries, prefix, then_@, 0) + match else_ {
                Some(e) => act_ops(entries, prefix, e@, 0),
                None => Seq::empty(),
            };
            if ops.len() == 0 {
                None
            } else if ops.len() == 1 {
                Some(ops[0])
            } else {
                Some(ActOp::Several(ops))
            }
        },
        _ => None,
    }
}

pub open spec fn opt_seq<T>(o: Option<T>) -> Seq<T> {
    match o {
        Some(x) => seq![x],
        None => Seq::empty(),
    }
}

/// The operations of `sts[i..]`, skipping statements without one.
pub open spec fn act_ops(entries: Seq<SlotEntry>, prefix: Option<Symbol>, sts: Seq<Stmt>, i: int) -> Seq<ActOp>
    decreases sts, 0int, sts.len() - i,
{
    if i < 0 || i >= sts.len() {
        Seq::empty()
    } else {
        opt_seq(act_op(entries, prefix, sts[i])) + act_ops(entries, prefix, sts, i + 1)
    }
}

/// The diagnostics an action statement raises: `UI1003` for `++` or `--` of
/// a name that is no slot.
pub open spec fn act_diags(entries: Seq<SlotEntry>, strs: Seq<Seq<u8>>, prefix: Option<Symbol>, st: Stmt) -> Seq<DiagView>
    decreases st, 1int,
{
    match st {
        Stmt::IncDec { target, .. } => if action_path_slot(entries, target.path@, prefix) is None {
            seq![unknown_variable(strs, target.path@[0], target.span)]
        } else {
            Seq::empty()
        },
        Stmt::If { then_, else_, .. } => act_diags_list(entries, strs, prefix, then_@, 0) + match else_ {
            Some(e) => act_diags_list(entries, strs, prefix, e@, 0),
            None => Seq::empty(),
        },
        _ => Seq::empty(),
    }
}

pub open spec fn act_diags_list(entries: Seq<SlotEntry>, strs: Seq<Seq<u8>>, prefix: Option<Symbol>, sts: Seq<Stmt>, i: int) -> Seq<
    DiagView,
>
    decreases sts, 0int, sts.len() - i,
{
    if i < 0 || i >= sts.len() {
        Seq::empty()
    } else {
        act_diags(entries, strs, prefix, sts[i]) + act_diags_list(entries, strs, prefix, sts, i + 1)
    }
}

/// `b` carries out `op`.
pub open spec fn body_is(b: HandlerBody, op: ActOp, exprs: Seq<Expr>, entries: Seq<SlotEntry>, strs: Seq<Seq<u8>>, floats: Seq<FloatValue>) -> bool
    decreases op,
{
    match op {
        ActOp::Inc(s) => b == HandlerBody::Increment(s),
        ActOp::Dec(s) => b == HandlerBody::Decrement(s),
        ActOp::Assign(s, v) => b matches HandlerBody::Assign { slot, op, value } && slot == s && op == AssignOp::Store
            && lowers_to(value, exprs, entries, strs, floats, v.0 as int),
        ActOp::Several(ops) => b matches HandlerBody::Sequence(xs) && xs@.len() == ops.len() && forall|i: int|
            0 <= i < ops.len() ==> body_is(#[trigger] xs@[i], ops[i], exprs, entries, strs, floats),
    }
}

pub open spec fn bodies_are(xs: Seq<HandlerBody>, ops: Seq<ActOp>, exprs: Seq<Expr>, entries: Seq<SlotEntry>, strs: Seq<Seq<u8>>, floats: Seq<FloatValue>) -> bool {
    &&& xs.len() == ops.len()
    &&& forall|i: int| 0 <= i < xs.len() ==> body_is(#[trigger] xs[i], ops[i], exprs, entries, strs, floats)
}

} // verus!

verus! {

proof fn lemma_bodies_ok(xs: Seq<HandlerBody>, nslots: int, nactions: int, i: int)
    requires
        forall|k: int| 0 <= k < xs.len() ==> body_ok(#[trigger] xs[k], nslots, nactions),
        0 <= i <= xs.len(),
    ensures
        bodies_ok(xs, nslots, nactions, i),
    decreases xs.len() - i,
{
    if i < xs.len() {
        lemma_bodies_ok(xs, nslots, nactions, i + 1);
    }
}

proof fn lemma_bodies_ok_at(xs: Seq<HandlerBody>, nslots: int, nactions: int, i: int, k: int)
    requires
        bodies_ok(xs, nslots, nactions, i),
        0 <= i <= k < xs.len(),
    ensures
        body_ok(xs[k], nslots, nactions),
    decreases k - i,
{
    if i < k {
        lemma_bodies_ok_at(xs, nslots, nactions, i + 1, k);
    }
}

/// A body that invokes no action out of `0..a` invokes none out of `0..b`, `a <= b`.
pub proof fn lemma_body_ok_mono(b: HandlerBody, nslots: int, a: int, c: int)
    requires
        body_ok(b, nslots, a),
        a <= c,
    ensures
        body_ok(b, nslots, c),
    decreases b, 0int,
{
    if let HandlerBody::Sequence(xs) = b {
        lemma_bodies_ok_mono(xs@, nslots, a, c, 0);
    }
}

pub proof fn lemma_bodies_ok_mono(xs: Seq<HandlerBody>, nslots: int, a: int, c: int, i: int)
    requires
        bodies_ok(xs, nslots, a, i),
        a <= c,
    ensures
        bodies_ok(xs, nslots, c, i),
    decreases xs, xs.len() - i,
{
    if 0 <= i < xs.len() {
        lemma_body_ok_mono(xs[i], nslots, a, c);
        lemma_bodies_ok_mono(xs, nslots, a, c, i + 1);
    }
}

proof fn lemma_action_slot_in(entries: Seq<SlotEntry>, path: Seq<Symbol>, prefix: Option<Symbol>, n: int)
    requires
        forall|i: int| 0 <= i < entries.len() ==> (#[trigger] entries[i]).slot.0 < n,
    ensures
        action_path_slot(entries, path, prefix) matches Some(s) ==> s.0 < n,
{
    if path.len() == 1 {
        lemma_lookup_in(entries, SlotKey { prefix: prefix, field: path[0] }, n);
    } else if path.len() == 2 {
        lemma_lookup_in(entries, SlotKey { prefix: Some(path[0]), field: path[1] }, n);
    }
}

/// Lowers the statements `sts` of an action into `ops`, one after another.
#[verifier::loop_isolation(false)]
fn lower_action_list(
    compiler: &mut Compiler,
    ast: &Ast,
    ctx: &LowerCtx,
    sts: &Vec<Stmt>,
    inject_prefix: Option<Symbol>,
    interner: &Interner,
    ops: &mut Vec<HandlerBody>,
    Ghost(done): Ghost<Seq<ActOp>>,
) -> (all: Ghost<Seq<ActOp>>)
    requires
        ast_wf(*ast),
        ctx_ok(*ctx),
        forall|i: int| 0 <= i < sts@.len() ==> stmt_refs_ok(#[trigger] sts@[i], arenas_of(*ast)),
        bodies_are(old(ops)@, done, ast.exprs@, ctx.slot_map@, interner@, old(compiler).float_table()),
        forall|k: int| 0 <= k < old(ops)@.len() ==> body_ok(#[trigger] old(ops)@[k], ctx.slots@.len() as int, 0),
    ensures
        all@ == done + act_ops(ctx.slot_map@, inject_prefix, sts@, 0),
        bodies_are(final(ops)@, all@, ast.exprs@, ctx.slot_map@, interner@, old(compiler).float_table()),
        forall|k: int| 0 <= k < final(ops)@.len() ==> body_ok(#[trigger] final(ops)@[k], ctx.slots@.len() as int, 0),
        final(compiler).float_table() == old(compiler).float_table(),
        final(compiler).diags() == old(compiler).diags() + act_diags_list(ctx.slot_map@, interner@, inject_prefix, sts@, 0),
    decreases sts@, 0int,
{
    let ghost entries = ctx.slot_map@;
    let ghost strs = interner@;
    let ghost floats = compiler.float_table();
    let ghost d0 = compiler.diags();
    let ghost mut acc = done;
    let ghost mut dg = Seq::<DiagView>::empty();
    let mut i: usize = 0;
    while i < sts.len()
        invariant
            i <= sts@.len(),
            acc + act_ops(entries, inject_prefix, sts@, i as int) == done + act_ops(entries, inject_prefix, sts@, 0),
            dg + act_diags_list(entries, strs, inject_prefix, sts@, i as int) == act_diags_list(entries, strs, inject_prefix, sts@, 0),
            bodies_are(ops@, acc, ast.exprs@, entries, strs, floats),
            forall|k: int| 0 <= k < ops@.len() ==> body_ok(#[trigger] ops@[k], ctx.slots@.len() as int, 0),
            compiler.float_table() == floats,
            compiler.diags() == d0 + dg,
        decreases sts@.len() - i,
    {
        let ghost ops0 = ops@;
        let ghost acc0 = acc;
        let r = lower_action_stmt(compiler, ast, ctx, &sts[i], inject_prefix, interner);
        proof {
            assert(act_ops(entries, inject_prefix, sts@, i as int) == opt_seq(act_op(entries, inject_prefix, sts@[i as int]))
                + act_ops(entries, inject_prefix, sts@, i + 1));
            assert(act_diags_list(entries, strs, inject_prefix, sts@, i as int) == act_diags(entries, strs, inject_prefix, sts@[i as int])
                + act_diags_list(entries, strs, inject_prefix, sts@, i + 1));
            acc = acc0 + opt_seq(act_op(entries, inject_prefix, sts@[i as int]));
            assert(acc + act_ops(entries, inject_prefix, sts@, i + 1) =~= acc0 + act_ops(entries, inject_prefix, sts@, i as int));
            let dg0 = dg;
            dg = dg0 + act_diags(entries, strs, inject_prefix, sts@[i as int]);
            assert(dg + act_diags_list(entries, strs, inject_prefix, sts@, i + 1) =~= dg0 + act_diags_list(entries, strs, inject_prefix, sts@, i as int));
            assert(compiler.diags() =~= d0 + dg);
        }
        if let Some(op) = r {
            ops.push(op);
        }
        proof {
            assert forall|k: int| 0 <= k < ops@.len() implies body_is(#[trigger] ops@[k], acc[k], ast.exprs@, entries, strs, floats) by {
                if k < ops0.len() {
                    assert(ops@[k] == ops0[k]);
                    assert(acc[k] == acc0[k]);
                }
            }
            assert forall|k: int| 0 <= k < ops@.len() implies body_ok(#[trigger] ops@[k], ctx.slots@.len() as int, 0) by {
                if k < ops0.len() {
                    assert(ops@[k] == ops0[k]);
                }
            }
        }
        i = i + 1;
    }
    proof {
        assert(act_ops(entries, inject_prefix, sts@, sts@.len() as int) =~= Seq::<ActOp>::empty());
        assert(acc =~= done + act_ops(entries, inject_prefix, sts@, 0));
        assert(act_diags_list(entries, strs, inject_prefix, sts@, sts@.len() as int) =~= Seq::<DiagView>::empty());
        assert(dg =~= act_diags_list(entries, strs, inject_prefix, sts@, 0));
    }
    Ghost(acc)
}

/// Lowers one statement of an action of the provider injected as `inject_prefix`.
pub fn lower_action_stmt(
    compiler: &mut Compiler,
    ast: &Ast,
    ctx: &LowerCtx,
    stmt: &Stmt,
    inject_prefix: Option<Symbol>,
    interner: &Interner,
) -> (r: Option<HandlerBody>)
    requires
        ast_wf(*ast),
        ctx_ok(*ctx),
        stmt_refs_ok(*stmt, arenas_of(*ast)),
    ensures
        final(compiler).float_table() == old(compiler).float_table(),
        final(compiler).diags() == old(compiler).diags() + act_diags(ctx.slot_map@, interner@, inject_prefix, *stmt),
        match act_op(ctx.slot_map@, inject_prefix, *stmt) {
            Some(op) => r matches Some(b) && body_is(b, op, ast.exprs@, ctx.slot_map@, interner@, old(compiler).float_table())
                && body_ok(b, ctx.slots@.len() as int, 0),
            None => r is None,
        },
    decreases *stmt, 1int,
{
    let ghost nslots = ctx.slots@.len() as int;
    let ghost entries = ctx.slot_map@;
    match stmt {
        Stmt::IncDec { target, op, .. } => {
            proof {
                lemma_action_slot_in(entries, target.path@, inject_prefix, nslots);
            }
            match resolve_action_path(&ctx.slot_map, &target.path, inject_prefix) {
                Some(slot) => Some(
                    match op {
                        IncDecOp::Inc => HandlerBody::Increment(slot),
                        IncDecOp::Dec => HandlerBody::Decrement(slot),
                    },
                ),
                None => {
                    compiler.error_ui1003(target.path[0], target.span, interner);
                    None
                },
            }
        },
        Stmt::Assign { target, op, value, .. } => {
            if let AstAssignOp::Store = op {
                proof {
                    lemma_action_slot_in(entries, target.path@, inject_prefix, nslots);
                }
                match resolve_action_path(&ctx.slot_map, &target.path, inject_prefix) {
                    Some(slot) => {
                        let v = compiler.lower_expr(ast, ctx, interner, *value);
                        proof {
                            lemma_lowered_below(v, ast.exprs@, entries, interner@, compiler.float_table(), value.0 as int, nslots);
                        }
                        Some(HandlerBody::Assign { slot, op: AssignOp::Store, value: v })
                    },
                    None => None,
                }
            } else {
                None
            }
        },
        Stmt::If { then_, else_, .. } => {
            let ghost floats = compiler.float_table();
            let mut ops: Vec<HandlerBody> = Vec::new();
            proof {
                assert(decreases_to!(*stmt => (*stmt)->If_then_));
            }
            let Ghost(first) = lower_action_list(compiler, ast, ctx, then_, inject_prefix, interner, &mut ops, Ghost(Seq::empty()));
            let ghost d1 = compiler.diags();
            let ghost all = match else_ {
                Some(e) => first + act_ops(entries, inject_prefix, e@, 0),
                None => first,
            };
            match else_ {
                Some(els) => {
                    let Ghost(both) = lower_action_list(compiler, ast, ctx, els, inject_prefix, interner, &mut ops, Ghost(first));
                    assert(both == all);
                },
                None => {
                    assert(first =~= Seq::<ActOp>::empty() + act_ops(entries, inject_prefix, then_@, 0) + Seq::<ActOp>::empty());
                },
            }
            proof {
                assert(all =~= act_ops(entries, inject_prefix, then_@, 0) + match else_ {
                    Some(e) => act_ops(entries, inject_prefix, e@, 0),
                    None => Seq::<ActOp>::empty(),
                });
                assert(compiler.diags() =~= old(compiler).diags() + act_diags(entries, interner@, inject_prefix, *stmt));
            }
            if ops.len() == 0 {
                None
            } else if ops.len() == 1 {
                let b = ops.remove(0);
                proof {
                    assert(body_is(b, all[0], ast.exprs@, entries, interner@, floats));
                }
                Some(b)
            } else {
                proof {
                    lemma_bodies_ok(ops@, nslots, 0, 0);
                }
                Some(HandlerBody::Sequence(ops))
            }
        },
        _ => None,
    }
}

/// Lowers the body of an action: the operations of its statements, in order.
pub fn lower_action_body(
    compiler: &mut Compiler,
    ast: &Ast,
    ctx: &LowerCtx,
    handler_id: AstHandlerId,
    inject_prefix: Option<Symbol>,
    interner: &Interner,
) -> (r: Vec<HandlerBody>)
    requires
        ast_wf(*ast),
        ctx_ok(*ctx),
        (handler_id.0 as int) < ast.handlers@.len(),
    ensures
        bodies_are(
            r@,
            act_ops(ctx.slot_map@, inject_prefix, ast.handlers@[handler_id.0 as int].stmts@, 0),
            ast.exprs@,
            ctx.slot_map@,
            interner@,
            old(compiler).float_table(),
        ),
        forall|k: int| 0 <= k < r@.len() ==> body_ok(#[trigger] r@[k], ctx.slots@.len() as int, 0),
        final(compiler).float_table() == old(compiler).float_table(),
        final(compiler).diags() == old(compiler).diags() + act_diags_list(
            ctx.slot_map@,
            interner@,
            inject_prefix,
            ast.handlers@[handler_id.0 as int].stmts@,
            0,
        ),
{
    let handler = &ast.handlers[handler_id.0 as usize];
    proof {
        assert(crate::ast::stmts_ok(handler.stmts@, arenas_of(*ast)));
    }
    let mut ops: Vec<HandlerBody> = Vec::new();
    let Ghost(all) = lower_action_list(compiler, ast, ctx, &handler.stmts, inject_prefix, interner, &mut ops, Ghost(Seq::empty()));
    assert(all =~= act_ops(ctx.slot_map@, inject_prefix, handler.stmts@, 0));
    ops
}

} // verus!

verus! {

/// The slots of `keys` that are registered, in the order of the keys.
pub open spec fn keys_slots(entries: Seq<SlotEntry>, keys: Seq<SlotKey>) -> Seq<SlotId>
    decreases keys.len(),
{
    if keys.len() == 0 {
        Seq::empty()
    } else {
        keys_slots(entries, keys.drop_last()) + opt_seq(lookup(entries, keys.last()))
    }
}

/// The slots an action writes: those of the keys it assigns, in key order.
pub open spec fn action_writes(entries: Seq<SlotEntry>, sts: Seq<Stmt>, prefix: Option<Symbol>) -> Seq<SlotId> {
    keys_slots(entries, sorted_keys(|x: SlotKey| stmts_write(sts, prefix, x)))
}

/// `c` is action `a` of provider `provider` compiled for the injection `prefix`.
pub open spec fn action_compiled(
    c: CompiledAction,
    a: ActionDef,
    provider: Symbol,
    prefix: Option<Symbol>,
    ast: Ast,
    entries: Seq<SlotEntry>,
    strs: Seq<Seq<u8>>,
    floats: Seq<FloatValue>,
) -> bool {
    &&& c.name == a.name
    &&& c.provider == Some(provider)
    &&& c.is_async == a.is_async
    &&& (a.handler.0 as int) < ast.handlers@.len()
    &&& c.writes@ == action_writes(entries, ast.handlers@[a.handler.0 as int].stmts@, prefix)
    &&& bodies_are(c.body@, act_ops(entries, prefix, ast.handlers@[a.handler.0 as int].stmts@, 0), ast.exprs@, entries, strs, floats)
}

/// Compiles action `action` of provider `provider_name`, injected as `prefix`.
pub fn compile_one_action(
    compiler: &mut Compiler,
    ast: &Ast,
    ctx: &LowerCtx,
    action: &ActionDef,
    prefix: Option<Symbol>,
    provider_name: Symbol,
    interner: &Interner,
) -> (r: CompiledAction)
    requires
        ast_wf(*ast),
        ctx_ok(*ctx),
        (action.handler.0 as int) < ast.handlers@.len(),
    ensures
        action_compiled(r, *action, provider_name, prefix, *ast, ctx.slot_map@, interner@, old(compiler).float_table()),
        crate::sema::reads_below(r.writes@, ctx.slots@.len() as int),
        bodies_ok(r.body@, ctx.slots@.len() as int, 0, 0),
        final(compiler).float_table() == old(compiler).float_table(),
        final(compiler).diags() == old(compiler).diags() + act_diags_list(
            ctx.slot_map@,
            interner@,
            prefix,
            ast.handlers@[action.handler.0 as int].stmts@,
            0,
        ),
{
    let ghost entries = ctx.slot_map@;
    let ghost nslots = ctx.slots@.len() as int;
    let keys = infer_action_writes(ast, action.handler, prefix);
    let mut writes: Vec<SlotId> = Vec::new();
    let mut i: usize = 0;
    while i < keys.len()
        invariant
            i <= keys@.len(),
            entries == ctx.slot_map@,
            nslots == ctx.slots@.len(),
            ctx_ok(*ctx),
            writes@ == keys_slots(entries, keys@.take(i as int)),
            crate::sema::reads_below(writes@, nslots),
        decreases keys@.len() - i,
    {
        proof {
            assert(keys@.take(i + 1).drop_last() =~= keys@.take(i as int));
            lemma_lookup_in(entries, keys@[i as int], nslots);
        }
        if let Some(s) = find_slot(&ctx.slot_map, keys[i]) {
            writes.push(s);
        }
        proof {
            assert(keys_slots(entries, keys@.take(i + 1)) =~= keys_slots(entries, keys@.take(i as int)) + opt_seq(lookup(entries, keys@[i as int])));
        }
        i = i + 1;
    }
    assert(keys@.take(keys@.len() as int) =~= keys@);
    let body = lower_action_body(compiler, ast, ctx, action.handler, prefix, interner);
    proof {
        lemma_bodies_ok_from(body@, nslots);
    }
    CompiledAction { name: action.name, provider: Some(provider_name), writes, body, is_async: action.is_async }
}

proof fn lemma_bodies_ok_from(xs: Seq<HandlerBody>, nslots: int)
    requires
        forall|k: int| 0 <= k < xs.len() ==> body_ok(#[trigger] xs[k], nslots, 0),
    ensures
        bodies_ok(xs, nslots, 0, 0),
{
    lemma_bodies_ok(xs, nslots, 0, 0);
}

/// The diagnostics compiling the first `k` of the actions `acts` for the
/// injection `prefix` raises, action by action.
pub open spec fn provider_act_diags(
    entries: Seq<SlotEntry>,
    strs: Seq<Seq<u8>>,
    prefix: Option<Symbol>,
    acts: Seq<ActionDef>,
    handlers: Seq<crate::ast::Handler>,
    k: nat,
) -> Seq<DiagView>
    decreases k,
{
    if k == 0 {
        Seq::empty()
    } else {
        provider_act_diags(entries, strs, prefix, acts, handlers, (k - 1) as nat) + act_diags_list(
            entries,
            strs,
            prefix,
            handlers[acts[k - 1].handler.0 as int].stmts@,
            0,
        )
    }
}

/// The actions of `provider`, compiled for its injection as `inject_name`.
pub fn compile_provider_actions(
    compiler: &mut Compiler,
    ast: &Ast,
    ctx: &LowerCtx,
    inject_name: Symbol,
    provider: &ProviderDef,
    interner: &Interner,
) -> (r: Vec<CompiledAction>)
    requires
        ast_wf(*ast),
        ctx_ok(*ctx),
        crate::ast::actions_ok(provider.actions@, arenas_of(*ast)),
    ensures
        r@.len() == provider.actions@.len(),
        forall|k: int| 0 <= k < r@.len() ==> action_compiled(
            #[trigger] r@[k],
            provider.actions@[k],
            provider.name,
            Some(inject_name),
            *ast,
            ctx.slot_map@,
            interner@,
            old(compiler).float_table(),
        ),
        forall|k: int| 0 <= k < r@.len() ==> crate::sema::reads_below((#[trigger] r@[k]).writes@, ctx.slots@.len() as int)
            && bodies_ok(r@[k].body@, ctx.slots@.len() as int, 0, 0),
        final(compiler).float_table() == old(compiler).float_table(),
        final(compiler).diags() == old(compiler).diags() + provider_act_diags(
            ctx.slot_map@,
            interner@,
            Some(inject_name),
            provider.actions@,
            ast.handlers@,
            provider.actions@.len(),
        ),
{
    let mut out: Vec<CompiledAction> = Vec::new();
    let mut i: usize = 0;
    while i < provider.actions.len()
        invariant
            ast_wf(*ast),
            ctx_ok(*ctx),
            crate::ast::actions_ok(provider.actions@, arenas_of(*ast)),
            i <= provider.actions@.len(),
            out@.len() == i,
            compiler.float_table() == old(compiler).float_table(),
            compiler.diags() == old(compiler).diags() + provider_act_diags(
                ctx.slot_map@,
                interner@,
                Some(inject_name),
                provider.actions@,
                ast.handlers@,
                i as nat,
            ),
            forall|k: int| 0 <= k < i ==> action_compiled(
                #[trigger] out@[k],
                provider.actions@[k],
                provider.name,
                Some(inject_name),
                *ast,
                ctx.slot_map@,
                interner@,
                old(compiler).float_table(),
            ),
            forall|k: int| 0 <= k < i ==> crate::sema::reads_below((#[trigger] out@[k]).writes@, ctx.slots@.len() as int)
                && bodies_ok(out@[k].body@, ctx.slots@.len() as int, 0, 0),
        decreases provider.actions@.len() - i,
    {
        let ghost d = compiler.diags();
        assert(crate::ast::params_ok(provider.actions@[i as int].params@, arenas_of(*ast))
            && provider.actions@[i as int].handler.0 < arenas_of(*ast).handlers);
        let c = compile_one_action(compiler, ast, ctx, &provider.actions[i], Some(inject_name), provider.name, interner);
        proof {
            assert(compiler.diags() =~= old(compiler).diags() + provider_act_diags(
                ctx.slot_map@,
                interner@,
                Some(inject_name),
                provider.actions@,
                ast.handlers@,
                (i + 1) as nat,
            ));
        }
        out.push(c);
        i = i + 1;
    }
    out
}

} // verus!

verus! {

impl LowerCtx {
    /// Adds a slot and gives its id.
    pub fn alloc_slot(&mut self, name: Symbol, ty: TypeKind, init: IrExpr) -> (slot: SlotId)
        requires
            old(self).slots@.len() < u32::MAX,
        ensures
            slot.0 == old(self).slots@.len(),
            final(self).slots@ == old(self).slots@.push(SlotDef { name, ty, init }),
            final(self).slot_map@ == old(self).slot_map@,
    {
        alloc_slot(&mut self.slots, name, ty, init)
    }

    /// The slot `path` names.
    pub fn resolve_path(&self, path: &Vec<Symbol>) -> (r: Option<SlotId>)
        ensures
            r == path_slot(self.slot_map@, path@),
    {
        resolve_path_readonly(&self.slot_map, path)
    }
}

/// Adds a slot to `slots` and gives its id.
pub fn alloc_slot(slots: &mut Vec<SlotDef>, name: Symbol, ty: TypeKind, init: IrExpr) -> (slot: SlotId)
    requires
        old(slots)@.len() < u32::MAX,
    ensures
        slot.0 == old(slots)@.len(),
        final(slots)@ == old(slots)@.push(SlotDef { name, ty, init }),
{
    let slot = SlotId(slots.len() as u32);
    slots.push(SlotDef { name, ty, init });
    slot
}

/// `e` is the IR of a state's initial value: literals carry over and a name
/// becomes the state slot it names; anything else is an error.
pub open spec fn readonly_lowers_to(
    e: IrExpr,
    exprs: Seq<Expr>,
    entries: Seq<SlotEntry>,
    strs: Seq<Seq<u8>>,
    floats: Seq<FloatValue>,
    id: int,
) -> bool {
    match exprs[id] {
        Expr::Int(v) => e == IrExpr::Int(v),
        Expr::Float(t) => match float_of(floats, t@) {
            Some(f) => e matches IrExpr::Float(g) && float_view(g) == float_view(f),
            None => e == IrExpr::Error,
        },
        Expr::Bool(b) => e == IrExpr::Bool(b),
        Expr::Str(sym) => e matches IrExpr::Str(s) && s@ == name_text(strs, sym),
        Expr::Ident(sym) => e == slot_or_error(lookup(entries, SlotKey { prefix: None, field: sym })),
        _ => e == IrExpr::Error,
    }
}

impl Compiler {
    /// The IR of a state's initial value, given the slots registered so far.
    pub fn lower_expr_readonly(
        &self,
        ast: &Ast,
        slots: &Vec<SlotDef>,
        slot_map: &Vec<SlotEntry>,
        expr_id: AstExprId,
        interner: &Interner,
    ) -> (e: IrExpr)
        requires
            (expr_id.0 as int) < ast.exprs@.len(),
        ensures
            readonly_lowers_to(e, ast.exprs@, slot_map@, interner@, self.float_table(), expr_id.0 as int),
    {
        let ctx = LowerCtx { slots: Vec::new(), slot_map: Vec::new() };
        match &ast.exprs[expr_id.0 as usize] {
            Expr::Ident(sym) => match find_slot(slot_map, SlotKey { prefix: None, field: *sym }) {
                Some(s) => IrExpr::Slot(s),
                None => IrExpr::Error,
            },
            Expr::Int(_) | Expr::Float(_) | Expr::Bool(_) | Expr::Str(_) => self.lower_literal(ast, expr_id, interner),
            _ => IrExpr::Error,
        }
    }
}

/// The registration of field `field` of the provider injected as `inject` in slot `slot`.
pub open spec fn provider_entry(inject: Symbol, field: Symbol, slot: int) -> SlotEntry {
    SlotEntry { key: SlotKey { prefix: Some(inject), field: field }, slot: SlotId(slot as u32) }
}

/// The slot map and the interner after registering the first `k` of the
/// state fields `states` of a provider injected as `inj`, starting from slot
/// map `e`, interner `s` and slot number `n0`: each field gets the next slot
/// under the key `inj.field`, and its display name `inj.field` is interned.
pub open spec fn reg_fields(
    states: Seq<crate::ast::StateDef>,
    inj: Symbol,
    n0: int,
    e: Seq<SlotEntry>,
    s: Seq<Seq<u8>>,
    k: nat,
) -> (Seq<SlotEntry>, Seq<Seq<u8>>)
    decreases k,
{
    if k == 0 {
        (e, s)
    } else {
        let prev = reg_fields(states, inj, n0, e, s, (k - 1) as nat);
        let key = SlotKey { prefix: Some(inj), field: states[k - 1].name };
        (
            prev.0.push(provider_entry(inj, states[k - 1].name, n0 + k - 1)),
            crate::span::intern_spec(prev.1, display_text(prev.1, key)).0,
        )
    }
}

pub proof fn lemma_reg_fields_len(states: Seq<crate::ast::StateDef>, inj: Symbol, n0: int, e: Seq<SlotEntry>, s: Seq<Seq<u8>>, k: nat)
    ensures
        reg_fields(states, inj, n0, e, s, k).0.len() == e.len() + k,
        s.len() <= reg_fields(states, inj, n0, e, s, k).1.len() <= s.len() + k,
        s.is_prefix_of(reg_fields(states, inj, n0, e, s, k).1),
    decreases k,
{
    if k > 0 {
        lemma_reg_fields_len(states, inj, n0, e, s, (k - 1) as nat);
        let prev = reg_fields(states, inj, n0, e, s, (k - 1) as nat);
        let key = SlotKey { prefix: Some(inj), field: states[k - 1].name };
        let t = crate::span::intern_spec(prev.1, display_text(prev.1, key)).0;
        assert(s.is_prefix_of(t)) by {
            assert forall|j: int| 0 <= j < s.len() implies t[j] == s[j] by {
                assert(prev.1[j] == s[j]);
            }
        }
    }
}

/// Slot `sl` is field `st` of the provider injected as `inj`, registered
/// against slot map `e` and interner `s`: named by the interned display name
/// `inj.field`, of the field's type, and starting at the field's initial value.
pub open spec fn field_slot_ok(
    sl: SlotDef,
    st: crate::ast::StateDef,
    inj: Symbol,
    e: Seq<SlotEntry>,
    s: Seq<Seq<u8>>,
    exprs: Seq<Expr>,
    floats: Seq<FloatValue>,
) -> bool {
    let key = SlotKey { prefix: Some(inj), field: st.name };
    &&& sl.name.0 == crate::span::intern_spec(s, display_text(s, key)).1
    &&& sl.ty == type_of(s, st.ty)
    &&& readonly_lowers_to(sl.init, exprs, e, s, floats, st.init.0 as int)
}

/// Slots `n0 ..` of `slots` are the first `k` fields of `states`, registered
/// for the injection `inj` from slot map `e` and interner `s`.
pub open spec fn fields_slots(
    slots: Seq<SlotDef>,
    states: Seq<crate::ast::StateDef>,
    inj: Symbol,
    n0: int,
    e: Seq<SlotEntry>,
    s: Seq<Seq<u8>>,
    exprs: Seq<Expr>,
    floats: Seq<FloatValue>,
    k: nat,
) -> bool {
    forall|j: int| 0 <= j < k ==> {
        let r = reg_fields(states, inj, n0, e, s, j as nat);
        field_slot_ok(#[trigger] slots[n0 + j], states[j], inj, r.0, r.1, exprs, floats)
    }
}

/// Registers the state fields of `provider`, injected as `inject`, as slots
/// named `inject.field`.
pub fn register_provider_slots(
    compiler: &Compiler,
    ast: &Ast,
    slots: &mut Vec<SlotDef>,
    slot_map: &mut Vec<SlotEntry>,
    inject: &crate::ast::InjectDef,
    provider: &ProviderDef,
    interner: &mut Interner,
)
    requires
        crate::ast::states_ok(provider.states@, arenas_of(*ast)),
        old(slots)@.len() <= u32::MAX,
        forall|i: int| 0 <= i < old(slot_map)@.len() ==> (#[trigger] old(slot_map)@[i]).slot.0 < old(slots)@.len(),
    ensures
        final(slots)@.len() <= u32::MAX,
        forall|i: int| 0 <= i < final(slot_map)@.len() ==> (#[trigger] final(slot_map)@[i]).slot.0 < final(slots)@.len(),
        final(slots)@.take(old(slots)@.len() as int) == old(slots)@,
        final(slot_map)@.take(old(slot_map)@.len() as int) == old(slot_map)@,
        old(interner)@.is_prefix_of(final(interner)@),
        old(slots)@.len() + provider.states@.len() < u32::MAX && old(interner)@.len() + provider.states@.len() < u32::MAX
            ==> {
            let r = reg_fields(
                provider.states@,
                inject.name,
                old(slots)@.len() as int,
                old(slot_map)@,
                old(interner)@,
                provider.states@.len(),
            );
            &&& final(slots)@.len() == old(slots)@.len() + provider.states@.len()
            &&& final(slot_map)@ == r.0
            &&& final(interner)@ == r.1
            &&& fields_slots(
                final(slots)@,
                provider.states@,
                inject.name,
                old(slots)@.len() as int,
                old(slot_map)@,
                old(interner)@,
                ast.exprs@,
                compiler.float_table(),
                provider.states@.len(),
            )
        },
{
    let ghost s0 = slots@;
    let ghost m0 = slot_map@;
    let ghost i0 = interner@;
    let ghost room = s0.len() + provider.states@.len() < u32::MAX && i0.len() + provider.states@.len() < u32::MAX;
    let prefix = Some(inject.name);
    let mut k: usize = 0;
    while k < provider.states.len() && slots.len() < 4294967295usize && interner.len() < 4294967295usize
        invariant
            crate::ast::states_ok(provider.states@, arenas_of(*ast)),
            k <= provider.states@.len(),
            slots@.len() <= u32::MAX,
            s0.len() <= slots@.len(),
            m0.len() <= slot_map@.len(),
            forall|i: int| 0 <= i < slot_map@.len() ==> (#[trigger] slot_map@[i]).slot.0 < slots@.len(),
            slots@.take(s0.len() as int) == s0,
            slot_map@.take(m0.len() as int) == m0,
            i0.is_prefix_of(interner@),
            prefix == Some(inject.name),
            room ==> slots@.len() == s0.len() + k && interner@.len() <= i0.len() + k,
            room ==> slot_map@ == reg_fields(provider.states@, inject.name, s0.len() as int, m0, i0, k as nat).0
                && interner@ == reg_fields(provider.states@, inject.name, s0.len() as int, m0, i0, k as nat).1,
            room ==> fields_slots(slots@, provider.states@, inject.name, s0.len() as int, m0, i0, ast.exprs@, compiler.float_table(), k as nat),
        decreases provider.states@.len() - k,
    {
        let state = &provider.states[k];
        assert(crate::ast::expr_id_ok(provider.states@[k as int].init, arenas_of(*ast)));
        let ty = resolve_type(&state.ty, interner);
        let init = compiler.lower_expr_readonly(ast, slots, slot_map, state.init, interner);
        let key = SlotKey { prefix, field: state.name };
        let ghost ib = interner@;
        let name = slot_display_name(interner, &key);
        proof {
            crate::span::lemma_find_text(ib, display_text(ib, key), 0);
            assert(ib.is_prefix_of(interner@));
        }
        let ghost sb = slots@;
        let ghost mb = slot_map@;
        let slot = alloc_slot(slots, name, ty, init);
        slot_map.push(SlotEntry { key, slot });
        proof {
            assert(slots@.take(s0.len() as int) =~= s0) by {
                assert forall|j: int| 0 <= j < s0.len() implies slots@[j] == s0[j] by {
                    assert(sb.take(s0.len() as int)[j] == s0[j]);
                }
            }
            assert(slot_map@.take(m0.len() as int) =~= m0) by {
                assert forall|j: int| 0 <= j < m0.len() implies slot_map@[j] == m0[j] by {
                    assert(mb.take(m0.len() as int)[j] == m0[j]);
                }
            }
            assert forall|i: int| 0 <= i < slot_map@.len() implies (#[trigger] slot_map@[i]).slot.0 < slots@.len() by {
                if i < mb.len() {
                    assert(slot_map@[i] == mb[i]);
                }
            }
            if room {
                lemma_reg_fields_len(provider.states@, inject.name, s0.len() as int, m0, i0, k as nat);
                assert(slot_map@ =~= reg_fields(provider.states@, inject.name, s0.len() as int, m0, i0, (k + 1) as nat).0);
                assert forall|j: int| 0 <= j < k + 1 implies {
                    let r = reg_fields(provider.states@, inject.name, s0.len() as int, m0, i0, j as nat);
                    field_slot_ok(#[trigger] slots@[s0.len() + j], provider.states@[j], inject.name, r.0, r.1, ast.exprs@, compiler.float_table())
                } by {
                    if j < k {
                        assert(slots@[s0.len() + j] == sb[s0.len() + j]);
                    }
                }
            }
        }
        k = k + 1;
    }
}

} // verus!
