//! What the compiler knows of the standard library: the built-in scalar types
//! and the property each widget's first argument binds.

use vstd::prelude::*;
use crate::ast::TypeRef;
use crate::ir::{NodeKind, PropKey, TypeKind};
use crate::sema::provider::{sym_text, text_of};
use crate::span::Interner;

verus! {

/// The property the positional argument of a widget sets: a `Text`'s text, a
/// `Button`'s title, an `Image`'s source, a `TextField`'s value. Containers
/// take none.
pub open spec fn primary_prop_of(kind: NodeKind) -> Option<PropKey> {
    match kind {
        NodeKind::Text => Some(PropKey::Text),
        NodeKind::Button => Some(PropKey::Title),
        NodeKind::Image => Some(PropKey::Src),
        NodeKind::TextField => Some(PropKey::Value),
        _ => None,
    }
}

pub fn primary_prop(kind: &NodeKind) -> (r: Option<PropKey>)
    ensures
        r == primary_prop_of(*kind),
{
    match kind {
        NodeKind::Text => Some(PropKey::Text),
        NodeKind::Button => Some(PropKey::Title),
        NodeKind::Image => Some(PropKey::Src),
        NodeKind::TextField => Some(PropKey::Value),
        _ => None,
    }
}

/// The built-in type a name stands for, without type arguments.
pub open spec fn scalar_type(name: Seq<u8>) -> Option<TypeKind> {
    if name == "Int"@.map_values(|c: char| c as u8) {
        Some(TypeKind::Int)
    } else if name == "Float"@.map_values(|c: char| c as u8) {
        Some(TypeKind::Float)
    } else if name == "Bool"@.map_values(|c: char| c as u8) {
        Some(TypeKind::Bool)
    } else if name == "String"@.map_values(|c: char| c as u8) {
        Some(TypeKind::Str)
    } else {
        None
    }
}

/// The type a type reference denotes: a built-in scalar, made optional by
/// `?`; anything else, or a scalar given type arguments, is an error type.
pub open spec fn type_of(strs: Seq<Seq<u8>>, ty: TypeRef) -> TypeKind {
    match scalar_type(sym_text(strs, ty.name)) {
        Some(t) => if ty.generics@.len() != 0 {
            TypeKind::Error
        } else if ty.optional {
            TypeKind::Option(Box::new(t))
        } else {
            t
        },
        None => TypeKind::Error,
    }
}

fn bytes_are(b: &[u8], s: &str) -> (r: bool)
    requires
        s.is_ascii(),
    ensures
        r == (b@ == s@.map_values(|c: char| c as u8)),
{
    let ghost t = s@.map_values(|c: char| c as u8);
    let n = s.unicode_len();
    if b.len() != n {
        return false;
    }
    let mut i: usize = 0;
    while i < n
        invariant
            s.is_ascii(),
            n == s@.len(),
            b@.len() == n,
            t == s@.map_values(|c: char| c as u8),
            i <= n,
            forall|j: int| 0 <= j < i ==> b@[j] == t[j],
        decreases n - i,
    {
        let c = s.get_char(i);
        if b[i] != c as u8 {
            return false;
        }
        i = i + 1;
    }
    assert(b@ =~= t);
    true
}

/// The type `ty` denotes.
pub fn resolve_type(ty: &TypeRef, interner: &Interner) -> (r: TypeKind)
    ensures
        r == type_of(interner@, *ty),
{
    let name = text_of(interner, ty.name);
    proof {
        reveal_strlit("Int");
        reveal_strlit("Float");
        reveal_strlit("Bool");
        reveal_strlit("String");
    }
    let base = if bytes_are(name, "Int") {
        Some(TypeKind::Int)
    } else if bytes_are(name, "Float") {
        Some(TypeKind::Float)
    } else if bytes_are(name, "Bool") {
        Some(TypeKind::Bool)
    } else if bytes_are(name, "String") {
        Some(TypeKind::Str)
    } else {
        None
    };
    match base {
        Some(t) => if ty.generics.len() != 0 {
            TypeKind::Error
        } else if ty.optional {
            TypeKind::Option(Box::new(t))
        } else {
            t
        },
        None => TypeKind::Error,
    }
}

/// Each widget shows its positional argument through a property of its own:
/// no two kinds of node share one, an `Image` shows it as its source
/// (`Src`), and only the four widgets `Text`, `Button`, `Image` and
/// `TextField` take one at all.
pub proof fn law_primary_prop(k1: NodeKind, k2: NodeKind)
    ensures
        primary_prop_of(k1) is Some && primary_prop_of(k1) == primary_prop_of(k2) ==> k1 == k2,
        (primary_prop_of(k1) == Some(PropKey::Src)) <==> k1 == NodeKind::Image,
        (primary_prop_of(k1) == Some(PropKey::Text)) <==> k1 == NodeKind::Text,
        (primary_prop_of(k1) == Some(PropKey::Title)) <==> k1 == NodeKind::Button,
        (primary_prop_of(k1) == Some(PropKey::Value)) <==> k1 == NodeKind::TextField,
        primary_prop_of(k1) is Some <==> (k1 == NodeKind::Text || k1 == NodeKind::Button || k1 == NodeKind::Image
            || k1 == NodeKind::TextField),
{
}

} // verus!
