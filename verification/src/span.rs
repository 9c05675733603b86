//! Source positions and interned symbols.

use vstd::prelude::*;

verus! {

/// Identifies one source file.
#[derive(Clone, Copy, Debug, PartialEq, Eq, Structural)]
pub struct FileId(pub u32);

/// A half-open byte range `lo..hi` of one source file.
#[derive(Clone, Copy, Debug, PartialEq, Eq, Structural)]
pub struct Span {
    pub file: FileId,
    pub lo: u32,
    pub hi: u32,
}

impl Span {
    pub fn new(file: FileId, lo: u32, hi: u32) -> (s: Span)
        ensures
            s == (Span { file, lo, hi }),
    {
        Span { file, lo, hi }
    }

    /// The span from the start of `self` to the end of `other`.
    pub fn merge(self, other: Span) -> (s: Span)
        ensures
            s == (Span { file: self.file, lo: self.lo, hi: other.hi }),
    {
        Span { file: self.file, lo: self.lo, hi: other.hi }
    }
}

/// An interned identifier or text fragment: an index into an `Interner`.
#[derive(Clone, Copy, Debug, PartialEq, Eq, Structural)]
pub struct Symbol(pub u32);

} // verus!

verus! {

/// Table of interned texts; a `Symbol` is an index into it.
#[derive(Debug)]
pub struct Interner {
    strings: Vec<Vec<u8>>,
}

/// The index of the first entry of `strs` equal to `s` at or after `i`, if any.
pub open spec fn find_text(strs: Seq<Seq<u8>>, s: Seq<u8>, i: int) -> Option<int>
    decreases strs.len() - i,
{
    if i < 0 || i >= strs.len() {
        None
    } else if strs[i] == s {
        Some(i)
    } else {
        find_text(strs, s, i + 1)
    }
}

/// Interning `s` into the table `strs`: the table afterwards and the symbol given back.
/// A text already present keeps its first symbol; a new one is appended.
pub open spec fn intern_spec(strs: Seq<Seq<u8>>, s: Seq<u8>) -> (Seq<Seq<u8>>, u32) {
    match find_text(strs, s, 0) {
        Some(i) => (strs, i as u32),
        None => (strs.push(s), strs.len() as u32),
    }
}

pub proof fn lemma_find_text(strs: Seq<Seq<u8>>, s: Seq<u8>, i: int)
    requires
        0 <= i,
    ensures
        find_text(strs, s, i) matches Some(k) ==> i <= k < strs.len() && strs[k] == s,
        find_text(strs, s, i) is None ==> forall|k: int| i <= k < strs.len() ==> strs[k] != s,
    decreases strs.len() - i,
{
    if i < strs.len() && strs[i] != s {
        lemma_find_text(strs, s, i + 1);
    }
}

impl View for Interner {
    type V = Seq<Seq<u8>>;

    closed spec fn view(&self) -> Seq<Seq<u8>> {
        self.strings@.map_values(|v: Vec<u8>| v@)
    }
}

impl Interner {
    pub fn new() -> (r: Interner)
        ensures
            r@ == Seq::<Seq<u8>>::empty(),
    {
        let r = Interner { strings: Vec::new() };
        assert(r@ =~= Seq::<Seq<u8>>::empty());
        r
    }

    /// The number of interned texts.
    pub fn len(&self) -> (n: usize)
        ensures
            n == self@.len(),
    {
        self.strings.len()
    }

    /// Interns `s`, giving back the symbol of an equal text already present,
    /// or appending `s` under a new symbol.
    pub fn intern(&mut self, s: &[u8]) -> (sym: Symbol)
        requires
            old(self)@.len() < u32::MAX,
        ensures
            (final(self)@, sym.0) == intern_spec(old(self)@, s@),
    {
        let mut i: usize = 0;
        while i < self.strings.len()
            invariant
                0 <= i <= self@.len(),
                self@.len() == self.strings@.len(),
                self@.len() < u32::MAX,
                find_text(self@, s@, 0) == find_text(self@, s@, i as int),
            decreases self.strings@.len() - i,
        {
            if crate::bytes::bytes_eq(self.strings[i].as_slice(), s) {
                return Symbol(i as u32);
            }
            i = i + 1;
        }
        let n = self.strings.len();
        let mut v: Vec<u8> = Vec::new();
        let mut j: usize = 0;
        while j < s.len()
            invariant
                j <= s@.len(),
                v@ == s@.subrange(0, j as int),
            decreases s@.len() - j,
        {
            v.push(s[j]);
            j = j + 1;
        }
        assert(v@ =~= s@);
        let ghost before = self@;
        self.strings.push(v);
        assert(self@ =~= before.push(s@));
        Symbol(n as u32)
    }

    /// The text of `sym`.
    pub fn get(&self, sym: Symbol) -> (t: &[u8])
        requires
            (sym.0 as int) < self@.len(),
        ensures
            t@ == self@[sym.0 as int],
    {
        self.strings[sym.0 as usize].as_slice()
    }
}

} // verus!
