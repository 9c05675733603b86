//! Lexer for the Flash `.ui` language, with string interpolation.
//!
//! The lexer is specified as a small-step machine (`lex_step`) over a stack of
//! modes: at the top level, inside a string literal, or inside a `${ .. }`
//! interpolation. `tokenize` runs that machine to completion; its contract is
//! that the tokens and the interner it leaves are exactly those of the machine.

use vstd::prelude::*;
use crate::bytes::{copy_range, starts_with2};
use crate::span::{intern_spec, FileId, Interner, Span, Symbol};
use vstd::string::StringSliceAdditionalSpecFns;

verus! {

/// Why a stretch of source could not be lexed.
#[derive(Clone, Copy, Debug, PartialEq, Eq)]
pub enum LexError {
    UnexpectedChar(char),
    UnterminatedString,
    UnterminatedInterpolation,
}

/// A token kind. `F` is the payload of a float literal: its source text
/// (`Vec<u8>` in executable tokens, `Seq<u8>` in the specification).
#[derive(Clone, Debug)]
pub enum TokenKind<F = Vec<u8>> {
    Int(i64),
    Float(F),
    Bool(bool),
    StrStart,
    StrText(Symbol),
    InterpStart,
    InterpEnd,
    StrEnd,
    Ident(Symbol),
    Screen,
    Component,
    State,
    Use,
    If,
    Else,
    Match,
    In,
    Await,
    OnLoad,
    OnAppear,
    OnDispose,
    Platform,
    LBrace,
    RBrace,
    LParen,
    RParen,
    LAngle,
    RAngle,
    Comma,
    Colon,
    ColonColon,
    Dot,
    Arrow,
    Question,
    Underscore,
    Eq,
    PlusEq,
    MinusEq,
    StarEq,
    SlashEq,
    PlusPlus,
    MinusMinus,
    Plus,
    Minus,
    Star,
    Slash,
    Percent,
    Bang,
    EqEq,
    NotEq,
    Lt,
    Gt,
    LtEq,
    GtEq,
    AndAnd,
    OrOr,
    Eof,
    Error(LexError),
}

/// A token and the source range it covers.
#[derive(Clone, Debug)]
pub struct Token {
    pub kind: TokenKind,
    pub span: Span,
}

/// The mathematical value of a token kind (a float literal's text as a sequence).
pub open spec fn kind_view(k: TokenKind) -> TokenKind<Seq<u8>> {
    match k {
            TokenKind::Int(x) => TokenKind::Int(x),
            TokenKind::Float(t) => TokenKind::Float(t@),
            TokenKind::Bool(x) => TokenKind::Bool(x),
            TokenKind::StrStart => TokenKind::StrStart,
            TokenKind::StrText(x) => TokenKind::StrText(x),
            TokenKind::InterpStart => TokenKind::InterpStart,
            TokenKind::InterpEnd => TokenKind::InterpEnd,
            TokenKind::StrEnd => TokenKind::StrEnd,
            TokenKind::Ident(x) => TokenKind::Ident(x),
            TokenKind::Screen => TokenKind::Screen,
            TokenKind::Component => TokenKind::Component,
            TokenKind::State => TokenKind::State,
            TokenKind::Use => TokenKind::Use,
            TokenKind::If => TokenKind::If,
            TokenKind::Else => TokenKind::Else,
            TokenKind::Match => TokenKind::Match,
            TokenKind::In => TokenKind::In,
            TokenKind::Await => TokenKind::Await,
            TokenKind::OnLoad => TokenKind::OnLoad,
            TokenKind::OnAppear => TokenKind::OnAppear,
            TokenKind::OnDispose => TokenKind::OnDispose,
            TokenKind::Platform => TokenKind::Platform,
            TokenKind::LBrace => TokenKind::LBrace,
            TokenKind::RBrace => TokenKind::RBrace,
            TokenKind::LParen => TokenKind::LParen,
            TokenKind::RParen => TokenKind::RParen,
            TokenKind::LAngle => TokenKind::LAngle,
            TokenKind::RAngle => TokenKind::RAngle,
            TokenKind::Comma => TokenKind::Comma,
            TokenKind::Colon => TokenKind::Colon,
            TokenKind::ColonColon => TokenKind::ColonColon,
            TokenKind::Dot => TokenKind::Dot,
            TokenKind::Arrow => TokenKind::Arrow,
            TokenKind::Question => TokenKind::Question,
            TokenKind::Underscore => TokenKind::Underscore,
            TokenKind::Eq => TokenKind::Eq,
            TokenKind::PlusEq => TokenKind::PlusEq,
            TokenKind::MinusEq => TokenKind::MinusEq,
            TokenKind::StarEq => TokenKind::StarEq,
            TokenKind::SlashEq => TokenKind::SlashEq,
            TokenKind::PlusPlus => TokenKind::PlusPlus,
            TokenKind::MinusMinus => TokenKind::MinusMinus,
            TokenKind::Plus => TokenKind::Plus,
            TokenKind::Minus => TokenKind::Minus,
            TokenKind::Star => TokenKind::Star,
            TokenKind::Slash => TokenKind::Slash,
            TokenKind::Percent => TokenKind::Percent,
            TokenKind::Bang => TokenKind::Bang,
            TokenKind::EqEq => TokenKind::EqEq,
            TokenKind::NotEq => TokenKind::NotEq,
            TokenKind::Lt => TokenKind::Lt,
            TokenKind::Gt => TokenKind::Gt,
            TokenKind::LtEq => TokenKind::LtEq,
            TokenKind::GtEq => TokenKind::GtEq,
            TokenKind::AndAnd => TokenKind::AndAnd,
            TokenKind::OrOr => TokenKind::OrOr,
            TokenKind::Eof => TokenKind::Eof,
            TokenKind::Error(x) => TokenKind::Error(x),
    }
}

/// A token as the specification sees it.
pub struct SpecToken {
    pub kind: TokenKind<Seq<u8>>,
    pub span: Span,
}

pub open spec fn token_view(t: Token) -> SpecToken {
    SpecToken { kind: kind_view(t.kind), span: t.span }
}

pub open spec fn tokens_view(ts: Seq<Token>) -> Seq<SpecToken> {
    ts.map_values(|t: Token| token_view(t))
}

// ---------------------------------------------------------------------------
// Character classes and scanning

pub open spec fn is_ws(b: u8) -> bool {
    b == 32 || b == 9 || b == 10 || b == 12 || b == 13
}

pub open spec fn is_digit(b: u8) -> bool {
    48 <= b <= 57
}

pub open spec fn is_ident_start(b: u8) -> bool {
    (97 <= b <= 122) || (65 <= b <= 90) || b == 95
}

pub open spec fn is_ident_char(b: u8) -> bool {
    is_ident_start(b) || is_digit(b)
}

/// The first position at or after `pos` that is neither whitespace nor inside a
/// `//` line comment (`in_comment`: `pos` is inside such a comment).
pub open spec fn skip_ws(s: Seq<u8>, pos: int, in_comment: bool) -> int
    decreases s.len() - pos,
{
    if pos < 0 || pos >= s.len() {
        pos
    } else if in_comment {
        skip_ws(s, pos + 1, s[pos] != 10)
    } else if pos + 1 < s.len() && s[pos] == 47 && s[pos + 1] == 47 {
        skip_ws(s, pos + 2, true)
    } else if is_ws(s[pos]) {
        skip_ws(s, pos + 1, false)
    } else {
        pos
    }
}

/// The end of the run of decimal digits starting at `p`.
pub open spec fn scan_digits(s: Seq<u8>, p: int) -> int
    decreases s.len() - p,
{
    if 0 <= p < s.len() && is_digit(s[p]) {
        scan_digits(s, p + 1)
    } else {
        p
    }
}

/// The end of the run of identifier characters starting at `p`.
pub open spec fn scan_ident(s: Seq<u8>, p: int) -> int
    decreases s.len() - p,
{
    if 0 <= p < s.len() && is_ident_char(s[p]) {
        scan_ident(s, p + 1)
    } else {
        p
    }
}

/// The decimal value of a run of digits.
pub open spec fn digits_value(t: Seq<u8>) -> nat
    decreases t.len(),
{
    if t.len() == 0 {
        0
    } else {
        digits_value(t.drop_last()) * 10 + ((t.last() - 48) as nat)
    }
}

/// An integer literal's value: its decimal value, or 0 where that does not fit an `i64`.
pub open spec fn int_literal(t: Seq<u8>) -> i64 {
    if digits_value(t) <= i64::MAX {
        digits_value(t) as i64
    } else {
        0
    }
}

/// The keyword (or boolean literal) spelled by `t`, if any.
pub open spec fn keyword_kind(t: Seq<u8>) -> Option<TokenKind<Seq<u8>>> {
    if t == seq![115u8, 99u8, 114u8, 101u8, 101u8, 110u8] {
        Some(TokenKind::Screen)
    } else if t == seq![99u8, 111u8, 109u8, 112u8, 111u8, 110u8, 101u8, 110u8, 116u8] {
        Some(TokenKind::Component)
    } else if t == seq![115u8, 116u8, 97u8, 116u8, 101u8] {
        Some(TokenKind::State)
    } else if t == seq![117u8, 115u8, 101u8] {
        Some(TokenKind::Use)
    } else if t == seq![105u8, 102u8] {
        Some(TokenKind::If)
    } else if t == seq![101u8, 108u8, 115u8, 101u8] {
        Some(TokenKind::Else)
    } else if t == seq![109u8, 97u8, 116u8, 99u8, 104u8] {
        Some(TokenKind::Match)
    } else if t == seq![105u8, 110u8] {
        Some(TokenKind::In)
    } else if t == seq![97u8, 119u8, 97u8, 105u8, 116u8] {
        Some(TokenKind::Await)
    } else if t == seq![111u8, 110u8, 76u8, 111u8, 97u8, 100u8] {
        Some(TokenKind::OnLoad)
    } else if t == seq![111u8, 110u8, 65u8, 112u8, 112u8, 101u8, 97u8, 114u8] {
        Some(TokenKind::OnAppear)
    } else if t == seq![111u8, 110u8, 68u8, 105u8, 115u8, 112u8, 111u8, 115u8, 101u8] {
        Some(TokenKind::OnDispose)
    } else if t == seq![112u8, 108u8, 97u8, 116u8, 102u8, 111u8, 114u8, 109u8] {
        Some(TokenKind::Platform)
    } else if t == seq![116u8, 114u8, 117u8, 101u8] {
        Some(TokenKind::Bool(true))
    } else if t == seq![102u8, 97u8, 108u8, 115u8, 101u8] {
        Some(TokenKind::Bool(false))
    } else {
        None
    }
}

/// A boolean literal carries the value it spells: the word `true` is
/// `Bool(true)`, the word `false` is `Bool(false)`, and no other word is a
/// boolean literal. No two words are the same keyword.
pub proof fn law_keyword_words(w1: Seq<u8>, w2: Seq<u8>, b: bool)
    ensures
        (keyword_kind(w1) == Some(TokenKind::<Seq<u8>>::Bool(b))) <==> (if b {
            w1 == seq![116u8, 114u8, 117u8, 101u8]
        } else {
            w1 == seq![102u8, 97u8, 108u8, 115u8, 101u8]
        }),
        keyword_kind(w1) is Some && keyword_kind(w1) == keyword_kind(w2) ==> w1 == w2,
{
}

/// What one token read at a position is before interning.
pub enum RawTok {
    Kind(TokenKind<Seq<u8>>),
    /// An identifier, to be interned.
    Name,
}

pub open spec fn two(s: Seq<u8>, p: int, a: u8, b: u8) -> bool {
    p + 1 < s.len() && s[p] == a && s[p + 1] == b
}

/// The token starting at `p` (not a string quote) and the position after it;
/// its span is `p..next`.
pub open spec fn lex_raw(s: Seq<u8>, p: int) -> (RawTok, int) {
    let b = s[p];
    if b == 123 {
        (RawTok::Kind(TokenKind::LBrace), p + 1)
    } else if b == 125 {
        (RawTok::Kind(TokenKind::RBrace), p + 1)
    } else if b == 40 {
        (RawTok::Kind(TokenKind::LParen), p + 1)
    } else if b == 41 {
        (RawTok::Kind(TokenKind::RParen), p + 1)
    } else if b == 44 {
        (RawTok::Kind(TokenKind::Comma), p + 1)
    } else if b == 46 {
        (RawTok::Kind(TokenKind::Dot), p + 1)
    } else if b == 58 {
        if two(s, p, 58, 58) {
            (RawTok::Kind(TokenKind::ColonColon), p + 2)
        } else {
            (RawTok::Kind(TokenKind::Colon), p + 1)
        }
    } else if b == 43 {
        if two(s, p, 43, 43) {
            (RawTok::Kind(TokenKind::PlusPlus), p + 2)
        } else if two(s, p, 43, 61) {
            (RawTok::Kind(TokenKind::PlusEq), p + 2)
        } else {
            (RawTok::Kind(TokenKind::Plus), p + 1)
        }
    } else if b == 45 {
        if two(s, p, 45, 45) {
            (RawTok::Kind(TokenKind::MinusMinus), p + 2)
        } else if two(s, p, 45, 61) {
            (RawTok::Kind(TokenKind::MinusEq), p + 2)
        } else {
            (RawTok::Kind(TokenKind::Minus), p + 1)
        }
    } else if b == 42 {
        if two(s, p, 42, 61) {
            (RawTok::Kind(TokenKind::StarEq), p + 2)
        } else {
            (RawTok::Kind(TokenKind::Star), p + 1)
        }
    } else if b == 47 {
        if two(s, p, 47, 61) {
            (RawTok::Kind(TokenKind::SlashEq), p + 2)
        } else {
            (RawTok::Kind(TokenKind::Slash), p + 1)
        }
    } else if b == 37 {
        (RawTok::Kind(TokenKind::Percent), p + 1)
    } else if b == 61 {
        if two(s, p, 61, 61) {
            (RawTok::Kind(TokenKind::EqEq), p + 2)
        } else {
            (RawTok::Kind(TokenKind::Eq), p + 1)
        }
    } else if b == 33 {
        if two(s, p, 33, 61) {
            (RawTok::Kind(TokenKind::NotEq), p + 2)
        } else {
            (RawTok::Kind(TokenKind::Bang), p + 1)
        }
    } else if b == 60 {
        if two(s, p, 60, 61) {
            (RawTok::Kind(TokenKind::LtEq), p + 2)
        } else {
            (RawTok::Kind(TokenKind::LAngle), p + 1)
        }
    } else if b == 62 {
        if two(s, p, 62, 61) {
            (RawTok::Kind(TokenKind::GtEq), p + 2)
        } else {
            (RawTok::Kind(TokenKind::RAngle), p + 1)
        }
    } else if b == 38 {
        if two(s, p, 38, 38) {
            (RawTok::Kind(TokenKind::AndAnd), p + 2)
        } else {
            (RawTok::Kind(TokenKind::Error(LexError::UnexpectedChar('&'))), p + 1)
        }
    } else if b == 124 {
        if two(s, p, 124, 124) {
            (RawTok::Kind(TokenKind::OrOr), p + 2)
        } else {
            (RawTok::Kind(TokenKind::Error(LexError::UnexpectedChar('|'))), p + 1)
        }
    } else if is_digit(b) {
        let q = scan_digits(s, p);
        if q + 1 < s.len() && s[q] == 46 && is_digit(s[q + 1]) {
            let r = scan_digits(s, q + 1);
            (RawTok::Kind(TokenKind::Float(s.subrange(p, r))), r)
        } else {
            (RawTok::Kind(TokenKind::Int(int_literal(s.subrange(p, q)))), q)
        }
    } else if is_ident_start(b) {
        let q = scan_ident(s, p);
        match keyword_kind(s.subrange(p, q)) {
            Some(k) => (RawTok::Kind(k), q),
            None => (RawTok::Name, q),
        }
    } else {
        (RawTok::Kind(TokenKind::Error(LexError::UnexpectedChar(b as char))), p + 1)
    }
}

// ---------------------------------------------------------------------------
// The lexing machine

/// What the lexer is inside of.
pub enum LexMode {
    /// A string literal whose current text run starts at `start`.
    Str { start: int },
    /// A `${ .. }` interpolation with `depth` unclosed `{`.
    Interp { depth: int },
}

pub struct LexState {
    pub pos: int,
    pub modes: Seq<LexMode>,
    pub toks: Seq<SpecToken>,
    pub strs: Seq<Seq<u8>>,
    pub done: bool,
}

pub open spec fn emit(st: LexState, file: FileId, kind: TokenKind<Seq<u8>>, lo: int, hi: int) -> LexState {
    LexState {
        toks: st.toks.push(SpecToken { kind, span: Span { file, lo: lo as u32, hi: hi as u32 } }),
        ..st
    }
}

/// Emits the text `s[start..p]` of a string literal, interned.
pub open spec fn emit_text(s: Seq<u8>, file: FileId, st: LexState, start: int, p: int) -> LexState {
    let (strs, sym) = intern_spec(st.strs, s.subrange(start, p));
    LexState { strs, ..emit(st, file, TokenKind::StrText(Symbol(sym)), start, p) }
}

/// Emits the text run ending at `p`, if it is not empty.
pub open spec fn emit_text_if(s: Seq<u8>, file: FileId, st: LexState, start: int, p: int) -> LexState {
    if p > start {
        emit_text(s, file, st, start, p)
    } else {
        st
    }
}

/// Leaves an interpolation at `p`: the enclosing string's text resumes at `p`.
pub open spec fn pop_interp(modes: Seq<LexMode>, p: int) -> Seq<LexMode> {
    let m = modes.drop_last();
    if m.len() > 0 && m.last() is Str {
        m.update(m.len() - 1, LexMode::Str { start: p })
    } else {
        m
    }
}

/// Reads one token at `st.pos` (not whitespace, not past the end).
pub open spec fn single_step(s: Seq<u8>, file: FileId, st: LexState) -> LexState {
    let p = st.pos;
    if s[p] == 34 {
        LexState {
            pos: p + 1,
            modes: st.modes.push(LexMode::Str { start: p + 1 }),
            ..emit(st, file, TokenKind::StrStart, p, p + 1)
        }
    } else {
        let (raw, next) = lex_raw(s, p);
        match raw {
            RawTok::Kind(k) => LexState { pos: next, ..emit(st, file, k, p, next) },
            RawTok::Name => {
                let (strs, sym) = intern_spec(st.strs, s.subrange(p, next));
                LexState {
                    pos: next,
                    strs,
                    ..emit(st, file, TokenKind::Ident(Symbol(sym)), p, next)
                }
            },
        }
    }
}

/// One step of the lexing machine.
pub open spec fn lex_step(s: Seq<u8>, file: FileId, st: LexState) -> LexState {
    if st.modes.len() == 0 {
        let p = skip_ws(s, st.pos, false);
        if p >= s.len() {
            LexState { pos: p, done: true, ..emit(st, file, TokenKind::Eof, p, p) }
        } else {
            single_step(s, file, LexState { pos: p, ..st })
        }
    } else {
        match st.modes.last() {
            LexMode::Interp { depth } => {
                let p = skip_ws(s, st.pos, false);
                if p >= s.len() {
                    LexState { pos: p, modes: pop_interp(st.modes, p), ..st }
                } else if s[p] == 125 && depth == 0 {
                    LexState {
                        pos: p + 1,
                        modes: pop_interp(st.modes, p + 1),
                        ..emit(st, file, TokenKind::InterpEnd, p, p + 1)
                    }
                } else {
                    let d = if s[p] == 123 {
                        depth + 1
                    } else if s[p] == 125 {
                        depth - 1
                    } else {
                        depth
                    };
                    single_step(
                        s,
                        file,
                        LexState {
                            pos: p,
                            modes: st.modes.update(st.modes.len() - 1, LexMode::Interp { depth: d }),
                            ..st
                        },
                    )
                }
            },
            LexMode::Str { start } => {
                let p = st.pos;
                if p >= s.len() {
                    LexState {
                        modes: st.modes.drop_last(),
                        ..emit(st, file, TokenKind::Error(LexError::UnterminatedString), start, p)
                    }
                } else if s[p] == 34 {
                    LexState {
                        pos: p + 1,
                        modes: st.modes.drop_last(),
                        ..emit(emit_text_if(s, file, st, start, p), file, TokenKind::StrEnd, p, p + 1)
                    }
                } else if two(s, p, 36, 123) {
                    LexState {
                        pos: p + 2,
                        modes: st.modes.push(LexMode::Interp { depth: 0 }),
                        ..emit(emit_text_if(s, file, st, start, p), file, TokenKind::InterpStart, p, p + 2)
                    }
                } else if s[p] == 92 && p + 1 < s.len() {
                    LexState { pos: p + 2, ..st }
                } else {
                    LexState { pos: p + 1, ..st }
                }
            },
        }
    }
}

/// Runs the machine until it has emitted `Eof`.
pub open spec fn lex_run(s: Seq<u8>, file: FileId, st: LexState) -> LexState
    decreases s.len() - st.pos, st.modes.len(),
{
    if st.done || st.pos < 0 || st.pos > s.len() {
        st
    } else {
        let n = lex_step(s, file, st);
        if n.done {
            n
        } else {
            proof {
                lemma_step_progress(s, file, st);
            }
            lex_run(s, file, n)
        }
    }
}

/// The machine's state before the first byte of `s`, with interner table `strs`.
pub open spec fn lex_start(strs: Seq<Seq<u8>>) -> LexState {
    LexState { pos: 0, modes: Seq::empty(), toks: Seq::empty(), strs, done: false }
}

// ---------------------------------------------------------------------------
// Progress lemmas

pub proof fn lemma_skip_ws(s: Seq<u8>, pos: int, c: bool)
    requires
        0 <= pos <= s.len(),
    ensures
        pos <= skip_ws(s, pos, c) <= s.len(),
    decreases s.len() - pos,
{
    if pos < s.len() {
        if c {
            lemma_skip_ws(s, pos + 1, s[pos] != 10);
        } else if pos + 1 < s.len() && s[pos] == 47 && s[pos + 1] == 47 {
            lemma_skip_ws(s, pos + 2, true);
        } else if is_ws(s[pos]) {
            lemma_skip_ws(s, pos + 1, false);
        }
    }
}

pub proof fn lemma_scan_digits(s: Seq<u8>, p: int)
    requires
        0 <= p <= s.len(),
    ensures
        p <= scan_digits(s, p) <= s.len(),
        forall|i: int| p <= i < scan_digits(s, p) ==> is_digit(s[i]),
        scan_digits(s, p) < s.len() ==> !is_digit(s[scan_digits(s, p)]),
    decreases s.len() - p,
{
    if p < s.len() && is_digit(s[p]) {
        lemma_scan_digits(s, p + 1);
    }
}

pub proof fn lemma_scan_ident(s: Seq<u8>, p: int)
    requires
        0 <= p <= s.len(),
    ensures
        p <= scan_ident(s, p) <= s.len(),
    decreases s.len() - p,
{
    if p < s.len() && is_ident_char(s[p]) {
        lemma_scan_ident(s, p + 1);
    }
}

pub proof fn lemma_lex_raw(s: Seq<u8>, p: int)
    requires
        0 <= p < s.len(),
    ensures
        p < lex_raw(s, p).1 <= s.len(),
{
    lemma_scan_digits(s, p);
    lemma_scan_ident(s, p);
    lemma_scan_digits(s, p + 1);
    lemma_scan_ident(s, p + 1);
    let q = scan_digits(s, p);
    if q + 1 < s.len() {
        lemma_scan_digits(s, q + 1);
    }
}

pub proof fn lemma_single_step(s: Seq<u8>, file: FileId, st: LexState)
    requires
        0 <= st.pos < s.len(),
        !st.done,
    ensures
        st.pos < single_step(s, file, st).pos <= s.len(),
        !single_step(s, file, st).done,
{
    lemma_lex_raw(s, st.pos);
}

/// Every step either finishes, or moves forward, or leaves a mode without moving.
pub proof fn lemma_step_progress(s: Seq<u8>, file: FileId, st: LexState)
    requires
        !st.done,
        0 <= st.pos <= s.len(),
    ensures
        lex_step(s, file, st).done || (st.pos < lex_step(s, file, st).pos <= s.len()) || (
        lex_step(s, file, st).pos == st.pos && lex_step(s, file, st).modes.len()
            < st.modes.len()),
{
    lemma_skip_ws(s, st.pos, false);
    let p = skip_ws(s, st.pos, false);
    if st.modes.len() == 0 {
        if p < s.len() {
            lemma_single_step(s, file, LexState { pos: p, ..st });
        }
    } else {
        match st.modes.last() {
            LexMode::Interp { depth } => {
                if p < s.len() && !(s[p] == 125 && depth == 0) {
                    let d = if s[p] == 123 {
                        depth + 1
                    } else if s[p] == 125 {
                        depth - 1
                    } else {
                        depth
                    };
                    lemma_single_step(
                        s,
                        file,
                        LexState {
                            pos: p,
                            modes: st.modes.update(st.modes.len() - 1, LexMode::Interp { depth: d }),
                            ..st
                        },
                    );
                }
            },
            LexMode::Str { start } => {},
        }
    }
}


/// A step only appends tokens and interned texts; a finishing step appends `Eof` last.
pub proof fn lemma_step_extends(s: Seq<u8>, file: FileId, st: LexState)
    requires
        !st.done,
        0 <= st.pos <= s.len(),
    ensures
        lex_step(s, file, st).toks.len() >= st.toks.len(),
        lex_step(s, file, st).toks.subrange(0, st.toks.len() as int) == st.toks,
        lex_step(s, file, st).strs.len() >= st.strs.len(),
        lex_step(s, file, st).strs.subrange(0, st.strs.len() as int) == st.strs,
        lex_step(s, file, st).done ==> lex_step(s, file, st).toks.len() > 0
            && lex_step(s, file, st).toks.last().kind is Eof,
{
    let n = lex_step(s, file, st);
    assert(n.toks.subrange(0, st.toks.len() as int) =~= st.toks);
    assert(n.strs.subrange(0, st.strs.len() as int) =~= st.strs);
}

/// What the machine may still emit: two tokens per byte left and one per
/// open mode, at most.
pub open spec fn lex_budget(s: Seq<u8>, st: LexState) -> int {
    st.toks.len() + 2 * (s.len() - st.pos) + st.modes.len()
}

/// A step that does not finish stays within the budget; one that finishes
/// adds the final `Eof` to it.
proof fn lemma_step_budget(s: Seq<u8>, file: FileId, st: LexState)
    requires
        !st.done,
        0 <= st.pos <= s.len(),
    ensures
        !lex_step(s, file, st).done ==> lex_budget(s, lex_step(s, file, st)) <= lex_budget(s, st),
        lex_step(s, file, st).done ==> lex_step(s, file, st).toks.len() <= lex_budget(s, st) + 1,
{
    lemma_skip_ws(s, st.pos, false);
    let p = skip_ws(s, st.pos, false);
    if st.modes.len() == 0 {
        if p < s.len() {
            lemma_single_step(s, file, LexState { pos: p, ..st });
        }
    } else {
        match st.modes.last() {
            LexMode::Interp { depth } => {
                if p < s.len() && !(s[p] == 125 && depth == 0) {
                    let d = if s[p] == 123 {
                        depth + 1
                    } else if s[p] == 125 {
                        depth - 1
                    } else {
                        depth
                    };
                    lemma_single_step(
                        s,
                        file,
                        LexState {
                            pos: p,
                            modes: st.modes.update(st.modes.len() - 1, LexMode::Interp { depth: d }),
                            ..st
                        },
                    );
                }
            },
            LexMode::Str { start } => {},
        }
    }
}

/// The machine run to the end emits at most its budget and the final `Eof`.
pub proof fn lemma_run_budget(s: Seq<u8>, file: FileId, st: LexState)
    requires
        !st.done,
        0 <= st.pos <= s.len(),
    ensures
        lex_run(s, file, st).toks.len() <= lex_budget(s, st) + 1,
    decreases s.len() - st.pos, st.modes.len(),
{
    let n = lex_step(s, file, st);
    lemma_step_budget(s, file, st);
    lemma_step_progress(s, file, st);
    if !n.done {
        lemma_run_budget(s, file, n);
    }
}

/// Running the machine to the end keeps what was emitted so far, finishes,
/// and leaves `Eof` as the last token.
pub proof fn lemma_run_ends(s: Seq<u8>, file: FileId, st: LexState)
    requires
        !st.done,
        0 <= st.pos <= s.len(),
    ensures
        lex_run(s, file, st).done,
        lex_run(s, file, st).toks.len() > st.toks.len(),
        lex_run(s, file, st).toks.subrange(0, st.toks.len() as int) == st.toks,
        lex_run(s, file, st).toks.last().kind is Eof,
        lex_run(s, file, st).strs.len() >= st.strs.len(),
        lex_run(s, file, st).strs.subrange(0, st.strs.len() as int) == st.strs,
    decreases s.len() - st.pos, st.modes.len(),
{
    let n = lex_step(s, file, st);
    lemma_step_extends(s, file, st);
    lemma_step_progress(s, file, st);
    if !n.done {
        lemma_run_ends(s, file, n);
        let r = lex_run(s, file, n);
        assert(r.toks.subrange(0, st.toks.len() as int) =~= r.toks.subrange(0, n.toks.len() as int).subrange(0, st.toks.len() as int));
        assert(r.strs.subrange(0, st.strs.len() as int) =~= r.strs.subrange(0, n.strs.len() as int).subrange(0, st.strs.len() as int));
    } else {
        assert(n.toks.len() > st.toks.len());
    }
}

// ---------------------------------------------------------------------------
// Spans

/// The least position at which the machine can still start a token: the
/// start of the text run of the string it is in, else its position.
pub open spec fn lex_floor(st: LexState) -> int {
    if st.modes.len() > 0 && st.modes.last() is Str {
        st.modes.last()->start
    } else {
        st.pos
    }
}

/// The spans of `toks` lie in `file` and within the first `n` bytes, each
/// from its start to its end, and they start in order.
pub open spec fn spans_ok(toks: Seq<SpecToken>, file: FileId, n: int) -> bool {
    &&& forall|i: int| 0 <= i < toks.len() ==> (#[trigger] toks[i]).span.file == file && toks[i].span.lo <= toks[i].span.hi <= n
    &&& forall|i: int, j: int| 0 <= i < j < toks.len() ==> #[trigger] toks[i].span.lo <= #[trigger] toks[j].span.lo
}

/// What holds of the machine at every step on `s`: it has read no further
/// than the end; a string is never directly inside a string; the spans of
/// what it emitted are in order, within what it read, and start no later
/// than where it can start the next token; and `Eof` comes only as the last
/// token of a finished run, empty, at the end of `s`.
pub open spec fn lex_inv(s: Seq<u8>, file: FileId, st: LexState) -> bool {
    &&& 0 <= st.pos <= s.len()
    &&& forall|k: int| 0 <= k < st.modes.len() - 1 && (#[trigger] st.modes[k]) is Str ==> st.modes[k + 1] is Interp
    &&& st.modes.len() > 0 && st.modes.last() is Str ==> 0 <= st.modes.last()->start <= st.pos
    &&& spans_ok(st.toks, file, st.pos)
    &&& forall|i: int| 0 <= i < st.toks.len() ==> (#[trigger] st.toks[i]).span.lo <= lex_floor(st)
    &&& forall|i: int| 0 <= i < st.toks.len() && (#[trigger] st.toks[i]).kind is Eof ==> st.done && i == st.toks.len() - 1
        && st.toks[i].span.lo == s.len() && st.toks[i].span.hi == s.len()
}

proof fn lemma_emit_inv(s: Seq<u8>, file: FileId, st: LexState, kind: TokenKind<Seq<u8>>, lo: int, hi: int, bound: int)
    requires
        s.len() < u32::MAX,
        0 <= lo <= hi <= bound <= s.len(),
        spans_ok(st.toks, file, bound),
        forall|i: int| 0 <= i < st.toks.len() ==> (#[trigger] st.toks[i]).span.lo <= lo,
    ensures
        spans_ok(emit(st, file, kind, lo, hi).toks, file, bound),
        forall|i: int| 0 <= i < emit(st, file, kind, lo, hi).toks.len() ==> (#[trigger] emit(st, file, kind, lo, hi).toks[i]).span.lo <= lo,
        emit(st, file, kind, lo, hi).toks.last().kind == kind,
        emit(st, file, kind, lo, hi).toks.drop_last() == st.toks,
{
    let n = emit(st, file, kind, lo, hi).toks;
    assert(n.drop_last() =~= st.toks);
    assert forall|i: int, j: int| 0 <= i < j < n.len() implies #[trigger] n[i].span.lo <= #[trigger] n[j].span.lo by {
        if j < st.toks.len() {
            assert(n[i] == st.toks[i] && n[j] == st.toks[j]);
        } else {
            assert(n[i] == st.toks[i] || i == st.toks.len());
        }
    }
}

proof fn lemma_lex_raw_not_eof(s: Seq<u8>, p: int)
    ensures
        lex_raw(s, p).0 matches RawTok::Kind(k) ==> !(k is Eof),
{
}

proof fn lemma_single_inv(s: Seq<u8>, file: FileId, st: LexState)
    requires
        s.len() < u32::MAX,
        0 <= st.pos < s.len(),
        !st.done,
        st.modes.len() == 0 || st.modes.last() is Interp,
        forall|k: int| 0 <= k < st.modes.len() - 1 && (#[trigger] st.modes[k]) is Str ==> st.modes[k + 1] is Interp,
        spans_ok(st.toks, file, st.pos),
        forall|i: int| 0 <= i < st.toks.len() ==> (#[trigger] st.toks[i]).span.lo <= st.pos,
        forall|i: int| 0 <= i < st.toks.len() ==> !((#[trigger] st.toks[i]).kind is Eof),
    ensures
        lex_inv(s, file, single_step(s, file, st)),
{
    let p = st.pos;
    lemma_lex_raw(s, p);
    let n = single_step(s, file, st);
    if s[p] == 34 {
        lemma_emit_inv(s, file, st, TokenKind::StrStart, p, p + 1, p + 1);
        let e = emit(st, file, TokenKind::StrStart, p, p + 1);
        assert forall|i: int| 0 <= i < st.toks.len() implies (#[trigger] st.toks[i]).span.lo <= p + 1 by {}
        assert(spans_ok(st.toks, file, p + 1));
        lemma_emit_inv(s, file, st, TokenKind::StrStart, p, p + 1, p + 1);
        assert forall|k: int| 0 <= k < n.modes.len() - 1 && (#[trigger] n.modes[k]) is Str implies n.modes[k + 1] is Interp by {
            if k < st.modes.len() - 1 {
                assert(n.modes[k] == st.modes[k] && n.modes[k + 1] == st.modes[k + 1]);
            } else {
                assert(n.modes[k] == st.modes.last());
            }
        }
        assert forall|i: int| 0 <= i < n.toks.len() && (#[trigger] n.toks[i]).kind is Eof implies false by {
            if i < st.toks.len() {
                assert(n.toks[i] == st.toks[i]);
            }
        }
    } else {
        let (raw, next) = lex_raw(s, p);
        let k = match raw {
            RawTok::Kind(k) => k,
            RawTok::Name => TokenKind::Ident(Symbol(intern_spec(st.strs, s.subrange(p, next)).1)),
        };
        assert(spans_ok(st.toks, file, next)) by {
            assert forall|i: int| 0 <= i < st.toks.len() implies (#[trigger] st.toks[i]).span.file == file
                && st.toks[i].span.lo <= st.toks[i].span.hi <= next by {}
        }
        lemma_emit_inv(s, file, st, k, p, next, next);
        assert(n.toks == emit(st, file, k, p, next).toks);
        assert(n.modes == st.modes);
        assert forall|i: int| 0 <= i < n.toks.len() && (#[trigger] n.toks[i]).kind is Eof implies false by {
            if i < st.toks.len() {
                assert(n.toks[i] == st.toks[i]);
            } else {
                assert(n.toks[i].kind == k);
                lemma_lex_raw_not_eof(s, p);
            }
        }
    }
}

proof fn lemma_text_inv(s: Seq<u8>, file: FileId, st: LexState, start: int, p: int, bound: int)
    requires
        s.len() < u32::MAX,
        0 <= start <= p <= bound <= s.len(),
        spans_ok(st.toks, file, bound),
        forall|i: int| 0 <= i < st.toks.len() ==> (#[trigger] st.toks[i]).span.lo <= start,
        forall|i: int| 0 <= i < st.toks.len() ==> !((#[trigger] st.toks[i]).kind is Eof),
    ensures
        spans_ok(emit_text_if(s, file, st, start, p).toks, file, bound),
        forall|i: int| 0 <= i < emit_text_if(s, file, st, start, p).toks.len() ==> (#[trigger] emit_text_if(
            s,
            file,
            st,
            start,
            p,
        ).toks[i]).span.lo <= start,
        forall|i: int| 0 <= i < emit_text_if(s, file, st, start, p).toks.len() ==> !((#[trigger] emit_text_if(
            s,
            file,
            st,
            start,
            p,
        ).toks[i]).kind is Eof),
{
    if p > start {
        let (strs, sym) = intern_spec(st.strs, s.subrange(start, p));
        let k = TokenKind::StrText(Symbol(sym));
        lemma_emit_inv(s, file, st, k, start, p, bound);
        let n = emit_text_if(s, file, st, start, p).toks;
        assert(n == emit(st, file, k, start, p).toks);
        assert forall|i: int| 0 <= i < n.len() implies !((#[trigger] n[i]).kind is Eof) by {
            if i < st.toks.len() {
                assert(n[i] == st.toks[i]);
            }
        }
    }
}

/// One step of the machine keeps what holds of it at every step.
proof fn lemma_step_inv(s: Seq<u8>, file: FileId, st: LexState)
    requires
        s.len() < u32::MAX,
        lex_inv(s, file, st),
        !st.done,
    ensures
        lex_inv(s, file, lex_step(s, file, st)),
{
    lemma_skip_ws(s, st.pos, false);
    let p = skip_ws(s, st.pos, false);
    let n = lex_step(s, file, st);
    assert forall|i: int| 0 <= i < st.toks.len() implies !((#[trigger] st.toks[i]).kind is Eof) by {}
    assert(spans_ok(st.toks, file, p)) by {
        assert forall|i: int| 0 <= i < st.toks.len() implies (#[trigger] st.toks[i]).span.file == file
            && st.toks[i].span.lo <= st.toks[i].span.hi <= p by {}
    }
    if st.modes.len() == 0 {
        if p >= s.len() {
            lemma_emit_inv(s, file, st, TokenKind::Eof, p, p, p);
            assert forall|i: int| 0 <= i < n.toks.len() && (#[trigger] n.toks[i]).kind is Eof implies n.done && i == n.toks.len() - 1
                && n.toks[i].span.lo == s.len() && n.toks[i].span.hi == s.len() by {
                if i < st.toks.len() {
                    assert(n.toks[i] == st.toks[i]);
                }
            }
        } else {
            lemma_single_inv(s, file, LexState { pos: p, ..st });
        }
    } else {
        match st.modes.last() {
            LexMode::Interp { depth } => {
                if p >= s.len() {
                    let m = st.modes.drop_last();
                    assert forall|k: int| 0 <= k < n.modes.len() - 1 && (#[trigger] n.modes[k]) is Str implies n.modes[k + 1] is Interp by {
                        assert(n.modes[k] == st.modes[k] && n.modes[k + 1] == st.modes[k + 1]);
                    }
                    assert(n.toks == st.toks);
                } else if s[p] == 125 && depth == 0 {
                    lemma_emit_inv(s, file, st, TokenKind::InterpEnd, p, p + 1, p + 1);
                    assert(spans_ok(st.toks, file, p + 1)) by {
                        assert forall|i: int| 0 <= i < st.toks.len() implies (#[trigger] st.toks[i]).span.file == file
                            && st.toks[i].span.lo <= st.toks[i].span.hi <= p + 1 by {}
                    }
                    lemma_emit_inv(s, file, st, TokenKind::InterpEnd, p, p + 1, p + 1);
                    assert forall|k: int| 0 <= k < n.modes.len() - 1 && (#[trigger] n.modes[k]) is Str implies n.modes[k + 1] is Interp by {
                        assert(n.modes[k] == st.modes[k] && n.modes[k + 1] == st.modes[k + 1]);
                    }
                    assert forall|i: int| 0 <= i < n.toks.len() && (#[trigger] n.toks[i]).kind is Eof implies false by {
                        if i < st.toks.len() {
                            assert(n.toks[i] == st.toks[i]);
                        }
                    }
                } else {
                    let d = if s[p] == 123 {
                        depth + 1
                    } else if s[p] == 125 {
                        depth - 1
                    } else {
                        depth
                    };
                    let st2 = LexState { pos: p, modes: st.modes.update(st.modes.len() - 1, LexMode::Interp { depth: d }), ..st };
                    assert forall|k: int| 0 <= k < st2.modes.len() - 1 && (#[trigger] st2.modes[k]) is Str implies st2.modes[k + 1] is Interp by {
                        assert(st2.modes[k] == st.modes[k]);
                        if k + 1 < st.modes.len() - 1 {
                            assert(st2.modes[k + 1] == st.modes[k + 1]);
                        }
                    }
                    lemma_single_inv(s, file, st2);
                }
            },
            LexMode::Str { start } => {
                let q = st.pos;
                if q >= s.len() {
                    lemma_emit_inv(s, file, st, TokenKind::Error(LexError::UnterminatedString), start, q, q);
                    assert forall|k: int| 0 <= k < n.modes.len() - 1 && (#[trigger] n.modes[k]) is Str implies n.modes[k + 1] is Interp by {
                        assert(n.modes[k] == st.modes[k] && n.modes[k + 1] == st.modes[k + 1]);
                    }
                    if n.modes.len() > 0 {
                        assert(st.modes[st.modes.len() - 2] is Str ==> st.modes[st.modes.len() - 1] is Interp);
                    }
                    assert forall|i: int| 0 <= i < n.toks.len() && (#[trigger] n.toks[i]).kind is Eof implies false by {
                        if i < st.toks.len() {
                            assert(n.toks[i] == st.toks[i]);
                        }
                    }
                } else if s[q] == 34 {
                    assert(spans_ok(st.toks, file, q + 1)) by {
                        assert forall|i: int| 0 <= i < st.toks.len() implies (#[trigger] st.toks[i]).span.file == file
                            && st.toks[i].span.lo <= st.toks[i].span.hi <= q + 1 by {}
                    }
                    lemma_text_inv(s, file, st, start, q, q + 1);
                    let t1 = emit_text_if(s, file, st, start, q);
                    lemma_emit_inv(s, file, t1, TokenKind::StrEnd, q, q + 1, q + 1);
                    assert forall|k: int| 0 <= k < n.modes.len() - 1 && (#[trigger] n.modes[k]) is Str implies n.modes[k + 1] is Interp by {
                        assert(n.modes[k] == st.modes[k] && n.modes[k + 1] == st.modes[k + 1]);
                    }
                    if n.modes.len() > 0 {
                        assert(st.modes[st.modes.len() - 2] is Str ==> st.modes[st.modes.len() - 1] is Interp);
                    }
                    assert forall|i: int| 0 <= i < n.toks.len() && (#[trigger] n.toks[i]).kind is Eof implies false by {
                        if i < t1.toks.len() {
                            assert(n.toks[i] == t1.toks[i]);
                        }
                    }
                } else if two(s, q, 36, 123) {
                    assert(spans_ok(st.toks, file, q + 2)) by {
                        assert forall|i: int| 0 <= i < st.toks.len() implies (#[trigger] st.toks[i]).span.file == file
                            && st.toks[i].span.lo <= st.toks[i].span.hi <= q + 2 by {}
                    }
                    lemma_text_inv(s, file, st, start, q, q + 2);
                    let t1 = emit_text_if(s, file, st, start, q);
                    lemma_emit_inv(s, file, t1, TokenKind::InterpStart, q, q + 2, q + 2);
                    assert forall|k: int| 0 <= k < n.modes.len() - 1 && (#[trigger] n.modes[k]) is Str implies n.modes[k + 1] is Interp by {
                        if k < st.modes.len() - 1 {
                            assert(n.modes[k] == st.modes[k] && n.modes[k + 1] == st.modes[k + 1]);
                        }
                    }
                    assert forall|i: int| 0 <= i < n.toks.len() && (#[trigger] n.toks[i]).kind is Eof implies false by {
                        if i < t1.toks.len() {
                            assert(n.toks[i] == t1.toks[i]);
                        }
                    }
                } else {
                    assert(n.toks == st.toks);
                    assert(n.modes == st.modes);
                }
            },
        }
    }
}

/// Running the machine to the end keeps what holds of it at every step.
proof fn lemma_run_inv(s: Seq<u8>, file: FileId, st: LexState)
    requires
        s.len() < u32::MAX,
        lex_inv(s, file, st),
        !st.done,
    ensures
        lex_inv(s, file, lex_run(s, file, st)),
    decreases s.len() - st.pos, st.modes.len(),
{
    let n = lex_step(s, file, st);
    lemma_step_inv(s, file, st);
    lemma_step_progress(s, file, st);
    if !n.done {
        lemma_run_inv(s, file, n);
    }
}

/// The tokens of a source of `n` bytes: at least one, the last `Eof` with an
/// empty span at `n` and no other `Eof`; every span in `file`, from its
/// start to its end within the source, and the spans start in order.
pub proof fn lemma_tokenize_spans(s: Seq<u8>, file: FileId, strs: Seq<Seq<u8>>)
    requires
        s.len() < u32::MAX,
    ensures
        ({
            let toks = lex_run(s, file, lex_start(strs)).toks;
            &&& toks.len() > 0
            &&& toks.last().kind is Eof
            &&& toks.last().span.lo == s.len() && toks.last().span.hi == s.len()
            &&& forall|i: int| 0 <= i < toks.len() - 1 ==> !((#[trigger] toks[i]).kind is Eof)
            &&& spans_ok(toks, file, s.len() as int)
        }),
{
    let st = lex_start(strs);
    lemma_run_inv(s, file, st);
    lemma_run_ends(s, file, st);
    let r = lex_run(s, file, st);
    assert(r.toks[r.toks.len() - 1].kind is Eof);
    assert forall|i: int| 0 <= i < r.toks.len() - 1 implies !((#[trigger] r.toks[i]).kind is Eof) by {}
    assert(spans_ok(r.toks, file, s.len() as int)) by {
        assert forall|i: int| 0 <= i < r.toks.len() implies (#[trigger] r.toks[i]).span.file == file
            && r.toks[i].span.lo <= r.toks[i].span.hi <= s.len() by {}
    }
}

} // verus!

verus! {

// ---------------------------------------------------------------------------
// Executable lexer

fn is_ws_byte(b: u8) -> (r: bool)
    ensures
        r == is_ws(b),
{
    b == 32 || b == 9 || b == 10 || b == 12 || b == 13
}

fn is_digit_byte(b: u8) -> (r: bool)
    ensures
        r == is_digit(b),
{
    48 <= b && b <= 57
}

fn is_ident_start_byte(b: u8) -> (r: bool)
    ensures
        r == is_ident_start(b),
{
    (97 <= b && b <= 122) || (65 <= b && b <= 90) || b == 95
}

fn is_ident_char_byte(b: u8) -> (r: bool)
    ensures
        r == is_ident_char(b),
{
    is_ident_start_byte(b) || is_digit_byte(b)
}

fn skip_ws_exec(b: &[u8], pos: usize) -> (r: usize)
    requires
        pos <= b@.len(),
    ensures
        r == skip_ws(b@, pos as int, false),
        pos <= r <= b@.len(),
{
    proof {
        lemma_skip_ws(b@, pos as int, false);
    }
    let mut p = pos;
    let mut c = false;
    while p < b.len()
        invariant
            pos <= p <= b@.len(),
            skip_ws(b@, p as int, c) == skip_ws(b@, pos as int, false),
        decreases b@.len() - p,
    {
        if c {
            c = b[p] != 10;
            p = p + 1;
        } else if p + 1 < b.len() && b[p] == 47 && b[p + 1] == 47 {
            p = p + 2;
            c = true;
        } else if is_ws_byte(b[p]) {
            p = p + 1;
        } else {
            return p;
        }
    }
    p
}

fn scan_digits_exec(b: &[u8], p: usize) -> (r: usize)
    requires
        p <= b@.len(),
    ensures
        r == scan_digits(b@, p as int),
{
    let mut q = p;
    while q < b.len() && is_digit_byte(b[q])
        invariant
            p <= q <= b@.len(),
            scan_digits(b@, q as int) == scan_digits(b@, p as int),
        decreases b@.len() - q,
    {
        q = q + 1;
    }
    q
}

fn scan_ident_exec(b: &[u8], p: usize) -> (r: usize)
    requires
        p <= b@.len(),
    ensures
        r == scan_ident(b@, p as int),
{
    let mut q = p;
    while q < b.len() && is_ident_char_byte(b[q])
        invariant
            p <= q <= b@.len(),
            scan_ident(b@, q as int) == scan_ident(b@, p as int),
        decreases b@.len() - q,
    {
        q = q + 1;
    }
    q
}

/// The value of the integer literal `b[lo..hi]`, which is all digits.
fn int_literal_exec(b: &[u8], lo: usize, hi: usize) -> (v: i64)
    requires
        lo <= hi <= b@.len(),
        forall|i: int| lo <= i < hi ==> is_digit(b@[i]),
    ensures
        v == int_literal(b@.subrange(lo as int, hi as int)),
{
    let mut acc: u64 = 0;
    let mut over = false;
    let mut i = lo;
    while i < hi
        invariant
            lo <= i <= hi <= b@.len(),
            forall|j: int| lo <= j < hi ==> is_digit(b@[j]),
            !over ==> acc == digits_value(b@.subrange(lo as int, i as int)) && acc <= i64::MAX,
            over ==> digits_value(b@.subrange(lo as int, i as int)) > i64::MAX,
        decreases hi - i,
    {
        let ghost prev = b@.subrange(lo as int, i as int);
        assert(b@.subrange(lo as int, i + 1).drop_last() =~= prev);
        let d = (b[i] - 48) as u64;
        assert(digits_value(b@.subrange(lo as int, i + 1)) == digits_value(prev) * 10 + d);
        if !over {
            if acc <= 922337203685477580 {
                let next = acc * 10 + d;
                if next > 9223372036854775807 {
                    over = true;
                } else {
                    acc = next;
                }
            } else {
                over = true;
            }
        }
        i = i + 1;
    }
    if over {
        0
    } else {
        acc as i64
    }
}

/// Whether `b[lo..hi]` spells `w`.
fn word_eq(b: &[u8], lo: usize, hi: usize, w: &[u8]) -> (r: bool)
    requires
        lo <= hi <= b@.len(),
    ensures
        r == (b@.subrange(lo as int, hi as int) == w@),
{
    crate::bytes::bytes_eq(&b[lo..hi], w)
}

fn keyword_exec(b: &[u8], lo: usize, hi: usize) -> (k: Option<TokenKind>)
    requires
        lo <= hi <= b@.len(),
    ensures
        match k {
            Some(k) => keyword_kind(b@.subrange(lo as int, hi as int)) == Some(kind_view(k)),
            None => keyword_kind(b@.subrange(lo as int, hi as int)) is None,
        },
{
    let w = vec![115u8, 99u8, 114u8, 101u8, 101u8, 110u8];
    if word_eq(b, lo, hi, w.as_slice()) {
        return Some(TokenKind::Screen);
    }
    let w = vec![99u8, 111u8, 109u8, 112u8, 111u8, 110u8, 101u8, 110u8, 116u8];
    if word_eq(b, lo, hi, w.as_slice()) {
        return Some(TokenKind::Component);
    }
    let w = vec![115u8, 116u8, 97u8, 116u8, 101u8];
    if word_eq(b, lo, hi, w.as_slice()) {
        return Some(TokenKind::State);
    }
    let w = vec![117u8, 115u8, 101u8];
    if word_eq(b, lo, hi, w.as_slice()) {
        return Some(TokenKind::Use);
    }
    let w = vec![105u8, 102u8];
    if word_eq(b, lo, hi, w.as_slice()) {
        return Some(TokenKind::If);
    }
    let w = vec![101u8, 108u8, 115u8, 101u8];
    if word_eq(b, lo, hi, w.as_slice()) {
        return Some(TokenKind::Else);
    }
    let w = vec![109u8, 97u8, 116u8, 99u8, 104u8];
    if word_eq(b, lo, hi, w.as_slice()) {
        return Some(TokenKind::Match);
    }
    let w = vec![105u8, 110u8];
    if word_eq(b, lo, hi, w.as_slice()) {
        return Some(TokenKind::In);
    }
    let w = vec![97u8, 119u8, 97u8, 105u8, 116u8];
    if word_eq(b, lo, hi, w.as_slice()) {
        return Some(TokenKind::Await);
    }
    let w = vec![111u8, 110u8, 76u8, 111u8, 97u8, 100u8];
    if word_eq(b, lo, hi, w.as_slice()) {
        return Some(TokenKind::OnLoad);
    }
    let w = vec![111u8, 110u8, 65u8, 112u8, 112u8, 101u8, 97u8, 114u8];
    if word_eq(b, lo, hi, w.as_slice()) {
        return Some(TokenKind::OnAppear);
    }
    let w = vec![111u8, 110u8, 68u8, 105u8, 115u8, 112u8, 111u8, 115u8, 101u8];
    if word_eq(b, lo, hi, w.as_slice()) {
        return Some(TokenKind::OnDispose);
    }
    let w = vec![112u8, 108u8, 97u8, 116u8, 102u8, 111u8, 114u8, 109u8];
    if word_eq(b, lo, hi, w.as_slice()) {
        return Some(TokenKind::Platform);
    }
    let w = vec![116u8, 114u8, 117u8, 101u8];
    if word_eq(b, lo, hi, w.as_slice()) {
        return Some(TokenKind::Bool(true));
    }
    let w = vec![102u8, 97u8, 108u8, 115u8, 101u8];
    if word_eq(b, lo, hi, w.as_slice()) {
        return Some(TokenKind::Bool(false));
    }
    None
}

enum RawExec {
    Kind(TokenKind),
    Name,
}

spec fn raw_view(r: RawExec) -> RawTok {
    match r {
        RawExec::Kind(k) => RawTok::Kind(kind_view(k)),
        RawExec::Name => RawTok::Name,
    }
}

fn lex_raw_exec(b: &[u8], p: usize) -> (r: (RawExec, usize))
    requires
        p < b@.len(),
    ensures
        (raw_view(r.0), r.1 as int) == lex_raw(b@, p as int),
{
    let c = b[p];
    if c == 123 {
        (RawExec::Kind(TokenKind::LBrace), p + 1)
    } else if c == 125 {
        (RawExec::Kind(TokenKind::RBrace), p + 1)
    } else if c == 40 {
        (RawExec::Kind(TokenKind::LParen), p + 1)
    } else if c == 41 {
        (RawExec::Kind(TokenKind::RParen), p + 1)
    } else if c == 44 {
        (RawExec::Kind(TokenKind::Comma), p + 1)
    } else if c == 46 {
        (RawExec::Kind(TokenKind::Dot), p + 1)
    } else if c == 58 {
        if starts_with2(b, p, 58, 58) {
            (RawExec::Kind(TokenKind::ColonColon), p + 2)
        } else {
            (RawExec::Kind(TokenKind::Colon), p + 1)
        }
    } else if c == 43 {
        if starts_with2(b, p, 43, 43) {
            (RawExec::Kind(TokenKind::PlusPlus), p + 2)
        } else if starts_with2(b, p, 43, 61) {
            (RawExec::Kind(TokenKind::PlusEq), p + 2)
        } else {
            (RawExec::Kind(TokenKind::Plus), p + 1)
        }
    } else if c == 45 {
        if starts_with2(b, p, 45, 45) {
            (RawExec::Kind(TokenKind::MinusMinus), p + 2)
        } else if starts_with2(b, p, 45, 61) {
            (RawExec::Kind(TokenKind::MinusEq), p + 2)
        } else {
            (RawExec::Kind(TokenKind::Minus), p + 1)
        }
    } else if c == 42 {
        if starts_with2(b, p, 42, 61) {
            (RawExec::Kind(TokenKind::StarEq), p + 2)
        } else {
            (RawExec::Kind(TokenKind::Star), p + 1)
        }
    } else if c == 47 {
        if starts_with2(b, p, 47, 61) {
            (RawExec::Kind(TokenKind::SlashEq), p + 2)
        } else {
            (RawExec::Kind(TokenKind::Slash), p + 1)
        }
    } else if c == 37 {
        (RawExec::Kind(TokenKind::Percent), p + 1)
    } else if c == 61 {
        if starts_with2(b, p, 61, 61) {
            (RawExec::Kind(TokenKind::EqEq), p + 2)
        } else {
            (RawExec::Kind(TokenKind::Eq), p + 1)
        }
    } else if c == 33 {
        if starts_with2(b, p, 33, 61) {
            (RawExec::Kind(TokenKind::NotEq), p + 2)
        } else {
            (RawExec::Kind(TokenKind::Bang), p + 1)
        }
    } else if c == 60 {
        if starts_with2(b, p, 60, 61) {
            (RawExec::Kind(TokenKind::LtEq), p + 2)
        } else {
            (RawExec::Kind(TokenKind::LAngle), p + 1)
        }
    } else if c == 62 {
        if starts_with2(b, p, 62, 61) {
            (RawExec::Kind(TokenKind::GtEq), p + 2)
        } else {
            (RawExec::Kind(TokenKind::RAngle), p + 1)
        }
    } else if c == 38 {
        if starts_with2(b, p, 38, 38) {
            (RawExec::Kind(TokenKind::AndAnd), p + 2)
        } else {
            (RawExec::Kind(TokenKind::Error(LexError::UnexpectedChar('&'))), p + 1)
        }
    } else if c == 124 {
        if starts_with2(b, p, 124, 124) {
            (RawExec::Kind(TokenKind::OrOr), p + 2)
        } else {
            (RawExec::Kind(TokenKind::Error(LexError::UnexpectedChar('|'))), p + 1)
        }
    } else if is_digit_byte(c) {
        let q = scan_digits_exec(b, p);
        proof {
            lemma_scan_digits(b@, p as int);
        }
        if q < b.len() - 1 && b[q] == 46 && is_digit_byte(b[q + 1]) {
            let r = scan_digits_exec(b, q + 1);
            proof {
                lemma_scan_digits(b@, q + 1);
            }
            (RawExec::Kind(TokenKind::Float(copy_range(b, p, r))), r)
        } else {
            (RawExec::Kind(TokenKind::Int(int_literal_exec(b, p, q))), q)
        }
    } else if is_ident_start_byte(c) {
        let q = scan_ident_exec(b, p);
        proof {
            lemma_scan_ident(b@, p as int);
        }
        match keyword_exec(b, p, q) {
            Some(k) => (RawExec::Kind(k), q),
            None => (RawExec::Name, q),
        }
    } else {
        (RawExec::Kind(TokenKind::Error(LexError::UnexpectedChar(c as char))), p + 1)
    }
}

#[derive(Clone, Copy)]
enum Mode {
    Str(usize),
    Interp(u32),
}

spec fn mode_view(m: Mode) -> LexMode {
    match m {
        Mode::Str(start) => LexMode::Str { start: start as int },
        Mode::Interp(depth) => LexMode::Interp { depth: depth as int },
    }
}

/// The lexer's executable state; the interner is held by the caller.
struct Machine {
    pos: usize,
    modes: Vec<Mode>,
    tokens: Vec<Token>,
    done: bool,
}

impl Machine {
    spec fn lex_view(&self, strs: Seq<Seq<u8>>) -> LexState {
        LexState {
            pos: self.pos as int,
            modes: self.modes@.map_values(|m: Mode| mode_view(m)),
            toks: tokens_view(self.tokens@),
            strs,
            done: self.done,
        }
    }

    fn emit(&mut self, file: FileId, kind: TokenKind, lo: usize, hi: usize)
        ensures
            final(self).pos == old(self).pos,
            final(self).modes@ == old(self).modes@,
            final(self).done == old(self).done,
            tokens_view(final(self).tokens@) == tokens_view(old(self).tokens@).push(
                SpecToken { kind: kind_view(kind), span: Span { file, lo: lo as u32, hi: hi as u32 } },
            ),
    {
        let ghost k = kind_view(kind);
        self.tokens.push(Token { kind, span: Span::new(file, lo as u32, hi as u32) });
        assert(tokens_view(self.tokens@) =~= tokens_view(old(self).tokens@).push(
            SpecToken { kind: k, span: Span { file, lo: lo as u32, hi: hi as u32 } },
        ));
    }
}

} // verus!

verus! {

/// Bounds on the positions and depths that the modes record, relative to `pos`.
spec fn modes_ok(m: Seq<Mode>, pos: int) -> bool {
    forall|i: int|
        0 <= i < m.len() ==> match #[trigger] m[i] {
            Mode::Str(start) => start <= pos,
            Mode::Interp(depth) => 0 <= depth < pos,
        }
}

impl Machine {
    spec fn wf(&self, n: int, base: int, strs: Seq<Seq<u8>>) -> bool {
        &&& self.pos <= n
        &&& n < u32::MAX
        &&& base + n < u32::MAX
        &&& strs.len() <= base + self.pos
        &&& modes_ok(self.modes@, self.pos as int)
    }

    fn push_text(&mut self, b: &[u8], file: FileId, interner: &mut Interner, start: usize, p: usize)
        requires
            start <= p <= b@.len(),
            old(interner)@.len() < u32::MAX,
        ensures
            final(self).lex_view(final(interner)@) == emit_text_if(
                b@,
                file,
                old(self).lex_view(old(interner)@),
                start as int,
                p as int,
            ),
            final(interner)@.len() <= old(interner)@.len() + 1,
            final(self).pos == old(self).pos,
            final(self).modes@ == old(self).modes@,
            final(self).done == old(self).done,
    {
        if p > start {
            let sym = interner.intern(&b[start..p]);
            self.emit(file, TokenKind::StrText(sym), start, p);
        }
    }

    /// Reads one token at `pos`.
    fn single(&mut self, b: &[u8], file: FileId, interner: &mut Interner, Ghost(base): Ghost<int>)
        requires
            old(self).pos < b@.len(),
            b@.len() < u32::MAX,
            base + b@.len() < u32::MAX,
            old(interner)@.len() <= base + old(self).pos,
            modes_ok(old(self).modes@, old(self).pos + 1),
            !old(self).done,
        ensures
            final(self).lex_view(final(interner)@) == single_step(
                b@,
                file,
                old(self).lex_view(old(interner)@),
            ),
            final(self).wf(b@.len() as int, base, final(interner)@),
            final(self).pos > old(self).pos,
    {
        let p = self.pos;
        proof {
            lemma_lex_raw(b@, p as int);
        }
        if b[p] == 34 {
            self.emit(file, TokenKind::StrStart, p, p + 1);
            self.pos = p + 1;
            self.modes.push(Mode::Str(p + 1));
            proof {
                let old_modes = old(self).modes@.map_values(|m: Mode| mode_view(m));
                assert(self.modes@.map_values(|m: Mode| mode_view(m)) =~= old_modes.push(
                    LexMode::Str { start: p + 1 },
                ));
            }
        } else {
            let (raw, next) = lex_raw_exec(b, p);
            match raw {
                RawExec::Kind(k) => {
                    self.emit(file, k, p, next);
                    self.pos = next;
                },
                RawExec::Name => {
                    let sym = interner.intern(&b[p..next]);
                    self.emit(file, TokenKind::Ident(sym), p, next);
                    self.pos = next;
                },
            }
        }
    }
}

} // verus!

verus! {

impl Machine {
    spec fn step_pre(&self, b: Seq<u8>, base: int, strs: Seq<Seq<u8>>) -> bool {
        &&& self.wf(b.len() as int, base, strs)
        &&& !self.done
    }

    spec fn step_post(&self, b: Seq<u8>, file: FileId, base: int, strs: Seq<Seq<u8>>, before: LexState) -> bool {
        &&& self.lex_view(strs) == lex_step(b, file, before)
        &&& self.wf(b.len() as int, base, strs)
    }

    fn top_step(&mut self, b: &[u8], file: FileId, interner: &mut Interner, Ghost(base): Ghost<int>)
        requires
            old(self).step_pre(b@, base, old(interner)@),
            old(self).modes@.len() == 0,
        ensures
            final(self).step_post(b@, file, base, final(interner)@, old(self).lex_view(old(interner)@)),
    {
        let p = skip_ws_exec(b, self.pos);
        self.pos = p;
        if p >= b.len() {
            self.emit(file, TokenKind::Eof, p, p);
            self.done = true;
        } else {
            self.single(b, file, interner, Ghost(base));
        }
    }

    /// Leaves the innermost interpolation at `p`.
    fn leave_interp(&mut self, p: usize)
        requires
            old(self).modes@.len() > 0,
        ensures
            final(self).modes@.map_values(|m: Mode| mode_view(m)) == pop_interp(
                old(self).modes@.map_values(|m: Mode| mode_view(m)),
                p as int,
            ),
            final(self).modes@.len() == old(self).modes@.len() - 1,
            forall|i: int|
                0 <= i < final(self).modes@.len() ==> (#[trigger] final(self).modes@[i]
                    == old(self).modes@[i] || final(self).modes@[i] == Mode::Str(p)),
            final(self).pos == old(self).pos,
            final(self).done == old(self).done,
            final(self).tokens@ == old(self).tokens@,
    {
        let ghost before = self.modes@.map_values(|m: Mode| mode_view(m));
        self.modes.pop();
        assert(self.modes@.map_values(|m: Mode| mode_view(m)) =~= before.drop_last());
        let n = self.modes.len();
        if n > 0 {
            match self.modes[n - 1] {
                Mode::Str(_) => {
                    self.modes.set(n - 1, Mode::Str(p));
                    assert(self.modes@.map_values(|m: Mode| mode_view(m)) =~= before.drop_last().update(
                        n - 1,
                        LexMode::Str { start: p as int },
                    ));
                },
                Mode::Interp(_) => {},
            }
        }
    }

    fn interp_step(
        &mut self,
        b: &[u8],
        file: FileId,
        interner: &mut Interner,
        Ghost(base): Ghost<int>,
        depth: u32,
    )
        requires
            old(self).step_pre(b@, base, old(interner)@),
            old(self).modes@.len() > 0,
            old(self).modes@.last() == Mode::Interp(depth),
        ensures
            final(self).step_post(b@, file, base, final(interner)@, old(self).lex_view(old(interner)@)),
    {
        let ghost v0 = self.lex_view(interner@);
        assert(v0.modes.last() == LexMode::Interp { depth: depth as int });
        let p = skip_ws_exec(b, self.pos);
        self.pos = p;
        if p >= b.len() {
            self.leave_interp(p);
        } else if b[p] == 125 && depth == 0 {
            self.emit(file, TokenKind::InterpEnd, p, p + 1);
            self.pos = p + 1;
            self.leave_interp(p + 1);
        } else {
            let last = self.modes.len() - 1;
            assert(0 <= depth < old(self).pos);
            let d: u32 = if b[p] == 123 {
                depth + 1
            } else if b[p] == 125 {
                depth - 1
            } else {
                depth
            };
            let ghost before = self.modes@.map_values(|m: Mode| mode_view(m));
            self.modes.set(last, Mode::Interp(d));
            assert(self.modes@.map_values(|m: Mode| mode_view(m)) =~= before.update(
                last as int,
                LexMode::Interp { depth: d as int },
            ));
            assert(modes_ok(self.modes@, p + 1)) by {
                assert forall|i: int| 0 <= i < self.modes@.len() implies match #[trigger] self.modes@[i] {
                    Mode::Str(start) => start <= p + 1,
                    Mode::Interp(depth) => 0 <= depth < p + 1,
                } by {
                    if i != last {
                        assert(self.modes@[i] == old(self).modes@[i]);
                    }
                }
            }
            self.single(b, file, interner, Ghost(base));
        }
    }

    fn str_step(
        &mut self,
        b: &[u8],
        file: FileId,
        interner: &mut Interner,
        Ghost(base): Ghost<int>,
        start: usize,
    )
        requires
            old(self).step_pre(b@, base, old(interner)@),
            old(self).modes@.len() > 0,
            old(self).modes@.last() == Mode::Str(start),
        ensures
            final(self).step_post(b@, file, base, final(interner)@, old(self).lex_view(old(interner)@)),
    {
        let ghost v0 = self.lex_view(interner@);
        assert(v0.modes.last() == LexMode::Str { start: start as int });
        let ghost m0 = self.modes@.map_values(|m: Mode| mode_view(m));
        let p = self.pos;
        if p >= b.len() {
            self.emit(file, TokenKind::Error(LexError::UnterminatedString), start, p);
            self.modes.pop();
            assert(self.modes@.map_values(|m: Mode| mode_view(m)) =~= m0.drop_last());
        } else if b[p] == 34 {
            self.push_text(b, file, interner, start, p);
            self.emit(file, TokenKind::StrEnd, p, p + 1);
            self.pos = p + 1;
            self.modes.pop();
            assert(self.modes@.map_values(|m: Mode| mode_view(m)) =~= m0.drop_last());
        } else if starts_with2(b, p, 36, 123) {
            self.push_text(b, file, interner, start, p);
            self.emit(file, TokenKind::InterpStart, p, p + 2);
            self.pos = p + 2;
            self.modes.push(Mode::Interp(0));
            assert(self.modes@.map_values(|m: Mode| mode_view(m)) =~= m0.push(
                LexMode::Interp { depth: 0 },
            ));
        } else if b[p] == 92 && p < b.len() - 1 {
            self.pos = p + 2;
        } else {
            self.pos = p + 1;
        }
    }

    fn step(&mut self, b: &[u8], file: FileId, interner: &mut Interner, Ghost(base): Ghost<int>)
        requires
            old(self).step_pre(b@, base, old(interner)@),
        ensures
            final(self).step_post(b@, file, base, final(interner)@, old(self).lex_view(old(interner)@)),
    {
        if self.modes.len() == 0 {
            self.top_step(b, file, interner, Ghost(base));
        } else {
            let last = self.modes.len() - 1;
            match self.modes[last] {
                Mode::Interp(depth) => self.interp_step(b, file, interner, Ghost(base), depth),
                Mode::Str(start) => self.str_step(b, file, interner, Ghost(base), start),
            }
        }
    }
}

/// Splits `source` into tokens, interning identifiers and string texts.
///
/// The tokens and the interner afterwards are exactly those of the lexing
/// machine run from the start of the source; the token list always ends with
/// `Eof` at the end of the source.
pub fn tokenize(source: &str, file: FileId, interner: &mut Interner) -> (tokens: Vec<Token>)
    requires
        source.spec_bytes().len() < u32::MAX,
        old(interner)@.len() + source.spec_bytes().len() < u32::MAX,
    ensures
        tokens_view(tokens@) == lex_run(source.spec_bytes(), file, lex_start(old(interner)@)).toks,
        final(interner)@ == lex_run(source.spec_bytes(), file, lex_start(old(interner)@)).strs,
        tokens@.len() > 0,
        kind_view(tokens@.last().kind) is Eof,
        tokens@.last().span.lo == source.spec_bytes().len() && tokens@.last().span.hi == source.spec_bytes().len(),
        forall|i: int| 0 <= i < tokens@.len() - 1 ==> !(kind_view((#[trigger] tokens@[i]).kind) is Eof),
        spans_ok(tokens_view(tokens@), file, source.spec_bytes().len() as int),
        final(interner)@.subrange(0, old(interner)@.len() as int) == old(interner)@,
{
    let b = source.as_bytes();
    let ghost base = interner@.len() as int;
    let ghost init = lex_start(interner@);
    let mut m = Machine { pos: 0, modes: Vec::new(), tokens: Vec::new(), done: false };
    assert(m.modes@.map_values(|m: Mode| mode_view(m)) =~= Seq::<LexMode>::empty());
    assert(tokens_view(m.tokens@) =~= Seq::<SpecToken>::empty());
    assert(m.lex_view(interner@) == init);
    while !m.done
        invariant
            m.wf(b@.len() as int, base, interner@),
            lex_run(b@, file, m.lex_view(interner@)) == lex_run(b@, file, init),
        decreases (if m.done { 0int } else { 1int }), b@.len() - m.pos, m.modes@.len(),
    {
        let ghost before = m.lex_view(interner@);
        proof {
            lemma_step_progress(b@, file, before);
        }
        m.step(b, file, interner, Ghost(base));
    }
    proof {
        lemma_run_ends(b@, file, init);
        lemma_tokenize_spans(b@, file, old(interner)@);
        let tv = tokens_view(m.tokens@);
        assert(tv.last() == token_view(m.tokens@.last()));
        assert forall|i: int| 0 <= i < m.tokens@.len() - 1 implies !(kind_view((#[trigger] m.tokens@[i]).kind) is Eof) by {
            assert(tv[i] == token_view(m.tokens@[i]));
        }
    }
    m.tokens
}

} // verus!
