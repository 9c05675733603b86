use flash::lexer::{tokenize, TokenKind};
use flash::span::{FileId, Interner};

#[test]
fn counter_interpolation_tokens() {
    let src = r#"Text("Count: ${count}")"#;
    let mut interner = Interner::new();
    let tokens = tokenize(src, FileId(0), &mut interner);
    println!("token count: {}", tokens.len());
    for t in &tokens {
        println!("{:?}", t.kind);
    }
    assert!(tokens.iter().any(|t| matches!(t.kind, TokenKind::InterpStart)));
    assert!(tokens.iter().any(|t| matches!(t.kind, TokenKind::StrEnd)));
    assert!(tokens.len() < 50, "too many tokens — possible infinite lex");
}

#[test]
fn interpolation_token_sequence() {
    let mut interner = Interner::new();
    let tokens = tokenize(r#"Text("Count: ${count}")"#, FileId(0), &mut interner);
    let kinds: Vec<String> = tokens.iter().map(|t| format!("{:?}", t.kind)).collect();
    assert_eq!(kinds.len(), 10);
    assert!(matches!(tokens[0].kind, TokenKind::Ident(_)));
    assert!(matches!(tokens[1].kind, TokenKind::LParen));
    assert!(matches!(tokens[2].kind, TokenKind::StrStart));
    assert!(matches!(tokens[3].kind, TokenKind::StrText(_)));
    assert!(matches!(tokens[4].kind, TokenKind::InterpStart));
    assert!(matches!(tokens[5].kind, TokenKind::Ident(_)));
    assert!(matches!(tokens[6].kind, TokenKind::InterpEnd));
    assert!(matches!(tokens[7].kind, TokenKind::StrEnd));
    assert!(matches!(tokens[8].kind, TokenKind::RParen));
    assert!(matches!(tokens[9].kind, TokenKind::Eof));
}

#[test]
fn keywords_numbers_and_operators() {
    let mut interner = Interner::new();
    let tokens = tokenize("screen H { count += 42 }", FileId(0), &mut interner);
    assert!(matches!(tokens[0].kind, TokenKind::Screen));
    assert!(matches!(tokens[1].kind, TokenKind::Ident(_)));
    assert!(matches!(tokens[2].kind, TokenKind::LBrace));
    assert!(matches!(tokens[3].kind, TokenKind::Ident(_)));
    assert!(matches!(tokens[4].kind, TokenKind::PlusEq));
    assert!(matches!(tokens[5].kind, TokenKind::Int(42)));
    assert!(matches!(tokens[6].kind, TokenKind::RBrace));
    assert!(matches!(tokens[7].kind, TokenKind::Eof));
    assert_eq!(tokens.len(), 8);
}

#[test]
fn empty_source_gives_only_eof() {
    let mut interner = Interner::new();
    let tokens = tokenize("", FileId(3), &mut interner);
    assert_eq!(tokens.len(), 1);
    assert!(matches!(tokens[0].kind, TokenKind::Eof));
}

#[test]
fn same_identifier_interned_once() {
    let mut interner = Interner::new();
    let tokens = tokenize("count count", FileId(0), &mut interner);
    match (&tokens[0].kind, &tokens[1].kind) {
        (TokenKind::Ident(a), TokenKind::Ident(b)) => assert_eq!(a, b),
        _ => panic!("expected two identifiers"),
    }
    assert_eq!(interner.len(), 1);
}

#[test]
fn spans_start_in_order_and_end_at_eof() {
    for src in ["screen A { Text(\"a${b + 1}c\") } // done", "\"open ${x", "", "  @ & | 42"] {
        let mut interner = Interner::new();
        let toks = tokenize(src, FileId(3), &mut interner);
        let n = src.len() as u32;
        let last = toks.last().unwrap();
        assert!(matches!(last.kind, TokenKind::Eof));
        assert_eq!((last.span.lo, last.span.hi), (n, n));
        assert_eq!(toks.iter().filter(|t| matches!(t.kind, TokenKind::Eof)).count(), 1);
        for w in toks.windows(2) {
            assert!(w[0].span.lo <= w[1].span.lo);
        }
        for t in &toks {
            assert_eq!(t.span.file, FileId(3));
            assert!(t.span.lo <= t.span.hi && t.span.hi <= n);
        }
        assert!(toks.len() <= 2 * src.len() + 1);
    }
}
