use sploosh::lexer::{lex, TokenKind};
#[test]
fn contextual_keywords_remain_identifiers() {
    let tokens = lex("send rx.recv(); storage::get(key)").unwrap();
    assert_eq!(tokens[0].kind, TokenKind::Ident);
    assert_eq!(tokens[3].kind, TokenKind::Ident);
    assert_eq!(tokens[7].kind, TokenKind::Ident);
}

#[test]
fn lexes_division_and_keeps_comments() {
    let tokens = lex("a / b").unwrap();
    assert_eq!(tokens[1].kind, TokenKind::Slash);
    // `//` still wins over `/` via the guarded arm: only the doc comment survives.
    let doc = lex("/// d\na").unwrap();
    assert_eq!(doc[0].kind, TokenKind::DocComment);
    assert!(
        lex("a // trailing\nb")
            .unwrap()
            .iter()
            .all(|t| t.kind != TokenKind::Slash)
    );
}

#[test]
fn lexes_suffixed_numbers() {
    let tokens = lex("42u32 3.14f32 1e10 42f64 0xFFu8").unwrap();
    assert_eq!(tokens[0].kind, TokenKind::IntLit);
    assert_eq!(tokens[1].kind, TokenKind::FloatLit);
    assert_eq!(tokens[2].kind, TokenKind::FloatLit);
    assert_eq!(tokens[3].kind, TokenKind::FloatLit);
    assert_eq!(tokens[4].kind, TokenKind::IntLit);
}

#[test]
fn rejects_bad_numeric_separators() {
    let err = lex("1__2").unwrap_err();
    assert!(err[0].message.contains("numeric separators"));
}

#[test]
fn validates_escape_ranges() {
    assert!(lex(r#""\x7F""#).is_ok());
    assert!(lex(r#""\x80""#).is_err());
    assert!(lex(r#""\u{10FFFF}""#).is_ok());
    assert!(lex(r#""\u{D800}""#).is_err());
    assert!(lex(r#""\u{110000}""#).is_err());
}
