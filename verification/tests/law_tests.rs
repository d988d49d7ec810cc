use sploosh::ast::{BinaryOp, Expr, ExprKind, ItemKind, Span};
use sploosh::lexer::{is_contextual_keyword, lex, Keyword, TokenKind};
use sploosh::parser::parse_program;

fn tail_of(source: &str) -> Expr {
    let program = parse_program(source).unwrap();
    let item = program.items.into_iter().next().unwrap();
    let ItemKind::Function(func) = item.kind else {
        panic!("expected function");
    };
    *func.body.expect("function body").tail.expect("tail expression")
}

#[test]
fn span_join_is_the_smallest_cover() {
    let a = Span::new(2, 5);
    let b = Span::new(4, 9);
    assert_eq!(a.join(b), Span::new(2, 9));
    assert_eq!(b.join(a), Span::new(2, 9));
    assert_eq!(a.join(a), a);
    let c = Span::new(0, 3);
    assert_eq!(a.join(b).join(c), a.join(b.join(c)));
    assert_eq!(a.join(b).join(c), Span::new(0, 9));
}

#[test]
fn reserved_spellings_round_trip() {
    assert_eq!(Keyword::from_reserved("let"), Some(Keyword::Let));
    assert_eq!(Keyword::from_reserved("Self"), Some(Keyword::SelfType));
    assert_eq!(Keyword::from_reserved("self"), Some(Keyword::SelfValue));
    assert_eq!(Keyword::from_reserved("offchain"), Some(Keyword::Offchain));
    assert_eq!(Keyword::from_reserved("lets"), None);
    assert_eq!(Keyword::from_reserved(""), None);
}

#[test]
fn contextual_keywords_are_never_reserved() {
    for word in ["send", "recv", "storage", "mut", "dyn", "ref", "crate", "super", "where"] {
        assert!(is_contextual_keyword(word));
        assert_eq!(Keyword::from_reserved(word), None);
        assert_eq!(lex(word).unwrap()[0].kind, TokenKind::Ident);
    }
    assert!(is_contextual_keyword("send"));
    assert!(!is_contextual_keyword("let"));
    assert_eq!(lex("send").unwrap()[0].kind, TokenKind::Ident);
}

#[test]
fn words_are_lexed_to_their_full_length() {
    let source = "letx let x1_y";
    let tokens = lex(source).unwrap();
    assert_eq!(tokens.len(), 3);
    assert_eq!(tokens[0].kind, TokenKind::Ident);
    assert_eq!(tokens[0].span, Span::new(0, 4));
    assert_eq!(tokens[1].kind, TokenKind::Keyword(Keyword::Let));
    assert_eq!(tokens[1].span, Span::new(5, 8));
    assert_eq!(tokens[2].span, Span::new(9, 13));
    assert_eq!(tokens[2].text(source), "x1_y");
}

#[test]
fn operators_are_lexed_to_their_full_length() {
    let kinds: Vec<TokenKind> = lex("a==b=>c!=d..=e..f|>g||h&&i->j::k<=l>=m/n")
        .unwrap()
        .into_iter()
        .map(|t| t.kind)
        .filter(|k| *k != TokenKind::Ident)
        .collect();
    assert_eq!(
        kinds,
        vec![
            TokenKind::EqEq,
            TokenKind::FatArrow,
            TokenKind::Ne,
            TokenKind::DotDotEq,
            TokenKind::DotDot,
            TokenKind::PipeGt,
            TokenKind::PipePipe,
            TokenKind::AmpAmp,
            TokenKind::Arrow,
            TokenKind::ColonColon,
            TokenKind::Le,
            TokenKind::Ge,
            TokenKind::Slash,
        ]
    );
    let spaced: Vec<TokenKind> = lex("= = . . : :").unwrap().into_iter().map(|t| t.kind).collect();
    assert_eq!(
        spaced,
        vec![
            TokenKind::Eq,
            TokenKind::Eq,
            TokenKind::Dot,
            TokenKind::Dot,
            TokenKind::Colon,
            TokenKind::Colon,
        ]
    );
}

#[test]
fn only_whitespace_and_comments_fall_between_tokens() {
    let source = "a // note\n\tb";
    let tokens = lex(source).unwrap();
    assert_eq!(tokens.len(), 2);
    assert_eq!(tokens[0].span, Span::new(0, 1));
    assert_eq!(tokens[1].span, Span::new(11, 12));
    assert!(tokens[0].span.end <= tokens[1].span.start);
}

#[test]
fn literals_with_valid_escapes_are_accepted() {
    let source = "\"a\\n\\x41\\u{1F600}\\\"\" '\\'' 'é' '' \"line\\\n   next\"";
    let tokens = lex(source).unwrap();
    let kinds: Vec<TokenKind> = tokens.iter().map(|t| t.kind).collect();
    assert_eq!(
        kinds,
        vec![
            TokenKind::StringLit,
            TokenKind::CharLit,
            TokenKind::CharLit,
            TokenKind::CharLit,
            TokenKind::StringLit,
        ]
    );
    assert_eq!(tokens[0].text(source), "\"a\\n\\x41\\u{1F600}\\\"\"");
    assert_eq!(tokens[3].text(source), "''");
}

#[test]
fn literals_with_invalid_escapes_are_rejected() {
    for source in ["\"\\q\"", "\"\\x4\"", "\"\\u{}\"", "\"\\u{1234567}\"", "'\\x80'", "\"\\"] {
        let errors = lex(source).unwrap_err();
        assert!(!errors.is_empty());
        assert!(errors.iter().all(|e| e.span.end <= source.len()));
    }
    let errors = lex("'ab'").unwrap_err();
    assert_eq!(errors[0].message, "character literal contains more than one scalar");
}

#[test]
fn numeric_separators_sit_between_digits() {
    let source = "1_000 0xFF_FF 2_5u32 1_0.5";
    let tokens = lex(source).unwrap();
    assert_eq!(tokens.len(), 4);
    assert_eq!(tokens[2].text(source), "2_5u32");
    assert_eq!(tokens[3].kind, TokenKind::FloatLit);
    let float = lex("3.25e-2f64").unwrap();
    assert_eq!(float.len(), 1);
    assert_eq!(float[0].kind, TokenKind::FloatLit);
    let range = lex("1..2").unwrap();
    assert_eq!(range[1].kind, TokenKind::DotDot);
    for source in ["1_", "1__0", "1_u8", "1_f32", "1._5", "0x_1", "1.e5", "1."] {
        let errors = lex(source).unwrap_err();
        assert!(errors[0].message.contains("numeric separators") || errors[0].message.contains("float"));
    }
}

#[test]
fn lexer_reports_unexpected_characters_inside_the_source() {
    let errors = lex("a $ b").unwrap_err();
    assert_eq!(errors.len(), 1);
    assert_eq!(errors[0].span, Span::new(2, 3));
    assert_eq!(errors[0].message, "unexpected character `$`");
    let errors = lex("\"open").unwrap_err();
    assert_eq!(errors[0].message, "unterminated string literal");
    assert_eq!(errors[0].span, Span::new(0, 5));
}

#[test]
fn items_come_back_in_source_order() {
    let source = "struct A { x: u8 }\nstruct B { y: u8 }\nfn f() {}";
    let program = parse_program(source).unwrap();
    assert_eq!(program.items.len(), 3);
    assert_eq!(program.items[0].span, Span::new(0, 18));
    for pair in program.items.windows(2) {
        assert!(pair[0].span.end <= pair[1].span.start);
    }
    assert_eq!(program.items[2].span.end, source.len());
}

#[test]
fn item_names_spell_their_source_text() {
    let source = "@inline\npub fn add(a: i64) {}\nstruct Point { x: u8 }\nonchain mod vault {}\nuse a::b;";
    let program = parse_program(source).unwrap();
    assert_eq!(program.items.len(), 4);
    let names: Vec<(String, Span)> = program
        .items
        .iter()
        .filter_map(|item| match &item.kind {
            ItemKind::Function(f) => Some((f.name.name.clone(), f.name.span)),
            ItemKind::Struct(s) => Some((s.name.name.clone(), s.name.span)),
            ItemKind::OnchainModule(m) => Some((m.name.name.clone(), m.name.span)),
            _ => None,
        })
        .collect();
    assert_eq!(names.len(), 3);
    for (name, span) in &names {
        assert_eq!(&source[span.start..span.end], name.as_str());
    }
    assert_eq!(names[0].0, "add");
    assert_eq!(names[1].0, "Point");
    assert_eq!(names[2].0, "vault");
    assert_eq!(program.items[0].span.start, 0);
    assert!(program.items[0].span.end >= names[0].1.end);
}

#[test]
fn attributes_lie_inside_their_item() {
    let source = "@derive(Debug, Eq)\n@inline\nstruct User { id: u64 }\n@test fn t() {}";
    let program = parse_program(source).unwrap();
    assert_eq!(program.items.len(), 2);
    for item in &program.items {
        for attr in &item.attrs {
            assert!(item.span.start <= attr.span.start && attr.span.end <= item.span.end);
            assert!(attr.span.start <= attr.name.span.start);
            assert!(attr.name.span.end <= attr.span.end);
            assert_eq!(&source[attr.name.span.start..attr.name.span.end], attr.name.name.as_str());
        }
    }
    let first = &program.items[0].attrs;
    assert_eq!(first.len(), 2);
    assert_eq!(first[0].span, Span::new(0, 18));
    assert_eq!(first[1].name.name, "inline");
    assert_eq!(program.items[1].attrs[0].name.name, "test");
}

#[test]
fn parse_diagnostics_point_into_the_source() {
    for source in ["fn f(", "fn f() { let = 1; }", "fn f() { a = }", "fn f() { 1 + 2 = 3; }"] {
        let errors = parse_program(source).unwrap_err();
        assert!(!errors.is_empty());
        for error in &errors {
            assert!(error.span.start <= error.span.end);
            assert!(error.span.end <= source.len());
        }
    }
}

#[test]
fn item_cut_off_before_its_name_is_dropped_without_diagnostic() {
    let program = parse_program("struct").unwrap();
    assert!(program.items.is_empty());
}

#[test]
fn invalid_assignment_target_is_reported_at_the_target() {
    let source = "fn f() { 1 + 2 = 3; }";
    let errors = parse_program(source).unwrap_err();
    assert_eq!(errors[0].message, "invalid assignment target");
    assert_eq!(errors[0].span, Span::new(9, 14));
}

#[test]
fn subtraction_is_left_associative() {
    let expr = tail_of("fn f() -> i64 { a - b - c }");
    let ExprKind::Binary { op, left, .. } = expr.kind else {
        panic!("expected binary expression");
    };
    assert_eq!(op, BinaryOp::Sub);
    assert!(matches!(left.kind, ExprKind::Binary { op: BinaryOp::Sub, .. }));
}

#[test]
fn assignment_is_right_associative() {
    let expr = tail_of("fn f() -> i64 { a = b = c }");
    let ExprKind::Assign { value, .. } = expr.kind else {
        panic!("expected assignment");
    };
    assert!(matches!(value.kind, ExprKind::Assign { .. }));
}

#[test]
fn expression_spans_cover_their_operands() {
    let source = "fn f() -> i64 { (a + b) * c }";
    let expr = tail_of(source);
    assert_eq!(expr.span, Span::new(16, 27));
    let ExprKind::Binary { left, right, .. } = expr.kind else {
        panic!("expected binary expression");
    };
    assert_eq!(left.span, Span::new(16, 23));
    assert_eq!(right.span, Span::new(26, 27));
}

#[test]
fn missing_keyword_is_named_in_the_diagnostic() {
    let errors = parse_program("fn f(x: i64) { for x y { } }").unwrap_err();
    assert!(errors.iter().any(|e| e.message == "expected keyword `In`"));
    let errors = parse_program("fn f() { let x = 1 }").unwrap_err();
    assert!(errors.iter().any(|e| e.message == "expected `Semi`"));
}
