use sploosh::ast::{ExprKind, ItemKind, Span};
use sploosh::lexer::{lex, LexError, TokenKind};
use sploosh::parser::parse_program;

fn kinds(source: &str) -> Vec<TokenKind> {
    lex(source).unwrap().into_iter().map(|t| t.kind).collect()
}

fn one_error(message: &str, start: usize, end: usize) -> Vec<LexError> {
    vec![LexError { message: message.to_string(), span: Span::new(start, end) }]
}

#[test]
fn operators_take_the_longest_spelling() {
    assert_eq!(
        kinds("..= .. . :: : -> - => == = |> || | && & <= < >= > != ! >>"),
        vec![
            TokenKind::DotDotEq,
            TokenKind::DotDot,
            TokenKind::Dot,
            TokenKind::ColonColon,
            TokenKind::Colon,
            TokenKind::Arrow,
            TokenKind::Minus,
            TokenKind::FatArrow,
            TokenKind::EqEq,
            TokenKind::Eq,
            TokenKind::PipeGt,
            TokenKind::PipePipe,
            TokenKind::Pipe,
            TokenKind::AmpAmp,
            TokenKind::Amp,
            TokenKind::Le,
            TokenKind::Lt,
            TokenKind::Ge,
            TokenKind::Gt,
            TokenKind::Ne,
            TokenKind::Bang,
            TokenKind::Gt,
            TokenKind::Gt,
        ]
    );
}

#[test]
fn scanning_goes_on_after_an_unexpected_character() {
    let errors = lex("a $ é").unwrap_err();
    assert_eq!(errors.len(), 2);
    assert_eq!(errors[0].message, "unexpected character `$`");
    assert_eq!(errors[0].span, Span::new(2, 3));
    assert_eq!(errors[1].message, "unexpected character `é`");
    assert_eq!(errors[1].span, Span::new(4, 6));
}

#[test]
fn number_forms_and_their_kinds() {
    assert_eq!(kinds("1..2"), vec![TokenKind::IntLit, TokenKind::DotDot, TokenKind::IntLit]);
    let tokens = lex("1.5 1e+5 0xFFu8 1_000").unwrap();
    assert_eq!(tokens[0].kind, TokenKind::FloatLit);
    assert_eq!(tokens[0].span, Span::new(0, 3));
    assert_eq!(tokens[1].kind, TokenKind::FloatLit);
    assert_eq!(tokens[1].span, Span::new(4, 8));
    assert_eq!(tokens[2].kind, TokenKind::IntLit);
    assert_eq!(tokens[2].span, Span::new(9, 15));
    assert_eq!(tokens[3].kind, TokenKind::IntLit);
    assert_eq!(tokens[3].span, Span::new(16, 21));
}

#[test]
fn malformed_numbers_report_one_exact_diagnostic() {
    assert_eq!(lex("1.").unwrap_err(), one_error("float literal needs digits after `.`", 0, 2));
    assert_eq!(lex("1e").unwrap_err(), one_error("float exponent needs digits", 0, 2));
    assert_eq!(
        lex("1__2").unwrap_err(),
        one_error("numeric separators must appear between digits", 0, 4)
    );
}

#[test]
fn malformed_escapes_report_one_exact_diagnostic() {
    assert_eq!(
        lex("\"\\x80\"").unwrap_err(),
        one_error("ASCII byte escape must be in 0x00..0x7F", 0, 5)
    );
    assert_eq!(
        lex("\"\\x8\"").unwrap_err(),
        one_error("ASCII byte escape needs two hex digits", 0, 4)
    );
    assert_eq!(
        lex("\"\\u{D800}\"").unwrap_err(),
        one_error("unicode escape must be a valid scalar value", 0, 8)
    );
    assert_eq!(
        lex("\"\\u{}\"").unwrap_err(),
        one_error("unicode escape needs 1-6 hex digits and `}`", 0, 4)
    );
}

#[test]
fn doc_comments_are_tokens_and_line_comments_are_not() {
    assert_eq!(kinds("/// d\na"), vec![TokenKind::DocComment, TokenKind::Ident]);
    assert_eq!(kinds("a // trailing + - \nb"), vec![TokenKind::Ident, TokenKind::Ident]);
}

#[test]
fn binary_operands_keep_their_source_order() {
    let program = parse_program("fn f() -> i64 { a - b }").unwrap();
    let item = program.items.into_iter().next().unwrap();
    let ItemKind::Function(func) = item.kind else {
        panic!("expected function");
    };
    let expr = *func.body.unwrap().tail.unwrap();
    let ExprKind::Binary { left, right, .. } = expr.kind else {
        panic!("expected binary expression");
    };
    assert_eq!(left.span, Span::new(16, 17));
    assert_eq!(right.span, Span::new(20, 21));
}

#[test]
fn trait_keyword_and_name_open_a_trait_item() {
    let program = parse_program("/// docs\ntrait T {}").unwrap();
    assert_eq!(program.items.len(), 1);
    assert!(matches!(program.items[0].kind, ItemKind::Trait(_)));
}

#[test]
fn empty_braces_parse_to_an_empty_block() {
    let program = parse_program("fn f() {}").unwrap();
    let item = program.items.into_iter().next().unwrap();
    let ItemKind::Function(func) = item.kind else {
        panic!("expected function");
    };
    let body = func.body.unwrap();
    assert!(body.statements.is_empty());
    assert!(body.tail.is_none());
    assert_eq!(body.span, Span::new(7, 9));
}

#[test]
fn literal_tail_parses_to_its_literal() {
    let program = parse_program("fn f() -> i64 { 42 }").unwrap();
    let item = program.items.into_iter().next().unwrap();
    let ItemKind::Function(func) = item.kind else {
        panic!("expected function");
    };
    let tail = func.body.unwrap().tail.unwrap();
    assert!(matches!(tail.kind, ExprKind::Literal(_)));
    assert_eq!(tail.span, Span::new(16, 18));
}

#[test]
fn lone_name_pipe_stage_is_a_path() {
    let program = parse_program("fn f() -> i64 { x |> g }").unwrap();
    let item = program.items.into_iter().next().unwrap();
    let ItemKind::Function(func) = item.kind else {
        panic!("expected function");
    };
    let tail = func.body.unwrap().tail.unwrap();
    let ExprKind::Binary { right, .. } = tail.kind else {
        panic!("expected pipe");
    };
    let ExprKind::Path(path) = right.kind else {
        panic!("expected path stage");
    };
    assert_eq!(path.segments, vec!["g".to_string()]);
    assert_eq!(right.span, Span::new(21, 22));
}

fn tail_expr(source: &str) -> sploosh::ast::Expr {
    let program = parse_program(source).unwrap();
    let item = program.items.into_iter().next().unwrap();
    let ItemKind::Function(func) = item.kind else {
        panic!("expected function");
    };
    *func.body.unwrap().tail.unwrap()
}

#[test]
fn pipe_stage_binds_only_its_callee() {
    let expr = tail_expr("fn f() -> i64 { x |> a + b }");
    let ExprKind::Binary { op, left, .. } = expr.kind else {
        panic!("expected binary");
    };
    assert_eq!(op, sploosh::ast::BinaryOp::Add);
    assert!(matches!(left.kind, ExprKind::Binary { op: sploosh::ast::BinaryOp::Pipe, .. }));
}

#[test]
fn multiplication_binds_tighter_than_addition() {
    let expr = tail_expr("fn f() -> i64 { a + b * c }");
    let ExprKind::Binary { op, right, .. } = expr.kind else {
        panic!("expected binary");
    };
    assert_eq!(op, sploosh::ast::BinaryOp::Add);
    assert!(matches!(right.kind, ExprKind::Binary { op: sploosh::ast::BinaryOp::Mul, .. }));
}

#[test]
fn prefix_operator_binds_tighter_than_infix() {
    let expr = tail_expr("fn f() -> i64 { -a * b }");
    let ExprKind::Binary { op, left, .. } = expr.kind else {
        panic!("expected binary");
    };
    assert_eq!(op, sploosh::ast::BinaryOp::Mul);
    assert!(matches!(left.kind, ExprKind::Unary { op: sploosh::ast::UnaryOp::Neg, .. }));
}

#[test]
fn chained_range_is_reported_at_the_second_operator() {
    let errors = parse_program("fn f() -> i64 { a..b..c }").unwrap_err();
    assert!(errors.iter().any(|e| e.message
        == "range operators cannot be chained; parenthesize one side"
        && e.span == Span::new(20, 22)));
}

#[test]
fn vec_bang_without_bracket_is_reported() {
    let errors = parse_program("fn f() -> i64 { vec!(1) }").unwrap_err();
    assert!(errors.iter().any(|e| e.message == "expected `[` after `vec!`" && e.span == Span::new(20, 21)));
}
