use sploosh::ast::{
    AttrArg, BinaryOp, Expr, ExprKind, ItemKind, Literal, MatchArm, Param, PatternKind, Span, Stmt,
    Type, TypeArg, VariantKind, Visibility,
};
use sploosh::parser::parse_program;
#[test]
fn parses_function_item() {
    let program = parse_program("pub async fn add(a: i64, b: i64) -> i64 { a + b }").unwrap();
    assert_eq!(program.items.len(), 1);
    let ItemKind::Function(func) = &program.items[0].kind else {
        panic!("expected function");
    };
    assert!(func.is_async);
    assert_eq!(func.params.len(), 2);
}

#[test]
fn parses_struct_with_nested_generic_field() {
    let program = parse_program("struct Bag { items: Map<String, Vec<u64>>, }").unwrap();
    let ItemKind::Struct(strukt) = &program.items[0].kind else {
        panic!("expected struct");
    };
    let Type::Path { args, .. } = &strukt.fields[0].ty else {
        panic!("expected generic path");
    };
    assert_eq!(args.len(), 2);
}

#[test]
fn doc_comments_and_attribute_arguments_do_not_break_items() {
    let source = r#"
        /// attaches to the next item
        @derive(Debug, Eq)
        struct User { id: u64 }
    "#;
    assert!(parse_program(source).is_ok());
}

#[test]
fn attribute_arguments_are_preserved() {
    let source = "@derive(Debug, Eq)\nstruct User { id: u64 }";
    let program = parse_program(source).unwrap();
    let attr = &program.items[0].attrs[0];
    assert_eq!(attr.name.name, "derive");
    // Attribute span covers `@derive(Debug, Eq)`.
    assert_eq!(attr.span, Span::new(0, source.find('\n').unwrap()));
    let names: Vec<_> = attr
        .args
        .iter()
        .map(|arg| {
            let AttrArg::Ident(ident) = arg else {
                panic!("expected bare ident arg, got {arg:?}");
            };
            ident.name.as_str()
        })
        .collect();
    assert_eq!(names, ["Debug", "Eq"]);
}

#[test]
fn attribute_named_args_are_preserved() {
    let source = r#"
        @supervisor(strategy: "one_for_one", max_restarts: 5)
        struct Sup { x: i64 }
    "#;
    let program = parse_program(source).unwrap();
    let attr = &program.items[0].attrs[0];
    assert_eq!(attr.name.name, "supervisor");
    assert_eq!(attr.args.len(), 2);
    let AttrArg::Named { name, value } = &attr.args[0] else {
        panic!("expected named arg, got {:?}", attr.args[0]);
    };
    assert_eq!(name.name, "strategy");
    assert!(matches!(
        &value.kind,
        ExprKind::Literal(Literal::String(text)) if text == "\"one_for_one\""
    ));
    let AttrArg::Named { name, value } = &attr.args[1] else {
        panic!("expected named arg, got {:?}", attr.args[1]);
    };
    assert_eq!(name.name, "max_restarts");
    assert!(matches!(
        &value.kind,
        ExprKind::Literal(Literal::Int(text)) if text == "5"
    ));
}

#[test]
fn attribute_assigned_call_and_expr_args_are_preserved() {
    let source = "@cfg(target = evm, feature(fast), CAP + 1)\nstruct S { x: i64 }";
    let program = parse_program(source).unwrap();
    let attr = &program.items[0].attrs[0];
    assert_eq!(attr.args.len(), 3);
    let AttrArg::Assigned { name, value } = &attr.args[0] else {
        panic!("expected assigned arg, got {:?}", attr.args[0]);
    };
    assert_eq!(name.name, "target");
    assert!(matches!(&value.kind, ExprKind::Path(path) if path.segments == ["evm"]));
    let AttrArg::Call { name, arg } = &attr.args[1] else {
        panic!("expected call arg, got {:?}", attr.args[1]);
    };
    assert_eq!(name.name, "feature");
    assert!(matches!(&arg.kind, ExprKind::Path(path) if path.segments == ["fast"]));
    let AttrArg::Expr(expr) = &attr.args[2] else {
        panic!("expected expr arg, got {:?}", attr.args[2]);
    };
    assert!(matches!(
        &expr.kind,
        ExprKind::Binary {
            op: BinaryOp::Add,
            ..
        }
    ));
}

#[test]
fn bare_attribute_has_no_args_and_name_span() {
    let program = parse_program("@test\nfn t() {}").unwrap();
    let attr = &program.items[0].attrs[0];
    assert_eq!(attr.name.name, "test");
    assert!(attr.args.is_empty());
    assert_eq!(attr.span, Span::new(0, 5));
}

#[test]
fn actor_handler_attributes_are_preserved() {
    let source = r#"
        actor Worker {
            state: i64,
            @mailbox(capacity: 2048)
            pub fn run(&mut self, n: i64) {}
        }
    "#;
    let program = parse_program(source).unwrap();
    let ItemKind::Actor(actor) = &program.items[0].kind else {
        panic!("expected actor");
    };
    let handler = &actor.handlers[0];
    assert_eq!(handler.function.name.name, "run");
    assert_eq!(handler.attrs.len(), 1);
    let attr = &handler.attrs[0];
    assert_eq!(attr.name.name, "mailbox");
    // Span anchors to the `@` in the source text.
    assert_eq!(attr.span.start, source.find('@').unwrap());
    let AttrArg::Named { name, value } = &attr.args[0] else {
        panic!("expected named arg, got {:?}", attr.args[0]);
    };
    assert_eq!(name.name, "capacity");
    assert!(matches!(
        &value.kind,
        ExprKind::Literal(Literal::Int(text)) if text == "2048"
    ));
}

#[test]
fn declaration_names_cannot_be_reserved_keywords() {
    let errors = parse_program("fn self() {}").unwrap_err();
    assert!(errors.iter().any(|err| err.message.contains("identifier")));
}

#[test]
fn parses_turbofish_vec_let_mut_and_send() {
    let source = r#"
        fn main() {
            let mut a = parse::<i64>("42");
            let b = vec![1, 2, 3];
            let c = vec![0; 4];
            send worker.run(&mut a);
        }
    "#;
    assert!(parse_program(source).is_ok());
}

#[test]
fn preserves_function_visibility_in_nested_items() {
    let source = r#"
        actor Counter {
            state: i64,
            pub fn inc(&mut self) {}
        }

        extern "C" {
            pub fn puts(s: &str);
        }
    "#;
    let program = parse_program(source).unwrap();
    let ItemKind::Actor(actor) = &program.items[0].kind else {
        panic!("expected actor");
    };
    assert_eq!(actor.handlers[0].function.visibility, Visibility::Public);
    let ItemKind::ExternBlock(extern_block) = &program.items[1].kind else {
        panic!("expected extern block");
    };
    assert_eq!(extern_block.functions[0].visibility, Visibility::Public);
}

#[test]
fn if_condition_does_not_swallow_the_block_head() {
    // Regression: the then-block `{ ... }` must not be parsed as a struct
    // literal on the condition's trailing path operand.
    assert!(parse_program("fn f() -> i64 { if a < b { 1 } else { 2 } }").is_ok());
    assert!(parse_program("fn f() -> i64 { if flag { 1 } else { 2 } }").is_ok());
}

#[test]
fn struct_literal_block_head_restriction() {
    // Outermost struct literal in a condition is rejected (§5.1)...
    assert!(parse_program("fn f() -> i64 { if x { f: 1 } { 1 } else { 2 } }").is_err());
    // ...parenthesized is accepted...
    assert!(parse_program("fn f() -> i64 { if (x { f: 1 }) == y { 1 } else { 2 } }").is_ok());
    // ...and a struct literal nested in call args (a delimited group) is fine.
    assert!(
        parse_program("fn f() -> i64 { if takes(Cfg { on: true }) { 1 } else { 2 } }").is_ok()
    );
    // The restriction must not leak into value position.
    assert!(parse_program("fn f() { let p = Point { x: 1, y: 2 }; }").is_ok());
}

#[test]
fn block_head_restriction_does_not_leak_into_nested_if_blocks() {
    // A nested `if` in a non-parenthesized condition position must still
    // allow value-position struct literals inside its own blocks.
    let src = "fn f() -> i64 { if if a { Cfg { v: 1 }.on } else { false } { 1 } else { 2 } }";
    assert!(parse_program(src).is_ok());
}

#[test]
fn parses_division_operator() {
    let program = parse_program("fn f(a: i64, b: i64) -> i64 { a / b }").unwrap();
    let ItemKind::Function(func) = &program.items[0].kind else {
        panic!("expected function");
    };
    let block = func.body.as_ref().expect("function body");
    let tail = block.tail.as_ref().expect("tail expression");
    let ExprKind::Binary { op, .. } = &tail.kind else {
        panic!("expected binary expression");
    };
    assert_eq!(*op, BinaryOp::Div);
}

#[test]
fn preserves_enum_variant_payloads() {
    let source = "enum Message { Quit, Move(i64, i64), Write { text: String }, }";
    let program = parse_program(source).unwrap();
    let ItemKind::Enum(enm) = &program.items[0].kind else {
        panic!("expected enum");
    };
    assert!(matches!(enm.variants[0].kind, VariantKind::Unit));
    let VariantKind::Tuple(types) = &enm.variants[1].kind else {
        panic!("expected tuple variant");
    };
    assert_eq!(types.len(), 2);
    let VariantKind::Struct(fields) = &enm.variants[2].kind else {
        panic!("expected struct variant");
    };
    assert_eq!(fields.len(), 1);
}

#[test]
fn range_operators_cannot_chain() {
    for source in [
        "fn f() { let r = a..b..c; }",
        "fn f() { let r = a..=b..c; }",
        "fn f() { let r = a..b..=c; }",
    ] {
        let errors = parse_program(source).unwrap_err();
        // The diagnostic must anchor to the second range operator
        // (`..=` starts with `..`, so the second `..` match is its start).
        let second_op = source.match_indices("..").nth(1).unwrap().0;
        assert!(
            errors
                .iter()
                .any(|err| err.message.contains("chained") && err.span.start == second_op),
            "{source}: expected a range-chaining error at {second_op}, got {errors:?}"
        );
    }
}

#[test]
fn send_operand_must_be_method_call() {
    // §2.7: inside a send-statement, anything but `handle.method(args)` is
    // a parse error.
    for source in [
        "fn f() { send 42; }",
        "fn f() { send free_fn(x); }",
        "fn f() { send (x); }",
        "fn f() { send vec![1]; }",
    ] {
        let errors = parse_program(source).unwrap_err();
        assert!(
            errors.iter().any(|err| err.message.contains("method call")),
            "{source}: expected a method-call error, got {errors:?}"
        );
    }
}

#[test]
fn send_method_call_operands_accepted() {
    let source = r#"
        fn f(worker: Handle<Worker>) {
            send worker.run(1);
            send hub.pool.run(2);
            send self.notify(3);
            send worker.push::<i64>(4);
        }
    "#;
    assert!(parse_program(source).is_ok());
}

#[test]
fn send_head_before_non_expression_token_is_identifier() {
    // §2.7: the send-statement opens only when the next token can begin an
    // expression; otherwise `send` is an ordinary identifier.
    assert!(parse_program("fn f() { send = x; }").is_ok());
    assert!(parse_program("fn f() { send.reset(); }").is_ok());
}

#[test]
fn assignment_targets_follow_grammar() {
    let source = r#"
        fn f(p: Point, arr: Vec<i64>, ptr: &mut i64) {
            x = 1;
            p.f = 2;
            arr[0] = 3;
            *ptr = 4;
            self.state = 5;
            a = b = c;
        }
    "#;
    assert!(parse_program(source).is_ok());
}

#[test]
fn assignment_rejects_invalid_targets() {
    for source in [
        "fn f() { 1 + 2 = 3; }",
        "fn f() { g() = 1; }",
        "fn f() { a::b = 1; }",
        "fn f() { x? = 1; }",
        "fn f() { self = x; }",
    ] {
        let errors = parse_program(source).unwrap_err();
        assert!(
            errors
                .iter()
                .any(|err| err.message.contains("assignment target")),
            "{source}: expected an assignment-target error, got {errors:?}"
        );
    }
}

#[test]
fn single_and_parenthesized_ranges_parse() {
    assert!(parse_program("fn f() { let r = lo..hi; }").is_ok());
    assert!(parse_program("fn f() { let r = lo..=hi; }").is_ok());
    assert!(parse_program("fn f() { let r = (a..b)..c; }").is_ok());
}

#[test]
fn offchain_and_async_apply_only_to_fn_items() {
    for (source, modifier) in [
        ("offchain struct S { x: i64 }", "offchain"),
        ("async struct S { x: i64 }", "async"),
        ("pub async struct S { x: i64 }", "async"),
        ("async trait T {}", "async"),
        ("offchain mod m;", "offchain"),
    ] {
        let errors = parse_program(source).unwrap_err();
        // The diagnostic must anchor to the misplaced modifier's own span.
        let start = source.find(modifier).unwrap();
        let span = Span::new(start, start + modifier.len());
        assert!(
            errors
                .iter()
                .any(|err| err.message.contains("applies only to `fn` items")
                    && err.span == span),
            "{source}: expected a modifier error at {span:?}, got {errors:?}"
        );
    }
    assert!(parse_program("pub offchain async fn f() {}").is_ok());
    assert!(parse_program("offchain fn g() {}").is_ok());
}

#[test]
fn pub_rejected_where_grammar_omits_it() {
    for source in [
        "pub impl User {}",
        "pub actor A { state: i64, }",
        "pub onchain mod token {}",
        "pub extern \"C\" { fn f(); }",
    ] {
        let errors = parse_program(source).unwrap_err();
        // `pub` heads each source, so the diagnostic must anchor to 0..3.
        assert!(
            errors
                .iter()
                .any(|err| err.message.contains("`pub` is not allowed")
                    && err.span == Span::new(0, 3)),
            "{source}: expected a pub-placement error at 0..3, got {errors:?}"
        );
    }
    for source in [
        "pub struct S { x: i64 }",
        "pub enum E { A }",
        "pub trait T {}",
        "pub mod m;",
        "pub use crate::api;",
        "pub const X: i64 = 1;",
        "pub type Y = i64;",
    ] {
        assert!(
            parse_program(source).is_ok(),
            "{source}: `pub` should be accepted here"
        );
    }
}

#[test]
fn vec_bang_requires_square_brackets() {
    for source in ["fn f() { let v = vec!(1); }", "fn f() { let v = vec!{1}; }"] {
        let errors = parse_program(source).unwrap_err();
        assert!(
            errors.iter().any(|err| err.message.contains("vec!")),
            "{source}: expected a vec! error, got {errors:?}"
        );
    }
}

#[test]
fn vec_without_bang_is_plain_identifier() {
    assert!(parse_program("fn f() { let v = vec; }").is_ok());
}

/// Parses `fn f() { let r = <expr>; }` and returns the bound expression.
fn let_value(expr_src: &str) -> Expr {
    let source = format!("fn f() {{ let r = {expr_src}; }}");
    let program = parse_program(&source).unwrap();
    let item = program.items.into_iter().next().unwrap();
    let ItemKind::Function(func) = item.kind else {
        panic!("expected function");
    };
    let statement = func.body.unwrap().statements.into_iter().next().unwrap();
    let Stmt::Let { value, .. } = statement else {
        panic!("expected let statement");
    };
    value
}

fn path_named(expr: &Expr, name: &str) -> bool {
    matches!(&expr.kind, ExprKind::Path(path) if path.segments == [name])
}

#[test]
fn pipe_stage_question_wraps_accumulated_pipe() {
    // §5.7: `input |> parse?` is `(input |> parse)?`, never `input |> (parse?)`.
    let value = let_value("input |> parse?");
    let ExprKind::ErrorProp(inner) = &value.kind else {
        panic!("expected ErrorProp at the top, got {value:?}");
    };
    let ExprKind::Binary { op, left, right } = &inner.kind else {
        panic!("expected pipe binary inside ErrorProp");
    };
    assert_eq!(*op, BinaryOp::Pipe);
    assert!(path_named(left, "input"));
    assert!(path_named(right, "parse"));
}

#[test]
fn pipe_chain_question_on_each_stage() {
    // `a |> f? |> g?` nests as ErrorProp(Binary(ErrorProp(Binary(a, f)), g)).
    let value = let_value("a |> f? |> g?");
    let ExprKind::ErrorProp(outer) = &value.kind else {
        panic!("expected outer ErrorProp");
    };
    let ExprKind::Binary { op, left, right } = &outer.kind else {
        panic!("expected outer pipe binary");
    };
    assert_eq!(*op, BinaryOp::Pipe);
    assert!(path_named(right, "g"));
    let ExprKind::ErrorProp(mid) = &left.kind else {
        panic!("expected inner ErrorProp");
    };
    let ExprKind::Binary { op, left, right } = &mid.kind else {
        panic!("expected inner pipe binary");
    };
    assert_eq!(*op, BinaryOp::Pipe);
    assert!(path_named(left, "a"));
    assert!(path_named(right, "f"));
}

#[test]
fn pipe_stage_with_args_keeps_question_on_pipe() {
    let value = let_value("x |> f(a)?");
    let ExprKind::ErrorProp(inner) = &value.kind else {
        panic!("expected ErrorProp at the top");
    };
    let ExprKind::Binary { op, right, .. } = &inner.kind else {
        panic!("expected pipe binary");
    };
    assert_eq!(*op, BinaryOp::Pipe);
    let ExprKind::Call { callee, args, .. } = &right.kind else {
        panic!("expected call stage");
    };
    assert!(path_named(callee, "f"));
    assert_eq!(args.len(), 1);
}

#[test]
fn pipe_stage_method_chain_is_stage_callee() {
    // The field chain belongs to the stage, not to the pipe expression.
    let value = let_value("x |> svc.parse?");
    let ExprKind::ErrorProp(inner) = &value.kind else {
        panic!("expected ErrorProp at the top");
    };
    let ExprKind::Binary { op, right, .. } = &inner.kind else {
        panic!("expected pipe binary");
    };
    assert_eq!(*op, BinaryOp::Pipe);
    let ExprKind::Field { base, name } = &right.kind else {
        panic!("expected field-chain stage");
    };
    assert_eq!(name, "parse");
    assert!(path_named(base, "svc"));
}

#[test]
fn pipe_stage_turbofish_without_parens() {
    // `x |> parse::<i64>` desugars like `x |> parse::<i64>()`.
    let value = let_value("x |> parse::<i64>?");
    let ExprKind::ErrorProp(inner) = &value.kind else {
        panic!("expected ErrorProp at the top");
    };
    let ExprKind::Binary { right, .. } = &inner.kind else {
        panic!("expected pipe binary");
    };
    let ExprKind::Call {
        callee,
        type_args,
        args,
    } = &right.kind
    else {
        panic!("expected zero-arg call stage");
    };
    assert!(path_named(callee, "parse"));
    assert_eq!(type_args.len(), 1);
    assert!(args.is_empty());
}

#[test]
fn pipe_stage_is_callee_not_arithmetic() {
    // A stage is only a callee: `x |> a + b` is `(x |> a) + b`.
    let value = let_value("x |> a + b");
    let ExprKind::Binary { op, left, right } = &value.kind else {
        panic!("expected `+` at the top");
    };
    assert_eq!(*op, BinaryOp::Add);
    assert!(path_named(right, "b"));
    let ExprKind::Binary { op, left, right } = &left.kind else {
        panic!("expected pipe binary on the left");
    };
    assert_eq!(*op, BinaryOp::Pipe);
    assert!(path_named(left, "x"));
    assert!(path_named(right, "a"));
}

#[test]
fn pipe_rejects_non_callee_stage() {
    let errors = parse_program("fn f() { let r = x |> 42; }").unwrap_err();
    assert!(errors.iter().any(|err| err.message.contains("pipe stage")));
}

#[test]
fn pipe_rejects_closure_stage_for_now() {
    let errors = parse_program("fn f() { let r = x |> (v); }").unwrap_err();
    assert!(
        errors
            .iter()
            .any(|err| err.message.contains("not yet implemented"))
    );
}

#[test]
fn question_outside_pipe_unchanged() {
    let value = let_value("fetch()?");
    let ExprKind::ErrorProp(inner) = &value.kind else {
        panic!("expected ErrorProp");
    };
    assert!(matches!(&inner.kind, ExprKind::Call { .. }));
}

#[test]
fn impl_trait_for_type_records_trait_ref() {
    let program = parse_program("impl Display for User {}").unwrap();
    let ItemKind::Impl(imp) = &program.items[0].kind else {
        panic!("expected impl");
    };
    let trait_ref = imp.trait_ref.as_ref().expect("trait ref recorded");
    assert_eq!(trait_ref.path.segments, ["Display"]);
    assert!(trait_ref.args.is_empty());
    assert!(matches!(
        &imp.target,
        Type::Path { path, .. } if path.segments == ["User"]
    ));
}

#[test]
fn inherent_impl_has_no_trait_ref() {
    let program = parse_program("impl User {}").unwrap();
    let ItemKind::Impl(imp) = &program.items[0].kind else {
        panic!("expected impl");
    };
    assert!(imp.trait_ref.is_none());
}

#[test]
fn impl_generic_trait_with_where_clause_parses() {
    let source = "impl<T> Convert<T> for Wrapper<T> where T: Clone {}";
    let program = parse_program(source).unwrap();
    let ItemKind::Impl(imp) = &program.items[0].kind else {
        panic!("expected impl");
    };
    let trait_ref = imp.trait_ref.as_ref().expect("trait ref recorded");
    assert_eq!(trait_ref.path.segments, ["Convert"]);
    assert_eq!(trait_ref.args.len(), 1);
}

#[test]
fn impl_rejects_non_path_trait_before_for() {
    let errors = parse_program("impl &Foo for Bar {}").unwrap_err();
    assert!(errors.iter().any(|err| err.message.contains("trait path")));
}

#[test]
fn trait_with_generics_supertraits_and_where_parses() {
    let source = r#"
        trait Convert<T> {}
        trait Loggable: Printable {}
        trait Bounded: Convert<i64> + Printable + 'static where Self: Printable {}
    "#;
    let program = parse_program(source).unwrap();
    let names: Vec<_> = program
        .items
        .iter()
        .map(|item| {
            let ItemKind::Trait(tr) = &item.kind else {
                panic!("expected trait");
            };
            tr.name.name.as_str()
        })
        .collect();
    assert_eq!(names, ["Convert", "Loggable", "Bounded"]);
}

#[test]
fn non_ident_headed_type_args_parse() {
    // Issue #78: the assoc-binding probe left a stale "expected
    // identifier" error behind, wrongly rejecting any type arg that does
    // not start with an identifier.
    for source in [
        "fn f(v: Vec<&str>) {}",
        "fn f(v: Vec<(i64, i64)>) {}",
        "fn f(v: Vec<[u8; 4]>) {}",
        "fn f(v: Map<String, Vec<&str>>) {}",
    ] {
        let result = parse_program(source);
        assert!(result.is_ok(), "{source}: {result:?}");
    }
    // The reference type arg survives structurally, not just error-free.
    let program = parse_program("fn f(v: Vec<&str>) {}").unwrap();
    let ItemKind::Function(func) = &program.items[0].kind else {
        panic!("expected function");
    };
    let Param::Named { ty, .. } = &func.params[0] else {
        panic!("expected named param");
    };
    let Type::Path { args, .. } = ty else {
        panic!("expected generic path type");
    };
    let TypeArg::Type(Type::Reference { mutable, inner }) = &args[0] else {
        panic!("expected reference type arg, got {args:?}");
    };
    assert!(!mutable);
    assert!(matches!(inner.as_ref(), Type::Primitive(name) if name == "str"));
}

#[test]
fn assoc_binding_with_non_ident_headed_value_parses() {
    // The binding side of `type_arg` still works when its value type is
    // itself non-ident-headed.
    let program = parse_program("fn f(it: &dyn Iter<Item = Vec<&str>>) {}").unwrap();
    let ItemKind::Function(func) = &program.items[0].kind else {
        panic!("expected function");
    };
    let Param::Named {
        ty: Type::Reference { inner, .. },
        ..
    } = &func.params[0]
    else {
        panic!("expected reference param");
    };
    let Type::Dyn(trait_ref) = inner.as_ref() else {
        panic!("expected dyn type");
    };
    let TypeArg::Assoc { name, ty } = &trait_ref.args[0] else {
        panic!("expected assoc binding, got {:?}", trait_ref.args[0]);
    };
    assert_eq!(name.name, "Item");
    assert!(matches!(ty, Type::Path { .. }));
}

#[test]
fn dyn_trait_type_args_with_assoc_binding() {
    let program = parse_program("fn f(it: &dyn Iter<Item = i64>) {}").unwrap();
    let ItemKind::Function(func) = &program.items[0].kind else {
        panic!("expected function");
    };
    let Param::Named { ty, .. } = &func.params[0] else {
        panic!("expected named param");
    };
    let Type::Reference { inner, .. } = ty else {
        panic!("expected reference type");
    };
    let Type::Dyn(trait_ref) = inner.as_ref() else {
        panic!("expected dyn type");
    };
    assert_eq!(trait_ref.path.segments, ["Iter"]);
    assert!(matches!(&trait_ref.args[0], TypeArg::Assoc { name, .. } if name.name == "Item"));
}

/// Parses `fn f() -> i64 { <source> }` and returns the block's tail
/// expression.
fn tail_expr(source: &str) -> Expr {
    let source = format!("fn f() -> i64 {{ {source} }}");
    let program = parse_program(&source).unwrap();
    let item = program.items.into_iter().next().unwrap();
    let ItemKind::Function(func) = item.kind else {
        panic!("expected function");
    };
    *func
        .body
        .expect("function body")
        .tail
        .expect("tail expression")
}

fn match_parts(source: &str) -> (Expr, Vec<MatchArm>) {
    let value = tail_expr(source);
    let ExprKind::Match { scrutinee, arms } = value.kind else {
        panic!("expected match expression, got {value:?}");
    };
    (*scrutinee, arms)
}

#[test]
fn parses_match_guards_and_wildcard() {
    // §5.2: guards sit between the pattern and `=>`.
    let (scrutinee, arms) = match_parts(
        "match age { n if n < 13 => \"child\", n if n < 20 => \"teen\", n if n < 65 => \"adult\", _ => \"senior\", }",
    );
    assert!(path_named(&scrutinee, "age"));
    assert_eq!(arms.len(), 4);
    assert!(matches!(
        &arms[0].pattern.kind,
        PatternKind::Binding { name, is_ref: false } if name == "n"
    ));
    assert!(arms[0].guard.is_some());
    assert!(arms[3].guard.is_none());
    assert!(matches!(&arms[3].pattern.kind, PatternKind::Wildcard));
}

#[test]
fn parses_match_tuple_destructuring() {
    // §5.2: tuple patterns with literal and binding elements. `(x)` is a
    // parenthesized pattern and `()` a unit tuple — degenerate `Tuple`s.
    let (_, arms) = match_parts(
        "match point { (0, 0) => \"origin\", (x, 0) => 1, (x, y) => 2, (z) => 3, () => 4, }",
    );
    let PatternKind::Tuple(elems) = &arms[0].pattern.kind else {
        panic!("expected tuple pattern");
    };
    assert!(matches!(
        &elems[0].kind,
        PatternKind::Literal(Literal::Int(text)) if text == "0"
    ));
    let PatternKind::Tuple(elems) = &arms[1].pattern.kind else {
        panic!("expected tuple pattern");
    };
    assert!(matches!(
        &elems[0].kind,
        PatternKind::Binding { name, .. } if name == "x"
    ));
    let PatternKind::Tuple(elems) = &arms[3].pattern.kind else {
        panic!("expected tuple pattern");
    };
    assert_eq!(elems.len(), 1);
    let PatternKind::Tuple(elems) = &arms[4].pattern.kind else {
        panic!("expected tuple pattern");
    };
    assert!(elems.is_empty());
}

#[test]
fn parses_match_variant_call_patterns() {
    // §5.2: variant patterns, including qualified nesting like
    // `Err(AppError::Timeout { after })`.
    let (_, arms) = match_parts(
        "match result { Ok(user) => user, Err(AppError::NotFound) => 0, Err(AppError::Timeout { after }) => after, Err(e) => e, }",
    );
    let PatternKind::Call { path, args } = &arms[0].pattern.kind else {
        panic!("expected call pattern");
    };
    assert_eq!(path.segments, ["Ok"]);
    assert!(matches!(
        &args[0].kind,
        PatternKind::Binding { name, .. } if name == "user"
    ));
    let PatternKind::Call { path, args } = &arms[1].pattern.kind else {
        panic!("expected call pattern");
    };
    assert_eq!(path.segments, ["Err"]);
    assert!(matches!(
        &args[0].kind,
        PatternKind::Path(path) if path.segments == ["AppError", "NotFound"]
    ));
    let PatternKind::Call { args, .. } = &arms[2].pattern.kind else {
        panic!("expected call pattern");
    };
    let PatternKind::Struct { path, fields, rest } = &args[0].kind else {
        panic!("expected struct pattern");
    };
    assert_eq!(path.segments, ["AppError", "Timeout"]);
    assert_eq!(fields.len(), 1);
    assert!(matches!(
        &fields[0].1.kind,
        PatternKind::Binding { name, .. } if name == "after"
    ));
    assert!(!rest);
}

#[test]
fn parses_struct_pattern_rest_and_or_patterns() {
    let (_, arms) = match_parts(
        "match role { Role::Editor { level } => 1, Role::Viewer | Role::Guest => 2, Role::Mod { name, .. } => 3, Role::None { .. } => 4, A | B | C => 5, }",
    );
    let PatternKind::Struct { fields, .. } = &arms[0].pattern.kind else {
        panic!("expected struct pattern");
    };
    assert_eq!(fields.len(), 1);
    let PatternKind::Or { left, right } = &arms[1].pattern.kind else {
        panic!("expected or-pattern");
    };
    assert!(matches!(
        &left.kind,
        PatternKind::Path(path) if path.segments == ["Role", "Viewer"]
    ));
    assert!(matches!(
        &right.kind,
        PatternKind::Path(path) if path.segments == ["Role", "Guest"]
    ));
    let PatternKind::Struct { fields, rest, .. } = &arms[2].pattern.kind else {
        panic!("expected struct pattern");
    };
    assert_eq!(fields.len(), 1);
    assert!(*rest);
    let PatternKind::Struct { fields, rest, .. } = &arms[3].pattern.kind else {
        panic!("expected struct pattern");
    };
    assert!(fields.is_empty());
    assert!(*rest);
    // `A | B | C` parses right-associatively: `A | (B | C)`. Single bare
    // identifiers are bindings, so `A` binds and `B | C` stays an `Or`.
    let PatternKind::Or { left, right } = &arms[4].pattern.kind else {
        panic!("expected or-pattern");
    };
    assert!(matches!(
        &left.kind,
        PatternKind::Binding { name, .. } if name == "A"
    ));
    assert!(matches!(&right.kind, PatternKind::Or { .. }));
}

#[test]
fn parses_match_mixed_arm_bodies() {
    // §8.10.1: expression bodies carry the trailing comma, block bodies
    // none; `return` inside a block arm is a return_stmt.
    let (scrutinee, arms) = match_parts(
        "match worker.process(data) { Ok(result) => use_result(result), Err(ActorError::Dead) => { let fallback = default(); use_result(fallback) } Err(e) => { return Err(AppError::from(e)); } }",
    );
    assert!(matches!(&scrutinee.kind, ExprKind::Call { .. }));
    assert_eq!(arms.len(), 3);
    assert!(matches!(&arms[0].body.kind, ExprKind::Call { .. }));
    let ExprKind::Block(block) = &arms[1].body.kind else {
        panic!("expected block body");
    };
    assert_eq!(block.statements.len(), 1);
    assert!(block.tail.is_some());
    let ExprKind::Block(block) = &arms[2].body.kind else {
        panic!("expected block body");
    };
    assert!(matches!(block.statements[0], Stmt::Return(_)));
}

#[test]
fn parses_match_ref_binding_and_wildcard_ident() {
    // `ref` borrows (§3.7); `_unused` is a regular identifier binding,
    // only bare `_` discards (§2.7).
    let (_, arms) =
        match_parts("match opt { Some(ref name) => name.len(), Some(_unused) => 0, _ => 1, }");
    let PatternKind::Call { args, .. } = &arms[0].pattern.kind else {
        panic!("expected call pattern");
    };
    assert!(matches!(
        &args[0].kind,
        PatternKind::Binding { name, is_ref: true } if name == "name"
    ));
    let PatternKind::Call { args, .. } = &arms[1].pattern.kind else {
        panic!("expected call pattern");
    };
    assert!(matches!(
        &args[0].kind,
        PatternKind::Binding { name, is_ref: false } if name == "_unused"
    ));
}

#[test]
fn parses_nested_match_and_string_literal_pattern() {
    // §3.10: string literal patterns; a match arm body may itself be a
    // match (grammar nests without restriction).
    let source = "match kind { \"circle\" => match kind { \"unit\" => 1, _ => 2, }, _ => 3, }";
    let (_, arms) = match_parts(source);
    let PatternKind::Literal(Literal::String(text)) = &arms[0].pattern.kind else {
        panic!("expected string literal pattern");
    };
    assert_eq!(text, "\"circle\"");
    assert!(matches!(&arms[0].body.kind, ExprKind::Match { .. }));
}

#[test]
fn match_scrutinee_struct_literal_restriction() {
    // §5.2: the scrutinee is a block-head position — an outermost struct
    // literal is rejected there, parenthesized is accepted, and nested
    // occurrences in delimited groups are fine.
    assert!(parse_program("fn f() -> bool { match x { on: true } { _ => true, } }").is_err());
    assert!(parse_program("fn f() -> bool { match (x { on: true }) { _ => true, } }").is_ok());
    assert!(
        parse_program("fn f() -> bool { match takes(Cfg { on: true }) { _ => true, } }")
            .is_ok()
    );
}

#[test]
fn match_as_tail_and_non_tail_statement() {
    // A tail match needs no semicolon; a non-tail match statement is a
    // block-like expression and needs its `;`, like `if` and blocks.
    assert!(parse_program("fn f(x: i64) -> i64 { match x { _ => 1, } }").is_ok());
    // §16: `{ match_arm }` is zero-or-more; exhaustiveness is semantic.
    assert!(parse_program("fn f(x: i64) { match x {} }").is_ok());
    assert!(parse_program("fn f(x: i64) { match x { _ => 1, }; let y = 2; }").is_ok());
    let errors = parse_program("fn f(x: i64) { match x { _ => 1, } let y = 2; }").unwrap_err();
    assert!(
        errors
            .iter()
            .any(|err| err.message.contains("expected `RBrace`")),
        "expected a missing-terminator error, got {errors:?}"
    );
}

#[test]
fn match_heads_pipe_and_pipe_in_arm_body() {
    // A match may head a pipe chain; an arm body may itself be a pipe
    // (§5.6), including the stage-trailing `?` (§5.7).
    let value = let_value("match kind { \"circle\" => 1, _ => 2, } |> double");
    let ExprKind::Binary {
        op: BinaryOp::Pipe, ..
    } = &value.kind
    else {
        panic!("expected pipe at the top, got {value:?}");
    };
    assert!(
        parse_program(
            "fn f(v: String) -> i64 { match v { Ok(s) => s |> parse::<i64>?, _ => 0, } }"
        )
        .is_ok()
    );
}

#[test]
fn match_arm_grammar_violations() {
    for (source, needle) in [
        // Expression bodies require the trailing comma, even the last arm
        // (§16 `match_arm`).
        ("fn f() -> i64 { match x { _ => 1 } }", "expected `Comma`"),
        ("fn f() -> i64 { match x { _ 1 } }", "expected `FatArrow`"),
        // The pattern grammar's `literal` is unsigned — no `-1` patterns.
        ("fn f() { match x { -1 => 1, } }", "expected pattern"),
        // `[ "ref" ] IDENT` — `ref` prefixes a bare binding only.
        ("fn f() { match x { ref 1 => 2, } }", "expected identifier"),
        // `return` is a statement, not an `expr` alternative (§16), so it
        // cannot be an expression arm body; §5.2's own example shows this
        // form — spec debt tracked in #89.
        (
            "fn f() { match r { Err(e) => return Err(e), } }",
            "expected expression",
        ),
        // `field_pat = IDENT [ ":" pattern ]` has no `ref` shorthand;
        // §3.7's `Role::Editor { ref level }` example shows this form —
        // spec debt tracked in #89.
        (
            "fn f() { match r { Role::Editor { ref level } => 1, } }",
            "expected `RBrace`",
        ),
    ] {
        let errors = parse_program(source).unwrap_err();
        assert!(
            errors.iter().any(|err| err.message.contains(needle)),
            "{source}: expected an error containing {needle:?}, got {errors:?}"
        );
    }
}

#[test]
fn match_arm_error_recovery_does_not_cascade() {
    // A failed arm records one diagnostic and the following arm still
    // parses — recovery must not swallow the rest of the match.
    let errors =
        parse_program("fn f(x: i64) -> i64 { match x { 1 => , 2 => 3, } }").unwrap_err();
    assert_eq!(errors.len(), 1, "{errors:?}");
    assert!(errors[0].message.contains("expected expression"));
}

#[test]
fn parses_while_and_while_let() {
    // §5.5 / §5.4 shapes.
    let value = tail_expr("while connection.is_alive() { handle(poll()); }");
    let ExprKind::While { condition, body } = value.kind else {
        panic!("expected while, got {value:?}");
    };
    assert!(matches!(&condition.kind, ExprKind::Call { .. }));
    assert_eq!(body.statements.len(), 1);

    let value = tail_expr("while let Ok(msg) = connection.read() { handle(msg); }");
    let ExprKind::WhileLet {
        pattern, scrutinee, ..
    } = value.kind
    else {
        panic!("expected while let, got {value:?}");
    };
    assert!(matches!(
        &pattern.kind,
        PatternKind::Call { path, .. } if path.segments == ["Ok"]
    ));
    assert!(matches!(&scrutinee.kind, ExprKind::Call { .. }));
}

#[test]
fn parses_for_destructuring_and_ranges() {
    let value =
        tail_expr("for (index, value) in items.iter() |> enumerate() { print(index); }");
    let ExprKind::For {
        pattern, iterable, ..
    } = value.kind
    else {
        panic!("expected for, got {value:?}");
    };
    assert!(matches!(
        &pattern.kind,
        PatternKind::Tuple(elems) if elems.len() == 2
    ));
    // §5.6: a pipe chain is a valid iterable.
    assert!(matches!(
        &iterable.kind,
        ExprKind::Binary {
            op: BinaryOp::Pipe,
            ..
        }
    ));

    let value = tail_expr("for User { name, age, .. } in users { print(name); }");
    let ExprKind::For { pattern, .. } = value.kind else {
        panic!("expected for, got {value:?}");
    };
    let PatternKind::Struct { fields, rest, .. } = pattern.kind else {
        panic!("expected struct pattern");
    };
    assert_eq!(fields.len(), 2);
    assert!(rest);

    let value = tail_expr("for i in 0..10 { log(i); }");
    let ExprKind::For { iterable, .. } = value.kind else {
        panic!("expected for, got {value:?}");
    };
    assert!(matches!(
        &iterable.kind,
        ExprKind::Binary {
            op: BinaryOp::Range,
            ..
        }
    ));
}

#[test]
fn parses_loop_with_break_and_continue() {
    // §5.5: infinite loop exits via break; a nested while coexists.
    // Non-tail block-like statements carry their `;` per `expr_stmt`
    // (loosening that is #62's call, not this parser's).
    let source = r#"
        loop {
            let event = poll();
            if event.is_shutdown() {
                break;
            };
            if event.is_skip() {
                continue;
            };
            while queue.has_work() {
                process(queue.next());
            };
        }
    "#;
    let value = tail_expr(source);
    let ExprKind::Loop { body } = value.kind else {
        panic!("expected loop, got {value:?}");
    };
    assert_eq!(body.statements.len(), 4);
    let Stmt::Expr(Expr {
        kind: ExprKind::If { then_block, .. },
        ..
    }) = &body.statements[1]
    else {
        panic!("expected if statement");
    };
    assert!(matches!(then_block.statements[0], Stmt::Break));
    let Stmt::Expr(Expr {
        kind: ExprKind::If { then_block, .. },
        ..
    }) = &body.statements[2]
    else {
        panic!("expected if statement");
    };
    assert!(matches!(then_block.statements[0], Stmt::Continue));
    assert!(matches!(
        &body.statements[3],
        Stmt::Expr(Expr {
            kind: ExprKind::While { .. },
            ..
        })
    ));
}

#[test]
fn parses_if_let_with_else_and_nesting() {
    // §5.4: single-pattern matching without a full match.
    let value = tail_expr(
        "if let Some(user) = find_user(42) { process(user); } else { log(\"miss\"); }",
    );
    let ExprKind::IfLet {
        pattern,
        scrutinee,
        then_block,
        else_block,
    } = value.kind
    else {
        panic!("expected if let, got {value:?}");
    };
    assert!(matches!(
        &pattern.kind,
        PatternKind::Call { path, .. } if path.segments == ["Some"]
    ));
    assert!(matches!(&scrutinee.kind, ExprKind::Call { .. }));
    assert_eq!(then_block.statements.len(), 1);
    assert!(else_block.is_some());

    let value = tail_expr("if let Role::Admin = user.role { grant_access(); }");
    let ExprKind::IfLet {
        pattern,
        else_block,
        ..
    } = value.kind
    else {
        panic!("expected if let, got {value:?}");
    };
    assert!(matches!(
        &pattern.kind,
        PatternKind::Path(path) if path.segments == ["Role", "Admin"]
    ));
    assert!(else_block.is_none());
}

#[test]
fn else_chains_reach_if_let() {
    // §16: an if's else may chain into another if_expr or an if_let_expr.
    let source = "if a { 1 } else if b { 2 } else if let Some(x) = y { 3 } else { 4 }";
    let value = tail_expr(source);
    let ExprKind::If {
        else_branch: Some(outer_else),
        ..
    } = &value.kind
    else {
        panic!("expected if with else, got {value:?}");
    };
    let ExprKind::If {
        else_branch: Some(inner_else),
        ..
    } = &outer_else.kind
    else {
        panic!("expected else if, got {outer_else:?}");
    };
    assert!(
        matches!(&inner_else.kind, ExprKind::IfLet { .. }),
        "expected else if let, got {inner_else:?}"
    );
}

#[test]
fn loop_condition_and_iterable_struct_literal_restriction() {
    // §5.1/§16: while conditions and for iterables are block-head
    // positions — outermost struct literals rejected, parenthesized ok.
    assert!(parse_program("fn f() -> bool { while x { on: true } { } }").is_err());
    assert!(parse_program("fn f() -> bool { while (x { on: true }) { } }").is_ok());
    assert!(parse_program("fn f() { for x in cfg { on: true } { } }").is_err());
    assert!(parse_program("fn f() { for x in (cfg { on: true }) { } }").is_ok());
}

#[test]
fn let_scrutinee_struct_literal_restriction() {
    // The §16 side condition omits if-let/while-let scrutinees, but the
    // block-head ambiguity is identical (§5.1 rationale), so the parser
    // applies the restriction there too — spec gap tracked as #89 item 3.
    assert!(parse_program("fn f() -> bool { if let Some(y) = x { on: true } { } }").is_err());
    assert!(parse_program("fn f() -> bool { if let Some(y) = (x { on: true }) { } }").is_ok());
    assert!(parse_program("fn f() { while let Some(y) = x { on: true } { } }").is_err());
    assert!(parse_program("fn f() { while let Some(y) = (x { on: true }) { } }").is_ok());
}

#[test]
fn break_and_continue_follow_stmt_grammar() {
    // `break_stmt = "break" ";"` — no value, no labels (§16, Appendix D).
    for source in [
        "fn f() { loop { break 1; } }",
        "fn f() { loop { continue 2; } }",
    ] {
        let errors = parse_program(source).unwrap_err();
        assert!(
            errors
                .iter()
                .any(|err| err.message.contains("expected `Semi`")),
            "{source}: expected a no-value error, got {errors:?}"
        );
    }
    // break/continue are ordinary statements per §16 — the loop-context
    // check is semantic (no §18 code exists yet); the parser accepts them
    // anywhere a statement goes.
    assert!(parse_program("fn f() { break; }").is_ok());
    assert!(parse_program("fn f() { continue; }").is_ok());
}

#[test]
fn if_let_else_is_block_only() {
    // §16: if_let_expr's else is `[ "else" block ]` — no `else if` chains
    // after an if let.
    let errors =
        parse_program("fn f() -> i64 { if let Some(x) = y { 1 } else if z { 2 } else { 3 } }")
            .unwrap_err();
    assert!(
        errors.iter().any(|err| err.message.contains("LBrace")),
        "expected a block-required error, got {errors:?}"
    );
}

#[test]
fn loops_as_tail_and_non_tail_statements() {
    assert!(parse_program("fn f(x: i64) { while x < 3 { x = x + 1; } }").is_ok());
    assert!(parse_program("fn f() { loop { break; }; let y = 2; }").is_ok());
    assert!(parse_program("fn f(items: Vec<i64>) { for x in items { }; let y = 2; }").is_ok());
    let errors = parse_program("fn f() { loop { break; } let y = 2; }").unwrap_err();
    assert!(
        errors
            .iter()
            .any(|err| err.message.contains("expected `RBrace`")),
        "expected a missing-terminator error, got {errors:?}"
    );
}

#[test]
fn loop_construct_grammar_violations() {
    for (source, needle) in [
        ("fn f(x: i64) { for x y { } }", "expected keyword `In`"),
        ("fn f() { while x < 3 }", "LBrace"),
        ("fn f(x: i64) { while let Some(x) x { } }", "Eq"),
        ("fn f() { loop }", "LBrace"),
    ] {
        let errors = parse_program(source).unwrap_err();
        assert!(
            errors.iter().any(|err| err.message.contains(needle)),
            "{source}: expected an error containing {needle:?}, got {errors:?}"
        );
    }
}
