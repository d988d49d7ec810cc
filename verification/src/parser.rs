//! Recursive-descent parser for Sploosh, building the typed syntax tree.
//!
//! The parser never panics and always terminates: every recursive call either
//! consumes a token first or descends to a strictly lower-ranked production.
//! Diagnostics are collected as the parse goes and are never retracted.
use vstd::prelude::*;
use vstd::string::*;
use crate::ast::{
    covers, spec_join, Actor, AttrArg, Attribute, BinaryOp, Block, Const, Enum, Expr, ExprKind, ExternBlock, Field,
    Function, Handler, Ident, ImplBlock, Item, ItemKind, Literal, MatchArm, Module, OnchainModule,
    Param, Path, Pattern, PatternKind, Program, Span, Stmt, Struct, Trait, TraitRef, Type, TypeAlias,
    TypeArg, UnaryOp, Use, Variant, VariantKind, Visibility,
};
use crate::lexer::{diags_of, error_fits, lex, spec_lex, Diag, token_fits, tokens_well_formed, Keyword, LexError, Token, TokenKind};
use crate::text::{is_prefix, join_text, range_chars, str_eq};

verus! {

#[derive(Debug, Clone, PartialEq, Eq)]
pub struct ParseError {
    pub message: String,
    pub span: Span,
}

/// A span is an ordered range inside a text of length `len`.
pub open spec fn span_fits(span: Span, len: int) -> bool {
    span.start <= span.end <= len
}

/// The message and span of each parse diagnostic.
pub open spec fn parse_diags(errors: Seq<ParseError>) -> Seq<Diag> {
    errors.map_values(|e: ParseError| (e.message@, e.span))
}

/// A top-level item's span is an ordered range inside the source.
pub open spec fn item_span_fits(item: Item, len: int) -> bool {
    span_fits(item.span, len)
}

/// The name a top-level item declares, if it declares one.
pub open spec fn item_name(kind: ItemKind) -> Option<Ident> {
    match kind {
        ItemKind::Function(f) => Some(f.name),
        ItemKind::Struct(s) => Some(s.name),
        ItemKind::Enum(e) => Some(e.name),
        ItemKind::Actor(a) => Some(a.name),
        ItemKind::Module(m) => Some(m.name),
        ItemKind::Const(c) => Some(c.name),
        ItemKind::TypeAlias(t) => Some(t.name),
        ItemKind::Trait(t) => Some(t.name),
        ItemKind::OnchainModule(m) => Some(m.name),
        _ => None,
    }
}

/// An item's declared name lies inside the item and spells exactly the
/// source text under its span.
pub open spec fn item_name_ok(item: Item, bytes: Seq<u8>) -> bool {
    item_name(item.kind) matches Some(id) ==> covers(item.span, id.span) && id.name@ == range_chars(
        bytes,
        id.span.start as int,
        id.span.end as int,
    )
}

/// An attribute lies inside `outer`, its name lies inside it, and the name
/// spells the source text under its span.
pub open spec fn attr_ok(outer: Span, attr: Attribute, bytes: Seq<u8>) -> bool {
    &&& covers(outer, attr.span)
    &&& covers(attr.span, attr.name.span)
    &&& attr.name.name@ == range_chars(
        bytes,
        attr.name.span.start as int,
        attr.name.span.end as int,
    )
}

/// Every attribute of an item is well placed inside it.
pub open spec fn item_attrs_ok(item: Item, bytes: Seq<u8>) -> bool {
    forall|j: int| 0 <= j < item.attrs@.len() ==> attr_ok(item.span, #[trigger] item.attrs@[j], bytes)
}

/// Items appear in source order and do not overlap: each ends before any
/// later one starts.
pub open spec fn items_in_order(items: Seq<Item>) -> bool {
    forall|i: int, j: int|
        0 <= i < j < items.len() ==> (#[trigger] items[i]).span.end <= (#[trigger] items[j]).span.start
}

/// Parses a whole source file. Lexer diagnostics, if any, are reported as they
/// are; otherwise the parser's diagnostics are. A failed parse always reports
/// at least one diagnostic, each pointing into the source; the top-level items
/// of a successful parse span ordered ranges inside the source, in source
/// order and without overlap, and the name each declares and the attributes
/// it carries lie inside it, each name spelling the source text under its
/// span.
pub fn parse_program(source: &str) -> (r: Result<Program, Vec<ParseError>>)
    ensures
        r matches Err(errors) ==> errors@.len() > 0 && forall|i: int|
            0 <= i < errors@.len() ==> span_fits(
                (#[trigger] errors@[i]).span,
                source.spec_bytes().len() as int,
            ),
        r matches Ok(program) ==> items_in_order(program.items@) && forall|i: int|
            0 <= i < program.items@.len() ==> item_span_fits(
                #[trigger] program.items@[i],
                source.spec_bytes().len() as int,
            ) && item_name_ok(program.items@[i], source.spec_bytes()) && item_attrs_ok(
                program.items@[i],
                source.spec_bytes(),
            ),
        source.spec_bytes().len() == 0 ==> (r matches Ok(program) && program.items@.len() == 0),
        spec_lex(source.spec_bytes()).1.len() > 0 ==> (r matches Err(errors) && parse_diags(errors@)
            == spec_lex(source.spec_bytes()).1),
        r is Ok ==> spec_lex(source.spec_bytes()).1.len() == 0,
        forall|q: int|
            #[trigger] first_after_docs(spec_lex(source.spec_bytes()).0, 0, q) && !can_begin_item(
                spec_lex(source.spec_bytes()).0[q].kind,
            ) ==> r is Err,
{
    match lex(source) {
        Err(errors) => {
            let reported = lex_errors(errors);
            proof {
                assert(parse_diags(reported@) =~= diags_of(errors@));
                assert forall|i: int| 0 <= i < reported@.len() implies span_fits(
                    (#[trigger] reported@[i]).span,
                    source.spec_bytes().len() as int,
                ) by {
                    assert(error_fits(errors@[i], source.spec_bytes().len() as int));
                }
            }
            Err(reported)
        },
        Ok(tokens) => Parser::new(tokens, source).parse_program(),
    }
}

/// Lexer diagnostics reported as parse diagnostics, one for one, in order.
fn lex_errors(errors: Vec<LexError>) -> (r: Vec<ParseError>)
    ensures
        r@.len() == errors@.len(),
        forall|i: int|
            0 <= i < r@.len() ==> (#[trigger] r@[i]).message == errors@[i].message && r@[i].span
                == errors@[i].span,
{
    let mut out: Vec<ParseError> = Vec::new();
    let mut i: usize = 0;
    while i < errors.len()
        invariant
            i <= errors@.len(),
            out@.len() == i,
            forall|j: int|
                0 <= j < i ==> (#[trigger] out@[j]).message == errors@[j].message && out@[j].span
                    == errors@[j].span,
        decreases errors@.len() - i,
    {
        let e = &errors[i];
        out.push(ParseError { message: e.message.clone(), span: e.span });
        i = i + 1;
    }
    out
}

/// Parser-internal classification of infix operators: `=` builds an
/// `ExprKind::Assign` node, everything else an `ExprKind::Binary`.
#[derive(Debug, Clone, Copy, PartialEq, Eq, Structural)]
enum Infix {
    Assign,
    Op(BinaryOp),
}

/// The binding powers `(left, right)` of each infix operator token.
spec fn spec_infix_binding_power(kind: TokenKind) -> Option<(Infix, u8, u8)> {
    match kind {
        TokenKind::Eq => Some((Infix::Assign, 2u8, 1u8)),
        TokenKind::PipeGt => Some((Infix::Op(BinaryOp::Pipe), 8u8, 9u8)),
        TokenKind::Plus => Some((Infix::Op(BinaryOp::Add), 9u8, 10u8)),
        TokenKind::Minus => Some((Infix::Op(BinaryOp::Sub), 9u8, 10u8)),
        TokenKind::Star => Some((Infix::Op(BinaryOp::Mul), 10u8, 11u8)),
        TokenKind::Slash => Some((Infix::Op(BinaryOp::Div), 10u8, 11u8)),
        TokenKind::Percent => Some((Infix::Op(BinaryOp::Rem), 10u8, 11u8)),
        TokenKind::EqEq => Some((Infix::Op(BinaryOp::Eq), 6u8, 7u8)),
        TokenKind::Ne => Some((Infix::Op(BinaryOp::Ne), 6u8, 7u8)),
        TokenKind::Lt => Some((Infix::Op(BinaryOp::Lt), 7u8, 8u8)),
        TokenKind::Gt => Some((Infix::Op(BinaryOp::Gt), 7u8, 8u8)),
        TokenKind::Le => Some((Infix::Op(BinaryOp::Le), 7u8, 8u8)),
        TokenKind::Ge => Some((Infix::Op(BinaryOp::Ge), 7u8, 8u8)),
        TokenKind::AmpAmp => Some((Infix::Op(BinaryOp::And), 5u8, 6u8)),
        TokenKind::PipePipe => Some((Infix::Op(BinaryOp::Or), 4u8, 5u8)),
        TokenKind::DotDot => Some((Infix::Op(BinaryOp::Range), 3u8, 4u8)),
        TokenKind::DotDotEq => Some((Infix::Op(BinaryOp::RangeInclusive), 3u8, 4u8)),
        _ => None,
    }
}

/// The operator an infix entry of the binding-power table builds.
spec fn infix_op(infix: Infix) -> Option<BinaryOp> {
    match infix {
        Infix::Assign => None,
        Infix::Op(op) => Some(op),
    }
}

/// The binding-power table agrees with `infix_op_of` and `op_powers`.
proof fn lemma_infix_tables(kind: TokenKind)
    ensures
        spec_infix_binding_power(kind) is Some <==> infix_op_of(kind) is Some,
        spec_infix_binding_power(kind) matches Some((infix, l, r)) ==> infix_op_of(kind) == Some(
            infix_op(infix),
        ) && op_powers(infix_op(infix)) == (l as int, r as int),
{
}

/// Every operator but assignment is left-associative (its right power is one
/// more than its left); assignment is right-associative.
proof fn infix_associativity(kind: TokenKind)
    ensures
        spec_infix_binding_power(kind) matches Some((infix, l, r)) ==> (if infix == Infix::Assign {
            r < l
        } else {
            r == l + 1
        }),
{
}

/// A single plain identifier: `self`/`Self` are keywords, not identifiers.
pub open spec fn spec_is_attr_ident(path: Path) -> bool {
    &&& path.segments@.len() == 1
    &&& path.segments@[0]@ != "self"@
    &&& path.segments@[0]@ != "Self"@
}

/// The send-statement operand shape `handle.method(args)`: a call whose
/// callee is a field access.
pub open spec fn spec_is_method_call(expr: Expr) -> bool {
    match expr.kind {
        ExprKind::Call { callee, .. } => callee.kind is Field,
        _ => false,
    }
}

/// `IDENT | expr "." IDENT | "*" expr | expr "[" expr "]"`: a single plain
/// identifier, a field, an index, or a dereference.
pub open spec fn spec_is_assign_target(expr: Expr) -> bool {
    match expr.kind {
        ExprKind::Path(path) => spec_is_attr_ident(path),
        ExprKind::Field { .. } => true,
        ExprKind::Index { .. } => true,
        ExprKind::Unary { op, .. } => op == UnaryOp::Deref,
        _ => false,
    }
}

/// Tokens that can begin an expression.
pub open spec fn spec_can_begin_expr(kind: TokenKind) -> bool {
    match kind {
        TokenKind::IntLit | TokenKind::FloatLit | TokenKind::StringLit | TokenKind::CharLit
        | TokenKind::Ident => true,
        TokenKind::Keyword(k) => k == Keyword::True || k == Keyword::False || k
            == Keyword::SelfValue || k == Keyword::SelfType || k == Keyword::If || k
            == Keyword::Match || k == Keyword::While || k == Keyword::For || k == Keyword::Loop,
        TokenKind::Bang | TokenKind::Minus | TokenKind::Star | TokenKind::Amp | TokenKind::LParen
        | TokenKind::LBrace => true,
        _ => false,
    }
}

/// Names of the built-in primitive types.
pub open spec fn spec_is_primitive_type(t: Seq<char>) -> bool {
    t == "i8"@ || t == "i16"@ || t == "i32"@ || t == "i64"@ || t == "i128"@ || t == "u8"@ || t
        == "u16"@ || t == "u32"@ || t == "u64"@ || t == "u128"@ || t == "u256"@ || t == "f32"@
        || t == "f64"@ || t == "bool"@ || t == "char"@ || t == "str"@ || t == "String"@ || t
        == "Address"@
}

/// `dyn` names no primitive type.
proof fn lemma_dyn_not_primitive()
    ensures
        !spec_is_primitive_type("dyn"@),
{
    reveal_strlit("dyn");
    reveal_strlit("i8");
    reveal_strlit("i16");
    reveal_strlit("i32");
    reveal_strlit("i64");
    reveal_strlit("i128");
    reveal_strlit("u8");
    reveal_strlit("u16");
    reveal_strlit("u32");
    reveal_strlit("u64");
    reveal_strlit("u128");
    reveal_strlit("u256");
    reveal_strlit("f32");
    reveal_strlit("f64");
    reveal_strlit("bool");
    reveal_strlit("char");
    reveal_strlit("str");
    reveal_strlit("String");
    reveal_strlit("Address");
    assert("dyn"@[0] == 'd');
    assert("i16"@[0] != 'd');
    assert("i32"@[0] != 'd');
    assert("i64"@[0] != 'd');
    assert("u16"@[0] != 'd');
    assert("u32"@[0] != 'd');
    assert("u64"@[0] != 'd');
    assert("f32"@[0] != 'd');
    assert("f64"@[0] != 'd');
    assert("str"@[0] != 'd');
}

/// The operator and the two operands of a binary or assignment node.
pub open spec fn infix_parts(e: Expr) -> Option<(Option<BinaryOp>, Expr, Expr)> {
    match e.kind {
        ExprKind::Binary { op, left, right } => Some((Some(op), *left, *right)),
        ExprKind::Assign { target, value } => Some((None, *target, *value)),
        _ => None,
    }
}

/// A binary or assignment node whose operands lie inside it, the left one
/// ending before the right one begins.
pub open spec fn binary_in_order(e: Expr) -> bool {
    infix_parts(e) matches Some((_, l, r)) ==> e.span.start <= l.span.start <= l.span.end
        <= r.span.start <= r.span.end <= e.span.end
}

/// A binary or assignment node written without parentheses round it: its
/// span runs exactly from its left operand to its right one.
pub open spec fn bare_infix(e: Expr) -> Option<(Option<BinaryOp>, Expr, Expr)> {
    match infix_parts(e) {
        Some((op, l, r)) => if e.span == (Span { start: l.span.start, end: r.span.end }) {
            Some((op, l, r))
        } else {
            None
        },
        None => None,
    }
}

/// Left and right binding powers of an operator (`None`: assignment).
pub open spec fn op_powers(op: Option<BinaryOp>) -> (int, int) {
    match op {
        None => (2, 1),
        Some(BinaryOp::Pipe) => (8, 9),
        Some(BinaryOp::Add) | Some(BinaryOp::Sub) => (9, 10),
        Some(BinaryOp::Mul) | Some(BinaryOp::Div) | Some(BinaryOp::Rem) => (10, 11),
        Some(BinaryOp::Eq) | Some(BinaryOp::Ne) => (6, 7),
        Some(BinaryOp::Lt) | Some(BinaryOp::Gt) | Some(BinaryOp::Le) | Some(BinaryOp::Ge) => (7, 8),
        Some(BinaryOp::And) => (5, 6),
        Some(BinaryOp::Or) => (4, 5),
        Some(BinaryOp::Range) | Some(BinaryOp::RangeInclusive) => (3, 4),
    }
}

/// The operator that an infix token spells (`Some(None)`: assignment).
pub open spec fn infix_op_of(kind: TokenKind) -> Option<Option<BinaryOp>> {
    match kind {
        TokenKind::Eq => Some(None),
        TokenKind::PipeGt => Some(Some(BinaryOp::Pipe)),
        TokenKind::Plus => Some(Some(BinaryOp::Add)),
        TokenKind::Minus => Some(Some(BinaryOp::Sub)),
        TokenKind::Star => Some(Some(BinaryOp::Mul)),
        TokenKind::Slash => Some(Some(BinaryOp::Div)),
        TokenKind::Percent => Some(Some(BinaryOp::Rem)),
        TokenKind::EqEq => Some(Some(BinaryOp::Eq)),
        TokenKind::Ne => Some(Some(BinaryOp::Ne)),
        TokenKind::Lt => Some(Some(BinaryOp::Lt)),
        TokenKind::Gt => Some(Some(BinaryOp::Gt)),
        TokenKind::Le => Some(Some(BinaryOp::Le)),
        TokenKind::Ge => Some(Some(BinaryOp::Ge)),
        TokenKind::AmpAmp => Some(Some(BinaryOp::And)),
        TokenKind::PipePipe => Some(Some(BinaryOp::Or)),
        TokenKind::DotDot => Some(Some(BinaryOp::Range)),
        TokenKind::DotDotEq => Some(Some(BinaryOp::RangeInclusive)),
        _ => None,
    }
}

/// A pipe-stage callee: a path, or a field access on a callee.
pub open spec fn is_stage_callee(e: Expr) -> bool
    decreases e,
{
    match e.kind {
        ExprKind::Path(_) => true,
        ExprKind::Field { base, .. } => is_stage_callee(*base),
        _ => false,
    }
}

/// A pipe stage: a callee, or a call of one.
pub open spec fn is_pipe_stage(e: Expr) -> bool {
    is_stage_callee(e) || (e.kind matches ExprKind::Call { callee, .. } && is_stage_callee(*callee))
}

/// Token `p` opens a postfix operator: `?`, `.`, `(`, `[`, `as`, or a
/// turbofish `::<`.
pub open spec fn postfix_start(tokens: Seq<Token>, p: int) -> bool {
    0 <= p < tokens.len() && {
        let k = tokens[p].kind;
        ||| k == TokenKind::Question || k == TokenKind::Dot || k == TokenKind::LParen
        ||| k == TokenKind::LBracket || k == TokenKind::Keyword(Keyword::As)
        ||| k == TokenKind::ColonColon && p + 1 < tokens.len() && tokens[p + 1].kind == TokenKind::Lt
    }
}

/// An unparenthesized `|>` node has a pipe stage on its right.
pub open spec fn pipe_right_ok(e: Expr) -> bool {
    bare_infix(e) matches Some((op, _, r)) ==> (op == Some(BinaryOp::Pipe) ==> is_pipe_stage(r))
}

/// Parsing from token `p` on, an expression of minimum binding power `bp`
/// ends before `p`: no postfix operator follows, and no infix operator that
/// binds at least as tightly as `bp`.
pub open spec fn stops_at(tokens: Seq<Token>, p: int, bp: int) -> bool {
    &&& !postfix_start(tokens, p)
    &&& 0 <= p < tokens.len() ==> (infix_op_of(tokens[p].kind) matches Some(op) ==> op_powers(op).0
        < bp)
}

/// Precedence and associativity of an unparenthesized binary node parsed at
/// minimum binding power `min_bp`: its operator binds at least that tightly
/// and is spelled by a token between its operands; an unparenthesized left
/// operand (other than a pipe) binds more tightly than the operator's right
/// power allows to follow it; an unparenthesized right operand binds at least
/// as tightly as the operator's right power; and the right side of `|>` is a
/// pipe stage.
pub open spec fn precedence_ok(tokens: Seq<Token>, e: Expr, min_bp: int) -> bool {
    bare_infix(e) matches Some((op, l, r)) ==> {
        &&& op_powers(op).0 >= min_bp
        &&& exists|k: int|
            0 <= k < tokens.len() && l.span.end <= tokens[k].span.start && tokens[k].span.end
                <= r.span.start && #[trigger] infix_op_of(tokens[k].kind) == Some(op)
        &&& (bare_infix(l) matches Some((lop, _, _)) ==> (lop != Some(BinaryOp::Pipe) ==> op_powers(
            op,
        ).0 < op_powers(lop).1))
        &&& (bare_infix(r) matches Some((rop, _, _)) ==> op_powers(rop).0 >= op_powers(op).1)
        &&& (op == Some(BinaryOp::Pipe) ==> is_pipe_stage(r))
    }
}

/// Some diagnostic in `errors` has this message and span.
pub open spec fn reported(errors: Seq<ParseError>, message: Seq<char>, span: Span) -> bool {
    exists|j: int| 0 <= j < errors.len() && #[trigger] errors[j].message@ == message && errors[j].span == span
}

/// An unparenthesized assignment whose target cannot be assigned to is
/// reported at the target.
pub open spec fn bad_target_reported(errors: Seq<ParseError>, e: Expr) -> bool {
    bare_infix(e) matches Some((op, t, _)) ==> (op is None && !spec_is_assign_target(t) ==> reported(
        errors,
        "invalid assignment target"@,
        t.span,
    ))
}

/// The range operators.
pub open spec fn is_range_op(op: Option<BinaryOp>) -> bool {
    op == Some(BinaryOp::Range) || op == Some(BinaryOp::RangeInclusive)
}

/// An unparenthesized range whose left operand is an unparenthesized range.
pub open spec fn range_chained(e: Expr) -> bool {
    match bare_infix(e) {
        Some((op, l, _)) => is_range_op(op) && match bare_infix(l) {
            Some((lop, _, _)) => is_range_op(lop),
            None => false,
        },
        None => false,
    }
}

/// The message of the chained-range diagnostic.
pub open spec fn chain_message() -> Seq<char> {
    "range operators cannot be chained; parenthesize one side"@
}

/// Diagnostic `j` is the chained-range one, at a token between the operands
/// of `e`.
pub open spec fn chain_error_at(errors: Seq<ParseError>, j: int, e: Expr) -> bool {
    &&& 0 <= j < errors.len()
    &&& errors[j].message@ == chain_message()
    &&& match infix_parts(e) {
        Some((_, l, r)) => l.span.end <= errors[j].span.start && errors[j].span.end <= r.span.start,
        None => false,
    }
}

/// A chained range is reported at its second operator.
pub open spec fn chain_reported(errors: Seq<ParseError>, e: Expr) -> bool {
    range_chained(e) ==> exists|j: int| #[trigger] chain_error_at(errors, j, e)
}

/// What the expression loop knows of an operator node it has built:
/// precedence, where the next operator may bind, and the diagnostics already
/// reported for it (by index into the diagnostics).
spec fn lhs_facts_body(
    tokens: Seq<Token>,
    errors: Seq<ParseError>,
    pos: int,
    lhs: Expr,
    min_bp: int,
    a: int,
    c: int,
    pnd: int,
) -> bool {
    &&& precedence_ok(tokens, lhs, min_bp)
    &&& (bare_infix(lhs) matches Some((op, _, _)) ==> (op != Some(BinaryOp::Pipe) ==> stops_at(
        tokens,
        pos,
        op_powers(op).1,
    )))
    &&& (bare_infix(lhs) matches Some((op, t, _)) ==> (op is None && !spec_is_assign_target(t) ==> 0
        <= a < errors.len() && errors[a].message@ == "invalid assignment target"@ && errors[a].span
        == t.span))
    &&& (range_chained(lhs) ==> chain_error_at(errors, c, lhs))
    &&& (bare_infix(lhs) matches Some((op, _, _)) ==> (is_range_op(op) && pos < tokens.len() && (
    tokens[pos].kind == TokenKind::DotDot || tokens[pos].kind == TokenKind::DotDotEq) ==> 0 <= pnd
        < errors.len() && errors[pnd].message@ == chain_message() && errors[pnd].span
        == tokens[pos].span))
}

/// `lhs_facts_body`, kept folded where the loop does not need it.
#[verifier::opaque]
spec fn lhs_facts(
    tokens: Seq<Token>,
    errors: Seq<ParseError>,
    pos: int,
    lhs: Expr,
    min_bp: int,
    a: int,
    c: int,
    pnd: int,
) -> bool {
    lhs_facts_body(tokens, errors, pos, lhs, min_bp, a, c, pnd)
}

/// The prefix operator a token spells.
pub open spec fn unary_op_of(kind: TokenKind) -> Option<UnaryOp> {
    match kind {
        TokenKind::Bang => Some(UnaryOp::Not),
        TokenKind::Minus => Some(UnaryOp::Neg),
        TokenKind::Star => Some(UnaryOp::Deref),
        TokenKind::Amp => Some(UnaryOp::Ref),
        _ => None,
    }
}

/// A prefix-operator node for `op` whose operand is no unparenthesized
/// binary node: prefix operators bind more tightly than every infix one.
pub open spec fn is_unary_node(e: Expr, op: UnaryOp) -> bool {
    e.kind matches ExprKind::Unary { op: o, expr } && o == op && bare_infix(*expr) is None
}

/// The laws of an expression parsed at minimum binding power `min_bp`:
/// precedence and associativity, the pipe-stage rules, and the diagnostics
/// for assignment targets and chained ranges.
#[verifier::opaque]
pub open spec fn expr_laws(tokens: Seq<Token>, errors: Seq<ParseError>, e: Expr, min_bp: int) -> bool {
    &&& precedence_ok(tokens, e, min_bp)
    &&& pipe_question_ok(e)
    &&& bad_target_reported(errors, e)
    &&& chain_reported(errors, e)
}

/// Token `i` exists and has kind `k`.
pub open spec fn kind_is(tokens: Seq<Token>, i: int, k: TokenKind) -> bool {
    0 <= i < tokens.len() && tokens[i].kind == k
}

/// The source text of token `k`.
pub open spec fn tok_text(tokens: Seq<Token>, bytes: Seq<u8>, k: int) -> Seq<char> {
    range_chars(bytes, tokens[k].span.start as int, tokens[k].span.end as int)
}

/// A pattern without `|` that starts at token `k` agrees with that token:
/// it begins where the token begins, and its form is the one the token opens
/// (`_` a wildcard, a literal token that literal, `ref` a ref binding of the
/// next name, a name a binding of that name or a path starting with it, `(`
/// a tuple).
pub open spec fn atom_head(tokens: Seq<Token>, bytes: Seq<u8>, k: int, p: Pattern) -> bool {
    &&& 0 <= k < tokens.len()
    &&& p.span.start == tokens[k].span.start
    &&& match p.kind {
        PatternKind::Wildcard => tokens[k].kind == TokenKind::Ident && tok_text(tokens, bytes, k)
            == "_"@,
        PatternKind::Literal(l) => is_literal_kind(tokens[k].kind) && spec_literal(
            tokens[k].kind,
            tok_text(tokens, bytes, k),
            l,
        ),
        PatternKind::Binding { name, is_ref } => if is_ref {
            &&& tokens[k].kind == TokenKind::Ident
            &&& tok_text(tokens, bytes, k) == "ref"@
            &&& kind_is(tokens, k + 1, TokenKind::Ident)
            &&& name@ == tok_text(tokens, bytes, k + 1)
        } else {
            tokens[k].kind == TokenKind::Ident && name@ == tok_text(tokens, bytes, k)
        },
        PatternKind::Path(path) => path.segments@.len() >= 1 && path.segments@[0]@ == tok_text(
            tokens,
            bytes,
            k,
        ),
        PatternKind::Call { path, .. } => path.segments@.len() >= 1 && path.segments@[0]@
            == tok_text(tokens, bytes, k),
        PatternKind::Struct { path, .. } => path.segments@.len() >= 1 && path.segments@[0]@
            == tok_text(tokens, bytes, k),
        PatternKind::Tuple(_) => tokens[k].kind == TokenKind::LParen,
        PatternKind::Or { .. } => false,
    }
}

/// A pattern that starts at token `k` agrees with that token; for `a | b`,
/// its first alternative does.
pub open spec fn pattern_head(tokens: Seq<Token>, bytes: Seq<u8>, k: int, p: Pattern) -> bool {
    match p.kind {
        PatternKind::Or { left, .. } => 0 <= k < tokens.len() && p.span.start
            == tokens[k].span.start && atom_head(tokens, bytes, k, *left),
        _ => atom_head(tokens, bytes, k, p),
    }
}

/// A struct-pattern field whose name is token `k`: the field is named by
/// that token; after `name:` it holds the pattern that starts after the
/// colon, and written alone it binds its own name at the name token.
pub open spec fn field_pat_at(tokens: Seq<Token>, bytes: Seq<u8>, k: int, f: (String, Pattern)) -> bool {
    &&& kind_is(tokens, k, TokenKind::Ident)
    &&& f.0@ == tok_text(tokens, bytes, k)
    &&& kind_is(tokens, k + 1, TokenKind::Colon) ==> pattern_head(tokens, bytes, k + 2, f.1)
    &&& !kind_is(tokens, k + 1, TokenKind::Colon) ==> {
        &&& f.1.kind matches PatternKind::Binding { name, is_ref } && name@ == f.0@ && !is_ref
        &&& f.1.span == tokens[k].span
    }
}

/// The fields of a struct pattern, named by the tokens at the increasing
/// positions `ks`, all in `from..to`.
pub open spec fn field_pats_at(
    tokens: Seq<Token>,
    bytes: Seq<u8>,
    from: int,
    to: int,
    v: Seq<(String, Pattern)>,
    ks: Seq<int>,
) -> bool {
    &&& ks.len() == v.len()
    &&& forall|i: int| 0 <= i < v.len() ==> from <= #[trigger] ks[i] < to && field_pat_at(tokens, bytes, ks[i], v[i])
    &&& forall|i: int, j: int| 0 <= i < j < v.len() ==> ks[i] < ks[j]
}

/// The fields of a struct pattern parsed from tokens `from..to`: each is
/// named by its own token, in source order, and holds what its form gives.
pub open spec fn field_pats_ok(
    tokens: Seq<Token>,
    bytes: Seq<u8>,
    from: int,
    to: int,
    v: Seq<(String, Pattern)>,
) -> bool {
    exists|ks: Seq<int>| #[trigger] field_pats_at(tokens, bytes, from, to, v, ks)
}

/// A type that starts at token `k` agrees with that token: `&` opens a
/// reference, `[` an array or slice, `(` a tuple, `fn` a function type,
/// `dyn` a trait object, and a name a primitive type of that name or a path
/// starting with it.
pub open spec fn ty_head(tokens: Seq<Token>, bytes: Seq<u8>, k: int, t: Type) -> bool {
    &&& 0 <= k < tokens.len()
    &&& match t {
        Type::Reference { .. } => tokens[k].kind == TokenKind::Amp,
        Type::Array { .. } => tokens[k].kind == TokenKind::LBracket,
        Type::Slice(_) => tokens[k].kind == TokenKind::LBracket,
        Type::Tuple(_) => tokens[k].kind == TokenKind::LParen,
        Type::Function { .. } => tokens[k].kind == TokenKind::Keyword(Keyword::Fn),
        Type::Dyn(_) => tokens[k].kind == TokenKind::Ident && tok_text(tokens, bytes, k) == "dyn"@,
        Type::Primitive(name) => name@ == tok_text(tokens, bytes, k),
        Type::Path { path, .. } => path.segments@.len() >= 1 && path.segments@[0]@ == tok_text(
            tokens,
            bytes,
            k,
        ),
    }
}

/// A type argument that starts at token `k`: `name = type` binds the name
/// of token `k` to the type after the `=`; otherwise it is the type that
/// starts at `k`.
pub open spec fn type_arg_at(tokens: Seq<Token>, bytes: Seq<u8>, k: int, a: TypeArg) -> bool {
    match a {
        TypeArg::Type(t) => ty_head(tokens, bytes, k, t) && !(kind_is(tokens, k, TokenKind::Ident)
            && kind_is(tokens, k + 1, TokenKind::Eq)),
        TypeArg::Assoc { name, ty } => {
            &&& kind_is(tokens, k, TokenKind::Ident)
            &&& kind_is(tokens, k + 1, TokenKind::Eq)
            &&& name.name@ == tok_text(tokens, bytes, k)
            &&& ty_head(tokens, bytes, k + 2, ty)
        },
    }
}

/// Type arguments that start at the increasing positions `ks`, all in
/// `from..to`.
pub open spec fn type_args_at(
    tokens: Seq<Token>,
    bytes: Seq<u8>,
    from: int,
    to: int,
    v: Seq<TypeArg>,
    ks: Seq<int>,
) -> bool {
    &&& ks.len() == v.len()
    &&& forall|i: int| 0 <= i < v.len() ==> from <= #[trigger] ks[i] < to && type_arg_at(tokens, bytes, ks[i], v[i])
    &&& forall|i: int, j: int| 0 <= i < j < v.len() ==> ks[i] < ks[j]
}

/// The type arguments parsed from tokens `from..to` come in source order,
/// each the one that starts at its own position.
pub open spec fn type_args_ok(tokens: Seq<Token>, bytes: Seq<u8>, from: int, to: int, v: Seq<TypeArg>) -> bool {
    exists|ks: Seq<int>| #[trigger] type_args_at(tokens, bytes, from, to, v, ks)
}

/// A struct-literal field whose name is token `k`: the field is named by
/// that token, has a value exactly when a `:` follows the name, and that
/// value is the expression that starts right after the `:` (it agrees with
/// the token there).
pub open spec fn field_init_at(tokens: Seq<Token>, bytes: Seq<u8>, k: int, f: (String, Option<Expr>)) -> bool {
    &&& kind_is(tokens, k, TokenKind::Ident)
    &&& f.0@ == tok_text(tokens, bytes, k)
    &&& (kind_is(tokens, k + 1, TokenKind::Colon) <==> f.1 is Some)
    &&& f.1 matches Some(e) ==> expr_head(tokens, bytes, k + 2, e)
}

/// The fields of a struct literal, named by the tokens at the increasing
/// positions `ks`, all in `from..to`.
pub open spec fn field_inits_at(
    tokens: Seq<Token>,
    bytes: Seq<u8>,
    from: int,
    to: int,
    v: Seq<(String, Option<Expr>)>,
    ks: Seq<int>,
) -> bool {
    &&& ks.len() == v.len()
    &&& forall|i: int| 0 <= i < v.len() ==> from <= #[trigger] ks[i] < to && field_init_at(tokens, bytes, ks[i], v[i])
    &&& forall|i: int, j: int| 0 <= i < j < v.len() ==> ks[i] < ks[j]
}

/// The fields of a struct literal parsed from tokens `from..to`: each is
/// named by its own token, in source order, and holds what its form gives.
pub open spec fn field_inits_ok(
    tokens: Seq<Token>,
    bytes: Seq<u8>,
    from: int,
    to: int,
    v: Seq<(String, Option<Expr>)>,
) -> bool {
    exists|ks: Seq<int>| #[trigger] field_inits_at(tokens, bytes, from, to, v, ks)
}

/// An expression that starts at token `k` agrees with that token: it
/// begins where the token begins, and, unless the token is `(`, its leftmost
/// operand (through binary operators, assignment and postfix operators) has
/// the form the token opens: a literal token that literal, a name a path or
/// struct literal starting with it, `vec` a vector literal, a prefix
/// operator that operator, `{` a block, and each expression keyword its
/// expression.
pub open spec fn expr_head(tokens: Seq<Token>, bytes: Seq<u8>, k: int, e: Expr) -> bool
    decreases e,
{
    &&& 0 <= k < tokens.len()
    &&& e.span.start == tokens[k].span.start
    &&& tokens[k].kind != TokenKind::LParen ==> {
        let tk = tokens[k].kind;
        match e.kind {
            ExprKind::Literal(l) => is_literal_kind(tk) && spec_literal(tk, tok_text(tokens, bytes, k), l),
            ExprKind::Path(p) => p.segments@.len() >= 1 && p.segments@[0]@ == tok_text(tokens, bytes, k),
            ExprKind::StructLiteral { path, .. } => path.segments@.len() >= 1 && path.segments@[0]@
                == tok_text(tokens, bytes, k),
            ExprKind::VecLiteral(_) => tk == TokenKind::Ident && tok_text(tokens, bytes, k) == "vec"@,
            ExprKind::VecRepeat { .. } => tk == TokenKind::Ident && tok_text(tokens, bytes, k) == "vec"@,
            ExprKind::Unary { op, .. } => unary_op_of(tk) == Some(op),
            ExprKind::Block(_) => tk == TokenKind::LBrace,
            ExprKind::If { .. } => tk == TokenKind::Keyword(Keyword::If),
            ExprKind::IfLet { .. } => tk == TokenKind::Keyword(Keyword::If),
            ExprKind::While { .. } => tk == TokenKind::Keyword(Keyword::While),
            ExprKind::WhileLet { .. } => tk == TokenKind::Keyword(Keyword::While),
            ExprKind::For { .. } => tk == TokenKind::Keyword(Keyword::For),
            ExprKind::Loop { .. } => tk == TokenKind::Keyword(Keyword::Loop),
            ExprKind::Match { .. } => tk == TokenKind::Keyword(Keyword::Match),
            ExprKind::Binary { left, .. } => expr_head(tokens, bytes, k, *left),
            ExprKind::Assign { target, .. } => expr_head(tokens, bytes, k, *target),
            ExprKind::Call { callee, .. } => expr_head(tokens, bytes, k, *callee),
            ExprKind::Field { base, .. } => expr_head(tokens, bytes, k, *base),
            ExprKind::Index { base, .. } => expr_head(tokens, bytes, k, *base),
            ExprKind::ErrorProp(inner) => expr_head(tokens, bytes, k, *inner),
            ExprKind::Await(inner) => expr_head(tokens, bytes, k, *inner),
            ExprKind::Cast { expr, .. } => expr_head(tokens, bytes, k, *expr),
        }
    }
}

/// Expressions that start at the increasing positions `ks`, all in
/// `from..to`, each agreeing with the token it starts at.
pub open spec fn exprs_at(tokens: Seq<Token>, bytes: Seq<u8>, from: int, to: int, v: Seq<Expr>, ks: Seq<int>) -> bool {
    &&& ks.len() == v.len()
    &&& forall|i: int| 0 <= i < v.len() ==> from <= #[trigger] ks[i] < to && expr_head(tokens, bytes, ks[i], v[i])
    &&& forall|i: int, j: int| 0 <= i < j < v.len() ==> ks[i] < ks[j]
}

/// A list of expressions parsed from tokens `from..to` comes in source
/// order, each the expression that starts at its own position.
pub open spec fn exprs_ok(tokens: Seq<Token>, bytes: Seq<u8>, from: int, to: int, v: Seq<Expr>) -> bool {
    exists|ks: Seq<int>| #[trigger] exprs_at(tokens, bytes, from, to, v, ks)
}

/// Patterns that start at the increasing positions `ks`, all in
/// `from..to`, each agreeing with the token it starts at.
pub open spec fn patterns_at(tokens: Seq<Token>, bytes: Seq<u8>, from: int, to: int, v: Seq<Pattern>, ks: Seq<int>) -> bool {
    &&& ks.len() == v.len()
    &&& forall|i: int| 0 <= i < v.len() ==> from <= #[trigger] ks[i] < to && pattern_head(tokens, bytes, ks[i], v[i])
    &&& forall|i: int, j: int| 0 <= i < j < v.len() ==> ks[i] < ks[j]
}

/// A list of patterns parsed from tokens `from..to` comes in source order,
/// each the pattern that starts at its own position.
pub open spec fn patterns_ok(tokens: Seq<Token>, bytes: Seq<u8>, from: int, to: int, v: Seq<Pattern>) -> bool {
    exists|ks: Seq<int>| #[trigger] patterns_at(tokens, bytes, from, to, v, ks)
}

/// Types that start at the increasing positions `ks`, all in `from..to`,
/// each agreeing with the token it starts at.
pub open spec fn types_at(tokens: Seq<Token>, bytes: Seq<u8>, from: int, to: int, v: Seq<Type>, ks: Seq<int>) -> bool {
    &&& ks.len() == v.len()
    &&& forall|i: int| 0 <= i < v.len() ==> from <= #[trigger] ks[i] < to && ty_head(tokens, bytes, ks[i], v[i])
    &&& forall|i: int, j: int| 0 <= i < j < v.len() ==> ks[i] < ks[j]
}

/// A list of types parsed from tokens `from..to` comes in source order,
/// each the type that starts at its own position.
pub open spec fn types_ok(tokens: Seq<Token>, bytes: Seq<u8>, from: int, to: int, v: Seq<Type>) -> bool {
    exists|ks: Seq<int>| #[trigger] types_at(tokens, bytes, from, to, v, ks)
}

/// A statement that starts at token `k` agrees with that token: `let`,
/// `return` (with the value that starts after it), `break` and `continue`
/// open their statements, and an expression statement is the expression
/// that starts at `k`, or after a leading `send`.
pub open spec fn stmt_at(tokens: Seq<Token>, bytes: Seq<u8>, k: int, st: Stmt) -> bool {
    match st {
        Stmt::Let { .. } => kind_is(tokens, k, TokenKind::Keyword(Keyword::Let)),
        Stmt::Return(v) => kind_is(tokens, k, TokenKind::Keyword(Keyword::Return)) && (v matches Some(
            e,
        ) ==> expr_head(tokens, bytes, k + 1, e)),
        Stmt::Break => kind_is(tokens, k, TokenKind::Keyword(Keyword::Break)),
        Stmt::Continue => kind_is(tokens, k, TokenKind::Keyword(Keyword::Continue)),
        Stmt::Expr(e) => expr_head(tokens, bytes, k, e) || (kind_is(tokens, k, TokenKind::Ident)
            && tok_text(tokens, bytes, k) == "send"@ && expr_head(tokens, bytes, k + 1, e)),
    }
}

/// Statements that start at the increasing positions `ks`, all in
/// `from..to`, each agreeing with the token it starts at.
pub open spec fn stmts_at(tokens: Seq<Token>, bytes: Seq<u8>, from: int, to: int, v: Seq<Stmt>, ks: Seq<int>) -> bool {
    &&& ks.len() == v.len()
    &&& forall|i: int| 0 <= i < v.len() ==> from <= #[trigger] ks[i] < to && stmt_at(tokens, bytes, ks[i], v[i])
    &&& forall|i: int, j: int| 0 <= i < j < v.len() ==> ks[i] < ks[j]
}

/// The statements of a block parsed from tokens `from..to` come in source
/// order, each the statement that starts at its own position.
pub open spec fn stmts_ok(tokens: Seq<Token>, bytes: Seq<u8>, from: int, to: int, v: Seq<Stmt>) -> bool {
    exists|ks: Seq<int>| #[trigger] stmts_at(tokens, bytes, from, to, v, ks)
}

/// The tail of a block parsed from tokens `from..to` is an expression that
/// starts inside it.
pub open spec fn tail_ok(tokens: Seq<Token>, bytes: Seq<u8>, from: int, to: int, t: Expr) -> bool {
    exists|k: int| from <= k < to && #[trigger] expr_head(tokens, bytes, k, t)
}

/// The expression `e` starts at a token inside `from..to` right after a
/// token of kind `after`.
pub open spec fn expr_after(tokens: Seq<Token>, bytes: Seq<u8>, from: int, to: int, after: TokenKind, e: Expr) -> bool {
    exists|k: int| from < k < to && kind_is(tokens, k - 1, after) && #[trigger] expr_head(tokens, bytes, k, e)
}

/// A match arm parsed from tokens `from..to`: its pattern starts at `from`,
/// its guard right after an `if`, and its body right after the `=>`.
pub open spec fn arm_ok(tokens: Seq<Token>, bytes: Seq<u8>, from: int, to: int, arm: MatchArm) -> bool {
    &&& pattern_head(tokens, bytes, from, arm.pattern)
    &&& arm.guard matches Some(g) ==> expr_after(tokens, bytes, from, to, TokenKind::Keyword(Keyword::If), g)
    &&& expr_after(tokens, bytes, from, to, TokenKind::FatArrow, arm.body)
}

/// A `?` directly after a pipe stage wraps the whole pipe application.
pub open spec fn pipe_question_ok(e: Expr) -> bool {
    e.kind matches ExprKind::ErrorProp(inner) ==> (bare_infix(*inner) matches Some((op, _, r))
        ==> (op == Some(BinaryOp::Pipe) ==> is_pipe_stage(r)))
}

/// The operands of a top-level binary node (or of one directly under a
/// trailing `?`) stand in source order.
pub open spec fn operands_in_order(e: Expr) -> bool {
    &&& binary_in_order(e)
    &&& (e.kind matches ExprKind::ErrorProp(inner) ==> binary_in_order(*inner))
}

/// The most specific attribute-argument form of an expression: a bare
/// identifier, `name = value`, `name(arg)`, or else the expression itself.
pub open spec fn spec_classify_attr(expr: Expr) -> AttrArg {
    match expr.kind {
        ExprKind::Path(path) => if spec_is_attr_ident(path) {
            AttrArg::Ident(Ident { name: path.segments@[0], span: path.span })
        } else {
            AttrArg::Expr(expr)
        },
        ExprKind::Assign { target, value } => match target.kind {
            ExprKind::Path(path) => if spec_is_attr_ident(path) {
                AttrArg::Assigned {
                    name: Ident { name: path.segments@[0], span: path.span },
                    value: *value,
                }
            } else {
                AttrArg::Expr(expr)
            },
            _ => AttrArg::Expr(expr),
        },
        ExprKind::Call { callee, type_args, args } => match callee.kind {
            ExprKind::Path(path) => if type_args@.len() == 0 && args@.len() == 1
                && spec_is_attr_ident(path) {
                AttrArg::Call {
                    name: Ident { name: path.segments@[0], span: path.span },
                    arg: args@[0],
                }
            } else {
                AttrArg::Expr(expr)
            },
            _ => AttrArg::Expr(expr),
        },
        _ => AttrArg::Expr(expr),
    }
}

/// The literal node for a literal token whose text is `text`.
pub open spec fn spec_literal(kind: TokenKind, text: Seq<char>, lit: Literal) -> bool {
    match kind {
        TokenKind::IntLit => lit matches Literal::Int(s) && s@ == text,
        TokenKind::FloatLit => lit matches Literal::Float(s) && s@ == text,
        TokenKind::StringLit => lit matches Literal::String(s) && s@ == text,
        TokenKind::CharLit => lit matches Literal::Char(s) && s@ == text,
        TokenKind::Keyword(Keyword::True) => lit == Literal::Bool(true),
        TokenKind::Keyword(Keyword::False) => lit == Literal::Bool(false),
        _ => false,
    }
}

pub open spec fn is_literal_kind(kind: TokenKind) -> bool {
    kind == TokenKind::IntLit || kind == TokenKind::FloatLit || kind == TokenKind::StringLit
        || kind == TokenKind::CharLit || kind == TokenKind::Keyword(Keyword::True) || kind
        == TokenKind::Keyword(Keyword::False)
}

/// Canonicalizes the overlapping attribute-argument alternatives: a bare
/// `IDENT`, `IDENT "=" expr`, and `IDENT "(" expr ")"` are all valid
/// expressions too, so they parse as expressions and the most specific form is
/// recovered from the shape afterwards.
fn classify_attr_expr(expr: Expr) -> (r: AttrArg)
    ensures
        r == spec_classify_attr(expr),
{
    let span = expr.span;
    match expr.kind {
        ExprKind::Path(path) => {
            if is_attr_ident(&path) {
                let name = path.segments[0].clone();
                AttrArg::Ident(Ident { name, span: path.span })
            } else {
                AttrArg::Expr(Expr { kind: ExprKind::Path(path), span })
            }
        },
        ExprKind::Assign { target, value } => {
            let target_span = target.span;
            let target = *target;
            match target.kind {
                ExprKind::Path(path) => {
                    if is_attr_ident(&path) {
                        let name = path.segments[0].clone();
                        AttrArg::Assigned { name: Ident { name, span: path.span }, value: *value }
                    } else {
                        AttrArg::Expr(
                            Expr {
                                kind: ExprKind::Assign {
                                    target: Box::new(
                                        Expr { kind: ExprKind::Path(path), span: target_span },
                                    ),
                                    value,
                                },
                                span,
                            },
                        )
                    }
                },
                kind => AttrArg::Expr(
                    Expr {
                        kind: ExprKind::Assign {
                            target: Box::new(Expr { kind, span: target_span }),
                            value,
                        },
                        span,
                    },
                ),
            }
        },
        ExprKind::Call { callee, type_args, mut args } => {
            let callee_span = callee.span;
            let callee = *callee;
            match callee.kind {
                ExprKind::Path(path) => {
                    if type_args.len() == 0 && args.len() == 1 && is_attr_ident(&path) {
                        let name = path.segments[0].clone();
                        let ghost before = args@;
                        match args.pop() {
                            Some(arg) => AttrArg::Call { name: Ident { name, span: path.span }, arg },
                            None => AttrArg::Expr(
                                Expr { kind: ExprKind::VecLiteral(Vec::new()), span },
                            ),
                        }
                    } else {
                        AttrArg::Expr(
                            Expr {
                                kind: ExprKind::Call {
                                    callee: Box::new(
                                        Expr { kind: ExprKind::Path(path), span: callee_span },
                                    ),
                                    type_args,
                                    args,
                                },
                                span,
                            },
                        )
                    }
                },
                kind => AttrArg::Expr(
                    Expr {
                        kind: ExprKind::Call {
                            callee: Box::new(Expr { kind, span: callee_span }),
                            type_args,
                            args,
                        },
                        span,
                    },
                ),
            }
        },
        kind => AttrArg::Expr(Expr { kind, span }),
    }
}

fn is_attr_ident(path: &Path) -> (r: bool)
    ensures
        r == spec_is_attr_ident(*path),
{
    path.segments.len() == 1 && !str_eq(path.segments[0].as_str(), "self") && !str_eq(
        path.segments[0].as_str(),
        "Self",
    )
}

fn is_attr_ident_expr(expr: &Expr) -> (r: bool)
    ensures
        r == (expr.kind matches ExprKind::Path(path) && spec_is_attr_ident(path)),
{
    match &expr.kind {
        ExprKind::Path(path) => is_attr_ident(path),
        _ => false,
    }
}

fn is_method_call(expr: &Expr) -> (r: bool)
    ensures
        r == spec_is_method_call(*expr),
{
    match &expr.kind {
        ExprKind::Call { callee, .. } => match &callee.kind {
            ExprKind::Field { .. } => true,
            _ => false,
        },
        _ => false,
    }
}

fn is_assign_target(expr: &Expr) -> (r: bool)
    ensures
        r == spec_is_assign_target(*expr),
{
    match &expr.kind {
        ExprKind::Path(path) => is_attr_ident(path),
        ExprKind::Field { .. } => true,
        ExprKind::Index { .. } => true,
        ExprKind::Unary { op, .. } => *op == UnaryOp::Deref,
        _ => false,
    }
}

/// Tokens that can begin an expression — kept in step with `prefix`.
fn can_begin_expr(kind: TokenKind) -> (r: bool)
    ensures
        r == spec_can_begin_expr(kind),
{
    match kind {
        TokenKind::IntLit | TokenKind::FloatLit | TokenKind::StringLit | TokenKind::CharLit
        | TokenKind::Ident => true,
        TokenKind::Keyword(k) => k == Keyword::True || k == Keyword::False || k
            == Keyword::SelfValue || k == Keyword::SelfType || k == Keyword::If || k
            == Keyword::Match || k == Keyword::While || k == Keyword::For || k == Keyword::Loop,
        TokenKind::Bang | TokenKind::Minus | TokenKind::Star | TokenKind::Amp | TokenKind::LParen
        | TokenKind::LBrace => true,
        _ => false,
    }
}

fn is_primitive_type(text: &str) -> (r: bool)
    ensures
        r == spec_is_primitive_type(text@),
{
    str_eq(text, "i8") || str_eq(text, "i16") || str_eq(text, "i32") || str_eq(text, "i64")
        || str_eq(text, "i128") || str_eq(text, "u8") || str_eq(text, "u16") || str_eq(text, "u32")
        || str_eq(text, "u64") || str_eq(text, "u128") || str_eq(text, "u256") || str_eq(
        text,
        "f32",
    ) || str_eq(text, "f64") || str_eq(text, "bool") || str_eq(text, "char") || str_eq(
        text,
        "str",
    ) || str_eq(text, "String") || str_eq(text, "Address")
}

/// The name of a keyword as diagnostics print it.
pub open spec fn spec_keyword_name(k: Keyword) -> Seq<char> {
    match k {
        Keyword::Fn => "Fn"@,
        Keyword::Let => "Let"@,
        Keyword::Const => "Const"@,
        Keyword::Type => "Type"@,
        Keyword::Struct => "Struct"@,
        Keyword::Enum => "Enum"@,
        Keyword::Trait => "Trait"@,
        Keyword::Impl => "Impl"@,
        Keyword::Mod => "Mod"@,
        Keyword::Use => "Use"@,
        Keyword::Pub => "Pub"@,
        Keyword::Extern => "Extern"@,
        Keyword::If => "If"@,
        Keyword::Else => "Else"@,
        Keyword::Match => "Match"@,
        Keyword::For => "For"@,
        Keyword::In => "In"@,
        Keyword::While => "While"@,
        Keyword::Loop => "Loop"@,
        Keyword::Break => "Break"@,
        Keyword::Continue => "Continue"@,
        Keyword::Return => "Return"@,
        Keyword::SelfValue => "SelfValue"@,
        Keyword::SelfType => "SelfType"@,
        Keyword::True => "True"@,
        Keyword::False => "False"@,
        Keyword::As => "As"@,
        Keyword::Actor => "Actor"@,
        Keyword::Spawn => "Spawn"@,
        Keyword::Async => "Async"@,
        Keyword::Await => "Await"@,
        Keyword::Select => "Select"@,
        Keyword::Move => "Move"@,
        Keyword::Onchain => "Onchain"@,
        Keyword::Offchain => "Offchain"@,
        Keyword::Emit => "Emit"@,
    }
}

/// The name of a token kind as diagnostics print it.
pub open spec fn spec_kind_name(kind: TokenKind) -> Seq<char> {
    match kind {
        TokenKind::Ident => "Ident"@,
        TokenKind::Keyword(k) => "Keyword("@ + spec_keyword_name(k) + ")"@,
        TokenKind::IntLit => "IntLit"@,
        TokenKind::FloatLit => "FloatLit"@,
        TokenKind::StringLit => "StringLit"@,
        TokenKind::CharLit => "CharLit"@,
        TokenKind::Lifetime => "Lifetime"@,
        TokenKind::DocComment => "DocComment"@,
        TokenKind::At => "At"@,
        TokenKind::Hash => "Hash"@,
        TokenKind::Bang => "Bang"@,
        TokenKind::Dot => "Dot"@,
        TokenKind::DotDot => "DotDot"@,
        TokenKind::DotDotEq => "DotDotEq"@,
        TokenKind::Comma => "Comma"@,
        TokenKind::Colon => "Colon"@,
        TokenKind::ColonColon => "ColonColon"@,
        TokenKind::Semi => "Semi"@,
        TokenKind::Arrow => "Arrow"@,
        TokenKind::FatArrow => "FatArrow"@,
        TokenKind::Pipe => "Pipe"@,
        TokenKind::PipePipe => "PipePipe"@,
        TokenKind::PipeGt => "PipeGt"@,
        TokenKind::Amp => "Amp"@,
        TokenKind::AmpAmp => "AmpAmp"@,
        TokenKind::Eq => "Eq"@,
        TokenKind::EqEq => "EqEq"@,
        TokenKind::Ne => "Ne"@,
        TokenKind::Lt => "Lt"@,
        TokenKind::Le => "Le"@,
        TokenKind::Gt => "Gt"@,
        TokenKind::Ge => "Ge"@,
        TokenKind::Plus => "Plus"@,
        TokenKind::Minus => "Minus"@,
        TokenKind::Star => "Star"@,
        TokenKind::Slash => "Slash"@,
        TokenKind::Percent => "Percent"@,
        TokenKind::Question => "Question"@,
        TokenKind::LParen => "LParen"@,
        TokenKind::RParen => "RParen"@,
        TokenKind::LBrace => "LBrace"@,
        TokenKind::RBrace => "RBrace"@,
        TokenKind::LBracket => "LBracket"@,
        TokenKind::RBracket => "RBracket"@,
    }
}

fn keyword_name(k: Keyword) -> (r: &'static str)
    ensures
        r@ == spec_keyword_name(k),
{
    match k {
        Keyword::Fn => "Fn",
        Keyword::Let => "Let",
        Keyword::Const => "Const",
        Keyword::Type => "Type",
        Keyword::Struct => "Struct",
        Keyword::Enum => "Enum",
        Keyword::Trait => "Trait",
        Keyword::Impl => "Impl",
        Keyword::Mod => "Mod",
        Keyword::Use => "Use",
        Keyword::Pub => "Pub",
        Keyword::Extern => "Extern",
        Keyword::If => "If",
        Keyword::Else => "Else",
        Keyword::Match => "Match",
        Keyword::For => "For",
        Keyword::In => "In",
        Keyword::While => "While",
        Keyword::Loop => "Loop",
        Keyword::Break => "Break",
        Keyword::Continue => "Continue",
        Keyword::Return => "Return",
        Keyword::SelfValue => "SelfValue",
        Keyword::SelfType => "SelfType",
        Keyword::True => "True",
        Keyword::False => "False",
        Keyword::As => "As",
        Keyword::Actor => "Actor",
        Keyword::Spawn => "Spawn",
        Keyword::Async => "Async",
        Keyword::Await => "Await",
        Keyword::Select => "Select",
        Keyword::Move => "Move",
        Keyword::Onchain => "Onchain",
        Keyword::Offchain => "Offchain",
        Keyword::Emit => "Emit",
    }
}

fn kind_name(kind: TokenKind) -> (r: String)
    ensures
        r@ == spec_kind_name(kind),
{
    match kind {
        TokenKind::Ident => String::from_str("Ident"),
        TokenKind::Keyword(k) => {
            let mut s = join_text("Keyword(", keyword_name(k));
            s.append(")");
            s
        },
        TokenKind::IntLit => String::from_str("IntLit"),
        TokenKind::FloatLit => String::from_str("FloatLit"),
        TokenKind::StringLit => String::from_str("StringLit"),
        TokenKind::CharLit => String::from_str("CharLit"),
        TokenKind::Lifetime => String::from_str("Lifetime"),
        TokenKind::DocComment => String::from_str("DocComment"),
        TokenKind::At => String::from_str("At"),
        TokenKind::Hash => String::from_str("Hash"),
        TokenKind::Bang => String::from_str("Bang"),
        TokenKind::Dot => String::from_str("Dot"),
        TokenKind::DotDot => String::from_str("DotDot"),
        TokenKind::DotDotEq => String::from_str("DotDotEq"),
        TokenKind::Comma => String::from_str("Comma"),
        TokenKind::Colon => String::from_str("Colon"),
        TokenKind::ColonColon => String::from_str("ColonColon"),
        TokenKind::Semi => String::from_str("Semi"),
        TokenKind::Arrow => String::from_str("Arrow"),
        TokenKind::FatArrow => String::from_str("FatArrow"),
        TokenKind::Pipe => String::from_str("Pipe"),
        TokenKind::PipePipe => String::from_str("PipePipe"),
        TokenKind::PipeGt => String::from_str("PipeGt"),
        TokenKind::Amp => String::from_str("Amp"),
        TokenKind::AmpAmp => String::from_str("AmpAmp"),
        TokenKind::Eq => String::from_str("Eq"),
        TokenKind::EqEq => String::from_str("EqEq"),
        TokenKind::Ne => String::from_str("Ne"),
        TokenKind::Lt => String::from_str("Lt"),
        TokenKind::Le => String::from_str("Le"),
        TokenKind::Gt => String::from_str("Gt"),
        TokenKind::Ge => String::from_str("Ge"),
        TokenKind::Plus => String::from_str("Plus"),
        TokenKind::Minus => String::from_str("Minus"),
        TokenKind::Star => String::from_str("Star"),
        TokenKind::Slash => String::from_str("Slash"),
        TokenKind::Percent => String::from_str("Percent"),
        TokenKind::Question => String::from_str("Question"),
        TokenKind::LParen => String::from_str("LParen"),
        TokenKind::RParen => String::from_str("RParen"),
        TokenKind::LBrace => String::from_str("LBrace"),
        TokenKind::RBrace => String::from_str("RBrace"),
        TokenKind::LBracket => String::from_str("LBracket"),
        TokenKind::RBracket => String::from_str("RBracket"),
    }
}

/// The tokens that can open a top-level item: an attribute, a modifier, or
/// an item keyword.
pub open spec fn can_begin_item(kind: TokenKind) -> bool {
    match kind {
        TokenKind::At => true,
        TokenKind::Keyword(k) => k == Keyword::Pub || k == Keyword::Offchain || k == Keyword::Async
            || k == Keyword::Fn || k == Keyword::Struct || k == Keyword::Enum || k == Keyword::Actor
            || k == Keyword::Mod || k == Keyword::Use || k == Keyword::Const || k == Keyword::Type
            || k == Keyword::Trait || k == Keyword::Impl || k == Keyword::Onchain || k
            == Keyword::Extern,
        _ => false,
    }
}

/// `q` is the first token at or after `from` that is not a doc comment.
pub open spec fn first_after_docs(tokens: Seq<Token>, from: int, q: int) -> bool {
    &&& from <= q < tokens.len()
    &&& tokens[q].kind != TokenKind::DocComment
    &&& forall|k: int| from <= k < q ==> (#[trigger] tokens[k]).kind == TokenKind::DocComment
}

struct Parser<'src> {
    tokens: Vec<Token>,
    source: &'src str,
    pos: usize,
    errors: Vec<ParseError>,
    /// When set, a struct literal may not be the outermost expression: the
    /// block-head restriction of `if`/`while` conditions, `match` scrutinees
    /// and `for` iterables. Parenthesize to use one there.
    no_struct_literal: bool,
}

impl<'src> Parser<'src> {
    spec fn wf(&self) -> bool {
        &&& tokens_well_formed(self.tokens@, self.source.spec_bytes())
        &&& self.tokens@.len() <= usize::MAX
        &&& self.pos <= self.tokens@.len()
        &&& forall|i: int|
            0 <= i < self.errors@.len() ==> span_fits(
                (#[trigger] self.errors@[i]).span,
                self.source.spec_bytes().len() as int,
            )
    }

    /// `span` lies within the source text of tokens `p0..p1` (at least one).
    spec fn within(&self, span: Span, p0: int, p1: int) -> bool {
        &&& 0 <= p0 < p1 <= self.tokens@.len()
        &&& self.tokens@[p0].span.start <= span.start
        &&& span.start <= span.end
        &&& span.end <= self.tokens@[p1 - 1].span.end
    }

    /// Tokens come in source order, each non-empty and inside the source.
    proof fn lemma_order(&self, i: int, j: int)
        requires
            self.wf(),
            0 <= i <= j < self.tokens@.len(),
        ensures
            self.tokens@[i].span.start <= self.tokens@[j].span.start,
            self.tokens@[i].span.end <= self.tokens@[j].span.end,
            self.tokens@[j].span.start < self.tokens@[j].span.end,
            self.tokens@[j].span.end <= self.source.spec_bytes().len(),
            i < j ==> self.tokens@[i].span.end <= self.tokens@[j].span.start,
    {
        let toks = self.tokens@;
        assert(token_fits(toks[i], self.source.spec_bytes()));
        assert(token_fits(toks[j], self.source.spec_bytes()));
    }

    /// A token's own span lies within that token.
    proof fn lemma_within_token(&self, q: int)
        requires
            self.wf(),
            0 <= q < self.tokens@.len(),
        ensures
            self.within(self.tokens@[q].span, q, q + 1),
    {
        self.lemma_order(q, q);
    }

    /// The join of spans within two token runs lies within the run from the
    /// first start to the last end.
    proof fn lemma_within_join(&self, a: Span, b: Span, p0: int, p1: int, p2: int, p3: int)
        requires
            self.wf(),
            self.within(a, p0, p1),
            self.within(b, p2, p3),
            p0 <= p2,
            p1 <= p3,
        ensures
            self.within(spec_join(a, b), p0, p3),
            p1 <= p2 ==> a.end <= b.start,
    {
        self.lemma_order(p0, p2);
        self.lemma_order(p1 - 1, p3 - 1);
        if p1 <= p2 {
            self.lemma_order(p1 - 1, p2);
        }
    }

    /// A span within tokens `p0..p1`, stretched to the end of a later token
    /// `q`, lies within tokens `p0..q + 1`.
    proof fn lemma_within_extend(&self, a: Span, p0: int, p1: int, q: int)
        requires
            self.wf(),
            self.within(a, p0, p1),
            p1 - 1 <= q < self.tokens@.len(),
        ensures
            self.within(Span { start: a.start, end: self.tokens@[q].span.end }, p0, q + 1),
    {
        self.lemma_order(p1 - 1, q);
    }

    /// The text from the start of token `p0` to the end of token `q`.
    proof fn lemma_within_range(&self, p0: int, q: int)
        requires
            self.wf(),
            0 <= p0 <= q < self.tokens@.len(),
        ensures
            self.within(
                Span { start: self.tokens@[p0].span.start, end: self.tokens@[q].span.end },
                p0,
                q + 1,
            ),
    {
        self.lemma_order(p0, q);
    }

    /// Joining a span within tokens `p0..p1` with the last consumed token
    /// gives a span within `p0..pos`.
    proof fn lemma_join_prev(&self, a: Span, p0: int, p1: int)
        requires
            self.wf(),
            self.within(a, p0, p1),
            p1 <= self.pos,
        ensures
            self.within(spec_join(a, self.tokens@[self.pos - 1].span), p0, self.pos as int),
    {
        self.lemma_within_token(self.pos - 1);
        self.lemma_within_join(a, self.tokens@[self.pos - 1].span, p0, p1, self.pos - 1, self.pos as int);
    }

    /// Stretching a span within tokens `p0..p1` to the end of the last
    /// consumed token gives a span within `p0..pos`.
    proof fn lemma_extend_prev(&self, a: Span, p0: int, p1: int)
        requires
            self.wf(),
            self.within(a, p0, p1),
            p1 <= self.pos,
        ensures
            self.within(
                Span { start: a.start, end: self.tokens@[self.pos - 1].span.end },
                p0,
                self.pos as int,
            ),
    {
        self.lemma_within_extend(a, p0, p1, self.pos - 1);
    }

    /// `id` lies within the text of tokens `p0..pos` and spells exactly the
    /// source text under its span.
    spec fn names(&self, id: Ident, p0: int) -> bool {
        &&& self.within(id.span, p0, self.pos as int)
        &&& id.name@ == range_chars(
            self.source.spec_bytes(),
            id.span.start as int,
            id.span.end as int,
        )
    }

    /// An attribute read from tokens `p0..pos`, with its name inside it.
    spec fn attr_in(&self, attr: Attribute, p0: int) -> bool {
        &&& self.within(attr.span, p0, self.pos as int)
        &&& covers(attr.span, attr.name.span)
        &&& attr.name.name@ == range_chars(
            self.source.spec_bytes(),
            attr.name.span.start as int,
            attr.name.span.end as int,
        )
    }

    /// A name read from the token at `q`, once the parse has moved past it.
    proof fn lemma_names(&self, id: Ident, q: int, p0: int)
        requires
            self.wf(),
            0 <= p0 <= q < self.pos,
            id.span == self.tokens@[q].span,
            id.name@ == range_chars(
                self.source.spec_bytes(),
                id.span.start as int,
                id.span.end as int,
            ),
        ensures
            self.names(id, p0),
    {
        self.lemma_order(p0, q);
        self.lemma_order(q, self.pos - 1);
    }

    /// A name read from tokens `p..pos` was read from tokens `p0..pos` too.
    proof fn lemma_names_widen(&self, id: Ident, p: int, p0: int)
        requires
            self.wf(),
            self.names(id, p),
            0 <= p0 <= p,
        ensures
            self.names(id, p0),
    {
        self.lemma_order(p0, p);
    }

    /// A span within some tokens is also within any longer run of tokens.
    /// A binary or assignment node built from operands on either side of
    /// its operator token `q` meets the precedence laws.
    proof fn lemma_infix_node(
        &self,
        e: Expr,
        op: Option<BinaryOp>,
        l: Expr,
        r: Expr,
        min_bp: int,
        p0: int,
        q: int,
        p2: int,
    )
        requires
            self.wf(),
            infix_parts(e) == Some((op, l, r)),
            self.within(l.span, p0, q),
            self.within(r.span, q + 1, p2),
            e.span == spec_join(l.span, r.span),
            infix_op_of(self.tokens@[q].kind) == Some(op),
            op_powers(op).0 >= min_bp,
            bare_infix(l) matches Some((lop, _, _)) ==> (lop != Some(BinaryOp::Pipe) ==> stops_at(
                self.tokens@,
                q,
                op_powers(lop).1,
            )),
            bare_infix(r) matches Some((rop, _, _)) ==> op_powers(rop).0 >= op_powers(op).1,
            op == Some(BinaryOp::Pipe) ==> is_pipe_stage(r),
        ensures
            precedence_ok(self.tokens@, e, min_bp),
            binary_in_order(e),
            bare_infix(e) == Some((op, l, r)),
            l.span.end <= self.tokens@[q].span.start,
            self.tokens@[q].span.end <= r.span.start,
    {
        self.lemma_order(q - 1, q);
        self.lemma_order(q, q + 1);
        assert(l.span.end <= self.tokens@[q].span.start);
        assert(self.tokens@[q].span.end <= r.span.start);
    }

    proof fn lemma_within_widen(&self, a: Span, p0: int, p1: int, p2: int)
        requires
            self.wf(),
            self.within(a, p0, p1),
            p1 <= p2 <= self.tokens@.len(),
        ensures
            self.within(a, p0, p2),
    {
        self.lemma_order(p1 - 1, p2 - 1);
    }

    /// A span within tokens lies inside the source text.
    proof fn lemma_within_fits(&self, a: Span, p0: int, p1: int)
        requires
            self.wf(),
            self.within(a, p0, p1),
        ensures
            span_fits(a, self.source.spec_bytes().len() as int),
    {
        self.lemma_order(p1 - 1, p1 - 1);
    }

    /// `self` is a later state of the same parse as `old`: same tokens and
    /// source, the position only moved forward, earlier diagnostics kept, and
    /// the struct-literal restriction as it was.
    spec fn evolved(&self, old: &Self) -> bool {
        &&& self.tokens@ == old.tokens@
        &&& self.source == old.source
        &&& old.pos <= self.pos
        &&& self.pos <= self.tokens@.len()
        &&& is_prefix(old.errors@, self.errors@)
        &&& self.no_struct_literal == old.no_struct_literal
    }

    fn new(tokens: Vec<Token>, source: &'src str) -> (r: Self)
        requires
            tokens_well_formed(tokens@, source.spec_bytes()),
        ensures
            r.wf(),
            r.source == source,
            r.tokens@ == tokens@,
            r.pos == 0,
            r.errors@.len() == 0,
    {
        // Reading the length records that the token count fits in a `usize`.
        let _count = tokens.len();
        Self { tokens, source, pos: 0, errors: Vec::new(), no_struct_literal: false }
    }

    /// Source text for a token.
    fn text(&self, token: &Token) -> (r: &'src str)
        requires
            token_fits(*token, self.source.spec_bytes()),
        ensures
            r@ == range_chars(
                self.source.spec_bytes(),
                token.span.start as int,
                token.span.end as int,
            ),
    {
        token.text(self.source)
    }

    /// Is the token's source text exactly `lit`?
    fn text_is(&self, token: &Token, lit: &str) -> (r: bool)
        requires
            token_fits(*token, self.source.spec_bytes()),
        ensures
            r == (range_chars(self.source.spec_bytes(), token.span.start as int, token.span.end as int)
                == lit@),
    {
        str_eq(self.text(token), lit)
    }

    fn parse_program(self) -> (r: Result<Program, Vec<ParseError>>)
        requires
            self.wf(),
            self.pos == 0,
            self.errors@.len() == 0,
        ensures
            r matches Err(errors) ==> errors@.len() > 0 && forall|i: int|
                0 <= i < errors@.len() ==> span_fits(
                    (#[trigger] errors@[i]).span,
                    self.source.spec_bytes().len() as int,
                ),
            r matches Ok(program) ==> items_in_order(program.items@) && forall|i: int|
                0 <= i < program.items@.len() ==> item_span_fits(
                    #[trigger] program.items@[i],
                    self.source.spec_bytes().len() as int,
                ) && item_name_ok(program.items@[i], self.source.spec_bytes()) && item_attrs_ok(
                    program.items@[i],
                    self.source.spec_bytes(),
                ),
            self.tokens@.len() == 0 ==> (r matches Ok(program) && program.items@.len() == 0),
            forall|q: int|
                #[trigger] first_after_docs(self.tokens@, 0, q) && !can_begin_item(
                    self.tokens@[q].kind,
                ) ==> r is Err,
    {
        let ghost len = self.source.spec_bytes().len() as int;
        let ghost src = self.source;
        let ghost toks = self.tokens@;
        let mut parser = self;
        let mut items: Vec<Item> = Vec::new();
        loop
            invariant
                parser.wf(),
                parser.source == src,
                len == src.spec_bytes().len(),
                forall|i: int|
                    0 <= i < items@.len() ==> item_span_fits(#[trigger] items@[i], len)
                        && item_name_ok(items@[i], src.spec_bytes()) && item_attrs_ok(
                        items@[i],
                        src.spec_bytes(),
                    ),
                items_in_order(items@),
                items@.len() > 0 ==> parser.pos >= 1 && forall|i: int|
                    0 <= i < items@.len() ==> (#[trigger] items@[i]).span.end
                        <= parser.tokens@[parser.pos - 1].span.end,
                parser.tokens@ == toks,
                toks.len() == 0 ==> parser.errors@.len() == 0 && items@.len() == 0,
                parser.pos == 0 ==> parser.errors@.len() == 0,
                forall|q: int|
                    #[trigger] first_after_docs(toks, 0, q) && !can_begin_item(toks[q].kind) ==> (
                    parser.pos == 0 || parser.errors@.len() > 0),
            ensures
                parser.pos == parser.tokens@.len(),
            decreases parser.tokens@.len() - parser.pos,
        {
            if parser.eof() {
                break;
            }
            let ghost before = parser.pos;
            let ghost errors_before = parser.errors@.len();
            parser.skip_doc_comments();
            proof {
                if before == 0 {
                    assert forall|q: int|
                        #[trigger] first_after_docs(toks, 0, q) && !can_begin_item(
                            toks[q].kind,
                        ) implies first_after_docs(toks, parser.pos as int, q) by {
                        if parser.pos < q {
                            assert(toks[parser.pos as int].kind == TokenKind::DocComment);
                        }
                        if parser.pos > q {
                            assert(toks[q].kind == TokenKind::DocComment);
                        }
                    }
                }
            }
            match parser.item() {
                Some(item) => {
                    proof {
                        parser.lemma_within_fits(item.span, before as int, parser.pos as int);
                        if items@.len() > 0 {
                            parser.lemma_order(before - 1, before as int);
                        }
                        parser.lemma_order(parser.pos - 1, parser.pos - 1);
                    }
                    items.push(item);
                },
                None => {
                    let ghost q = parser.pos;
                    parser.recover_item();
                    proof {
                        if items@.len() > 0 {
                            parser.lemma_order(q - 1, parser.pos - 1);
                        }
                    }
                },
            }
        }
        proof {
            assert forall|q: int|
                #[trigger] first_after_docs(toks, 0, q) && !can_begin_item(
                    toks[q].kind,
                ) implies parser.errors@.len() > 0 by {
                assert(parser.pos == parser.tokens@.len());
            }
        }
        if parser.errors.len() == 0 {
            Ok(Program { items })
        } else {
            Err(parser.errors)
        }
    }

    fn skip_doc_comments(&mut self)
        requires
            old(self).wf(),
        ensures
            !final(self).at_kind(TokenKind::DocComment),
            forall|k: int|
                old(self).pos <= k < final(self).pos ==> (#[trigger] final(self).tokens@[k]).kind
                    == TokenKind::DocComment,
            final(self).wf(),
            final(self).evolved(old(self)),
            final(self).errors@ == old(self).errors@,
    {
        loop
            invariant
                self.wf(),
                self.evolved(old(self)),
                self.errors@ == old(self).errors@,
                forall|k: int|
                    old(self).pos <= k < self.pos ==> (#[trigger] self.tokens@[k]).kind
                        == TokenKind::DocComment,
            ensures
                !self.at_kind(TokenKind::DocComment),
            decreases self.tokens@.len() - self.pos,
        {
            if !self.at(TokenKind::DocComment) {
                break;
            }
            self.bump();
        }
    }

    fn recover_item(&mut self)
        requires
            old(self).wf(),
        ensures
            final(self).wf(),
            final(self).evolved(old(self)),
            final(self).errors@ == old(self).errors@,
            old(self).pos < old(self).tokens@.len() ==> final(self).pos > old(self).pos,
            forall|k: int|
                old(self).pos <= k < final(self).pos - 1 ==> #[trigger] final(self).tokens@[k].kind
                    != TokenKind::Semi && final(self).tokens@[k].kind != TokenKind::RBrace,
            final(self).pos == final(self).tokens@.len() || (final(self).pos > old(self).pos && (
            final(self).tokens@[final(self).pos - 1].kind == TokenKind::Semi || final(self).tokens@[
                final(self).pos - 1
            ].kind == TokenKind::RBrace)),
    {
        let start = self.pos;
        self.recover_until(TokenKind::Semi, TokenKind::RBrace);
        if self.eat(TokenKind::Semi).is_some() {
            return;
        }
        if self.eat(TokenKind::RBrace).is_some() {
            return;
        }
        if self.pos == start && !self.eof() {
            self.bump();
        }
    }

    /// The current token exists and has kind `kind`.
    spec fn at_kind(&self, kind: TokenKind) -> bool {
        self.pos < self.tokens@.len() && self.tokens@[self.pos as int].kind == kind
    }

    /// The current token can start a path: an identifier, `self` or `Self`.
    spec fn at_path_start(&self) -> bool {
        self.at_kind(TokenKind::Ident) || self.at_kind(TokenKind::Keyword(Keyword::SelfType))
            || self.at_kind(TokenKind::Keyword(Keyword::SelfValue))
    }

    /// The token after the current one exists and has kind `kind`.
    spec fn next_is(&self, kind: TokenKind) -> bool {
        self.pos + 1 < self.tokens@.len() && self.tokens@[self.pos + 1].kind == kind
    }

    /// The source text of the token at `i`.
    spec fn token_text(&self, i: int) -> Seq<char> {
        range_chars(
            self.source.spec_bytes(),
            self.tokens@[i].span.start as int,
            self.tokens@[i].span.end as int,
        )
    }

    /// A parse that gave up did so reporting a new diagnostic, or at the end
    /// of the tokens.
    spec fn failed_with_reason(&self, old: &Self) -> bool {
        self.errors@.len() > old.errors@.len() || self.pos == self.tokens@.len()
    }

    /// Tokens were consumed or a diagnostic was reported since `old`.
    spec fn moved_or_reported(&self, old: &Self) -> bool {
        self.pos > old.pos || self.errors@.len() > old.errors@.len()
    }

    /// At the end of the tokens, or at a token of kind `a` or `b`.
    spec fn at_one_of(&self, a: TokenKind, b: TokenKind) -> bool {
        self.pos == self.tokens@.len() || self.tokens@[self.pos as int].kind == a
            || self.tokens@[self.pos as int].kind == b
    }

    /// Skips tokens until one of kind `a` or `b` (or the end).
    fn recover_until(&mut self, a: TokenKind, b: TokenKind)
        requires
            old(self).wf(),
        ensures
            final(self).wf(),
            final(self).evolved(old(self)),
            final(self).errors@ == old(self).errors@,
            final(self).at_one_of(a, b),
            forall|k: int|
                old(self).pos <= k < final(self).pos ==> #[trigger] final(self).tokens@[k].kind != a
                    && final(self).tokens@[k].kind != b,
    {
        loop
            invariant
                self.wf(),
                self.evolved(old(self)),
                self.errors@ == old(self).errors@,
                old(self).pos <= self.pos,
                forall|k: int|
                    old(self).pos <= k < self.pos ==> #[trigger] self.tokens@[k].kind != a
                        && self.tokens@[k].kind != b,
            ensures
                self.at_one_of(a, b),
            decreases self.tokens@.len() - self.pos,
        {
            if self.eof() || self.at(a) || self.at(b) {
                break;
            }
            self.bump();
        }
    }

    fn skip_balanced(&mut self, open: TokenKind, close: TokenKind)
        requires
            old(self).wf(),
        ensures
            old(self).pos < old(self).tokens@.len() ==> final(self).pos > old(self).pos,
            final(self).pos == final(self).tokens@.len() || final(self).tokens@[final(self).pos
                - 1].kind == close,
            final(self).wf(),
            final(self).evolved(old(self)),
            final(self).errors@ == old(self).errors@,
    {
        let mut depth: usize = 0;
        let start = self.pos;
        loop
            invariant
                self.wf(),
                self.evolved(old(self)),
                self.errors@ == old(self).errors@,
                start == old(self).pos,
                depth <= self.pos - start,
                depth > 0 ==> self.pos > start,
            ensures
                old(self).pos < old(self).tokens@.len() ==> self.pos > old(self).pos,
                self.pos == self.tokens@.len() || (self.pos > old(self).pos && self.tokens@[self.pos
                    - 1].kind == close),
            decreases self.tokens@.len() - self.pos,
        {
            if self.eof() {
                break;
            }
            if self.at(open) {
                depth = depth + 1;
            } else if self.at(close) {
                if depth == 0 {
                    self.bump();
                    break;
                }
                depth = depth - 1;
                self.bump();
                if depth == 0 {
                    break;
                }
                continue;
            }
            self.bump();
        }
    }

    fn maybe_generic_params(&mut self)
        requires
            old(self).wf(),
        ensures
            !old(self).at_kind(TokenKind::Lt) ==> final(self).pos == old(self).pos,
            old(self).at_kind(TokenKind::Lt) ==> final(self).pos > old(self).pos && (final(self).pos == final(self).tokens@.len() || final(self).tokens@[final(self).pos - 1].kind
                == TokenKind::Gt),
            final(self).wf(),
            final(self).evolved(old(self)),
    {
        if self.at(TokenKind::Lt) {
            self.skip_balanced(TokenKind::Lt, TokenKind::Gt);
        }
    }

    fn maybe_where_clause(&mut self)
        requires
            old(self).wf(),
        ensures
            old(self).at_kind(TokenKind::Ident) && old(self).token_text(old(self).pos as int)
                == "where"@ ==> final(self).pos > old(self).pos && final(self).at_one_of(
                TokenKind::LBrace,
                TokenKind::Semi,
            ),
            !(old(self).at_kind(TokenKind::Ident) && old(self).token_text(old(self).pos as int)
                == "where"@) ==> final(self).pos == old(self).pos,
            final(self).wf(),
            final(self).evolved(old(self)),
    {
        if self.eat_ident_text("where").is_some() {
            self.recover_until(TokenKind::LBrace, TokenKind::Semi);
        }
    }

    fn skip_item_body(&mut self)
        requires
            old(self).wf(),
        ensures
            old(self).at_kind(TokenKind::LBrace) ==> final(self).pos > old(self).pos && (final(self).pos == final(self).tokens@.len() || final(self).tokens@[final(self).pos - 1].kind
                == TokenKind::RBrace),
            old(self).at_kind(TokenKind::Semi) ==> final(self).pos == old(self).pos + 1,
            !old(self).at_kind(TokenKind::LBrace) && !old(self).at_kind(TokenKind::Semi)
                ==> final(self).pos == old(self).pos,
            final(self).wf(),
            final(self).evolved(old(self)),
    {
        if self.at(TokenKind::LBrace) {
            self.skip_balanced(TokenKind::LBrace, TokenKind::RBrace);
        } else {
            let _ = self.eat(TokenKind::Semi);
        }
    }

    fn infix_binding_power(&self) -> (r: Option<(Infix, u8, u8)>)
        requires
            self.wf(),
        ensures
            self.pos < self.tokens@.len() ==> r == spec_infix_binding_power(
                self.tokens@[self.pos as int].kind,
            ),
            self.pos >= self.tokens@.len() ==> r is None,
    {
        let kind = match self.peek_kind() {
            Some(k) => k,
            None => return None,
        };
        match kind {
            TokenKind::Eq => Some((Infix::Assign, 2, 1)),
            TokenKind::PipeGt => Some((Infix::Op(BinaryOp::Pipe), 8, 9)),
            TokenKind::Plus => Some((Infix::Op(BinaryOp::Add), 9, 10)),
            TokenKind::Minus => Some((Infix::Op(BinaryOp::Sub), 9, 10)),
            TokenKind::Star => Some((Infix::Op(BinaryOp::Mul), 10, 11)),
            TokenKind::Slash => Some((Infix::Op(BinaryOp::Div), 10, 11)),
            TokenKind::Percent => Some((Infix::Op(BinaryOp::Rem), 10, 11)),
            TokenKind::EqEq => Some((Infix::Op(BinaryOp::Eq), 6, 7)),
            TokenKind::Ne => Some((Infix::Op(BinaryOp::Ne), 6, 7)),
            TokenKind::Lt => Some((Infix::Op(BinaryOp::Lt), 7, 8)),
            TokenKind::Gt => Some((Infix::Op(BinaryOp::Gt), 7, 8)),
            TokenKind::Le => Some((Infix::Op(BinaryOp::Le), 7, 8)),
            TokenKind::Ge => Some((Infix::Op(BinaryOp::Ge), 7, 8)),
            TokenKind::AmpAmp => Some((Infix::Op(BinaryOp::And), 5, 6)),
            TokenKind::PipePipe => Some((Infix::Op(BinaryOp::Or), 4, 5)),
            TokenKind::DotDot => Some((Infix::Op(BinaryOp::Range), 3, 4)),
            TokenKind::DotDotEq => Some((Infix::Op(BinaryOp::RangeInclusive), 3, 4)),
            _ => None,
        }
    }

    fn eat_keyword(&mut self, keyword: Keyword) -> (r: Option<Token>)
        requires
            old(self).wf(),
        ensures
            r is Some <==> old(self).at_kind(TokenKind::Keyword(keyword)),
            final(self).wf(),
            final(self).evolved(old(self)),
            final(self).errors@ == old(self).errors@,
            r matches Some(t) ==> final(self).pos == old(self).pos + 1 && t == old(self).tokens@[old(self).pos as int] && t.kind == TokenKind::Keyword(keyword),
            r is None ==> final(self).pos == old(self).pos,
    {
        if self.at_keyword(keyword) {
            Some(self.bump())
        } else {
            None
        }
    }

    fn expect_keyword(&mut self, keyword: Keyword) -> (r: Option<Token>)
        requires
            old(self).wf(),
        ensures
            r is Some <==> old(self).at_kind(TokenKind::Keyword(keyword)),
            r is None ==> final(self).errors@.len() == old(self).errors@.len() + 1,
            final(self).wf(),
            final(self).evolved(old(self)),
            r matches Some(t) ==> final(self).pos == old(self).pos + 1 && t == old(self).tokens@[old(self).pos as int],
            r is None ==> final(self).pos == old(self).pos,
    {
        match self.eat_keyword(keyword) {
            Some(t) => Some(t),
            None => {
                let mut message = join_text("expected keyword `", keyword_name(keyword));
                message.append("`");
                self.error_here(message);
                None
            },
        }
    }

    fn at_ident_text(&self, text: &str) -> (r: bool)
        requires
            self.wf(),
        ensures
            r == (self.at_kind(TokenKind::Ident) && self.token_text(self.pos as int) == text@),
    {
        match self.peek() {
            Some(token) => token.kind == TokenKind::Ident && self.text_is(&token, text),
            None => false,
        }
    }

    fn eat_ident_text(&mut self, text: &str) -> (r: Option<Token>)
        requires
            old(self).wf(),
        ensures
            r is Some <==> old(self).at_kind(TokenKind::Ident) && old(self).token_text(
                old(self).pos as int,
            ) == text@,
            final(self).wf(),
            final(self).evolved(old(self)),
            final(self).errors@ == old(self).errors@,
            r is Some ==> final(self).pos == old(self).pos + 1,
            r is None ==> final(self).pos == old(self).pos,
    {
        if self.at_ident_text(text) {
            Some(self.bump())
        } else {
            None
        }
    }

    fn eat(&mut self, kind: TokenKind) -> (r: Option<Token>)
        requires
            old(self).wf(),
        ensures
            final(self).wf(),
            final(self).evolved(old(self)),
            final(self).errors@ == old(self).errors@,
            r matches Some(t) ==> final(self).pos == old(self).pos + 1 && t == old(self).tokens@[old(self).pos as int] && t.kind == kind,
            r is None ==> final(self).pos == old(self).pos,
            r is Some <==> old(self).pos < old(self).tokens@.len() && old(self).tokens@[old(self).pos as int].kind == kind,
    {
        if self.at(kind) {
            Some(self.bump())
        } else {
            None
        }
    }

    fn expect(&mut self, kind: TokenKind) -> (r: Option<Token>)
        requires
            old(self).wf(),
        ensures
            r is Some <==> old(self).at_kind(kind),
            r is None ==> final(self).errors@.len() == old(self).errors@.len() + 1,
            final(self).wf(),
            final(self).evolved(old(self)),
            r matches Some(t) ==> final(self).pos == old(self).pos + 1 && t == old(self).tokens@[old(self).pos as int] && t.kind == kind,
            r is None ==> final(self).pos == old(self).pos,
    {
        match self.eat(kind) {
            Some(t) => Some(t),
            None => {
                let name = kind_name(kind);
                let mut message = join_text("expected `", name.as_str());
                message.append("`");
                self.error_here(message);
                None
            },
        }
    }

    fn at_keyword(&self, keyword: Keyword) -> (r: bool)
        requires
            self.wf(),
        ensures
            r == (self.pos < self.tokens@.len() && self.tokens@[self.pos as int].kind
                == TokenKind::Keyword(keyword)),
    {
        self.peek_kind() == Some(TokenKind::Keyword(keyword))
    }

    fn at(&self, kind: TokenKind) -> (r: bool)
        requires
            self.wf(),
        ensures
            r == (self.pos < self.tokens@.len() && self.tokens@[self.pos as int].kind == kind),
    {
        self.peek_kind() == Some(kind)
    }

    fn peek_kind(&self) -> (r: Option<TokenKind>)
        requires
            self.wf(),
        ensures
            self.pos < self.tokens@.len() ==> r == Some(self.tokens@[self.pos as int].kind),
            self.pos >= self.tokens@.len() ==> r is None,
    {
        match self.peek() {
            Some(token) => Some(token.kind),
            None => None,
        }
    }

    fn peek_kind_at(&self, offset: usize) -> (r: Option<TokenKind>)
        requires
            self.wf(),
        ensures
            self.pos + offset < self.tokens@.len() ==> r == Some(
                self.tokens@[self.pos + offset].kind,
            ),
            self.pos + offset >= self.tokens@.len() ==> r is None,
    {
        if offset < self.tokens.len() - self.pos {
            Some(self.tokens[self.pos + offset].kind)
        } else {
            None
        }
    }

    fn can_start_path_segment_at(&self, offset: usize) -> (r: bool)
        requires
            self.wf(),
        ensures
            r == (self.pos + offset < self.tokens@.len() && {
                let k = self.tokens@[self.pos + offset].kind;
                k == TokenKind::Ident || k == TokenKind::Keyword(Keyword::SelfValue) || k
                    == TokenKind::Keyword(Keyword::SelfType)
            }),
    {
        match self.peek_kind_at(offset) {
            Some(TokenKind::Ident) => true,
            Some(TokenKind::Keyword(Keyword::SelfValue)) => true,
            Some(TokenKind::Keyword(Keyword::SelfType)) => true,
            _ => false,
        }
    }

    fn peek(&self) -> (r: Option<Token>)
        requires
            self.wf(),
        ensures
            self.pos < self.tokens@.len() ==> r == Some(self.tokens@[self.pos as int]),
            self.pos >= self.tokens@.len() ==> r is None,
    {
        if self.pos < self.tokens.len() {
            Some(self.tokens[self.pos])
        } else {
            None
        }
    }

    /// The span of the last consumed token (empty at the very start).
    fn prev_span(&self) -> (r: Span)
        requires
            self.wf(),
        ensures
            self.pos >= 1 ==> r == self.tokens@[self.pos - 1].span,
            self.pos == 0 ==> r == (Span { start: 0, end: 0 }),
    {
        if self.pos >= 1 {
            self.tokens[self.pos - 1].span
        } else {
            Span::new(0, 0)
        }
    }

    fn bump(&mut self) -> (r: Token)
        requires
            old(self).wf(),
            old(self).pos < old(self).tokens@.len(),
        ensures
            final(self).wf(),
            final(self).evolved(old(self)),
            final(self).errors@ == old(self).errors@,
            final(self).pos == old(self).pos + 1,
            r == old(self).tokens@[old(self).pos as int],
    {
        let token = self.tokens[self.pos];
        self.pos = self.pos + 1;
        token
    }

    fn eof(&self) -> (r: bool)
        ensures
            r == (self.pos >= self.tokens@.len()),
    {
        self.pos >= self.tokens.len()
    }

    fn error_here(&mut self, message: String)
        requires
            old(self).wf(),
        ensures
            final(self).wf(),
            final(self).evolved(old(self)),
            final(self).pos == old(self).pos,
            final(self).errors@.len() == old(self).errors@.len() + 1,
            final(self).errors@.last().message == message,
            old(self).pos < old(self).tokens@.len() ==> final(self).errors@ == old(self).errors@.push(
                ParseError { message, span: old(self).tokens@[old(self).pos as int].span },
            ),
    {
        let span = match self.peek() {
            Some(token) => token.span,
            None => self.prev_span(),
        };
        proof {
            if self.pos < self.tokens@.len() {
                self.lemma_order(self.pos as int, self.pos as int);
            } else if self.pos >= 1 {
                self.lemma_order(self.pos - 1, self.pos - 1);
            }
        }
        self.error_at(span, message);
    }

    fn error_at(&mut self, span: Span, message: String)
        requires
            old(self).wf(),
            span_fits(span, old(self).source.spec_bytes().len() as int),
        ensures
            final(self).wf(),
            final(self).evolved(old(self)),
            final(self).pos == old(self).pos,
            final(self).errors@ == old(self).errors@.push((ParseError { message, span })),
    {
        self.errors.push(ParseError { message, span });
        proof {
            assert forall|i: int| 0 <= i < self.errors@.len() implies span_fits(
                (#[trigger] self.errors@[i]).span,
                self.source.spec_bytes().len() as int,
            ) by {
                if i < self.errors@.len() - 1 {
                    assert(self.errors@[i] == old(self).errors@[i]);
                }
            }
        }
    }
}


impl<'src> Parser<'src> {
    #[verifier::rlimit(60)]
    fn item(&mut self) -> (r: Option<Item>)
        requires
            old(self).wf(),
        ensures
            forall|q: int|
                #[trigger] first_after_docs(old(self).tokens@, old(self).pos as int, q)
                    && !can_begin_item(old(self).tokens@[q].kind) ==> r is None
                    && final(self).errors@.len() > old(self).errors@.len(),
            forall|q: int|
                #[trigger] first_after_docs(old(self).tokens@, old(self).pos as int, q)
                    && old(self).tokens@[q].kind == TokenKind::Keyword(Keyword::Trait) && q + 1
                    < old(self).tokens@.len() && old(self).tokens@[q + 1].kind == TokenKind::Ident
                    ==> (r matches Some(it) && it.kind is Trait),
            r is None ==> final(self).failed_with_reason(old(self)),
            final(self).wf(),
            final(self).evolved(old(self)),
            r matches Some(it) ==> final(self).pos > old(self).pos && final(self).within(
                it.span,
                old(self).pos as int,
                final(self).pos as int,
            ) && item_name_ok(it, final(self).source.spec_bytes()) && item_attrs_ok(
                it,
                final(self).source.spec_bytes(),
            ),
        decreases old(self).tokens@.len() - old(self).pos, 1nat,
    {
        self.skip_doc_comments();
        proof {
            assert forall|q: int|
                #[trigger] first_after_docs(old(self).tokens@, old(self).pos as int, q) implies q
                == self.pos by {
                if q < self.pos {
                    assert(self.tokens@[q].kind == TokenKind::DocComment);
                } else if q > self.pos {
                    assert(self.tokens@[self.pos as int].kind == TokenKind::DocComment);
                }
            }
        }
        let first = self.peek()?;
        let start = first.span.start;
        let ghost p0 = self.pos as int;
        let attrs = self.attrs();
        let ghost pa = self.pos as int;
        let ghost after_attrs = *self;
        let pub_token = self.eat_keyword(Keyword::Pub);
        let offchain_token = self.eat_keyword(Keyword::Offchain);
        let async_token = self.eat_keyword(Keyword::Async);
        let visibility = if pub_token.is_some() {
            Visibility::Public
        } else {
            Visibility::Private
        };
        let is_offchain = offchain_token.is_some();
        let is_async = async_token.is_some();
        // `offchain`/`async` prefix only `fn`; `pub` prefixes every item form
        // except `impl`, `actor`, `onchain` and `extern`.
        let next = self.peek_kind()?;
        if next != TokenKind::Keyword(Keyword::Fn) {
            match offchain_token {
                Some(token) => self.error_at(
                    token.span,
                    String::from_str("`offchain` applies only to `fn` items"),
                ),
                None => {},
            }
            match async_token {
                Some(token) => self.error_at(
                    token.span,
                    String::from_str("`async` applies only to `fn` items"),
                ),
                None => {},
            }
        }
        match pub_token {
            Some(token) => {
                if next == TokenKind::Keyword(Keyword::Impl) || next == TokenKind::Keyword(
                    Keyword::Actor,
                ) || next == TokenKind::Keyword(Keyword::Onchain) || next == TokenKind::Keyword(
                    Keyword::Extern,
                ) {
                    self.error_at(
                        token.span,
                        String::from_str(
                            "`pub` is not allowed on `impl`, `actor`, `onchain`, or `extern` items",
                        ),
                    );
                }
            },
            None => {},
        }
        let ghost p1 = self.pos as int;
        let kind = match next {
            TokenKind::Keyword(Keyword::Fn) => ItemKind::Function(
                self.function_after_mods(visibility, is_async, is_offchain, true)?,
            ),
            TokenKind::Keyword(Keyword::Struct) => ItemKind::Struct(self.struct_def()?),
            TokenKind::Keyword(Keyword::Enum) => ItemKind::Enum(self.enum_def(false)?),
            TokenKind::Keyword(Keyword::Actor) => ItemKind::Actor(self.actor_def()?),
            TokenKind::Keyword(Keyword::Mod) => ItemKind::Module(self.mod_def()?),
            TokenKind::Keyword(Keyword::Use) => ItemKind::Use(self.use_stmt()?),
            TokenKind::Keyword(Keyword::Const) => ItemKind::Const(self.const_def()?),
            TokenKind::Keyword(Keyword::Type) => ItemKind::TypeAlias(self.type_alias()?),
            TokenKind::Keyword(Keyword::Trait) => ItemKind::Trait(self.trait_def()?),
            TokenKind::Keyword(Keyword::Impl) => ItemKind::Impl(self.impl_block()?),
            TokenKind::Keyword(Keyword::Onchain) => self.onchain_item()?,
            TokenKind::Keyword(Keyword::Extern) => ItemKind::ExternBlock(self.extern_block()?),
            _ => {
                self.error_here(String::from_str("expected item"));
                return None;
            },
        };
        let end = self.prev_span().end;
        proof {
            self.lemma_within_range(p0, self.pos - 1);
            self.lemma_order(old(self).pos as int, p0);
            if let Some(id) = item_name(kind) {
                self.lemma_names_widen(id, p1, p0);
            }
        }
        let span = Span::new(start, end);
        proof {
            assert forall|j: int| 0 <= j < attrs@.len() implies attr_ok(
                span,
                #[trigger] attrs@[j],
                self.source.spec_bytes(),
            ) by {
                assert(after_attrs.attr_in(attrs@[j], p0));
                if attrs@.len() > 0 {
                    self.lemma_order(pa - 1, self.pos - 1);
                }
            }
        }
        Some(Item { attrs, visibility, kind, span })
    }

    fn attrs(&mut self) -> (r: Vec<Attribute>)
        requires
            old(self).wf(),
        ensures
            !old(self).at_kind(TokenKind::At) ==> final(self).pos == old(self).pos,
            !final(self).at_kind(TokenKind::At),
            final(self).wf(),
            final(self).evolved(old(self)),
            forall|j: int|
                0 <= j < r@.len() ==> final(self).attr_in(#[trigger] r@[j], old(self).pos as int),
        decreases old(self).tokens@.len() - old(self).pos, 0nat,
    {
        let mut attrs: Vec<Attribute> = Vec::new();
        loop
            invariant
                self.wf(),
                self.evolved(old(self)),
                forall|j: int|
                    0 <= j < attrs@.len() ==> self.attr_in(#[trigger] attrs@[j], old(self).pos as int),
                !old(self).at_kind(TokenKind::At) ==> self.pos == old(self).pos,
            ensures
                !self.at_kind(TokenKind::At),
            decreases self.tokens@.len() - self.pos,
        {
            let ghost q = self.pos as int;
            let ghost prev_attrs = attrs@;
            let at = match self.eat(TokenKind::At) {
                Some(t) => t,
                None => break,
            };
            match self.ident() {
                Some(name) => {
                    let mut args: Vec<AttrArg> = Vec::new();
                    let mut end = name.span.end;
                    if self.eat(TokenKind::LParen).is_some() {
                        args = self.attr_args();
                        end = match self.expect(TokenKind::RParen) {
                            Some(close) => close.span.end,
                            None => self.prev_span().end,
                        };
                    }
                    proof {
                        self.lemma_within_range(q, self.pos - 1);
                        self.lemma_order(old(self).pos as int, q);
                        self.lemma_order(q, q + 1);
                        self.lemma_order(q + 1, self.pos - 1);
                    }
                    attrs.push(Attribute { name, args, span: Span::new(at.span.start, end) });
                },
                None => {},
            }
            proof {
                assert forall|j: int| 0 <= j < attrs@.len() implies self.attr_in(
                    #[trigger] attrs@[j],
                    old(self).pos as int,
                ) by {
                    if j < prev_attrs.len() {
                        assert(attrs@[j] == prev_attrs[j]);
                        self.lemma_within_widen(attrs@[j].span, old(self).pos as int, q, self.pos as int);
                    }
                }
            }
        }
        attrs
    }

    /// `attr_args = attr_arg { "," attr_arg }`.
    fn attr_args(&mut self) -> (r: Vec<AttrArg>)
        requires
            old(self).wf(),
        ensures
            r@.len() <= final(self).pos - old(self).pos,
            old(self).pos < old(self).tokens@.len() && !old(self).at_kind(TokenKind::RParen)
                ==> final(self).moved_or_reported(old(self)),
            final(self).wf(),
            final(self).evolved(old(self)),
        decreases old(self).tokens@.len() - old(self).pos, 6nat,
    {
        let mut args: Vec<AttrArg> = Vec::new();
        loop
            invariant
                self.wf(),
                self.evolved(old(self)),
                args@.len() <= self.pos - old(self).pos,
            ensures
                args@.len() <= self.pos - old(self).pos,
                old(self).pos == old(self).tokens@.len() || old(self).at_kind(TokenKind::RParen)
                    || self.moved_or_reported(old(self)),
            decreases self.tokens@.len() - self.pos,
        {
            if self.at(TokenKind::RParen) || self.eof() {
                break;
            }
            match self.attr_arg() {
                Some(arg) => args.push(arg),
                None => self.recover_until(TokenKind::Comma, TokenKind::RParen),
            }
            if self.eat(TokenKind::Comma).is_none() {
                break;
            }
        }
        args
    }

    /// `attr_arg = IDENT [ ":" expr | "=" expr | "(" expr ")" ] | expr`. Only
    /// `IDENT ":"` needs lookahead: `:` cannot continue an expression.
    fn attr_arg(&mut self) -> (r: Option<AttrArg>)
        requires
            old(self).wf(),
        ensures
            r is Some ==> final(self).pos > old(self).pos,
            r is None ==> final(self).failed_with_reason(old(self)),
            final(self).wf(),
            final(self).evolved(old(self)),
        decreases old(self).tokens@.len() - old(self).pos, 5nat,
    {
        if self.at(TokenKind::Ident) && self.peek_kind_at(1) == Some(TokenKind::Colon) {
            let name = self.ident()?;
            self.bump();
            let value = self.delimited_expr()?;
            return Some(AttrArg::Named { name, value });
        }
        let expr = self.delimited_expr()?;
        Some(classify_attr_expr(expr))
    }

    fn function_after_mods(
        &mut self,
        visibility: Visibility,
        is_async: bool,
        is_offchain: bool,
        body: bool,
    ) -> (r: Option<Function>)
        requires
            old(self).wf(),
        ensures
            r is None ==> final(self).failed_with_reason(old(self)),
            final(self).wf(),
            final(self).evolved(old(self)),
            r is Some ==> final(self).pos > old(self).pos,
            r matches Some(x) ==> final(self).names(x.name, old(self).pos as int),
        decreases old(self).tokens@.len() - old(self).pos, 0nat,
    {
        self.expect_keyword(Keyword::Fn)?;
        let ghost q = self.pos as int;
        let name = self.ident()?;
        self.maybe_generic_params();
        self.expect(TokenKind::LParen)?;
        let params = self.params();
        self.expect(TokenKind::RParen)?;
        let return_type = if self.eat(TokenKind::Arrow).is_some() {
            Some(self.ty()?)
        } else {
            None
        };
        self.maybe_where_clause();
        let body = if body {
            Some(self.block()?)
        } else {
            self.expect(TokenKind::Semi)?;
            None
        };
        proof {
            self.lemma_names(name, q, old(self).pos as int);
        }
        Some(Function { name, visibility, is_async, is_offchain, params, return_type, body })
    }

    fn params(&mut self) -> (r: Vec<Param>)
        requires
            old(self).wf(),
        ensures
            r@.len() <= final(self).pos - old(self).pos,
            old(self).pos < old(self).tokens@.len() && !old(self).at_kind(TokenKind::RParen)
                ==> final(self).moved_or_reported(old(self)),
            final(self).wf(),
            final(self).evolved(old(self)),
        decreases old(self).tokens@.len() - old(self).pos, 1nat,
    {
        let mut params: Vec<Param> = Vec::new();
        loop
            invariant
                self.wf(),
                self.evolved(old(self)),
                params@.len() <= self.pos - old(self).pos,
            ensures
                params@.len() <= self.pos - old(self).pos,
                old(self).pos == old(self).tokens@.len() || old(self).at_kind(TokenKind::RParen)
                    || self.moved_or_reported(old(self)),
            decreases self.tokens@.len() - self.pos,
        {
            if self.at(TokenKind::RParen) || self.eof() {
                break;
            }
            match self.param() {
                Some(param) => params.push(param),
                None => {},
            }
            if self.eat(TokenKind::Comma).is_none() {
                break;
            }
        }
        params
    }

    fn param(&mut self) -> (r: Option<Param>)
        requires
            old(self).wf(),
        ensures
            r is Some ==> final(self).pos > old(self).pos,
            r is None ==> final(self).failed_with_reason(old(self)),
            final(self).wf(),
            final(self).evolved(old(self)),
        decreases old(self).tokens@.len() - old(self).pos, 0nat,
    {
        let start = self.peek()?.span.start;
        let by_ref = self.eat(TokenKind::Amp).is_some();
        let mutable = if by_ref {
            self.eat_ident_text("mut").is_some()
        } else {
            false
        };
        if self.eat_keyword(Keyword::SelfValue).is_some() {
            let end = self.prev_span().end;
            return Some(Param::Receiver { mutable, by_ref, span: Span::new(start, end) });
        }
        if by_ref {
            self.error_here(String::from_str("receiver reference must be followed by `self`"));
            return None;
        }
        let name = self.ident()?;
        self.expect(TokenKind::Colon)?;
        let ty = self.ty()?;
        Some(Param::Named { name, ty })
    }

    fn struct_def(&mut self) -> (r: Option<Struct>)
        requires
            old(self).wf(),
        ensures
            r is None ==> final(self).failed_with_reason(old(self)),
            final(self).wf(),
            final(self).evolved(old(self)),
            r is Some ==> final(self).pos > old(self).pos,
            r matches Some(x) ==> final(self).names(x.name, old(self).pos as int),
        decreases old(self).tokens@.len() - old(self).pos, 0nat,
    {
        self.expect_keyword(Keyword::Struct)?;
        let ghost q = self.pos as int;
        let name = self.ident()?;
        self.maybe_generic_params();
        self.maybe_where_clause();
        let fields = self.field_block()?;
        proof {
            self.lemma_names(name, q, old(self).pos as int);
        }
        Some(Struct { name, fields })
    }

    fn field_block(&mut self) -> (r: Option<Vec<Field>>)
        requires
            old(self).wf(),
        ensures
            r is Some ==> final(self).pos > old(self).pos,
            r is None ==> final(self).failed_with_reason(old(self)),
            final(self).wf(),
            final(self).evolved(old(self)),
        decreases old(self).tokens@.len() - old(self).pos, 0nat,
    {
        self.expect(TokenKind::LBrace)?;
        let mut fields: Vec<Field> = Vec::new();
        loop
            invariant
                self.wf(),
                self.evolved(old(self)),
                self.pos > old(self).pos,
            decreases self.tokens@.len() - self.pos,
        {
            if self.at(TokenKind::RBrace) || self.eof() {
                break;
            }
            self.skip_doc_comments();
            let visibility = if self.eat_keyword(Keyword::Pub).is_some() {
                Visibility::Public
            } else {
                Visibility::Private
            };
            match self.ident() {
                Some(name) => {
                    self.expect(TokenKind::Colon)?;
                    let ty = self.ty()?;
                    fields.push(Field { name, ty, visibility });
                    if self.eat(TokenKind::Comma).is_none() {
                        break;
                    }
                },
                None => {
                    self.recover_until(TokenKind::Comma, TokenKind::RBrace);
                    let _ = self.eat(TokenKind::Comma);
                },
            }
        }
        self.expect(TokenKind::RBrace)?;
        Some(fields)
    }

    fn enum_def(&mut self, onchain: bool) -> (r: Option<Enum>)
        requires
            old(self).wf(),
        ensures
            r is None ==> final(self).failed_with_reason(old(self)),
            final(self).wf(),
            final(self).evolved(old(self)),
            r is Some ==> final(self).pos > old(self).pos,
            r matches Some(x) ==> final(self).names(x.name, old(self).pos as int),
        decreases old(self).tokens@.len() - old(self).pos, 0nat,
    {
        self.expect_keyword(Keyword::Enum)?;
        let ghost q = self.pos as int;
        let name = self.ident()?;
        self.maybe_generic_params();
        self.maybe_where_clause();
        self.expect(TokenKind::LBrace)?;
        let mut variants: Vec<Variant> = Vec::new();
        loop
            invariant
                self.wf(),
                self.evolved(old(self)),
                self.pos > old(self).pos,
            decreases self.tokens@.len() - self.pos,
        {
            if self.at(TokenKind::RBrace) || self.eof() {
                break;
            }
            let ghost before = self.pos;
            match self.ident() {
                Some(name) => {
                    let kind = if self.eat(TokenKind::LParen).is_some() {
                        let mut types: Vec<Type> = Vec::new();
                        loop
                            invariant
                                self.wf(),
                                self.evolved(old(self)),
                                self.pos > old(self).pos,
                                self.pos > before,
                            decreases self.tokens@.len() - self.pos,
                        {
                            if self.at(TokenKind::RParen) || self.eof() {
                                break;
                            }
                            types.push(self.ty()?);
                            if self.eat(TokenKind::Comma).is_none() {
                                break;
                            }
                        }
                        self.expect(TokenKind::RParen)?;
                        VariantKind::Tuple(types)
                    } else if self.at(TokenKind::LBrace) {
                        VariantKind::Struct(self.field_block()?)
                    } else {
                        VariantKind::Unit
                    };
                    variants.push(Variant { name, kind });
                },
                None => {},
            }
            if self.eat(TokenKind::Comma).is_none() {
                break;
            }
        }
        self.expect(TokenKind::RBrace)?;
        proof {
            self.lemma_names(name, q, old(self).pos as int);
        }
        Some(Enum { name, variants, onchain })
    }

    fn actor_def(&mut self) -> (r: Option<Actor>)
        requires
            old(self).wf(),
        ensures
            r is None ==> final(self).failed_with_reason(old(self)),
            final(self).wf(),
            final(self).evolved(old(self)),
            r is Some ==> final(self).pos > old(self).pos,
            r matches Some(x) ==> final(self).names(x.name, old(self).pos as int),
        decreases old(self).tokens@.len() - old(self).pos, 0nat,
    {
        self.expect_keyword(Keyword::Actor)?;
        let ghost q = self.pos as int;
        let name = self.ident()?;
        self.maybe_generic_params();
        self.maybe_where_clause();
        self.expect(TokenKind::LBrace)?;
        let mut fields: Vec<Field> = Vec::new();
        let mut handlers: Vec<Handler> = Vec::new();
        loop
            invariant
                self.wf(),
                self.evolved(old(self)),
                self.pos > old(self).pos,
            decreases self.tokens@.len() - self.pos,
        {
            if self.at(TokenKind::RBrace) || self.eof() {
                break;
            }
            self.skip_doc_comments();
            // A handler is a `fn_def`, so its attributes are kept. Fields take
            // no attributes; any parsed before a field are dropped.
            let attrs = self.attrs();
            let visibility = if self.eat_keyword(Keyword::Pub).is_some() {
                Visibility::Public
            } else {
                Visibility::Private
            };
            let is_async = self.eat_keyword(Keyword::Async).is_some();
            if self.at_keyword(Keyword::Fn) {
                let function = self.function_after_mods(visibility, is_async, false, true)?;
                handlers.push(Handler { attrs, function });
            } else {
                let name = self.ident()?;
                self.expect(TokenKind::Colon)?;
                let ty = self.ty()?;
                fields.push(Field { name, ty, visibility });
                let _ = self.eat(TokenKind::Comma);
            }
        }
        self.expect(TokenKind::RBrace)?;
        proof {
            self.lemma_names(name, q, old(self).pos as int);
        }
        Some(Actor { name, fields, handlers })
    }

    fn mod_def(&mut self) -> (r: Option<Module>)
        requires
            old(self).wf(),
        ensures
            r is None ==> final(self).failed_with_reason(old(self)),
            final(self).wf(),
            final(self).evolved(old(self)),
            r is Some ==> final(self).pos > old(self).pos,
            r matches Some(x) ==> final(self).names(x.name, old(self).pos as int),
        decreases old(self).tokens@.len() - old(self).pos, 0nat,
    {
        self.expect_keyword(Keyword::Mod)?;
        let ghost q = self.pos as int;
        let name = self.ident()?;
        if self.eat(TokenKind::Semi).is_some() {
            proof {
                self.lemma_names(name, q, old(self).pos as int);
            }
            return Some(Module { name, items: Vec::new(), inline: false });
        }
        self.expect(TokenKind::LBrace)?;
        let mut items: Vec<Item> = Vec::new();
        loop
            invariant
                self.wf(),
                self.evolved(old(self)),
                self.pos > old(self).pos,
            decreases self.tokens@.len() - self.pos,
        {
            if self.at(TokenKind::RBrace) || self.eof() {
                break;
            }
            self.skip_doc_comments();
            match self.item() {
                Some(item) => items.push(item),
                None => self.recover_item(),
            }
        }
        self.expect(TokenKind::RBrace)?;
        proof {
            self.lemma_names(name, q, old(self).pos as int);
        }
        Some(Module { name, items, inline: true })
    }

    fn use_stmt(&mut self) -> (r: Option<Use>)
        requires
            old(self).wf(),
        ensures
            r is None ==> final(self).failed_with_reason(old(self)),
            final(self).wf(),
            final(self).evolved(old(self)),
            r is Some ==> final(self).pos > old(self).pos,
    {
        self.expect_keyword(Keyword::Use)?;
        let path = self.path()?;
        if self.at(TokenKind::ColonColon) {
            self.bump();
            if self.at(TokenKind::LBrace) {
                self.skip_balanced(TokenKind::LBrace, TokenKind::RBrace);
            }
        }
        self.expect(TokenKind::Semi)?;
        Some(Use { path })
    }

    fn const_def(&mut self) -> (r: Option<Const>)
        requires
            old(self).wf(),
        ensures
            r is None ==> final(self).failed_with_reason(old(self)),
            final(self).wf(),
            final(self).evolved(old(self)),
            r is Some ==> final(self).pos > old(self).pos,
            r matches Some(x) ==> final(self).names(x.name, old(self).pos as int),
        decreases old(self).tokens@.len() - old(self).pos, 0nat,
    {
        self.expect_keyword(Keyword::Const)?;
        let ghost q = self.pos as int;
        let name = self.ident()?;
        self.expect(TokenKind::Colon)?;
        let ty = self.ty()?;
        self.expect(TokenKind::Eq)?;
        let value = self.expr(0)?;
        self.expect(TokenKind::Semi)?;
        proof {
            self.lemma_names(name, q, old(self).pos as int);
        }
        Some(Const { name, ty, value })
    }

    fn type_alias(&mut self) -> (r: Option<TypeAlias>)
        requires
            old(self).wf(),
        ensures
            r is None ==> final(self).failed_with_reason(old(self)),
            final(self).wf(),
            final(self).evolved(old(self)),
            r is Some ==> final(self).pos > old(self).pos,
            r matches Some(x) ==> final(self).names(x.name, old(self).pos as int),
        decreases old(self).tokens@.len() - old(self).pos, 0nat,
    {
        self.expect_keyword(Keyword::Type)?;
        let ghost q = self.pos as int;
        let name = self.ident()?;
        self.maybe_generic_params();
        self.expect(TokenKind::Eq)?;
        let ty = self.ty()?;
        self.expect(TokenKind::Semi)?;
        proof {
            self.lemma_names(name, q, old(self).pos as int);
        }
        Some(TypeAlias { name, ty })
    }

    fn trait_def(&mut self) -> (r: Option<Trait>)
        requires
            old(self).wf(),
        ensures
            r is Some <==> old(self).at_kind(TokenKind::Keyword(Keyword::Trait)) && old(self).next_is(TokenKind::Ident),
            r is None ==> final(self).failed_with_reason(old(self)),
            final(self).wf(),
            final(self).evolved(old(self)),
            r is Some ==> final(self).pos > old(self).pos,
            r matches Some(x) ==> final(self).names(x.name, old(self).pos as int),
        decreases old(self).tokens@.len() - old(self).pos, 0nat,
    {
        self.expect_keyword(Keyword::Trait)?;
        let ghost q = self.pos as int;
        let name = self.ident()?;
        self.maybe_generic_params();
        if self.eat(TokenKind::Colon).is_some() {
            self.bounds();
        }
        self.maybe_where_clause();
        self.skip_item_body();
        proof {
            self.lemma_names(name, q, old(self).pos as int);
        }
        Some(Trait { name })
    }

    /// `bounds = bound { "+" bound }` with `bound = trait_ref | lifetime`.
    /// Parsed for validation and diagnostics; not stored.
    fn bounds(&mut self)
        requires
            old(self).wf(),
        ensures
            final(self).moved_or_reported(old(self)),
            final(self).wf(),
            final(self).evolved(old(self)),
        decreases old(self).tokens@.len() - old(self).pos, 1nat,
    {
        loop
            invariant
                self.wf(),
                self.evolved(old(self)),
                self.pos > old(self).pos || self.errors@ == old(self).errors@,
            ensures
                self.pos > old(self).pos,
            decreases self.tokens@.len() - self.pos,
        {
            let found = if self.eat(TokenKind::Lifetime).is_some() {
                true
            } else {
                self.trait_ref().is_some()
            };
            if !found {
                self.recover_until(TokenKind::LBrace, TokenKind::Semi);
                return;
            }
            if self.eat(TokenKind::Plus).is_none() {
                break;
            }
        }
    }

    /// `trait_ref = type_path [ type_args ]`.
    fn trait_ref(&mut self) -> (r: Option<TraitRef>)
        requires
            old(self).wf(),
        ensures
            r is None ==> final(self).errors@.len() > old(self).errors@.len(),
            final(self).wf(),
            final(self).evolved(old(self)),
            r is Some ==> final(self).pos > old(self).pos,
        decreases old(self).tokens@.len() - old(self).pos, 0nat,
    {
        let path = self.path()?;
        let args = self.type_args();
        Some(TraitRef { path, args })
    }

    fn impl_block(&mut self) -> (r: Option<ImplBlock>)
        requires
            old(self).wf(),
        ensures
            r is None ==> final(self).failed_with_reason(old(self)),
            final(self).wf(),
            final(self).evolved(old(self)),
            r is Some ==> final(self).pos > old(self).pos,
        decreases old(self).tokens@.len() - old(self).pos, 0nat,
    {
        self.expect_keyword(Keyword::Impl)?;
        self.maybe_generic_params();
        let first = self.ty()?;
        let (trait_ref, target) = if self.eat_keyword(Keyword::For).is_some() {
            match first {
                Type::Path { path, args } => {
                    let trait_ref = TraitRef { path, args };
                    (Some(trait_ref), self.ty()?)
                },
                _ => {
                    self.error_here(String::from_str("expected trait path before `for`"));
                    return None;
                },
            }
        } else {
            (None, first)
        };
        self.maybe_where_clause();
        self.skip_item_body();
        Some(ImplBlock { trait_ref, target })
    }

    fn onchain_item(&mut self) -> (r: Option<ItemKind>)
        requires
            old(self).wf(),
        ensures
            r is None ==> final(self).failed_with_reason(old(self)),
            final(self).wf(),
            final(self).evolved(old(self)),
            r is Some ==> final(self).pos > old(self).pos,
            r matches Some(k) ==> (item_name(k) matches Some(id) ==> final(self).names(
                id,
                old(self).pos as int,
            )),
        decreases old(self).tokens@.len() - old(self).pos, 0nat,
    {
        self.expect_keyword(Keyword::Onchain)?;
        if self.eat_keyword(Keyword::Mod).is_some() {
            let ghost q = self.pos as int;
            let name = self.ident()?;
            self.expect(TokenKind::LBrace)?;
            let mut items: Vec<Item> = Vec::new();
            loop
                invariant
                    self.wf(),
                    self.evolved(old(self)),
                    self.pos > old(self).pos,
                decreases self.tokens@.len() - self.pos,
            {
                if self.at(TokenKind::RBrace) || self.eof() {
                    break;
                }
                self.skip_doc_comments();
                if self.eat_ident_text("storage").is_some() {
                    self.skip_balanced(TokenKind::LBrace, TokenKind::RBrace);
                } else {
                    match self.item() {
                        Some(item) => items.push(item),
                        None => self.recover_item(),
                    }
                }
            }
            self.expect(TokenKind::RBrace)?;
            proof {
                self.lemma_names(name, q, old(self).pos as int);
            }
            Some(ItemKind::OnchainModule(OnchainModule { name, items }))
        } else if self.at_keyword(Keyword::Enum) {
            let ghost p = self.pos as int;
            let def = self.enum_def(true)?;
            proof {
                self.lemma_names_widen(def.name, p, old(self).pos as int);
            }
            Some(ItemKind::Enum(def))
        } else {
            self.error_here(String::from_str("expected `mod` or `enum` after `onchain`"));
            None
        }
    }

    fn extern_block(&mut self) -> (r: Option<ExternBlock>)
        requires
            old(self).wf(),
        ensures
            r is None ==> final(self).failed_with_reason(old(self)),
            final(self).wf(),
            final(self).evolved(old(self)),
            r is Some ==> final(self).pos > old(self).pos,
        decreases old(self).tokens@.len() - old(self).pos, 0nat,
    {
        self.expect_keyword(Keyword::Extern)?;
        let target = if self.at(TokenKind::StringLit) {
            let token = self.bump();
            self.text(&token).to_owned()
        } else {
            self.expect_keyword(Keyword::Onchain)?;
            self.expect_keyword(Keyword::Mod)?;
            self.ident()?.name
        };
        let _async = self.eat_keyword(Keyword::Async);
        self.expect(TokenKind::LBrace)?;
        let mut functions: Vec<Function> = Vec::new();
        loop
            invariant
                self.wf(),
                self.evolved(old(self)),
                self.pos > old(self).pos,
            decreases self.tokens@.len() - self.pos,
        {
            if self.at(TokenKind::RBrace) || self.eof() {
                break;
            }
            self.skip_doc_comments();
            let visibility = if self.eat_keyword(Keyword::Pub).is_some() {
                Visibility::Public
            } else {
                Visibility::Private
            };
            functions.push(self.function_after_mods(visibility, false, false, false)?);
        }
        self.expect(TokenKind::RBrace)?;
        Some(ExternBlock { target, functions })
    }
}

impl<'src> Parser<'src> {
    #[verifier::rlimit(80)]
    fn ty(&mut self) -> (r: Option<Type>)
        requires
            old(self).wf(),
        ensures
            old(self).at_kind(TokenKind::Ident) && old(self).token_text(old(self).pos as int)
                != "dyn"@ ==> r is Some,
            old(self).at_kind(TokenKind::Ident) && spec_is_primitive_type(
                old(self).token_text(old(self).pos as int),
            ) && !old(self).next_is(TokenKind::ColonColon) && !old(self).next_is(TokenKind::Lt)
                ==> (r matches Some(Type::Primitive(name)) && name@ == old(self).token_text(
                old(self).pos as int,
            ) && final(self).pos == old(self).pos + 1),
            r is None ==> final(self).failed_with_reason(old(self)),
            final(self).wf(),
            final(self).evolved(old(self)),
            r is Some ==> final(self).pos > old(self).pos,
            r matches Some(t) ==> ty_head(old(self).tokens@, old(self).source.spec_bytes(), old(self).pos as int, t),
            r matches Some(Type::Tuple(ts)) ==> types_ok(
                old(self).tokens@,
                old(self).source.spec_bytes(),
                old(self).pos as int,
                final(self).pos as int,
                ts@,
            ),
            r matches Some(Type::Function { params, .. }) ==> types_ok(
                old(self).tokens@,
                old(self).source.spec_bytes(),
                old(self).pos as int,
                final(self).pos as int,
                params@,
            ),
        decreases old(self).tokens@.len() - old(self).pos, 0nat,
    {
        if self.eat(TokenKind::Amp).is_some() {
            let _lifetime = self.eat(TokenKind::Lifetime);
            let mutable = self.eat_ident_text("mut").is_some();
            let inner = self.ty()?;
            return Some(Type::Reference { mutable, inner: Box::new(inner) });
        }
        if self.eat(TokenKind::LBracket).is_some() {
            let inner = self.ty()?;
            if self.eat(TokenKind::Semi).is_some() {
                let len = self.expr(0)?;
                self.expect(TokenKind::RBracket)?;
                return Some(Type::Array { inner: Box::new(inner), len: Box::new(len) });
            }
            self.expect(TokenKind::RBracket)?;
            return Some(Type::Slice(Box::new(inner)));
        }
        if self.eat(TokenKind::LParen).is_some() {
            let mut types: Vec<Type> = Vec::new();
            let ghost mut ks: Seq<int> = Seq::empty();
            loop
                invariant
                    self.wf(),
                    self.evolved(old(self)),
                    self.pos > old(self).pos,
                    !old(self).at_kind(TokenKind::Ident),
                    types_at(self.tokens@, self.source.spec_bytes(), old(self).pos as int, self.pos as int, types@, ks),
                decreases self.tokens@.len() - self.pos,
            {
                if self.at(TokenKind::RParen) || self.eof() {
                    break;
                }
                let ghost k = self.pos as int;
                let ghost prev = types@;
                types.push(self.ty()?);
                proof {
                    ks = ks.push(k);
                    assert(types@ =~= prev.push(types@.last()));
                }
                if self.eat(TokenKind::Comma).is_none() {
                    break;
                }
            }
            self.expect(TokenKind::RParen)?;
            proof {
                assert(types_at(old(self).tokens@, old(self).source.spec_bytes(), old(self).pos as int, self.pos as int, types@, ks));
                assert(types_ok(old(self).tokens@, old(self).source.spec_bytes(), old(self).pos as int, self.pos as int, types@));
            }
            return Some(Type::Tuple(types));
        }
        if self.eat_keyword(Keyword::Fn).is_some() {
            self.expect(TokenKind::LParen)?;
            let mut params: Vec<Type> = Vec::new();
            let ghost mut ks: Seq<int> = Seq::empty();
            loop
                invariant
                    self.wf(),
                    self.evolved(old(self)),
                    self.pos > old(self).pos,
                    !old(self).at_kind(TokenKind::Ident),
                    types_at(self.tokens@, self.source.spec_bytes(), old(self).pos as int, self.pos as int, params@, ks),
                decreases self.tokens@.len() - self.pos,
            {
                if self.at(TokenKind::RParen) || self.eof() {
                    break;
                }
                let ghost k = self.pos as int;
                let ghost prev = params@;
                params.push(self.ty()?);
                proof {
                    ks = ks.push(k);
                    assert(params@ =~= prev.push(params@.last()));
                }
                if self.eat(TokenKind::Comma).is_none() {
                    break;
                }
            }
            self.expect(TokenKind::RParen)?;
            self.expect(TokenKind::Arrow)?;
            let ret = self.ty()?;
            proof {
                assert(types_at(old(self).tokens@, old(self).source.spec_bytes(), old(self).pos as int, self.pos as int, params@, ks));
                assert(types_ok(old(self).tokens@, old(self).source.spec_bytes(), old(self).pos as int, self.pos as int, params@));
            }
            return Some(Type::Function { params, ret: Box::new(ret) });
        }
        if self.eat_ident_text("dyn").is_some() {
            proof {
                lemma_dyn_not_primitive();
            }
            return Some(Type::Dyn(self.trait_ref()?));
        }
        let path = self.path()?;
        let args = self.type_args();
        if path.segments.len() == 1 && args.len() == 0 && is_primitive_type(
            path.segments[0].as_str(),
        ) {
            Some(Type::Primitive(path.segments[0].clone()))
        } else {
            Some(Type::Path { path, args })
        }
    }

    fn block(&mut self) -> (r: Option<Block>)
        requires
            old(self).wf(),
        ensures
            r is None ==> final(self).failed_with_reason(old(self)),
            final(self).wf(),
            final(self).evolved(old(self)),
            r is Some ==> final(self).pos > old(self).pos,
            r matches Some(e) ==> final(self).within(
                e.span,
                old(self).pos as int,
                final(self).pos as int,
            ),
            r matches Some(e) ==> e.span.start == old(self).tokens@[old(self).pos as int].span.start,
        decreases old(self).tokens@.len() - old(self).pos, 1nat,
    {
        // A block is always a fresh scope: the struct-literal block-head
        // restriction must not leak into its body, even when the block belongs
        // to an `if`/`while` nested inside a restricted condition.
        let prev = self.no_struct_literal;
        self.no_struct_literal = false;
        let result = self.block_inner();
        self.no_struct_literal = prev;
        result
    }

    #[verifier::rlimit(100)]
    fn block_inner(&mut self) -> (r: Option<Block>)
        requires
            old(self).wf(),
        ensures
            r is None ==> final(self).failed_with_reason(old(self)),
            final(self).wf(),
            final(self).evolved(old(self)),
            r is Some ==> final(self).pos > old(self).pos,
            r matches Some(e) ==> final(self).within(
                e.span,
                old(self).pos as int,
                final(self).pos as int,
            ),
            old(self).at_kind(TokenKind::LBrace) && old(self).next_is(TokenKind::RBrace) ==> (
            r matches Some(b) && b.statements@.len() == 0 && b.tail is None && b.span == Span {
                start: old(self).tokens@[old(self).pos as int].span.start,
                end: old(self).tokens@[old(self).pos + 1].span.end,
            } && final(self).pos == old(self).pos + 2),
            r matches Some(e) ==> e.span.start == old(self).tokens@[old(self).pos as int].span.start,
            r matches Some(b) ==> stmts_ok(
                old(self).tokens@,
                old(self).source.spec_bytes(),
                old(self).pos as int,
                final(self).pos as int,
                b.statements@,
            ),
            r matches Some(b) ==> (b.tail matches Some(t) ==> tail_ok(
                old(self).tokens@,
                old(self).source.spec_bytes(),
                old(self).pos as int,
                final(self).pos as int,
                *t,
            )),
        decreases old(self).tokens@.len() - old(self).pos, 0nat,
    {
        let start = self.expect(TokenKind::LBrace)?.span.start;
        let mut statements: Vec<Stmt> = Vec::new();
        let mut tail: Option<Box<Expr>> = None;
        let ghost mut ks: Seq<int> = Seq::empty();
        let ghost mut kt: int = 0;
        loop
            invariant
                self.wf(),
                self.evolved(old(self)),
                self.pos > old(self).pos,
                start == self.tokens@[old(self).pos as int].span.start,
                self.pos == old(self).pos + 1 ==> statements@.len() == 0 && tail is None,
                stmts_at(self.tokens@, self.source.spec_bytes(), old(self).pos as int, self.pos as int, statements@, ks),
                tail matches Some(t) ==> old(self).pos <= kt < self.pos && expr_head(self.tokens@, self.source.spec_bytes(), kt, *t),
                old(self).at_kind(TokenKind::LBrace) && old(self).next_is(TokenKind::RBrace)
                    ==> self.pos == old(self).pos + 1,
            decreases self.tokens@.len() - self.pos,
        {
            if self.at(TokenKind::RBrace) || self.eof() {
                break;
            }
            self.skip_doc_comments();
            let ghost k = self.pos as int;
            let ghost prev = statements@;
            let send_head = self.at_ident_text("send") && match self.peek_kind_at(1) {
                Some(kind) => can_begin_expr(kind),
                None => false,
            };
            if self.eat_keyword(Keyword::Let).is_some() {
                let _mutable = self.eat_ident_text("mut");
                let name = self.ident()?.name;
                let ty = if self.eat(TokenKind::Colon).is_some() {
                    Some(self.ty()?)
                } else {
                    None
                };
                self.expect(TokenKind::Eq)?;
                let value = self.expr(0)?;
                self.expect(TokenKind::Semi)?;
                statements.push(Stmt::Let { name, ty, value });
                proof {
                    ks = ks.push(k);
                    assert(statements@ =~= prev.push(statements@.last()));
                }
            } else if self.eat_keyword(Keyword::Return).is_some() {
                let value = if self.at(TokenKind::Semi) {
                    None
                } else {
                    Some(self.expr(0)?)
                };
                self.expect(TokenKind::Semi)?;
                statements.push(Stmt::Return(value));
                proof {
                    ks = ks.push(k);
                    assert(statements@ =~= prev.push(statements@.last()));
                }
            } else if self.eat_keyword(Keyword::Break).is_some() {
                self.expect(TokenKind::Semi)?;
                statements.push(Stmt::Break);
                proof {
                    ks = ks.push(k);
                    assert(statements@ =~= prev.push(statements@.last()));
                }
            } else if self.eat_keyword(Keyword::Continue).is_some() {
                self.expect(TokenKind::Semi)?;
                statements.push(Stmt::Continue);
                proof {
                    ks = ks.push(k);
                    assert(statements@ =~= prev.push(statements@.last()));
                }
            } else if send_head {
                // `send` at statement head followed by a token that can begin
                // an expression always opens a send-statement, whose operand
                // must be a method call on a handle. Before any other token,
                // `send` stays an ordinary identifier.
                self.bump();
                let ghost q0 = self.pos as int;
                let expr = self.expr(0)?;
                if !is_method_call(&expr) {
                    proof {
                        self.lemma_within_fits(expr.span, q0, self.pos as int);
                    }
                    self.error_at(
                        expr.span,
                        String::from_str("`send` operand must be a method call on a handle"),
                    );
                }
                self.expect(TokenKind::Semi)?;
                statements.push(Stmt::Expr(expr));
                proof {
                    ks = ks.push(k);
                    assert(statements@ =~= prev.push(statements@.last()));
                }
            } else {
                let expr = self.expr(0)?;
                if self.eat(TokenKind::Semi).is_some() {
                    statements.push(Stmt::Expr(expr));
                    proof {
                        ks = ks.push(k);
                        assert(statements@ =~= prev.push(statements@.last()));
                    }
                } else {
                    tail = Some(Box::new(expr));
                    proof {
                        kt = k;
                    }
                    break;
                }
            }
        }
        let end = self.expect(TokenKind::RBrace)?.span.end;
        proof {
            assert(stmts_at(old(self).tokens@, old(self).source.spec_bytes(), old(self).pos as int, self.pos as int, statements@, ks));
            assert(stmts_ok(old(self).tokens@, old(self).source.spec_bytes(), old(self).pos as int, self.pos as int, statements@));
            if tail is Some {
                assert(expr_head(old(self).tokens@, old(self).source.spec_bytes(), kt, *tail->Some_0));
            }
        }
        proof {
            self.lemma_within_range(old(self).pos as int, self.pos - 1);
        }
        Some(Block { statements, tail, span: Span::new(start, end) })
    }

    #[verifier::rlimit(60)]
    /// One postfix operator applied to `lhs`: `?`, `.await`, a field, a
    /// call (with or without turbofish), an index or an `as` cast. `Err`
    /// hands `lhs` back untouched when no postfix operator follows.
    fn postfix(&mut self, mut lhs: Expr, Ghost(p0): Ghost<int>) -> (r: Result<Option<Expr>, Expr>)
        requires
            old(self).wf(),
            0 <= p0 < old(self).pos,
            old(self).within(lhs.span, p0, old(self).pos as int),
            operands_in_order(lhs),
            pipe_right_ok(lhs),
        ensures
            final(self).wf(),
            final(self).evolved(old(self)),
            r is Err <==> !postfix_start(old(self).tokens@, old(self).pos as int),
            r matches Err(b) ==> b == lhs && final(self).pos == old(self).pos && final(self).errors@
                == old(self).errors@,
            r matches Ok(None) ==> final(self).failed_with_reason(old(self)),
            r matches Ok(Some(e)) ==> final(self).pos > old(self).pos && final(self).within(
                e.span,
                p0,
                final(self).pos as int,
            ) && operands_in_order(e) && pipe_question_ok(e) && infix_parts(e) is None,
            r matches Ok(Some(e)) ==> e.span.start == lhs.span.start,
            r matches Ok(Some(e)) ==> (expr_head(old(self).tokens@, old(self).source.spec_bytes(), p0, lhs)
                ==> expr_head(old(self).tokens@, old(self).source.spec_bytes(), p0, e)),
        decreases old(self).tokens@.len() - old(self).pos, 1nat,
    {
        let ghost q = self.pos as int;
        if self.eat(TokenKind::Question).is_some() {
            proof {
                self.lemma_join_prev(lhs.span, p0, q);
            }
            let span = lhs.span.join(self.prev_span());
            lhs = Expr { kind: ExprKind::ErrorProp(Box::new(lhs)), span };
            return Ok(Some(lhs));
        }
        if self.eat(TokenKind::Dot).is_some() {
            if self.eat_keyword(Keyword::Await).is_some() {
                proof {
                    self.lemma_join_prev(lhs.span, p0, q);
                }
                let span = lhs.span.join(self.prev_span());
                lhs = Expr { kind: ExprKind::Await(Box::new(lhs)), span };
            } else {
                let name = match self.ident() {
                Some(v) => v,
                None => return Ok(None),
            }.name;
                proof {
                    self.lemma_join_prev(lhs.span, p0, q);
                }
                let span = lhs.span.join(self.prev_span());
                lhs = Expr { kind: ExprKind::Field { base: Box::new(lhs), name }, span };
            }
            return Ok(Some(lhs));
        }
        if self.eat(TokenKind::LParen).is_some() {
            let type_args: Vec<TypeArg> = Vec::new();
            let args = match self.args(TokenKind::RParen) {
                Some(v) => v,
                None => return Ok(None),
            };
            let end = match self.expect(TokenKind::RParen) {
                Some(v) => v,
                None => return Ok(None),
            }.span.end;
            proof {
                self.lemma_extend_prev(lhs.span, p0, q);
            }
            let span = Span::new(lhs.span.start, end);
            lhs = Expr { kind: ExprKind::Call { callee: Box::new(lhs), type_args, args }, span };
            return Ok(Some(lhs));
        }
        match self.turbofish() {
            Some(type_args) => {
                match self.expect(TokenKind::LParen) {
                Some(v) => v,
                None => return Ok(None),
            };
                let args = match self.args(TokenKind::RParen) {
                Some(v) => v,
                None => return Ok(None),
            };
                let end = match self.expect(TokenKind::RParen) {
                Some(v) => v,
                None => return Ok(None),
            }.span.end;
                proof {
                    self.lemma_extend_prev(lhs.span, p0, q);
                }
                let span = Span::new(lhs.span.start, end);
                lhs = Expr {
                    kind: ExprKind::Call { callee: Box::new(lhs), type_args, args },
                    span,
                };
                return Ok(Some(lhs));
            },
            None => {},
        }
        if self.eat(TokenKind::LBracket).is_some() {
            let index = match self.delimited_expr() {
                Some(v) => v,
                None => return Ok(None),
            };
            let end = match self.expect(TokenKind::RBracket) {
                Some(v) => v,
                None => return Ok(None),
            }.span.end;
            proof {
                self.lemma_extend_prev(lhs.span, p0, q);
            }
            let span = Span::new(lhs.span.start, end);
            lhs = Expr {
                kind: ExprKind::Index { base: Box::new(lhs), index: Box::new(index) },
                span,
            };
            return Ok(Some(lhs));
        }
        if self.eat_keyword(Keyword::As).is_some() {
            let ty = match self.ty() {
                Some(v) => v,
                None => return Ok(None),
            };
            proof {
                self.lemma_join_prev(lhs.span, p0, q);
            }
            let span = lhs.span.join(self.prev_span());
            lhs = Expr { kind: ExprKind::Cast { expr: Box::new(lhs), ty }, span };
            return Ok(Some(lhs));
        }
        Err(lhs)
    }

    #[verifier::rlimit(100)]
    fn expr(&mut self, min_bp: u8) -> (r: Option<Expr>)
        requires
            old(self).wf(),
        ensures
            r is None ==> final(self).failed_with_reason(old(self)),
            final(self).wf(),
            final(self).evolved(old(self)),
            r is Some ==> final(self).pos > old(self).pos,
            r matches Some(e) ==> final(self).within(
                e.span,
                old(self).pos as int,
                final(self).pos as int,
            ),
            r matches Some(e) ==> operands_in_order(e),
            r matches Some(e) ==> expr_laws(old(self).tokens@, final(self).errors@, e, min_bp as int),
            r is Some ==> stops_at(final(self).tokens@, final(self).pos as int, min_bp as int),
            old(self).pos < old(self).tokens@.len() && is_literal_kind(
                old(self).tokens@[old(self).pos as int].kind,
            ) && stops_at(old(self).tokens@, old(self).pos + 1, min_bp as int) ==> (r matches Some(x) && x.kind is Literal && x.span == old(self).tokens@[old(self).pos as int].span && final(self).pos == old(self).pos + 1),
            r matches Some(e) ==> e.span.start == old(self).tokens@[old(self).pos as int].span.start,
            r matches Some(e) ==> expr_head(old(self).tokens@, old(self).source.spec_bytes(), old(self).pos as int, e),
        decreases old(self).tokens@.len() - old(self).pos, 3nat,
    {
        let mut lhs = self.prefix()?;
        let ghost mut assign_err: int = 0;
        let ghost mut chain_err: int = 0;
        let ghost mut pending_err: int = 0;
        proof {
            assert(lhs_facts(self.tokens@, self.errors@, self.pos as int, lhs, min_bp as int, assign_err, chain_err, pending_err) == lhs_facts_body(self.tokens@, self.errors@, self.pos as int, lhs, min_bp as int, assign_err, chain_err, pending_err)) by {
                reveal(lhs_facts);
            }
        }
        loop
            invariant
                self.wf(),
                self.evolved(old(self)),
                self.pos > old(self).pos,
                self.within(lhs.span, old(self).pos as int, self.pos as int),
                operands_in_order(lhs),
                pipe_question_ok(lhs),
                pipe_right_ok(lhs),
                lhs.span.start == old(self).tokens@[old(self).pos as int].span.start,
                expr_head(self.tokens@, self.source.spec_bytes(), old(self).pos as int, lhs),
                infix_parts(lhs) is Some ==> lhs_facts(
                    self.tokens@,
                    self.errors@,
                    self.pos as int,
                    lhs,
                    min_bp as int,
                    assign_err,
                    chain_err,
                    pending_err,
                ),
                old(self).pos < old(self).tokens@.len() && is_literal_kind(
                    old(self).tokens@[old(self).pos as int].kind,
                ) && stops_at(old(self).tokens@, old(self).pos + 1, min_bp as int) ==> (self.pos == old(self).pos + 1 && lhs.kind is Literal && lhs.span == old(self).tokens@[old(self).pos as int].span),
            ensures
                stops_at(self.tokens@, self.pos as int, min_bp as int),
            decreases self.tokens@.len() - self.pos,
        {
            let ghost p0 = old(self).pos as int;
            let ghost q = self.pos as int;
            match self.postfix(lhs, Ghost(p0)) {
                Ok(Some(e)) => {
                    lhs = e;
                    continue;
                },
                Ok(None) => {
                    return None;
                },
                Err(back) => {
                    lhs = back;
                },
            }
            proof {
                assert(lhs_facts(self.tokens@, self.errors@, self.pos as int, lhs, min_bp as int, assign_err, chain_err, pending_err) == lhs_facts_body(self.tokens@, self.errors@, self.pos as int, lhs, min_bp as int, assign_err, chain_err, pending_err)) by {
                    reveal(lhs_facts);
                }
            }
            proof {
                if self.pos < self.tokens@.len() {
                    lemma_infix_tables(self.tokens@[self.pos as int].kind);
                }
            }
            let (infix, left_bp, right_bp) = match self.infix_binding_power() {
                Some(power) => power,
                None => break,
            };
            if left_bp < min_bp {
                break;
            }
            self.bump();
            if infix == Infix::Op(BinaryOp::Pipe) {
                // The right side of `|>` is a pipe stage, not a
                // precedence-climbed expression.
                let stage = self.pipe_stage()?;
                proof {
                    self.lemma_within_join(lhs.span, stage.span, p0, q, q + 1, self.pos as int);
                }
                let ghost l0 = lhs;
                let ghost r0 = stage;
                let span = lhs.span.join(stage.span);
                lhs = Expr {
                    kind: ExprKind::Binary {
                        op: BinaryOp::Pipe,
                        left: Box::new(lhs),
                        right: Box::new(stage),
                    },
                    span,
                };
                proof {
                    lemma_infix_tables(self.tokens@[q].kind);
                    self.lemma_infix_node(
                        lhs,
                        Some(BinaryOp::Pipe),
                        l0,
                        r0,
                        min_bp as int,
                        p0,
                        q,
                        self.pos as int,
                    );
                }
                proof {
                    assert(lhs_facts(self.tokens@, self.errors@, self.pos as int, lhs, min_bp as int, assign_err, chain_err, pending_err) == lhs_facts_body(self.tokens@, self.errors@, self.pos as int, lhs, min_bp as int, assign_err, chain_err, pending_err)) by {
                        reveal(lhs_facts);
                    }
                }
                proof {
                    assert(expr_head(self.tokens@, self.source.spec_bytes(), old(self).pos as int, lhs));
                }
                // A stage's trailing `?` applies to the accumulated pipe
                // application: `x |> f?` is `(x |> f)?`.
                let ghost q1 = self.pos as int;
                if self.eat(TokenKind::Question).is_some() {
                    proof {
                        self.lemma_join_prev(lhs.span, p0, q1);
                    }
                    let span = lhs.span.join(self.prev_span());
                    lhs = Expr { kind: ExprKind::ErrorProp(Box::new(lhs)), span };
                }
                continue;
            }
            let rhs = self.expr(right_bp)?;
            proof {
                reveal(expr_laws);
            }
            proof {
                self.lemma_within_join(lhs.span, rhs.span, p0, q, q + 1, self.pos as int);
            }
            let ghost l0 = lhs;
            let ghost r0 = rhs;
            let span = lhs.span.join(rhs.span);
            let is_range = infix == Infix::Op(BinaryOp::Range) || infix == Infix::Op(
                BinaryOp::RangeInclusive,
            );
            lhs = match infix {
                Infix::Assign => {
                    // Only an assignment target may appear on the left side.
                    if !is_assign_target(&lhs) {
                        proof {
                            self.lemma_within_fits(lhs.span, p0, q);
                        }
                        self.error_at(lhs.span, String::from_str("invalid assignment target"));
                        proof {
                            assign_err = self.errors@.len() - 1;
                        }
                    }
                    Expr {
                        kind: ExprKind::Assign { target: Box::new(lhs), value: Box::new(rhs) },
                        span,
                    }
                },
                Infix::Op(op) => Expr {
                    kind: ExprKind::Binary { op, left: Box::new(lhs), right: Box::new(rhs) },
                    span,
                },
            };
            proof {
                lemma_infix_tables(self.tokens@[q].kind);
                self.lemma_infix_node(lhs, infix_op(infix), l0, r0, min_bp as int, p0, q, self.pos as int);
                if range_chained(lhs) {
                    chain_err = pending_err;
                }
            }
            // `..` and `..=` are non-associative: a range operand may not
            // itself be an unparenthesized range.
            if is_range && (self.at(TokenKind::DotDot) || self.at(TokenKind::DotDotEq)) {
                self.error_here(
                    String::from_str("range operators cannot be chained; parenthesize one side"),
                );
                proof {
                    pending_err = self.errors@.len() - 1;
                }
            }
            proof {
                assert(lhs_facts(self.tokens@, self.errors@, self.pos as int, lhs, min_bp as int, assign_err, chain_err, pending_err) == lhs_facts_body(self.tokens@, self.errors@, self.pos as int, lhs, min_bp as int, assign_err, chain_err, pending_err)) by {
                    reveal(lhs_facts);
                }
            }
        }
        proof {
            assert(lhs_facts(self.tokens@, self.errors@, self.pos as int, lhs, min_bp as int, assign_err, chain_err, pending_err) == lhs_facts_body(self.tokens@, self.errors@, self.pos as int, lhs, min_bp as int, assign_err, chain_err, pending_err)) by {
                reveal(lhs_facts);
            }
        }
        proof {
            reveal(expr_laws);
        }
        proof {
            if let Some((op, t, _)) = bare_infix(lhs) {
                if op is None && !spec_is_assign_target(t) {
                    assert(self.errors@[assign_err].message@ == "invalid assignment target"@);
                }
            }
            if range_chained(lhs) {
                assert(chain_error_at(self.errors@, chain_err, lhs));
            }
        }
        Some(lhs)
    }

    /// Condition or scrutinee expression, with the struct-literal block-head
    /// restriction active.
    fn cond_expr(&mut self) -> (r: Option<Expr>)
        requires
            old(self).wf(),
        ensures
            r is None ==> final(self).failed_with_reason(old(self)),
            final(self).wf(),
            final(self).evolved(old(self)),
            r is Some ==> final(self).pos > old(self).pos,
            r matches Some(e) ==> final(self).within(
                e.span,
                old(self).pos as int,
                final(self).pos as int,
            ),
            r matches Some(e) ==> operands_in_order(e),
            r matches Some(e) ==> pipe_question_ok(e),
            r matches Some(e) ==> e.span.start == old(self).tokens@[old(self).pos as int].span.start,
            r matches Some(e) ==> expr_head(old(self).tokens@, old(self).source.spec_bytes(), old(self).pos as int, e),
        decreases old(self).tokens@.len() - old(self).pos, 4nat,
    {
        let prev = self.no_struct_literal;
        self.no_struct_literal = true;
        let result = self.expr(0);
        proof {
            reveal(expr_laws);
        }
        self.no_struct_literal = prev;
        result
    }

    /// Expression inside a delimited group (parens, call arguments, index,
    /// `vec!`), where struct literals are allowed again.
    fn delimited_expr(&mut self) -> (r: Option<Expr>)
        requires
            old(self).wf(),
        ensures
            r is None ==> final(self).failed_with_reason(old(self)),
            final(self).wf(),
            final(self).evolved(old(self)),
            r is Some ==> final(self).pos > old(self).pos,
            r matches Some(e) ==> final(self).within(
                e.span,
                old(self).pos as int,
                final(self).pos as int,
            ),
            r matches Some(e) ==> operands_in_order(e),
            r matches Some(e) ==> pipe_question_ok(e),
            r matches Some(e) ==> e.span.start == old(self).tokens@[old(self).pos as int].span.start,
            r matches Some(e) ==> expr_head(old(self).tokens@, old(self).source.spec_bytes(), old(self).pos as int, e),
        decreases old(self).tokens@.len() - old(self).pos, 4nat,
    {
        let prev = self.no_struct_literal;
        self.no_struct_literal = false;
        let result = self.expr(0);
        proof {
            reveal(expr_laws);
        }
        self.no_struct_literal = prev;
        result
    }

    fn unary(&mut self, op: UnaryOp, token: Token) -> (r: Option<Expr>)
        requires
            old(self).wf(),
            old(self).pos < old(self).tokens@.len(),
            token == old(self).tokens@[old(self).pos as int],
            unary_op_of(token.kind) == Some(op),
        ensures
            r is None ==> final(self).failed_with_reason(old(self)),
            final(self).wf(),
            final(self).evolved(old(self)),
            r is Some ==> final(self).pos > old(self).pos,
            r matches Some(e) ==> final(self).within(
                e.span,
                old(self).pos as int,
                final(self).pos as int,
            ),
            r matches Some(e) ==> operands_in_order(e),
            r matches Some(e) ==> infix_parts(e) is None && !(e.kind is ErrorProp),
            r matches Some(e) ==> is_unary_node(e, op),
            r matches Some(e) ==> e.span.start == old(self).tokens@[old(self).pos as int].span.start,
            r matches Some(e) ==> expr_head(old(self).tokens@, old(self).source.spec_bytes(), old(self).pos as int, e),
        decreases old(self).tokens@.len() - old(self).pos, 0nat,
    {
        self.bump();
        if op == UnaryOp::Ref {
            let _mutable = self.eat_ident_text("mut");
        }
        let ghost q = self.pos as int;
        let expr = self.expr(11)?;
        proof {
            reveal(expr_laws);
        }
        proof {
            let p0 = old(self).pos as int;
            self.lemma_within_token(p0);
            self.lemma_within_join(token.span, expr.span, p0, p0 + 1, q, self.pos as int);
        }
        let span = token.span.join(expr.span);
        Some(Expr { kind: ExprKind::Unary { op, expr: Box::new(expr) }, span })
    }

    #[verifier::rlimit(60)]
    /// The shapes `prefix` gives: prefix operators, `vec` and `vec!`, and
    /// the struct-literal restriction of condition and scrutinee heads.
    #[verifier::opaque]
    spec fn prefix_shapes(&self, fin: &Self, r: Option<Expr>) -> bool {
        let p = self.pos as int;
        let toks = self.tokens@;
        let at_vec = self.at_kind(TokenKind::Ident) && self.token_text(p) == "vec"@;
        &&& (p < toks.len() ==> (unary_op_of(toks[p].kind) matches Some(u) ==> (r matches Some(e)
            ==> is_unary_node(e, u))))
        &&& (at_vec && self.next_is(TokenKind::Bang) && !(p + 2 < toks.len() && toks[p + 2].kind
            == TokenKind::LBracket) ==> {
            &&& r is None
            &&& fin.errors@.len() == self.errors@.len() + 1
            &&& fin.errors@.last().message@ == "expected `[` after `vec!`"@
            &&& p + 2 < toks.len() ==> fin.errors@.last().span == toks[p + 2].span
        })
        &&& (at_vec && !self.next_is(TokenKind::Bang) ==> {
            &&& r matches Some(e) && e.span == toks[p].span
            &&& r matches Some(e) && (e.kind matches ExprKind::Path(path) && path.segments@.len() == 1)
            &&& fin.pos == p + 1
        })
        &&& (self.at_path_start() && !at_vec ==> (r matches Some(e) ==> (e.kind is StructLiteral
            ==> !self.no_struct_literal)))
        &&& (self.at_path_start() && !at_vec && self.no_struct_literal ==> (r matches Some(e)
            ==> e.kind is Path))
        &&& (self.at_path_start() && !at_vec ==> (r matches Some(e) ==> (e.kind is Path
            && fin.at_kind(TokenKind::LBrace) ==> self.no_struct_literal)))
    }

    #[verifier::rlimit(100)]
    #[verifier::spinoff_prover]
    fn prefix(&mut self) -> (r: Option<Expr>)
        requires
            old(self).wf(),
        ensures
            r is None ==> final(self).failed_with_reason(old(self)),
            final(self).wf(),
            final(self).evolved(old(self)),
            r is Some ==> final(self).pos > old(self).pos,
            r matches Some(e) ==> final(self).within(
                e.span,
                old(self).pos as int,
                final(self).pos as int,
            ),
            r matches Some(e) ==> operands_in_order(e),
            old(self).pos < old(self).tokens@.len() && is_literal_kind(
                old(self).tokens@[old(self).pos as int].kind,
            ) ==> (r matches Some(x) && x.span == old(self).tokens@[old(self).pos as int].span && (
            x.kind matches ExprKind::Literal(l) && spec_literal(
                old(self).tokens@[old(self).pos as int].kind,
                old(self).token_text(old(self).pos as int),
                l,
            )) && final(self).pos == old(self).pos + 1),
            r matches Some(e) ==> bare_infix(e) is None && pipe_question_ok(e),
            old(self).prefix_shapes(final(self), r),
            r matches Some(e) ==> e.span.start == old(self).tokens@[old(self).pos as int].span.start,
            r matches Some(e) ==> expr_head(old(self).tokens@, old(self).source.spec_bytes(), old(self).pos as int, e),
        decreases old(self).tokens@.len() - old(self).pos, 2nat,
    {
        proof {
            reveal(Parser::prefix_shapes);
        }
        let token = self.peek()?;
        let kind = token.kind;
        let ghost p0 = self.pos as int;
        proof {
            self.lemma_within_token(p0);
        }
        if kind == TokenKind::IntLit || kind == TokenKind::FloatLit || kind == TokenKind::StringLit
            || kind == TokenKind::CharLit || kind == TokenKind::Keyword(Keyword::True) || kind
            == TokenKind::Keyword(Keyword::False) {
            self.bump();
            let literal = self.literal_from_token(&token);
            return Some(Expr { kind: ExprKind::Literal(literal), span: token.span });
        }
        if kind == TokenKind::Ident && self.text_is(&token, "vec") {
            self.bump();
            if self.eat(TokenKind::Bang).is_some() {
                // `vec!` only ever binds to square brackets.
                if self.eat(TokenKind::LBracket).is_none() {
                    self.error_here(String::from_str("expected `[` after `vec!`"));
                    return None;
                }
                if self.eat(TokenKind::RBracket).is_some() {
                    proof {
                        self.lemma_within_range(p0, self.pos - 1);
                    }
                    return Some(
                        Expr {
                            kind: ExprKind::VecLiteral(Vec::new()),
                            span: Span::new(token.span.start, self.prev_span().end),
                        },
                    );
                }
                let first = self.delimited_expr()?;
                if self.eat(TokenKind::Semi).is_some() {
                    let count = self.delimited_expr()?;
                    let end = self.expect(TokenKind::RBracket)?.span.end;
                    proof {
                        self.lemma_within_range(p0, self.pos - 1);
                    }
                    return Some(
                        Expr {
                            kind: ExprKind::VecRepeat {
                                value: Box::new(first),
                                count: Box::new(count),
                            },
                            span: Span::new(token.span.start, end),
                        },
                    );
                }
                let mut items: Vec<Expr> = Vec::new();
                items.push(first);
                loop
                    invariant
                        self.wf(),
                        self.evolved(old(self)),
                        self.pos > old(self).pos,
                        old(self).tokens@[old(self).pos as int].kind == TokenKind::Ident,
                        old(self).next_is(TokenKind::Bang),
                        old(self).pos + 2 < old(self).tokens@.len() && old(self).tokens@[old(self).pos
                            + 2].kind == TokenKind::LBracket,
                    decreases self.tokens@.len() - self.pos,
                {
                    proof {
                        reveal(Parser::prefix_shapes);
                    }
                    if self.eat(TokenKind::Comma).is_none() {
                        break;
                    }
                    if self.at(TokenKind::RBracket) {
                        break;
                    }
                    items.push(self.delimited_expr()?);
                }
                let end = self.expect(TokenKind::RBracket)?.span.end;
                proof {
                    self.lemma_within_range(p0, self.pos - 1);
                }
                return Some(
                    Expr {
                        kind: ExprKind::VecLiteral(items),
                        span: Span::new(token.span.start, end),
                    },
                );
            }
            let mut segments: Vec<String> = Vec::new();
            segments.push(self.text(&token).to_owned());
            return Some(
                Expr { kind: ExprKind::Path(Path { segments, span: token.span }), span: token.span },
            );
        }
        if kind == TokenKind::Ident || kind == TokenKind::Keyword(Keyword::SelfValue) || kind
            == TokenKind::Keyword(Keyword::SelfType) {
            let path = self.path()?;
            if self.at(TokenKind::LBrace) && !self.no_struct_literal {
                self.bump();
                let fields = self.field_inits()?;
                let end = self.expect(TokenKind::RBrace)?.span.end;
                proof {
                    self.lemma_within_range(p0, self.pos - 1);
                }
                return Some(
                    Expr {
                        kind: ExprKind::StructLiteral { path, fields },
                        span: Span::new(token.span.start, end),
                    },
                );
            }
            let span = path.span;
            return Some(Expr { kind: ExprKind::Path(path), span });
        }
        if kind == TokenKind::Bang {
            return self.unary(UnaryOp::Not, token);
        }
        if kind == TokenKind::Minus {
            return self.unary(UnaryOp::Neg, token);
        }
        if kind == TokenKind::Star {
            return self.unary(UnaryOp::Deref, token);
        }
        if kind == TokenKind::Amp {
            return self.unary(UnaryOp::Ref, token);
        }
        if kind == TokenKind::LParen {
            self.bump();
            let expr = self.delimited_expr()?;
            let end = self.expect(TokenKind::RParen)?.span.end;
            proof {
                self.lemma_within_range(p0, self.pos - 1);
            }
            return Some(Expr { kind: expr.kind, span: Span::new(token.span.start, end) });
        }
        if kind == TokenKind::LBrace {
            let block = self.block()?;
            let span = block.span;
            return Some(Expr { kind: ExprKind::Block(block), span });
        }
        if kind == TokenKind::Keyword(Keyword::If) {
            if self.peek_kind_at(1) == Some(TokenKind::Keyword(Keyword::Let)) {
                return self.if_let_expr();
            } else {
                return self.if_expr();
            }
        }
        if kind == TokenKind::Keyword(Keyword::Match) {
            return self.match_expr();
        }
        if kind == TokenKind::Keyword(Keyword::While) {
            return self.while_expr();
        }
        if kind == TokenKind::Keyword(Keyword::For) {
            return self.for_expr();
        }
        if kind == TokenKind::Keyword(Keyword::Loop) {
            return self.loop_expr();
        }
        self.error_here(String::from_str("expected expression"));
        None
    }

    /// The literal node for a literal token, shared by the expression and
    /// pattern grammars.
    fn literal_from_token(&self, token: &Token) -> (r: Literal)
        requires
            token_fits(*token, self.source.spec_bytes()),
            is_literal_kind(token.kind),
        ensures
            spec_literal(
                token.kind,
                range_chars(self.source.spec_bytes(), token.span.start as int, token.span.end as int),
                r,
            ),
    {
        match token.kind {
            TokenKind::IntLit => Literal::Int(self.text(token).to_owned()),
            TokenKind::FloatLit => Literal::Float(self.text(token).to_owned()),
            TokenKind::StringLit => Literal::String(self.text(token).to_owned()),
            TokenKind::CharLit => Literal::Char(self.text(token).to_owned()),
            TokenKind::Keyword(Keyword::True) => Literal::Bool(true),
            _ => Literal::Bool(false),
        }
    }

    /// `pipe_stage = stage_callee [ "(" args ")" ]` with
    /// `stage_callee = path_expr [ turbofish ] { "." IDENT [ turbofish ] }`.
    /// The stage-trailing `?` is consumed by the caller. Closure stages are
    /// not yet implemented.
    fn pipe_stage(&mut self) -> (r: Option<Expr>)
        requires
            old(self).wf(),
        ensures
            r is None ==> final(self).failed_with_reason(old(self)),
            final(self).wf(),
            final(self).evolved(old(self)),
            r is Some ==> final(self).pos > old(self).pos,
            r matches Some(e) ==> final(self).within(
                e.span,
                old(self).pos as int,
                final(self).pos as int,
            ),
            r matches Some(e) ==> operands_in_order(e),
            old(self).at_kind(TokenKind::Ident) && !old(self).next_is(TokenKind::ColonColon)
                && !old(self).next_is(TokenKind::Dot) && !old(self).next_is(TokenKind::LParen) ==> (
            r matches Some(x) && (x.kind matches ExprKind::Path(p) && p.segments@.len() == 1
                && p.segments@[0]@ == old(self).token_text(old(self).pos as int)) && final(self).pos
                == old(self).pos + 1),
            r matches Some(e) ==> is_pipe_stage(e),
        decreases old(self).tokens@.len() - old(self).pos, 0nat,
    {
        if self.at(TokenKind::LParen) {
            self.error_here(String::from_str("closure pipe stages are not yet implemented"));
            return None;
        }
        let startable = match self.peek_kind() {
            Some(TokenKind::Ident) => true,
            Some(TokenKind::Keyword(Keyword::SelfValue)) => true,
            Some(TokenKind::Keyword(Keyword::SelfType)) => true,
            _ => false,
        };
        if !startable {
            self.error_here(
                String::from_str("expected pipe stage: a function path or method chain"),
            );
            return None;
        }
        let path = self.path()?;
        let mut callee = Expr { span: path.span, kind: ExprKind::Path(path) };
        let ghost p0 = old(self).pos as int;
        let ghost q = self.pos as int;
        let mut type_args = self.turbofish();
        proof {
            self.lemma_within_widen(callee.span, p0, q, self.pos as int);
        }
        loop
            invariant
                self.wf(),
                self.evolved(old(self)),
                self.pos > old(self).pos,
                self.within(callee.span, old(self).pos as int, self.pos as int),
                operands_in_order(callee),
                is_stage_callee(callee),
                old(self).at_kind(TokenKind::Ident) && !old(self).next_is(TokenKind::ColonColon)
                    && !old(self).next_is(TokenKind::Dot) && !old(self).next_is(TokenKind::LParen) ==> (type_args is None && self.pos == old(self).pos + 1 && (callee.kind matches ExprKind::Path(p)
                    && p.segments@.len() == 1 && p.segments@[0]@ == old(self).token_text(
                    old(self).pos as int,
                ))),
            decreases self.tokens@.len() - self.pos,
        {
            let ghost p0 = old(self).pos as int;
            let ghost q = self.pos as int;
            if type_args.is_some() {
                break;
            }
            if self.eat(TokenKind::Dot).is_none() {
                break;
            }
            let name = self.ident()?.name;
            proof {
                self.lemma_join_prev(callee.span, p0, q);
            }
            let span = callee.span.join(self.prev_span());
            callee = Expr { kind: ExprKind::Field { base: Box::new(callee), name }, span };
            let ghost q2 = self.pos as int;
            type_args = self.turbofish();
            proof {
                self.lemma_within_widen(callee.span, p0, q2, self.pos as int);
            }
        }
        if type_args.is_some() && self.at(TokenKind::Dot) {
            self.error_here(
                String::from_str(
                    "turbofish on a non-final pipe-stage segment is not yet implemented",
                ),
            );
            return None;
        }
        let ghost q = self.pos as int;
        if self.eat(TokenKind::LParen).is_some() {
            let args = self.args(TokenKind::RParen)?;
            let end = self.expect(TokenKind::RParen)?.span.end;
            proof {
                self.lemma_extend_prev(callee.span, p0, q);
            }
            let span = Span::new(callee.span.start, end);
            let type_args = match type_args {
                Some(t) => t,
                None => Vec::new(),
            };
            callee = Expr { kind: ExprKind::Call { callee: Box::new(callee), type_args, args }, span };
        } else {
            match type_args {
                Some(type_args) => {
                    // `x |> parse::<i64>` has no parens; keep the type
                    // arguments on a zero-argument call.
                    proof {
                        self.lemma_join_prev(callee.span, p0, q);
                    }
                    let span = callee.span.join(self.prev_span());
                    callee = Expr {
                        kind: ExprKind::Call {
                            callee: Box::new(callee),
                            type_args,
                            args: Vec::new(),
                        },
                        span,
                    };
                },
                None => {},
            }
        }
        Some(callee)
    }
}

impl<'src> Parser<'src> {
    fn if_expr(&mut self) -> (r: Option<Expr>)
        requires
            old(self).wf(),
        ensures
            r is None ==> final(self).failed_with_reason(old(self)),
            final(self).wf(),
            final(self).evolved(old(self)),
            r is Some ==> final(self).pos > old(self).pos,
            r matches Some(e) ==> final(self).within(
                e.span,
                old(self).pos as int,
                final(self).pos as int,
            ),
            r matches Some(e) ==> operands_in_order(e),
            r matches Some(e) ==> infix_parts(e) is None && !(e.kind is ErrorProp),
            r matches Some(e) ==> e.span.start == old(self).tokens@[old(self).pos as int].span.start,
            r matches Some(e) ==> expr_head(old(self).tokens@, old(self).source.spec_bytes(), old(self).pos as int, e),
        decreases old(self).tokens@.len() - old(self).pos, 0nat,
    {
        let start = self.expect_keyword(Keyword::If)?.span.start;
        let condition = self.cond_expr()?;
        let then_block = self.block()?;
        let else_branch = if self.eat_keyword(Keyword::Else).is_some() {
            // The else of an `if` may chain into another `if` or an `if let`.
            let branch = if self.at_keyword(Keyword::If) {
                if self.peek_kind_at(1) == Some(TokenKind::Keyword(Keyword::Let)) {
                    self.if_let_expr()?
                } else {
                    self.if_expr()?
                }
            } else {
                let block = self.block()?;
                let span = block.span;
                Expr { kind: ExprKind::Block(block), span }
            };
            Some(Box::new(branch))
        } else {
            None
        };
        let end = match &else_branch {
            Some(branch) => branch.span.end,
            None => then_block.span.end,
        };
        Some(
            Expr {
                kind: ExprKind::If { condition: Box::new(condition), then_block, else_branch },
                span: Span::new(start, end),
            },
        )
    }

    /// `"if" "let" pattern "=" expr block [ "else" block ]`: the else is a
    /// plain block only, and the scrutinee is a block-head position.
    fn if_let_expr(&mut self) -> (r: Option<Expr>)
        requires
            old(self).wf(),
        ensures
            r is None ==> final(self).failed_with_reason(old(self)),
            final(self).wf(),
            final(self).evolved(old(self)),
            r is Some ==> final(self).pos > old(self).pos,
            r matches Some(e) ==> final(self).within(
                e.span,
                old(self).pos as int,
                final(self).pos as int,
            ),
            r matches Some(e) ==> operands_in_order(e),
            r matches Some(e) ==> infix_parts(e) is None && !(e.kind is ErrorProp),
            r matches Some(e) ==> e.span.start == old(self).tokens@[old(self).pos as int].span.start,
            r matches Some(e) ==> expr_head(old(self).tokens@, old(self).source.spec_bytes(), old(self).pos as int, e),
        decreases old(self).tokens@.len() - old(self).pos, 0nat,
    {
        let start = self.expect_keyword(Keyword::If)?.span.start;
        self.expect_keyword(Keyword::Let)?;
        let pattern = self.pattern();
        self.expect(TokenKind::Eq)?;
        let scrutinee = self.cond_expr()?;
        let then_block = self.block()?;
        let else_block = if self.eat_keyword(Keyword::Else).is_some() {
            Some(self.block()?)
        } else {
            None
        };
        let end = match &else_block {
            Some(block) => block.span.end,
            None => then_block.span.end,
        };
        let pattern = pattern?;
        Some(
            Expr {
                kind: ExprKind::IfLet {
                    pattern,
                    scrutinee: Box::new(scrutinee),
                    then_block,
                    else_block,
                },
                span: Span::new(start, end),
            },
        )
    }

    /// `"while" expr block` or `"while" "let" pattern "=" expr block`; the
    /// condition and the scrutinee are block-head positions.
    fn while_expr(&mut self) -> (r: Option<Expr>)
        requires
            old(self).wf(),
        ensures
            r is None ==> final(self).failed_with_reason(old(self)),
            final(self).wf(),
            final(self).evolved(old(self)),
            r is Some ==> final(self).pos > old(self).pos,
            r matches Some(e) ==> final(self).within(
                e.span,
                old(self).pos as int,
                final(self).pos as int,
            ),
            r matches Some(e) ==> operands_in_order(e),
            r matches Some(e) ==> infix_parts(e) is None && !(e.kind is ErrorProp),
            r matches Some(e) ==> e.span.start == old(self).tokens@[old(self).pos as int].span.start,
            r matches Some(e) ==> expr_head(old(self).tokens@, old(self).source.spec_bytes(), old(self).pos as int, e),
        decreases old(self).tokens@.len() - old(self).pos, 0nat,
    {
        let start = self.expect_keyword(Keyword::While)?.span.start;
        if self.eat_keyword(Keyword::Let).is_some() {
            let pattern = self.pattern();
            self.expect(TokenKind::Eq)?;
            let scrutinee = self.cond_expr()?;
            let body = self.block()?;
            let end = body.span.end;
            let pattern = pattern?;
            return Some(
                Expr {
                    kind: ExprKind::WhileLet { pattern, scrutinee: Box::new(scrutinee), body },
                    span: Span::new(start, end),
                },
            );
        }
        let condition = self.cond_expr()?;
        let body = self.block()?;
        let end = body.span.end;
        Some(
            Expr {
                kind: ExprKind::While { condition: Box::new(condition), body },
                span: Span::new(start, end),
            },
        )
    }

    /// `"for" pattern "in" expr block`; the iterable is a block-head position.
    fn for_expr(&mut self) -> (r: Option<Expr>)
        requires
            old(self).wf(),
        ensures
            r is None ==> final(self).failed_with_reason(old(self)),
            final(self).wf(),
            final(self).evolved(old(self)),
            r is Some ==> final(self).pos > old(self).pos,
            r matches Some(e) ==> final(self).within(
                e.span,
                old(self).pos as int,
                final(self).pos as int,
            ),
            r matches Some(e) ==> operands_in_order(e),
            r matches Some(e) ==> infix_parts(e) is None && !(e.kind is ErrorProp),
            r matches Some(e) ==> e.span.start == old(self).tokens@[old(self).pos as int].span.start,
            r matches Some(e) ==> expr_head(old(self).tokens@, old(self).source.spec_bytes(), old(self).pos as int, e),
        decreases old(self).tokens@.len() - old(self).pos, 0nat,
    {
        let start = self.expect_keyword(Keyword::For)?.span.start;
        let pattern = self.pattern();
        self.expect_keyword(Keyword::In)?;
        let iterable = self.cond_expr()?;
        let body = self.block()?;
        let end = body.span.end;
        let pattern = pattern?;
        Some(
            Expr {
                kind: ExprKind::For { pattern, iterable: Box::new(iterable), body },
                span: Span::new(start, end),
            },
        )
    }

    /// `"loop" block`: an infinite loop, left through `break`.
    fn loop_expr(&mut self) -> (r: Option<Expr>)
        requires
            old(self).wf(),
        ensures
            r is None ==> final(self).failed_with_reason(old(self)),
            final(self).wf(),
            final(self).evolved(old(self)),
            r is Some ==> final(self).pos > old(self).pos,
            r matches Some(e) ==> final(self).within(
                e.span,
                old(self).pos as int,
                final(self).pos as int,
            ),
            r matches Some(e) ==> operands_in_order(e),
            r matches Some(e) ==> infix_parts(e) is None && !(e.kind is ErrorProp),
            r matches Some(e) ==> e.span.start == old(self).tokens@[old(self).pos as int].span.start,
            r matches Some(e) ==> expr_head(old(self).tokens@, old(self).source.spec_bytes(), old(self).pos as int, e),
        decreases old(self).tokens@.len() - old(self).pos, 0nat,
    {
        let start = self.expect_keyword(Keyword::Loop)?.span.start;
        let body = self.block()?;
        let end = body.span.end;
        Some(Expr { kind: ExprKind::Loop { body }, span: Span::new(start, end) })
    }

    /// `"match" expr "{" { match_arm } "}"`; the scrutinee is a block-head
    /// position.
    fn match_expr(&mut self) -> (r: Option<Expr>)
        requires
            old(self).wf(),
        ensures
            r is None ==> final(self).failed_with_reason(old(self)),
            final(self).wf(),
            final(self).evolved(old(self)),
            r is Some ==> final(self).pos > old(self).pos,
            r matches Some(e) ==> final(self).within(
                e.span,
                old(self).pos as int,
                final(self).pos as int,
            ),
            r matches Some(e) ==> operands_in_order(e),
            r matches Some(e) ==> infix_parts(e) is None && !(e.kind is ErrorProp),
            r matches Some(e) ==> e.span.start == old(self).tokens@[old(self).pos as int].span.start,
            r matches Some(e) ==> expr_head(old(self).tokens@, old(self).source.spec_bytes(), old(self).pos as int, e),
        decreases old(self).tokens@.len() - old(self).pos, 0nat,
    {
        let start = self.expect_keyword(Keyword::Match)?.span.start;
        let scrutinee = self.cond_expr()?;
        self.expect(TokenKind::LBrace)?;
        let mut arms: Vec<MatchArm> = Vec::new();
        loop
            invariant
                self.wf(),
                self.evolved(old(self)),
                self.pos > old(self).pos,
            decreases self.tokens@.len() - self.pos,
        {
            if self.at(TokenKind::RBrace) || self.eof() {
                break;
            }
            match self.match_arm() {
                Some(arm) => arms.push(arm),
                None => self.recover_until(TokenKind::Comma, TokenKind::RBrace),
            }
            // Expression arms consume their own trailing comma; block arms
            // take none. Eating a stray separator keeps the loop advancing
            // after a failed arm.
            let _ = self.eat(TokenKind::Comma);
        }
        let end = self.expect(TokenKind::RBrace)?.span.end;
        Some(
            Expr {
                kind: ExprKind::Match { scrutinee: Box::new(scrutinee), arms },
                span: Span::new(start, end),
            },
        )
    }

    /// `match_arm = pattern [ "if" expr ] "=>" ( expr "," | block )`.
    fn match_arm(&mut self) -> (r: Option<MatchArm>)
        requires
            old(self).wf(),
        ensures
            r is None ==> final(self).failed_with_reason(old(self)),
            final(self).wf(),
            final(self).evolved(old(self)),
            r is Some ==> final(self).pos > old(self).pos,
            r matches Some(arm) ==> arm_ok(
                old(self).tokens@,
                old(self).source.spec_bytes(),
                old(self).pos as int,
                final(self).pos as int,
                arm,
            ),
        decreases old(self).tokens@.len() - old(self).pos, 2nat,
    {
        let pattern = self.pattern();
        let ghost kg = self.pos + 1;
        let guard = if self.eat_keyword(Keyword::If).is_some() {
            Some(self.expr(0)?)
        } else {
            None
        };
        self.expect(TokenKind::FatArrow)?;
        let ghost kb = self.pos as int;
        let body = if self.at(TokenKind::LBrace) {
            let block = self.block()?;
            let span = block.span;
            Expr { kind: ExprKind::Block(block), span }
        } else {
            let body = self.expr(0)?;
            self.expect(TokenKind::Comma)?;
            body
        };
        let pattern = pattern?;
        let arm = MatchArm { pattern, guard, body };
        proof {
            if arm.guard is Some {
                assert(expr_head(self.tokens@, self.source.spec_bytes(), kg, arm.guard->Some_0));
            }
            assert(expr_head(self.tokens@, self.source.spec_bytes(), kb, arm.body));
        }
        Some(arm)
    }

    /// `pattern = ... | pattern "|" pattern`: the or-alternative is
    /// right-associative, `A | B | C` is `A | (B | C)`.
    fn pattern(&mut self) -> (r: Option<Pattern>)
        requires
            old(self).wf(),
        ensures
            r is None ==> final(self).failed_with_reason(old(self)),
            final(self).wf(),
            final(self).evolved(old(self)),
            r is Some ==> final(self).pos > old(self).pos,
            r matches Some(p) ==> final(self).within(
                p.span,
                old(self).pos as int,
                final(self).pos as int,
            ),
            r matches Some(x) ==> pattern_head(old(self).tokens@, old(self).source.spec_bytes(), old(self).pos as int, x),
        decreases old(self).tokens@.len() - old(self).pos, 1nat,
    {
        let mut pattern = self.pattern_atom()?;
        let ghost q = self.pos as int;
        if self.eat(TokenKind::Pipe).is_some() {
            let right = self.pattern()?;
            proof {
                self.lemma_within_join(
                    pattern.span,
                    right.span,
                    old(self).pos as int,
                    q,
                    q + 1,
                    self.pos as int,
                );
            }
            let span = pattern.span.join(right.span);
            pattern = Pattern {
                kind: PatternKind::Or { left: Box::new(pattern), right: Box::new(right) },
                span,
            };
        }
        Some(pattern)
    }

    /// The pattern production without the or-alternative. A single bare
    /// identifier is a binding; multi-segment paths are path patterns.
    fn pattern_atom(&mut self) -> (r: Option<Pattern>)
        requires
            old(self).wf(),
        ensures
            r is None ==> final(self).failed_with_reason(old(self)),
            final(self).wf(),
            final(self).evolved(old(self)),
            r is Some ==> final(self).pos > old(self).pos,
            r matches Some(p) ==> final(self).within(
                p.span,
                old(self).pos as int,
                final(self).pos as int,
            ),
            old(self).pos < old(self).tokens@.len() && is_literal_kind(
                old(self).tokens@[old(self).pos as int].kind,
            ) ==> (r matches Some(x) && x.span == old(self).tokens@[old(self).pos as int].span && (
            x.kind matches PatternKind::Literal(l) && spec_literal(
                old(self).tokens@[old(self).pos as int].kind,
                old(self).token_text(old(self).pos as int),
                l,
            )) && final(self).pos == old(self).pos + 1),
            old(self).at_kind(TokenKind::Ident) && old(self).token_text(old(self).pos as int)
                == "_"@ ==> (r matches Some(x) && x.kind is Wildcard && x.span == old(self).tokens@[old(self).pos as int].span && final(self).pos == old(self).pos + 1),
            r matches Some(x) ==> atom_head(old(self).tokens@, old(self).source.spec_bytes(), old(self).pos as int, x),
        decreases old(self).tokens@.len() - old(self).pos, 0nat,
    {
        let token = self.peek()?;
        let kind = token.kind;
        let ghost p0 = self.pos as int;
        proof {
            self.lemma_within_token(p0);
        }
        if kind == TokenKind::Ident && self.text_is(&token, "_") {
            self.bump();
            return Some(Pattern { kind: PatternKind::Wildcard, span: token.span });
        }
        if kind == TokenKind::IntLit || kind == TokenKind::FloatLit || kind == TokenKind::StringLit
            || kind == TokenKind::CharLit || kind == TokenKind::Keyword(Keyword::True) || kind
            == TokenKind::Keyword(Keyword::False) {
            self.bump();
            let literal = self.literal_from_token(&token);
            return Some(Pattern { kind: PatternKind::Literal(literal), span: token.span });
        }
        if kind == TokenKind::Ident && self.text_is(&token, "ref") {
            // `ref` prefixes a bare binding only.
            self.bump();
            let name = self.ident()?;
            proof {
                self.lemma_within_token(p0 + 1);
                self.lemma_within_join(token.span, name.span, p0, p0 + 1, p0 + 1, p0 + 2);
            }
            let span = token.span.join(name.span);
            return Some(
                Pattern { kind: PatternKind::Binding { name: name.name, is_ref: true }, span },
            );
        }
        if kind == TokenKind::Ident || kind == TokenKind::Keyword(Keyword::SelfType) {
            let path = self.path()?;
            if self.eat(TokenKind::LParen).is_some() {
                let args = self.patterns(TokenKind::RParen)?;
                let end = self.expect(TokenKind::RParen)?.span.end;
                proof {
                    self.lemma_within_range(p0, self.pos - 1);
                }
                return Some(
                    Pattern {
                        kind: PatternKind::Call { path, args },
                        span: Span::new(token.span.start, end),
                    },
                );
            } else if self.at(TokenKind::LBrace) {
                self.bump();
                let (fields, rest) = self.field_pats()?;
                let end = self.expect(TokenKind::RBrace)?.span.end;
                proof {
                    self.lemma_within_range(p0, self.pos - 1);
                }
                return Some(
                    Pattern {
                        kind: PatternKind::Struct { path, fields, rest },
                        span: Span::new(token.span.start, end),
                    },
                );
            } else if path.segments.len() == 1 && kind == TokenKind::Ident {
                let name = path.segments[0].clone();
                return Some(
                    Pattern { kind: PatternKind::Binding { name, is_ref: false }, span: path.span },
                );
            } else {
                let span = path.span;
                return Some(Pattern { kind: PatternKind::Path(path), span });
            }
        }
        if kind == TokenKind::LParen {
            self.bump();
            let elems = self.patterns(TokenKind::RParen)?;
            let end = self.expect(TokenKind::RParen)?.span.end;
            proof {
                self.lemma_within_range(p0, self.pos - 1);
            }
            return Some(
                Pattern { kind: PatternKind::Tuple(elems), span: Span::new(token.span.start, end) },
            );
        }
        self.error_here(String::from_str("expected pattern"));
        None
    }

    /// `patterns = [ pattern { "," pattern } [ "," ] ]`.
    fn patterns(&mut self, close: TokenKind) -> (r: Option<Vec<Pattern>>)
        requires
            old(self).wf(),
        ensures
            r matches Some(v) ==> v@.len() <= final(self).pos - old(self).pos,
            r is Some ==> old(self).pos == old(self).tokens@.len() || old(self).at_kind(close) || final(self).pos > old(self).pos,
            r is None ==> final(self).failed_with_reason(old(self)),
            final(self).wf(),
            final(self).evolved(old(self)),
            r matches Some(v) ==> patterns_ok(
                old(self).tokens@,
                old(self).source.spec_bytes(),
                old(self).pos as int,
                final(self).pos as int,
                v@,
            ),
        decreases old(self).tokens@.len() - old(self).pos, 2nat,
    {
        let mut patterns: Vec<Pattern> = Vec::new();
        let ghost mut ks: Seq<int> = Seq::empty();
        loop
            invariant
                self.wf(),
                self.evolved(old(self)),
                patterns@.len() <= self.pos - old(self).pos,
                patterns_at(self.tokens@, self.source.spec_bytes(), old(self).pos as int, self.pos as int, patterns@, ks),
            ensures
                patterns@.len() <= self.pos - old(self).pos,
                patterns_at(self.tokens@, self.source.spec_bytes(), old(self).pos as int, self.pos as int, patterns@, ks),
                old(self).pos == old(self).tokens@.len() || old(self).at_kind(close) || self.pos > old(self).pos,
            decreases self.tokens@.len() - self.pos,
        {
            if self.at(close) || self.eof() {
                break;
            }
            let ghost k = self.pos as int;
            let ghost prev = patterns@;
            patterns.push(self.pattern()?);
            proof {
                ks = ks.push(k);
                assert(patterns@ =~= prev.push(patterns@.last()));
            }
            if self.eat(TokenKind::Comma).is_none() {
                break;
            }
        }
        proof {
            assert(patterns_at(old(self).tokens@, old(self).source.spec_bytes(), old(self).pos as int, self.pos as int, patterns@, ks));
            assert(patterns_ok(old(self).tokens@, old(self).source.spec_bytes(), old(self).pos as int, self.pos as int, patterns@));
        }
        Some(patterns)
    }

    /// `field_pats = [ field_pat { "," field_pat } [ "," ] ]` with
    /// `field_pat = IDENT [ ":" pattern ]`, optionally followed by `..`.
    /// Shorthand fields bind their own name.
    fn field_pats(&mut self) -> (r: Option<(Vec<(String, Pattern)>, bool)>)
        requires
            old(self).wf(),
        ensures
            r matches Some((v, rest)) ==> v@.len() <= final(self).pos - old(self).pos && (rest
                ==> final(self).pos > old(self).pos),
            r is Some ==> old(self).pos == old(self).tokens@.len() || old(self).at_kind(
                TokenKind::RBrace,
            ) || final(self).pos > old(self).pos,
            r is None ==> final(self).failed_with_reason(old(self)),
            final(self).wf(),
            final(self).evolved(old(self)),
            r matches Some(x) ==> field_pats_ok(
                old(self).tokens@,
                old(self).source.spec_bytes(),
                old(self).pos as int,
                final(self).pos as int,
                x.0@,
            ),
        decreases old(self).tokens@.len() - old(self).pos, 0nat,
    {
        let mut fields: Vec<(String, Pattern)> = Vec::new();
        let ghost mut ks: Seq<int> = Seq::empty();
        loop
            invariant
                self.wf(),
                self.evolved(old(self)),
                fields@.len() <= self.pos - old(self).pos,
                field_pats_at(self.tokens@, self.source.spec_bytes(), old(self).pos as int, self.pos as int, fields@, ks),
            ensures
                fields@.len() <= self.pos - old(self).pos,
                field_pats_at(self.tokens@, self.source.spec_bytes(), old(self).pos as int, self.pos as int, fields@, ks),
                old(self).pos == old(self).tokens@.len() || old(self).at_kind(TokenKind::RBrace)
                    || self.at_kind(TokenKind::DotDot) || self.pos > old(self).pos,
            decreases self.tokens@.len() - self.pos,
        {
            if self.at(TokenKind::RBrace) || self.at(TokenKind::DotDot) || self.eof() {
                break;
            }
            let ghost k = self.pos as int;
            let name = self.ident()?.name;
            let pattern = if self.eat(TokenKind::Colon).is_some() {
                self.pattern()?
            } else {
                let span = self.prev_span();
                Pattern { kind: PatternKind::Binding { name: name.clone(), is_ref: false }, span }
            };
            let ghost prev = fields@;
            fields.push((name, pattern));
            proof {
                ks = ks.push(k);
                assert(fields@ =~= prev.push(fields@.last()));
                assert(field_pat_at(self.tokens@, self.source.spec_bytes(), k, fields@[fields@.len() - 1]));
            }
            if self.eat(TokenKind::Comma).is_none() {
                break;
            }
        }
        let rest = self.eat(TokenKind::DotDot).is_some();
        proof {
            assert(field_pats_at(old(self).tokens@, old(self).source.spec_bytes(), old(self).pos as int, self.pos as int, fields@, ks));
        }
        let result = (fields, rest);
        proof {
            assert(field_pats_at(old(self).tokens@, old(self).source.spec_bytes(), old(self).pos as int, self.pos as int, result.0@, ks));
            assert(field_pats_ok(old(self).tokens@, old(self).source.spec_bytes(), old(self).pos as int, self.pos as int, result.0@));
        }
        Some(result)
    }

    fn args(&mut self, close: TokenKind) -> (r: Option<Vec<Expr>>)
        requires
            old(self).wf(),
        ensures
            r matches Some(v) ==> v@.len() <= final(self).pos - old(self).pos,
            r is Some ==> old(self).pos == old(self).tokens@.len() || old(self).at_kind(close) || final(self).pos > old(self).pos,
            r is None ==> final(self).failed_with_reason(old(self)),
            final(self).wf(),
            final(self).evolved(old(self)),
            r matches Some(v) ==> exprs_ok(
                old(self).tokens@,
                old(self).source.spec_bytes(),
                old(self).pos as int,
                final(self).pos as int,
                v@,
            ),
        decreases old(self).tokens@.len() - old(self).pos, 5nat,
    {
        let mut args: Vec<Expr> = Vec::new();
        let ghost mut ks: Seq<int> = Seq::empty();
        loop
            invariant
                self.wf(),
                self.evolved(old(self)),
                args@.len() <= self.pos - old(self).pos,
                exprs_at(self.tokens@, self.source.spec_bytes(), old(self).pos as int, self.pos as int, args@, ks),
            ensures
                args@.len() <= self.pos - old(self).pos,
                exprs_at(self.tokens@, self.source.spec_bytes(), old(self).pos as int, self.pos as int, args@, ks),
                old(self).pos == old(self).tokens@.len() || old(self).at_kind(close) || self.pos > old(self).pos,
            decreases self.tokens@.len() - self.pos,
        {
            if self.at(close) || self.eof() {
                break;
            }
            let ghost k = self.pos as int;
            let ghost prev = args@;
            args.push(self.delimited_expr()?);
            proof {
                ks = ks.push(k);
                assert(args@ =~= prev.push(args@.last()));
            }
            if self.eat(TokenKind::Comma).is_none() {
                break;
            }
        }
        proof {
            assert(exprs_at(old(self).tokens@, old(self).source.spec_bytes(), old(self).pos as int, self.pos as int, args@, ks));
            assert(exprs_ok(old(self).tokens@, old(self).source.spec_bytes(), old(self).pos as int, self.pos as int, args@));
        }
        Some(args)
    }

    fn field_inits(&mut self) -> (r: Option<Vec<(String, Option<Expr>)>>)
        requires
            old(self).wf(),
        ensures
            r matches Some(v) ==> v@.len() <= final(self).pos - old(self).pos,
            r is Some ==> old(self).pos == old(self).tokens@.len() || old(self).at_kind(TokenKind::RBrace) || final(self).pos > old(self).pos,
            r is None ==> final(self).failed_with_reason(old(self)),
            final(self).wf(),
            final(self).evolved(old(self)),
            r matches Some(v) ==> field_inits_ok(
                old(self).tokens@,
                old(self).source.spec_bytes(),
                old(self).pos as int,
                final(self).pos as int,
                v@,
            ),
        decreases old(self).tokens@.len() - old(self).pos, 0nat,
    {
        let mut fields: Vec<(String, Option<Expr>)> = Vec::new();
        let ghost mut ks: Seq<int> = Seq::empty();
        loop
            invariant
                self.wf(),
                self.evolved(old(self)),
                fields@.len() <= self.pos - old(self).pos,
                field_inits_at(self.tokens@, self.source.spec_bytes(), old(self).pos as int, self.pos as int, fields@, ks),
            ensures
                fields@.len() <= self.pos - old(self).pos,
                field_inits_at(self.tokens@, self.source.spec_bytes(), old(self).pos as int, self.pos as int, fields@, ks),
                old(self).pos == old(self).tokens@.len() || old(self).at_kind(TokenKind::RBrace) || self.pos > old(self).pos,
            decreases self.tokens@.len() - self.pos,
        {
            if self.at(TokenKind::RBrace) || self.eof() {
                break;
            }
            let ghost k = self.pos as int;
            let name = self.ident()?.name;
            let value = if self.eat(TokenKind::Colon).is_some() {
                Some(self.expr(0)?)
            } else {
                None
            };
            let ghost prev = fields@;
            fields.push((name, value));
            proof {
                ks = ks.push(k);
                assert(fields@ =~= prev.push(fields@.last()));
                assert(field_init_at(self.tokens@, self.source.spec_bytes(), k, fields@[fields@.len() - 1]));
            }
            if self.eat(TokenKind::Comma).is_none() {
                break;
            }
        }
        proof {
            assert(field_inits_at(old(self).tokens@, old(self).source.spec_bytes(), old(self).pos as int, self.pos as int, fields@, ks));
            assert(field_inits_ok(old(self).tokens@, old(self).source.spec_bytes(), old(self).pos as int, self.pos as int, fields@));
        }
        Some(fields)
    }

    fn path(&mut self) -> (r: Option<Path>)
        requires
            old(self).wf(),
        ensures
            r matches Some(p) ==> p.span.start == old(self).tokens@[old(self).pos as int].span.start,
            old(self).at_path_start() ==> r is Some,
            r matches Some(p) ==> p.segments@.len() >= 1 && p.segments@[0]@ == old(self).token_text(
                old(self).pos as int,
            ),
            old(self).at_path_start() && !old(self).next_is(TokenKind::ColonColon) ==> (r matches Some(
                p,
            ) && p.segments@.len() == 1 && final(self).pos == old(self).pos + 1),
            r is None ==> final(self).errors@.len() > old(self).errors@.len(),
            final(self).wf(),
            final(self).evolved(old(self)),
            r is Some ==> final(self).pos > old(self).pos,
            r matches Some(p) ==> final(self).within(
                p.span,
                old(self).pos as int,
                final(self).pos as int,
            ),
    {
        let first = self.path_segment()?;
        let start = first.span.start;
        let mut end = first.span.end;
        let mut segments: Vec<String> = Vec::new();
        segments.push(first.name);
        loop
            invariant
                self.wf(),
                self.evolved(old(self)),
                self.pos > old(self).pos,
                start == self.tokens@[old(self).pos as int].span.start,
                end == self.tokens@[self.pos - 1].span.end,
                segments@.len() >= 1,
                segments@[0]@ == old(self).token_text(old(self).pos as int),
                !old(self).next_is(TokenKind::ColonColon) ==> self.pos == old(self).pos + 1
                    && segments@.len() == 1,
            decreases self.tokens@.len() - self.pos,
        {
            if !(self.at(TokenKind::ColonColon) && self.can_start_path_segment_at(1)) {
                break;
            }
            self.bump();
            let segment = self.path_segment()?;
            end = segment.span.end;
            segments.push(segment.name);
        }
        proof {
            self.lemma_within_range(old(self).pos as int, self.pos - 1);
        }
        Some(Path { segments, span: Span::new(start, end) })
    }

    fn path_segment(&mut self) -> (r: Option<Ident>)
        requires
            old(self).wf(),
        ensures
            r matches Some(id) ==> id.name@ == old(self).token_text(old(self).pos as int),
            r is Some <==> old(self).at_kind(TokenKind::Ident) || old(self).at_kind(
                TokenKind::Keyword(Keyword::SelfType),
            ) || old(self).at_kind(TokenKind::Keyword(Keyword::SelfValue)),
            r is None ==> final(self).errors@.len() == old(self).errors@.len() + 1,
            final(self).wf(),
            final(self).evolved(old(self)),
            r is Some ==> final(self).pos == old(self).pos + 1,
            r matches Some(id) ==> id.span == old(self).tokens@[old(self).pos as int].span,
            r is None ==> final(self).pos == old(self).pos,
    {
        let token = match self.peek() {
            Some(t) => t,
            None => {
                self.error_here(String::from_str("expected path segment"));
                return None;
            },
        };
        if token.kind == TokenKind::Ident || token.kind == TokenKind::Keyword(Keyword::SelfType)
            || token.kind == TokenKind::Keyword(Keyword::SelfValue) {
            self.bump();
            Some(Ident::new(self.text(&token), token.span))
        } else {
            self.error_here(String::from_str("expected path segment"));
            None
        }
    }

    fn ident(&mut self) -> (r: Option<Ident>)
        requires
            old(self).wf(),
        ensures
            r is Some <==> old(self).at_kind(TokenKind::Ident),
            r is None ==> final(self).failed_with_reason(old(self)),
            final(self).wf(),
            final(self).evolved(old(self)),
            r is Some ==> final(self).pos == old(self).pos + 1,
            r matches Some(id) ==> id.span == old(self).tokens@[old(self).pos as int].span,
            r matches Some(id) ==> id.name@ == range_chars(
                old(self).source.spec_bytes(),
                id.span.start as int,
                id.span.end as int,
            ),
            r is None ==> final(self).pos == old(self).pos,
    {
        let token = self.peek()?;
        if token.kind == TokenKind::Ident {
            self.bump();
            Some(Ident::new(self.text(&token), token.span))
        } else {
            self.error_here(String::from_str("expected identifier"));
            None
        }
    }

    fn type_args(&mut self) -> (r: Vec<TypeArg>)
        requires
            old(self).wf(),
        ensures
            r@.len() <= final(self).pos - old(self).pos,
            !old(self).at_kind(TokenKind::Lt) ==> r@.len() == 0 && final(self).pos == old(self).pos,
            old(self).at_kind(TokenKind::Lt) ==> final(self).pos > old(self).pos,
            final(self).wf(),
            final(self).evolved(old(self)),
        decreases old(self).tokens@.len() - old(self).pos, 0nat,
    {
        if self.eat(TokenKind::Lt).is_none() {
            return Vec::new();
        }
        self.type_args_after_open()
    }

    fn turbofish(&mut self) -> (r: Option<Vec<TypeArg>>)
        requires
            old(self).wf(),
        ensures
            r is Some <==> old(self).at_kind(TokenKind::ColonColon) && old(self).pos + 1
                < old(self).tokens@.len() && old(self).tokens@[old(self).pos + 1].kind
                == TokenKind::Lt,
            final(self).wf(),
            final(self).evolved(old(self)),
            r is Some ==> final(self).pos > old(self).pos,
            r is None ==> final(self).pos == old(self).pos && final(self).errors@ == old(self).errors@,
        decreases old(self).tokens@.len() - old(self).pos, 0nat,
    {
        if !(self.at(TokenKind::ColonColon) && self.peek_kind_at(1) == Some(TokenKind::Lt)) {
            return None;
        }
        self.bump();
        self.bump();
        Some(self.type_args_after_open())
    }

    fn type_args_after_open(&mut self) -> (r: Vec<TypeArg>)
        requires
            old(self).wf(),
        ensures
            r@.len() <= final(self).pos - old(self).pos,
            final(self).moved_or_reported(old(self)),
            final(self).wf(),
            final(self).evolved(old(self)),
            type_args_ok(
                old(self).tokens@,
                old(self).source.spec_bytes(),
                old(self).pos as int,
                final(self).pos as int,
                r@,
            ),
        decreases old(self).tokens@.len() - old(self).pos, 1nat,
    {
        let mut args: Vec<TypeArg> = Vec::new();
        let ghost mut ks: Seq<int> = Seq::empty();
        loop
            invariant
                self.wf(),
                self.evolved(old(self)),
                args@.len() <= self.pos - old(self).pos,
                type_args_at(self.tokens@, self.source.spec_bytes(), old(self).pos as int, self.pos as int, args@, ks),
            decreases self.tokens@.len() - self.pos,
        {
            if self.at(TokenKind::Gt) || self.eof() {
                break;
            }
            let ghost k = self.pos as int;
            let ghost prev = args@;
            // `type_arg = type | IDENT "=" type`: commit to the
            // associated-type binding by peeking `IDENT "="`.
            if self.at(TokenKind::Ident) && self.peek_kind_at(1) == Some(TokenKind::Eq) {
                let mut pushed = false;
                match self.ident() {
                    Some(name) => {
                        if self.eat(TokenKind::Eq).is_some() {
                            match self.ty() {
                                Some(ty) => {
                                    args.push(TypeArg::Assoc { name, ty });
                                    pushed = true;
                                    proof {
                                        ks = ks.push(k);
                                        assert(args@ =~= prev.push(args@.last()));
                                    }
                                },
                                None => {},
                            }
                        }
                    },
                    None => {},
                }
                if !pushed {
                    self.recover_until(TokenKind::Comma, TokenKind::Gt);
                }
            } else {
                match self.ty() {
                    Some(ty) => {
                        args.push(TypeArg::Type(ty));
                        proof {
                            ks = ks.push(k);
                            assert(args@ =~= prev.push(args@.last()));
                        }
                    },
                    None => self.recover_until(TokenKind::Comma, TokenKind::Gt),
                }
            }
            if self.eat(TokenKind::Comma).is_none() {
                break;
            }
        }
        let _ = self.expect(TokenKind::Gt);
        proof {
            assert(type_args_at(old(self).tokens@, old(self).source.spec_bytes(), old(self).pos as int, self.pos as int, args@, ks));
            assert(type_args_ok(old(self).tokens@, old(self).source.spec_bytes(), old(self).pos as int, self.pos as int, args@));
        }
        args
    }
}

} // verus!
