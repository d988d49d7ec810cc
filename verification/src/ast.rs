//! Shared syntax data structures: spans, identifiers and the typed AST.
use vstd::prelude::*;

verus! {

/// A half-open byte range `start..end` into the source text.
#[derive(Debug, Clone, Copy, PartialEq, Eq, Structural, Default)]
pub struct Span {
    pub start: usize,
    pub end: usize,
}

/// The smallest range covering both `a` and `b`.
pub open spec fn spec_join(a: Span, b: Span) -> Span {
    Span {
        start: if a.start <= b.start { a.start } else { b.start },
        end: if a.end >= b.end { a.end } else { b.end },
    }
}

/// `outer` covers every byte of `inner` (as ranges of positions).
pub open spec fn covers(outer: Span, inner: Span) -> bool {
    outer.start <= inner.start && inner.end <= outer.end
}

impl Span {
    pub fn new(start: usize, end: usize) -> (r: Self)
        ensures
            r.start == start,
            r.end == end,
    {
        Self { start, end }
    }

    /// The smallest span covering both `self` and `other`.
    pub fn join(self, other: Span) -> (r: Self)
        ensures
            r == spec_join(self, other),
    {
        let start = if self.start <= other.start {
            self.start
        } else {
            other.start
        };
        let end = if self.end >= other.end {
            self.end
        } else {
            other.end
        };
        Self { start, end }
    }
}

/// Joining is commutative.
pub proof fn join_commutative(a: Span, b: Span)
    ensures
        spec_join(a, b) == spec_join(b, a),
{
}

/// Joining is associative.
pub proof fn join_associative(a: Span, b: Span, c: Span)
    ensures
        spec_join(spec_join(a, b), c) == spec_join(a, spec_join(b, c)),
{
}

/// Joining a span with itself gives the same span.
pub proof fn join_idempotent(a: Span)
    ensures
        spec_join(a, a) == a,
{
}

/// The join covers both operands, and any span covering both operands covers the join:
/// the join is the least covering span.
pub proof fn join_is_least_cover(a: Span, b: Span, c: Span)
    ensures
        covers(spec_join(a, b), a),
        covers(spec_join(a, b), b),
        covers(c, a) && covers(c, b) ==> covers(c, spec_join(a, b)),
{
}

/// Joining preserves well-formedness: if both spans are ordered ranges
/// inside `0..len`, so is their join.
pub proof fn join_keeps_bounds(a: Span, b: Span, len: int)
    requires
        a.start <= a.end <= len,
        b.start <= b.end <= len,
    ensures
        spec_join(a, b).start <= spec_join(a, b).end <= len,
{
}

#[derive(Debug, Clone, PartialEq, Eq)]
pub struct Ident {
    pub name: String,
    pub span: Span,
}

impl Ident {
    pub fn new(name: &str, span: Span) -> (r: Self)
        ensures
            r.name@ == name@,
            r.span == span,
    {
        Self { name: name.to_owned(), span }
    }
}

#[derive(Debug, PartialEq)]
pub struct Program {
    pub items: Vec<Item>,
}

#[derive(Debug, PartialEq)]
pub struct Item {
    pub attrs: Vec<Attribute>,
    pub visibility: Visibility,
    pub kind: ItemKind,
    pub span: Span,
}

#[derive(Debug, Clone, Copy, PartialEq, Eq, Structural, Default)]
pub enum Visibility {
    Public,
    #[default]
    Private,
}

#[derive(Debug, PartialEq)]
pub enum ItemKind {
    Function(Function),
    Struct(Struct),
    Enum(Enum),
    Actor(Actor),
    Module(Module),
    Use(Use),
    Const(Const),
    TypeAlias(TypeAlias),
    Trait(Trait),
    Impl(ImplBlock),
    OnchainModule(OnchainModule),
    ExternBlock(ExternBlock),
}

/// `@name` or `@name(args)`; the span runs from `@` to the closing paren
/// (or to the end of the name when there are no arguments).
#[derive(Debug, PartialEq)]
pub struct Attribute {
    pub name: Ident,
    pub args: Vec<AttrArg>,
    pub span: Span,
}

/// One attribute argument, in its most specific form.
#[derive(Debug, PartialEq)]
pub enum AttrArg {
    /// A bare identifier: `Debug`.
    Ident(Ident),
    /// `name: expr`.
    Named { name: Ident, value: Expr },
    /// `name = expr`.
    Assigned { name: Ident, value: Expr },
    /// `name(expr)`.
    Call { name: Ident, arg: Expr },
    /// Any other expression.
    Expr(Expr),
}

#[derive(Debug, PartialEq)]
pub struct Function {
    pub name: Ident,
    pub visibility: Visibility,
    pub is_async: bool,
    pub is_offchain: bool,
    pub params: Vec<Param>,
    pub return_type: Option<Type>,
    pub body: Option<Block>,
}

#[derive(Debug, PartialEq)]
pub enum Param {
    Receiver { mutable: bool, by_ref: bool, span: Span },
    Named { name: Ident, ty: Type },
}

#[derive(Debug, PartialEq)]
pub struct Struct {
    pub name: Ident,
    pub fields: Vec<Field>,
}

#[derive(Debug, PartialEq)]
pub struct Field {
    pub name: Ident,
    pub ty: Type,
    pub visibility: Visibility,
}

#[derive(Debug, PartialEq)]
pub struct Enum {
    pub name: Ident,
    pub variants: Vec<Variant>,
    pub onchain: bool,
}

#[derive(Debug, PartialEq)]
pub struct Variant {
    pub name: Ident,
    pub kind: VariantKind,
}

#[derive(Debug, PartialEq)]
pub enum VariantKind {
    Unit,
    Tuple(Vec<Type>),
    Struct(Vec<Field>),
}

#[derive(Debug, PartialEq)]
pub struct Actor {
    pub name: Ident,
    pub fields: Vec<Field>,
    pub handlers: Vec<Handler>,
}

/// An actor message handler together with its attributes.
#[derive(Debug, PartialEq)]
pub struct Handler {
    pub attrs: Vec<Attribute>,
    pub function: Function,
}

#[derive(Debug, PartialEq)]
pub struct Module {
    pub name: Ident,
    pub items: Vec<Item>,
    pub inline: bool,
}

#[derive(Debug, PartialEq)]
pub struct Use {
    pub path: Path,
}

#[derive(Debug, PartialEq)]
pub struct Const {
    pub name: Ident,
    pub ty: Type,
    pub value: Expr,
}

#[derive(Debug, PartialEq)]
pub struct TypeAlias {
    pub name: Ident,
    pub ty: Type,
}

#[derive(Debug, PartialEq)]
pub struct Trait {
    pub name: Ident,
}

#[derive(Debug, PartialEq)]
pub struct ImplBlock {
    pub trait_ref: Option<TraitRef>,
    pub target: Type,
}

/// `type_path [ type_args ]`.
#[derive(Debug, PartialEq)]
pub struct TraitRef {
    pub path: Path,
    pub args: Vec<TypeArg>,
}

#[derive(Debug, PartialEq)]
pub struct OnchainModule {
    pub name: Ident,
    pub items: Vec<Item>,
}

#[derive(Debug, PartialEq)]
pub struct ExternBlock {
    pub target: String,
    pub functions: Vec<Function>,
}

#[derive(Debug, PartialEq)]
pub enum Type {
    Primitive(String),
    Path { path: Path, args: Vec<TypeArg> },
    Reference { mutable: bool, inner: Box<Type> },
    Array { inner: Box<Type>, len: Box<Expr> },
    Slice(Box<Type>),
    Tuple(Vec<Type>),
    Function { params: Vec<Type>, ret: Box<Type> },
    Dyn(TraitRef),
}

#[derive(Debug, PartialEq)]
pub enum TypeArg {
    Type(Type),
    Assoc { name: Ident, ty: Type },
}

#[derive(Debug, PartialEq)]
pub struct Path {
    pub segments: Vec<String>,
    pub span: Span,
}

#[derive(Debug, PartialEq)]
pub struct Block {
    pub statements: Vec<Stmt>,
    pub tail: Option<Box<Expr>>,
    pub span: Span,
}

#[derive(Debug, PartialEq)]
pub enum Stmt {
    Let { name: String, ty: Option<Type>, value: Expr },
    Expr(Expr),
    Return(Option<Expr>),
    Break,
    Continue,
}

#[derive(Debug, PartialEq)]
pub struct Expr {
    pub kind: ExprKind,
    pub span: Span,
}

#[derive(Debug, Clone, Copy, PartialEq, Eq, Structural)]
pub enum BinaryOp {
    Add,
    Sub,
    Mul,
    Div,
    Rem,
    Eq,
    Ne,
    Lt,
    Gt,
    Le,
    Ge,
    And,
    Or,
    Range,
    RangeInclusive,
    Pipe,
}

#[derive(Debug, Clone, Copy, PartialEq, Eq, Structural)]
pub enum UnaryOp {
    Not,
    Neg,
    Deref,
    Ref,
}

#[derive(Debug, PartialEq)]
pub enum ExprKind {
    Literal(Literal),
    Path(Path),
    Call { callee: Box<Expr>, type_args: Vec<TypeArg>, args: Vec<Expr> },
    Field { base: Box<Expr>, name: String },
    Index { base: Box<Expr>, index: Box<Expr> },
    Unary { op: UnaryOp, expr: Box<Expr> },
    Binary { op: BinaryOp, left: Box<Expr>, right: Box<Expr> },
    Assign { target: Box<Expr>, value: Box<Expr> },
    Block(Block),
    If { condition: Box<Expr>, then_block: Block, else_branch: Option<Box<Expr>> },
    IfLet {
        pattern: Pattern,
        scrutinee: Box<Expr>,
        then_block: Block,
        else_block: Option<Block>,
    },
    While { condition: Box<Expr>, body: Block },
    WhileLet { pattern: Pattern, scrutinee: Box<Expr>, body: Block },
    For { pattern: Pattern, iterable: Box<Expr>, body: Block },
    Loop { body: Block },
    Match { scrutinee: Box<Expr>, arms: Vec<MatchArm> },
    StructLiteral { path: Path, fields: Vec<(String, Option<Expr>)> },
    VecLiteral(Vec<Expr>),
    VecRepeat { value: Box<Expr>, count: Box<Expr> },
    ErrorProp(Box<Expr>),
    Await(Box<Expr>),
    Cast { expr: Box<Expr>, ty: Type },
}

/// `pattern [ "if" expr ] "=>" body`.
#[derive(Debug, PartialEq)]
pub struct MatchArm {
    pub pattern: Pattern,
    pub guard: Option<Expr>,
    pub body: Expr,
}

#[derive(Debug, PartialEq)]
pub struct Pattern {
    pub kind: PatternKind,
    pub span: Span,
}

#[derive(Debug, PartialEq)]
pub enum PatternKind {
    Wildcard,
    Literal(Literal),
    Binding { name: String, is_ref: bool },
    Path(Path),
    Call { path: Path, args: Vec<Pattern> },
    Struct { path: Path, fields: Vec<(String, Pattern)>, rest: bool },
    Tuple(Vec<Pattern>),
    Or { left: Box<Pattern>, right: Box<Pattern> },
}

#[derive(Debug, Clone, PartialEq, Eq)]
pub enum Literal {
    Int(String),
    Float(String),
    String(String),
    Char(String),
    Bool(bool),
}

} // verus!
