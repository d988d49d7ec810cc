//! UTF-8 lexer for Sploosh source text.
//!
//! The lexer walks the UTF-8 bytes of the source. Positions are byte offsets
//! and always sit on character boundaries, so every token's span can be cut
//! out of the source as a `&str`.
use vstd::prelude::*;
use vstd::string::*;
use vstd::utf8::*;
use crate::ast::Span;
use crate::text::{is_prefix, join_text, lemma_ascii_step, lemma_boundary_iff, range_chars, range_fits, str_eq, substring};

verus! {

broadcast use vstd::utf8::encode_utf8_valid_utf8, vstd::utf8::encode_utf8_decode_utf8;

#[derive(Debug, Clone, Copy, PartialEq, Eq, Structural)]
pub struct Token {
    pub kind: TokenKind,
    pub span: Span,
}

#[derive(Debug, Clone, Copy, PartialEq, Eq, Structural)]
pub enum TokenKind {
    Ident,
    Keyword(Keyword),
    IntLit,
    FloatLit,
    StringLit,
    CharLit,
    Lifetime,
    DocComment,
    At,
    Hash,
    Bang,
    Dot,
    DotDot,
    DotDotEq,
    Comma,
    Colon,
    ColonColon,
    Semi,
    Arrow,
    FatArrow,
    Pipe,
    PipePipe,
    PipeGt,
    Amp,
    AmpAmp,
    Eq,
    EqEq,
    Ne,
    Lt,
    Le,
    Gt,
    Ge,
    Plus,
    Minus,
    Star,
    Slash,
    Percent,
    Question,
    LParen,
    RParen,
    LBrace,
    RBrace,
    LBracket,
    RBracket,
}

#[derive(Debug, Clone, Copy, PartialEq, Eq, Structural)]
pub enum Keyword {
    Fn,
    Let,
    Const,
    Type,
    Struct,
    Enum,
    Trait,
    Impl,
    Mod,
    Use,
    Pub,
    Extern,
    If,
    Else,
    Match,
    For,
    In,
    While,
    Loop,
    Break,
    Continue,
    Return,
    SelfValue,
    SelfType,
    True,
    False,
    As,
    Actor,
    Spawn,
    Async,
    Await,
    Select,
    Move,
    Onchain,
    Offchain,
    Emit,
}

/// The source spelling of each reserved keyword.
pub open spec fn keyword_text(k: Keyword) -> Seq<char> {
    match k {
        Keyword::Fn => "fn"@,
        Keyword::Let => "let"@,
        Keyword::Const => "const"@,
        Keyword::Type => "type"@,
        Keyword::Struct => "struct"@,
        Keyword::Enum => "enum"@,
        Keyword::Trait => "trait"@,
        Keyword::Impl => "impl"@,
        Keyword::Mod => "mod"@,
        Keyword::Use => "use"@,
        Keyword::Pub => "pub"@,
        Keyword::Extern => "extern"@,
        Keyword::If => "if"@,
        Keyword::Else => "else"@,
        Keyword::Match => "match"@,
        Keyword::For => "for"@,
        Keyword::In => "in"@,
        Keyword::While => "while"@,
        Keyword::Loop => "loop"@,
        Keyword::Break => "break"@,
        Keyword::Continue => "continue"@,
        Keyword::Return => "return"@,
        Keyword::SelfValue => "self"@,
        Keyword::SelfType => "Self"@,
        Keyword::True => "true"@,
        Keyword::False => "false"@,
        Keyword::As => "as"@,
        Keyword::Actor => "actor"@,
        Keyword::Spawn => "spawn"@,
        Keyword::Async => "async"@,
        Keyword::Await => "await"@,
        Keyword::Select => "select"@,
        Keyword::Move => "move"@,
        Keyword::Onchain => "onchain"@,
        Keyword::Offchain => "offchain"@,
        Keyword::Emit => "emit"@,
    }
}

/// The reserved keyword spelled by `t`, if any.
pub open spec fn spec_from_reserved(t: Seq<char>) -> Option<Keyword> {
    if t == "fn"@ { Some(Keyword::Fn) }
    else if t == "let"@ { Some(Keyword::Let) }
    else if t == "const"@ { Some(Keyword::Const) }
    else if t == "type"@ { Some(Keyword::Type) }
    else if t == "struct"@ { Some(Keyword::Struct) }
    else if t == "enum"@ { Some(Keyword::Enum) }
    else if t == "trait"@ { Some(Keyword::Trait) }
    else if t == "impl"@ { Some(Keyword::Impl) }
    else if t == "mod"@ { Some(Keyword::Mod) }
    else if t == "use"@ { Some(Keyword::Use) }
    else if t == "pub"@ { Some(Keyword::Pub) }
    else if t == "extern"@ { Some(Keyword::Extern) }
    else if t == "if"@ { Some(Keyword::If) }
    else if t == "else"@ { Some(Keyword::Else) }
    else if t == "match"@ { Some(Keyword::Match) }
    else if t == "for"@ { Some(Keyword::For) }
    else if t == "in"@ { Some(Keyword::In) }
    else if t == "while"@ { Some(Keyword::While) }
    else if t == "loop"@ { Some(Keyword::Loop) }
    else if t == "break"@ { Some(Keyword::Break) }
    else if t == "continue"@ { Some(Keyword::Continue) }
    else if t == "return"@ { Some(Keyword::Return) }
    else if t == "self"@ { Some(Keyword::SelfValue) }
    else if t == "Self"@ { Some(Keyword::SelfType) }
    else if t == "true"@ { Some(Keyword::True) }
    else if t == "false"@ { Some(Keyword::False) }
    else if t == "as"@ { Some(Keyword::As) }
    else if t == "actor"@ { Some(Keyword::Actor) }
    else if t == "spawn"@ { Some(Keyword::Spawn) }
    else if t == "async"@ { Some(Keyword::Async) }
    else if t == "await"@ { Some(Keyword::Await) }
    else if t == "select"@ { Some(Keyword::Select) }
    else if t == "move"@ { Some(Keyword::Move) }
    else if t == "onchain"@ { Some(Keyword::Onchain) }
    else if t == "offchain"@ { Some(Keyword::Offchain) }
    else if t == "emit"@ { Some(Keyword::Emit) }
    else { None }
}

/// Words that are keywords only in context and otherwise lex as identifiers.
pub open spec fn spec_is_contextual(t: Seq<char>) -> bool {
    t == "send"@ || t == "recv"@ || t == "storage"@ || t == "mut"@ || t == "dyn"@
        || t == "ref"@ || t == "crate"@ || t == "super"@ || t == "where"@
}

impl Keyword {
    pub fn from_reserved(text: &str) -> (r: Option<Self>)
        ensures
            r == spec_from_reserved(text@),
    {
        if str_eq(text, "fn") { Some(Self::Fn) }
        else if str_eq(text, "let") { Some(Self::Let) }
        else if str_eq(text, "const") { Some(Self::Const) }
        else if str_eq(text, "type") { Some(Self::Type) }
        else if str_eq(text, "struct") { Some(Self::Struct) }
        else if str_eq(text, "enum") { Some(Self::Enum) }
        else if str_eq(text, "trait") { Some(Self::Trait) }
        else if str_eq(text, "impl") { Some(Self::Impl) }
        else if str_eq(text, "mod") { Some(Self::Mod) }
        else if str_eq(text, "use") { Some(Self::Use) }
        else if str_eq(text, "pub") { Some(Self::Pub) }
        else if str_eq(text, "extern") { Some(Self::Extern) }
        else if str_eq(text, "if") { Some(Self::If) }
        else if str_eq(text, "else") { Some(Self::Else) }
        else if str_eq(text, "match") { Some(Self::Match) }
        else if str_eq(text, "for") { Some(Self::For) }
        else if str_eq(text, "in") { Some(Self::In) }
        else if str_eq(text, "while") { Some(Self::While) }
        else if str_eq(text, "loop") { Some(Self::Loop) }
        else if str_eq(text, "break") { Some(Self::Break) }
        else if str_eq(text, "continue") { Some(Self::Continue) }
        else if str_eq(text, "return") { Some(Self::Return) }
        else if str_eq(text, "self") { Some(Self::SelfValue) }
        else if str_eq(text, "Self") { Some(Self::SelfType) }
        else if str_eq(text, "true") { Some(Self::True) }
        else if str_eq(text, "false") { Some(Self::False) }
        else if str_eq(text, "as") { Some(Self::As) }
        else if str_eq(text, "actor") { Some(Self::Actor) }
        else if str_eq(text, "spawn") { Some(Self::Spawn) }
        else if str_eq(text, "async") { Some(Self::Async) }
        else if str_eq(text, "await") { Some(Self::Await) }
        else if str_eq(text, "select") { Some(Self::Select) }
        else if str_eq(text, "move") { Some(Self::Move) }
        else if str_eq(text, "onchain") { Some(Self::Onchain) }
        else if str_eq(text, "offchain") { Some(Self::Offchain) }
        else if str_eq(text, "emit") { Some(Self::Emit) }
        else { None }
    }
}

pub fn is_contextual_keyword(text: &str) -> (r: bool)
    ensures
        r == spec_is_contextual(text@),
{
    str_eq(text, "send") || str_eq(text, "recv") || str_eq(text, "storage") || str_eq(text, "mut")
        || str_eq(text, "dyn") || str_eq(text, "ref") || str_eq(text, "crate") || str_eq(
        text,
        "super",
    ) || str_eq(text, "where")
}

#[derive(Debug, Clone, PartialEq, Eq)]
pub struct LexError {
    pub message: String,
    pub span: Span,
}

/* Byte classes */

pub open spec fn is_digit_byte(b: u8) -> bool {
    0x30 <= b <= 0x39
}

pub open spec fn is_hex_byte(b: u8) -> bool {
    is_digit_byte(b) || (0x41 <= b <= 0x46) || (0x61 <= b <= 0x66)
}

pub open spec fn ident_start_byte(b: u8) -> bool {
    (0x41 <= b <= 0x5a) || (0x61 <= b <= 0x7a) || b == 0x5f
}

pub open spec fn ident_continue_byte(b: u8) -> bool {
    ident_start_byte(b) || is_digit_byte(b)
}

/// An identifier-shaped word: a start byte followed by continue bytes.
pub open spec fn is_word(t: Seq<u8>) -> bool {
    &&& t.len() >= 1
    &&& ident_start_byte(t[0])
    &&& forall|i: int| 1 <= i < t.len() ==> ident_continue_byte(#[trigger] t[i])
}

/// The fixed spelling of each punctuation token kind (empty for the others).
pub open spec fn punct_bytes(kind: TokenKind) -> Seq<u8> {
    match kind {
        TokenKind::At => seq![0x40u8],
        TokenKind::Hash => seq![0x23u8],
        TokenKind::Bang => seq![0x21u8],
        TokenKind::Dot => seq![0x2eu8],
        TokenKind::DotDot => seq![0x2eu8, 0x2eu8],
        TokenKind::DotDotEq => seq![0x2eu8, 0x2eu8, 0x3du8],
        TokenKind::Comma => seq![0x2cu8],
        TokenKind::Colon => seq![0x3au8],
        TokenKind::ColonColon => seq![0x3au8, 0x3au8],
        TokenKind::Semi => seq![0x3bu8],
        TokenKind::Arrow => seq![0x2du8, 0x3eu8],
        TokenKind::FatArrow => seq![0x3du8, 0x3eu8],
        TokenKind::Pipe => seq![0x7cu8],
        TokenKind::PipePipe => seq![0x7cu8, 0x7cu8],
        TokenKind::PipeGt => seq![0x7cu8, 0x3eu8],
        TokenKind::Amp => seq![0x26u8],
        TokenKind::AmpAmp => seq![0x26u8, 0x26u8],
        TokenKind::Eq => seq![0x3du8],
        TokenKind::EqEq => seq![0x3du8, 0x3du8],
        TokenKind::Ne => seq![0x21u8, 0x3du8],
        TokenKind::Lt => seq![0x3cu8],
        TokenKind::Le => seq![0x3cu8, 0x3du8],
        TokenKind::Gt => seq![0x3eu8],
        TokenKind::Ge => seq![0x3eu8, 0x3du8],
        TokenKind::Plus => seq![0x2bu8],
        TokenKind::Minus => seq![0x2du8],
        TokenKind::Star => seq![0x2au8],
        TokenKind::Slash => seq![0x2fu8],
        TokenKind::Percent => seq![0x25u8],
        TokenKind::Question => seq![0x3fu8],
        TokenKind::LParen => seq![0x28u8],
        TokenKind::RParen => seq![0x29u8],
        TokenKind::LBrace => seq![0x7bu8],
        TokenKind::RBrace => seq![0x7du8],
        TokenKind::LBracket => seq![0x5bu8],
        TokenKind::RBracket => seq![0x5du8],
        _ => seq![],
    }
}

/// What the text of a token of each kind looks like.
pub open spec fn token_shape_ok(kind: TokenKind, t: Seq<u8>) -> bool {
    match kind {
        TokenKind::Ident => is_word(t) && spec_from_reserved(decode_utf8(t)) is None,
        TokenKind::Keyword(k) => is_word(t) && spec_from_reserved(decode_utf8(t)) == Some(k),
        TokenKind::IntLit | TokenKind::FloatLit => t.len() >= 1 && is_digit_byte(t[0]),
        TokenKind::StringLit => t.len() >= 2 && t[0] == 0x22u8 && t[t.len() - 1] == 0x22u8,
        TokenKind::CharLit => t.len() >= 2 && t[0] == 0x27u8 && t[t.len() - 1] == 0x27u8,
        TokenKind::Lifetime => t.len() >= 2 && t[0] == 0x27u8 && ident_start_byte(t[1]),
        TokenKind::DocComment => t.len() >= 3 && t[0] == 0x2fu8 && t[1] == 0x2fu8 && t[2]
            == 0x2fu8,
        _ => t == punct_bytes(kind),
    }
}

/// A token lies on character boundaries of the source, is non-empty, and its
/// text has the shape its kind promises.
pub open spec fn token_fits(tok: Token, bytes: Seq<u8>) -> bool {
    &&& range_fits(bytes, tok.span.start as int, tok.span.end as int)
    &&& tok.span.start < tok.span.end
    &&& token_shape_ok(tok.kind, bytes.subrange(tok.span.start as int, tok.span.end as int))
}

/// Every token fits the source and the tokens come in source order without overlap.
pub open spec fn tokens_well_formed(toks: Seq<Token>, bytes: Seq<u8>) -> bool {
    &&& forall|i: int| 0 <= i < toks.len() ==> token_fits(#[trigger] toks[i], bytes)
    &&& forall|i: int, j: int|
        0 <= i < j < toks.len() ==> (#[trigger] toks[i]).span.end <= (#[trigger] toks[j]).span.start
}

pub open spec fn error_fits(e: LexError, len: int) -> bool {
    e.span.start <= e.span.end <= len
}

/// The byte at `end`, if there is one, could not have extended a token of
/// this kind: words and operators are always taken as long as possible, and
/// `//` always opens a comment rather than being two slashes.
pub open spec fn ends_maximally(kind: TokenKind, bytes: Seq<u8>, end: int) -> bool {
    end < bytes.len() ==> {
        let next = bytes[end];
        match kind {
            TokenKind::Ident => !ident_continue_byte(next),
            TokenKind::Keyword(_) => !ident_continue_byte(next),
            TokenKind::Slash => next != 0x2fu8,
            TokenKind::Bang => next != 0x3du8,
            TokenKind::Dot => next != 0x2eu8,
            TokenKind::DotDot => next != 0x3du8,
            TokenKind::Colon => next != 0x3au8,
            TokenKind::Minus => next != 0x3eu8,
            TokenKind::Eq => next != 0x3eu8 && next != 0x3du8,
            TokenKind::Pipe => next != 0x3eu8 && next != 0x7cu8,
            TokenKind::Amp => next != 0x26u8,
            TokenKind::Lt => next != 0x3du8,
            TokenKind::Gt => next != 0x3du8,
            _ => true,
        }
    }
}

/// A token is the longest match at its position.
pub open spec fn token_maximal(tok: Token, bytes: Seq<u8>) -> bool {
    ends_maximally(tok.kind, bytes, tok.span.end as int)
}

/// The ASCII whitespace bytes the lexer skips.
pub open spec fn is_space_byte(b: u8) -> bool {
    b == 0x20 || b == 0x09 || b == 0x0a || b == 0x0c || b == 0x0d
}

pub open spec fn is_line_break(b: u8) -> bool {
    b == 0x0a || b == 0x0d
}

/// Byte `p` follows a `//` on the same line: it belongs to a line comment.
pub open spec fn in_line_comment(bytes: Seq<u8>, p: int) -> bool {
    exists|c: int|
        #![trigger bytes[c]]
        0 <= c <= p && c + 1 < bytes.len() && bytes[c] == 0x2fu8 && bytes[c + 1] == 0x2fu8
            && forall|k: int| c <= k <= p ==> !is_line_break(#[trigger] bytes[k])
}

/// Byte `p` lies inside the span of one of the tokens.
pub open spec fn in_some_token(toks: Seq<Token>, p: int) -> bool {
    exists|i: int| 0 <= i < toks.len() && (#[trigger] toks[i]).span.start <= p < toks[i].span.end
}

/* Literal bodies */

/// The value of a hex digit byte.
pub open spec fn hex_digit(b: u8) -> int {
    if b <= 0x39 {
        b - 0x30
    } else if b <= 0x46 {
        b - 0x41 + 10
    } else {
        b - 0x61 + 10
    }
}

/// The value of the hex digits `bytes[start..end]`, most significant first.
pub open spec fn hex_run_value(bytes: Seq<u8>, start: int, end: int) -> int
    decreases end - start,
{
    if end <= start {
        0
    } else {
        hex_run_value(bytes, start, end - 1) * 16 + hex_digit(bytes[end - 1])
    }
}

/// The end of the run of hex digits that starts at `k`.
pub open spec fn hex_run_end(bytes: Seq<u8>, k: int) -> int
    decreases bytes.len() - k,
{
    if 0 <= k < bytes.len() && is_hex_byte(bytes[k]) {
        hex_run_end(bytes, k + 1)
    } else {
        k
    }
}

/// The end of the run of spaces and tabs that starts at `k`.
pub open spec fn blank_run_end(bytes: Seq<u8>, k: int) -> int
    decreases bytes.len() - k,
{
    if 0 <= k < bytes.len() && (bytes[k] == 0x20u8 || bytes[k] == 0x09u8) {
        blank_run_end(bytes, k + 1)
    } else {
        k
    }
}

/// The single-character escapes `\n \r \t \\ \" \' \0`.
pub open spec fn simple_escape_byte(c: u8) -> bool {
    c == 0x6eu8 || c == 0x72u8 || c == 0x74u8 || c == 0x5cu8 || c == 0x22u8 || c == 0x27u8
        || c == 0x30u8
}

/// A Unicode scalar value: at most `0x10FFFF` and not a surrogate.
pub open spec fn is_scalar_value(v: int) -> bool {
    0 <= v <= 0x10ffff && !(0xd800 <= v <= 0xdfff)
}

/// Where the escape sequence at the backslash `i` ends, if it is valid: a
/// single-character escape, `\x` with two hex digits up to `7F`, `\u{..}`
/// with one to six hex digits naming a scalar value, or a line break
/// followed by the spaces and tabs that continue the line.
pub open spec fn escape_end(bytes: Seq<u8>, i: int) -> Option<int> {
    if !(0 <= i && i + 1 < bytes.len() && bytes[i] == 0x5cu8) {
        None
    } else {
        let c = bytes[i + 1];
        if simple_escape_byte(c) {
            Some(i + 2)
        } else if c == 0x78u8 {
            if i + 3 < bytes.len() && is_hex_byte(bytes[i + 2]) && is_hex_byte(bytes[i + 3])
                && hex_run_value(bytes, i + 2, i + 4) <= 0x7f {
                Some(i + 4)
            } else {
                None
            }
        } else if c == 0x75u8 {
            let e = hex_run_end(bytes, i + 3);
            if i + 2 < bytes.len() && bytes[i + 2] == 0x7bu8 && i + 4 <= e <= i + 9 && e
                < bytes.len() && bytes[e] == 0x7du8 && is_scalar_value(
                hex_run_value(bytes, i + 3, e),
            ) {
                Some(e + 1)
            } else {
                None
            }
        } else if is_line_break(c) {
            Some(blank_run_end(bytes, i + 2))
        } else {
            None
        }
    }
}

/// `bytes[a..b]` is a string literal body: characters other than `"` and
/// `\`, and valid escape sequences.
pub open spec fn string_body_ok(bytes: Seq<u8>, a: int, b: int) -> bool
    decreases b - a,
{
    if a >= b {
        a == b
    } else if bytes[a] == 0x5cu8 {
        match escape_end(bytes, a) {
            Some(j) => a < j <= b && string_body_ok(bytes, j, b),
            None => false,
        }
    } else {
        bytes[a] != 0x22u8 && string_body_ok(bytes, a + 1, b)
    }
}

/// `bytes[a..b]` is a character literal body: empty, one valid escape
/// sequence, or one character other than `'`, `\` and a line break.
pub open spec fn char_body_ok(bytes: Seq<u8>, a: int, b: int) -> bool {
    ||| a == b
    ||| escape_end(bytes, a) == Some(b)
    ||| {
        &&& a < b
        &&& bytes[a] != 0x27u8 && bytes[a] != 0x5cu8 && !is_line_break(bytes[a])
        &&& forall|k: int| a < k < b ==> 0x80 <= #[trigger] bytes[k]
    }
}

/// The numeric type suffixes, in the order they are tried.
pub open spec fn numeric_suffix_bytes(i: int) -> Seq<u8> {
    if i == 0 {
        seq![0x69u8, 0x31u8, 0x32u8, 0x38u8]
    } else if i == 1 {
        seq![0x75u8, 0x31u8, 0x32u8, 0x38u8]
    } else if i == 2 {
        seq![0x75u8, 0x32u8, 0x35u8, 0x36u8]
    } else if i == 3 {
        seq![0x69u8, 0x36u8, 0x34u8]
    } else if i == 4 {
        seq![0x75u8, 0x36u8, 0x34u8]
    } else if i == 5 {
        seq![0x66u8, 0x36u8, 0x34u8]
    } else if i == 6 {
        seq![0x69u8, 0x33u8, 0x32u8]
    } else if i == 7 {
        seq![0x75u8, 0x33u8, 0x32u8]
    } else if i == 8 {
        seq![0x66u8, 0x33u8, 0x32u8]
    } else if i == 9 {
        seq![0x69u8, 0x31u8, 0x36u8]
    } else if i == 10 {
        seq![0x75u8, 0x31u8, 0x36u8]
    } else if i == 11 {
        seq![0x69u8, 0x38u8]
    } else {
        seq![0x75u8, 0x38u8]
    }
}

/// The text at `pos` starts with the suffix of index `i`.
pub open spec fn starts_with_suffix(bytes: Seq<u8>, pos: int, i: int) -> bool {
    let suffix = numeric_suffix_bytes(i);
    pos + suffix.len() <= bytes.len() && bytes.subrange(pos, pos + suffix.len()) == suffix
}

/// `bytes[start..end]` ends with the suffix of index `i`.
pub open spec fn ends_with_suffix(bytes: Seq<u8>, start: int, end: int, i: int) -> bool {
    let suffix = numeric_suffix_bytes(i);
    start + suffix.len() <= end && bytes.subrange(end - suffix.len(), end) == suffix
}

/// Where the body of the literal `bytes[start..end]` ends, trying the
/// suffixes from index `i` on.
pub open spec fn body_end_from(bytes: Seq<u8>, start: int, end: int, i: int) -> int
    decreases 13 - i,
{
    if i >= 13 {
        end
    } else if ends_with_suffix(bytes, start, end, i) {
        end - numeric_suffix_bytes(i).len()
    } else {
        body_end_from(bytes, start, end, i + 1)
    }
}

/// The body of a numeric literal: its text without the first suffix, in
/// table order, that ends it.
pub open spec fn numeric_body_end(bytes: Seq<u8>, start: int, end: int) -> int {
    body_end_from(bytes, start, end, 0)
}

/// Every `_` in `bytes[start..end]` has a hex digit on each side, inside
/// that range.
pub open spec fn separators_ok(bytes: Seq<u8>, start: int, end: int) -> bool {
    forall|k: int|
        start <= k < end && #[trigger] bytes[k] == 0x5fu8 ==> start < k && k + 1 < end
            && is_hex_byte(bytes[k - 1]) && is_hex_byte(bytes[k + 1])
}

/// Every `.` in `bytes[start..end]` is followed by a decimal digit.
pub open spec fn dots_ok(bytes: Seq<u8>, start: int, end: int) -> bool {
    forall|k: int|
        start <= k < end && #[trigger] bytes[k] == 0x2eu8 ==> k + 1 < end && is_digit_byte(
            bytes[k + 1],
        )
}

/// The literal kinds whose text the lexer validates beyond its shape.
pub open spec fn has_checked_body(kind: TokenKind) -> bool {
    kind is StringLit || kind is CharLit || kind is IntLit || kind is FloatLit
}

/// String and character literal tokens hold valid bodies between their
/// quotes; numeric literals place separators only between digits and follow
/// a decimal point with a digit.
pub open spec fn literal_ok(tok: Token, bytes: Seq<u8>) -> bool {
    let s = tok.span.start as int;
    let e = tok.span.end as int;
    match tok.kind {
        TokenKind::StringLit => string_body_ok(bytes, s + 1, e - 1),
        TokenKind::CharLit => char_body_ok(bytes, s + 1, e - 1),
        TokenKind::IntLit => separators_ok(bytes, s, numeric_body_end(bytes, s, e)) && dots_ok(
            bytes,
            s,
            e,
        ),
        TokenKind::FloatLit => separators_ok(bytes, s, numeric_body_end(bytes, s, e)) && dots_ok(
            bytes,
            s,
            e,
        ),
        _ => true,
    }
}

/// Byte `p` is either part of a token, whitespace, or comment text: nothing
/// else may be dropped by a successful lex.
pub open spec fn byte_accounted(toks: Seq<Token>, bytes: Seq<u8>, p: int) -> bool {
    in_some_token(toks, p) || is_space_byte(bytes[p]) || in_line_comment(bytes, p)
}

impl Token {
    /// The source text of this token.
    pub fn text<'a>(&self, source: &'a str) -> (r: &'a str)
        requires
            range_fits(source.spec_bytes(), self.span.start as int, self.span.end as int),
        ensures
            r.spec_bytes() == source.spec_bytes().subrange(
                self.span.start as int,
                self.span.end as int,
            ),
            r@ == range_chars(source.spec_bytes(), self.span.start as int, self.span.end as int),
    {
        substring(source, self.span.start, self.span.end)
    }
}

/// A word that is a contextual keyword is always lexed as an identifier.
pub proof fn contextual_words_lex_as_identifiers(kind: TokenKind, text: Seq<u8>)
    requires
        token_shape_ok(kind, text),
        is_word(text),
        spec_is_contextual(decode_utf8(text)),
    ensures
        kind == TokenKind::Ident,
{
    lemma_keyword_spellings();
    assert(spec_from_reserved(decode_utf8(text)) is None);
}

/// A word spelling a reserved keyword is always lexed as that keyword.
pub proof fn reserved_words_lex_as_keywords(kind: TokenKind, text: Seq<u8>, k: Keyword)
    requires
        token_shape_ok(kind, text),
        is_word(text),
        spec_from_reserved(decode_utf8(text)) == Some(k),
    ensures
        kind == TokenKind::Keyword(k),
{
}

/// Every keyword's spelling is recognised as that keyword (so the spellings are distinct).
pub proof fn keyword_spelling_round_trip(k: Keyword)
    ensures
        spec_from_reserved(keyword_text(k)) == Some(k),
{
    match k {
        Keyword::Fn => {
            assert(spec_from_reserved("fn"@) == Some(Keyword::Fn)) by {
                lemma_keyword_spellings();
            }
        },
        Keyword::Let => {
            assert(spec_from_reserved("let"@) == Some(Keyword::Let)) by {
                lemma_keyword_spellings();
            }
        },
        Keyword::Const => {
            assert(spec_from_reserved("const"@) == Some(Keyword::Const)) by {
                lemma_keyword_spellings();
            }
        },
        Keyword::Type => {
            assert(spec_from_reserved("type"@) == Some(Keyword::Type)) by {
                lemma_keyword_spellings();
            }
        },
        Keyword::Struct => {
            assert(spec_from_reserved("struct"@) == Some(Keyword::Struct)) by {
                lemma_keyword_spellings();
            }
        },
        Keyword::Enum => {
            assert(spec_from_reserved("enum"@) == Some(Keyword::Enum)) by {
                lemma_keyword_spellings();
            }
        },
        Keyword::Trait => {
            assert(spec_from_reserved("trait"@) == Some(Keyword::Trait)) by {
                lemma_keyword_spellings();
            }
        },
        Keyword::Impl => {
            assert(spec_from_reserved("impl"@) == Some(Keyword::Impl)) by {
                lemma_keyword_spellings();
            }
        },
        Keyword::Mod => {
            assert(spec_from_reserved("mod"@) == Some(Keyword::Mod)) by {
                lemma_keyword_spellings();
            }
        },
        Keyword::Use => {
            assert(spec_from_reserved("use"@) == Some(Keyword::Use)) by {
                lemma_keyword_spellings();
            }
        },
        Keyword::Pub => {
            assert(spec_from_reserved("pub"@) == Some(Keyword::Pub)) by {
                lemma_keyword_spellings();
            }
        },
        Keyword::Extern => {
            assert(spec_from_reserved("extern"@) == Some(Keyword::Extern)) by {
                lemma_keyword_spellings();
            }
        },
        Keyword::If => {
            assert(spec_from_reserved("if"@) == Some(Keyword::If)) by {
                lemma_keyword_spellings();
            }
        },
        Keyword::Else => {
            assert(spec_from_reserved("else"@) == Some(Keyword::Else)) by {
                lemma_keyword_spellings();
            }
        },
        Keyword::Match => {
            assert(spec_from_reserved("match"@) == Some(Keyword::Match)) by {
                lemma_keyword_spellings();
            }
        },
        Keyword::For => {
            assert(spec_from_reserved("for"@) == Some(Keyword::For)) by {
                lemma_keyword_spellings();
            }
        },
        Keyword::In => {
            assert(spec_from_reserved("in"@) == Some(Keyword::In)) by {
                lemma_keyword_spellings();
            }
        },
        Keyword::While => {
            assert(spec_from_reserved("while"@) == Some(Keyword::While)) by {
                lemma_keyword_spellings();
            }
        },
        Keyword::Loop => {
            assert(spec_from_reserved("loop"@) == Some(Keyword::Loop)) by {
                lemma_keyword_spellings();
            }
        },
        Keyword::Break => {
            assert(spec_from_reserved("break"@) == Some(Keyword::Break)) by {
                lemma_keyword_spellings();
            }
        },
        Keyword::Continue => {
            assert(spec_from_reserved("continue"@) == Some(Keyword::Continue)) by {
                lemma_keyword_spellings();
            }
        },
        Keyword::Return => {
            assert(spec_from_reserved("return"@) == Some(Keyword::Return)) by {
                lemma_keyword_spellings();
            }
        },
        Keyword::SelfValue => {
            assert(spec_from_reserved("self"@) == Some(Keyword::SelfValue)) by {
                lemma_keyword_spellings();
            }
        },
        Keyword::SelfType => {
            assert(spec_from_reserved("Self"@) == Some(Keyword::SelfType)) by {
                lemma_keyword_spellings();
            }
        },
        Keyword::True => {
            assert(spec_from_reserved("true"@) == Some(Keyword::True)) by {
                lemma_keyword_spellings();
            }
        },
        Keyword::False => {
            assert(spec_from_reserved("false"@) == Some(Keyword::False)) by {
                lemma_keyword_spellings();
            }
        },
        Keyword::As => {
            assert(spec_from_reserved("as"@) == Some(Keyword::As)) by {
                lemma_keyword_spellings();
            }
        },
        Keyword::Actor => {
            assert(spec_from_reserved("actor"@) == Some(Keyword::Actor)) by {
                lemma_keyword_spellings();
            }
        },
        Keyword::Spawn => {
            assert(spec_from_reserved("spawn"@) == Some(Keyword::Spawn)) by {
                lemma_keyword_spellings();
            }
        },
        Keyword::Async => {
            assert(spec_from_reserved("async"@) == Some(Keyword::Async)) by {
                lemma_keyword_spellings();
                assert("as"@.len() == 2);
                assert("async"@.len() == 5);
            }
        },
        Keyword::Await => {
            assert(spec_from_reserved("await"@) == Some(Keyword::Await)) by {
                lemma_keyword_spellings();
            }
        },
        Keyword::Select => {
            assert(spec_from_reserved("select"@) == Some(Keyword::Select)) by {
                lemma_keyword_spellings();
            }
        },
        Keyword::Move => {
            assert(spec_from_reserved("move"@) == Some(Keyword::Move)) by {
                lemma_keyword_spellings();
            }
        },
        Keyword::Onchain => {
            assert(spec_from_reserved("onchain"@) == Some(Keyword::Onchain)) by {
                lemma_keyword_spellings();
            }
        },
        Keyword::Offchain => {
            assert(spec_from_reserved("offchain"@) == Some(Keyword::Offchain)) by {
                lemma_keyword_spellings();
            }
        },
        Keyword::Emit => {
            assert(spec_from_reserved("emit"@) == Some(Keyword::Emit)) by {
                lemma_keyword_spellings();
            }
        },
    }
}

/// No contextual keyword is a reserved keyword.
pub proof fn contextual_keywords_are_not_reserved(t: Seq<char>)
    requires
        spec_is_contextual(t),
    ensures
        spec_from_reserved(t) is None,
{
    lemma_keyword_spellings();
}

/// The spellings of the reserved and contextual keywords, character by character.
proof fn lemma_keyword_spellings()
    ensures
        "fn"@ == seq!['f', 'n'],
        "let"@ == seq!['l', 'e', 't'],
        "const"@ == seq!['c', 'o', 'n', 's', 't'],
        "type"@ == seq!['t', 'y', 'p', 'e'],
        "struct"@ == seq!['s', 't', 'r', 'u', 'c', 't'],
        "enum"@ == seq!['e', 'n', 'u', 'm'],
        "trait"@ == seq!['t', 'r', 'a', 'i', 't'],
        "impl"@ == seq!['i', 'm', 'p', 'l'],
        "mod"@ == seq!['m', 'o', 'd'],
        "use"@ == seq!['u', 's', 'e'],
        "pub"@ == seq!['p', 'u', 'b'],
        "extern"@ == seq!['e', 'x', 't', 'e', 'r', 'n'],
        "if"@ == seq!['i', 'f'],
        "else"@ == seq!['e', 'l', 's', 'e'],
        "match"@ == seq!['m', 'a', 't', 'c', 'h'],
        "for"@ == seq!['f', 'o', 'r'],
        "in"@ == seq!['i', 'n'],
        "while"@ == seq!['w', 'h', 'i', 'l', 'e'],
        "loop"@ == seq!['l', 'o', 'o', 'p'],
        "break"@ == seq!['b', 'r', 'e', 'a', 'k'],
        "continue"@ == seq!['c', 'o', 'n', 't', 'i', 'n', 'u', 'e'],
        "return"@ == seq!['r', 'e', 't', 'u', 'r', 'n'],
        "self"@ == seq!['s', 'e', 'l', 'f'],
        "Self"@ == seq!['S', 'e', 'l', 'f'],
        "true"@ == seq!['t', 'r', 'u', 'e'],
        "false"@ == seq!['f', 'a', 'l', 's', 'e'],
        "as"@ == seq!['a', 's'],
        "actor"@ == seq!['a', 'c', 't', 'o', 'r'],
        "spawn"@ == seq!['s', 'p', 'a', 'w', 'n'],
        "async"@ == seq!['a', 's', 'y', 'n', 'c'],
        "await"@ == seq!['a', 'w', 'a', 'i', 't'],
        "select"@ == seq!['s', 'e', 'l', 'e', 'c', 't'],
        "move"@ == seq!['m', 'o', 'v', 'e'],
        "onchain"@ == seq!['o', 'n', 'c', 'h', 'a', 'i', 'n'],
        "offchain"@ == seq!['o', 'f', 'f', 'c', 'h', 'a', 'i', 'n'],
        "emit"@ == seq!['e', 'm', 'i', 't'],
        "send"@ == seq!['s', 'e', 'n', 'd'],
        "recv"@ == seq!['r', 'e', 'c', 'v'],
        "storage"@ == seq!['s', 't', 'o', 'r', 'a', 'g', 'e'],
        "mut"@ == seq!['m', 'u', 't'],
        "dyn"@ == seq!['d', 'y', 'n'],
        "ref"@ == seq!['r', 'e', 'f'],
        "crate"@ == seq!['c', 'r', 'a', 't', 'e'],
        "super"@ == seq!['s', 'u', 'p', 'e', 'r'],
        "where"@ == seq!['w', 'h', 'e', 'r', 'e'],
{
    reveal_strlit("fn");
    reveal_strlit("let");
    reveal_strlit("const");
    reveal_strlit("type");
    reveal_strlit("struct");
    reveal_strlit("enum");
    reveal_strlit("trait");
    reveal_strlit("impl");
    reveal_strlit("mod");
    reveal_strlit("use");
    reveal_strlit("pub");
    reveal_strlit("extern");
    reveal_strlit("if");
    reveal_strlit("else");
    reveal_strlit("match");
    reveal_strlit("for");
    reveal_strlit("in");
    reveal_strlit("while");
    reveal_strlit("loop");
    reveal_strlit("break");
    reveal_strlit("continue");
    reveal_strlit("return");
    reveal_strlit("self");
    reveal_strlit("Self");
    reveal_strlit("true");
    reveal_strlit("false");
    reveal_strlit("as");
    reveal_strlit("actor");
    reveal_strlit("spawn");
    reveal_strlit("async");
    reveal_strlit("await");
    reveal_strlit("select");
    reveal_strlit("move");
    reveal_strlit("onchain");
    reveal_strlit("offchain");
    reveal_strlit("emit");
    reveal_strlit("send");
    reveal_strlit("recv");
    reveal_strlit("storage");
    reveal_strlit("mut");
    reveal_strlit("dyn");
    reveal_strlit("ref");
    reveal_strlit("crate");
    reveal_strlit("super");
    reveal_strlit("where");
}


pub open spec fn spec_valid_digit(b: u8, base: u8) -> bool {
    if base == 2 {
        b == 0x30u8 || b == 0x31u8
    } else if base == 8 {
        0x30 <= b <= 0x37
    } else if base == 10 {
        is_digit_byte(b)
    } else if base == 16 {
        is_hex_byte(b)
    } else {
        false
    }
}

/// The numeric suffixes are short ASCII words without `_` or `.`.
proof fn lemma_suffix_bytes(i: int)
    ensures
        2 <= numeric_suffix_bytes(i).len() <= 4,
        forall|j: int|
            0 <= j < numeric_suffix_bytes(i).len() ==> #[trigger] numeric_suffix_bytes(i)[j]
                < 0x80 && numeric_suffix_bytes(i)[j] != 0x5fu8 && numeric_suffix_bytes(i)[j]
                != 0x2eu8,
{
}

/// The stripped suffix of a numeric literal holds no `_`.
proof fn lemma_body_end_from(bytes: Seq<u8>, s: int, e: int, i: int)
    requires
        0 <= s <= e <= bytes.len(),
        0 <= i,
    ensures
        s <= body_end_from(bytes, s, e, i) <= e,
        forall|k: int| body_end_from(bytes, s, e, i) <= k < e ==> #[trigger] bytes[k] != 0x5fu8,
    decreases 13 - i,
{
    if i < 13 {
        if ends_with_suffix(bytes, s, e, i) {
            let suffix = numeric_suffix_bytes(i);
            lemma_suffix_bytes(i);
            assert forall|k: int| e - suffix.len() <= k < e implies #[trigger] bytes[k] != 0x5fu8 by {
                assert(bytes.subrange(e - suffix.len(), e)[k - (e - suffix.len())] == bytes[k]);
            }
        } else {
            lemma_body_end_from(bytes, s, e, i + 1);
        }
    }
}

/// The first suffix that starts at `pos`, searching from `j`, is `i` when
/// none between `j` and `i` starts there.
proof fn lemma_suffix_from(bytes: Seq<u8>, pos: int, j: int, i: int)
    requires
        0 <= j <= i,
        i < 13 ==> starts_with_suffix(bytes, pos, i),
        forall|m: int| j <= m < i ==> !starts_with_suffix(bytes, pos, m),
        i <= 13,
    ensures
        suffix_from(bytes, pos, j) == (if i < 13 { Some(i) } else { None::<int> }),
    decreases i - j,
{
    if j < i {
        lemma_suffix_from(bytes, pos, j + 1, i);
    }
}

/// A run of continuation bytes from `k` that stops at `p` ends there.
proof fn lemma_cont_end(bytes: Seq<u8>, k: int, p: int)
    requires
        0 <= k <= p <= bytes.len(),
        forall|i: int| k <= i < p ==> 0x80 <= #[trigger] bytes[i] <= 0xbf,
        p == bytes.len() || !(0x80 <= bytes[p] <= 0xbf),
    ensures
        cont_end(bytes, k) == p,
    decreases p - k,
{
    if k < p {
        lemma_cont_end(bytes, k + 1, p);
    }
}

/// A run of digits and `_` from `k` that stops at `p` ends there.
proof fn lemma_digit_run_end(bytes: Seq<u8>, k: int, p: int, base: u8)
    requires
        0 <= k <= p <= bytes.len(),
        forall|i: int| k <= i < p ==> #[trigger] bytes[i] == 0x5fu8 || spec_valid_digit(bytes[i], base),
        p == bytes.len() || !(bytes[p] == 0x5fu8 || spec_valid_digit(bytes[p], base)),
    ensures
        digit_run_end(bytes, k, base) == p,
    decreases p - k,
{
    if k < p {
        lemma_digit_run_end(bytes, k + 1, p, base);
    }
}

/// A run of identifier bytes from `k` that stops at `p` ends there.
proof fn lemma_word_end(bytes: Seq<u8>, k: int, p: int)
    requires
        0 <= k <= p <= bytes.len(),
        forall|i: int| k <= i < p ==> ident_continue_byte(#[trigger] bytes[i]),
        p == bytes.len() || !ident_continue_byte(bytes[p]),
    ensures
        word_end(bytes, k) == p,
    decreases p - k,
{
    if k < p {
        lemma_word_end(bytes, k + 1, p);
    }
}

/// A run of bytes other than line breaks from `k` that stops at `p` ends there.
proof fn lemma_line_end(bytes: Seq<u8>, k: int, p: int)
    requires
        0 <= k <= p <= bytes.len(),
        forall|i: int| k <= i < p ==> !is_line_break(#[trigger] bytes[i]),
        p == bytes.len() || is_line_break(bytes[p]),
    ensures
        line_end(bytes, k) == p,
    decreases p - k,
{
    if k < p {
        lemma_line_end(bytes, k + 1, p);
    }
}

/// Recording a diagnostic appends its message and span.
proof fn lemma_diags_push(errors: Seq<LexError>, e: LexError)
    ensures
        diags_of(errors.push(e)) == diags_of(errors).push((e.message@, e.span)),
{
    assert(diags_of(errors.push(e)) =~= diags_of(errors).push((e.message@, e.span)));
}

/// A run of hex digits from `k` that stops at `p` ends there.
proof fn lemma_hex_run_end(bytes: Seq<u8>, k: int, p: int)
    requires
        0 <= k <= p <= bytes.len(),
        forall|i: int| k <= i < p ==> is_hex_byte(#[trigger] bytes[i]),
        p == bytes.len() || !is_hex_byte(bytes[p]),
    ensures
        hex_run_end(bytes, k) == p,
    decreases p - k,
{
    if k < p {
        lemma_hex_run_end(bytes, k + 1, p);
    }
}

/// A run of spaces and tabs from `k` that stops at `p` ends there.
proof fn lemma_blank_run_end(bytes: Seq<u8>, k: int, p: int)
    requires
        0 <= k <= p <= bytes.len(),
        forall|i: int| k <= i < p ==> (#[trigger] bytes[i] == 0x20u8 || bytes[i] == 0x09u8),
        p == bytes.len() || !(bytes[p] == 0x20u8 || bytes[p] == 0x09u8),
    ensures
        blank_run_end(bytes, k) == p,
    decreases p - k,
{
    if k < p {
        lemma_blank_run_end(bytes, k + 1, p);
    }
}

/// A run never ends before it starts.
proof fn lemma_runs_forward(bytes: Seq<u8>, k: int)
    ensures
        hex_run_end(bytes, k) >= k,
        blank_run_end(bytes, k) >= k,
    decreases bytes.len() - k,
{
    if 0 <= k < bytes.len() {
        lemma_runs_forward(bytes, k + 1);
    }
}

/// A valid escape sequence ends after its backslash.
proof fn lemma_escape_forward(bytes: Seq<u8>, i: int)
    ensures
        escape_end(bytes, i) matches Some(j) ==> j > i,
{
    lemma_runs_forward(bytes, i + 2);
    lemma_runs_forward(bytes, i + 3);
}

/// A string body can be extended by one item: a plain byte or an escape.
proof fn lemma_string_body_step(bytes: Seq<u8>, a: int, b: int, c: int)
    requires
        a <= b,
        string_body_ok(bytes, a, b),
        0 <= b < bytes.len(),
        (c == b + 1 && bytes[b] != 0x22u8 && bytes[b] != 0x5cu8) || (bytes[b] == 0x5cu8
            && escape_end(bytes, b) == Some(c)),
    ensures
        string_body_ok(bytes, a, c),
    decreases b - a,
{
    lemma_escape_forward(bytes, b);
    lemma_escape_forward(bytes, a);
    if a < b {
        if bytes[a] == 0x5cu8 {
            let j = escape_end(bytes, a)->Some_0;
            lemma_string_body_step(bytes, j, b, c);
        } else {
            lemma_string_body_step(bytes, a + 1, b, c);
        }
    } else {
        assert(string_body_ok(bytes, c, c));
    }
}

/// A string body can be extended by a run of bytes other than `"` and `\`.
proof fn lemma_string_body_plain(bytes: Seq<u8>, a: int, b: int, c: int)
    requires
        0 <= a <= b <= c <= bytes.len(),
        string_body_ok(bytes, a, b),
        forall|k: int| b <= k < c ==> #[trigger] bytes[k] != 0x22u8 && bytes[k] != 0x5cu8,
    ensures
        string_body_ok(bytes, a, c),
    decreases c - b,
{
    if b < c {
        lemma_string_body_step(bytes, a, b, b + 1);
        lemma_string_body_plain(bytes, a, b + 1, c);
    }
}

/// Some token sequence lexes `bytes` as `lex` does on success: tokens in
/// source order and well shaped, each the longest match, literals valid, and
/// every other byte whitespace or comment text.
pub open spec fn lexically_valid(bytes: Seq<u8>) -> bool {
    exists|toks: Seq<Token>|
        #[trigger] tokens_well_formed(toks, bytes) && (forall|i: int|
            0 <= i < toks.len() ==> token_maximal(#[trigger] toks[i], bytes) && literal_ok(
                toks[i],
                bytes,
            )) && (forall|p: int| 0 <= p < bytes.len() ==> #[trigger] byte_accounted(toks, bytes, p))
}

/* The lexer's output, position by position */

/// A lexer diagnostic as seen in contracts: its message and its span.
pub type Diag = (Seq<char>, Span);

/// The message and span of each diagnostic.
pub open spec fn diags_of(errors: Seq<LexError>) -> Seq<Diag> {
    errors.map_values(|e: LexError| (e.message@, e.span))
}

pub open spec fn diag(message: Seq<char>, start: int, end: int) -> Diag {
    (message, Span { start: start as usize, end: end as usize })
}

pub open spec fn tok(kind: TokenKind, start: int, end: int) -> Token {
    Token { kind, span: Span { start: start as usize, end: end as usize } }
}

/// The byte at `p` exists and is `x`.
pub open spec fn byte_is(bytes: Seq<u8>, p: int, x: u8) -> bool {
    0 <= p < bytes.len() && bytes[p] == x
}

/// The end of the run of UTF-8 continuation bytes from `k`.
pub open spec fn cont_end(bytes: Seq<u8>, k: int) -> int
    decreases bytes.len() - k,
{
    if 0 <= k < bytes.len() && 0x80 <= bytes[k] <= 0xbf {
        cont_end(bytes, k + 1)
    } else {
        k
    }
}

/// The position after the character at `p` (or `p` at the end).
pub open spec fn next_pos(bytes: Seq<u8>, p: int) -> int {
    if 0 <= p < bytes.len() {
        cont_end(bytes, p + 1)
    } else {
        p
    }
}

/// The end of the run of `_` and digits of `base` from `k`.
pub open spec fn digit_run_end(bytes: Seq<u8>, k: int, base: u8) -> int
    decreases bytes.len() - k,
{
    if 0 <= k < bytes.len() && (bytes[k] == 0x5fu8 || spec_valid_digit(bytes[k], base)) {
        digit_run_end(bytes, k + 1, base)
    } else {
        k
    }
}

/// The end of the run of identifier bytes from `k`.
pub open spec fn word_end(bytes: Seq<u8>, k: int) -> int
    decreases bytes.len() - k,
{
    if 0 <= k < bytes.len() && ident_continue_byte(bytes[k]) {
        word_end(bytes, k + 1)
    } else {
        k
    }
}

/// The end of the line from `k`: the first line break at or after it.
pub open spec fn line_end(bytes: Seq<u8>, k: int) -> int
    decreases bytes.len() - k,
{
    if 0 <= k < bytes.len() && !is_line_break(bytes[k]) {
        line_end(bytes, k + 1)
    } else {
        k
    }
}

/// A comment from the `//` at `p`; `///` comments are doc-comment tokens.
pub open spec fn spec_comment(bytes: Seq<u8>, p: int) -> (int, Seq<Token>, Seq<Diag>) {
    let doc = byte_is(bytes, p + 2, 0x2fu8);
    let end = line_end(bytes, if doc { p + 3 } else { p + 2 });
    (end, if doc { seq![tok(TokenKind::DocComment, p, end)] } else { seq![] }, seq![])
}

/// An identifier or keyword from `p`.
pub open spec fn spec_word(bytes: Seq<u8>, p: int) -> (int, Seq<Token>, Seq<Diag>) {
    let end = word_end(bytes, p + 1);
    let kind = match spec_from_reserved(range_chars(bytes, p, end)) {
        Some(k) => TokenKind::Keyword(k),
        None => TokenKind::Ident,
    };
    (end, seq![tok(kind, p, end)], seq![])
}

/// The index of the first numeric suffix, in table order, that starts at
/// `pos`, searching from index `i`.
pub open spec fn suffix_from(bytes: Seq<u8>, pos: int, i: int) -> Option<int>
    decreases 13 - i,
{
    if i >= 13 {
        None
    } else if starts_with_suffix(bytes, pos, i) {
        Some(i)
    } else {
        suffix_from(bytes, pos, i + 1)
    }
}

/// A numeric literal from `p`: prefix and digits, an optional fraction and
/// exponent (decimal only), an optional type suffix, then the separator
/// check on the body.
pub open spec fn spec_number(bytes: Seq<u8>, p: int) -> (int, Seq<Token>, Seq<Diag>) {
    let prefixed = bytes[p] == 0x30u8 && (byte_is(bytes, p + 1, 0x78u8) || byte_is(bytes, p + 1, 0x6fu8)
        || byte_is(bytes, p + 1, 0x62u8));
    let base: u8 = if !prefixed {
        10
    } else if bytes[p + 1] == 0x78u8 {
        16
    } else if bytes[p + 1] == 0x6fu8 {
        8
    } else {
        2
    };
    let q1 = digit_run_end(bytes, if prefixed { p + 2 } else { p + 1 }, base);
    let has_dot = base == 10 && byte_is(bytes, q1, 0x2eu8) && !byte_is(bytes, q1 + 1, 0x2eu8);
    let q2 = if has_dot { digit_run_end(bytes, q1 + 1, 10) } else { q1 };
    let d1: Seq<Diag> = if has_dot && q2 == q1 + 1 {
        seq![diag("float literal needs digits after `.`"@, p, q2)]
    } else {
        seq![]
    };
    let has_exp = base == 10 && (byte_is(bytes, q2, 0x65u8) || byte_is(bytes, q2, 0x45u8));
    let e1 = q2 + 1;
    let e2 = if byte_is(bytes, e1, 0x2bu8) || byte_is(bytes, e1, 0x2du8) { e1 + 1 } else { e1 };
    let q3 = if has_exp { digit_run_end(bytes, e2, 10) } else { q2 };
    let d2: Seq<Diag> = if has_exp && q3 == e2 {
        seq![diag("float exponent needs digits"@, p, q3)]
    } else {
        seq![]
    };
    let suffix = suffix_from(bytes, q3, 0);
    let q4 = match suffix {
        Some(i) => q3 + numeric_suffix_bytes(i).len(),
        None => q3,
    };
    let float = has_dot || has_exp || suffix == Some(5int) || suffix == Some(8int);
    let d3: Seq<Diag> = if !separators_ok(bytes, p, numeric_body_end(bytes, p, q4)) {
        seq![diag("numeric separators must appear between digits"@, p, q4)]
    } else {
        seq![]
    };
    let kind = if float { TokenKind::FloatLit } else { TokenKind::IntLit };
    (q4, seq![tok(kind, p, q4)], d1 + d2 + d3)
}

/// The escape sequence at the backslash `i` inside the literal that starts at
/// `start`: where it ends and the diagnostics it raises.
pub open spec fn spec_escape(bytes: Seq<u8>, i: int, start: int) -> (int, Seq<Diag>) {
    let i1 = i + 1;
    if i1 >= bytes.len() {
        (i1, seq![diag("invalid escape sequence"@, start, i1)])
    } else {
        let c = bytes[i1];
        if simple_escape_byte(c) {
            (i1 + 1, seq![])
        } else if c == 0x78u8 {
            let e0 = i1 + 1;
            let h1 = 0 <= e0 < bytes.len() && is_hex_byte(bytes[e0]);
            let p1 = if h1 { e0 + 1 } else { e0 };
            let h2 = 0 <= p1 < bytes.len() && is_hex_byte(bytes[p1]);
            let p2 = if h2 { p1 + 1 } else { p1 };
            if p2 - e0 != 2 {
                (p2, seq![diag("ASCII byte escape needs two hex digits"@, start, p2)])
            } else if hex_run_value(bytes, e0, p2) > 0x7f {
                (p2, seq![diag("ASCII byte escape must be in 0x00..0x7F"@, start, p2)])
            } else {
                (p2, seq![])
            }
        } else if c == 0x75u8 {
            let u1 = i1 + 1;
            if !byte_is(bytes, u1, 0x7bu8) {
                (u1, seq![diag("unicode escape needs `{`"@, start, u1)])
            } else {
                let hs = u1 + 1;
                let he = hex_run_end(bytes, hs);
                if he == hs || he - hs > 6 || !byte_is(bytes, he, 0x7du8) {
                    (he, seq![diag("unicode escape needs 1-6 hex digits and `}`"@, start, he)])
                } else if !is_scalar_value(hex_run_value(bytes, hs, he)) {
                    (he + 1, seq![diag("unicode escape must be a valid scalar value"@, start, he)])
                } else {
                    (he + 1, seq![])
                }
            }
        } else if is_line_break(c) {
            (blank_run_end(bytes, i1 + 1), seq![])
        } else {
            (i1, seq![diag("invalid escape sequence"@, start, i1)])
        }
    }
}

/// Scanning a string literal that opened at `start`, from `i`: where the scan
/// stops, whether the closing quote was found, and the diagnostics raised.
pub open spec fn string_scan(bytes: Seq<u8>, start: int, i: int) -> (int, bool, Seq<Diag>)
    decreases bytes.len() - i,
{
    if !(0 <= i < bytes.len()) {
        (i, false, seq![])
    } else if bytes[i] == 0x22u8 {
        (i + 1, true, seq![])
    } else if bytes[i] == 0x5cu8 {
        let (j, d) = spec_escape(bytes, i, start);
        if i < j <= bytes.len() {
            let (k, closed, d2) = string_scan(bytes, start, j);
            (k, closed, d + d2)
        } else {
            (i, false, d)
        }
    } else {
        let j = next_pos(bytes, i);
        if i < j <= bytes.len() {
            string_scan(bytes, start, j)
        } else {
            (i, false, seq![])
        }
    }
}

/// A string literal from the quote at `p`.
pub open spec fn spec_string(bytes: Seq<u8>, p: int) -> (int, Seq<Token>, Seq<Diag>) {
    let (end, closed, d) = string_scan(bytes, p, p + 1);
    if closed {
        (end, seq![tok(TokenKind::StringLit, p, end)], d)
    } else {
        (end, seq![], d.push(diag("unterminated string literal"@, p, end)))
    }
}

/// A lifetime or character literal from the quote at `p`.
pub open spec fn spec_quote(bytes: Seq<u8>, p: int) -> (int, Seq<Token>, Seq<Diag>) {
    let i = p + 1;
    if 0 <= i < bytes.len() && ident_start_byte(bytes[i]) {
        let j = word_end(bytes, i + 1);
        if !byte_is(bytes, j, 0x27u8) {
            (j, seq![tok(TokenKind::Lifetime, p, j)], seq![])
        } else {
            let d: Seq<Diag> = if j - i != 1 {
                seq![diag("character literal contains more than one scalar"@, p, j + 1)]
            } else {
                seq![]
            };
            (j + 1, seq![tok(TokenKind::CharLit, p, j + 1)], d)
        }
    } else {
        let (k, d) = if byte_is(bytes, i, 0x5cu8) {
            spec_escape(bytes, i, p)
        } else if 0 <= i < bytes.len() && bytes[i] != 0x27u8 && !is_line_break(bytes[i]) {
            (next_pos(bytes, i), seq![])
        } else {
            (i, seq![])
        };
        if byte_is(bytes, k, 0x27u8) {
            (k + 1, seq![tok(TokenKind::CharLit, p, k + 1)], d)
        } else {
            (k, seq![], d.push(diag("unterminated character literal"@, p, k)))
        }
    }
}

/// A punctuation token of kind `kind` and `n` bytes from `p`.
pub open spec fn punct(kind: TokenKind, p: int, n: int) -> (int, Seq<Token>, Seq<Diag>) {
    (p + n, seq![tok(kind, p, p + n)], seq![])
}

/// One step of the lexer at `p`: what the byte there starts.
pub open spec fn spec_step(bytes: Seq<u8>, p: int) -> (int, Seq<Token>, Seq<Diag>) {
    let ch = bytes[p];
    let nx = |x: u8| byte_is(bytes, p + 1, x);
    if ch == 0x20u8 || ch == 0x09u8 || ch == 0x0au8 || ch == 0x0cu8 || ch == 0x0du8 {
        (p + 1, seq![], seq![])
    } else if ch == 0x2fu8 && nx(0x2fu8) {
        spec_comment(bytes, p)
    } else if ch == 0x2fu8 {
        punct(TokenKind::Slash, p, 1)
    } else if ident_start_byte(ch) {
        spec_word(bytes, p)
    } else if is_digit_byte(ch) {
        spec_number(bytes, p)
    } else if ch == 0x22u8 {
        spec_string(bytes, p)
    } else if ch == 0x27u8 {
        spec_quote(bytes, p)
    } else if ch == 0x40u8 {
        punct(TokenKind::At, p, 1)
    } else if ch == 0x23u8 {
        punct(TokenKind::Hash, p, 1)
    } else if ch == 0x21u8 && nx(0x3du8) {
        punct(TokenKind::Ne, p, 2)
    } else if ch == 0x21u8 {
        punct(TokenKind::Bang, p, 1)
    } else if ch == 0x2eu8 && nx(0x2eu8) && byte_is(bytes, p + 2, 0x3du8) {
        punct(TokenKind::DotDotEq, p, 3)
    } else if ch == 0x2eu8 && nx(0x2eu8) {
        punct(TokenKind::DotDot, p, 2)
    } else if ch == 0x2eu8 {
        punct(TokenKind::Dot, p, 1)
    } else if ch == 0x2cu8 {
        punct(TokenKind::Comma, p, 1)
    } else if ch == 0x3au8 && nx(0x3au8) {
        punct(TokenKind::ColonColon, p, 2)
    } else if ch == 0x3au8 {
        punct(TokenKind::Colon, p, 1)
    } else if ch == 0x3bu8 {
        punct(TokenKind::Semi, p, 1)
    } else if ch == 0x2du8 && nx(0x3eu8) {
        punct(TokenKind::Arrow, p, 2)
    } else if ch == 0x2du8 {
        punct(TokenKind::Minus, p, 1)
    } else if ch == 0x3du8 && nx(0x3eu8) {
        punct(TokenKind::FatArrow, p, 2)
    } else if ch == 0x3du8 && nx(0x3du8) {
        punct(TokenKind::EqEq, p, 2)
    } else if ch == 0x3du8 {
        punct(TokenKind::Eq, p, 1)
    } else if ch == 0x7cu8 && nx(0x3eu8) {
        punct(TokenKind::PipeGt, p, 2)
    } else if ch == 0x7cu8 && nx(0x7cu8) {
        punct(TokenKind::PipePipe, p, 2)
    } else if ch == 0x7cu8 {
        punct(TokenKind::Pipe, p, 1)
    } else if ch == 0x26u8 && nx(0x26u8) {
        punct(TokenKind::AmpAmp, p, 2)
    } else if ch == 0x26u8 {
        punct(TokenKind::Amp, p, 1)
    } else if ch == 0x3cu8 && nx(0x3du8) {
        punct(TokenKind::Le, p, 2)
    } else if ch == 0x3cu8 {
        punct(TokenKind::Lt, p, 1)
    } else if ch == 0x3eu8 && nx(0x3du8) {
        punct(TokenKind::Ge, p, 2)
    } else if ch == 0x3eu8 {
        punct(TokenKind::Gt, p, 1)
    } else if ch == 0x2bu8 {
        punct(TokenKind::Plus, p, 1)
    } else if ch == 0x2au8 {
        punct(TokenKind::Star, p, 1)
    } else if ch == 0x25u8 {
        punct(TokenKind::Percent, p, 1)
    } else if ch == 0x3fu8 {
        punct(TokenKind::Question, p, 1)
    } else if ch == 0x28u8 {
        punct(TokenKind::LParen, p, 1)
    } else if ch == 0x29u8 {
        punct(TokenKind::RParen, p, 1)
    } else if ch == 0x7bu8 {
        punct(TokenKind::LBrace, p, 1)
    } else if ch == 0x7du8 {
        punct(TokenKind::RBrace, p, 1)
    } else if ch == 0x5bu8 {
        punct(TokenKind::LBracket, p, 1)
    } else if ch == 0x5du8 {
        punct(TokenKind::RBracket, p, 1)
    } else {
        let q = next_pos(bytes, p);
        (q, seq![], seq![
            diag("unexpected character `"@ + range_chars(bytes, p, q) + "`"@, p, q),
        ])
    }
}

/// Lexing from `p` to the end: the tokens and the diagnostics, in order.
pub open spec fn spec_scan(bytes: Seq<u8>, p: int) -> (Seq<Token>, Seq<Diag>)
    decreases bytes.len() - p,
{
    if !(0 <= p < bytes.len()) {
        (seq![], seq![])
    } else {
        let (q, t, d) = spec_step(bytes, p);
        if p < q <= bytes.len() {
            let (t2, d2) = spec_scan(bytes, q);
            (t + t2, d + d2)
        } else {
            (t, d)
        }
    }
}

/// What lexing the whole of `bytes` gives: its tokens and diagnostics.
pub open spec fn spec_lex(bytes: Seq<u8>) -> (Seq<Token>, Seq<Diag>) {
    spec_scan(bytes, 0)
}

/// Tokenizes `source`. On success the tokens are in source order, lie on
/// character boundaries and have the shape their kind promises, every word
/// and operator is the longest match at its position, string and character
/// literals hold only valid escape sequences, numeric literals place `_`
/// separators only between digits and follow a decimal point with a digit,
/// and every byte not inside a token is whitespace or line-comment text;
/// otherwise
/// every diagnostic found is returned (at least one), each with a span inside
/// the source.
pub fn lex(source: &str) -> (r: Result<Vec<Token>, Vec<LexError>>)
    ensures
        r matches Ok(tokens) ==> tokens_well_formed(tokens@, source.spec_bytes()),
        r is Ok ==> lexically_valid(source.spec_bytes()),
        r matches Ok(tokens) ==> tokens@ == spec_lex(source.spec_bytes()).0 && spec_lex(
            source.spec_bytes(),
        ).1.len() == 0,
        r matches Err(errors) ==> diags_of(errors@) == spec_lex(source.spec_bytes()).1 && spec_lex(
            source.spec_bytes(),
        ).1.len() > 0,
        source.spec_bytes().len() == 0 ==> (r matches Ok(tokens) && tokens@.len() == 0),
        r matches Ok(tokens) ==> forall|i: int|
            0 <= i < tokens@.len() ==> token_maximal(#[trigger] tokens@[i], source.spec_bytes()),
        r matches Ok(tokens) ==> forall|i: int|
            0 <= i < tokens@.len() ==> literal_ok(#[trigger] tokens@[i], source.spec_bytes()),
        r matches Ok(tokens) ==> forall|p: int|
            0 <= p < source.spec_bytes().len() ==> #[trigger] byte_accounted(
                tokens@,
                source.spec_bytes(),
                p,
            ),
        r matches Err(errors) ==> errors@.len() > 0 && forall|i: int|
            0 <= i < errors@.len() ==> error_fits(
                #[trigger] errors@[i],
                source.spec_bytes().len() as int,
            ),
{
    let bytes = source.as_bytes();
    let n = bytes.len();
    proof {
        is_char_boundary_start_end_of_seq(bytes@);
    }
    let mut lexer = Lexer { source, bytes, pos: 0, tokens: Vec::new(), errors: Vec::new() };
    lexer.run();
    proof {
        assert(lexer.tokens@ =~= spec_lex(bytes@).0);
        assert(diags_of(lexer.errors@) =~= spec_lex(bytes@).1);
        if lexer.errors@.len() == 0 {
            assert(lexer.accounts_for(0, n as int));
            assert(tokens_well_formed(lexer.tokens@, bytes@));
        }
    }
    if lexer.errors.len() == 0 {
        Ok(lexer.tokens)
    } else {
        Err(lexer.errors)
    }
}

struct Lexer<'a> {
    source: &'a str,
    bytes: &'a [u8],
    pos: usize,
    tokens: Vec<Token>,
    errors: Vec<LexError>,
}

impl<'a> Lexer<'a> {
    spec fn inv(&self) -> bool {
        &&& self.bytes@ == self.source.spec_bytes()
        &&& self.bytes@.len() <= usize::MAX
        &&& self.pos <= self.bytes@.len()
        &&& is_char_boundary(self.bytes@, self.pos as int)
        &&& tokens_well_formed(self.tokens@, self.bytes@)
        &&& forall|i: int|
            0 <= i < self.tokens@.len() ==> (#[trigger] self.tokens@[i]).span.end <= self.pos
        &&& forall|i: int|
            0 <= i < self.tokens@.len() ==> token_maximal(#[trigger] self.tokens@[i], self.bytes@)
        &&& self.errors@.len() == 0 ==> forall|i: int|
            0 <= i < self.tokens@.len() ==> literal_ok(#[trigger] self.tokens@[i], self.bytes@)
        &&& forall|i: int|
            0 <= i < self.errors@.len() ==> error_fits(
                #[trigger] self.errors@[i],
                self.bytes@.len() as int,
            )
    }

    /// Same source and the same tokens as `other`.
    spec fn same_stream(&self, other: &Self) -> bool {
        &&& self.source == other.source
        &&& self.bytes@ == other.bytes@
        &&& self.tokens@ == other.tokens@
    }

    /// Since `old`, the lexer did exactly what `step` describes: moved to its
    /// end, appended its tokens and its diagnostics.
    spec fn took(&self, old: &Self, step: (int, Seq<Token>, Seq<Diag>)) -> bool {
        &&& self.pos == step.0
        &&& self.tokens@ == old.tokens@ + step.1
        &&& diags_of(self.errors@) == diags_of(old.errors@) + step.2
    }

    /// Every byte in `from..to` is accounted for by the tokens so far.
    spec fn accounts_for(&self, from: int, to: int) -> bool {
        forall|p: int| from <= p < to ==> #[trigger] byte_accounted(self.tokens@, self.bytes@, p)
    }

    /// One lexing step from `prev`: tokens only appended, diagnostics only
    /// added, and, while there are none, every consumed byte accounted for.
    spec fn step_from(&self, prev: &Self) -> bool {
        &&& is_prefix(prev.tokens@, self.tokens@)
        &&& prev.errors@.len() <= self.errors@.len()
        &&& self.errors@.len() == 0 ==> self.accounts_for(prev.pos as int, self.pos as int)
    }

    /// Appending tokens keeps every accounted byte accounted.
    proof fn lemma_accounts_grow(&self, prev: &Self, from: int, to: int)
        requires
            prev.accounts_for(from, to),
            is_prefix(prev.tokens@, self.tokens@),
            self.bytes@ == prev.bytes@,
        ensures
            self.accounts_for(from, to),
    {
        assert forall|p: int| from <= p < to implies #[trigger] byte_accounted(
            self.tokens@,
            self.bytes@,
            p,
        ) by {
            assert(byte_accounted(prev.tokens@, prev.bytes@, p));
            if in_some_token(prev.tokens@, p) {
                let i = choose|i: int|
                    0 <= i < prev.tokens@.len() && (#[trigger] prev.tokens@[i]).span.start <= p
                        < prev.tokens@[i].span.end;
                assert(self.tokens@[i] == prev.tokens@[i]);
            }
        }
    }

    /// Chaining a step onto an accounted prefix keeps the whole prefix accounted.
    proof fn lemma_step(&self, prev: &Self, base: int)
        requires
            self.step_from(prev),
            self.bytes@ == prev.bytes@,
            base <= prev.pos,
            prev.errors@.len() == 0 ==> prev.accounts_for(base, prev.pos as int),
        ensures
            self.errors@.len() == 0 ==> self.accounts_for(base, self.pos as int),
    {
        if self.errors@.len() == 0 {
            self.lemma_accounts_grow(prev, base, prev.pos as int);
        }
    }

    /// The last token spans exactly `start..pos`, so those bytes are accounted.
    proof fn lemma_last_token(&self, start: int)
        requires
            self.tokens@.len() > 0,
            self.tokens@.last().span.start == start,
            self.tokens@.last().span.end == self.pos,
        ensures
            self.accounts_for(start, self.pos as int),
    {
        let last = self.tokens@.len() - 1;
        assert forall|p: int| start <= p < self.pos implies #[trigger] byte_accounted(
            self.tokens@,
            self.bytes@,
            p,
        ) by {
            assert(self.tokens@[last].span.start <= p < self.tokens@[last].span.end);
        }
    }

    /// A position `start` from which a token may still be pushed.
    spec fn token_start_ok(&self, start: int) -> bool {
        &&& 0 <= start <= self.pos
        &&& is_char_boundary(self.bytes@, start)
        &&& forall|i: int|
            0 <= i < self.tokens@.len() ==> (#[trigger] self.tokens@[i]).span.end <= start
    }

    /// One step of the lexer: handles what the byte `ch` at the current
    /// position starts.
    #[verifier::rlimit(100)]
    fn step(&mut self, ch: u8)
        requires
            old(self).inv(),
            old(self).pos < old(self).bytes@.len(),
            ch == old(self).bytes@[old(self).pos as int],
        ensures
            final(self).inv(),
            final(self).source == old(self).source,
            final(self).bytes@ == old(self).bytes@,
            final(self).pos > old(self).pos,
            final(self).step_from(old(self)),
            final(self).took(old(self), spec_step(old(self).bytes@, old(self).pos as int)),
    {
        let next = self.byte_at(1);
        if ch == 0x20 || ch == 0x09 || ch == 0x0a || ch == 0x0c || ch == 0x0d {
            self.bump();
            proof {
                assert(self.tokens@ =~= old(self).tokens@ + Seq::<Token>::empty());
                assert(diags_of(self.errors@) =~= diags_of(old(self).errors@) + Seq::<Diag>::empty());
                assert forall|p: int| old(self).pos <= p < self.pos implies #[trigger] byte_accounted(
                    self.tokens@,
                    self.bytes@,
                    p,
                ) by {
                    assert(p == old(self).pos);
                }
            }
        } else if ch == 0x2f && next == Some(0x2fu8) {
            self.comment();
        } else if ch == 0x2f {
            // Block comments are intentionally omitted; a lone `/` is division.
            self.single(TokenKind::Slash);
        } else if is_ident_start(ch) {
            self.ident_or_keyword();
        } else if 0x30 <= ch && ch <= 0x39 {
            self.number();
        } else if ch == 0x22 {
            self.string();
        } else if ch == 0x27 {
            self.lifetime_or_char();
        } else if ch == 0x40 {
            self.single(TokenKind::At);
        } else if ch == 0x23 {
            self.single(TokenKind::Hash);
        } else if ch == 0x21 && next == Some(0x3du8) {
            self.double(TokenKind::Ne);
        } else if ch == 0x21 {
            self.single(TokenKind::Bang);
        } else if ch == 0x2e && next == Some(0x2eu8) && self.byte_at(2) == Some(0x3du8) {
            self.triple(TokenKind::DotDotEq);
        } else if ch == 0x2e && next == Some(0x2eu8) {
            self.double(TokenKind::DotDot);
        } else if ch == 0x2e {
            self.single(TokenKind::Dot);
        } else if ch == 0x2c {
            self.single(TokenKind::Comma);
        } else if ch == 0x3a && next == Some(0x3au8) {
            self.double(TokenKind::ColonColon);
        } else if ch == 0x3a {
            self.single(TokenKind::Colon);
        } else if ch == 0x3b {
            self.single(TokenKind::Semi);
        } else if ch == 0x2d && next == Some(0x3eu8) {
            self.double(TokenKind::Arrow);
        } else if ch == 0x2d {
            self.single(TokenKind::Minus);
        } else if ch == 0x3d && next == Some(0x3eu8) {
            self.double(TokenKind::FatArrow);
        } else if ch == 0x3d && next == Some(0x3du8) {
            self.double(TokenKind::EqEq);
        } else if ch == 0x3d {
            self.single(TokenKind::Eq);
        } else if ch == 0x7c && next == Some(0x3eu8) {
            self.double(TokenKind::PipeGt);
        } else if ch == 0x7c && next == Some(0x7cu8) {
            self.double(TokenKind::PipePipe);
        } else if ch == 0x7c {
            self.single(TokenKind::Pipe);
        } else if ch == 0x26 && next == Some(0x26u8) {
            self.double(TokenKind::AmpAmp);
        } else if ch == 0x26 {
            self.single(TokenKind::Amp);
        } else if ch == 0x3c && next == Some(0x3du8) {
            self.double(TokenKind::Le);
        } else if ch == 0x3c {
            self.single(TokenKind::Lt);
        } else if ch == 0x3e && next == Some(0x3du8) {
            self.double(TokenKind::Ge);
        } else if ch == 0x3e {
            self.single(TokenKind::Gt);
        } else if ch == 0x2b {
            self.single(TokenKind::Plus);
        } else if ch == 0x2a {
            self.single(TokenKind::Star);
        } else if ch == 0x25 {
            self.single(TokenKind::Percent);
        } else if ch == 0x3f {
            self.single(TokenKind::Question);
        } else if ch == 0x28 {
            self.single(TokenKind::LParen);
        } else if ch == 0x29 {
            self.single(TokenKind::RParen);
        } else if ch == 0x7b {
            self.single(TokenKind::LBrace);
        } else if ch == 0x7d {
            self.single(TokenKind::RBrace);
        } else if ch == 0x5b {
            self.single(TokenKind::LBracket);
        } else if ch == 0x5d {
            self.single(TokenKind::RBracket);
        } else {
            let start = self.pos;
            self.bump();
            let text = substring(self.source, start, self.pos);
            let mut message = join_text("unexpected character `", text);
            message.append("`");
            self.error(message, start, self.pos);
            proof {
                assert(self.tokens@ =~= old(self).tokens@ + Seq::<Token>::empty());
                assert(diags_of(self.errors@) =~= diags_of(old(self).errors@) + seq![
                    diag(message@, start as int, self.pos as int),
                ]);
            }
        }
    }

    fn run(&mut self)
        requires
            old(self).inv(),
        ensures
            final(self).inv(),
            final(self).source == old(self).source,
            final(self).bytes@ == old(self).bytes@,
            final(self).pos == final(self).bytes@.len(),
            final(self).errors@.len() == 0 ==> old(self).errors@.len() == 0,
            old(self).pos == old(self).bytes@.len() ==> final(self).errors@ == old(self).errors@
                && final(self).tokens@ == old(self).tokens@,
            final(self).errors@.len() == 0 && old(self).accounts_for(0, old(self).pos as int)
                ==> final(self).accounts_for(0, final(self).pos as int),
            final(self).tokens@ == old(self).tokens@ + spec_scan(old(self).bytes@, old(self).pos as int).0,
            diags_of(final(self).errors@) == diags_of(old(self).errors@) + spec_scan(
                old(self).bytes@,
                old(self).pos as int,
            ).1,
    {
        loop
            invariant
                self.inv(),
                self.source == old(self).source,
                self.bytes@ == old(self).bytes@,
                old(self).pos <= self.pos,
                old(self).errors@.len() <= self.errors@.len(),
                old(self).pos == old(self).bytes@.len() ==> self.errors@ == old(self).errors@
                    && self.tokens@ == old(self).tokens@,
                self.errors@.len() == 0 && old(self).accounts_for(0, old(self).pos as int)
                    ==> self.accounts_for(0, self.pos as int),
                self.tokens@ + spec_scan(self.bytes@, self.pos as int).0 == old(self).tokens@
                    + spec_scan(self.bytes@, old(self).pos as int).0,
                diags_of(self.errors@) + spec_scan(self.bytes@, self.pos as int).1 == diags_of(
                    old(self).errors@,
                ) + spec_scan(self.bytes@, old(self).pos as int).1,
            ensures
                self.pos == self.bytes@.len(),
            decreases self.bytes@.len() - self.pos,
        {
            let ch = match self.peek() {
                Some(c) => c,
                None => break,
            };
            let ghost prev = *self;
            let ghost base_ok = old(self).accounts_for(0, old(self).pos as int);
            self.step(ch);
            proof {
                if base_ok {
                    self.lemma_step(&prev, 0);
                }
                let b = self.bytes@;
                let st = spec_step(b, prev.pos as int);
                assert(self.took(&prev, st));
                assert(spec_scan(b, prev.pos as int).0 =~= st.1 + spec_scan(b, self.pos as int).0);
                assert(spec_scan(b, prev.pos as int).1 =~= st.2 + spec_scan(b, self.pos as int).1);
                assert(self.tokens@ + spec_scan(b, self.pos as int).0 =~= prev.tokens@ + spec_scan(
                    b,
                    prev.pos as int,
                ).0);
                assert(diags_of(self.errors@) + spec_scan(b, self.pos as int).1 =~= diags_of(
                    prev.errors@,
                ) + spec_scan(b, prev.pos as int).1);
            }
        }
        proof {
            let b = self.bytes@;
            assert(self.tokens@ =~= self.tokens@ + spec_scan(b, self.pos as int).0);
            assert(diags_of(self.errors@) =~= diags_of(self.errors@) + spec_scan(b, self.pos as int).1);
        }
    }

    fn comment(&mut self)
        requires
            old(self).inv(),
            old(self).pos + 1 < old(self).bytes@.len(),
            old(self).bytes@[old(self).pos as int] == 0x2f,
            old(self).bytes@[old(self).pos + 1] == 0x2f,
        ensures
            final(self).inv(),
            final(self).source == old(self).source,
            final(self).bytes@ == old(self).bytes@,
            final(self).pos > old(self).pos,
            final(self).step_from(old(self)),
            final(self).took(old(self), spec_comment(old(self).bytes@, old(self).pos as int)),
    {
        let start = self.pos;
        self.bump();
        self.bump();
        let doc = self.peek() == Some(0x2fu8);
        if doc {
            self.bump();
        }
        let ghost after = self.pos;
        loop
            invariant
                self.inv(),
                self.same_stream(old(self)),
                after <= self.pos,
                start + 2 <= after,
                doc ==> after == start + 3,
                self.token_start_ok(start as int),
                start == old(self).pos,
                self.errors@ == old(self).errors@,
                start + 1 < self.bytes@.len(),
                self.bytes@[start as int] == 0x2fu8,
                self.bytes@[start + 1] == 0x2fu8,
                forall|k: int| start <= k < self.pos ==> !is_line_break(#[trigger] self.bytes@[k]),
            ensures
                self.pos == self.bytes@.len() || is_line_break(self.bytes@[self.pos as int]),
            decreases self.bytes@.len() - self.pos,
        {
            match self.peek() {
                Some(ch) => {
                    if ch == 0x0a || ch == 0x0d {
                        break;
                    }
                    self.bump();
                },
                None => break,
            }
        }
        proof {
            lemma_line_end(self.bytes@, after as int, self.pos as int);
        }
        if doc {
            proof {
                let t = self.bytes@.subrange(start as int, self.pos as int);
                assert(t[0] == 0x2f && t[1] == 0x2f && t[2] == 0x2f);
            }
            self.push(TokenKind::DocComment, start, self.pos);
            proof {
                self.lemma_last_token(start as int);
                assert(self.tokens@ =~= old(self).tokens@ + seq![
                    tok(TokenKind::DocComment, start as int, self.pos as int),
                ]);
                assert(diags_of(self.errors@) =~= diags_of(old(self).errors@) + Seq::<Diag>::empty());
            }
        } else {
            proof {
                assert forall|p: int| start <= p < self.pos implies #[trigger] byte_accounted(
                    self.tokens@,
                    self.bytes@,
                    p,
                ) by {
                    assert(self.bytes@[start as int] == 0x2fu8);
                    assert(in_line_comment(self.bytes@, p));
                }
                assert(self.tokens@ =~= old(self).tokens@ + Seq::<Token>::empty());
                assert(diags_of(self.errors@) =~= diags_of(old(self).errors@) + Seq::<Diag>::empty());
            }
        }
    }

    fn ident_or_keyword(&mut self)
        requires
            old(self).inv(),
            old(self).pos < old(self).bytes@.len(),
            ident_start_byte(old(self).bytes@[old(self).pos as int]),
        ensures
            final(self).inv(),
            final(self).source == old(self).source,
            final(self).bytes@ == old(self).bytes@,
            final(self).pos > old(self).pos,
            final(self).step_from(old(self)),
            final(self).took(old(self), spec_word(old(self).bytes@, old(self).pos as int)),
    {
        let start = self.pos;
        self.bump();
        loop
            invariant
                self.inv(),
                self.same_stream(old(self)),
                start < self.pos,
                self.token_start_ok(start as int),
                start == old(self).pos,
                self.errors@ == old(self).errors@,
                ident_start_byte(self.bytes@[start as int]),
                forall|i: int| start < i < self.pos ==> ident_continue_byte(#[trigger] self.bytes@[i]),
            ensures
                self.pos == self.bytes@.len() || !ident_continue_byte(self.bytes@[self.pos as int]),
            decreases self.bytes@.len() - self.pos,
        {
            match self.peek() {
                Some(c) => {
                    if !is_ident_continue(c) {
                        break;
                    }
                    self.bump();
                },
                None => break,
            }
        }
        let text = substring(self.source, start, self.pos);
        let kind = match Keyword::from_reserved(text) {
            Some(k) => TokenKind::Keyword(k),
            None => TokenKind::Ident,
        };
        proof {
            let t = self.bytes@.subrange(start as int, self.pos as int);
            assert forall|i: int| 1 <= i < t.len() implies ident_continue_byte(#[trigger] t[i]) by {
                assert(t[i] == self.bytes@[start + i]);
            }
            assert(is_word(t));
        }
        self.push(kind, start, self.pos);
        proof {
            self.lemma_last_token(start as int);
            lemma_word_end(self.bytes@, start + 1, self.pos as int);
            assert(self.tokens@ =~= old(self).tokens@ + seq![tok(kind, start as int, self.pos as int)]);
            assert(diags_of(self.errors@) =~= diags_of(old(self).errors@) + Seq::<Diag>::empty());
        }
    }

    #[verifier::rlimit(100)]
    fn number(&mut self)
        requires
            old(self).inv(),
            old(self).pos < old(self).bytes@.len(),
            is_digit_byte(old(self).bytes@[old(self).pos as int]),
        ensures
            final(self).inv(),
            final(self).source == old(self).source,
            final(self).bytes@ == old(self).bytes@,
            final(self).pos > old(self).pos,
            final(self).step_from(old(self)),
            final(self).took(old(self), spec_number(old(self).bytes@, old(self).pos as int)),
    {
        let start = self.pos;
        let ghost d0 = diags_of(self.errors@);
        let mut base: u8 = 10;
        let second = self.byte_at(1);
        if self.bytes[self.pos] == 0x30 && (second == Some(0x78u8) || second == Some(0x6fu8)
            || second == Some(0x62u8)) {
            base = if second == Some(0x78u8) {
                16
            } else if second == Some(0x6fu8) {
                8
            } else {
                2
            };
            self.bump();
            self.bump();
        } else {
            self.bump();
        }
        self.digits(base);
        let ghost q1 = self.pos as int;
        let ghost d_int = diags_of(self.errors@);
        let ghost b = self.bytes@;
        let ghost p = start as int;
        let ghost prefixed = b[p] == 0x30u8 && (byte_is(b, p + 1, 0x78u8) || byte_is(b, p + 1, 0x6fu8)
            || byte_is(b, p + 1, 0x62u8));
        proof {
            assert(base == (if !prefixed {
                10u8
            } else if b[p + 1] == 0x78u8 {
                16u8
            } else if b[p + 1] == 0x6fu8 {
                8u8
            } else {
                2u8
            }));
            assert(q1 == digit_run_end(b, if prefixed { p + 2 } else { p + 1 }, base));
            assert(d_int == d0);
        }
        let ghost has_dot = base == 10 && byte_is(b, q1, 0x2eu8) && !byte_is(b, q1 + 1, 0x2eu8);
        // The only `.` a numeric literal can hold is its decimal point, and
        // unless a diagnostic was reported a digit or `_` follows it.
        let ghost mut dot: int = -1;
        let ghost errors_before = self.errors@.len();
        assert forall|k: int| start <= k < self.pos && #[trigger] self.bytes@[k] == 0x2eu8 implies k
            == dot by {}
        let mut kind = TokenKind::IntLit;
        if base == 10 && self.peek() == Some(0x2eu8) && self.byte_at(1) != Some(0x2eu8) {
            kind = TokenKind::FloatLit;
            proof {
                dot = self.pos as int;
            }
            self.bump();
            let after_dot = self.pos;
            self.digits(10);
            if self.pos == after_dot {
                self.error(String::from_str("float literal needs digits after `.`"), start, self.pos);
            }
        }
        assert(dot >= 0 ==> self.bytes@[dot] == 0x2eu8);
        assert(dot >= 0 && self.errors@.len() == errors_before ==> dot + 1 < self.pos
            && (self.bytes@[dot + 1] == 0x5fu8 || is_digit_byte(self.bytes@[dot + 1])));
        assert forall|k: int| start <= k < self.pos && #[trigger] self.bytes@[k] == 0x2eu8 implies k
            == dot by {}
        let ghost q2 = self.pos as int;
        let ghost d_frac = diags_of(self.errors@);
        let ghost d1: Seq<Diag> = if has_dot && q2 == q1 + 1 {
            seq![diag("float literal needs digits after `.`"@, p, q2)]
        } else {
            seq![]
        };
        proof {
            assert(q2 == (if has_dot { digit_run_end(b, q1 + 1, 10) } else { q1 }));
            assert(d_frac =~= d0 + d1);
            assert(has_dot ==> kind == TokenKind::FloatLit);
            assert(!has_dot ==> kind == TokenKind::IntLit);
        }
        let ghost has_exp = base == 10 && (byte_is(b, q2, 0x65u8) || byte_is(b, q2, 0x45u8));
        let ghost e2 = if byte_is(b, q2 + 1, 0x2bu8) || byte_is(b, q2 + 1, 0x2du8) {
            q2 + 2
        } else {
            q2 + 1
        };
        if base == 10 && (self.peek() == Some(0x65u8) || self.peek() == Some(0x45u8)) {
            kind = TokenKind::FloatLit;
            self.bump();
            if self.peek() == Some(0x2bu8) || self.peek() == Some(0x2du8) {
                self.bump();
            }
            let exp_start = self.pos;
            self.digits(10);
            if self.pos == exp_start {
                self.error(String::from_str("float exponent needs digits"), start, self.pos);
            }
        }
        assert forall|k: int| start <= k < self.pos && #[trigger] self.bytes@[k] == 0x2eu8 implies k
            == dot by {}
        let ghost q3 = self.pos as int;
        let ghost d_exp = diags_of(self.errors@);
        let ghost d2: Seq<Diag> = if has_exp && q3 == e2 {
            seq![diag("float exponent needs digits"@, p, q3)]
        } else {
            seq![]
        };
        proof {
            assert(q3 == (if has_exp { digit_run_end(b, e2, 10) } else { q2 }));
            assert(d_exp =~= d_frac + d2);
            assert(kind == (if has_dot || has_exp { TokenKind::FloatLit } else { TokenKind::IntLit }));
        }
        match self.numeric_suffix() {
            Some(index) => {
                if is_float_suffix(index) {
                    kind = TokenKind::FloatLit;
                }
            },
            None => {},
        }
        assert forall|k: int| start <= k < self.pos && #[trigger] self.bytes@[k] == 0x2eu8 implies k
            == dot by {}
        let ghost q4 = self.pos as int;
        let ghost d_suf = diags_of(self.errors@);
        let ghost suffix = suffix_from(b, q3, 0);
        proof {
            assert(q4 == (match suffix {
                Some(i) => q3 + numeric_suffix_bytes(i).len(),
                None => q3,
            }));
            assert(kind == (if has_dot || has_exp || suffix == Some(5int) || suffix == Some(8int) {
                TokenKind::FloatLit
            } else {
                TokenKind::IntLit
            }));
            assert(d_suf == d_exp);
        }
        self.validate_numeric_body(start);
        proof {
            let t = self.bytes@.subrange(start as int, self.pos as int);
            assert(t[0] == self.bytes@[start as int]);
            if self.errors@.len() == 0 {
                lemma_body_end_from(self.bytes@, start as int, self.pos as int, 0);
                if dot >= 0 {
                    assert(self.bytes@[dot + 1] != 0x5fu8);
                }
            }
        }
        let ghost d3: Seq<Diag> = if !separators_ok(b, p, numeric_body_end(b, p, q4)) {
            seq![diag("numeric separators must appear between digits"@, p, q4)]
        } else {
            seq![]
        };
        proof {
            assert(diags_of(self.errors@) =~= d0 + (d1 + d2 + d3));
            let sp = spec_number(b, p);
            assert(sp.0 == q4);
            assert(sp.2 == d1 + d2 + d3);
        }
        self.push(kind, start, self.pos);
        proof {
            self.lemma_last_token(start as int);
            assert(self.tokens@ =~= old(self).tokens@ + seq![tok(kind, p, q4)]);
        }
    }

    /// Consumes digits of `base` and `_` separators.
    fn digits(&mut self, base: u8)
        requires
            old(self).inv(),
        ensures
            final(self).inv(),
            final(self).same_stream(old(self)),
            final(self).errors@ == old(self).errors@,
            old(self).pos <= final(self).pos,
            forall|k: int|
                old(self).pos <= k < final(self).pos ==> #[trigger] final(self).bytes@[k] == 0x5fu8
                    || spec_valid_digit(final(self).bytes@[k], base),
            final(self).pos == final(self).bytes@.len() || !(final(self).bytes@[final(self).pos as int]
                == 0x5fu8 || spec_valid_digit(final(self).bytes@[final(self).pos as int], base)),
        final(self).pos == digit_run_end(final(self).bytes@, old(self).pos as int, base),
    {
        loop
            invariant
                self.inv(),
                self.same_stream(old(self)),
                self.errors@ == old(self).errors@,
                old(self).pos <= self.pos,
                forall|k: int|
                    old(self).pos <= k < self.pos ==> #[trigger] self.bytes@[k] == 0x5fu8
                        || spec_valid_digit(self.bytes@[k], base),
            ensures
                self.pos == self.bytes@.len() || !(self.bytes@[self.pos as int] == 0x5fu8
                    || spec_valid_digit(self.bytes@[self.pos as int], base)),
            decreases self.bytes@.len() - self.pos,
        {
            match self.peek() {
                Some(c) => {
                    if !(c == 0x5f || valid_digit(c, base)) {
                        break;
                    }
                    self.bump();
                },
                None => break,
            }
        }
        proof {
            lemma_digit_run_end(self.bytes@, old(self).pos as int, self.pos as int, base);
        }
    }

    /// Consumes a type suffix (`u8`, `f64`, ...) if one starts here, and
    /// returns its index in the suffix table.
    fn numeric_suffix(&mut self) -> (r: Option<usize>)
        requires
            old(self).inv(),
        ensures
            final(self).inv(),
            final(self).same_stream(old(self)),
            final(self).errors@ == old(self).errors@,
            old(self).pos <= final(self).pos,
            r matches Some(i) ==> i < 13 && starts_with_suffix(
                final(self).bytes@,
                old(self).pos as int,
                i as int,
            ) && final(self).pos == old(self).pos + numeric_suffix_bytes(i as int).len()
                && forall|j: int|
                0 <= j < i ==> !starts_with_suffix(final(self).bytes@, old(self).pos as int, j),
            r is None ==> final(self).pos == old(self).pos && forall|j: int|
                0 <= j < 13 ==> !starts_with_suffix(final(self).bytes@, old(self).pos as int, j),
            forall|k: int|
                old(self).pos <= k < final(self).pos ==> #[trigger] final(self).bytes@[k] != 0x5fu8
                    && final(self).bytes@[k] != 0x2eu8,
        final(self).pos == old(self).pos + match suffix_from(old(self).bytes@, old(self).pos as int, 0) {
            Some(i) => numeric_suffix_bytes(i).len() as int,
            None => 0int,
        },
        r == (match suffix_from(old(self).bytes@, old(self).pos as int, 0) {
            Some(i) => Some(i as usize),
            None => None::<usize>,
        }),
    {
        let mut i: usize = 0;
        while i < 13
            invariant
                self.inv(),
                self.same_stream(old(self)),
                self.errors@ == old(self).errors@,
                self.pos == old(self).pos,
                i <= 13,
                forall|j: int| 0 <= j < i ==> !starts_with_suffix(self.bytes@, old(self).pos as int, j),
            decreases 13 - i,
        {
            let suffix = numeric_suffix_text(i);
            if self.starts_with(suffix) {
                let n = suffix.len();
                let mut k: usize = 0;
                proof {
                    lemma_suffix_bytes(i as int);
                }
                while k < n
                    invariant
                        self.inv(),
                        self.same_stream(old(self)),
                        self.errors@ == old(self).errors@,
                        k <= n,
                        n == numeric_suffix_bytes(i as int).len(),
                        self.pos == old(self).pos + k,
                        old(self).pos + n <= self.bytes@.len(),
                        self.bytes@.subrange(old(self).pos as int, old(self).pos + n)
                            == numeric_suffix_bytes(i as int),
                        forall|j: int|
                            0 <= j < n ==> #[trigger] numeric_suffix_bytes(i as int)[j] < 0x80
                                && numeric_suffix_bytes(i as int)[j] != 0x5fu8
                                && numeric_suffix_bytes(i as int)[j] != 0x2eu8,
                        forall|j: int|
                            old(self).pos <= j < self.pos ==> #[trigger] self.bytes@[j] != 0x5fu8
                                && self.bytes@[j] != 0x2eu8,
                    decreases n - k,
                {
                    proof {
                        assert(self.bytes@.subrange(old(self).pos as int, old(self).pos + n)[k as int]
                            == self.bytes@[self.pos as int]);
                    }
                    self.bump();
                    k = k + 1;
                }
                proof {
                    lemma_suffix_from(self.bytes@, old(self).pos as int, 0, i as int);
                }
                return Some(i);
            }
            i = i + 1;
        }
        proof {
            lemma_suffix_from(self.bytes@, old(self).pos as int, 0, 13);
        }
        None
    }

    fn validate_numeric_body(&mut self, start: usize)
        requires
            old(self).inv(),
            start <= old(self).pos,
        ensures
            final(self).inv(),
            final(self).same_stream(old(self)),
            final(self).pos == old(self).pos,
            old(self).errors@.len() <= final(self).errors@.len(),
            final(self).errors@.len() == old(self).errors@.len() ==> separators_ok(
                final(self).bytes@,
                start as int,
                numeric_body_end(final(self).bytes@, start as int, final(self).pos as int),
            ),
            diags_of(final(self).errors@) == diags_of(old(self).errors@) + (if separators_ok(
                final(self).bytes@,
                start as int,
                numeric_body_end(final(self).bytes@, start as int, final(self).pos as int),
            ) {
                Seq::<Diag>::empty()
            } else {
                seq![
                    diag(
                        "numeric separators must appear between digits"@,
                        start as int,
                        final(self).pos as int,
                    ),
                ]
            }),
    {
        // Strip the first suffix in table order that ends the literal.
        let mut body_end: usize = self.pos;
        let mut i: usize = 0;
        while i < 13
            invariant_except_break
                body_end == self.pos,
            invariant
                self.inv(),
                start <= body_end <= self.pos,
                i <= 13,
                numeric_body_end(self.bytes@, start as int, self.pos as int) == body_end_from(
                    self.bytes@,
                    start as int,
                    self.pos as int,
                    i as int,
                ),
            ensures
                start <= body_end <= self.pos,
                body_end == numeric_body_end(self.bytes@, start as int, self.pos as int),
            decreases 13 - i,
        {
            let suffix = numeric_suffix_text(i);
            if self.ends_with_at(start, suffix) {
                body_end = self.pos - suffix.len();
                break;
            }
            i = i + 1;
        }
        let mut index: usize = start;
        while index < body_end
            invariant_except_break
                self.errors@ == old(self).errors@,
            invariant
                self.inv(),
                self.same_stream(old(self)),
                self.pos == old(self).pos,
                old(self).errors@.len() <= self.errors@.len(),
                start <= index <= body_end <= self.pos,
                body_end == numeric_body_end(self.bytes@, start as int, self.pos as int),
                self.errors@.len() == old(self).errors@.len() ==> forall|k: int|
                    start <= k < index && #[trigger] self.bytes@[k] == 0x5fu8 ==> start < k && k
                        + 1 < body_end && is_hex_byte(self.bytes@[k - 1]) && is_hex_byte(
                        self.bytes@[k + 1],
                    ),
            ensures
                self.errors@.len() == old(self).errors@.len() ==> separators_ok(
                    self.bytes@,
                    start as int,
                    body_end as int,
                ),
                self.errors@ == old(self).errors@ || (!separators_ok(
                    self.bytes@,
                    start as int,
                    body_end as int,
                ) && diags_of(self.errors@) == diags_of(old(self).errors@).push(
                    diag(
                        "numeric separators must appear between digits"@,
                        start as int,
                        self.pos as int,
                    ),
                )),
            decreases body_end - index,
        {
            if self.bytes[index] == 0x5f {
                let valid_prev = index > start && is_ascii_hexdigit(self.bytes[index - 1]);
                let valid_next = index + 1 < body_end && is_ascii_hexdigit(self.bytes[index + 1]);
                if !valid_prev || !valid_next {
                    self.error(
                        String::from_str("numeric separators must appear between digits"),
                        start,
                        self.pos,
                    );
                    proof {
                        let k = index as int;
                        assert(self.bytes@[k] == 0x5fu8);
                        assert(!(start < k && k + 1 < body_end && is_hex_byte(self.bytes@[k - 1])
                            && is_hex_byte(self.bytes@[k + 1])));
                    }
                    break;
                }
            }
            index = index + 1;
        }
    }

    fn string(&mut self)
        requires
            old(self).inv(),
            old(self).pos < old(self).bytes@.len(),
            old(self).bytes@[old(self).pos as int] == 0x22,
        ensures
            final(self).inv(),
            final(self).source == old(self).source,
            final(self).bytes@ == old(self).bytes@,
            final(self).pos > old(self).pos,
            final(self).step_from(old(self)),
            final(self).took(old(self), spec_string(old(self).bytes@, old(self).pos as int)),
    {
        let start = self.pos;
        self.bump();
        let ghost full = string_scan(self.bytes@, start as int, start + 1);
        loop
            invariant
                self.inv(),
                self.same_stream(old(self)),
                start == old(self).pos,
                start < self.pos,
                self.token_start_ok(start as int),
                self.bytes@[start as int] == 0x22,
                full == string_scan(self.bytes@, start as int, start + 1),
                self.tokens@ == old(self).tokens@,
                string_scan(self.bytes@, start as int, self.pos as int).0 == full.0,
                string_scan(self.bytes@, start as int, self.pos as int).1 == full.1,
                diags_of(self.errors@) + string_scan(self.bytes@, start as int, self.pos as int).2
                    == diags_of(old(self).errors@) + full.2,
                old(self).errors@.len() <= self.errors@.len(),
                self.errors@.len() == old(self).errors@.len() ==> string_body_ok(
                    self.bytes@,
                    start + 1,
                    self.pos as int,
                ),
            ensures
                self.pos == self.bytes@.len(),
            decreases self.bytes@.len() - self.pos,
        {
            let ghost here = self.pos as int;
            match self.peek() {
                Some(ch) => {
                    if ch == 0x22 {
                        let ghost close = self.pos;
                        self.bump();
                        proof {
                            let t = self.bytes@.subrange(start as int, self.pos as int);
                            assert(t[0] == self.bytes@[start as int]);
                            assert(t[t.len() - 1] == self.bytes@[close as int]);
                        }
                        self.push(TokenKind::StringLit, start, self.pos);
                        proof {
                            assert(self.tokens@ =~= old(self).tokens@ + seq![
                                tok(TokenKind::StringLit, start as int, self.pos as int),
                            ]);
                            assert(diags_of(self.errors@) =~= diags_of(old(self).errors@) + full.2);
                            self.lemma_last_token(start as int);
                        }
                        return;
                    } else if ch == 0x5c {
                        let ghost before = diags_of(self.errors@);
                        self.escape(start);
                        proof {
                            assert(before + string_scan(self.bytes@, start as int, here).2 =~= diags_of(
                                self.errors@,
                            ) + string_scan(self.bytes@, start as int, self.pos as int).2);
                            if self.errors@.len() == old(self).errors@.len() {
                                lemma_string_body_step(
                                    self.bytes@,
                                    start + 1,
                                    here,
                                    self.pos as int,
                                );
                            }
                        }
                    } else {
                        self.bump();
                        proof {
                            if self.errors@.len() == old(self).errors@.len() {
                                lemma_string_body_plain(
                                    self.bytes@,
                                    start + 1,
                                    here,
                                    self.pos as int,
                                );
                            }
                        }
                    }
                },
                None => break,
            }
        }
        let ghost before = diags_of(self.errors@);
        proof {
            assert(string_scan(self.bytes@, start as int, self.pos as int).2 == Seq::<Diag>::empty());
        }
        self.error(String::from_str("unterminated string literal"), start, self.pos);
        proof {
            assert(before =~= diags_of(old(self).errors@) + full.2) by {
                assert(before + Seq::<Diag>::empty() =~= before);
            }
            assert(diags_of(self.errors@) =~= diags_of(old(self).errors@) + full.2.push(
                diag("unterminated string literal"@, start as int, self.pos as int),
            ));
            assert(self.tokens@ =~= old(self).tokens@ + Seq::<Token>::empty());
        }
    }

    fn lifetime_or_char(&mut self)
        requires
            old(self).inv(),
            old(self).pos < old(self).bytes@.len(),
            old(self).bytes@[old(self).pos as int] == 0x27,
        ensures
            final(self).inv(),
            final(self).source == old(self).source,
            final(self).bytes@ == old(self).bytes@,
            final(self).pos > old(self).pos,
            final(self).step_from(old(self)),
            final(self).took(old(self), spec_quote(old(self).bytes@, old(self).pos as int)),
    {
        let start = self.pos;
        self.bump();
        let first = self.peek();
        if first.is_some() && is_ident_start(first.unwrap()) {
            let ident_start = self.pos;
            self.bump();
            loop
                invariant
                    self.inv(),
                    self.same_stream(old(self)),
                    ident_start == start + 1,
                    ident_start < self.pos,
                    self.errors@ == old(self).errors@,
                    self.token_start_ok(start as int),
                    self.bytes@[start as int] == 0x27,
                    ident_start_byte(self.bytes@[ident_start as int]),
                    self.tokens@ == old(self).tokens@,
                    forall|i: int| ident_start < i < self.pos ==> ident_continue_byte(#[trigger] self.bytes@[i]),
                ensures
                    self.pos == self.bytes@.len() || !ident_continue_byte(self.bytes@[self.pos as int]),
                decreases self.bytes@.len() - self.pos,
            {
                match self.peek() {
                    Some(c) => {
                        if !is_ident_continue(c) {
                            break;
                        }
                        self.bump();
                    },
                    None => break,
                }
            }
            proof {
                lemma_word_end(self.bytes@, ident_start + 1, self.pos as int);
            }
            let close = self.peek();
            if !(close == Some(0x27u8)) {
                proof {
                    let t = self.bytes@.subrange(start as int, self.pos as int);
                    assert(t[0] == self.bytes@[start as int]);
                    assert(t[1] == self.bytes@[ident_start as int]);
                }
                self.push(TokenKind::Lifetime, start, self.pos);
                proof {
                    assert(self.tokens@ =~= old(self).tokens@ + seq![
                        tok(TokenKind::Lifetime, start as int, self.pos as int),
                    ]);
                    assert(diags_of(self.errors@) =~= diags_of(old(self).errors@) + Seq::<Diag>::empty());
                    self.lemma_last_token(start as int);
                }
                return;
            }
            if self.pos - ident_start != 1 {
                self.error(
                    String::from_str("character literal contains more than one scalar"),
                    start,
                    self.pos + 1,
                );
            }
            let ghost close = self.pos;
            self.bump();
            proof {
                let t = self.bytes@.subrange(start as int, self.pos as int);
                assert(t[0] == self.bytes@[start as int]);
                assert(t[t.len() - 1] == self.bytes@[close as int]);
            }
            self.push(TokenKind::CharLit, start, self.pos);
            proof {
                assert(self.tokens@ =~= old(self).tokens@ + seq![
                    tok(TokenKind::CharLit, start as int, self.pos as int),
                ]);
                if close - ident_start != 1 {
                    assert(diags_of(self.errors@) =~= diags_of(old(self).errors@) + seq![
                        diag(
                            "character literal contains more than one scalar"@,
                            start as int,
                            close + 1,
                        ),
                    ]);
                } else {
                    assert(diags_of(self.errors@) =~= diags_of(old(self).errors@) + Seq::<Diag>::empty());
                }
                self.lemma_last_token(start as int);
            }
            return;
        }
        let ghost mid = diags_of(self.errors@);
        let next = self.peek();
        if next == Some(0x5cu8) {
            self.escape(start);
        } else if next.is_some() && next != Some(0x27u8) && next != Some(0x0au8) && next != Some(
            0x0du8,
        ) {
            self.bump();
        }
        let ghost kd = {
            let b = self.bytes@;
            let i = start + 1;
            if byte_is(b, i, 0x5cu8) {
                spec_escape(b, i, start as int)
            } else if 0 <= i < b.len() && b[i] != 0x27u8 && !is_line_break(b[i]) {
                (next_pos(b, i), Seq::<Diag>::empty())
            } else {
                (i, Seq::<Diag>::empty())
            }
        };
        proof {
            assert(self.pos == kd.0);
            assert(diags_of(self.errors@) =~= mid + kd.1);
        }
        if self.peek() == Some(0x27u8) {
            let ghost close = self.pos;
            self.bump();
            proof {
                let t = self.bytes@.subrange(start as int, self.pos as int);
                assert(t[0] == self.bytes@[start as int]);
                assert(t[t.len() - 1] == self.bytes@[close as int]);
            }
            self.push(TokenKind::CharLit, start, self.pos);
            proof {
                assert(self.tokens@ =~= old(self).tokens@ + seq![
                    tok(TokenKind::CharLit, start as int, self.pos as int),
                ]);
                assert(mid =~= diags_of(old(self).errors@));
                self.lemma_last_token(start as int);
            }
        } else {
            let ghost pre = diags_of(self.errors@);
            self.error(String::from_str("unterminated character literal"), start, self.pos);
            proof {
                assert(mid =~= diags_of(old(self).errors@));
                let d = pre.subrange(mid.len() as int, pre.len() as int);
                assert(pre =~= mid + d);
                assert(diags_of(self.errors@) =~= mid + d.push(
                    diag("unterminated character literal"@, start as int, self.pos as int),
                ));
                assert(self.tokens@ =~= old(self).tokens@ + Seq::<Token>::empty());
            }
        }
    }

    /// Checks the escape sequence that starts at the current `\`.
    fn escape(&mut self, start: usize)
        requires
            old(self).inv(),
            start <= old(self).pos < old(self).bytes@.len(),
            old(self).bytes@[old(self).pos as int] == 0x5c,
        ensures
            final(self).inv(),
            final(self).same_stream(old(self)),
            final(self).pos > old(self).pos,
            old(self).errors@.len() <= final(self).errors@.len(),
            final(self).errors@.len() == old(self).errors@.len() ==> escape_end(
                final(self).bytes@,
                old(self).pos as int,
            ) == Some(final(self).pos as int),
            final(self).pos == spec_escape(final(self).bytes@, old(self).pos as int, start as int).0,
            diags_of(final(self).errors@) == diags_of(old(self).errors@) + spec_escape(
                final(self).bytes@,
                old(self).pos as int,
                start as int,
            ).1,
    {
        let ghost b = self.bytes@;
        let ghost i0 = self.pos as int;
        self.bump();
        let c = match self.peek() {
            Some(c) => c,
            None => {
                self.error(String::from_str("invalid escape sequence"), start, self.pos);
                return;
            },
        };
        if c == 0x6e || c == 0x72 || c == 0x74 || c == 0x5c || c == 0x22 || c == 0x27 || c
            == 0x30 {
            self.bump();
        } else if c == 0x78 {
            self.bump();
            let esc_start = self.pos;
            let ghost e0 = esc_start as int;
            let ghost gp1 = if 0 <= e0 < b.len() && is_hex_byte(b[e0]) { e0 + 1 } else { e0 };
            let ghost gp2 = if 0 <= gp1 < b.len() && is_hex_byte(b[gp1]) { gp1 + 1 } else { gp1 };
            let mut k: usize = 0;
            while k < 2
                invariant
                    self.inv(),
                    self.same_stream(old(self)),
                    self.errors@ == old(self).errors@,
                    esc_start <= self.pos <= esc_start + k,
                    esc_start == old(self).pos + 2,
                    self.bytes@ == b,
                    k <= 2,
                    e0 == esc_start,
                    gp1 == (if 0 <= e0 < b.len() && is_hex_byte(b[e0]) { e0 + 1 } else { e0 }),
                    gp2 == (if 0 <= gp1 < b.len() && is_hex_byte(b[gp1]) { gp1 + 1 } else { gp1 }),
                    k == 0 ==> self.pos == e0,
                    k == 1 ==> self.pos == gp1,
                    k == 2 ==> self.pos == gp2,
                    forall|i: int| esc_start <= i < self.pos ==> is_hex_byte(#[trigger] self.bytes@[i]),
                decreases 2 - k,
            {
                match self.peek() {
                    Some(d) => {
                        if is_ascii_hexdigit(d) {
                            self.bump();
                        }
                    },
                    None => {},
                }
                k = k + 1;
            }
            if self.pos - esc_start != 2 {
                self.error(String::from_str("ASCII byte escape needs two hex digits"), start, self.pos);
                return;
            }
            let value = hex_value(self.bytes, esc_start, self.pos);
            proof {
                assert(is_hex_byte(self.bytes@[esc_start as int]));
                assert(is_hex_byte(self.bytes@[esc_start + 1]));
            }
            if value > 0x7f {
                self.error(String::from_str("ASCII byte escape must be in 0x00..0x7F"), start, self.pos);
            }
        } else if c == 0x75 {
            self.bump();
            if self.peek() != Some(0x7bu8) {
                self.error(String::from_str("unicode escape needs `{`"), start, self.pos);
                return;
            }
            self.bump();
            let hex_start = self.pos;
            loop
                invariant
                    self.inv(),
                    self.same_stream(old(self)),
                    self.errors@ == old(self).errors@,
                    hex_start <= self.pos,
                    hex_start == old(self).pos + 3,
                    self.bytes@[old(self).pos + 2] == 0x7bu8,
                    forall|i: int| hex_start <= i < self.pos ==> is_hex_byte(#[trigger] self.bytes@[i]),
                ensures
                    self.pos == self.bytes@.len() || !is_hex_byte(self.bytes@[self.pos as int]),
                decreases self.bytes@.len() - self.pos,
            {
                match self.peek() {
                    Some(d) => {
                        if !is_ascii_hexdigit(d) {
                            break;
                        }
                        self.bump();
                    },
                    None => break,
                }
            }
            proof {
                lemma_hex_run_end(self.bytes@, hex_start as int, self.pos as int);
            }
            let count = self.pos - hex_start;
            if count == 0 || count > 6 || self.peek() != Some(0x7du8) {
                self.error(
                    String::from_str("unicode escape needs 1-6 hex digits and `}`"),
                    start,
                    self.pos,
                );
                return;
            }
            proof {
                lemma_hex_run_end(self.bytes@, hex_start as int, self.pos as int);
            }
            let value = hex_value(self.bytes, hex_start, self.pos);
            if !is_unicode_scalar(value) {
                self.error(
                    String::from_str("unicode escape must be a valid scalar value"),
                    start,
                    self.pos,
                );
            }
            self.bump();
        } else if c == 0x0a || c == 0x0d {
            self.bump();
            loop
                invariant
                    self.inv(),
                    self.same_stream(old(self)),
                    self.errors@ == old(self).errors@,
                    old(self).pos + 2 <= self.pos,
                    is_line_break(self.bytes@[old(self).pos + 1]),
                    forall|i: int|
                        old(self).pos + 2 <= i < self.pos ==> (#[trigger] self.bytes@[i] == 0x20u8
                            || self.bytes@[i] == 0x09u8),
                ensures
                    self.pos == self.bytes@.len() || !(self.bytes@[self.pos as int] == 0x20u8
                        || self.bytes@[self.pos as int] == 0x09u8),
                decreases self.bytes@.len() - self.pos,
            {
                match self.peek() {
                    Some(w) => {
                        if !(w == 0x20 || w == 0x09) {
                            break;
                        }
                        self.bump();
                    },
                    None => break,
                }
            }
            proof {
                lemma_blank_run_end(self.bytes@, old(self).pos + 2, self.pos as int);
            }
        } else {
            self.error(String::from_str("invalid escape sequence"), start, self.pos);
        }
    }

    /// Does the text at the current position start with `text`?
    fn starts_with(&self, text: &str) -> (r: bool)
        requires
            self.pos <= self.bytes@.len(),
        ensures
            r == (self.pos + text.spec_bytes().len() <= self.bytes@.len() && self.bytes@.subrange(
                self.pos as int,
                self.pos + text.spec_bytes().len(),
            ) == text.spec_bytes()),
    {
        let t = text.as_bytes();
        if t.len() > self.bytes.len() - self.pos {
            return false;
        }
        let mut i: usize = 0;
        while i < t.len()
            invariant
                self.pos + t@.len() <= self.bytes@.len(),
                self.bytes@.len() <= usize::MAX,
                i <= t@.len(),
                t@ == text.spec_bytes(),
                forall|j: int| 0 <= j < i ==> self.bytes@[self.pos + j] == t@[j],
            decreases t@.len() - i,
        {
            if self.bytes[self.pos + i] != t[i] {
                proof {
                    assert(self.bytes@.subrange(self.pos as int, self.pos + t@.len())[i as int]
                        != t@[i as int]);
                }
                return false;
            }
            i = i + 1;
        }
        proof {
            assert(self.bytes@.subrange(self.pos as int, self.pos + t@.len()) =~= t@);
        }
        true
    }

    /// Does the text from `start` up to the current position end with `text`?
    fn ends_with_at(&self, start: usize, text: &str) -> (r: bool)
        requires
            start <= self.pos <= self.bytes@.len(),
        ensures
            r == (start + text.spec_bytes().len() <= self.pos && self.bytes@.subrange(
                self.pos - text.spec_bytes().len(),
                self.pos as int,
            ) == text.spec_bytes()),
    {
        let t = text.as_bytes();
        if t.len() > self.pos - start {
            return false;
        }
        let base = self.pos - t.len();
        let mut i: usize = 0;
        while i < t.len()
            invariant
                base + t@.len() == self.pos,
                self.pos <= self.bytes@.len(),
                i <= t@.len(),
                t@ == text.spec_bytes(),
                forall|j: int| 0 <= j < i ==> self.bytes@[base + j] == t@[j],
            decreases t@.len() - i,
        {
            if self.bytes[base + i] != t[i] {
                proof {
                    assert(self.bytes@.subrange(base as int, self.pos as int)[i as int] != t@[i as int]);
                }
                return false;
            }
            i = i + 1;
        }
        proof {
            assert(self.bytes@.subrange(base as int, self.pos as int) =~= t@);
        }
        true
    }

    fn peek(&self) -> (r: Option<u8>)
        ensures
            self.pos < self.bytes@.len() ==> r == Some(self.bytes@[self.pos as int]),
            self.pos >= self.bytes@.len() ==> r is None,
    {
        if self.pos < self.bytes.len() {
            Some(self.bytes[self.pos])
        } else {
            None
        }
    }

    /// The byte `offset` places after the current one.
    fn byte_at(&self, offset: usize) -> (r: Option<u8>)
        requires
            self.pos <= self.bytes@.len(),
        ensures
            self.pos + offset < self.bytes@.len() ==> r == Some(self.bytes@[self.pos + offset]),
            self.pos + offset >= self.bytes@.len() ==> r is None,
    {
        if offset < self.bytes.len() - self.pos {
            Some(self.bytes[self.pos + offset])
        } else {
            None
        }
    }

    /// Steps over the current character (all of its bytes), if there is one.
    fn bump(&mut self)
        requires
            old(self).inv(),
        ensures
            final(self).inv(),
            final(self).same_stream(old(self)),
            final(self).errors@ == old(self).errors@,
            old(self).pos < old(self).bytes@.len() ==> final(self).pos > old(self).pos,
            old(self).pos >= old(self).bytes@.len() ==> final(self).pos == old(self).pos,
            old(self).pos < old(self).bytes@.len() && old(self).bytes@[old(self).pos as int]
                < 0x80 ==> final(self).pos == old(self).pos + 1,
            forall|k: int|
                old(self).pos < k < final(self).pos ==> 0x80 <= #[trigger] final(self).bytes@[k],
            final(self).pos == next_pos(final(self).bytes@, old(self).pos as int),
    {
        if self.pos < self.bytes.len() {
            let ghost p = self.pos as int;
            let ghost b = self.bytes@;
            proof {
                if b[p] < 0x80 {
                    lemma_ascii_step(b, p);
                    lemma_boundary_iff(b, p + 1);
                }
            }
            self.pos = self.pos + 1;
            while self.pos < self.bytes.len() && 0x80 <= self.bytes[self.pos] && self.bytes[self.pos]
                <= 0xbf
                invariant
                    self.bytes@ == b,
                    self.bytes@ == old(self).bytes@,
                    self.source == old(self).source,
                    self.tokens@ == old(self).tokens@,
                    self.errors@ == old(self).errors@,
                    p < self.pos <= b.len(),
                    p == old(self).pos,
                    b[p] < 0x80 ==> self.pos == p + 1,
                    b[p] < 0x80 && p + 1 < b.len() ==> !is_continuation_byte(b[p + 1]),
                    forall|k: int| p < k < self.pos ==> 0x80 <= #[trigger] b[k] <= 0xbf,
                decreases b.len() - self.pos,
            {
                self.pos = self.pos + 1;
            }
            proof {
                lemma_boundary_iff(b, self.pos as int);
                lemma_cont_end(b, p + 1, self.pos as int);
            }
        }
    }

    fn single(&mut self, kind: TokenKind)
        requires
            old(self).inv(),
            !has_checked_body(kind),
            ends_maximally(kind, old(self).bytes@, old(self).pos + 1),
            old(self).pos < old(self).bytes@.len(),
            old(self).bytes@[old(self).pos as int] < 0x80,
            token_shape_ok(kind, seq![old(self).bytes@[old(self).pos as int]]),
        ensures
            final(self).inv(),
            final(self).source == old(self).source,
            final(self).bytes@ == old(self).bytes@,
            final(self).pos > old(self).pos,
            final(self).step_from(old(self)),
            final(self).took(old(self), punct(kind, old(self).pos as int, 1)),
    {
        let start = self.pos;
        self.bump();
        proof {
            assert(self.bytes@.subrange(start as int, self.pos as int) =~= seq![
                self.bytes@[start as int],
            ]);
        }
        self.push(kind, start, self.pos);
        proof {
            self.lemma_last_token(start as int);
            assert(self.tokens@ =~= old(self).tokens@ + seq![tok(kind, start as int, self.pos as int)]);
            assert(diags_of(self.errors@) =~= diags_of(old(self).errors@) + Seq::<Diag>::empty());
        }
    }

    fn double(&mut self, kind: TokenKind)
        requires
            old(self).inv(),
            !has_checked_body(kind),
            ends_maximally(kind, old(self).bytes@, old(self).pos + 2),
            old(self).pos + 1 < old(self).bytes@.len(),
            old(self).bytes@[old(self).pos as int] < 0x80,
            old(self).bytes@[old(self).pos + 1] < 0x80,
            token_shape_ok(
                kind,
                seq![old(self).bytes@[old(self).pos as int], old(self).bytes@[old(self).pos + 1]],
            ),
        ensures
            final(self).inv(),
            final(self).source == old(self).source,
            final(self).bytes@ == old(self).bytes@,
            final(self).pos > old(self).pos,
            final(self).step_from(old(self)),
            final(self).took(old(self), punct(kind, old(self).pos as int, 2)),
    {
        let start = self.pos;
        self.bump();
        self.bump();
        proof {
            assert(self.bytes@.subrange(start as int, self.pos as int) =~= seq![
                self.bytes@[start as int],
                self.bytes@[start + 1],
            ]);
        }
        self.push(kind, start, self.pos);
        proof {
            self.lemma_last_token(start as int);
            assert(self.tokens@ =~= old(self).tokens@ + seq![tok(kind, start as int, self.pos as int)]);
            assert(diags_of(self.errors@) =~= diags_of(old(self).errors@) + Seq::<Diag>::empty());
        }
    }

    fn triple(&mut self, kind: TokenKind)
        requires
            old(self).inv(),
            !has_checked_body(kind),
            ends_maximally(kind, old(self).bytes@, old(self).pos + 3),
            old(self).pos + 2 < old(self).bytes@.len(),
            old(self).bytes@[old(self).pos as int] < 0x80,
            old(self).bytes@[old(self).pos + 1] < 0x80,
            old(self).bytes@[old(self).pos + 2] < 0x80,
            token_shape_ok(
                kind,
                seq![
                    old(self).bytes@[old(self).pos as int],
                    old(self).bytes@[old(self).pos + 1],
                    old(self).bytes@[old(self).pos + 2],
                ],
            ),
        ensures
            final(self).inv(),
            final(self).source == old(self).source,
            final(self).bytes@ == old(self).bytes@,
            final(self).pos > old(self).pos,
            final(self).step_from(old(self)),
            final(self).took(old(self), punct(kind, old(self).pos as int, 3)),
    {
        let start = self.pos;
        self.bump();
        self.bump();
        self.bump();
        proof {
            assert(self.bytes@.subrange(start as int, self.pos as int) =~= seq![
                self.bytes@[start as int],
                self.bytes@[start + 1],
                self.bytes@[start + 2],
            ]);
        }
        self.push(kind, start, self.pos);
        proof {
            self.lemma_last_token(start as int);
            assert(self.tokens@ =~= old(self).tokens@ + seq![tok(kind, start as int, self.pos as int)]);
            assert(diags_of(self.errors@) =~= diags_of(old(self).errors@) + Seq::<Diag>::empty());
        }
    }

    fn push(&mut self, kind: TokenKind, start: usize, end: usize)
        requires
            old(self).inv(),
            end == old(self).pos,
            start < end,
            old(self).token_start_ok(start as int),
            token_shape_ok(kind, old(self).bytes@.subrange(start as int, end as int)),
            ends_maximally(kind, old(self).bytes@, end as int),
            old(self).errors@.len() == 0 ==> literal_ok(
                Token { kind, span: Span { start, end } },
                old(self).bytes@,
            ),
        ensures
            final(self).inv(),
            final(self).source == old(self).source,
            final(self).bytes@ == old(self).bytes@,
            final(self).pos == old(self).pos,
            final(self).errors@ == old(self).errors@,
            final(self).tokens@ == old(self).tokens@.push(Token { kind, span: Span { start, end } }),
    {
        self.tokens.push(Token { kind, span: Span::new(start, end) });
        proof {
            let toks = self.tokens@;
            assert forall|i: int, j: int| 0 <= i < j < toks.len() implies (#[trigger] toks[i]).span.end
                <= (#[trigger] toks[j]).span.start by {
                if j == toks.len() - 1 {
                    assert(toks[i] == old(self).tokens@[i]);
                } else {
                    assert(toks[i] == old(self).tokens@[i]);
                    assert(toks[j] == old(self).tokens@[j]);
                }
            }
            assert forall|i: int| 0 <= i < toks.len() implies token_fits(
                #[trigger] toks[i],
                self.bytes@,
            ) by {
                if i < toks.len() - 1 {
                    assert(toks[i] == old(self).tokens@[i]);
                }
            }
            assert forall|i: int| 0 <= i < toks.len() implies (#[trigger] toks[i]).span.end
                <= self.pos by {
                if i < toks.len() - 1 {
                    assert(toks[i] == old(self).tokens@[i]);
                }
            }
            assert forall|i: int| 0 <= i < toks.len() implies token_maximal(
                #[trigger] toks[i],
                self.bytes@,
            ) by {
                if i < toks.len() - 1 {
                    assert(toks[i] == old(self).tokens@[i]);
                }
            }
            if self.errors@.len() == 0 {
                assert forall|i: int| 0 <= i < toks.len() implies literal_ok(
                    #[trigger] toks[i],
                    self.bytes@,
                ) by {
                    if i < toks.len() - 1 {
                        assert(toks[i] == old(self).tokens@[i]);
                    }
                }
            }
        }
    }

    fn error(&mut self, message: String, start: usize, end: usize)
        requires
            old(self).inv(),
            start <= end <= old(self).bytes@.len(),
        ensures
            final(self).inv(),
            final(self).same_stream(old(self)),
            final(self).pos == old(self).pos,
            final(self).errors@.len() == old(self).errors@.len() + 1,
            diags_of(final(self).errors@) == diags_of(old(self).errors@).push(
                diag(message@, start as int, end as int),
            ),
    {
        self.errors.push(LexError { message, span: Span::new(start, end) });
        proof {
            lemma_diags_push(old(self).errors@, LexError { message, span: Span { start, end } });
        }
        proof {
            assert forall|i: int| 0 <= i < self.errors@.len() implies error_fits(
                #[trigger] self.errors@[i],
                self.bytes@.len() as int,
            ) by {
                if i < self.errors@.len() - 1 {
                    assert(self.errors@[i] == old(self).errors@[i]);
                }
            }
        }
    }
}

/// An ASCII text whose characters are the given bytes is encoded as them.
proof fn lemma_ascii_text(s: &str, bytes: Seq<u8>)
    requires
        s@.len() == bytes.len(),
        forall|k: int| 0 <= k < bytes.len() ==> bytes[k] < 0x80 && #[trigger] s@[k] as u8 == bytes[k]
            && s@[k] as int == bytes[k] as int,
    ensures
        s.spec_bytes() == bytes,
{
    assert(is_ascii_chars(s@));
    is_ascii_chars_encode_utf8(s@);
    assert(s.spec_bytes() =~= bytes);
}

/// The numeric type suffixes, in the order they are tried.
fn numeric_suffix_text(i: usize) -> (r: &'static str)
    ensures
        r.spec_bytes() == numeric_suffix_bytes(i as int),
{
    let r = if i == 0 { "i128" }
    else if i == 1 { "u128" }
    else if i == 2 { "u256" }
    else if i == 3 { "i64" }
    else if i == 4 { "u64" }
    else if i == 5 { "f64" }
    else if i == 6 { "i32" }
    else if i == 7 { "u32" }
    else if i == 8 { "f32" }
    else if i == 9 { "i16" }
    else if i == 10 { "u16" }
    else if i == 11 { "i8" }
    else { "u8" };
    proof {
        reveal_strlit("i128");
        reveal_strlit("u128");
        reveal_strlit("u256");
        reveal_strlit("i64");
        reveal_strlit("u64");
        reveal_strlit("f64");
        reveal_strlit("i32");
        reveal_strlit("u32");
        reveal_strlit("f32");
        reveal_strlit("i16");
        reveal_strlit("u16");
        reveal_strlit("i8");
        reveal_strlit("u8");
        lemma_ascii_text(r, numeric_suffix_bytes(i as int));
    }
    r
}

/// The suffixes `f64` and `f32` make a literal a float.
fn is_float_suffix(i: usize) -> (r: bool)
    ensures
        r == (i == 5 || i == 8),
{
    i == 5 || i == 8
}

/// The value of a run of at most six hex digits.
fn hex_value(bytes: &[u8], start: usize, end: usize) -> (r: u32)
    requires
        start <= end <= bytes@.len(),
        end - start <= 6,
        forall|i: int| start <= i < end ==> is_hex_byte(#[trigger] bytes@[i]),
    ensures
        r < 0x1000000,
        r == hex_run_value(bytes@, start as int, end as int),
{
    let mut value: u32 = 0;
    let mut i: usize = start;
    while i < end
        invariant
            start <= i <= end,
            end <= bytes@.len(),
            end - start <= 6,
            forall|j: int| start <= j < end ==> is_hex_byte(#[trigger] bytes@[j]),
            value < pow16((i - start) as nat),
            value == hex_run_value(bytes@, start as int, i as int),
        decreases end - i,
    {
        let d = hex_digit_value(bytes[i]);
        proof {
            assert(pow16((i - start + 1) as nat) == 16 * pow16((i - start) as nat));
        }
        value = value * 16 + d;
        i = i + 1;
    }
    value
}

spec fn pow16(k: nat) -> int {
    if k == 0 { 1 }
    else if k == 1 { 0x10 }
    else if k == 2 { 0x100 }
    else if k == 3 { 0x1000 }
    else if k == 4 { 0x10000 }
    else if k == 5 { 0x100000 }
    else if k == 6 { 0x1000000 }
    else { 0x10000000 }
}

fn hex_digit_value(b: u8) -> (r: u32)
    requires
        is_hex_byte(b),
    ensures
        r < 16,
        r == hex_digit(b),
{
    if b <= 0x39 {
        (b - 0x30) as u32
    } else if b <= 0x46 {
        (b - 0x41 + 10) as u32
    } else {
        (b - 0x61 + 10) as u32
    }
}

/// Is `value` a Unicode scalar value (what `char::from_u32` accepts)?
fn is_unicode_scalar(value: u32) -> (r: bool)
    ensures
        r == (value <= 0x10ffff && !(0xd800 <= value <= 0xdfff)),
{
    value <= 0x10ffff && !(0xd800 <= value && value <= 0xdfff)
}

fn is_ident_start(b: u8) -> (r: bool)
    ensures
        r == ident_start_byte(b),
{
    (0x41 <= b && b <= 0x5a) || (0x61 <= b && b <= 0x7a) || b == 0x5f
}

fn is_ident_continue(b: u8) -> (r: bool)
    ensures
        r == ident_continue_byte(b),
{
    is_ident_start(b) || (0x30 <= b && b <= 0x39)
}

fn is_ascii_hexdigit(b: u8) -> (r: bool)
    ensures
        r == is_hex_byte(b),
{
    (0x30 <= b && b <= 0x39) || (0x41 <= b && b <= 0x46) || (0x61 <= b && b <= 0x66)
}

fn valid_digit(b: u8, base: u8) -> (r: bool)
    ensures
        r == spec_valid_digit(b, base),
{
    if base == 2 {
        b == 0x30 || b == 0x31
    } else if base == 8 {
        0x30 <= b && b <= 0x37
    } else if base == 10 {
        0x30 <= b && b <= 0x39
    } else if base == 16 {
        is_ascii_hexdigit(b)
    } else {
        false
    }
}

} // verus!
