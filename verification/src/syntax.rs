//! The syntax the type layer reads: source spans, diagnostics, patterns and
//! type annotations, as the parser hands them over.

use vstd::prelude::*;

verus! {

/// A stretch of source text, lines and columns counted from 1.
#[derive(Debug, Clone, Copy, PartialEq, Eq, Structural)]
pub struct Span {
    pub start_line: i32,
    pub start_column: i32,
    pub end_line: i32,
    pub end_column: i32,
}

impl Span {
    /// The one-character span at `line` and `column`.
    pub fn point(line: i32, column: i32) -> (r: Span)
        ensures
            r == (Span {
                start_line: line,
                start_column: column,
                end_line: line,
                end_column: column,
            }),
    {
        Span { start_line: line, start_column: column, end_line: line, end_column: column }
    }
}

/// What a diagnostic is about.
#[derive(Debug, Clone, Copy, PartialEq, Eq, Structural)]
pub enum DiagnosticCode {
    TypeError,
}

/// A message about the program, at the place it is about.
#[derive(Debug, Clone)]
pub struct Diagnostic {
    pub span: Span,
    pub code: DiagnosticCode,
    pub message: String,
}

impl Diagnostic {
    pub fn error(span: Span, code: DiagnosticCode, message: String) -> (r: Diagnostic)
        ensures
            r == (Diagnostic { span, code, message }),
    {
        Diagnostic { span, code, message }
    }
}

#[derive(Debug, Clone)]
pub struct Identifier {
    pub name: String,
    pub span: Span,
}

/// A number as written, with the value it has when that fits an `i64` and its
/// digits when it does not.
#[derive(Debug, Clone)]
pub struct NumberLiteral {
    pub value: String,
    pub int: Option<i64>,
    pub digits: String,
    pub span: Span,
}

#[derive(Debug, Clone)]
pub struct StringLiteral {
    pub value: String,
    pub span: Span,
}

#[derive(Debug, Clone)]
pub enum PatternLiteral {
    Number(NumberLiteral),
    String(StringLiteral),
}

#[derive(Debug)]
pub enum Pattern {
    Var { name: Identifier },
    Literal(PatternLiteral),
    Constructor {
        qualifier: Option<Identifier>,
        name: Identifier,
        args: Vec<PatternArg>,
        rest: bool,
        span: Span,
    },
    Tuple { elements: Vec<Pattern>, span: Span },
    Array { elements: Vec<ArrayPatternElement>, span: Span },
    Binary { segments: Vec<BinSegmentPat>, rest: Option<BinaryPatternRest>, span: Span },
    Or { first: Box<Pattern>, rest: Vec<Pattern>, span: Span },
    Range { start: NumberLiteral, end: NumberLiteral, span: Span },
}

#[derive(Debug)]
pub enum PatternArg {
    Positional(Pattern),
    Labeled { label: Identifier, pattern: Pattern },
}

#[derive(Debug)]
pub enum ArrayPatternElement {
    Spread { span: Span },
    Pattern(Pattern),
}

#[derive(Debug, Clone)]
pub struct BinaryPatternRest {
    pub binding: Option<Identifier>,
    pub span: Span,
}

/// One segment of a `<<>>` pattern.
#[derive(Debug)]
pub struct BinSegmentPat {
    pub value: Pattern,
    pub spec: BinSpec,
    pub span: Span,
}

/// What a segment holds, with the size it is written with: bits for an
/// integer, bytes for a binary.
#[derive(Debug, Clone)]
pub enum BinSpec {
    Int { bits: Option<SizeExpr> },
    Binary { bytes: Option<SizeExpr> },
    Utf8,
}

/// A segment's size: a number, or any other expression at its place.
#[derive(Debug, Clone)]
pub enum SizeExpr {
    NumberLiteral(NumberLiteral),
    Other { span: Span },
}

impl Pattern {
    /// Where the pattern stands.
    pub open spec fn spec_span(self) -> Span {
        match self {
            Pattern::Var { name } => name.span,
            Pattern::Literal(PatternLiteral::Number(n)) => n.span,
            Pattern::Literal(PatternLiteral::String(s)) => s.span,
            Pattern::Constructor { span, .. } => span,
            Pattern::Tuple { span, .. } => span,
            Pattern::Array { span, .. } => span,
            Pattern::Binary { span, .. } => span,
            Pattern::Or { span, .. } => span,
            Pattern::Range { span, .. } => span,
        }
    }

    pub fn span(&self) -> (r: Span)
        ensures
            r == self.spec_span(),
    {
        match self {
            Pattern::Var { name } => name.span,
            Pattern::Literal(PatternLiteral::Number(n)) => n.span,
            Pattern::Literal(PatternLiteral::String(s)) => s.span,
            Pattern::Constructor { span, .. } => *span,
            Pattern::Tuple { span, .. } => *span,
            Pattern::Array { span, .. } => *span,
            Pattern::Binary { span, .. } => *span,
            Pattern::Or { span, .. } => *span,
            Pattern::Range { span, .. } => *span,
        }
    }
}

/// A written type annotation.
#[derive(Debug)]
pub struct TypeIdentifier {
    pub kind: TypeKind,
    pub span: Span,
}

#[derive(Debug)]
pub enum TypeKind {
    NamedType(NamedType),
    TupleType(TupleType),
    FunctionType(FunctionType),
}

/// `qualifier.identifier(type_args...)`.
#[derive(Debug)]
pub struct NamedType {
    pub qualifier: Option<Identifier>,
    pub identifier: Identifier,
    pub type_args: Vec<TypeIdentifier>,
}

#[derive(Debug)]
pub struct TupleType {
    pub elements: Vec<TypeIdentifier>,
}

/// `fn(params...) return_type`, where the return type may be left out.
#[derive(Debug)]
pub struct FunctionType {
    pub params: Vec<TypeIdentifier>,
    pub return_type: Option<Box<TypeIdentifier>>,
}

} // verus!
