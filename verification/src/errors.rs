//! The errors that reading, checking and running a program can report.
use vstd::prelude::*;
use crate::ast::{MuxOption, Span, Loc, SpannedExpr, WireWidth, same_options};

verus! {

#[derive(Debug)]
pub enum Error {
    MismatchedMuxWidths(Vec<MuxOption>, Vec<WireWidth>),
    MismatchedExprWidths(SpannedExpr, WireWidth, SpannedExpr, WireWidth),
    MismatchedWireWidths(String, WireWidth, SpannedExpr, WireWidth),
    MismatchedRegisterDefaultWidths {
        bank: String,
        register_name: String,
        register_width: WireWidth,
        default_expression: SpannedExpr,
        expression_width: WireWidth,
    },
    DuplicateRegister { bank: String, register_name: String },
    RuntimeMismatchedWidths(),
    DivisionByZero(SpannedExpr),
    UndeclaredWireAssigned { name: String, span: Span, close_name: Option<String> },
    UndeclaredWireRead { name: String, expr: SpannedExpr, close_name: Option<String> },
    NonConstantWireRead(String, SpannedExpr),
    UnsetWire(String, Span),
    UnsetBuiltinWire(String),
    UnsetUndeclaredWire(String),
    UnsetRegisterInputWire { name: String, register_span: Span },
    RedeclaredWire(String, Span, Span),
    DoubleAssignedWire(String, Span, Span),
    DoubleAssignedRegisterWire { name: String, register_span: Span, assign_span: Span },
    DoubleDeclaredRegisterOutWire { name: String, old_span: Span, new_span: Span },
    DoubleAssignedFixedOutWire { name: String, span: Span, fixed_name: String },
    RedeclaredBuiltinWire { name: String, span: Span, fixed_name: String },
    PartialFixedInput { name: String, found_inputs: Vec<String>, missing_inputs: Vec<String> },
    WireLoop(Vec<String>),
    InvalidWireWidth(Span),
    InvalidRegisterBankName(String, Span),
    InvalidBitIndex(SpannedExpr, u8),
    NonBooleanWidth(SpannedExpr),
    NoBitWidth(SpannedExpr),
    MisorderedBitIndexes(SpannedExpr),
    InvalidConstant(Span),
    WireTooWide(SpannedExpr),
    ExpectedStatementFoundExpr(SpannedExpr),
    UnterminatedComment(Loc),
    LexicalError(Loc),
    InternalParserErrorNear(Span, String),
    MissingWireWidth(Span),
    WireAssignedInDeclaration(Span),
    MissingRegisterWidth(Span),
    AddedConstWidth(Span),
    MissingAssignmentMux(Span),
    RegisterDeclaredWithWire(Span),
    NoMuxDefaultOption(SpannedExpr),
    MultipleMuxDefaultOption(SpannedExpr),
    UnreachableOptions(SpannedExpr),
    EmptyFile(),
    UnparseableLine(String),
    InvalidToken(Loc),
    UnrecognizedToken { location: Span, expected: Vec<String> },
    ExtraToken(Span),
    MultipleErrors(Vec<Error>),
}

/// What evaluating or width-checking an expression can report, with the
/// expressions involved.
pub enum ExprFault {
    UndeclaredWireRead { name: Seq<char>, expr: SpannedExpr, close_name: Option<Seq<char>> },
    RuntimeMismatchedWidths,
    DivisionByZero(SpannedExpr),
    MismatchedExprWidths(SpannedExpr, WireWidth, SpannedExpr, WireWidth),
    MismatchedMuxWidths(Seq<MuxOption>, Seq<WireWidth>),
    NonBooleanWidth(SpannedExpr),
    NoBitWidth(SpannedExpr),
    MisorderedBitIndexes(SpannedExpr),
    InvalidBitIndex(SpannedExpr, u8),
    WireTooWide(SpannedExpr),
    NoMuxDefaultOption(SpannedExpr),
    MultipleMuxDefaultOption(SpannedExpr),
    UnreachableOptions(SpannedExpr),
    MismatchedSetWidths(SpannedExpr, WireWidth, Seq<(SpannedExpr, WireWidth)>),
}

pub open spec fn opt_view(o: Option<String>) -> Option<Seq<char>> {
    match o {
        Some(s) => Some(s@),
        None => None,
    }
}

impl Error {
    /// The error is a width mismatch between the two expressions, as the same trees.
    pub open spec fn reports_mismatched_widths(self, l: SpannedExpr, lw: WireWidth, r: SpannedExpr, rw: WireWidth) -> bool {
        match self {
            Error::MismatchedExprWidths(l2, lw2, r2, rw2) => l2.same_as(l) && lw == lw2 && r2.same_as(r) && rw == rw2,
            _ => false,
        }
    }

    /// The error reports the given fault, holding the same expressions.
    pub open spec fn reports(self, f: ExprFault) -> bool {
        match (self, f) {
            (
                Error::UndeclaredWireRead { name, expr, close_name },
                ExprFault::UndeclaredWireRead { name: n, expr: e, close_name: c },
            ) => name@ == n && expr.same_as(e) && opt_view(close_name) == c,
            (Error::RuntimeMismatchedWidths(), ExprFault::RuntimeMismatchedWidths) => true,
            (Error::DivisionByZero(e), ExprFault::DivisionByZero(x)) => e.same_as(x),
            (Error::MismatchedExprWidths(l, lw, r, rw), ExprFault::MismatchedExprWidths(l2, lw2, r2, rw2)) =>
                l.same_as(l2) && lw == lw2 && r.same_as(r2) && rw == rw2,
            (Error::MismatchedMuxWidths(options, widths), ExprFault::MismatchedMuxWidths(opts, ws)) => {
                &&& same_options(options@, opts, 0)
                &&& widths@ == ws
            },
            (Error::NonBooleanWidth(e), ExprFault::NonBooleanWidth(x)) => e.same_as(x),
            (Error::NoBitWidth(e), ExprFault::NoBitWidth(x)) => e.same_as(x),
            (Error::MisorderedBitIndexes(e), ExprFault::MisorderedBitIndexes(x)) => e.same_as(x),
            (Error::InvalidBitIndex(e, i), ExprFault::InvalidBitIndex(x, j)) => e.same_as(x) && i == j,
            (Error::WireTooWide(e), ExprFault::WireTooWide(x)) => e.same_as(x),
            (Error::NoMuxDefaultOption(e), ExprFault::NoMuxDefaultOption(x)) => e.same_as(x),
            (Error::MultipleMuxDefaultOption(e), ExprFault::MultipleMuxDefaultOption(x)) => e.same_as(x),
            (Error::UnreachableOptions(e), ExprFault::UnreachableOptions(x)) => e.same_as(x),
            (Error::MultipleErrors(errors), ExprFault::MismatchedSetWidths(l, lw, items)) => {
                &&& errors@.len() == items.len()
                &&& forall|i: int|
                    #![trigger errors@[i]]
                    0 <= i < items.len() ==> errors@[i].reports_mismatched_widths(l, lw, items[i].0, items[i].1)
            },
            _ => false,
        }
    }
}

} // verus!
