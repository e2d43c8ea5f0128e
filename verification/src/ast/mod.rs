//! The statements of a source text and their reduction to data.

pub mod arguments;
pub mod directive;
pub mod expr;
pub mod instruction;
pub mod label;
pub mod statement;

use vstd::prelude::*;
use crate::context::{Context, LabelError};
use crate::text::deep;

pub use crate::ast::arguments::{ArgumentError, ArgumentErrorView, Arguments};
pub use crate::ast::directive::{Macro, MacroKind, MacroView};
pub use crate::ast::expr::{Compound, Expr, ExprView, Operator};
pub use crate::ast::instruction::{Instruction, InstructionView};
pub use crate::ast::label::{Label, LabelView};
pub use crate::ast::statement::{Statement, StatementView, Step};

verus! {

/// The place of a token in the source text: the offsets of its first byte
/// and of the byte after its last.
#[derive(Debug, Clone, Copy, PartialEq, Eq, Structural)]
pub struct Pair {
    pub start: usize,
    pub end: usize,
}

/// Why a statement could not be reduced. Every error ends the assembly.
#[derive(Debug)]
#[allow(inconsistent_fields)]
pub enum ReduceError {
    /// The mnemonic is not in the instruction set.
    UnknownInstruction(Pair),
    /// The operand names a symbol that the instruction set does not hold.
    UnknownIdentifier(Pair),
    /// The operand is of a kind that cannot stand where it stands.
    TypeError,
    /// There are more operands than the instruction takes.
    UnexpectedArgument { instruction: Pair, arguments: Vec<Pair>, expected: usize, found: usize },
    /// There are fewer operands than the instruction takes.
    ExpectedArgument { instruction: Pair, expected: usize, found: usize },
    /// The symbol does not carry the tag that the slot asks for. `expected`
    /// holds the tags of the symbol, `found` the tag of the slot.
    ExpectedType { argument: Pair, expected: Vec<Vec<u8>>, found: Vec<u8> },
    /// The label is bound already.
    LabelRedeclaration { label: Pair },
    /// The leading dots of the label do not match the depth of the scope.
    InvalidLabel { label: Pair },
    /// The statement still refers to something unknown after the last pass.
    Unresolved { statement: Pair },
    /// An address lies outside the image.
    OutOfRange,
}

/// A `ReduceError` as a mathematical value.
#[allow(inconsistent_fields)]
pub enum ReduceErrorView {
    UnknownInstruction(Pair),
    UnknownIdentifier(Pair),
    TypeError,
    UnexpectedArgument { instruction: Pair, arguments: Seq<Pair>, expected: usize, found: usize },
    ExpectedArgument { instruction: Pair, expected: usize, found: usize },
    ExpectedType { argument: Pair, expected: Seq<Seq<u8>>, found: Seq<u8> },
    LabelRedeclaration { label: Pair },
    InvalidLabel { label: Pair },
    Unresolved { statement: Pair },
    OutOfRange,
}

impl View for ReduceError {
    type V = ReduceErrorView;

    open spec fn view(&self) -> ReduceErrorView {
        match self {
            ReduceError::UnknownInstruction(pair) => ReduceErrorView::UnknownInstruction(*pair),
            ReduceError::UnknownIdentifier(pair) => ReduceErrorView::UnknownIdentifier(*pair),
            ReduceError::TypeError => ReduceErrorView::TypeError,
            ReduceError::UnexpectedArgument { instruction, arguments, expected, found } => {
                ReduceErrorView::UnexpectedArgument {
                    instruction: *instruction,
                    arguments: arguments@,
                    expected: *expected,
                    found: *found,
                }
            },
            ReduceError::ExpectedArgument { instruction, expected, found } => {
                ReduceErrorView::ExpectedArgument {
                    instruction: *instruction,
                    expected: *expected,
                    found: *found,
                }
            },
            ReduceError::ExpectedType { argument, expected, found } => {
                ReduceErrorView::ExpectedType {
                    argument: *argument,
                    expected: deep(expected@),
                    found: found@,
                }
            },
            ReduceError::LabelRedeclaration { label } => ReduceErrorView::LabelRedeclaration {
                label: *label,
            },
            ReduceError::InvalidLabel { label } => ReduceErrorView::InvalidLabel { label: *label },
            ReduceError::Unresolved { statement } => ReduceErrorView::Unresolved {
                statement: *statement,
            },
            ReduceError::OutOfRange => ReduceErrorView::OutOfRange,
        }
    }
}

impl ReduceErrorView {
    /// The error that a refused label at `label` gives.
    pub open spec fn from_label_err(err: LabelError, label: Pair) -> ReduceErrorView {
        match err {
            LabelError::Unavailable => ReduceErrorView::LabelRedeclaration { label },
            LabelError::InvalidLabel => ReduceErrorView::InvalidLabel { label },
            LabelError::OutOfRange => ReduceErrorView::OutOfRange,
        }
    }
}

impl ReduceError {
    /// The error that a refused label at `label` gives.
    pub fn from_label_err(err: LabelError, label: Pair) -> (r: Self)
        ensures
            r@ == ReduceErrorView::from_label_err(err, label),
    {
        match err {
            LabelError::Unavailable => ReduceError::LabelRedeclaration { label },
            LabelError::InvalidLabel => ReduceError::InvalidLabel { label },
            LabelError::OutOfRange => ReduceError::OutOfRange,
        }
    }
}

/// Whether a result stands for the given result of the model.
pub open spec fn agrees<T: View>(r: Result<T, ReduceError>, model: Result<T::V, ReduceErrorView>) -> bool {
    match (r, model) {
        (Ok(a), Ok(b)) => a@ == b,
        (Err(a), Err(b)) => a@ == b,
        _ => false,
    }
}

/// What can be reduced against a context.
pub trait Reduce: Sized {
    type Output;

    type Error;

    /// The invariant of the value.
    spec fn well_formed(&self) -> bool;

    /// Rewrites the value with what the context knows.
    fn reduce(self, ctx: &mut Context) -> (r: Result<Self::Output, Self::Error>)
        requires
            self.well_formed(),
            old(ctx).wf(),
        ensures
            final(ctx).wf(),
            final(ctx).is == old(ctx).is,
            final(ctx)@.counter == old(ctx)@.counter,
    ;

    /// Whether every reference in the value is resolved. Unless a type
    /// says otherwise, its values are never taken for resolved.
    fn is_reduced(&self) -> (r: bool)
        default_ensures
            !r,
    {
        false
    }
}

/// What names the labels and symbols that it refers to.
pub trait Dependencies {
    /// The names referred to, from left to right.
    spec fn spec_dependencies(&self) -> Seq<Seq<u8>>;

    /// The names referred to, from left to right.
    fn dependencies(&self) -> (r: Vec<Vec<u8>>)
        ensures
            deep(r@) == self.spec_dependencies(),
    ;
}

} // verus!
