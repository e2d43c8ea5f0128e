//! Statements, and their place in the image once they are data.

use vstd::prelude::*;
use crate::ast::{Pair, Reduce, ReduceError, ReduceErrorView};
use crate::ast::directive::{Macro, MacroView};
use crate::ast::instruction::{Instruction, InstructionView};
use crate::ast::label::{Label, LabelView};
use crate::cis::InstructionSet;
use crate::context::{Context, State, IMAGE_WORDS};

verus! {

/// A statement of the source, or the data that it has become.
#[derive(Debug)]
pub enum Statement {
    Label(Label),
    Instruction(Instruction),
    Macro(Macro),
    /// Words of the image. With an offset they stand at that address;
    /// without, behind the data before them.
    Data(Vec<u16>, Option<usize>),
}

/// A statement as a mathematical value.
pub enum StatementView {
    Label(LabelView),
    Instruction(InstructionView),
    Macro(MacroView),
    Data(Seq<u16>, Option<usize>),
}

impl View for Statement {
    type V = StatementView;

    open spec fn view(&self) -> StatementView {
        match self {
            Statement::Label(label) => StatementView::Label(label@),
            Statement::Instruction(instruction) => StatementView::Instruction(instruction@),
            Statement::Macro(directive) => StatementView::Macro(directive@),
            Statement::Data(words, offset) => StatementView::Data(words@, *offset),
        }
    }
}

/// The outcome of reducing one statement: the state afterwards, and what is
/// left of the statement or why it failed.
pub struct Step {
    pub state: State,
    pub result: Result<Option<StatementView>, ReduceErrorView>,
}

/// Whether a result and a state are those of the given step.
pub open spec fn matches_step(
    r: Result<Option<Statement>, ReduceError>,
    state: State,
    step: Step,
) -> bool {
    &&& state == step.state
    &&& match (r, step.result) {
        (Ok(None), Ok(None)) => true,
        (Ok(Some(s)), Ok(Some(v))) => s@ == v && s.wf(),
        (Err(e), Err(v)) => e@ == v,
        _ => false,
    }
}

/// A sequence with `words` written over it from `at` on.
pub open spec fn write_at(buffer: Seq<u16>, at: int, words: Seq<u16>) -> Seq<u16> {
    Seq::new(
        buffer.len(),
        |i: int|
            if at <= i < at + words.len() {
                words[i - at]
            } else {
                buffer[i]
            },
    )
}

impl StatementView {
    /// The invariant of a statement: that of its operands.
    pub open spec fn wf(self) -> bool {
        match self {
            StatementView::Label(_) => true,
            StatementView::Instruction(instruction) => instruction.wf(),
            StatementView::Macro(directive) => directive.wf(),
            StatementView::Data(..) => true,
        }
    }

    /// The place of the statement in the source. Data has none.
    pub open spec fn pair(self) -> Option<Pair> {
        match self {
            StatementView::Label(label) => Some(label.pair),
            StatementView::Instruction(instruction) => Some(instruction.pair),
            StatementView::Macro(directive) => Some(directive.pair),
            StatementView::Data(..) => None,
        }
    }

    /// Reduces the statement against a state. Data stays what it is and
    /// moves the address on by its length, unless it has a fixed offset.
    pub open spec fn reduce(self, is: &InstructionSet, state: State) -> Step {
        match self {
            StatementView::Label(label) => label.reduce(state),
            StatementView::Instruction(instruction) => instruction.reduce(is, state),
            StatementView::Macro(directive) => directive.reduce(is, state),
            StatementView::Data(words, offset) => {
                if offset is Some {
                    Step { state, result: Ok(Some(self)) }
                } else if state.address + words.len() > IMAGE_WORDS {
                    Step { state, result: Err(ReduceErrorView::OutOfRange) }
                } else {
                    Step {
                        state: state.at((state.address + words.len()) as usize),
                        result: Ok(Some(self)),
                    }
                }
            },
        }
    }

    /// Where the statement's words go when the write cursor is at `index`.
    pub open spec fn target(self, index: usize) -> int {
        match self {
            StatementView::Data(_, Some(offset)) => offset as int,
            _ => index as int,
        }
    }

    /// The words of the statement. Only data has any.
    pub open spec fn words(self) -> Seq<u16> {
        match self {
            StatementView::Data(words, _) => words,
            _ => Seq::empty(),
        }
    }

    /// The write cursor after the statement has been copied with the cursor
    /// at `index`.
    pub open spec fn cursor_after(self, index: usize) -> int {
        match self {
            StatementView::Data(words, None) => index + words.len(),
            StatementView::Data(_, Some(_)) => index as int,
            _ => 0,
        }
    }
}

impl Statement {
    /// The invariant of a statement: that of its operands.
    pub open spec fn wf(&self) -> bool {
        self@.wf()
    }

    /// Whether the statement is data.
    pub fn is_data(&self) -> (r: bool)
        ensures
            r == (self@ is Data),
    {
        match self {
            Statement::Data(..) => true,
            _ => false,
        }
    }

    /// The place of the statement in the source. Data has none.
    pub fn pair(&self) -> (r: Option<Pair>)
        ensures
            r == self@.pair(),
    {
        match self {
            Statement::Label(label) => Some(label.pair),
            Statement::Instruction(instruction) => Some(instruction.pair),
            Statement::Macro(directive) => Some(directive.pair),
            Statement::Data(..) => None,
        }
    }

    /// Copies the words of a data statement into the buffer: to its fixed
    /// offset if it has one, else to `index`. Returns the write cursor for
    /// the next statement: `index` moved past the words copied there, `index`
    /// itself after a copy to a fixed offset, and 0 after a statement that is
    /// not data, which copies nothing.
    pub fn copy(&self, buffer: &mut Vec<u16>, index: usize) -> (next: usize)
        requires
            self@.target(index) + self@.words().len() <= old(buffer)@.len(),
        ensures
            final(buffer)@ == write_at(old(buffer)@, self@.target(index), self@.words()),
            next == self@.cursor_after(index),
    {
        match self {
            Statement::Data(data, offset) => {
                let at: usize = match *offset {
                    Some(address) => address,
                    None => index,
                };
                let mut i: usize = 0;
                assert(at == self@.target(index));
                assert(at + data.len() <= buffer.len());
                while i < data.len()
                    invariant
                        i <= data@.len(),
                        at + data.len() <= buffer.len(),
                        buffer@.len() == old(buffer)@.len(),
                        buffer@ == write_at(old(buffer)@, at as int, data@.subrange(0, i as int)),
                    decreases data@.len() - i,
                {
                    buffer.set(at + i, data[i]);
                    i += 1;
                    assert(buffer@ =~= write_at(
                        old(buffer)@,
                        at as int,
                        data@.subrange(0, i as int),
                    ));
                }
                assert(data@.subrange(0, i as int) =~= data@);
                if offset.is_some() {
                    index
                } else {
                    index + data.len()
                }
            },
            _ => {
                assert(buffer@ =~= write_at(old(buffer)@, index as int, Seq::empty()));
                0
            },
        }
    }
}

impl Reduce for Statement {
    type Output = Option<Statement>;

    type Error = ReduceError;

    open spec fn well_formed(&self) -> bool {
        self.wf()
    }

    /// Reduces the statement against the context.
    fn reduce(self, ctx: &mut Context) -> (r: Result<Option<Statement>, ReduceError>)
        ensures
            matches_step(r, final(ctx)@, self@.reduce(old(ctx).is, old(ctx)@)),
    {
        match self {
            Statement::Instruction(instruction) => instruction.reduce(ctx),
            Statement::Label(label) => label.reduce(ctx),
            Statement::Macro(directive) => directive.reduce(ctx),
            Statement::Data(data, offset) => {
                if offset.is_none() {
                    if !ctx.fits(data.len()) {
                        return Err(ReduceError::OutOfRange);
                    }
                    ctx.advance(data.len());
                }
                Ok(Some(Statement::Data(data, offset)))
            },
        }
    }
}

} // verus!
