//! The directives `string`, `var`, `alloc` and `static`.

use vstd::prelude::*;
use crate::ast::{Pair, Reduce, ReduceError, ReduceErrorView};
use crate::ast::arguments::{Arguments, all_wf, check_argc, reduce_all};
use crate::ast::expr::{Expr, ExprView};
use crate::ast::statement::{Statement, StatementView, Step, matches_step};
use crate::cis::InstructionSet;
use crate::context::{Context, State, IMAGE_WORDS};

verus! {

/// Which directive a statement is.
#[derive(Debug, Clone, Copy, PartialEq, Eq, Structural)]
pub enum MacroKind {
    /// `string "text"`: the code units of the text.
    String,
    /// `var n`: `n` zero words.
    Var,
    /// `alloc name, n`: `n` words behind the code, named `name`.
    Alloc,
    /// `static address, value`: one word at a fixed address.
    Static,
}

/// A directive with its operands.
#[derive(Debug)]
pub struct Macro {
    pub arguments: Arguments,
    pub pair: Pair,
    pub kind: MacroKind,
    /// Whether the number of operands has been checked.
    pub is_valid: bool,
}

/// A directive as a mathematical value.
pub struct MacroView {
    pub pair: Pair,
    pub kind: MacroKind,
    pub arguments: Seq<ExprView>,
    pub is_valid: bool,
}

impl View for Macro {
    type V = MacroView;

    open spec fn view(&self) -> MacroView {
        MacroView {
            pair: self.pair,
            kind: self.kind,
            arguments: self.arguments@,
            is_valid: self.is_valid,
        }
    }
}

/// `n` zero words.
pub open spec fn zeros(n: int) -> Seq<u16> {
    Seq::new(n as nat, |i: int| 0u16)
}

impl MacroKind {
    /// The number of operands that the directive takes.
    pub open spec fn spec_arity(self) -> usize {
        match self {
            MacroKind::String => 1,
            MacroKind::Var => 1,
            MacroKind::Alloc => 2,
            MacroKind::Static => 2,
        }
    }

    /// The number of operands that the directive takes.
    pub fn arity(self) -> (n: usize)
        ensures
            n == self.spec_arity(),
    {
        match self {
            MacroKind::String => 1,
            MacroKind::Var => 1,
            MacroKind::Alloc => 2,
            MacroKind::Static => 2,
        }
    }
}

impl MacroView {
    /// The invariant of a directive: that of its operands, and the right
    /// number of them once that has been checked.
    pub open spec fn wf(self) -> bool {
        &&& all_wf(self.arguments)
        &&& self.is_valid ==> self.arguments.len() == self.kind.spec_arity()
    }

    /// The outcome of a directive whose operands have been counted and
    /// reduced.
    pub open spec fn apply(self, state: State) -> Step {
        let failed = Step { state, result: Err(ReduceErrorView::TypeError) };
        let beyond = Step { state, result: Err(ReduceErrorView::OutOfRange) };
        match self.kind {
            MacroKind::String => match self.arguments[0] {
                ExprView::String { value, .. } => {
                    if state.address + value.len() > IMAGE_WORDS {
                        beyond
                    } else {
                        Step {
                            state: state.at((state.address + value.len()) as usize),
                            result: Ok(Some(StatementView::Data(value, None))),
                        }
                    }
                },
                _ => failed,
            },
            MacroKind::Var => match self.arguments[0] {
                ExprView::Integer { value, .. } => {
                    if state.address + value > IMAGE_WORDS {
                        beyond
                    } else {
                        Step {
                            state: state.at((state.address + value) as usize),
                            result: Ok(Some(StatementView::Data(zeros(value as int), None))),
                        }
                    }
                },
                _ => failed,
            },
            MacroKind::Alloc => match (self.arguments[0], self.arguments[1]) {
                (ExprView::LabelRef { name, pair }, ExprView::Integer { value, .. }) => {
                    match state.allocate(name, Some(value), false) {
                        Ok(next) => Step { state: next, result: Ok(None) },
                        Err(e) => Step {
                            state,
                            result: Err(ReduceErrorView::from_label_err(e, pair)),
                        },
                    }
                },
                _ => failed,
            },
            MacroKind::Static => match (self.arguments[0], self.arguments[1]) {
                (ExprView::Integer { value: offset, .. }, ExprView::Integer { value, .. }) => {
                    if offset >= IMAGE_WORDS {
                        beyond
                    } else {
                        Step {
                            state,
                            result: Ok(
                                Some(
                                    StatementView::Data(
                                        seq![(value as int % 0x1_0000) as u16],
                                        Some(offset),
                                    ),
                                ),
                            ),
                        }
                    }
                },
                (ExprView::Integer { value: offset, .. }, ExprView::String { value, .. }) => {
                    if offset >= IMAGE_WORDS {
                        beyond
                    } else {
                        Step {
                            state,
                            result: Ok(Some(StatementView::Data(seq![value[0]], Some(offset)))),
                        }
                    }
                },
                _ => Step {
                    state,
                    result: Ok(Some(StatementView::Macro(MacroView { is_valid: true, ..self }))),
                },
            },
        }
    }

    /// Reduces the directive against a state.
    ///
    /// The number of operands is checked once. Then the operands are
    /// reduced. `string` and `var` become data and move the address on;
    /// `alloc` declares its label and leaves nothing; `static` becomes one
    /// word at a fixed address as soon as both operands are values, and
    /// stays until then.
    pub open spec fn reduce(self, is: &InstructionSet, state: State) -> Step {
        match (if self.is_valid {
            Ok(())
        } else {
            check_argc(self.arguments, self.kind.spec_arity())
        }) {
            Err(e) => Step { state, result: Err(e.to_reduce_err(self.pair)) },
            Ok(()) => MacroView {
                arguments: reduce_all(self.arguments, is, state),
                ..self
            }.apply(state),
        }
    }
}

impl Macro {
    /// The invariant of a directive: that of its operands, and the right
    /// number of them once that has been checked.
    pub open spec fn wf(&self) -> bool {
        self@.wf()
    }
}

/// A vector of `n` zero words.
fn zero_words(n: usize) -> (r: Vec<u16>)
    ensures
        r@ == zeros(n as int),
{
    let mut words: Vec<u16> = Vec::new();
    let mut i: usize = 0;
    while i < n
        invariant
            i <= n,
            words@ == zeros(i as int),
        decreases n - i,
    {
        words.push(0);
        i += 1;
        assert(words@ =~= zeros(i as int));
    }
    words
}

/// A vector of one word.
fn one_word(word: u16) -> (r: Vec<u16>)
    ensures
        r@ == seq![word],
{
    let mut words: Vec<u16> = Vec::new();
    words.push(word);
    assert(words@ =~= seq![word]);
    words
}

impl Reduce for Macro {
    type Output = Option<Statement>;

    type Error = ReduceError;

    open spec fn well_formed(&self) -> bool {
        self.wf()
    }

    /// Reduces the directive against the context.
    fn reduce(self, ctx: &mut Context) -> (r: Result<Option<Statement>, ReduceError>)
        ensures
            matches_step(r, final(ctx)@, self@.reduce(old(ctx).is, old(ctx)@)),
    {
        let ghost before = self@;
        if !self.is_valid {
            match self.arguments.validate_argc(self.kind.arity()) {
                Err(e) => {
                    return Err(e.to_reduce_err(self.pair));
                },
                Ok(()) => {},
            }
        }
        let Macro { arguments, pair, kind, .. } = self;
        let mut arguments = match arguments.reduce(ctx) {
            Ok(a) => a,
            Err(e) => {
                return Err(e);
            },
        };
        let ghost reduced = arguments@;
        let ghost applied = MacroView { arguments: reduced, ..before };
        assert(applied.arguments.len() == kind.spec_arity());
        match kind {
            MacroKind::String => {
                let ghost list = arguments.expr_list@;
                let operand = arguments.expr_list.pop().unwrap();
                assert(operand@ == reduced[0]) by {
                    assert(operand == list[0]);
                }
                match operand {
                    Expr::String { value, .. } => {
                        if !ctx.fits(value.len()) {
                            return Err(ReduceError::OutOfRange);
                        }
                        ctx.advance(value.len());
                        Ok(Some(Statement::Data(value, None)))
                    },
                    _ => Err(ReduceError::TypeError),
                }
            },
            MacroKind::Var => {
                let ghost list = arguments.expr_list@;
                let operand = arguments.expr_list.pop().unwrap();
                assert(operand@ == reduced[0]) by {
                    assert(operand == list[0]);
                }
                match operand {
                    Expr::Integer { value, .. } => {
                        if !ctx.fits(value) {
                            return Err(ReduceError::OutOfRange);
                        }
                        ctx.advance(value);
                        Ok(Some(Statement::Data(zero_words(value), None)))
                    },
                    _ => Err(ReduceError::TypeError),
                }
            },
            MacroKind::Alloc => {
                let ghost list = arguments.expr_list@;
                let size = arguments.expr_list.pop().unwrap();
                let target = arguments.expr_list.pop().unwrap();
                assert(size@ == reduced[1] && target@ == reduced[0]) by {
                    assert(size == list[1]);
                    assert(target == list[0]);
                }
                match (size, target) {
                    (Expr::Integer { value, .. }, Expr::LabelRef { name, pair }) => {
                        match ctx.allocate(name.as_slice(), Some(value), false) {
                            Ok(()) => Ok(None),
                            Err(e) => Err(ReduceError::from_label_err(e, pair)),
                        }
                    },
                    _ => Err(ReduceError::TypeError),
                }
            },
            MacroKind::Static => {
                assert(arguments.expr_list@[0]@ == reduced[0]);
                assert(arguments.expr_list@[1]@ == reduced[1]);
                assert(reduced[1].wf());
                let word: Option<(usize, u16)> = match (
                    &arguments.expr_list[1],
                    &arguments.expr_list[0],
                ) {
                    (Expr::Integer { value, .. }, Expr::Integer { value: offset, .. }) => Some(
                        (*offset, (*value % 0x1_0000) as u16),
                    ),
                    (Expr::String { value, .. }, Expr::Integer { value: offset, .. }) => Some(
                        (*offset, value[0]),
                    ),
                    _ => None,
                };
                match word {
                    Some((offset, word)) => {
                        if offset >= IMAGE_WORDS {
                            return Err(ReduceError::OutOfRange);
                        }
                        Ok(Some(Statement::Data(one_word(word), Some(offset))))
                    },
                    None => Ok(
                        Some(Statement::Macro(Macro { is_valid: true, arguments, pair, kind })),
                    ),
                }
            },
        }
    }
}

} // verus!
