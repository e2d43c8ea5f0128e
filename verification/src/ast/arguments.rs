//! The operand list of an instruction or directive.

use vstd::prelude::*;
use crate::ast::{Pair, Reduce, ReduceError, ReduceErrorView};
use crate::ast::expr::{Expr, ExprView};
use crate::cis::InstructionSet;
use crate::context::{Context, State};

verus! {

/// A list of expressions as a sequence of their views.
pub open spec fn views(list: Seq<Expr>) -> Seq<ExprView> {
    Seq::new(list.len(), |i: int| list[i]@)
}

/// The operands of a statement.
#[derive(Debug)]
pub struct Arguments {
    pub expr_list: Vec<Expr>,
}

impl View for Arguments {
    type V = Seq<ExprView>;

    open spec fn view(&self) -> Seq<ExprView> {
        views(self.expr_list@)
    }
}

/// Why an operand list does not have the length asked for.
#[derive(Debug)]
#[allow(inconsistent_fields)]
pub enum ArgumentError {
    /// Too few operands.
    Expected { expected: usize, found: usize },
    /// Too many operands. `arguments` holds the places of those beyond the
    /// expected ones.
    Unexpected { expected: usize, found: usize, arguments: Vec<Pair> },
}

/// An `ArgumentError` as a mathematical value.
pub enum ArgumentErrorView {
    Expected { expected: usize, found: usize },
    Unexpected { expected: usize, found: usize, arguments: Seq<Pair> },
}

impl View for ArgumentError {
    type V = ArgumentErrorView;

    open spec fn view(&self) -> ArgumentErrorView {
        match self {
            ArgumentError::Expected { expected, found } => ArgumentErrorView::Expected {
                expected: *expected,
                found: *found,
            },
            ArgumentError::Unexpected { expected, found, arguments } => {
                ArgumentErrorView::Unexpected {
                    expected: *expected,
                    found: *found,
                    arguments: arguments@,
                }
            },
        }
    }
}

impl ArgumentErrorView {
    /// The error of the statement at `pair` whose operand list is at fault.
    pub open spec fn to_reduce_err(self, pair: Pair) -> ReduceErrorView {
        match self {
            ArgumentErrorView::Expected { expected, found } => ReduceErrorView::ExpectedArgument {
                instruction: pair,
                expected,
                found,
            },
            ArgumentErrorView::Unexpected { expected, found, arguments } => {
                ReduceErrorView::UnexpectedArgument {
                    instruction: pair,
                    arguments,
                    expected,
                    found,
                }
            },
        }
    }
}

impl ArgumentError {
    /// The error of the statement at `pair` whose operand list is at fault.
    pub fn to_reduce_err(self, pair: Pair) -> (r: ReduceError)
        ensures
            r@ == self@.to_reduce_err(pair),
    {
        match self {
            ArgumentError::Expected { expected, found } => ReduceError::ExpectedArgument {
                instruction: pair,
                expected,
                found,
            },
            ArgumentError::Unexpected { expected, found, arguments } => {
                ReduceError::UnexpectedArgument { instruction: pair, arguments, expected, found }
            },
        }
    }
}

/// The places of the expressions of a list.
pub open spec fn pairs_of(list: Seq<ExprView>) -> Seq<Pair> {
    Seq::new(list.len(), |i: int| list[i].pair())
}

/// Whether every expression of a list is well formed.
pub open spec fn all_wf(list: Seq<ExprView>) -> bool {
    forall|i: int| 0 <= i < list.len() ==> (#[trigger] list[i]).wf()
}

/// Whether no expression of a list has a name left to resolve.
pub open spec fn all_reduced(list: Seq<ExprView>) -> bool {
    forall|i: int| 0 <= i < list.len() ==> (#[trigger] list[i]).is_reduced()
}

/// Whether every expression of a list is an integer, a string or a symbol.
pub open spec fn all_operands(list: Seq<ExprView>) -> bool {
    forall|i: int| 0 <= i < list.len() ==> (#[trigger] list[i]).is_operand()
}

/// A list with each expression reduced.
pub open spec fn reduce_all(list: Seq<ExprView>, is: &InstructionSet, state: State) -> Seq<
    ExprView,
> {
    Seq::new(list.len(), |i: int| list[i].reduce(is, state))
}

/// What the length of a list is against the length asked for.
pub open spec fn check_argc(list: Seq<ExprView>, n: usize) -> Result<(), ArgumentErrorView> {
    if list.len() == n {
        Ok(())
    } else if list.len() < n {
        Err(ArgumentErrorView::Expected { expected: n, found: list.len() as usize })
    } else {
        Err(
            ArgumentErrorView::Unexpected {
                expected: n,
                found: list.len() as usize,
                arguments: pairs_of(list.subrange(n as int, list.len() as int)),
            },
        )
    }
}

impl Arguments {
    /// The invariant of the list: that of each expression.
    pub open spec fn wf(&self) -> bool {
        all_wf(self@)
    }

    /// The operands in order.
    pub fn iter(&self) -> (list: &[Expr])
        ensures
            views(list@) == self@,
    {
        self.expr_list.as_slice()
    }

    /// Checks that there are `n` operands.
    pub fn validate_argc(&self, n: usize) -> (r: Result<(), ArgumentError>)
        ensures
            match check_argc(self@, n) {
                Ok(()) => r is Ok,
                Err(e) => r matches Err(f) && f@ == e,
            },
    {
        let m = self.expr_list.len();
        if m == n {
            Ok(())
        } else if m < n {
            Err(ArgumentError::Expected { expected: n, found: m })
        } else {
            let mut arguments: Vec<Pair> = Vec::new();
            let mut i: usize = n;
            while i < m
                invariant
                    n <= i <= m,
                    m == self.expr_list@.len(),
                    arguments@ == pairs_of(self@.subrange(n as int, i as int)),
                decreases m - i,
            {
                arguments.push(self.expr_list[i].pair());
                i += 1;
                assert(arguments@ =~= pairs_of(self@.subrange(n as int, i as int)));
            }
            Err(ArgumentError::Unexpected { expected: n, found: m, arguments })
        }
    }

    /// Whether every operand is an integer, a string or a symbol.
    pub fn all_operands(&self) -> (r: bool)
        ensures
            r == all_operands(self@),
    {
        let mut i: usize = 0;
        while i < self.expr_list.len()
            invariant
                i <= self.expr_list@.len(),
                forall|j: int| 0 <= j < i ==> (#[trigger] self@[j]).is_operand(),
            decreases self.expr_list@.len() - i,
        {
            if !self.expr_list[i].is_operand() {
                assert(!self@[i as int].is_operand());
                return false;
            }
            i += 1;
        }
        true
    }
}

impl Reduce for Arguments {
    type Output = Arguments;

    type Error = ReduceError;

    open spec fn well_formed(&self) -> bool {
        self.wf()
    }

    /// Reduces each operand, and leaves the context as it is.
    fn reduce(self, ctx: &mut Context) -> (r: Result<Arguments, ReduceError>)
        ensures
            final(ctx)@ == old(ctx)@,
            r matches Ok(a) && a@ == reduce_all(self@, old(ctx).is, old(ctx)@) && a.wf(),
    {
        let ghost before = self@;
        let mut out: Vec<Expr> = Vec::new();
        for e in it: self.expr_list
            invariant
                it.seq() == self.expr_list@,
                before == views(self.expr_list@),
                ctx.wf(),
                ctx@ == old(ctx)@,
                ctx.is == old(ctx).is,
                all_wf(before),
                out@.len() == it.index(),
                forall|j: int|
                    0 <= j < out@.len() ==> (#[trigger] out@[j])@ == before[j].reduce(
                        ctx.is,
                        ctx@,
                    ) && out@[j].wf(),
        {
            assert(e@ == before[it.index()]);
            assert(before[it.index()].wf());
            let reduced = match e.reduce(ctx) {
                Ok(e) => e,
                Err(e) => {
                    return Err(e);
                },
            };
            out.push(reduced);
        }
        let a = Arguments { expr_list: out };
        assert(a@ =~= reduce_all(before, old(ctx).is, old(ctx)@));
        Ok(a)
    }

    /// Whether no operand has a name left to resolve.
    fn is_reduced(&self) -> (r: bool)
        ensures
            r == all_reduced(self@),
    {
        let mut i: usize = 0;
        while i < self.expr_list.len()
            invariant
                i <= self.expr_list@.len(),
                forall|j: int| 0 <= j < i ==> (#[trigger] self@[j]).is_reduced(),
            decreases self.expr_list@.len() - i,
        {
            if !self.expr_list[i].is_reduced() {
                assert(!self@[i as int].is_reduced());
                return false;
            }
            i += 1;
        }
        true
    }
}

impl From<Vec<Expr>> for Arguments {
    fn from(value: Vec<Expr>) -> (r: Self) {
        Arguments { expr_list: value }
    }
}

impl vstd::std_specs::convert::FromSpecImpl<Vec<Expr>> for Arguments {
    open spec fn obeys_from_spec() -> bool {
        true
    }

    open spec fn from_spec(value: Vec<Expr>) -> Self {
        Arguments { expr_list: value }
    }
}

} // verus!
