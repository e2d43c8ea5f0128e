//! Label statements.

use vstd::prelude::*;
use crate::ast::{Pair, Reduce, ReduceError, ReduceErrorView};
use crate::ast::statement::{Statement, Step, matches_step};
use crate::context::{Context, State};

verus! {

/// A label: a name for the address at which it stands.
#[derive(Debug)]
pub struct Label {
    pub pair: Pair,
    pub name: Vec<u8>,
    /// Whether the label is bound already, so that binding it again only
    /// moves it.
    pub registered: bool,
}

/// A label as a mathematical value.
pub struct LabelView {
    pub pair: Pair,
    pub name: Seq<u8>,
    pub registered: bool,
}

impl View for Label {
    type V = LabelView;

    open spec fn view(&self) -> LabelView {
        LabelView { pair: self.pair, name: self.name@, registered: self.registered }
    }
}

impl LabelView {
    /// Binds the label to the current address. Nothing is left of the
    /// statement.
    pub open spec fn reduce(self, state: State) -> Step {
        match state.register(self.name, self.registered) {
            Ok(next) => Step { state: next, result: Ok(None) },
            Err(e) => Step {
                state,
                result: Err(ReduceErrorView::from_label_err(e, self.pair)),
            },
        }
    }
}

impl Reduce for Label {
    type Output = Option<Statement>;

    type Error = ReduceError;

    open spec fn well_formed(&self) -> bool {
        true
    }

    /// Binds the label to the current address.
    fn reduce(self, ctx: &mut Context) -> (r: Result<Option<Statement>, ReduceError>)
        ensures
            matches_step(r, final(ctx)@, self@.reduce(old(ctx)@)),
    {
        match ctx.register_label(self.name.as_slice(), self.registered) {
            Ok(_) => Ok(None),
            Err(e) => Err(ReduceError::from_label_err(e, self.pair)),
        }
    }
}

} // verus!
