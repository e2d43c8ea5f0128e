//! The passes over the statements: one to place the code, then as many as it
//! takes to resolve what refers forward, and the layout of the image.

use vstd::prelude::*;
use crate::ast::{Pair, Reduce, ReduceError, ReduceErrorView, Statement, StatementView};
use crate::ast::directive::zeros;
use crate::ast::statement::write_at;
use crate::cis::InstructionSet;
use crate::context::{Context, State, IMAGE_WORDS};

verus! {

/// A list of statements as a sequence of their views.
pub open spec fn views(list: Seq<Statement>) -> Seq<StatementView> {
    Seq::new(list.len(), |i: int| list[i]@)
}

/// Whether every statement of a list is well formed.
pub open spec fn all_wf(list: Seq<StatementView>) -> bool {
    forall|i: int| 0 <= i < list.len() ==> (#[trigger] list[i]).wf()
}

/// Whether every statement of a list is data.
pub open spec fn all_data(list: Seq<StatementView>) -> bool {
    forall|i: int| 0 <= i < list.len() ==> (#[trigger] list[i]) is Data
}

/// The outcome of a pass: the state afterwards, and the statements that are
/// left or the error that ended it.
pub struct Pass {
    pub state: State,
    pub result: Result<Seq<StatementView>, ReduceErrorView>,
}

/// The outcome of reducing the first `n` statements in order, each against
/// the state that the one before left. A statement that leaves nothing drops
/// out; the first error ends the pass.
pub open spec fn pass_first(
    is: &InstructionSet,
    state: State,
    statements: Seq<StatementView>,
    n: int,
) -> Pass
    decreases n,
{
    if n <= 0 {
        Pass { state, result: Ok(Seq::empty()) }
    } else {
        let before = pass_first(is, state, statements, n - 1);
        match before.result {
            Err(_) => before,
            Ok(done) => {
                let step = statements[n - 1].reduce(is, before.state);
                match step.result {
                    Err(e) => Pass { state: step.state, result: Err(e) },
                    Ok(None) => Pass { state: step.state, result: Ok(done) },
                    Ok(Some(s)) => Pass { state: step.state, result: Ok(done.push(s)) },
                }
            },
        }
    }
}

/// One pass over all statements, from address 0.
pub open spec fn pass(is: &InstructionSet, state: State, statements: Seq<StatementView>) -> Pass {
    pass_first(is, state.at(0), statements, statements.len() as int)
}

/// Passes repeated until every statement is data or the counter is used up.
/// Each pass takes one from the counter.
pub open spec fn settle(is: &InstructionSet, state: State, statements: Seq<StatementView>) -> Pass
    decreases state.counter,
{
    if state.counter == 0 || all_data(statements) {
        Pass { state, result: Ok(statements) }
    } else {
        let once = pass(is, state, statements);
        match once.result {
            Err(_) => once,
            Ok(left) => settle(
                is,
                State { counter: (state.counter - 1) as usize, ..once.state },
                left,
            ),
        }
    }
}

/// The place of the first statement from `from` on that is not data.
pub open spec fn first_pending(statements: Seq<StatementView>, from: int) -> Option<Pair>
    decreases statements.len() - from,
{
    if from < 0 || from >= statements.len() {
        None
    } else if statements[from] is Data {
        first_pending(statements, from + 1)
    } else {
        statements[from].pair()
    }
}

/// The image and the write cursor after the first `n` statements have been
/// copied into an image of zeros. `None` if one of them reaches beyond the
/// image.
pub open spec fn image_first(statements: Seq<StatementView>, n: int) -> Option<(Seq<u16>, usize)>
    decreases n,
{
    if n <= 0 {
        Some((zeros(IMAGE_WORDS as int), 0usize))
    } else {
        match image_first(statements, n - 1) {
            None => None,
            Some((buffer, cursor)) => {
                let s = statements[n - 1];
                if s.target(cursor) + s.words().len() > IMAGE_WORDS {
                    None
                } else {
                    Some((write_at(buffer, s.target(cursor), s.words()), s.cursor_after(cursor) as usize))
                }
            },
        }
    }
}

/// The image that a list of data statements lays out.
pub open spec fn image(statements: Seq<StatementView>) -> Option<Seq<u16>> {
    match image_first(statements, statements.len() as int) {
        Some((buffer, _)) => Some(buffer),
        None => None,
    }
}

/// The outcome of an assembly: the state afterwards, and the image or the
/// error.
pub struct Outcome {
    pub state: State,
    pub result: Result<Seq<u16>, ReduceErrorView>,
}

/// The assembly of a list of statements.
///
/// A first pass places the code. The allocations that wait are placed
/// behind it. Further passes resolve what referred forward, until every
/// statement is data or the counter is used up. What is then not data is
/// unresolved. The data is laid out in the image.
pub open spec fn assemble(is: &InstructionSet, state: State, statements: Seq<StatementView>) -> Outcome {
    let first = pass(is, state, statements);
    match first.result {
        Err(e) => Outcome { state: first.state, result: Err(e) },
        Ok(left) => {
            if !first.state.allocations_fit(first.state.address) {
                Outcome { state: first.state, result: Err(ReduceErrorView::OutOfRange) }
            } else {
                let settled = settle(
                    is,
                    first.state.place_allocations(first.state.address),
                    left,
                );
                match settled.result {
                    Err(e) => Outcome { state: settled.state, result: Err(e) },
                    Ok(last) => Outcome {
                        state: settled.state,
                        result: match first_pending(last, 0) {
                            Some(pair) => Err(ReduceErrorView::Unresolved { statement: pair }),
                            None => match image(last) {
                                Some(words) => Ok(words),
                                None => Err(ReduceErrorView::OutOfRange),
                            },
                        },
                    },
                }
            }
        },
    }
}

/// Once a pass has failed, further statements change nothing.
pub proof fn lemma_pass_stops(
    is: &InstructionSet,
    state: State,
    statements: Seq<StatementView>,
    n: int,
    m: int,
)
    requires
        n <= m,
        pass_first(is, state, statements, n).result is Err,
    ensures
        pass_first(is, state, statements, m) == pass_first(is, state, statements, n),
    decreases m - n,
{
    if n < m {
        lemma_pass_stops(is, state, statements, n, m - 1);
    }
}

/// Reduces each statement in order against the context. A statement that
/// leaves nothing drops out; the first error ends the pass.
#[verifier::loop_isolation(false)]
pub fn pass_once(ctx: &mut Context, statements: Vec<Statement>) -> (r: Result<
    Vec<Statement>,
    ReduceError,
>)
    requires
        old(ctx).wf(),
        all_wf(views(statements@)),
    ensures
        final(ctx).wf(),
        final(ctx).is == old(ctx).is,
        final(ctx)@ == pass(old(ctx).is, old(ctx)@, views(statements@)).state,
        final(ctx)@.counter == old(ctx)@.counter,
        match pass(old(ctx).is, old(ctx)@, views(statements@)).result {
            Ok(left) => r matches Ok(list) && views(list@) == left && all_wf(left),
            Err(e) => r matches Err(f) && f@ == e,
        },
{
    let ghost before = views(statements@);
    let ghost is = ctx.is;
    ctx.address = 0;
    assert(ctx@ == old(ctx)@.at(0)) by {
        assert(ctx@.path =~= old(ctx)@.path);
    }
    let ghost start = ctx@;
    let mut out: Vec<Statement> = Vec::new();
    assert(views(out@) =~= Seq::<StatementView>::empty());
    for statement in it: statements
        invariant
            it.seq() == statements@,
            before == views(statements@),
            all_wf(before),
            ctx.wf(),
            ctx.is == is,
            ctx@.counter == start.counter,
            pass_first(is, start, before, it.index()) == (Pass {
                state: ctx@,
                result: Ok(views(out@)),
            }),
            forall|j: int| 0 <= j < out@.len() ==> (#[trigger] out@[j]).wf(),
    {
        let ghost k = it.index();
        assert(statement@ == before[k]);
        assert(before[k].wf());
        let ghost done = views(out@);
        match statement.reduce(ctx) {
            Err(e) => {
                proof {
                    assert(pass_first(is, start, before, k + 1).result is Err);
                    lemma_pass_stops(is, start, before, k + 1, before.len() as int);
                }
                return Err(e);
            },
            Ok(None) => {},
            Ok(Some(s)) => {
                out.push(s);
                assert(views(out@) =~= done.push(s@));
            },
        }
    }
    Ok(out)
}

/// Whether every statement is data.
pub fn is_settled(statements: &Vec<Statement>) -> (r: bool)
    ensures
        r == all_data(views(statements@)),
{
    let mut i: usize = 0;
    while i < statements.len()
        invariant
            i <= statements@.len(),
            forall|j: int| 0 <= j < i ==> (#[trigger] views(statements@)[j]) is Data,
        decreases statements@.len() - i,
    {
        if !statements[i].is_data() {
            assert(!(views(statements@)[i as int] is Data));
            return false;
        }
        i += 1;
    }
    true
}

/// Repeats the pass until every statement is data or the counter is used
/// up.
#[verifier::loop_isolation(false)]
pub fn settle_statements(ctx: &mut Context, statements: Vec<Statement>) -> (r: Result<
    Vec<Statement>,
    ReduceError,
>)
    requires
        old(ctx).wf(),
        all_wf(views(statements@)),
    ensures
        final(ctx).wf(),
        final(ctx).is == old(ctx).is,
        final(ctx)@ == settle(old(ctx).is, old(ctx)@, views(statements@)).state,
        match settle(old(ctx).is, old(ctx)@, views(statements@)).result {
            Ok(left) => r matches Ok(list) && views(list@) == left && all_wf(left),
            Err(e) => r matches Err(f) && f@ == e,
        },
{
    let ghost is = ctx.is;
    let ghost goal = settle(is, ctx@, views(statements@));
    let mut statements = statements;
    while ctx.counter > 0 && !is_settled(&statements)
        invariant
            ctx.wf(),
            ctx.is == is,
            all_wf(views(statements@)),
            settle(is, ctx@, views(statements@)) == goal,
        decreases ctx.counter,
    {
        let ghost state = ctx@;
        let ghost list = views(statements@);
        statements = match pass_once(ctx, statements) {
            Ok(left) => left,
            Err(e) => {
                return Err(e);
            },
        };
        ctx.counter = ctx.counter - 1;
        assert(ctx@ == (State {
            counter: (state.counter - 1) as usize,
            ..pass(is, state, list).state
        })) by {
            assert(ctx@.path =~= pass(is, state, list).state.path);
        }
    }
    Ok(statements)
}

/// The place of the first statement that is not data.
pub fn pending(statements: &Vec<Statement>) -> (r: Option<Pair>)
    ensures
        r == first_pending(views(statements@), 0),
{
    let mut i: usize = 0;
    while i < statements.len()
        invariant
            i <= statements@.len(),
            first_pending(views(statements@), 0) == first_pending(views(statements@), i as int),
        decreases statements@.len() - i,
    {
        assert(views(statements@)[i as int] == statements@[i as int]@);
        if !statements[i].is_data() {
            return statements[i].pair();
        }
        i += 1;
    }
    None
}

/// Lays data statements out in an image of zeros: each behind the one
/// before, or at its fixed offset.
pub fn build_image(statements: &Vec<Statement>) -> (r: Option<Vec<u16>>)
    ensures
        match image(views(statements@)) {
            Some(words) => r matches Some(data) && data@ == words && data@.len() == IMAGE_WORDS,
            None => r is None,
        },
{
    let mut data: Vec<u16> = Vec::new();
    let mut n: usize = 0;
    while n < IMAGE_WORDS
        invariant
            n <= IMAGE_WORDS,
            data@ == zeros(n as int),
        decreases IMAGE_WORDS - n,
    {
        data.push(0);
        n += 1;
        assert(data@ =~= zeros(n as int));
    }
    let ghost list = views(statements@);
    let mut cursor: usize = 0;
    let mut i: usize = 0;
    while i < statements.len()
        invariant
            i <= statements@.len(),
            list == views(statements@),
            data@.len() == IMAGE_WORDS,
            image_first(list, i as int) == Some((data@, cursor)),
        decreases statements@.len() - i,
    {
        let statement = &statements[i];
        assert(statement@ == list[i as int]);
        let (at, len): (usize, usize) = match statement {
            Statement::Data(words, Some(offset)) => (*offset, words.len()),
            Statement::Data(words, None) => (cursor, words.len()),
            _ => (cursor, 0),
        };
        if at > IMAGE_WORDS || len > IMAGE_WORDS - at {
            proof {
                lemma_image_stops(list, i + 1, list.len() as int);
            }
            return None;
        }
        let ghost before = data@;
        let next = statement.copy(&mut data, cursor);
        assert(data@.len() == IMAGE_WORDS) by {
            assert(data@ == write_at(before, statement@.target(cursor), statement@.words()));
        }
        cursor = next;
        i += 1;
    }
    Some(data)
}

/// Once a statement has reached beyond the image, there is no image.
pub proof fn lemma_image_stops(statements: Seq<StatementView>, n: int, m: int)
    requires
        n <= m,
        image_first(statements, n) is None,
    ensures
        image_first(statements, m) is None,
    decreases m - n,
{
    if n < m {
        lemma_image_stops(statements, n, m - 1);
    }
}

/// Assembles a list of statements against the context.
pub fn assemble_statements(ctx: &mut Context, statements: Vec<Statement>) -> (r: Result<
    Vec<u16>,
    ReduceError,
>)
    requires
        old(ctx).wf(),
        all_wf(views(statements@)),
    ensures
        final(ctx).wf(),
        final(ctx).is == old(ctx).is,
        final(ctx)@ == assemble(old(ctx).is, old(ctx)@, views(statements@)).state,
        match assemble(old(ctx).is, old(ctx)@, views(statements@)).result {
            Ok(words) => r matches Ok(data) && data@ == words && data@.len() == IMAGE_WORDS,
            Err(e) => r matches Err(f) && f@ == e,
        },
{
    let left = match pass_once(ctx, statements) {
        Ok(left) => left,
        Err(e) => {
            return Err(e);
        },
    };
    let offset = ctx.address;
    if !ctx.allocations_fit(offset) {
        return Err(ReduceError::OutOfRange);
    }
    ctx.set_allocation_offset(offset);
    let last = match settle_statements(ctx, left) {
        Ok(last) => last,
        Err(e) => {
            return Err(e);
        },
    };
    if let Some(pair) = pending(&last) {
        return Err(ReduceError::Unresolved { statement: pair });
    }
    match build_image(&last) {
        Some(data) => Ok(data),
        None => Err(ReduceError::OutOfRange),
    }
}

} // verus!
