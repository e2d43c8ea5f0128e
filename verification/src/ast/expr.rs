//! Expressions: the operands of instructions and directives.

use vstd::prelude::*;
use crate::ast::{Dependencies, Pair, Reduce, ReduceError, ReduceErrorView, agrees};
use crate::cis::{Argument, InstructionSet};
use crate::context::{Context, State, canonical};
use crate::table::lemma_position_of;
use crate::text::{contains_name, copy_bytes, copy_names, deep};

verus! {

/// The operator of a compound expression.
#[derive(Debug, Clone, Copy, PartialEq, Eq, Structural)]
pub enum Operator {
    Add,
    Sub,
}

/// Two expressions joined by an operator.
#[derive(Debug)]
pub struct Compound {
    pub pair: Pair,
    pub lhs: Box<Expr>,
    pub rhs: Box<Expr>,
    pub operator: Operator,
}

/// An expression.
#[derive(Debug)]
#[allow(inconsistent_fields)]
pub enum Expr {
    /// A string literal: its code units, with a closing zero.
    String { pair: Pair, value: Vec<u16> },
    /// An integer.
    Integer { pair: Pair, value: usize },
    /// A name that is not resolved yet.
    LabelRef { pair: Pair, name: Vec<u8> },
    /// Two expressions joined by `+` or `-`.
    Compound(Compound),
    /// A name of the instruction set's symbols.
    Symbol { pair: Pair, name: Vec<u8> },
}

/// An expression as a mathematical value.
#[allow(inconsistent_fields)]
pub enum ExprView {
    String { pair: Pair, value: Seq<u16> },
    Integer { pair: Pair, value: usize },
    LabelRef { pair: Pair, name: Seq<u8> },
    Compound { pair: Pair, lhs: Box<ExprView>, rhs: Box<ExprView>, operator: Operator },
    Symbol { pair: Pair, name: Seq<u8> },
}

/// The mathematical value of an expression.
pub open spec fn expr_view(e: Expr) -> ExprView
    decreases e,
{
    match e {
        Expr::String { pair, value } => ExprView::String { pair, value: value@ },
        Expr::Integer { pair, value } => ExprView::Integer { pair, value },
        Expr::LabelRef { pair, name } => ExprView::LabelRef { pair, name: name@ },
        Expr::Compound(c) => ExprView::Compound {
            pair: c.pair,
            lhs: Box::new(expr_view(*c.lhs)),
            rhs: Box::new(expr_view(*c.rhs)),
            operator: c.operator,
        },
        Expr::Symbol { pair, name } => ExprView::Symbol { pair, name: name@ },
    }
}

impl View for Expr {
    type V = ExprView;

    open spec fn view(&self) -> ExprView {
        expr_view(*self)
    }
}

/// The sum or difference of two machine words, wrapped into a machine word.
pub open spec fn fold(operator: Operator, x: usize, y: usize) -> usize {
    match operator {
        Operator::Add => if x + y > usize::MAX {
            (x + y - usize::MAX - 1) as usize
        } else {
            (x + y) as usize
        },
        Operator::Sub => if x < y {
            (x - y + usize::MAX + 1) as usize
        } else {
            (x - y) as usize
        },
    }
}

/// Folding is addition and subtraction modulo the size of the machine word.
pub proof fn lemma_fold_wraps(operator: Operator, x: usize, y: usize)
    ensures
        operator == Operator::Add ==> fold(operator, x, y) == (x + y) % (usize::MAX + 1),
        operator == Operator::Sub ==> fold(operator, x, y) == (x - y) % (usize::MAX + 1),
{
    let m = usize::MAX + 1;
    match operator {
        Operator::Add => {
            if x + y > usize::MAX {
                vstd::arithmetic::div_mod::lemma_fundamental_div_mod_converse(
                    x + y,
                    m,
                    1,
                    x + y - m,
                );
            } else {
                vstd::arithmetic::div_mod::lemma_small_mod((x + y) as nat, m as nat);
            }
        },
        Operator::Sub => {
            if x < y {
                vstd::arithmetic::div_mod::lemma_fundamental_div_mod_converse(
                    x - y,
                    m,
                    -1,
                    x - y + m,
                );
            } else {
                vstd::arithmetic::div_mod::lemma_small_mod((x - y) as nat, m as nat);
            }
        },
    }
}

/// Whether a byte is an ASCII digit.
pub open spec fn is_digit(b: u8) -> bool {
    '0' as u8 <= b <= '9' as u8
}

/// Whether a type tag is that of an integer operand: `u`, `i` or `ptr`,
/// followed by a digit.
pub open spec fn integer_type(tag: Seq<u8>) -> bool {
    ||| tag.len() >= 2 && (tag[0] == 'u' as u8 || tag[0] == 'i' as u8) && is_digit(tag[1])
    ||| tag.len() >= 4 && tag[0] == 'p' as u8 && tag[1] == 't' as u8 && tag[2] == 'r' as u8
        && is_digit(tag[3])
}

impl ExprView {
    /// The place of the expression in the source.
    pub open spec fn pair(self) -> Pair {
        match self {
            ExprView::String { pair, .. } => pair,
            ExprView::Integer { pair, .. } => pair,
            ExprView::LabelRef { pair, .. } => pair,
            ExprView::Compound { pair, .. } => pair,
            ExprView::Symbol { pair, .. } => pair,
        }
    }

    /// The invariant of an expression: a string ends with a zero.
    pub open spec fn wf(self) -> bool
        decreases self,
    {
        match self {
            ExprView::String { value, .. } => value.len() > 0 && value.last() == 0,
            ExprView::Compound { lhs, rhs, .. } => lhs.wf() && rhs.wf(),
            _ => true,
        }
    }

    /// Whether no name is left to resolve.
    pub open spec fn is_reduced(self) -> bool
        decreases self,
    {
        match self {
            ExprView::String { .. } => true,
            ExprView::Integer { .. } => true,
            ExprView::Symbol { .. } => true,
            ExprView::Compound { lhs, rhs, .. } => lhs.is_reduced() && rhs.is_reduced(),
            ExprView::LabelRef { .. } => false,
        }
    }

    /// Whether the expression is a value that can fill a slot: an integer, a
    /// string or a symbol.
    pub open spec fn is_operand(self) -> bool {
        self is String || self is Integer || self is Symbol
    }

    /// The names referred to, from left to right.
    pub open spec fn dependencies(self) -> Seq<Seq<u8>>
        decreases self,
    {
        match self {
            ExprView::Compound { lhs, rhs, .. } => lhs.dependencies() + rhs.dependencies(),
            ExprView::LabelRef { name, .. } => seq![name],
            ExprView::Symbol { name, .. } => seq![name],
            _ => Seq::empty(),
        }
    }

    /// The expression rewritten with what the state knows. A name of a symbol
    /// becomes that symbol, the name of a placed label its address, and a
    /// compound of two integers their folded value. Everything else stays.
    pub open spec fn reduce(self, is: &InstructionSet, state: State) -> ExprView
        decreases self,
    {
        match self {
            ExprView::LabelRef { pair, name } => {
                if is.spec_get_symbol(name) is Some {
                    ExprView::Symbol { pair, name }
                } else {
                    match canonical(state.path, name) {
                        Some(path) => match state.resolve(path) {
                            Some(address) => ExprView::Integer { pair, value: address },
                            None => self,
                        },
                        None => self,
                    }
                }
            },
            ExprView::Compound { pair, lhs, rhs, operator } => {
                let l = lhs.reduce(is, state);
                let r = rhs.reduce(is, state);
                match (l, r) {
                    (
                        ExprView::Integer { value: x, .. },
                        ExprView::Integer { value: y, .. },
                    ) => ExprView::Integer { pair, value: fold(operator, x, y) },
                    _ => ExprView::Compound { pair, lhs: Box::new(l), rhs: Box::new(r), operator },
                }
            },
            _ => self,
        }
    }

    /// The contribution of the expression to an encoding when it fills the
    /// given slot.
    ///
    /// A symbol must carry the slot's tag and gives its value. An integer
    /// gives its lowest 16 bits and a string its first code unit, both only in
    /// a slot of an integer type. What is not an operand is unresolved.
    pub open spec fn validate(self, is: &InstructionSet, slot: Argument) -> Result<
        u32,
        ReduceErrorView,
    > {
        match self {
            ExprView::Symbol { pair, name } => match is.spec_get_symbol(name) {
                None => Err(ReduceErrorView::UnknownIdentifier(pair)),
                Some(symbol) => {
                    if deep(symbol.tags@).contains(slot.type_tag@) {
                        Ok(slot.spec_format((symbol.value as int % 0x1_0000_0000) as u32))
                    } else {
                        Err(
                            ReduceErrorView::ExpectedType {
                                argument: pair,
                                expected: deep(symbol.tags@),
                                found: slot.type_tag@,
                            },
                        )
                    }
                },
            },
            ExprView::Integer { value, .. } => {
                if integer_type(slot.type_tag@) {
                    Ok(slot.spec_format((value as int % 0x1_0000) as u32))
                } else {
                    Err(ReduceErrorView::TypeError)
                }
            },
            ExprView::String { value, .. } => {
                if integer_type(slot.type_tag@) {
                    Ok(slot.spec_format(value[0] as u32))
                } else {
                    Err(ReduceErrorView::TypeError)
                }
            },
            _ => Err(ReduceErrorView::Unresolved { statement: self.pair() }),
        }
    }
}

/// A reduced expression is well formed, and an operand stays as it is.
pub proof fn lemma_reduce_expr(e: ExprView, is: &InstructionSet, state: State)
    requires
        e.wf(),
    ensures
        e.reduce(is, state).wf(),
        e.is_operand() ==> e.reduce(is, state) == e,
        e.reduce(is, state).pair() == e.pair(),
    decreases e,
{
    match e {
        ExprView::Compound { pair, lhs, rhs, operator } => {
            lemma_reduce_expr(*lhs, is, state);
            lemma_reduce_expr(*rhs, is, state);
        },
        _ => {},
    }
}

/// Whether a type tag is that of an integer operand.
pub fn is_integer_type(tag: &[u8]) -> (r: bool)
    ensures
        r == integer_type(tag@),
{
    let n = tag.len();
    if n >= 2 && (tag[0] == 'u' as u8 || tag[0] == 'i' as u8) && '0' as u8 <= tag[1] && tag[1]
        <= '9' as u8 {
        return true;
    }
    n >= 4 && tag[0] == 'p' as u8 && tag[1] == 't' as u8 && tag[2] == 'r' as u8 && '0' as u8
        <= tag[3] && tag[3] <= '9' as u8
}

impl Expr {
    /// The invariant of an expression: a string ends with a zero.
    pub open spec fn wf(&self) -> bool {
        self@.wf()
    }

    /// The place of the expression in the source.
    pub fn pair(&self) -> (p: Pair)
        ensures
            p == self@.pair(),
    {
        match self {
            Expr::Compound(expr) => expr.pair,
            Expr::Integer { pair, .. } => *pair,
            Expr::LabelRef { pair, .. } => *pair,
            Expr::Symbol { pair, .. } => *pair,
            Expr::String { pair, .. } => *pair,
        }
    }

    /// Whether the expression is an integer, a string or a symbol.
    pub fn is_operand(&self) -> (r: bool)
        ensures
            r == self@.is_operand(),
    {
        match self {
            Expr::Integer { .. } => true,
            Expr::String { .. } => true,
            Expr::Symbol { .. } => true,
            _ => false,
        }
    }

    /// The names of the labels and symbols that the expression refers to,
    /// from left to right.
    pub fn dependencies(&self) -> (r: Vec<Vec<u8>>)
        ensures
            deep(r@) == self@.dependencies(),
        decreases self,
    {
        match self {
            Expr::Compound(c) => {
                let mut names = c.lhs.dependencies();
                let right = c.rhs.dependencies();
                let ghost left = names@;
                let mut i: usize = 0;
                while i < right.len()
                    invariant
                        i <= right@.len(),
                        names@.len() == left.len() + i,
                        forall|j: int| 0 <= j < left.len() ==> (#[trigger] names@[j])@ == left[j]@,
                        forall|j: int|
                            0 <= j < i ==> (#[trigger] names@[left.len() + j])@ == right@[j]@,
                    decreases right@.len() - i,
                {
                    names.push(copy_bytes(right[i].as_slice()));
                    i += 1;
                }
                assert forall|k: int| 0 <= k < names@.len() implies deep(names@)[k] == (deep(left)
                    + deep(right@))[k] by {
                    if k >= left.len() {
                        let j = k - left.len();
                        assert(names@[left.len() + j]@ == right@[j]@);
                    }
                }
                assert(deep(names@) =~= deep(left) + deep(right@));
                names
            },
            Expr::LabelRef { name, .. } => {
                let mut names: Vec<Vec<u8>> = Vec::new();
                names.push(copy_bytes(name.as_slice()));
                assert(deep(names@) =~= seq![name@]);
                names
            },
            Expr::Symbol { name, .. } => {
                let mut names: Vec<Vec<u8>> = Vec::new();
                names.push(copy_bytes(name.as_slice()));
                assert(deep(names@) =~= seq![name@]);
                names
            },
            _ => {
                let names: Vec<Vec<u8>> = Vec::new();
                assert(deep(names@) =~= Seq::<Seq<u8>>::empty());
                names
            },
        }
    }

    /// Checks the expression against a slot and gives its contribution to the
    /// encoding.
    pub fn validate(&self, ctx: &Context, arg: &Argument) -> (r: Result<u32, ReduceError>)
        requires
            self.wf(),
        ensures
            agrees(r, self@.validate(ctx.is, *arg)),
    {
        match self {
            Expr::Symbol { pair, name } => {
                match ctx.is.get_symbol(name.as_slice()) {
                    None => Err(ReduceError::UnknownIdentifier(*pair)),
                    Some(symbol) => {
                        if contains_name(&symbol.tags, arg.type_tag.as_slice()) {
                            let value: u32 = ((symbol.value as u64) % 0x1_0000_0000u64) as u32;
                            Ok(arg.format(value))
                        } else {
                            Err(
                                ReduceError::ExpectedType {
                                    argument: *pair,
                                    expected: copy_names(&symbol.tags),
                                    found: copy_bytes(arg.type_tag.as_slice()),
                                },
                            )
                        }
                    },
                }
            },
            Expr::Integer { value, .. } => {
                if is_integer_type(arg.type_tag.as_slice()) {
                    let value: u32 = (*value % 0x1_0000) as u32;
                    Ok(arg.format(value))
                } else {
                    Err(ReduceError::TypeError)
                }
            },
            Expr::String { value, .. } => {
                if is_integer_type(arg.type_tag.as_slice()) {
                    Ok(arg.format(value[0] as u32))
                } else {
                    Err(ReduceError::TypeError)
                }
            },
            _ => Err(ReduceError::Unresolved { statement: self.pair() }),
        }
    }
}

impl Dependencies for Expr {
    open spec fn spec_dependencies(&self) -> Seq<Seq<u8>> {
        self@.dependencies()
    }

    fn dependencies(&self) -> (r: Vec<Vec<u8>>) {
        Expr::dependencies(self)
    }
}

impl Reduce for Expr {
    type Output = Expr;

    type Error = ReduceError;

    open spec fn well_formed(&self) -> bool {
        self.wf()
    }

    /// Rewrites the expression with what the context knows, and leaves the
    /// context as it is.
    fn reduce(self, ctx: &mut Context) -> (r: Result<Expr, ReduceError>)
        ensures
            final(ctx)@ == old(ctx)@,
            r matches Ok(e) && e@ == self@.reduce(old(ctx).is, old(ctx)@) && e.wf(),
        decreases self,
    {
        proof {
            lemma_reduce_expr(self@, ctx.is, ctx@);
        }
        match self {
            Expr::Compound(Compound { pair, lhs, rhs, operator }) => {
                let lhs = match (*lhs).reduce(ctx) {
                    Ok(e) => e,
                    Err(e) => {
                        return Err(e);
                    },
                };
                let rhs = match (*rhs).reduce(ctx) {
                    Ok(e) => e,
                    Err(e) => {
                        return Err(e);
                    },
                };
                match (lhs, rhs) {
                    (Expr::Integer { value: x, .. }, Expr::Integer { value: y, .. }) => Ok(
                        Expr::Integer {
                            value: match operator {
                                Operator::Add => x.wrapping_add(y),
                                Operator::Sub => x.wrapping_sub(y),
                            },
                            pair,
                        },
                    ),
                    (lhs, rhs) => Ok(
                        Expr::Compound(
                            Compound { pair, lhs: Box::new(lhs), rhs: Box::new(rhs), operator },
                        ),
                    ),
                }
            },
            Expr::LabelRef { name, pair } => {
                if ctx.is.get_symbol(name.as_slice()).is_some() {
                    return Ok(Expr::Symbol { name, pair });
                }
                if let Ok(path) = ctx.get_path(name.as_slice()) {
                    proof {
                        lemma_position_of(ctx@.labels, path@);
                    }
                    if let Some(Some(address)) = ctx.labels.get(path.as_slice()) {
                        return Ok(Expr::Integer { value: *address, pair });
                    }
                }
                Ok(Expr::LabelRef { pair, name })
            },
            _ => Ok(self),
        }
    }

    /// Whether no name is left to resolve.
    fn is_reduced(&self) -> (r: bool)
        ensures
            r == self@.is_reduced(),
        decreases self,
    {
        match self {
            Expr::Integer { .. } => true,
            Expr::String { .. } => true,
            Expr::Symbol { .. } => true,
            Expr::Compound(Compound { lhs, rhs, .. }) => lhs.is_reduced() && rhs.is_reduced(),
            _ => false,
        }
    }
}

} // verus!
