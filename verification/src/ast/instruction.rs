//! Instruction statements and their encoding.

use vstd::prelude::*;
use crate::ast::{Pair, Reduce, ReduceError, ReduceErrorView, agrees};
use crate::ast::arguments::{Arguments, all_operands, all_reduced, all_wf, check_argc, reduce_all};
use crate::ast::expr::ExprView;
use crate::ast::statement::{Statement, StatementView, Step, matches_step};
use crate::cis;
use crate::cis::{Argument, InstructionSet};
use crate::context::{Context, State, IMAGE_WORDS};
use crate::table::lemma_position_of;

verus! {

/// An instruction: a mnemonic with its operands.
#[derive(Debug)]
pub struct Instruction {
    pub arguments: Arguments,
    pub pair: Pair,
    pub name: Vec<u8>,
}

/// An instruction as a mathematical value.
pub struct InstructionView {
    pub pair: Pair,
    pub name: Seq<u8>,
    pub arguments: Seq<ExprView>,
}

impl View for Instruction {
    type V = InstructionView;

    open spec fn view(&self) -> InstructionView {
        InstructionView { pair: self.pair, name: self.name@, arguments: self.arguments@ }
    }
}

/// The base value with the contributions of the first `n` operands set in
/// it: operand `i` fills slot `i`. The first operand that its slot refuses
/// gives the error.
pub open spec fn encoding(
    is: &InstructionSet,
    base: u32,
    operands: Seq<ExprView>,
    slots: Seq<Argument>,
    n: int,
) -> Result<u32, ReduceErrorView>
    decreases n,
{
    if n <= 0 {
        Ok(base)
    } else {
        match encoding(is, base, operands, slots, n - 1) {
            Err(e) => Err(e),
            Ok(word) => match operands[n - 1].validate(is, slots[n - 1]) {
                Err(e) => Err(e),
                Ok(contribution) => Ok(word | contribution),
            },
        }
    }
}

/// The number of operands that meet a slot: the shorter of the two lists.
pub open spec fn paired(operands: Seq<ExprView>, slots: Seq<Argument>) -> int {
    if operands.len() <= slots.len() {
        operands.len() as int
    } else {
        slots.len() as int
    }
}

/// The words of an encoding of `length` bits, the high word first.
pub open spec fn words_of(word: u32, length: usize) -> Seq<u16> {
    if length == 32 {
        seq![(word / 0x1_0000) as u16, (word % 0x1_0000) as u16]
    } else {
        seq![(word % 0x1_0000) as u16]
    }
}

impl InstructionView {
    /// The invariant of an instruction: that of its operands.
    pub open spec fn wf(self) -> bool {
        all_wf(self.arguments)
    }

    /// The encoding of the instruction by one variant: the variant's base
    /// value with the contribution of each operand set in it. The number of
    /// operands must be that of the variant.
    pub open spec fn encode(self, is: &InstructionSet, variant: cis::Instruction) -> Result<
        u32,
        ReduceErrorView,
    > {
        match check_argc(self.arguments, variant.spec_argc() as usize) {
            Err(e) => Err(e.to_reduce_err(self.pair)),
            Ok(()) => encoding(
                is,
                variant.value,
                self.arguments,
                variant.arguments@,
                paired(self.arguments, variant.arguments@),
            ),
        }
    }

    /// The first variant from `from` on that encodes the instruction: no
    /// variant between `from` and it does.
    pub open spec fn select(self, is: &InstructionSet, variants: Seq<cis::Instruction>, from: int) -> Option<
        int,
    >
        decreases variants.len() - from,
    {
        if from < 0 || from >= variants.len() {
            None
        } else if self.encode(is, variants[from]) is Ok {
            Some(from)
        } else {
            self.select(is, variants, from + 1)
        }
    }

    /// Reduces the instruction against a state.
    ///
    /// An unknown mnemonic is an error. Otherwise the address moves on by
    /// the length of the instruction. While an operand has a name left to
    /// resolve, or is a compound that has not been folded, the operands are
    /// reduced and the instruction stays for the next pass. Once every
    /// operand is an integer, a string or a symbol, the instruction becomes
    /// the words of its encoding by the first variant that accepts the
    /// operands; if none does, the error is that of the first variant.
    pub open spec fn reduce(self, is: &InstructionSet, state: State) -> Step {
        match is.spec_get_instruction(self.name) {
            None => Step { state, result: Err(ReduceErrorView::UnknownInstruction(self.pair)) },
            Some(variants) => {
                let size = variants@[0].length / 16;
                if state.address + size > IMAGE_WORDS {
                    Step { state, result: Err(ReduceErrorView::OutOfRange) }
                } else {
                    let next = state.at((state.address + size) as usize);
                    if !all_operands(self.arguments) {
                        Step {
                            state: next,
                            result: Ok(
                                Some(
                                    StatementView::Instruction(
                                        InstructionView {
                                            arguments: reduce_all(self.arguments, is, next),
                                            ..self
                                        },
                                    ),
                                ),
                            ),
                        }
                    } else {
                        match self.select(is, variants@, 0) {
                            Some(k) => Step {
                                state: next,
                                result: Ok(
                                    Some(
                                        StatementView::Data(
                                            words_of(
                                                self.encode(is, variants@[k])->Ok_0,
                                                variants@[k].length,
                                            ),
                                            None,
                                        ),
                                    ),
                                ),
                            },
                            None => Step {
                                state: next,
                                result: Err(self.encode(is, variants@[0])->Err_0),
                            },
                        }
                    }
                }
            },
        }
    }
}

/// Whether bit `b` of a word is set.
pub open spec fn bit(word: u32, b: u32) -> bool {
    (word >> b) & 1 == 1
}

/// An encoding is the union of the base value and the contributions of the
/// operands: every operand is accepted by its slot, and a bit of the
/// encoding is set just when it is set in the base value or in one of the
/// contributions.
pub proof fn lemma_encoding_is_union(
    is: &InstructionSet,
    base: u32,
    operands: Seq<ExprView>,
    slots: Seq<Argument>,
    n: int,
    b: u32,
)
    requires
        encoding(is, base, operands, slots, n) is Ok,
        b < 32,
    ensures
        forall|i: int| 0 <= i < n ==> (#[trigger] operands[i]).validate(is, slots[i]) is Ok,
        bit(encoding(is, base, operands, slots, n)->Ok_0, b) <==> bit(base, b) || exists|i: int|
            0 <= i < n && bit((#[trigger] operands[i]).validate(is, slots[i])->Ok_0, b),
    decreases n,
{
    if n > 0 {
        lemma_encoding_is_union(is, base, operands, slots, n - 1, b);
        let before = encoding(is, base, operands, slots, n - 1)->Ok_0;
        let last = operands[n - 1].validate(is, slots[n - 1])->Ok_0;
        assert(bit(before | last, b) <==> bit(before, b) || bit(last, b)) by (bit_vector)
            requires
                b < 32,
        ;
    }
}

/// Once an operand has been refused, further operands change nothing.
pub proof fn lemma_encoding_stops(
    is: &InstructionSet,
    base: u32,
    operands: Seq<ExprView>,
    slots: Seq<Argument>,
    n: int,
    m: int,
)
    requires
        n <= m,
        encoding(is, base, operands, slots, n) is Err,
    ensures
        encoding(is, base, operands, slots, m) == encoding(is, base, operands, slots, n),
    decreases m - n,
{
    if n < m {
        lemma_encoding_stops(is, base, operands, slots, n, m - 1);
    }
}

impl Instruction {
    /// The invariant of an instruction: that of its operands.
    pub open spec fn wf(&self) -> bool {
        self@.wf()
    }

    /// Encodes the instruction by one variant.
    fn encode(&self, ctx: &Context, variant: &cis::Instruction) -> (r: Result<u32, ReduceError>)
        requires
            self.wf(),
            variant.wf(),
        ensures
            agrees(r, self@.encode(ctx.is, *variant)),
    {
        match self.arguments.validate_argc(variant.argc()) {
            Err(e) => {
                return Err(e.to_reduce_err(self.pair));
            },
            Ok(()) => {},
        }
        let operands = self.arguments.iter();
        let mut word: u32 = variant.value;
        let mut i: usize = 0;
        while i < operands.len() && i < variant.arguments.len()
            invariant
                i <= operands@.len(),
                i <= variant.arguments@.len(),
                crate::ast::arguments::views(operands@) == self@.arguments,
                all_wf(self@.arguments),
                check_argc(self@.arguments, variant.spec_argc() as usize) is Ok,
                encoding(ctx.is, variant.value, self@.arguments, variant.arguments@, i as int)
                    == Ok::<u32, ReduceErrorView>(word),
            decreases operands@.len() - i,
        {
            assert(operands@[i as int]@ == self@.arguments[i as int]);
            assert(self@.arguments[i as int].wf());
            match operands[i].validate(ctx, &variant.arguments[i]) {
                Err(e) => {
                    proof {
                        assert(encoding(
                            ctx.is,
                            variant.value,
                            self@.arguments,
                            variant.arguments@,
                            i + 1,
                        ) == Err::<u32, ReduceErrorView>(e@));
                        lemma_encoding_stops(
                            ctx.is,
                            variant.value,
                            self@.arguments,
                            variant.arguments@,
                            i + 1,
                            paired(self@.arguments, variant.arguments@),
                        );
                    }
                    return Err(e);
                },
                Ok(contribution) => {
                    word = word | contribution;
                },
            }
            i += 1;
        }
        Ok(word)
    }
}

/// The words of an encoding of 16 or 32 bits, the high word first.
fn split_words(word: u32, length: usize) -> (r: Vec<u16>)
    ensures
        r@ == words_of(word, length),
{
    let mut words: Vec<u16> = Vec::new();
    if length == 32 {
        words.push((word / 0x1_0000) as u16);
    }
    words.push((word % 0x1_0000) as u16);
    assert(words@ =~= words_of(word, length));
    words
}

impl Reduce for Instruction {
    type Output = Option<Statement>;

    type Error = ReduceError;

    open spec fn well_formed(&self) -> bool {
        self.wf()
    }

    /// Reduces the instruction against the context: to the words of its
    /// encoding once every operand is resolved, to itself with reduced
    /// operands before.
    #[verifier::loop_isolation(false)]
    fn reduce(self, ctx: &mut Context) -> (r: Result<Option<Statement>, ReduceError>)
        ensures
            matches_step(r, final(ctx)@, self@.reduce(old(ctx).is, old(ctx)@)),
    {
        let is = ctx.is;
        let variants = match is.get_instruction(self.name.as_slice()) {
            Some(variants) => variants,
            None => {
                return Err(ReduceError::UnknownInstruction(self.pair));
            },
        };
        proof {
            lemma_position_of(is.instructions@, crate::text::lower(self.name@));
        }
        assert(cis::variants_wf(variants@));
        let size = variants[0].length / 16;
        if !ctx.fits(size) {
            return Err(ReduceError::OutOfRange);
        }
        ctx.advance(size);
        if !self.arguments.all_operands() {
            let Instruction { arguments, pair, name } = self;
            let arguments = match arguments.reduce(ctx) {
                Ok(a) => a,
                Err(e) => {
                    return Err(e);
                },
            };
            return Ok(Some(Statement::Instruction(Instruction { arguments, pair, name })));
        }
        let first = match self.encode(ctx, &variants[0]) {
            Ok(word) => {
                return Ok(Some(Statement::Data(split_words(word, variants[0].length), None)));
            },
            Err(e) => e,
        };
        let mut k: usize = 1;
        while k < variants.len()
            invariant
                1 <= k <= variants@.len(),
                self@.select(is, variants@, 0) == self@.select(is, variants@, k as int),
            decreases variants@.len() - k,
        {
            assert(variants@[k as int].wf());
            match self.encode(ctx, &variants[k]) {
                Ok(word) => {
                    return Ok(Some(Statement::Data(split_words(word, variants[k].length), None)));
                },
                Err(_) => {},
            }
            k += 1;
        }
        Err(first)
    }

    /// Whether no operand has a name left to resolve.
    fn is_reduced(&self) -> (r: bool)
        ensures
            r == all_reduced(self@.arguments),
    {
        self.arguments.is_reduced()
    }
}

} // verus!
