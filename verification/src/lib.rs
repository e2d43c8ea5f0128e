//! A table-driven assembler for small custom instruction sets.
//!
//! The instruction set is data: a table of mnemonics with their encodings and
//! of named operands. The assembler parses a line-oriented source, reduces its
//! statements against the table until every reference is resolved, and lays
//! the resulting words out in a fixed image of 16-bit words.

pub mod table;
pub mod text;
pub mod cis;
pub mod context;
pub mod ast;
pub mod driver;
pub mod listing;
pub mod memfile;
pub mod syntax;

use vstd::prelude::*;
use vstd::string::StringSliceAdditionalSpecFns;
use crate::ast::ReduceError;
use crate::cis::InstructionSet;
use crate::context::{Context, State, IMAGE_WORDS, in_image};
use crate::driver::{assemble, assemble_statements, Outcome};
use crate::listing::{ascii_text, chars, is_ascii, listing, push_entry};
use crate::memfile::{file_text, render};
use crate::syntax::{parse_source, source};
use crate::table::Table;

verus! {

/// The number of passes that an assembly may make to resolve what refers
/// forward.
pub const PASSES: usize = 100;

/// Assembles a source against the context, and returns the image.
///
/// The source is parsed into statements. A first pass places the code, the
/// allocations are placed behind it, and further passes resolve what
/// referred forward. The image has `IMAGE_WORDS` words.
pub fn parse(ctx: &mut Context, input: &str) -> (r: Result<Vec<u16>, ReduceError>)
    requires
        old(ctx).wf(),
    ensures
        final(ctx).wf(),
        final(ctx).is == old(ctx).is,
        final(ctx)@ == assemble(old(ctx).is, old(ctx)@, source(input.spec_bytes())).state,
        match assemble(old(ctx).is, old(ctx)@, source(input.spec_bytes())).result {
            Ok(words) => r matches Ok(data) && data@ == words && data@.len() == IMAGE_WORDS,
            Err(e) => r matches Err(f) && f@ == e,
        },
{
    let statements = parse_source(input.as_bytes());
    assemble_statements(ctx, statements)
}

/// The state in which an assembly begins: nothing is known, and `counter`
/// passes may be made.
pub open spec fn initial(counter: usize) -> State {
    State {
        labels: Seq::empty(),
        allocations: Seq::empty(),
        address: 0,
        path: Seq::empty(),
        allocation_offset: None,
        counter,
    }
}

/// The outcome of assembling a source from the initial state with `PASSES`
/// passes.
pub open spec fn assembly_of(is: &InstructionSet, input: Seq<u8>) -> Outcome {
    assemble(is, initial(PASSES), source(input))
}

/// Whether a result holds what an outcome of the model says: the image and
/// the labels, each label with an address in the image, or the error.
pub open spec fn assembled(r: Result<Assembly, ReduceError>, outcome: Outcome) -> bool {
    match outcome.result {
        Ok(words) => r matches Ok(assembly) && assembly.data() == words && assembly.data().len()
            == IMAGE_WORDS && assembly.labels() == outcome.state.labels && in_image(
            assembly.labels(),
        ),
        Err(e) => r matches Err(f) && f@ == e,
    }
}

/// Assembling is determined by the instruction set and the source: two
/// results for one input hold the same image and the same labels, or the
/// same error.
pub proof fn lemma_assembly_is_determined(
    is: &InstructionSet,
    input: Seq<u8>,
    first: Result<Assembly, ReduceError>,
    second: Result<Assembly, ReduceError>,
)
    requires
        assembled(first, assembly_of(is, input)),
        assembled(second, assembly_of(is, input)),
    ensures
        first matches Ok(a) ==> second matches Ok(b) && a.data() == b.data() && a.labels()
            == b.labels(),
        first matches Err(e) ==> second matches Err(f) && e@ == f@,
{
}

/// An assembled program: the image and the labels.
#[derive(Debug)]
pub struct Assembly {
    data: Vec<u16>,
    symbols: Table<Option<usize>>,
}

impl Assembly {
    /// The words of the image.
    pub closed spec fn data(&self) -> Seq<u16> {
        self.data@
    }

    /// The labels with their addresses, in the order in which they were
    /// bound.
    pub closed spec fn labels(&self) -> Seq<(Seq<u8>, Option<usize>)> {
        self.symbols@
    }

    /// The symbol listing: a line `name = 0x..` for each label that has an
    /// address, in the order in which the labels were bound.
    pub fn symbols(&self) -> (text: String)
        ensures
            text@ == chars(listing(self.labels(), self.labels().len() as int)),
    {
        let mut out: Vec<u8> = Vec::new();
        let mut i: usize = 0;
        while i < self.symbols.len()
            invariant
                i <= self.symbols@.len(),
                is_ascii(out@),
                out@ == listing(self.symbols@, i as int),
            decreases self.symbols@.len() - i,
        {
            if let Some(address) = *self.symbols.value_at(i) {
                push_entry(&mut out, self.symbols.key_at(i).as_slice(), address);
            } else {
                assert(out@ + Seq::<u8>::empty() =~= out@);
            }
            i += 1;
        }
        ascii_text(out)
    }

    /// The words of the image.
    pub fn binary(&self) -> (words: Vec<u16>)
        ensures
            words@ == self.data(),
    {
        let mut words: Vec<u16> = Vec::new();
        let mut i: usize = 0;
        while i < self.data.len()
            invariant
                i <= self.data@.len(),
                words@ == self.data@.subrange(0, i as int),
            decreases self.data@.len() - i,
        {
            words.push(self.data[i]);
            i += 1;
            assert(words@ =~= self.data@.subrange(0, i as int));
        }
        assert(self.data@.subrange(0, i as int) =~= self.data@);
        words
    }

    /// The image as the text of a memory initialization file of 16-bit
    /// words, with addresses in hexadecimal and words in binary digits.
    pub fn mif(&self) -> (text: String)
        ensures
            text@ == file_text(16, self.data()),
    {
        render(&self.data)
    }
}

/// Assembles a source for an instruction set, with `PASSES` passes at most
/// to resolve what refers forward.
pub fn assemble_from_buf(input: &str, is: &InstructionSet) -> (r: Result<Assembly, ReduceError>)
    requires
        is.wf(),
    ensures
        assembled(r, assembly_of(is, input.spec_bytes())),
{
    let mut ctx = Context::new(is, PASSES);
    let data = match parse(&mut ctx, input) {
        Ok(data) => data,
        Err(e) => {
            return Err(e);
        },
    };
    Ok(Assembly { data, symbols: ctx.labels })
}

} // verus!
