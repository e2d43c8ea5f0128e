//! The state of an assembly: the emission address, the label table and the
//! allocations that wait for their base address.

use vstd::prelude::*;
pub use crate::cis::{Argument, Instruction, InstructionSet, Symbol};
use crate::table::{Table, distinct_keys, has_key, lemma_position_of, lemma_store, lookup, store};
use crate::text::copy_bytes;

verus! {

/// The number of 16-bit words of the image. Every address is below it.
pub const IMAGE_WORDS: usize = 0x10000;

/// Why a label could not be placed.
#[derive(Debug, Clone, Copy, PartialEq, Eq, Structural)]
pub enum LabelError {
    /// The leading dots of the name do not match the depth of the scope.
    InvalidLabel,
    /// The label is bound already.
    Unavailable,
    /// The label, or the words allocated for it, would lie outside the image.
    OutOfRange,
}

/// The number of dots that a name begins with.
pub open spec fn leading_dots(name: Seq<u8>) -> nat
    decreases name.len(),
{
    if name.len() > 0 && name[0] == '.' as u8 {
        1 + leading_dots(name.drop_first())
    } else {
        0
    }
}

/// The parts of a scope, joined by dots.
pub open spec fn join_dots(path: Seq<Seq<u8>>) -> Seq<u8>
    decreases path.len(),
{
    if path.len() == 0 {
        Seq::empty()
    } else if path.len() == 1 {
        path[0]
    } else {
        join_dots(path.drop_last()) + seq!['.' as u8] + path.last()
    }
}

/// The canonical path of a label within a scope. A name without a leading dot
/// is its own path. A name with leading dots must have as many as the scope
/// has parts, and is then the scope, a dot, and the name without its dots.
pub open spec fn canonical(path: Seq<Seq<u8>>, name: Seq<u8>) -> Option<Seq<u8>> {
    let dots = leading_dots(name);
    if dots == 0 {
        Some(name)
    } else if dots == path.len() {
        Some(join_dots(path) + seq!['.' as u8] + name.subrange(dots as int, name.len() as int))
    } else {
        None
    }
}

/// A run of `k` dots at the start of a name that ends there is all of its
/// leading dots.
pub proof fn lemma_leading_dots(name: Seq<u8>, k: nat)
    requires
        k <= name.len(),
        forall|j: int| 0 <= j < k ==> name[j] == '.' as u8,
        k == name.len() || name[k as int] != '.' as u8,
    ensures
        leading_dots(name) == k,
    decreases k,
{
    if k > 0 {
        lemma_leading_dots(name.drop_first(), (k - 1) as nat);
    }
}

/// The sizes of the first `n` allocations, added up.
pub open spec fn total_before(allocations: Seq<(Seq<u8>, usize)>, n: int) -> int
    decreases n,
{
    if n <= 0 {
        0
    } else {
        total_before(allocations, n - 1) + allocations[n - 1].1
    }
}

/// The label table after the first `n` allocations have been placed one
/// after the other from `base` on, in their order.
pub open spec fn place_first(
    labels: Seq<(Seq<u8>, Option<usize>)>,
    allocations: Seq<(Seq<u8>, usize)>,
    base: int,
    n: int,
) -> Seq<(Seq<u8>, Option<usize>)>
    decreases n,
{
    if n <= 0 {
        labels
    } else {
        store(
            place_first(labels, allocations, base, n - 1),
            allocations[n - 1].0,
            Some((base + total_before(allocations, n - 1)) as usize),
        )
    }
}

/// The sizes of more allocations add up to no less.
pub proof fn lemma_total_before_monotonic(allocations: Seq<(Seq<u8>, usize)>, i: int, j: int)
    requires
        0 <= i <= j,
    ensures
        total_before(allocations, i) <= total_before(allocations, j),
    decreases j - i,
{
    if i < j {
        lemma_total_before_monotonic(allocations, i, j - 1);
    }
}

/// What `place_first` does to each key: an allocation among the first `n`
/// leads to its address, any other key to what it led to before. Keys stay
/// distinct.
pub proof fn lemma_place_first(
    labels: Seq<(Seq<u8>, Option<usize>)>,
    allocations: Seq<(Seq<u8>, usize)>,
    base: int,
    n: int,
)
    requires
        distinct_keys(labels),
        distinct_keys(allocations),
        0 <= n <= allocations.len(),
    ensures
        distinct_keys(place_first(labels, allocations, base, n)),
        forall|i: int|
            0 <= i < n ==> lookup(place_first(labels, allocations, base, n), allocations[i].0)
                == Some(Some((base + #[trigger] total_before(allocations, i)) as usize)),
        forall|key: Seq<u8>|
            (forall|i: int| 0 <= i < n ==> (#[trigger] allocations[i]).0 != key) ==> lookup(
                place_first(labels, allocations, base, n),
                key,
            ) == lookup(labels, key),
    decreases n,
{
    if n > 0 {
        lemma_place_first(labels, allocations, base, n - 1);
        let before = place_first(labels, allocations, base, n - 1);
        let key = allocations[n - 1].0;
        let value = Some((base + total_before(allocations, n - 1)) as usize);
        lemma_store(before, key, value);
        let after = place_first(labels, allocations, base, n);
        assert forall|i: int| 0 <= i < n implies lookup(after, allocations[i].0) == Some(
            Some((base + #[trigger] total_before(allocations, i)) as usize),
        ) by {
            if i < n - 1 {
                assert(allocations[i].0 != key);
            }
        }
        assert forall|other: Seq<u8>|
            (forall|i: int| 0 <= i < n ==> (#[trigger] allocations[i]).0 != other) implies lookup(
            after,
            other,
        ) == lookup(labels, other) by {
            assert(allocations[n - 1].0 != other);
        }
    }
}

/// Whether every label that has an address has it in the image.
pub open spec fn in_image(labels: Seq<(Seq<u8>, Option<usize>)>) -> bool {
    forall|i: int|
        0 <= i < labels.len() ==> ((#[trigger] labels[i]).1 matches Some(a) ==> a < IMAGE_WORDS)
}

/// The mutable part of a `Context` as a mathematical value.
pub struct State {
    /// The label table in the order in which the labels arrived. `None` is a
    /// label that waits for the allocation base.
    pub labels: Seq<(Seq<u8>, Option<usize>)>,
    /// The allocations that wait for their base, in declaration order.
    pub allocations: Seq<(Seq<u8>, usize)>,
    /// The next emission address.
    pub address: usize,
    /// The scope of dotted labels.
    pub path: Seq<Seq<u8>>,
    /// The next free word of the allocation area, once its base is known.
    pub allocation_offset: Option<usize>,
    /// The passes that the fixed-point loop may still make.
    pub counter: usize,
}

impl State {
    /// The invariant of a state: keys are distinct, and every address lies in
    /// the image.
    pub open spec fn wf(self) -> bool {
        &&& distinct_keys(self.labels)
        &&& distinct_keys(self.allocations)
        &&& self.address <= IMAGE_WORDS
        &&& in_image(self.labels)
        &&& (self.allocation_offset matches Some(o) ==> o <= IMAGE_WORDS)
    }

    /// The address of a label, if it is bound and placed.
    pub open spec fn resolve(self, path: Seq<u8>) -> Option<usize> {
        match lookup(self.labels, path) {
            Some(Some(a)) => Some(a),
            _ => None,
        }
    }

    /// The state with the emission address moved to `address`.
    pub open spec fn at(self, address: usize) -> State {
        State { address, ..self }
    }

    /// The result of binding a label to the current address.
    pub open spec fn register(self, name: Seq<u8>, preregistered: bool) -> Result<
        State,
        LabelError,
    > {
        match canonical(self.path, name) {
            None => Err(LabelError::InvalidLabel),
            Some(path) => {
                if !preregistered && has_key(self.labels, path) {
                    Err(LabelError::Unavailable)
                } else if self.address >= IMAGE_WORDS {
                    Err(LabelError::OutOfRange)
                } else {
                    Ok(State { labels: store(self.labels, path, Some(self.address)), ..self })
                }
            },
        }
    }

    /// The state after `size` words have been claimed for `path`: behind the
    /// allocation offset where that is known, in the queue otherwise.
    pub open spec fn claim(self, path: Seq<u8>, size: Option<usize>) -> Result<State, LabelError> {
        match size {
            None => Ok(self),
            Some(size) => match self.allocation_offset {
                None => Ok(State { allocations: store(self.allocations, path, size), ..self }),
                Some(offset) => {
                    if offset + size > IMAGE_WORDS {
                        Err(LabelError::OutOfRange)
                    } else {
                        Ok(State { allocation_offset: Some((offset + size) as usize), ..self })
                    }
                },
            },
        }
    }

    /// The result of declaring an allocation label.
    pub open spec fn allocate(
        self,
        name: Seq<u8>,
        size: Option<usize>,
        preregistered: bool,
    ) -> Result<State, LabelError> {
        match canonical(self.path, name) {
            None => Err(LabelError::InvalidLabel),
            Some(path) => {
                if preregistered {
                    self.claim(path, size)
                } else if has_key(self.labels, path) {
                    Err(LabelError::Unavailable)
                } else if self.allocation_offset matches Some(o) && o >= IMAGE_WORDS {
                    Err(LabelError::OutOfRange)
                } else {
                    State {
                        labels: store(self.labels, path, self.allocation_offset),
                        ..self
                    }.claim(path, size)
                }
            },
        }
    }

    /// Whether the waiting allocations, placed one after the other from
    /// `base` on, lie in the image.
    pub open spec fn allocations_fit(self, base: usize) -> bool {
        &&& base + total_before(self.allocations, self.allocations.len() as int) <= IMAGE_WORDS
        &&& forall|i: int|
            0 <= i < self.allocations.len() ==> base + #[trigger] total_before(self.allocations, i)
                < IMAGE_WORDS
    }

    /// The state after the waiting allocations have been placed from `base`
    /// on.
    pub open spec fn place_allocations(self, base: usize) -> State {
        let n = self.allocations.len() as int;
        State {
            labels: place_first(self.labels, self.allocations, base as int, n),
            allocations: Seq::empty(),
            allocation_offset: Some((base + total_before(self.allocations, n)) as usize),
            ..self
        }
    }
}

/// Every placed label of a well-formed state has its address in the image.
pub proof fn lemma_resolved_in_image(state: State, path: Seq<u8>)
    requires
        state.wf(),
    ensures
        state.resolve(path) matches Some(a) ==> a < IMAGE_WORDS,
        lookup(state.labels, path) matches Some(Some(a)) ==> a < IMAGE_WORDS,
{
    lemma_position_of(state.labels, path);
}

/// After the waiting allocations have been placed from `base` on, each has
/// the address `base` plus the sizes of those declared before it, which is
/// no less than `base`; none waits any more, and every other label is where
/// it was.
pub proof fn lemma_place_allocations(state: State, base: usize)
    requires
        state.wf(),
        state.allocations_fit(base),
    ensures
        state.place_allocations(base).wf(),
        state.place_allocations(base).allocations.len() == 0,
        forall|i: int|
            0 <= i < state.allocations.len() ==> 0 <= #[trigger] total_before(state.allocations, i),
        forall|i: int|
            0 <= i < state.allocations.len() ==> state.place_allocations(base).resolve(
                state.allocations[i].0,
            ) == Some((base + #[trigger] total_before(state.allocations, i)) as usize),
        forall|key: Seq<u8>|
            !has_key(state.allocations, key) ==> lookup(state.place_allocations(base).labels, key)
                == lookup(state.labels, key),
{
    let n = state.allocations.len() as int;
    lemma_place_first(state.labels, state.allocations, base as int, n);
    lemma_place_first_in_image(state.labels, state.allocations, base as int, n);
    assert forall|i: int| 0 <= i < n implies 0 <= #[trigger] total_before(state.allocations, i) by {
        lemma_total_before_monotonic(state.allocations, 0, i);
    }
    lemma_total_before_monotonic(state.allocations, 0, n);
    assert forall|key: Seq<u8>| !has_key(state.allocations, key) implies lookup(
        state.place_allocations(base).labels,
        key,
    ) == lookup(state.labels, key) by {
        assert(forall|i: int| 0 <= i < n ==> (#[trigger] state.allocations[i]).0 != key);
    }
}

/// Placing allocations at addresses of the image keeps all addresses in the
/// image.
proof fn lemma_place_first_in_image(
    labels: Seq<(Seq<u8>, Option<usize>)>,
    allocations: Seq<(Seq<u8>, usize)>,
    base: int,
    n: int,
)
    requires
        0 <= n <= allocations.len(),
        0 <= base,
        in_image(labels),
        forall|i: int| 0 <= i < n ==> base + #[trigger] total_before(allocations, i) < IMAGE_WORDS,
    ensures
        in_image(place_first(labels, allocations, base, n)),
    decreases n,
{
    if n > 0 {
        lemma_place_first_in_image(labels, allocations, base, n - 1);
        lemma_total_before_monotonic(allocations, 0, n - 1);
        lemma_stored_in_image(
            place_first(labels, allocations, base, n - 1),
            allocations[n - 1].0,
            Some((base + total_before(allocations, n - 1)) as usize),
        );
    }
}

/// The state of an assembly, together with the instruction set that it reads.
#[derive(Debug)]
pub struct Context<'is> {
    pub is: &'is InstructionSet,
    pub labels: Table<Option<usize>>,
    pub allocations: Table<usize>,
    pub address: usize,
    pub path: Vec<Vec<u8>>,
    pub allocation_offset: Option<usize>,
    pub counter: usize,
}

impl<'is> View for Context<'is> {
    type V = State;

    open spec fn view(&self) -> State {
        State {
            labels: self.labels@,
            allocations: self.allocations@,
            address: self.address,
            path: Seq::new(self.path@.len(), |i: int| self.path@[i]@),
            allocation_offset: self.allocation_offset,
            counter: self.counter,
        }
    }
}

impl<'is> Context<'is> {
    /// The invariant of a context: that of its state and of its table.
    pub open spec fn wf(&self) -> bool {
        &&& self@.wf()
        &&& self.is.wf()
    }

    /// A context at address 0 without labels, with `counter` passes to go.
    pub fn new(is: &'is InstructionSet, counter: usize) -> (ctx: Self)
        requires
            is.wf(),
        ensures
            ctx.wf(),
            ctx.is == is,
            ctx@ == (State {
                labels: Seq::empty(),
                allocations: Seq::empty(),
                address: 0,
                path: Seq::empty(),
                allocation_offset: None,
                counter,
            }),
    {
        let ctx = Context {
            is,
            labels: Table::new(),
            allocations: Table::new(),
            address: 0,
            path: Vec::new(),
            allocation_offset: None,
            counter,
        };
        assert(ctx@.path =~= Seq::<Seq<u8>>::empty());
        ctx
    }

    /// Whether the waiting allocations fit into the image from `offset` on.
    pub fn allocations_fit(&self, offset: usize) -> (ok: bool)
        ensures
            ok == self@.allocations_fit(offset),
    {
        if offset > IMAGE_WORDS {
            assert(total_before(self@.allocations, 0) == 0);
            proof {
                lemma_total_before_monotonic(self@.allocations, 0, self@.allocations.len() as int);
            }
            return false;
        }
        let mut next: usize = offset;
        let mut i: usize = 0;
        while i < self.allocations.len()
            invariant
                i <= self@.allocations.len(),
                next == offset + total_before(self@.allocations, i as int),
                next <= IMAGE_WORDS,
                forall|k: int|
                    0 <= k < i ==> offset + #[trigger] total_before(self@.allocations, k)
                        < IMAGE_WORDS,
            decreases self@.allocations.len() - i,
        {
            let size = *self.allocations.value_at(i);
            if next >= IMAGE_WORDS || size > IMAGE_WORDS - next {
                proof {
                    lemma_total_before_monotonic(
                        self@.allocations,
                        i + 1,
                        self@.allocations.len() as int,
                    );
                }
                return false;
            }
            next = next + size;
            i += 1;
        }
        true
    }

    /// Places the waiting allocations one after the other from `offset` on,
    /// in declaration order, and lets later allocations follow them.
    ///
    /// Each allocation declared with size `s_i` gets the address `offset`
    /// plus the sizes declared before it.
    pub fn set_allocation_offset(&mut self, offset: usize)
        requires
            old(self).wf(),
            old(self)@.allocations_fit(offset),
        ensures
            final(self).wf(),
            final(self).is == old(self).is,
            final(self)@ == old(self)@.place_allocations(offset),
            final(self)@.allocations.len() == 0,
            forall|i: int|
                0 <= i < old(self)@.allocations.len() ==> final(self)@.resolve(
                    old(self)@.allocations[i].0,
                ) == Some((offset + #[trigger] total_before(old(self)@.allocations, i)) as usize),
    {
        proof {
            lemma_place_allocations(self@, offset);
        }
        let ghost before = self@;
        let mut next: usize = offset;
        let mut i: usize = 0;
        while i < self.allocations.len()
            invariant
                i <= before.allocations.len(),
                distinct_keys(before.labels),
                distinct_keys(before.allocations),
                offset + total_before(before.allocations, before.allocations.len() as int)
                    <= IMAGE_WORDS,
                self.allocations@ == before.allocations,
                self.path == old(self).path,
                self.address == old(self).address,
                self.counter == old(self).counter,
                self.is == old(self).is,
                self.labels.wf(),
                self.labels@ == place_first(before.labels, before.allocations, offset as int, i as int),
                next == offset + total_before(before.allocations, i as int),
            decreases before.allocations.len() - i,
        {
            let name = copy_bytes(self.allocations.key_at(i).as_slice());
            let size = *self.allocations.value_at(i);
            proof {
                lemma_total_before_monotonic(before.allocations, i + 1, before.allocations.len() as int);
                lemma_total_before_monotonic(before.allocations, 0, i as int);
            }
            self.labels.insert(name, Some(next));
            next = next + size;
            i += 1;
        }
        self.allocations.clear();
        self.allocation_offset = Some(next);
        assert(self@.path =~= before.path);
    }

    /// Whether `len` more words fit into the image at the current address.
    pub fn fits(&self, len: usize) -> (ok: bool)
        requires
            self@.address <= IMAGE_WORDS,
        ensures
            ok == (self@.address + len <= IMAGE_WORDS),
    {
        len <= IMAGE_WORDS - self.address
    }

    /// Moves the emission address forward by `len` words.
    pub fn advance(&mut self, len: usize)
        requires
            old(self)@.address + len <= IMAGE_WORDS,
        ensures
            final(self)@ == old(self)@.at((old(self)@.address + len) as usize),
            final(self).is == old(self).is,
    {
        self.address += len;
        assert(self@.path =~= old(self)@.path);
    }

    /// The canonical path of a label in the current scope.
    pub fn get_path(&self, label: &[u8]) -> (r: Result<Vec<u8>, LabelError>)
        ensures
            match r {
                Ok(path) => canonical(self@.path, label@) == Some(path@),
                Err(e) => e == LabelError::InvalidLabel && canonical(self@.path, label@) is None,
            },
    {
        let mut levels: usize = 0;
        while levels < label.len() && label[levels] == '.' as u8
            invariant
                levels <= label@.len(),
                forall|j: int| 0 <= j < levels ==> label@[j] == '.' as u8,
            decreases label@.len() - levels,
        {
            levels += 1;
        }
        proof {
            lemma_leading_dots(label@, levels as nat);
        }
        if levels == 0 {
            return Ok(copy_bytes(label));
        }
        if levels != self.path.len() {
            return Err(LabelError::InvalidLabel);
        }
        let mut path: Vec<u8> = Vec::new();
        let mut i: usize = 0;
        while i < self.path.len()
            invariant
                i <= self.path@.len(),
                path@ == join_dots(self@.path.subrange(0, i as int)),
            decreases self.path@.len() - i,
        {
            if i > 0 {
                path.push('.' as u8);
            }
            let part = &self.path[i];
            let ghost head = path@;
            let mut j: usize = 0;
            while j < part.len()
                invariant
                    j <= part@.len(),
                    path@ == head + part@.subrange(0, j as int),
                decreases part@.len() - j,
            {
                path.push(part[j]);
                j += 1;
                assert(path@ =~= head + part@.subrange(0, j as int));
            }
            proof {
                assert(part@.subrange(0, j as int) =~= part@);
                let next = self@.path.subrange(0, i + 1);
                assert(next.drop_last() =~= self@.path.subrange(0, i as int));
                assert(next.last() == part@);
                if i == 0 {
                    assert(path@ =~= part@);
                }
            }
            i += 1;
        }
        assert(self@.path.subrange(0, i as int) =~= self@.path);
        path.push('.' as u8);
        let ghost head = path@;
        let mut j: usize = levels;
        while j < label.len()
            invariant
                levels <= j <= label@.len(),
                path@ == head + label@.subrange(levels as int, j as int),
            decreases label@.len() - j,
        {
            path.push(label[j]);
            j += 1;
            assert(path@ =~= head + label@.subrange(levels as int, j as int));
        }
        Ok(path)
    }

    /// Binds a label to the current address. A label that is bound already is
    /// refused unless `preregistered` says that this is its own binding.
    pub fn register_label(&mut self, label: &[u8], preregistered: bool) -> (r: Result<
        usize,
        LabelError,
    >)
        requires
            old(self).wf(),
        ensures
            final(self).wf(),
            final(self).is == old(self).is,
            match old(self)@.register(label@, preregistered) {
                Ok(state) => r == Ok::<usize, LabelError>(old(self)@.address) && final(self)@
                    == state,
                Err(e) => r == Err::<usize, LabelError>(e) && final(self)@ == old(self)@,
            },
    {
        let path = match self.get_path(label) {
            Ok(path) => path,
            Err(e) => {
                return Err(e);
            },
        };
        proof {
            lemma_position_of(self@.labels, path@);
            lemma_store(self@.labels, path@, Some(self@.address));
        }
        if !preregistered && self.labels.contains_key(path.as_slice()) {
            return Err(LabelError::Unavailable);
        }
        if self.address >= IMAGE_WORDS {
            return Err(LabelError::OutOfRange);
        }
        self.labels.insert(path, Some(self.address));
        proof {
            assert(self@.path =~= old(self)@.path);
            lemma_stored_in_image(old(self)@.labels, path@, Some(self.address));
        }
        Ok(self.address)
    }

    /// Claims `size` words for `path`: behind the allocation offset where
    /// that is known, in the queue otherwise.
    fn claim(&mut self, path: Vec<u8>, size: Option<usize>) -> (r: Result<(), LabelError>)
        requires
            old(self).wf(),
        ensures
            final(self).wf(),
            final(self).is == old(self).is,
            match old(self)@.claim(path@, size) {
                Ok(state) => r is Ok && final(self)@ == state,
                Err(e) => r == Err::<(), LabelError>(e) && final(self)@ == old(self)@,
            },
    {
        if let Some(size) = size {
            if let Some(offset) = self.allocation_offset {
                if size > IMAGE_WORDS - offset {
                    return Err(LabelError::OutOfRange);
                }
                self.allocation_offset = Some(offset + size);
            } else {
                proof {
                    lemma_store(self@.allocations, path@, size);
                }
                self.allocations.insert(path, size);
            }
        }
        assert(self@.path =~= old(self)@.path);
        Ok(())
    }

    /// Declares an allocation label of `size` words. Before the allocation
    /// base is known the label waits in the queue; afterwards it is placed at
    /// the allocation offset, which moves on by `size`.
    pub fn allocate(&mut self, label: &[u8], size: Option<usize>, preregistered: bool) -> (r:
        Result<(), LabelError>)
        requires
            old(self).wf(),
        ensures
            final(self).wf(),
            final(self).is == old(self).is,
            match old(self)@.allocate(label@, size, preregistered) {
                Ok(state) => r is Ok && final(self)@ == state,
                Err(e) => r == Err::<(), LabelError>(e) && final(self)@ == old(self)@,
            },
    {
        let path = match self.get_path(label) {
            Ok(path) => path,
            Err(e) => {
                return Err(e);
            },
        };
        if preregistered {
            return self.claim(path, size);
        }
        proof {
            lemma_position_of(self@.labels, path@);
        }
        if self.labels.contains_key(path.as_slice()) {
            return Err(LabelError::Unavailable);
        }
        let address = self.allocation_offset;
        if let Some(offset) = address {
            if offset >= IMAGE_WORDS {
                return Err(LabelError::OutOfRange);
            }
            if let Some(size) = size {
                if size > IMAGE_WORDS - offset {
                    return Err(LabelError::OutOfRange);
                }
            }
        }
        let key = copy_bytes(path.as_slice());
        proof {
            lemma_store(self@.labels, path@, address);
            lemma_stored_in_image(self@.labels, path@, address);
        }
        self.labels.insert(key, address);
        assert(self@.path =~= old(self)@.path);
        self.claim(path, size)
    }
}

/// Storing an address of the image keeps all addresses in the image.
proof fn lemma_stored_in_image(
    labels: Seq<(Seq<u8>, Option<usize>)>,
    path: Seq<u8>,
    value: Option<usize>,
)
    requires
        in_image(labels),
        value matches Some(a) ==> a < IMAGE_WORDS,
    ensures
        in_image(store(labels, path, value)),
{
    lemma_position_of(labels, path);
}

} // verus!
