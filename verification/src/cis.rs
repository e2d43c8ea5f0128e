//! The instruction-set table: mnemonics with their encoding variants, and the
//! named operands (registers, condition codes) with their type tags.

use vstd::prelude::*;
use vstd::arithmetic::power2::{pow2, lemma_pow2_pos, lemma_pow2_strictly_increases, lemma2_to64, lemma2_to64_rest};
use vstd::bits::{lemma_u32_shl_is_mul, lemma_u32_pow2_no_overflow};
use crate::table::{Table, lookup};
use crate::text::{lower, to_lower};

verus! {

/// A named operand: its value and the type tags that say where it may stand.
#[derive(Debug)]
pub struct Symbol {
    pub value: usize,
    pub tags: Vec<Vec<u8>>,
}

/// A slot of an encoding: the bit range that receives one operand, and the
/// type that the operand must have.
#[derive(Debug)]
pub struct Argument {
    pub type_tag: Vec<u8>,
    pub index: usize,
    pub offset: usize,
    pub length: usize,
}

/// One encoding variant of a mnemonic.
#[derive(Debug)]
pub struct Instruction {
    pub value: u32,
    pub length: usize,
    pub arguments: Vec<Argument>,
}

/// The whole table. Keys are lower-case names.
#[derive(Debug)]
pub struct InstructionSet {
    pub symbols: Table<Symbol>,
    pub instructions: Table<Vec<Instruction>>,
}

/// The word with the lowest `width` bits set; all 32 of them from width 32 on.
pub open spec fn mask(width: usize) -> u32 {
    if width >= 32 {
        0xFFFF_FFFFu32
    } else {
        ((1u32 << (width as u32)) - 1) as u32
    }
}

/// The lowest `width` bits of `value`, moved up by `offset` bits within a
/// 32-bit word. Bits moved past the top are lost.
pub open spec fn place(value: u32, offset: usize, width: usize) -> u32 {
    if offset >= 32 {
        0u32
    } else {
        (value & mask(width)) << (offset as u32)
    }
}

/// A placed value occupies no bit at or above `offset + width`.
pub proof fn lemma_place_fits(value: u32, offset: usize, width: usize)
    ensures
        (place(value, offset, width) as int) < pow2((offset + width) as nat),
{
    let r = place(value, offset, width);
    let bits = (offset + width) as nat;
    lemma_pow2_pos(bits);
    if offset >= 32 {
    } else if offset + width >= 32 {
        lemma2_to64();
        lemma2_to64_rest();
        if bits > 32 {
            lemma_pow2_strictly_increases(32, bits);
        }
    } else {
        let o = offset as u32;
        let w = width as u32;
        let top = (o + w) as u32;
        assert(((value & (((1u32 << w) - 1) as u32)) << o) < (1u32 << top)) by (bit_vector)
            requires
                o < 32,
                w < 32,
                o + w < 32,
                top == o + w,
        ;
        lemma_u32_pow2_no_overflow(top as nat);
        lemma_u32_shl_is_mul(1u32, top);
    }
}

/// A placed value occupies no bit below `offset`.
pub proof fn lemma_place_clear_below(value: u32, offset: usize, width: usize)
    ensures
        place(value, offset, width) & mask(offset) == 0,
{
    if offset >= 32 {
        let m = mask(offset);
        assert(0u32 & m == 0) by (bit_vector);
    } else {
        let o = offset as u32;
        let v = value & mask(width);
        assert((v << o) & (((1u32 << o) - 1) as u32) == 0) by (bit_vector)
            requires
                o < 32,
        ;
    }
}

impl Argument {
    /// The contribution of an operand value to the encoding.
    pub open spec fn spec_format(&self, value: u32) -> u32 {
        place(value, self.offset, self.length)
    }

    /// Masks `value` to the slot's width and moves it to the slot's offset.
    /// The result never reaches beyond `offset + length` bits.
    pub fn format(&self, value: u32) -> (r: u32)
        ensures
            r == self.spec_format(value),
            (r as int) < pow2((self.offset + self.length) as nat),
            r & mask(self.offset) == 0,
    {
        proof {
            lemma_place_fits(value, self.offset, self.length);
            lemma_place_clear_below(value, self.offset, self.length);
        }
        if self.offset >= 32 {
            return 0;
        }
        let m: u32 = if self.length >= 32 {
            0xFFFF_FFFFu32
        } else {
            let w: u32 = self.length as u32;
            assert((1u32 << w) >= 1) by (bit_vector)
                requires
                    w < 32,
            ;
            (1u32 << w) - 1
        };
        (value & m) << (self.offset as u32)
    }
}

/// The number of operands that a list of slots asks for: one more than the
/// greatest operand index, and none for no slot.
pub open spec fn slots_argc(slots: Seq<Argument>) -> nat
    decreases slots.len(),
{
    if slots.len() == 0 {
        0
    } else {
        let rest = slots_argc(slots.drop_last());
        let here = (slots.last().index + 1) as nat;
        if here > rest {
            here
        } else {
            rest
        }
    }
}

/// `slots_argc` is above every operand index, and is reached by one of them
/// unless there is no slot.
pub proof fn lemma_slots_argc(slots: Seq<Argument>)
    ensures
        forall|i: int| 0 <= i < slots.len() ==> (#[trigger] slots[i]).index < slots_argc(slots),
        slots.len() == 0 <==> slots_argc(slots) == 0,
        slots.len() > 0 ==> exists|i: int|
            0 <= i < slots.len() && (#[trigger] slots[i]).index + 1 == slots_argc(slots),
    decreases slots.len(),
{
    if slots.len() > 0 {
        let front = slots.drop_last();
        lemma_slots_argc(front);
        assert forall|i: int| 0 <= i < slots.len() implies (#[trigger] slots[i]).index
            < slots_argc(slots) by {
            if i < front.len() {
                assert(front[i] == slots[i]);
            }
        }
        let here = (slots.last().index + 1) as nat;
        if here > slots_argc(front) {
            assert(slots[slots.len() - 1].index + 1 == slots_argc(slots));
        } else {
            let i = choose|i: int|
                0 <= i < front.len() && (#[trigger] front[i]).index + 1 == slots_argc(front);
            assert(slots[i] == front[i]);
        }
    }
}

impl Instruction {
    /// A variant is 16 or 32 bits long, and its operand indices can be counted.
    pub open spec fn wf(&self) -> bool {
        &&& (self.length == 16 || self.length == 32)
        &&& forall|i: int|
            0 <= i < self.arguments@.len() ==> (#[trigger] self.arguments@[i]).index < usize::MAX
    }

    /// The number of operands of this variant.
    pub open spec fn spec_argc(&self) -> nat {
        slots_argc(self.arguments@)
    }

    /// The number of operands: one more than the greatest operand index among
    /// the slots, or 0 without slots.
    pub fn argc(&self) -> (n: usize)
        requires
            self.wf(),
        ensures
            n == self.spec_argc(),
            forall|i: int|
                0 <= i < self.arguments@.len() ==> (#[trigger] self.arguments@[i]).index < n,
            n == 0 <==> self.arguments@.len() == 0,
            n > 0 ==> exists|i: int|
                0 <= i < self.arguments@.len() && (#[trigger] self.arguments@[i]).index + 1 == n,
    {
        let mut n: usize = 0;
        let mut i: usize = 0;
        while i < self.arguments.len()
            invariant
                i <= self.arguments@.len(),
                self.wf(),
                n == slots_argc(self.arguments@.subrange(0, i as int)),
            decreases self.arguments@.len() - i,
        {
            let here = self.arguments[i].index + 1;
            proof {
                let next = self.arguments@.subrange(0, i + 1);
                assert(next.drop_last() =~= self.arguments@.subrange(0, i as int));
            }
            if here > n {
                n = here;
            }
            i += 1;
        }
        proof {
            assert(self.arguments@.subrange(0, i as int) =~= self.arguments@);
            lemma_slots_argc(self.arguments@);
        }
        n
    }
}

/// The variants of one mnemonic: at least one, each well formed, all of one
/// length.
pub open spec fn variants_wf(variants: Seq<Instruction>) -> bool {
    &&& variants.len() > 0
    &&& forall|i: int|
        0 <= i < variants.len() ==> (#[trigger] variants[i]).wf() && variants[i].length
            == variants[0].length
}

impl InstructionSet {
    /// The table's invariant: keys occur once, and every mnemonic has
    /// well-formed variants of one length.
    pub open spec fn wf(&self) -> bool {
        &&& self.symbols.wf()
        &&& self.instructions.wf()
        &&& forall|i: int|
            0 <= i < self.instructions@.len() ==> variants_wf(
                (#[trigger] self.instructions@[i]).1@,
            )
    }

    /// The symbol that a name stands for: the entry under its lower-case form.
    pub open spec fn spec_get_symbol(&self, name: Seq<u8>) -> Option<Symbol> {
        lookup(self.symbols@, lower(name))
    }

    /// The variants of a mnemonic: the entry under its lower-case form.
    pub open spec fn spec_get_instruction(&self, name: Seq<u8>) -> Option<Vec<Instruction>> {
        lookup(self.instructions@, lower(name))
    }

    /// An empty table.
    pub fn new() -> (is: Self)
        ensures
            is.wf(),
            is.symbols@.len() == 0,
            is.instructions@.len() == 0,
    {
        InstructionSet { symbols: Table::new(), instructions: Table::new() }
    }

    /// Looks a symbol up without regard to the case of ASCII letters.
    pub fn get_symbol(&self, name: &[u8]) -> (r: Option<&Symbol>)
        ensures
            match r {
                Some(s) => self.spec_get_symbol(name@) == Some(*s),
                None => self.spec_get_symbol(name@) is None,
            },
    {
        let name = to_lower(name);
        self.symbols.get(name.as_slice())
    }

    /// Looks a mnemonic up without regard to the case of ASCII letters.
    pub fn get_instruction(&self, name: &[u8]) -> (r: Option<&Vec<Instruction>>)
        ensures
            match r {
                Some(v) => self.spec_get_instruction(name@) == Some(*v),
                None => self.spec_get_instruction(name@) is None,
            },
    {
        let name = to_lower(name);
        self.instructions.get(name.as_slice())
    }

    /// Whether every mnemonic has well-formed variants of one length.
    pub fn check(&self) -> (ok: bool)
        requires
            self.symbols.wf(),
            self.instructions.wf(),
        ensures
            ok == self.wf(),
    {
        let mut i: usize = 0;
        while i < self.instructions.len()
            invariant
                i <= self.instructions@.len(),
                forall|k: int| 0 <= k < i ==> variants_wf((#[trigger] self.instructions@[k]).1@),
            decreases self.instructions@.len() - i,
        {
            let variants = self.instructions.value_at(i);
            if !check_variants(variants) {
                return false;
            }
            i += 1;
        }
        true
    }
}

/// Whether the variants of one mnemonic are well formed.
fn check_variants(variants: &Vec<Instruction>) -> (ok: bool)
    ensures
        ok == variants_wf(variants@),
{
    if variants.len() == 0 {
        return false;
    }
    let mut i: usize = 0;
    while i < variants.len()
        invariant
            i <= variants@.len(),
            variants@.len() > 0,
            forall|k: int|
                0 <= k < i ==> (#[trigger] variants@[k]).wf() && variants@[k].length
                    == variants@[0].length,
        decreases variants@.len() - i,
    {
        let v = &variants[i];
        if !(v.length == 16 || v.length == 32) || v.length != variants[0].length {
            return false;
        }
        let mut j: usize = 0;
        while j < v.arguments.len()
            invariant
                j <= v.arguments@.len(),
                i < variants@.len(),
                *v == variants@[i as int],
                forall|k: int| 0 <= k < j ==> (#[trigger] v.arguments@[k]).index < usize::MAX,
            decreases v.arguments@.len() - j,
        {
            if v.arguments[j].index == usize::MAX {
                assert(!v.wf()) by {
                    assert(v.arguments@[j as int].index == usize::MAX);
                }
                assert(*v == variants@[i as int]);
                return false;
            }
            j += 1;
        }
        i += 1;
    }
    true
}

} // verus!
