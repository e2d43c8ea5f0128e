use assembler::assemble_from_buf;
use assembler::ast::{Pair, ReduceError};
use assembler::cis::{Argument, Instruction, InstructionSet, Symbol};

fn slot(type_tag: &str, index: usize, offset: usize, length: usize) -> Argument {
    Argument { type_tag: type_tag.as_bytes().to_vec(), index, offset, length }
}

/// `nop` is 0x0000, `mov Rd, imm8` is 0x1000 | Rd << 8 | imm8, `jmp imm8` is
/// 0x2000 | imm8, `call imm16` takes two words, and r0 to r3 are registers.
fn toy() -> InstructionSet {
    let mut is = InstructionSet::new();
    for (i, name) in ["r0", "r1", "r2", "r3"].iter().enumerate() {
        is.symbols.insert(
            name.as_bytes().to_vec(),
            Symbol { value: i, tags: vec![b"reg".to_vec()] },
        );
    }
    is.instructions.insert(
        b"nop".to_vec(),
        vec![Instruction { value: 0x0000, length: 16, arguments: vec![] }],
    );
    is.instructions.insert(
        b"mov".to_vec(),
        vec![Instruction {
            value: 0x1000,
            length: 16,
            arguments: vec![slot("reg", 0, 8, 4), slot("u8", 1, 0, 8)],
        }],
    );
    is.instructions.insert(
        b"jmp".to_vec(),
        vec![Instruction { value: 0x2000, length: 16, arguments: vec![slot("u8", 0, 0, 8)] }],
    );
    is.instructions.insert(
        b"call".to_vec(),
        vec![Instruction {
            value: 0x3000_0000,
            length: 32,
            arguments: vec![slot("ptr16", 0, 0, 16)],
        }],
    );
    is
}

#[test]
fn empty_source_is_a_zero_image() {
    let is = toy();
    assert!(is.check());
    let assembly = assemble_from_buf("", &is).unwrap();
    let data = assembly.binary();
    assert_eq!(data.len(), 65536);
    assert!(data.iter().all(|word| *word == 0));
    assert_eq!(assembly.symbols(), "");
}

#[test]
fn nop_is_one_zero_word() {
    let is = toy();
    let assembly = assemble_from_buf("nop", &is).unwrap();
    let data = assembly.binary();
    assert_eq!(data.len(), 0x10000);
    assert_eq!(data[0], 0x0000);
    assert!(data.iter().all(|word| *word == 0));
    assert_eq!(assembly.symbols(), "");
}

#[test]
fn mov_register_immediate() {
    let is = toy();
    let assembly = assemble_from_buf("mov r1, 0x2A", &is).unwrap();
    let data = assembly.binary();
    assert_eq!(data[0], 0x112A);
    assert_eq!(data[1], 0);
}

#[test]
fn mnemonics_and_symbols_ignore_case() {
    let is = toy();
    let assembly = assemble_from_buf("MOV R1, 42", &is).unwrap();
    assert_eq!(assembly.binary()[0], 0x112A);
}

#[test]
fn label_resolves_to_its_own_address() {
    let is = toy();
    let assembly = assemble_from_buf("start: mov r0, start", &is).unwrap();
    assert_eq!(assembly.binary()[0], 0x1000);
    assert_eq!(assembly.symbols(), "start = 0x0\n");
}

#[test]
fn forward_reference_is_resolved() {
    let is = toy();
    let assembly = assemble_from_buf("jmp end\nvar 3\nend: nop\n", &is).unwrap();
    let data = assembly.binary();
    assert_eq!(&data[0..6], &[0x2004, 0, 0, 0, 0x0000, 0]);
    assert_eq!(assembly.symbols(), "end = 0x4\n");
}

#[test]
fn allocations_follow_the_code() {
    let is = toy();
    let assembly = assemble_from_buf("alloc buf, 16\nfoo: var 1\n", &is).unwrap();
    // The code is the one word of `var`; `buf` is placed behind it.
    assert_eq!(assembly.symbols(), "buf = 0x1\nfoo = 0x0\n");
}

#[test]
fn allocations_are_placed_in_declaration_order() {
    let is = toy();
    let source = "alloc a, 3\nalloc b, 5\nnop\nnop\nalloc c, 1\nmov r0, b\n";
    let assembly = assemble_from_buf(source, &is).unwrap();
    // Three words of code, then a at 3, b at 3 + 3, c at 3 + 3 + 5.
    assert_eq!(assembly.symbols(), "a = 0x3\nb = 0x6\nc = 0xb\n");
    assert_eq!(&assembly.binary()[0..4], &[0x0000, 0x0000, 0x1006, 0]);
}

#[test]
fn two_word_instruction_is_big_endian() {
    let is = toy();
    let assembly = assemble_from_buf("call 0xBEEF\nnop\nhere: nop", &is).unwrap();
    let data = assembly.binary();
    assert_eq!(&data[0..4], &[0x3000, 0xBEEF, 0, 0]);
    assert_eq!(assembly.symbols(), "here = 0x3\n");
}

#[test]
fn string_directive_emits_code_units_and_a_zero() {
    let is = toy();
    let assembly = assemble_from_buf("string \"Hi\\0!\"\nend: nop", &is).unwrap();
    let data = assembly.binary();
    assert_eq!(&data[0..6], &[0x48, 0x69, 0, 0x21, 0, 0]);
    assert_eq!(assembly.symbols(), "end = 0x5\n");
}

#[test]
fn static_directive_writes_at_a_fixed_address() {
    let is = toy();
    let assembly = assemble_from_buf("static 0x100, 0x1234\nnop\nstatic 0x101, \"A\"\nmov r2, 1", &is)
        .unwrap();
    let data = assembly.binary();
    assert_eq!(data[0], 0x0000);
    assert_eq!(data[1], 0x1201);
    assert_eq!(data[0x100], 0x1234);
    assert_eq!(data[0x101], 0x41);
}

#[test]
fn static_directive_waits_for_a_forward_label() {
    let is = toy();
    let assembly = assemble_from_buf("static 0x10, end\nnop\nnop\nend: nop", &is).unwrap();
    assert_eq!(assembly.binary()[0x10], 2);
}

#[test]
fn static_directive_keeps_the_low_word_of_its_value() {
    let is = toy();
    let assembly = assemble_from_buf("static 0xFFFF, 0x12345", &is).unwrap();
    assert_eq!(assembly.binary()[0xFFFF], 0x2345);
}

#[test]
fn static_directive_outside_the_image_is_rejected() {
    let is = toy();
    let r = assemble_from_buf("static 0x10000, 1", &is);
    assert!(matches!(r, Err(ReduceError::OutOfRange)));
}

#[test]
fn code_beyond_the_image_is_rejected() {
    let is = toy();
    assert!(assemble_from_buf("var 0x10000", &is).is_ok());
    let r = assemble_from_buf("var 0x10000\nnop", &is);
    assert!(matches!(r, Err(ReduceError::OutOfRange)));
    let r = assemble_from_buf("var 0x10001", &is);
    assert!(matches!(r, Err(ReduceError::OutOfRange)));
}

#[test]
fn label_behind_a_full_image_is_rejected() {
    let is = toy();
    let r = assemble_from_buf("var 0x10000\nend:", &is);
    assert!(matches!(r, Err(ReduceError::OutOfRange)));
}

#[test]
fn allocation_beyond_the_image_is_rejected() {
    let is = toy();
    assert!(assemble_from_buf("alloc buf, 0xFFFF\nnop", &is).is_ok());
    let r = assemble_from_buf("alloc buf, 0x10000\nnop", &is);
    assert!(matches!(r, Err(ReduceError::OutOfRange)));
}

#[test]
fn expressions_are_folded() {
    let is = toy();
    let assembly = assemble_from_buf("a: nop\nnop\nb: mov r3, b - a + 0x10", &is).unwrap();
    assert_eq!(assembly.binary()[2], 0x1312);
}

#[test]
fn folding_wraps_around() {
    let is = toy();
    // 1 - 2 wraps to the greatest machine word, whose low byte is 0xFF.
    let assembly = assemble_from_buf("mov r0, 1 - 2", &is).unwrap();
    assert_eq!(assembly.binary()[0], 0x10FF);
}

#[test]
fn character_literals() {
    let is = toy();
    let source = "mov r0, 'A'\nmov r0, '\\\\'\nmov r0, '\\''\nmov r0, '\\65'\nmov r0, '\\+7'";
    let assembly = assemble_from_buf(source, &is).unwrap();
    assert_eq!(&assembly.binary()[0..5], &[0x1041, 0x105C, 0x1027, 0x1041, 0x1007]);
}

#[test]
fn string_operand_gives_its_first_code_unit() {
    let is = toy();
    let assembly = assemble_from_buf("mov r0, \"zebra\"", &is).unwrap();
    assert_eq!(assembly.binary()[0], 0x107A);
}

#[test]
fn comments_and_blank_lines_are_skipped() {
    let is = toy();
    let source = "# a comment\n\n   \t\nnop # another\r\nmov r1, 1 # last\n";
    let assembly = assemble_from_buf(source, &is).unwrap();
    assert_eq!(&assembly.binary()[0..3], &[0x0000, 0x1101, 0]);
}

#[test]
fn line_that_is_no_statement_is_skipped() {
    let is = toy();
    let assembly = assemble_from_buf("mov r1 1\n???\nmov r2, 2", &is).unwrap();
    assert_eq!(&assembly.binary()[0..2], &[0x1202, 0]);
}

#[test]
fn missing_argument() {
    let is = toy();
    let r = assemble_from_buf("mov r0", &is);
    match r {
        Err(ReduceError::ExpectedArgument { instruction, expected, found }) => {
            assert_eq!(expected, 2);
            assert_eq!(found, 1);
            assert_eq!(instruction, Pair { start: 0, end: 3 });
        }
        _ => panic!("expected a missing argument"),
    }
}

#[test]
fn extra_argument() {
    let is = toy();
    let r = assemble_from_buf("mov r0, r1, r2", &is);
    match r {
        Err(ReduceError::UnexpectedArgument { instruction, arguments, expected, found }) => {
            assert_eq!(expected, 2);
            assert_eq!(found, 3);
            assert_eq!(instruction, Pair { start: 0, end: 3 });
            assert_eq!(arguments, vec![Pair { start: 12, end: 14 }]);
        }
        _ => panic!("expected an extra argument"),
    }
}

#[test]
fn unknown_name_stays_unresolved() {
    let is = toy();
    let r = assemble_from_buf("nop\nmov r9, 0", &is);
    match r {
        Err(ReduceError::Unresolved { statement }) => {
            assert_eq!(statement, Pair { start: 4, end: 7 });
        }
        _ => panic!("expected an unresolved statement"),
    }
}

#[test]
fn label_redeclaration() {
    let is = toy();
    let r = assemble_from_buf("foo: nop\nfoo: nop", &is);
    match r {
        Err(ReduceError::LabelRedeclaration { label }) => {
            assert_eq!(label, Pair { start: 9, end: 12 });
        }
        _ => panic!("expected a redeclaration"),
    }
}

#[test]
fn label_redeclaration_on_one_line() {
    let is = toy();
    let r = assemble_from_buf("foo: nop ; foo: nop", &is);
    match r {
        Err(ReduceError::LabelRedeclaration { label }) => {
            assert_eq!(label, Pair { start: 11, end: 14 });
        }
        _ => panic!("expected a redeclaration"),
    }
}

#[test]
fn unknown_instruction() {
    let is = toy();
    let r = assemble_from_buf("nop\nfrobnicate r0", &is);
    match r {
        Err(ReduceError::UnknownInstruction(pair)) => {
            assert_eq!(pair, Pair { start: 4, end: 14 });
        }
        _ => panic!("expected an unknown instruction"),
    }
}

#[test]
fn symbol_without_the_tag_of_the_slot() {
    let is = toy();
    let r = assemble_from_buf("mov r0, r1", &is);
    match r {
        Err(ReduceError::ExpectedType { argument, expected, found }) => {
            assert_eq!(argument, Pair { start: 8, end: 10 });
            assert_eq!(expected, vec![b"reg".to_vec()]);
            assert_eq!(found, b"u8".to_vec());
        }
        _ => panic!("expected a type mismatch"),
    }
}

#[test]
fn integer_in_a_slot_for_symbols() {
    let is = toy();
    let r = assemble_from_buf("mov 1, 2", &is);
    assert!(matches!(r, Err(ReduceError::TypeError)));
}

#[test]
fn directive_with_the_wrong_operand() {
    let is = toy();
    assert!(matches!(assemble_from_buf("string 5", &is), Err(ReduceError::TypeError)));
    assert!(matches!(assemble_from_buf("var \"x\"", &is), Err(ReduceError::TypeError)));
    assert!(matches!(assemble_from_buf("alloc 5, 5", &is), Err(ReduceError::TypeError)));
    assert!(matches!(assemble_from_buf("var later\nlater: nop", &is), Err(ReduceError::TypeError)));
}

#[test]
fn directive_with_the_wrong_number_of_operands() {
    let is = toy();
    assert!(matches!(
        assemble_from_buf("var", &is),
        Err(ReduceError::ExpectedArgument { expected: 1, found: 0, .. })
    ));
    assert!(matches!(
        assemble_from_buf("static 1", &is),
        Err(ReduceError::ExpectedArgument { expected: 2, found: 1, .. })
    ));
    assert!(matches!(
        assemble_from_buf("string \"a\", \"b\"", &is),
        Err(ReduceError::UnexpectedArgument { expected: 1, found: 2, .. })
    ));
}

#[test]
fn dotted_label_outside_a_scope_is_invalid() {
    let is = toy();
    let r = assemble_from_buf(".inner: nop", &is);
    match r {
        Err(ReduceError::InvalidLabel { label }) => {
            assert_eq!(label, Pair { start: 0, end: 6 });
        }
        _ => panic!("expected an invalid label"),
    }
}

#[test]
fn allocation_of_a_bound_label_is_a_redeclaration() {
    let is = toy();
    let r = assemble_from_buf("alloc buf, 1\nalloc buf, 2", &is);
    assert!(matches!(r, Err(ReduceError::LabelRedeclaration { .. })));
}

#[test]
fn assembling_twice_gives_the_same() {
    let is = toy();
    let source = "alloc buf, 4\nstart: mov r1, end\njmp start\nend: call buf\n";
    let first = assemble_from_buf(source, &is).unwrap();
    let second = assemble_from_buf(source, &is).unwrap();
    assert_eq!(first.binary(), second.binary());
    assert_eq!(first.symbols(), second.symbols());
    assert_eq!(first.mif(), second.mif());
    assert_eq!(&first.binary()[0..5], &[0x1102, 0x2000, 0x3000, 0x0004, 0]);
}

#[test]
fn first_variant_that_accepts_is_taken() {
    let mut is = toy();
    is.instructions.insert(
        b"ld".to_vec(),
        vec![
            Instruction { value: 0x4000, length: 16, arguments: vec![slot("reg", 0, 0, 4)] },
            Instruction { value: 0x5000, length: 16, arguments: vec![slot("u8", 0, 0, 8)] },
            Instruction { value: 0x6000, length: 16, arguments: vec![slot("i8", 0, 0, 8)] },
        ],
    );
    let assembly = assemble_from_buf("ld r2\nld 7", &is).unwrap();
    assert_eq!(&assembly.binary()[0..2], &[0x4002, 0x5007]);
    // No variant takes two operands: the error is that of the first variant.
    let r = assemble_from_buf("ld 1, 2", &is);
    assert!(matches!(r, Err(ReduceError::UnexpectedArgument { expected: 1, found: 2, .. })));
}

#[test]
fn mif_lists_the_image() {
    let is = toy();
    let assembly = assemble_from_buf("mov r1, 0x2A", &is).unwrap();
    let expected = "WIDTH=16;\nDEPTH=65536;\n\nADDRESS_RADIX=HEX;\nDATA_RADIX=BIN;\n\nCONTENT BEGIN\n\
                    \t0000  :   0001000100101010;\n\
                    \t[0001..FFFF]  :   0000000000000000;\n\
                    END;\n";
    assert_eq!(assembly.mif(), expected);
}

#[test]
fn mif_of_an_empty_source_is_one_run() {
    let is = toy();
    let assembly = assemble_from_buf("", &is).unwrap();
    let expected = "WIDTH=16;\nDEPTH=65536;\n\nADDRESS_RADIX=HEX;\nDATA_RADIX=BIN;\n\nCONTENT BEGIN\n\
                    \t[0000..FFFF]  :   0000000000000000;\n\
                    END;\n";
    assert_eq!(assembly.mif(), expected);
}
