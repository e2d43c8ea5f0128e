use assembler::ast::{
    Arguments, Expr, Instruction, Label, Macro, MacroKind, Pair, Reduce, ReduceError, Statement,
};
use assembler::cis;
use assembler::cis::{Argument, InstructionSet, Symbol};
use assembler::context::{Context, IMAGE_WORDS};
use assembler::driver::{assemble_statements, build_image, is_settled, pass_once, pending, settle_statements};
use assembler::syntax::parse_source;
use assembler::parse;

const P: Pair = Pair { start: 5, end: 8 };

fn slot(type_tag: &str, index: usize, offset: usize, length: usize) -> Argument {
    Argument { type_tag: type_tag.as_bytes().to_vec(), index, offset, length }
}

fn toy() -> InstructionSet {
    let mut is = InstructionSet::new();
    is.symbols.insert(b"r1".to_vec(), Symbol { value: 1, tags: vec![b"reg".to_vec()] });
    is.instructions.insert(
        b"nop".to_vec(),
        vec![cis::Instruction { value: 0, length: 16, arguments: vec![] }],
    );
    is.instructions.insert(
        b"mov".to_vec(),
        vec![cis::Instruction {
            value: 0x1000,
            length: 16,
            arguments: vec![slot("reg", 0, 8, 4), slot("u8", 1, 0, 8)],
        }],
    );
    is.instructions.insert(
        b"far".to_vec(),
        vec![cis::Instruction {
            value: 0xA000_0000,
            length: 32,
            arguments: vec![slot("u16", 0, 0, 16), slot("reg", 1, 16, 4)],
        }],
    );
    is
}

fn num(value: usize) -> Expr {
    Expr::Integer { pair: P, value }
}

fn name(text: &str) -> Expr {
    Expr::LabelRef { pair: Pair { start: 20, end: 20 + text.len() }, name: text.as_bytes().to_vec() }
}

fn instruction(mnemonic: &str, operands: Vec<Expr>) -> Instruction {
    Instruction { arguments: Arguments::from(operands), pair: P, name: mnemonic.as_bytes().to_vec() }
}

fn directive(kind: MacroKind, operands: Vec<Expr>) -> Macro {
    Macro { arguments: Arguments::from(operands), pair: P, kind, is_valid: false }
}

fn data(s: Option<Statement>) -> (Vec<u16>, Option<usize>) {
    match s {
        Some(Statement::Data(words, offset)) => (words, offset),
        _ => panic!("expected data"),
    }
}

#[test]
fn label_binds_and_leaves_nothing() {
    let is = toy();
    let mut ctx = Context::new(&is, 0);
    ctx.advance(3);
    let label = Label { pair: P, name: b"x".to_vec(), registered: false };
    assert!(!label.is_reduced());
    assert!(matches!(label.reduce(&mut ctx), Ok(None)));
    assert_eq!(ctx.labels.get(b"x"), Some(&Some(3)));
    let again = Label { pair: P, name: b"x".to_vec(), registered: false };
    assert!(matches!(
        again.reduce(&mut ctx),
        Err(ReduceError::LabelRedeclaration { label: Pair { start: 5, end: 8 } })
    ));
    ctx.advance(1);
    let moved = Label { pair: P, name: b"x".to_vec(), registered: true };
    assert!(matches!(moved.reduce(&mut ctx), Ok(None)));
    assert_eq!(ctx.labels.get(b"x"), Some(&Some(4)));
    let dotted = Label { pair: P, name: b".x".to_vec(), registered: false };
    assert!(matches!(dotted.reduce(&mut ctx), Err(ReduceError::InvalidLabel { .. })));
}

#[test]
fn instruction_with_names_is_reduced_first() {
    let is = toy();
    let mut ctx = Context::new(&is, 0);
    let i = instruction("mov", vec![name("r1"), name("later")]);
    assert!(!i.is_reduced());
    let s = i.reduce(&mut ctx).unwrap().unwrap();
    assert_eq!(ctx.address, 1);
    let i = match s {
        Statement::Instruction(i) => i,
        _ => panic!("expected an instruction"),
    };
    assert!(matches!(i.arguments.expr_list[0], Expr::Symbol { .. }));
    assert!(matches!(i.arguments.expr_list[1], Expr::LabelRef { .. }));
    assert_eq!(i.name, b"mov".to_vec());
    assert_eq!(i.pair, P);
    // The label is known now, but the operand is a name still: one more pass.
    ctx.register_label(b"later", false).unwrap();
    let s = i.reduce(&mut ctx).unwrap().unwrap();
    assert_eq!(ctx.address, 2);
    let i = match s {
        Statement::Instruction(i) => i,
        _ => panic!("expected an instruction"),
    };
    assert!(i.is_reduced());
    let (words, offset) = data(i.reduce(&mut ctx).unwrap());
    assert_eq!(words, vec![0x1101]);
    assert_eq!(offset, None);
    assert_eq!(ctx.address, 3);
}

#[test]
fn instruction_of_two_words() {
    let is = toy();
    let mut ctx = Context::new(&is, 0);
    let i = instruction("FAR", vec![num(0x1_BEEF), Expr::Symbol { pair: P, name: b"R1".to_vec() }]);
    let (words, offset) = data(i.reduce(&mut ctx).unwrap());
    assert_eq!(words, vec![0xA001, 0xBEEF]);
    assert_eq!(offset, None);
    assert_eq!(ctx.address, 2);
}

#[test]
fn instruction_errors() {
    let is = toy();
    let mut ctx = Context::new(&is, 0);
    let r = instruction("hlt", vec![]).reduce(&mut ctx);
    assert!(matches!(r, Err(ReduceError::UnknownInstruction(Pair { start: 5, end: 8 }))));
    assert_eq!(ctx.address, 0);
    let r = instruction("nop", vec![num(1)]).reduce(&mut ctx);
    assert!(matches!(r, Err(ReduceError::UnexpectedArgument { expected: 0, found: 1, .. })));
    let r = instruction("mov", vec![num(1)]).reduce(&mut ctx);
    assert!(matches!(r, Err(ReduceError::ExpectedArgument { expected: 2, found: 1, .. })));
    let r = instruction("mov", vec![num(1), num(2)]).reduce(&mut ctx);
    assert!(matches!(r, Err(ReduceError::TypeError)));
    let r = instruction("mov", vec![Expr::Symbol { pair: P, name: b"r7".to_vec() }, num(2)])
        .reduce(&mut ctx);
    assert!(matches!(r, Err(ReduceError::UnknownIdentifier(_))));
    ctx.advance(IMAGE_WORDS - 5);
    let r = instruction("far", vec![num(1), num(2)]).reduce(&mut ctx);
    assert!(matches!(r, Err(ReduceError::OutOfRange)));
    assert_eq!(ctx.address, IMAGE_WORDS - 1);
}

#[test]
fn directive_string() {
    let is = toy();
    let mut ctx = Context::new(&is, 0);
    let m = directive(MacroKind::String, vec![Expr::String { pair: P, value: vec![0x41, 0x42, 0] }]);
    assert!(!m.is_reduced());
    let (words, offset) = data(m.reduce(&mut ctx).unwrap());
    assert_eq!(words, vec![0x41, 0x42, 0]);
    assert_eq!(offset, None);
    assert_eq!(ctx.address, 3);
    let m = directive(MacroKind::String, vec![num(1)]);
    assert!(matches!(m.reduce(&mut ctx), Err(ReduceError::TypeError)));
    assert_eq!(ctx.address, 3);
}

#[test]
fn directive_var() {
    let is = toy();
    let mut ctx = Context::new(&is, 0);
    let (words, offset) = data(directive(MacroKind::Var, vec![num(3)]).reduce(&mut ctx).unwrap());
    assert_eq!(words, vec![0, 0, 0]);
    assert_eq!(offset, None);
    assert_eq!(ctx.address, 3);
    let (words, _) = data(directive(MacroKind::Var, vec![num(0)]).reduce(&mut ctx).unwrap());
    assert!(words.is_empty());
    assert_eq!(ctx.address, 3);
    ctx.register_label(b"three", false).unwrap();
    let (words, _) = data(directive(MacroKind::Var, vec![name("three")]).reduce(&mut ctx).unwrap());
    assert_eq!(words.len(), 3);
    let r = directive(MacroKind::Var, vec![num(IMAGE_WORDS)]).reduce(&mut ctx);
    assert!(matches!(r, Err(ReduceError::OutOfRange)));
    let r = directive(MacroKind::Var, vec![num(usize::MAX)]).reduce(&mut ctx);
    assert!(matches!(r, Err(ReduceError::OutOfRange)));
    assert_eq!(ctx.address, 6);
}

#[test]
fn directive_alloc() {
    let is = toy();
    let mut ctx = Context::new(&is, 0);
    let m = directive(MacroKind::Alloc, vec![name("buf"), num(8)]);
    assert!(matches!(m.reduce(&mut ctx), Ok(None)));
    assert_eq!(ctx.address, 0);
    assert_eq!(ctx.labels.get(b"buf"), Some(&None));
    assert_eq!(ctx.allocations.get(b"buf"), Some(&8));
    let m = directive(MacroKind::Alloc, vec![name("buf"), num(8)]);
    assert!(matches!(
        m.reduce(&mut ctx),
        Err(ReduceError::LabelRedeclaration { label: Pair { start: 20, end: 23 } })
    ));
    let m = directive(MacroKind::Alloc, vec![name("r1"), num(8)]);
    assert!(matches!(m.reduce(&mut ctx), Err(ReduceError::TypeError)));
    let m = directive(MacroKind::Alloc, vec![num(8), name("b")]);
    assert!(matches!(m.reduce(&mut ctx), Err(ReduceError::TypeError)));
    let m = directive(MacroKind::Alloc, vec![name(".b"), num(8)]);
    assert!(matches!(m.reduce(&mut ctx), Err(ReduceError::InvalidLabel { .. })));
}

#[test]
fn directive_static() {
    let is = toy();
    let mut ctx = Context::new(&is, 0);
    ctx.advance(2);
    let m = directive(MacroKind::Static, vec![num(0x20), num(0x1_ABCD)]);
    let (words, offset) = data(m.reduce(&mut ctx).unwrap());
    assert_eq!(words, vec![0xABCD]);
    assert_eq!(offset, Some(0x20));
    assert_eq!(ctx.address, 2);
    let m = directive(
        MacroKind::Static,
        vec![num(0xFFFF), Expr::String { pair: P, value: vec![0x7A, 0x7B, 0] }],
    );
    let (words, offset) = data(m.reduce(&mut ctx).unwrap());
    assert_eq!(words, vec![0x7A]);
    assert_eq!(offset, Some(0xFFFF));
    let m = directive(MacroKind::Static, vec![num(0x10000), num(1)]);
    assert!(matches!(m.reduce(&mut ctx), Err(ReduceError::OutOfRange)));
    // Until both operands are values the directive stays, checked.
    let m = directive(MacroKind::Static, vec![name("where"), num(1)]);
    let m = match m.reduce(&mut ctx).unwrap() {
        Some(Statement::Macro(m)) => m,
        _ => panic!("expected the directive"),
    };
    assert!(m.is_valid);
    assert_eq!(m.kind, MacroKind::Static);
    ctx.register_label(b"where", false).unwrap();
    let (words, offset) = data(m.reduce(&mut ctx).unwrap());
    assert_eq!(words, vec![1]);
    assert_eq!(offset, Some(2));
}

#[test]
fn directive_counts_its_operands_once() {
    let is = toy();
    let mut ctx = Context::new(&is, 0);
    let m = directive(MacroKind::Static, vec![num(1)]);
    assert!(matches!(
        m.reduce(&mut ctx),
        Err(ReduceError::ExpectedArgument { instruction: Pair { start: 5, end: 8 }, expected: 2, found: 1 })
    ));
    let m = directive(MacroKind::Var, vec![num(1), num(2)]);
    assert!(matches!(m.reduce(&mut ctx), Err(ReduceError::UnexpectedArgument { expected: 1, found: 2, .. })));
    assert_eq!(MacroKind::String.arity(), 1);
    assert_eq!(MacroKind::Var.arity(), 1);
    assert_eq!(MacroKind::Alloc.arity(), 2);
    assert_eq!(MacroKind::Static.arity(), 2);
}

#[test]
fn data_moves_the_address_unless_it_is_fixed() {
    let is = toy();
    let mut ctx = Context::new(&is, 0);
    let s = Statement::Data(vec![1, 2, 3], None);
    assert!(!s.is_reduced());
    assert!(s.is_data());
    assert_eq!(s.pair(), None);
    let (words, offset) = data(s.reduce(&mut ctx).unwrap());
    assert_eq!(words, vec![1, 2, 3]);
    assert_eq!(offset, None);
    assert_eq!(ctx.address, 3);
    let s = Statement::Data(vec![9], Some(0x40));
    let (words, offset) = data(s.reduce(&mut ctx).unwrap());
    assert_eq!(words, vec![9]);
    assert_eq!(offset, Some(0x40));
    assert_eq!(ctx.address, 3);
    ctx.advance(IMAGE_WORDS - 4);
    assert!(matches!(Statement::Data(vec![1, 2], None).reduce(&mut ctx), Err(ReduceError::OutOfRange)));
    assert!(Statement::Data(vec![1], None).reduce(&mut ctx).is_ok());
    assert_eq!(ctx.address, IMAGE_WORDS);
}

#[test]
fn statement_reduces_what_it_holds() {
    let is = toy();
    let mut ctx = Context::new(&is, 0);
    let s = Statement::Label(Label { pair: P, name: b"l".to_vec(), registered: false });
    assert_eq!(s.pair(), Some(P));
    assert!(!s.is_data());
    assert!(matches!(s.reduce(&mut ctx), Ok(None)));
    let s = Statement::Instruction(instruction("nop", vec![]));
    assert!(matches!(s.reduce(&mut ctx), Ok(Some(Statement::Data(_, None)))));
    let s = Statement::Macro(directive(MacroKind::Var, vec![num(2)]));
    assert!(matches!(s.reduce(&mut ctx), Ok(Some(Statement::Data(_, None)))));
    assert_eq!(ctx.address, 3);
}

#[test]
fn copy_writes_at_the_cursor_or_the_offset() {
    let mut buffer = vec![0u16; 8];
    let next = Statement::Data(vec![1, 2], None).copy(&mut buffer, 0);
    assert_eq!(next, 2);
    let next = Statement::Data(vec![9], Some(6)).copy(&mut buffer, next);
    assert_eq!(next, 2);
    let next = Statement::Data(vec![], None).copy(&mut buffer, next);
    assert_eq!(next, 2);
    let next = Statement::Data(vec![3, 4, 5], None).copy(&mut buffer, next);
    assert_eq!(next, 5);
    let next = Statement::Data(vec![7, 8], Some(4)).copy(&mut buffer, next);
    assert_eq!(next, 5);
    assert_eq!(buffer, vec![1, 2, 3, 4, 7, 8, 9, 0]);
    let label = Statement::Label(Label { pair: P, name: b"l".to_vec(), registered: false });
    assert_eq!(label.copy(&mut buffer, 5), 0);
    assert_eq!(buffer, vec![1, 2, 3, 4, 7, 8, 9, 0]);
}

#[test]
fn one_pass_drops_what_leaves_nothing() {
    let is = toy();
    let mut ctx = Context::new(&is, 5);
    ctx.advance(7);
    let list = parse_source(b"a: nop\nmov r1, b\nalloc buf, 2\nb: var 2");
    assert_eq!(list.len(), 6);
    assert!(!is_settled(&list));
    assert_eq!(pending(&list), Some(Pair { start: 0, end: 1 }));
    let list = pass_once(&mut ctx, list).unwrap();
    assert_eq!(list.len(), 3);
    assert!(matches!(list[0], Statement::Data(_, None)));
    assert!(matches!(list[1], Statement::Instruction(_)));
    assert!(matches!(list[2], Statement::Data(_, None)));
    assert_eq!(pending(&list), Some(Pair { start: 7, end: 10 }));
    assert_eq!(ctx.address, 4);
    assert_eq!(ctx.counter, 5);
    assert_eq!(ctx.labels.get(b"a"), Some(&Some(0)));
    assert_eq!(ctx.labels.get(b"b"), Some(&Some(2)));
    assert_eq!(ctx.labels.get(b"buf"), Some(&None));
    assert!(build_image(&list).is_some());
}

#[test]
fn pass_stops_at_the_first_error() {
    let is = toy();
    let mut ctx = Context::new(&is, 5);
    let list = parse_source(b"a: nop\nhlt\nb: nop\nfoo");
    let r = pass_once(&mut ctx, list);
    assert!(matches!(r, Err(ReduceError::UnknownInstruction(Pair { start: 7, end: 10 }))));
    assert!(ctx.labels.contains_key(b"a"));
    assert!(!ctx.labels.contains_key(b"b"));
    assert_eq!(ctx.address, 1);
}

#[test]
fn settling_takes_a_pass_from_the_counter_each_time() {
    let is = toy();
    let mut ctx = Context::new(&is, 5);
    let list = pass_once(&mut ctx, parse_source(b"mov r1, end\nend: nop")).unwrap();
    let list = settle_statements(&mut ctx, list).unwrap();
    assert!(is_settled(&list));
    assert_eq!(pending(&list), None);
    assert_eq!(ctx.counter, 3);
    // Nothing is left to do: the counter stays.
    let list = settle_statements(&mut ctx, list).unwrap();
    assert_eq!(ctx.counter, 3);
    assert_eq!(list.len(), 2);

    let mut ctx = Context::new(&is, 1);
    let list = pass_once(&mut ctx, parse_source(b"mov r1, end\nend: nop")).unwrap();
    let list = settle_statements(&mut ctx, list).unwrap();
    assert!(!is_settled(&list));
    assert_eq!(ctx.counter, 0);

    let mut ctx = Context::new(&is, 0);
    let list = settle_statements(&mut ctx, parse_source(b"nop")).unwrap();
    assert!(!is_settled(&list));
}

#[test]
fn image_lays_data_out() {
    let list = vec![
        Statement::Data(vec![1, 2], None),
        Statement::Data(vec![0xFFFF], Some(0xFFFF)),
        Statement::Data(vec![3], None),
        Statement::Data(vec![7, 8], Some(1)),
    ];
    let image = build_image(&list).unwrap();
    assert_eq!(image.len(), IMAGE_WORDS);
    assert_eq!(&image[0..5], &[1, 7, 8, 0, 0]);
    assert_eq!(image[0xFFFF], 0xFFFF);
    assert!(build_image(&vec![Statement::Data(vec![1, 2], Some(0xFFFF))]).is_none());
    assert!(build_image(&vec![Statement::Data(vec![], Some(0x10001))]).is_none());
    assert!(build_image(&vec![Statement::Data(vec![], Some(0x10000))]).is_some());
    assert!(build_image(&vec![Statement::Data(vec![0; 0x10000], None)]).is_some());
    assert!(build_image(&vec![Statement::Data(vec![0; 0x10000], None), Statement::Data(vec![0], None)])
        .is_none());
    let empty = build_image(&Vec::new()).unwrap();
    assert_eq!(empty.len(), IMAGE_WORDS);
    assert!(empty.iter().all(|w| *w == 0));
}

#[test]
fn assembling_statements_by_hand() {
    let is = toy();
    let mut ctx = Context::new(&is, 10);
    let list = vec![
        Statement::Instruction(instruction("mov", vec![name("r1"), name("end")])),
        Statement::Macro(directive(MacroKind::Alloc, vec![name("buf"), num(4)])),
        Statement::Label(Label { pair: P, name: b"end".to_vec(), registered: false }),
        Statement::Macro(directive(MacroKind::Static, vec![name("buf"), name("buf")])),
    ];
    let image = assemble_statements(&mut ctx, list).unwrap();
    assert_eq!(&image[0..3], &[0x1101, 1, 0]);
    assert_eq!(ctx.labels.get(b"buf"), Some(&Some(1)));
    assert_eq!(ctx.allocation_offset, Some(5));
}

#[test]
fn parse_uses_the_counter_of_the_context() {
    let is = toy();
    let mut ctx = Context::new(&is, 2);
    let image = parse(&mut ctx, "mov r1, end\nend: nop").unwrap();
    assert_eq!(&image[0..2], &[0x1101, 0]);
    assert_eq!(ctx.counter, 0);
    let mut ctx = Context::new(&is, 1);
    let r = parse(&mut ctx, "mov r1, end\nend: nop");
    assert!(matches!(r, Err(ReduceError::Unresolved { statement: Pair { start: 0, end: 3 } })));
    let mut ctx = Context::new(&is, 0);
    assert!(parse(&mut ctx, "nop\nvar 2").is_ok());
    let mut ctx = Context::new(&is, 0);
    assert!(matches!(parse(&mut ctx, "mov r1, 1"), Err(ReduceError::Unresolved { .. })));
}

#[test]
fn parse_keeps_the_labels_of_the_context() {
    let is = toy();
    let mut ctx = Context::new(&is, 3);
    ctx.advance(9);
    ctx.register_label(b"nine", false).unwrap();
    let image = parse(&mut ctx, "mov r1, nine").unwrap();
    assert_eq!(image[0], 0x1109);
    assert_eq!(ctx.address, 1);
    let r = parse(&mut ctx, "nine: nop");
    assert!(matches!(r, Err(ReduceError::LabelRedeclaration { .. })));
}
