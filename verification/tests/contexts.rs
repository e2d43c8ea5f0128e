use assembler::cis::InstructionSet;
use assembler::context::{Context, LabelError, IMAGE_WORDS};

#[test]
fn new_context_is_empty() {
    let is = InstructionSet::new();
    let ctx = Context::new(&is, 7);
    assert_eq!(ctx.address, 0);
    assert_eq!(ctx.counter, 7);
    assert_eq!(ctx.labels.len(), 0);
    assert_eq!(ctx.allocations.len(), 0);
    assert_eq!(ctx.allocation_offset, None);
    assert!(ctx.path.is_empty());
}

#[test]
fn image_has_65536_words() {
    assert_eq!(IMAGE_WORDS, 65536);
}

#[test]
fn advance_moves_the_address() {
    let is = InstructionSet::new();
    let mut ctx = Context::new(&is, 0);
    assert!(ctx.fits(5));
    ctx.advance(5);
    assert_eq!(ctx.address, 5);
    ctx.advance(0);
    assert_eq!(ctx.address, 5);
    assert!(ctx.fits(IMAGE_WORDS - 5));
    assert!(!ctx.fits(IMAGE_WORDS - 4));
    assert!(!ctx.fits(usize::MAX));
    ctx.advance(IMAGE_WORDS - 5);
    assert_eq!(ctx.address, IMAGE_WORDS);
    assert!(ctx.fits(0));
    assert!(!ctx.fits(1));
}

#[test]
fn path_of_a_plain_label_is_the_label() {
    let is = InstructionSet::new();
    let mut ctx = Context::new(&is, 0);
    assert_eq!(ctx.get_path(b"loop"), Ok(b"loop".to_vec()));
    assert_eq!(ctx.get_path(b"a.b"), Ok(b"a.b".to_vec()));
    assert_eq!(ctx.get_path(b""), Ok(b"".to_vec()));
    ctx.path.push(b"outer".to_vec());
    assert_eq!(ctx.get_path(b"loop"), Ok(b"loop".to_vec()));
}

#[test]
fn path_of_a_dotted_label_is_spliced_into_the_scope() {
    let is = InstructionSet::new();
    let mut ctx = Context::new(&is, 0);
    assert_eq!(ctx.get_path(b".inner"), Err(LabelError::InvalidLabel));
    ctx.path.push(b"outer".to_vec());
    assert_eq!(ctx.get_path(b".inner"), Ok(b"outer.inner".to_vec()));
    assert_eq!(ctx.get_path(b"..inner"), Err(LabelError::InvalidLabel));
    assert_eq!(ctx.get_path(b"."), Ok(b"outer.".to_vec()));
    ctx.path.push(b"mid".to_vec());
    assert_eq!(ctx.get_path(b"..inner"), Ok(b"outer.mid.inner".to_vec()));
    assert_eq!(ctx.get_path(b".inner"), Err(LabelError::InvalidLabel));
    assert_eq!(ctx.get_path(b"...inner"), Err(LabelError::InvalidLabel));
    assert_eq!(ctx.get_path(b"..in.ner"), Ok(b"outer.mid.in.ner".to_vec()));
}

#[test]
fn register_binds_to_the_current_address() {
    let is = InstructionSet::new();
    let mut ctx = Context::new(&is, 0);
    ctx.advance(3);
    assert_eq!(ctx.register_label(b"a", false), Ok(3));
    ctx.advance(2);
    assert_eq!(ctx.register_label(b"b", false), Ok(5));
    assert_eq!(ctx.labels.get(b"a"), Some(&Some(3)));
    assert_eq!(ctx.labels.get(b"b"), Some(&Some(5)));
    assert_eq!(ctx.labels.len(), 2);
    assert_eq!(ctx.address, 5);
}

#[test]
fn register_refuses_a_bound_label() {
    let is = InstructionSet::new();
    let mut ctx = Context::new(&is, 0);
    assert_eq!(ctx.register_label(b"a", false), Ok(0));
    ctx.advance(1);
    assert_eq!(ctx.register_label(b"a", false), Err(LabelError::Unavailable));
    assert_eq!(ctx.labels.get(b"a"), Some(&Some(0)));
    // Its own binding may move it.
    assert_eq!(ctx.register_label(b"a", true), Ok(1));
    assert_eq!(ctx.labels.get(b"a"), Some(&Some(1)));
    assert_eq!(ctx.labels.len(), 1);
}

#[test]
fn register_refuses_an_invalid_label() {
    let is = InstructionSet::new();
    let mut ctx = Context::new(&is, 0);
    assert_eq!(ctx.register_label(b".a", false), Err(LabelError::InvalidLabel));
    assert_eq!(ctx.register_label(b".a", true), Err(LabelError::InvalidLabel));
    assert_eq!(ctx.labels.len(), 0);
    ctx.path.push(b"f".to_vec());
    assert_eq!(ctx.register_label(b".a", false), Ok(0));
    assert_eq!(ctx.labels.get(b"f.a"), Some(&Some(0)));
}

#[test]
fn register_refuses_a_label_behind_the_image() {
    let is = InstructionSet::new();
    let mut ctx = Context::new(&is, 0);
    ctx.advance(IMAGE_WORDS - 1);
    assert_eq!(ctx.register_label(b"last", false), Ok(0xFFFF));
    ctx.advance(1);
    assert_eq!(ctx.register_label(b"beyond", false), Err(LabelError::OutOfRange));
    assert!(!ctx.labels.contains_key(b"beyond"));
}

#[test]
fn allocate_queues_until_the_base_is_known() {
    let is = InstructionSet::new();
    let mut ctx = Context::new(&is, 0);
    assert_eq!(ctx.allocate(b"buf", Some(16), false), Ok(()));
    assert_eq!(ctx.labels.get(b"buf"), Some(&None));
    assert_eq!(ctx.allocations.get(b"buf"), Some(&16));
    assert_eq!(ctx.allocation_offset, None);
    assert_eq!(ctx.allocate(b"buf", Some(1), false), Err(LabelError::Unavailable));
    assert_eq!(ctx.allocations.get(b"buf"), Some(&16));
    assert_eq!(ctx.allocate(b".x", Some(1), false), Err(LabelError::InvalidLabel));
    // Without a size the label is declared and nothing is queued.
    assert_eq!(ctx.allocate(b"bare", None, false), Ok(()));
    assert_eq!(ctx.labels.get(b"bare"), Some(&None));
    assert!(!ctx.allocations.contains_key(b"bare"));
    // A label that is declared already only changes its size.
    assert_eq!(ctx.allocate(b"buf", Some(4), true), Ok(()));
    assert_eq!(ctx.allocations.get(b"buf"), Some(&4));
    assert_eq!(ctx.labels.len(), 2);
}

#[test]
fn set_allocation_offset_places_in_declaration_order() {
    let is = InstructionSet::new();
    let mut ctx = Context::new(&is, 0);
    ctx.register_label(b"code", false).unwrap();
    ctx.allocate(b"a", Some(3), false).unwrap();
    ctx.allocate(b"b", Some(0), false).unwrap();
    ctx.allocate(b"c", Some(5), false).unwrap();
    ctx.allocate(b"d", Some(1), false).unwrap();
    assert!(ctx.allocations_fit(100));
    ctx.set_allocation_offset(100);
    assert_eq!(ctx.labels.get(b"a"), Some(&Some(100)));
    assert_eq!(ctx.labels.get(b"b"), Some(&Some(103)));
    assert_eq!(ctx.labels.get(b"c"), Some(&Some(103)));
    assert_eq!(ctx.labels.get(b"d"), Some(&Some(108)));
    assert_eq!(ctx.labels.get(b"code"), Some(&Some(0)));
    assert_eq!(ctx.allocation_offset, Some(109));
    assert_eq!(ctx.allocations.len(), 0);
    assert_eq!(ctx.labels.len(), 5);
    assert_eq!(ctx.address, 0);
}

#[test]
fn allocate_follows_the_offset_once_it_is_set() {
    let is = InstructionSet::new();
    let mut ctx = Context::new(&is, 0);
    assert!(ctx.allocations_fit(10));
    ctx.set_allocation_offset(10);
    assert_eq!(ctx.allocation_offset, Some(10));
    assert_eq!(ctx.allocate(b"a", Some(4), false), Ok(()));
    assert_eq!(ctx.labels.get(b"a"), Some(&Some(10)));
    assert_eq!(ctx.allocation_offset, Some(14));
    assert_eq!(ctx.allocations.len(), 0);
    assert_eq!(ctx.allocate(b"b", None, false), Ok(()));
    assert_eq!(ctx.labels.get(b"b"), Some(&Some(14)));
    assert_eq!(ctx.allocation_offset, Some(14));
    assert_eq!(ctx.allocate(b"a", Some(2), true), Ok(()));
    assert_eq!(ctx.labels.get(b"a"), Some(&Some(10)));
    assert_eq!(ctx.allocation_offset, Some(16));
    assert_eq!(ctx.allocate(b"big", Some(IMAGE_WORDS), false), Err(LabelError::OutOfRange));
    assert!(!ctx.labels.contains_key(b"big"));
    assert_eq!(ctx.allocation_offset, Some(16));
    assert_eq!(ctx.allocate(b"rest", Some(IMAGE_WORDS - 16), false), Ok(()));
    assert_eq!(ctx.allocation_offset, Some(IMAGE_WORDS));
    assert_eq!(ctx.allocate(b"none", Some(0), false), Err(LabelError::OutOfRange));
    assert_eq!(ctx.allocate(b"rest", Some(1), true), Err(LabelError::OutOfRange));
}

#[test]
fn allocations_fit_only_inside_the_image() {
    let is = InstructionSet::new();
    let mut ctx = Context::new(&is, 0);
    assert!(ctx.allocations_fit(IMAGE_WORDS));
    assert!(!ctx.allocations_fit(IMAGE_WORDS + 1));
    ctx.allocate(b"a", Some(10), false).unwrap();
    ctx.allocate(b"b", Some(20), false).unwrap();
    assert!(ctx.allocations_fit(0));
    assert!(ctx.allocations_fit(IMAGE_WORDS - 30));
    assert!(!ctx.allocations_fit(IMAGE_WORDS - 29));
    assert!(!ctx.allocations_fit(usize::MAX));
    ctx.allocate(b"c", Some(0), false).unwrap();
    // The empty allocation would lie behind the last word.
    assert!(!ctx.allocations_fit(IMAGE_WORDS - 30));
    assert!(ctx.allocations_fit(IMAGE_WORDS - 31));
    ctx.allocate(b"d", Some(usize::MAX), false).unwrap();
    assert!(!ctx.allocations_fit(0));
}
