use std::collections::HashMap;

use dougterpreter::values::tape::block::{Block, BlockMeta};
use dougterpreter::values::tape::bump::{BlockList, BumpBlock, StickyImmixHeap};
use dougterpreter::values::tape::pointers::{CellPtr, RawPtr, Tag, TaggedCellPtr, TaggedPtr, Tagged};
use dougterpreter::values::tape::{
    AllocError, BuildFxHasher, K, LiteralHeader, MutatorView, ROData, SizeClass, Tape, TypeHeader,
};
use dougterpreter::values::value::{LiteralObject, Number, TapeObject, Text, Value};

fn text(s: &str) -> TapeObject {
    TapeObject::Text(Text::from_string(s.to_string()))
}

#[test]
fn size_classes_follow_line_and_block_sizes() {
    assert!(matches!(SizeClass::get_for_size(0), SizeClass::Small));
    assert!(matches!(SizeClass::get_for_size(128), SizeClass::Small));
    assert!(matches!(SizeClass::get_for_size(129), SizeClass::Medium));
    assert!(matches!(SizeClass::get_for_size(32768), SizeClass::Medium));
    assert!(matches!(SizeClass::get_for_size(32769), SizeClass::Large));
}

#[test]
fn a_block_size_must_be_a_power_of_two() {
    assert!(matches!(Block::new(100, 32768), Err(AllocError::BadRequest)));
    assert!(matches!(Block::new(32768, 0), Err(AllocError::OOM)));
    assert!(matches!(Block::new(32768, usize::MAX - 10), Err(AllocError::OOM)));
    let b = Block::new(32768, 65536).unwrap();
    assert_eq!(b.as_ptr(), 65536);
}

#[test]
fn a_block_is_aligned_to_its_size() {
    assert!(matches!(Block::new(32768, 40960), Err(AllocError::OOM)));
    let b = Block::new(4096, 40960).unwrap();
    assert_eq!(b.as_ptr() % 4096, 0);
}

#[test]
fn a_free_block_is_one_hole() {
    let meta = BlockMeta::new(vec![0; 256]);
    assert_eq!(meta.find_next_available_hole(1280, 200), Some((1280, 0)));
    assert_eq!(meta.find_next_available_hole(0, 10), None);
    assert_eq!(meta.find_next_hole_size(1280), Some(1280));
}

#[test]
fn a_marked_line_ends_a_hole() {
    let mut marks = vec![0; 256];
    marks[5] = 1;
    let meta = BlockMeta::new(marks);
    // lines 6 to 9 are free; line 6 is taken to be in use next to the mark
    assert_eq!(meta.find_next_available_hole(1280, 200), Some((1280, 896)));
    assert_eq!(meta.find_next_hole_size(1280), Some(384));
    // a hole of three free lines is too small for four lines' worth
    assert_eq!(meta.find_next_available_hole(1280, 500), Some((640, 0)));
}

#[test]
fn no_hole_below_a_marked_bottom() {
    let mut marks = vec![0; 256];
    marks[0] = 1;
    marks[2] = 1;
    let meta = BlockMeta::new(marks);
    assert_eq!(meta.find_next_available_hole(384, 10), None);
    assert_eq!(meta.find_next_hole_size(384), None);
}

#[test]
fn bump_allocation_goes_down_from_the_top() {
    let mut b = BumpBlock::new(32768);
    assert_eq!(b.inner_alloc(32), Some(65504));
    assert_eq!(b.inner_alloc(9), Some(65488));
    assert_eq!(b.current_hole_size(), 32640);
    assert_eq!(b.inner_alloc(40000), None);
}

#[test]
fn a_block_fills_up() {
    let mut b = BumpBlock::new(32768);
    assert_eq!(b.inner_alloc(32768), Some(32768));
    assert_eq!(b.inner_alloc(8), None);
}

#[test]
fn a_heap_puts_each_object_after_its_header() {
    let _ = BlockList::new();
    let mut heap: StickyImmixHeap<TypeHeader> = StickyImmixHeap::new();
    let a = heap.allocate(text("hello")).unwrap();
    assert_eq!(a.as_word(), 65512);
    let n = heap.allocate(TapeObject::Number(0x4000_0000)).unwrap();
    assert_eq!(n.as_word(), 65496);
    let b = heap.allocate(TapeObject::Boolean(true)).unwrap();
    assert_eq!(b.as_word(), 65488);
    assert!(matches!(heap.find_object(65512), Some(TapeObject::Text(t)) if t.inner == "hello"));
    assert!(matches!(heap.find_object(65496), Some(TapeObject::Number(0x4000_0000))));
    assert!(matches!(heap.find_object(65488), Some(TapeObject::Boolean(true))));
    assert!(heap.find_object(65504).is_none());
}

#[test]
fn a_full_head_block_is_replaced() {
    let mut heap: StickyImmixHeap<LiteralHeader> = StickyImmixHeap::new();
    let mut last = 0;
    for _ in 0..1024 {
        last = heap.allocate(LiteralObject::Text(Text::from_string("x".to_string()))).unwrap().as_word();
    }
    assert_eq!(last, 32768 + 8);
    let next = heap.allocate(LiteralObject::Number(1)).unwrap().as_word();
    assert_eq!(next, 65536 + 32768 - 16 + 8);
}

#[test]
fn tagged_words_keep_numbers_and_addresses() {
    let n = TaggedPtr::number(0x3f80_0000);
    assert!(matches!(n.read(), Tag::Number(0x3f80_0000)));
    let o = TaggedPtr::object(RawPtr::<()>::new(65512));
    assert!(matches!(o.read(), Tag::Object(65512)));
    assert!(matches!(TaggedPtr::nil().read(), Tag::Nil));
    let cell = TaggedCellPtr::new(n);
    assert_eq!(cell.get_ptr(), n);
}

#[test]
fn raw_pointers_tag_and_untag() {
    let p = RawPtr::<u8>::new(4096);
    assert_eq!(p.as_ptr(), 4096);
    assert_eq!(p.to_void().as_word(), 4096);
    assert_eq!(p.tag(1), 4097);
    assert_eq!(<RawPtr<u8> as Tagged<u8>>::untag(4097).as_word(), 4096);
}

#[test]
fn a_cell_pointer_reads_through_the_heap() {
    let mut heap: StickyImmixHeap<TypeHeader> = StickyImmixHeap::new();
    let p = heap.allocate(TapeObject::Boolean(false)).unwrap();
    let cell = CellPtr::new_with(&p);
    assert!(matches!(cell.get(&heap).get_ref(), TapeObject::Boolean(false)));
}

#[test]
fn the_hash_mixes_bytes_into_the_state() {
    let mut h = BuildFxHasher {}.build_hasher();
    assert_eq!(h.finish(), 0);
    h.write(&[1, 2]);
    assert_eq!(h.finish(), 0x0102u64.wrapping_mul(K));
    let before = h.finish();
    h.write(&[1, 2, 3, 4, 5, 6, 7, 8, 9]);
    let expected = (before.rotate_left(5) ^ 0x0102_0304_0506_0708).wrapping_mul(K);
    assert_eq!(h.finish(), expected);
}

#[test]
fn the_tape_reads_back_what_it_keeps() {
    let mut tape = Tape::new();
    let mut cells: HashMap<u32, TaggedCellPtr> = HashMap::new();
    tape.upsert_value(3, Value::String("hi".to_string()), &mut cells).unwrap();
    tape.upsert_value(4, Value::Boolean(true), &mut cells).unwrap();
    tape.upsert_value(5, Value::Number(Number::Narrow(0x4048_0000)), &mut cells).unwrap();
    assert!(matches!(tape.get_value(3, &cells), Some(Value::String(s)) if s == "hi"));
    assert!(matches!(tape.get_value(4, &cells), Some(Value::Number(Number::Narrow(0x3f80_0000)))));
    assert!(matches!(tape.get_value(5, &cells), Some(Value::Number(Number::Narrow(0x4048_0000)))));
    assert!(tape.get_value(6, &cells).is_none());
    tape.upsert_value(3, Value::Boolean(false), &mut cells).unwrap();
    assert!(matches!(tape.get_value(3, &cells), Some(Value::Number(Number::Narrow(0)))));
    assert!(matches!(tape.get_value(4, &cells), Some(Value::Number(Number::Narrow(0x3f80_0000)))));
}

#[test]
fn the_tape_keeps_an_error_as_its_message() {
    let mut tape = Tape::new();
    let mut cells: HashMap<u32, TaggedCellPtr> = HashMap::new();
    let e = dougterpreter::interpreter::RuntimeError::OutOfRange(7);
    tape.upsert_value(0, Value::Error(e), &mut cells).unwrap();
    assert!(matches!(tape.get_value(0, &cells), Some(Value::String(s)) if s == "Value 7 is out of range of Tape"));
}

#[test]
fn tagged_allocation_keeps_booleans_as_numbers() {
    let mut tape = Tape::new();
    let w = tape.allocate_tagged(TapeObject::Boolean(true)).unwrap();
    assert!(matches!(w.read(), Tag::Number(0x3f80_0000)));
    let t = tape.allocate_tagged(text("x")).unwrap();
    assert!(matches!(t.read(), Tag::Object(_)));
    let raw = tape.allocate(TapeObject::Number(2)).unwrap();
    assert_eq!(raw.as_word() % 8, 0);
}

#[test]
fn read_only_data_holds_text_literals() {
    let mut data = ROData::new_with(StickyImmixHeap::new());
    let cell = data.allocate_text("lit".to_string()).unwrap();
    assert!(matches!(data.read(&cell), Some(Value::String(s)) if s == "lit"));
    let n = ROData::number(0x4000_0000);
    assert!(matches!(data.read(&n), Some(Value::Number(Number::Narrow(0x4000_0000)))));
}

#[test]
fn a_mutator_view_allocates_on_its_tape() {
    let mut mem = MutatorView::new_with(StickyImmixHeap::new());
    {
        let p = mem.allocate(TapeObject::Number(5)).unwrap();
        assert!(matches!(p.get_ref(), TapeObject::Number(5)));
    }
    let mut cells: HashMap<u32, TaggedCellPtr> = HashMap::new();
    mem.upsert_value(1, Value::String("a".to_string()), &mut cells).unwrap();
    assert!(matches!(mem.get_value(1, &cells), Some(Value::String(s)) if s == "a"));
    assert!(matches!(mem.get_tape().get_value(1, &cells), Some(Value::String(s)) if s == "a"));
    let _ = mem.get_data();
}

#[test]
fn allocation_errors_have_their_messages() {
    assert_eq!(AllocError::BadRequest.message(), "Bad request");
    assert_eq!(AllocError::OOM.message(), "Out of memory");
}

#[test]
fn an_integer_word_carries_the_number_tag() {
    let w = TaggedPtr::integer(5);
    assert!(matches!(w.read(), Tag::Number(5)));
    let m = TaggedPtr::integer(-1);
    assert!(matches!(m.read(), Tag::Number(0xffff_ffff)));
}

#[test]
fn a_header_sits_just_before_its_object() {
    assert_eq!(StickyImmixHeap::<TypeHeader>::get_header(65512), 65504);
    assert_eq!(StickyImmixHeap::<TypeHeader>::get_object(65504), 65512);
}

#[test]
fn a_mutator_view_tags_what_it_allocates() {
    let mut mem = MutatorView::new_with(StickyImmixHeap::new());
    let w = mem.allocate_tagged(TapeObject::Boolean(false)).unwrap();
    assert!(matches!(w.read(), Tag::Number(0)));
}

#[test]
fn a_second_allocation_also_succeeds_and_keeps_the_first() {
    let mut mem = MutatorView::new_with(StickyImmixHeap::new());
    let first = mem.allocate_tagged(TapeObject::Number(0x4020_0000)).unwrap();
    let second = mem.allocate(text("seven")).unwrap();
    assert!(matches!(second.get_ref(), TapeObject::Text(t) if t.inner == "seven"));
    let mut tape = Tape::new();
    let a = tape.allocate(text("a")).unwrap();
    let b = tape.allocate(text("b")).unwrap();
    assert_ne!(a.as_ptr(), b.as_ptr());
    assert!(matches!(first.read(), Tag::Number(0x4020_0000)));
}
