//! The tape's memory: a bump-allocating heap of blocks and lines, tagged
//! words that hold either a number or the address of an object, and the
//! tape that maps cell indices to such words.
use vstd::prelude::*;
use std::collections::HashMap;
use crate::interpreter::{RuntimeError, RuntimeErrorV, message_of};
use crate::values::tape::constants::{LINE_SIZE, BLOCK_SIZE};
use crate::values::tape::header::{AllocHeader, ArraySize};
use crate::values::tape::bump::StickyImmixHeap;
use crate::values::tape::pointers::{RawPtr, ScopedPtr, Tag, TaggedCellPtr, TaggedPtr};
use crate::values::value::{LiteralObject, Number, TapeObject, Text, Value, ValueV};
use crate::strings::string_clone;

pub mod header;
pub mod block;
pub mod bump;
pub mod constants;
pub mod pointers;

verus! {

/// The mark of an allocation.
#[derive(Clone, Copy, Debug, PartialEq, Eq, Structural)]
pub enum Mark {
    Allocated,
}

/// Allocations are sorted by size: those that fit in a line, those that fit
/// in a block, and larger ones.
#[derive(Clone, Copy, Debug, PartialEq, Eq, Structural)]
pub enum SizeClass {
    Small,
    Medium,
    Large,
}

/// The size class of an allocation of `size` bytes.
pub open spec fn size_class_of(size: int) -> SizeClass {
    if size <= LINE_SIZE {
        SizeClass::Small
    } else if size <= BLOCK_SIZE {
        SizeClass::Medium
    } else {
        SizeClass::Large
    }
}

impl SizeClass {
    /// The size class of an allocation of `size` bytes: small up to a
    /// line, medium up to a block, large beyond.
    pub fn get_for_size(size: usize) -> (r: SizeClass)
        ensures
            r == size_class_of(size as int),
    {
        if size <= LINE_SIZE {
            SizeClass::Small
        } else if size <= BLOCK_SIZE {
            SizeClass::Medium
        } else {
            SizeClass::Large
        }
    }
}

/// Why an allocation failed.
#[derive(Clone, Copy, Debug, PartialEq, Eq, Structural)]
pub enum AllocError {
    /// The request cannot be met as asked (a size that is not a power of
    /// two, an object too large for a block).
    BadRequest,
    /// No memory is left.
    OOM,
}

impl AllocError {
    /// The message of the error.
    pub fn message(&self) -> (r: String)
        ensures
            r@ == (match self {
                AllocError::BadRequest => "Bad request"@,
                AllocError::OOM => "Out of memory"@,
            }),
    {
        match self {
            AllocError::BadRequest => crate::strings::text("Bad request"),
            AllocError::OOM => crate::strings::text("Out of memory"),
        }
    }
}

/// The type ids of the objects of a heap.
pub trait AllocTypeId: Copy + Clone {}

/// The types of the objects on the tape.
#[derive(Clone, Copy, Debug, PartialEq, Eq, Structural)]
pub enum TypeList {
    Number,
    String,
    Boolean,
    Function,
    Array,
}

impl AllocTypeId for TypeList {}

/// The types of the objects of the read-only literal data.
#[derive(Clone, Copy, Debug, PartialEq, Eq, Structural)]
pub enum LiteralList {
    Number,
    String,
    Invalid,
}

impl AllocTypeId for LiteralList {}

/// The header of an object on the tape: its size, mark, type and size
/// class.
pub struct TypeHeader {
    size: u32,
    mark: Mark,
    type_id: TypeList,
    size_class: SizeClass,
}

/// The type of a tape object.
pub open spec fn tape_type(o: TapeObject) -> TypeList {
    match o {
        TapeObject::Text(_) => TypeList::String,
        TapeObject::Number(_) => TypeList::Number,
        TapeObject::Boolean(_) => TypeList::Boolean,
    }
}

/// The size in bytes of a tape object: a text is a `String` (three words),
/// a number an `f64`, a boolean one byte.
pub open spec fn tape_object_bytes(o: TapeObject) -> nat {
    match o {
        TapeObject::Text(_) => 24,
        TapeObject::Number(_) => 8,
        TapeObject::Boolean(_) => 1,
    }
}

impl AllocHeader for TypeHeader {
    type TypeId = TypeList;

    type Object = TapeObject;

    open spec fn header_bytes() -> nat {
        8
    }

    open spec fn object_bytes(o: TapeObject) -> nat {
        tape_object_bytes(o)
    }

    open spec fn type_of(o: TapeObject) -> TypeList {
        tape_type(o)
    }

    closed spec fn spec_type_id(&self) -> TypeList {
        self.type_id
    }

    closed spec fn spec_size(&self) -> ArraySize {
        self.size
    }

    closed spec fn spec_size_class(&self) -> SizeClass {
        self.size_class
    }

    closed spec fn spec_mark(&self) -> Mark {
        self.mark
    }

    proof fn lemma_sizes(o: TapeObject) {
    }

    fn header_size() -> (r: usize) {
        8
    }

    fn object_size(o: &TapeObject) -> (r: usize) {
        match o {
            TapeObject::Text(_) => 24,
            TapeObject::Number(_) => 8,
            TapeObject::Boolean(_) => 1,
        }
    }

    fn new(o: &TapeObject, size: ArraySize, size_class: SizeClass, mark: Mark) -> (h: TypeHeader) {
        let type_id = match o {
            TapeObject::Text(_) => TypeList::String,
            TapeObject::Number(_) => TypeList::Number,
            TapeObject::Boolean(_) => TypeList::Boolean,
        };
        TypeHeader { size, mark, type_id, size_class }
    }

    fn new_array(size: ArraySize, size_class: SizeClass, mark: Mark) -> (h: TypeHeader) {
        TypeHeader { size, mark, type_id: TypeList::Array, size_class }
    }

    fn type_id(&self) -> (r: TypeList) {
        self.type_id
    }
}

/// The header of a literal on the heap of read-only data.
pub struct LiteralHeader {
    size: u32,
    mark: Mark,
    type_id: LiteralList,
    size_class: SizeClass,
}

/// The type of a literal object.
pub open spec fn literal_type(o: LiteralObject) -> LiteralList {
    match o {
        LiteralObject::Text(_) => LiteralList::String,
        LiteralObject::Number(_) => LiteralList::Number,
    }
}

impl AllocHeader for LiteralHeader {
    type TypeId = LiteralList;

    type Object = LiteralObject;

    open spec fn header_bytes() -> nat {
        8
    }

    open spec fn object_bytes(o: LiteralObject) -> nat {
        match o {
            LiteralObject::Text(_) => 24,
            LiteralObject::Number(_) => 8,
        }
    }

    open spec fn type_of(o: LiteralObject) -> LiteralList {
        literal_type(o)
    }

    closed spec fn spec_type_id(&self) -> LiteralList {
        self.type_id
    }

    closed spec fn spec_size(&self) -> ArraySize {
        self.size
    }

    closed spec fn spec_size_class(&self) -> SizeClass {
        self.size_class
    }

    closed spec fn spec_mark(&self) -> Mark {
        self.mark
    }

    proof fn lemma_sizes(o: LiteralObject) {
    }

    fn header_size() -> (r: usize) {
        8
    }

    fn object_size(o: &LiteralObject) -> (r: usize) {
        match o {
            LiteralObject::Text(_) => 24,
            LiteralObject::Number(_) => 8,
        }
    }

    fn new(o: &LiteralObject, size: ArraySize, size_class: SizeClass, mark: Mark) -> (h: LiteralHeader) {
        let type_id = match o {
            LiteralObject::Text(_) => LiteralList::String,
            LiteralObject::Number(_) => LiteralList::Number,
        };
        LiteralHeader { size, mark, type_id, size_class }
    }

    fn new_array(size: ArraySize, size_class: SizeClass, mark: Mark) -> (h: LiteralHeader) {
        LiteralHeader { size, mark, type_id: LiteralList::Invalid, size_class }
    }

    fn type_id(&self) -> (r: LiteralList) {
        self.type_id
    }
}

/// The read-only data of a program: the text literals of its source, on a
/// heap of their own.
pub struct ROData {
    heap: StickyImmixHeap<LiteralHeader>,
}

/// What a literal word reads as on the heap of literals: a number word is
/// the number, an object word the text it points at.
pub open spec fn literal_read(w: TaggedPtr, objects: Map<usize, LiteralObject>) -> Option<ValueV> {
    match w.tag_of() {
        Tag::Number(b) => Some(ValueV::Number(Number::Narrow(b))),
        Tag::Object(a) => if objects.contains_key(a) {
            match objects[a] {
                LiteralObject::Text(t) => Some(ValueV::String(t.inner@)),
                LiteralObject::Number(b) => Some(ValueV::Number(Number::Narrow(b))),
            }
        } else {
            None
        },
        _ => None,
    }
}

/// The literals `objects` hold the text `t`.
pub open spec fn holds_text(objects: Map<usize, LiteralObject>, t: Seq<char>) -> bool {
    exists|a: usize| #[trigger] objects.contains_key(a) && text_at(objects[a], t)
}

/// The literal `o` is the text `t`.
pub open spec fn text_at(o: LiteralObject, t: Seq<char>) -> bool {
    match o {
        LiteralObject::Text(x) => x.inner@ == t,
        _ => false,
    }
}

/// `after` holds every literal of `before`, at the same address.
pub open spec fn grows(before: Map<usize, LiteralObject>, after: Map<usize, LiteralObject>) -> bool {
    forall|a: usize| #[trigger]
        before.contains_key(a) ==> after.contains_key(a) && after[a] == before[a]
}

/// A text held before is still held after the literals grow.
pub proof fn lemma_grows_holds(before: Map<usize, LiteralObject>, after: Map<usize, LiteralObject>, t: Seq<char>)
    requires
        grows(before, after),
        holds_text(before, t),
    ensures
        holds_text(after, t),
{
    let a = choose|a: usize| #[trigger] before.contains_key(a) && text_at(before[a], t);
    assert(after.contains_key(a));
}

impl ROData {
    pub closed spec fn wf(&self) -> bool {
        self.heap.wf()
    }

    /// The literals on the heap, by address.
    pub closed spec fn contents(&self) -> Map<usize, LiteralObject> {
        self.heap.contents()
    }

    /// The address at which the heap's next block will be placed.
    pub closed spec fn next_block(&self) -> int {
        self.heap.next_block()
    }

    /// The address space has no room for another block.
    pub open spec fn exhausted(&self) -> bool {
        self.next_block() > usize::MAX - BLOCK_SIZE
    }

    /// The read-only data kept on `heap`.
    pub fn new_with(heap: StickyImmixHeap<LiteralHeader>) -> (r: ROData)
        requires
            heap.wf(),
        ensures
            r.wf(),
            r.contents() == heap.contents(),
            r.next_block() == heap.next_block(),
    {
        ROData { heap }
    }

    /// Read-only data with no literals yet, on a heap of its own.
    pub fn empty() -> (r: ROData)
        ensures
            r.wf(),
            r.contents() == Map::<usize, LiteralObject>::empty(),
            r.next_block() == BLOCK_SIZE,
    {
        ROData { heap: StickyImmixHeap::new() }
    }

    /// Where the heap puts the header of the text literal `text` (see
    /// [`StickyImmixHeap::space_for`]).
    pub closed spec fn space_for_text(&self, text: String) -> Result<int, AllocError> {
        self.heap.space_for(LiteralObject::Text(Text { inner: text }))
    }

    /// Puts the text literal `text` on the heap and returns the word that
    /// points at it, just after its header; `None` when the heap has no
    /// room.
    pub fn allocate_text(&mut self, text: String) -> (r: Option<TaggedCellPtr>)
        requires
            old(self).wf(),
        ensures
            final(self).wf(),
            old(self).next_block() <= final(self).next_block() <= old(self).next_block() + BLOCK_SIZE,
            grows(old(self).contents(), final(self).contents()),
            r is Some ==> holds_text(final(self).contents(), text@),
            match r {
                Some(c) => {
                    &&& literal_read(c.ptr(), final(self).contents()) == Some(ValueV::String(text@))
                    &&& old(self).space_for_text(text) matches Ok(h)
                    &&& c.ptr().tag_of() == Tag::Object((h + LiteralHeader::header_bytes()) as usize)
                    &&& forall|w: TaggedPtr| #[trigger]
                        literal_read(w, old(self).contents()) is Some ==> literal_read(
                            w,
                            final(self).contents(),
                        ) == literal_read(w, old(self).contents())
                },
                None => {
                    &&& old(self).exhausted()
                    &&& final(self).contents() == old(self).contents()
                    &&& old(self).space_for_text(text) is Err
                },
            },
    {
        let ghost t = text@;
        match self.heap.allocate(LiteralObject::Text(Text::from_string(text))) {
            Ok(raw) => {
                let p = TaggedPtr::object(raw.to_void());
                assert(self.contents().contains_key(raw.addr()));
                Some(TaggedCellPtr::new(p))
            },
            Err(_) => None,
        }
    }

    /// The word of a number literal whose `f32` bits are `bits`.
    pub fn number(bits: u32) -> (r: TaggedCellPtr)
        ensures
            r.ptr().tag_of() == Tag::Number(bits),
    {
        TaggedCellPtr::new(TaggedPtr::number(bits))
    }

    /// What the literal word `cell` reads as.
    pub fn read(&self, cell: &TaggedCellPtr) -> (r: Option<Value>)
        ensures
            match r {
                Some(v) => literal_read(cell.ptr(), self.contents()) == Some(v@),
                None => literal_read(cell.ptr(), self.contents()) is None,
            },
    {
        match cell.get_ptr().read() {
            Tag::Number(b) => Some(Value::Number(Number::Narrow(b))),
            Tag::Object(a) => match self.heap.find_object(a) {
                Some(LiteralObject::Text(t)) => Some(Value::String(string_clone(&t.inner))),
                Some(LiteralObject::Number(b)) => Some(Value::Number(Number::Narrow(*b))),
                None => None,
            },
            _ => None,
        }
    }
}

/// The key of the hash that [`FxHasher`] computes: a large odd number.
pub const K: u64 = 0x517cc1b727220a95;

/// Up to the first eight bytes of `bytes`, read as a big-endian number.
pub open spec fn fold_bytes(bytes: Seq<u8>) -> u64
    decreases bytes.len(),
{
    if bytes.len() == 0 {
        0
    } else {
        let n = if bytes.len() > 8 {
            8
        } else {
            bytes.len()
        };
        let b = bytes.take(n as int);
        ((fold_bytes(b.drop_last()) << 8u64) | (b.last() as u64)) as u64
    }
}

/// `x` rotated left by five bits.
pub open spec fn rotl5(x: u64) -> u64 {
    (x << 5u64) | (x >> 59u64)
}

/// The hash after writing `bytes` to a hasher whose hash was `h`.
pub open spec fn fx_write(h: u64, bytes: Seq<u8>) -> u64 {
    ((rotl5(h) ^ fold_bytes(bytes)) as u64).wrapping_mul(K)
}

/// A fast, non-cryptographic hash of words.
pub struct FxHasher {
    hash: u64,
}

impl FxHasher {
    pub closed spec fn state(&self) -> u64 {
        self.hash
    }

    /// Mixes in `bytes`: up to their first eight, read as a big-endian
    /// number, are xor-ed into the hash rotated left by five bits, and the
    /// result is multiplied by [`K`], wrapping.
    pub fn write(&mut self, bytes: &[u8])
        ensures
            final(self).state() == fx_write(old(self).state(), bytes@),
    {
        let n: usize = if bytes.len() > 8 {
            8
        } else {
            bytes.len()
        };
        let mut acc: u64 = 0;
        let mut k: usize = 0;
        while k < n
            invariant
                k <= n <= bytes@.len(),
                n == (if bytes@.len() > 8 { 8 } else { bytes@.len() }),
                acc == fold_bytes(bytes@.take(k as int)),
            decreases n - k,
        {
            let ghost before = bytes@.take(k as int);
            acc = (acc << 8u64) | (bytes[k] as u64);
            proof {
                let b = bytes@.take(k + 1);
                assert(b.take(b.len() as int) =~= b);
                assert(b.drop_last() =~= before);
            }
            k = k + 1;
        }
        proof {
            if bytes@.len() <= 8 {
                assert(bytes@.take(n as int) =~= bytes@);
            } else {
                let b = bytes@.take(8);
                assert(b.take(8) =~= b);
                assert(bytes@.take(8).drop_last() =~= b.drop_last());
            }
        }
        let h = self.hash;
        let rot = (h << 5u64) | (h >> 59u64);
        self.hash = (rot ^ acc).wrapping_mul(K);
    }

    /// The hash.
    pub fn finish(&self) -> (r: u64)
        ensures
            r == self.state(),
    {
        self.hash
    }
}

/// Builds [`FxHasher`]s.
pub struct BuildFxHasher {}

impl BuildFxHasher {
    /// A hasher whose hash starts at 0.
    pub fn build_hasher(&self) -> (r: FxHasher)
        ensures
            r.state() == 0,
    {
        FxHasher { hash: 0 }
    }
}

/// What a word of the tape reads as: a number word is the number, an
/// object word the text it points at, and 0 the error of a cell with
/// nothing in it.
pub open spec fn tape_read(w: TaggedPtr, objects: Map<usize, TapeObject>) -> Option<ValueV> {
    match w.tag_of() {
        Tag::Nil => Some(ValueV::Error(RuntimeErrorV::SegmentationFault)),
        Tag::Number(b) => Some(ValueV::Number(Number::Narrow(b))),
        Tag::Object(a) => if objects.contains_key(a) {
            match objects[a] {
                TapeObject::Text(t) => Some(ValueV::String(t.inner@)),
                _ => None,
            }
        } else {
            None
        },
        Tag::Invalid => None,
    }
}

/// The bits of the `f32` 1.0.
pub const ONE_BITS: u32 = 0x3f80_0000;

/// What a tape object reads as once it is tagged: a text stays a text, a
/// boolean becomes the number 1 or 0.
pub open spec fn tagged_view(o: TapeObject) -> ValueV {
    match o {
        TapeObject::Text(t) => ValueV::String(t.inner@),
        TapeObject::Number(b) => ValueV::Number(Number::Narrow(b)),
        TapeObject::Boolean(b) => ValueV::Number(Number::Narrow(if b { ONE_BITS } else { 0 })),
    }
}

/// What the tape keeps of a value: an error is kept as its message, a
/// boolean as the number 1 or 0.
pub open spec fn stored(v: ValueV) -> ValueV {
    match v {
        ValueV::Error(e) => ValueV::String(message_of(e)),
        ValueV::Boolean(b) => ValueV::Number(Number::Narrow(if b { ONE_BITS } else { 0 })),
        _ => v,
    }
}

/// The message of an allocation that found no room.
pub open spec fn out_of_memory() -> RuntimeErrorV {
    RuntimeErrorV::AllocError("Out of memory"@)
}

/// The tape: the objects that its cells point at, on a heap of its own.
pub struct Tape {
    heap: StickyImmixHeap<TypeHeader>,
}

impl Tape {
    pub closed spec fn wf(&self) -> bool {
        self.heap.wf()
    }

    /// The objects on the tape's heap, by address.
    pub closed spec fn contents(&self) -> Map<usize, TapeObject> {
        self.heap.contents()
    }

    /// The address at which the heap's next block will be placed.
    pub closed spec fn next_block(&self) -> int {
        self.heap.next_block()
    }

    /// The address space has no room for another block.
    pub open spec fn exhausted(&self) -> bool {
        self.next_block() > usize::MAX - BLOCK_SIZE
    }

    /// Where the tape's heap puts the header of `object` (see
    /// [`StickyImmixHeap::space_for`]).
    pub closed spec fn space_for(&self, object: TapeObject) -> Result<int, AllocError> {
        self.heap.space_for(object)
    }

    /// Every cell of `cells` reads as a value.
    pub open spec fn holds(&self, cells: Map<u32, TaggedCellPtr>) -> bool {
        forall|k: u32| #[trigger] cells.contains_key(k) ==> tape_read(cells[k].ptr(), self.contents()) is Some
    }

    /// An empty tape.
    pub fn new() -> (r: Tape)
        ensures
            r.wf(),
            r.contents() == Map::<usize, TapeObject>::empty(),
            r.next_block() == BLOCK_SIZE,
    {
        Tape { heap: StickyImmixHeap::new() }
    }

    /// Puts `object` on the tape's heap.
    pub fn allocate(&mut self, object: TapeObject) -> (r: Result<RawPtr<TapeObject>, RuntimeError>)
        requires
            old(self).wf(),
        ensures
            old(self).next_block() <= final(self).next_block() <= old(self).next_block() + BLOCK_SIZE,
            final(self).wf(),
            match r {
                Ok(p) => {
                    &&& final(self).contents() == old(self).contents().insert(p.addr(), object)
                    &&& !old(self).contents().contains_key(p.addr())
                    &&& p.addr() % 8 == 0
                },
                Err(e) => {
                    &&& e@ == out_of_memory()
                    &&& final(self).contents() == old(self).contents()
                    &&& old(self).exhausted()
                },
            },
            match r {
                Ok(p) => old(self).space_for(object) == Ok::<int, AllocError>(p.addr() - 8),
                Err(_) => old(self).space_for(object) is Err,
            },
    {
        match self.heap.allocate(object) {
            Ok(p) => Ok(p),
            Err(e) => Err(RuntimeError::AllocError(e.message())),
        }
    }

    /// Puts `object` on the tape's heap and returns the tagged word for
    /// it: the object's address for a text, the number itself for a number
    /// or a boolean. The words that read as values before still do.
    pub fn allocate_tagged(&mut self, object: TapeObject) -> (r: Result<TaggedPtr, RuntimeError>)
        requires
            old(self).wf(),
        ensures
            old(self).next_block() <= final(self).next_block() <= old(self).next_block() + BLOCK_SIZE,
            final(self).wf(),
            match r {
                Ok(w) => tape_read(w, final(self).contents()) == Some(tagged_view(object)),
                Err(e) => {
                    &&& e@ == out_of_memory()
                    &&& final(self).contents() == old(self).contents()
                    &&& old(self).exhausted()
                },
            },
            forall|w: TaggedPtr| #[trigger]
                tape_read(w, old(self).contents()) is Some ==> tape_read(w, final(self).contents())
                    == tape_read(w, old(self).contents()),
    {
        let number: Option<u32> = match &object {
            TapeObject::Text(_) => None,
            TapeObject::Number(b) => Some(*b),
            TapeObject::Boolean(b) => Some(
                if *b {
                    ONE_BITS
                } else {
                    0
                },
            ),
        };
        let raw = self.allocate(object)?;
        match number {
            Some(bits) => Ok(TaggedPtr::number(bits)),
            None => Ok(TaggedPtr::object(raw.to_void())),
        }
    }

    /// The value of the cell `idx` of `map`, if the cell is there.
    pub fn get_value(&self, idx: u32, map: &HashMap<u32, TaggedCellPtr>) -> (r: Option<Value>)
        requires
            self.holds(map@),
        ensures
            r is Some <==> map@.contains_key(idx),
            r matches Some(v) ==> tape_read(map@[idx].ptr(), self.contents()) == Some(v@),
    {
        broadcast use vstd::std_specs::hash::group_hash_axioms;

        let cell = match map.get(&idx) {
            Some(c) => c,
            None => {
                return None;
            },
        };
        assert(map@.contains_key(idx));
        match cell.get_ptr().read() {
            Tag::Nil => Some(Value::Error(RuntimeError::SegmentationFault)),
            Tag::Number(b) => Some(Value::Number(Number::Narrow(b))),
            Tag::Object(a) => match self.heap.find_object(a) {
                Some(TapeObject::Text(t)) => Some(Value::String(string_clone(&t.inner))),
                _ => {
                    proof {
                        assert(false);
                    }
                    None
                },
            },
            Tag::Invalid => {
                proof {
                    assert(false);
                }
                None
            },
        }
    }

    /// Sets the cell `idx` of `map` to `value`: a text or an error's
    /// message goes on the heap and the cell points at it; a number or a
    /// boolean is kept in the cell itself. The other cells keep their
    /// values. A wide number is not kept: it is narrowed first.
    pub fn upsert_value(&mut self, idx: u32, value: Value, map: &mut HashMap<u32, TaggedCellPtr>) -> (r:
        Result<(), RuntimeError>)
        requires
            old(self).wf(),
            old(self).holds(old(map)@),
            !(value@ matches ValueV::Number(Number::Wide(_))),
        ensures
            final(self).wf(),
            final(self).holds(final(map)@),
            forall|w: TaggedPtr| #[trigger]
                tape_read(w, old(self).contents()) is Some ==> tape_read(w, final(self).contents())
                    == tape_read(w, old(self).contents()),
            match r {
                Ok(_) => {
                    &&& final(map)@.dom() == old(map)@.dom().insert(idx)
                    &&& tape_read(final(map)@[idx].ptr(), final(self).contents()) == Some(stored(value@))
                    &&& forall|j: u32|
                        j != idx && #[trigger] old(map)@.contains_key(j) ==> final(map)@[j] == old(map)@[j]
                            && tape_read(final(map)@[j].ptr(), final(self).contents()) == tape_read(
                            old(map)@[j].ptr(),
                            old(self).contents(),
                        )
                },
                Err(e) => {
                    &&& e@ == out_of_memory()
                    &&& final(map)@ == old(map)@
                    &&& final(self).contents() == old(self).contents()
                    &&& old(self).exhausted()
                },
            },
    {
        broadcast use vstd::std_specs::hash::group_hash_axioms;

        let ghost v = value@;
        let object = match value {
            Value::String(s) => TapeObject::Text(Text::from_string(s)),
            Value::Error(e) => TapeObject::Text(Text::from_string(e.message())),
            Value::Number(Number::Narrow(b)) => TapeObject::Number(b),
            Value::Number(Number::Wide(_)) => {
                proof {
                    assert(false);
                }
                TapeObject::Number(0)
            },
            Value::Boolean(b) => TapeObject::Boolean(b),
        };
        let ghost o = object;
        assert(tagged_view(o) == stored(v));
        let ptr = self.allocate_tagged(object)?;
        let ghost old_map = map@;
        map.insert(idx, TaggedCellPtr::new(ptr));
        assert(map@.dom() =~= old_map.dom().insert(idx));
        assert forall|k: u32| #[trigger] map@.contains_key(k) implies tape_read(
            map@[k].ptr(),
            self.contents(),
        ) is Some by {
            if k != idx {
                assert(old_map.contains_key(k));
            }
        }
        Ok(())
    }
}

/// The memory of a running program: the tape, and the read-only data of
/// its literals.
pub struct MutatorView {
    tape: Tape,
    literals: ROData,
}

impl MutatorView {
    pub closed spec fn wf(&self) -> bool {
        self.tape.wf() && self.literals.wf()
    }

    pub closed spec fn tape_of(&self) -> Tape {
        self.tape
    }

    pub closed spec fn data_of(&self) -> ROData {
        self.literals
    }

    /// The memory of a program whose literals are kept on `literals`, with
    /// an empty tape.
    pub fn new_with(literals: StickyImmixHeap<LiteralHeader>) -> (r: MutatorView)
        requires
            literals.wf(),
        ensures
            r.wf(),
            r.tape_of().contents() == Map::<usize, TapeObject>::empty(),
            r.tape_of().next_block() == BLOCK_SIZE,
            r.data_of().contents() == literals.contents(),
            r.data_of().next_block() == literals.next_block(),
    {
        let tape = Tape::new();
        let rodata = ROData::new_with(literals);
        MutatorView { tape, literals: rodata }
    }

    /// Takes out the read-only data, leaving empty read-only data in its
    /// place.
    pub fn take_data(&mut self) -> (d: ROData)
        requires
            old(self).wf(),
        ensures
            final(self).wf(),
            d.wf(),
            d == old(self).data_of(),
            final(self).tape_of() == old(self).tape_of(),
    {
        let mut d = ROData::empty();
        std::mem::swap(&mut d, &mut self.literals);
        d
    }

    /// Puts `data` in as the read-only data.
    pub fn put_data(&mut self, data: ROData)
        requires
            old(self).wf(),
            data.wf(),
        ensures
            final(self).wf(),
            final(self).data_of() == data,
            final(self).tape_of() == old(self).tape_of(),
    {
        self.literals = data;
    }

    /// The tape.
    pub fn get_tape(&self) -> (r: &Tape)
        ensures
            *r == self.tape_of(),
    {
        &self.tape
    }

    /// The read-only data.
    pub fn get_data(&self) -> (r: &ROData)
        ensures
            *r == self.data_of(),
    {
        &self.literals
    }

    /// Puts `object` on the tape's heap and returns a reference to it there.
    pub fn allocate(&mut self, object: TapeObject) -> (r: Result<ScopedPtr<'_, TapeObject>, RuntimeError>)
        requires
            old(self).wf(),
        ensures
            old(self).tape_of().next_block() <= final(self).tape_of().next_block() <= old(
                self,
            ).tape_of().next_block() + BLOCK_SIZE,
            final(self).wf(),
            final(self).data_of() == old(self).data_of(),
            match r {
                Ok(p) => exists|a: usize|
                    {
                        &&& #[trigger] final(self).tape_of().contents().contains_key(a)
                        &&& final(self).tape_of().contents() == old(self).tape_of().contents().insert(
                            a,
                            object,
                        )
                        &&& !old(self).tape_of().contents().contains_key(a)
                        &&& old(self).tape_of().space_for(object) == Ok::<int, AllocError>(a - 8)
                        &&& p.value() == object
                    },
                Err(e) => {
                    &&& e@ == out_of_memory()
                    &&& final(self).tape_of().contents() == old(self).tape_of().contents()
                    &&& old(self).tape_of().exhausted()
                    &&& old(self).tape_of().space_for(object) is Err
                },
            },
    {
        let ghost before = self.tape.contents();
        let ghost o = object;
        let raw = self.tape.allocate(object)?;
        let addr = raw.as_ptr();
        let found = self.tape.heap.find_object(addr);
        let r = found.unwrap();
        let p = ScopedPtr::new(&self.tape.heap, r);
        assert(self.tape.contents() == before.insert(addr, o) && !before.contains_key(addr) && p.value() == o);
        assert(old(self).tape_of().space_for(o) == Ok::<int, AllocError>(addr - 8));
        assert(self.tape_of().contents().contains_key(addr));
        Ok(p)
    }

    /// Puts `object` on the tape's heap and returns the tagged word for it
    /// (see [`Tape::allocate_tagged`]).
    pub fn allocate_tagged(&mut self, object: TapeObject) -> (r: Result<TaggedPtr, RuntimeError>)
        requires
            old(self).wf(),
        ensures
            old(self).tape_of().next_block() <= final(self).tape_of().next_block() <= old(
                self,
            ).tape_of().next_block() + BLOCK_SIZE,
            final(self).wf(),
            final(self).data_of() == old(self).data_of(),
            match r {
                Ok(w) => tape_read(w, final(self).tape_of().contents()) == Some(tagged_view(object)),
                Err(e) => {
                    &&& e@ == out_of_memory()
                    &&& final(self).tape_of().contents() == old(self).tape_of().contents()
                    &&& old(self).tape_of().exhausted()
                },
            },
            forall|w: TaggedPtr| #[trigger]
                tape_read(w, old(self).tape_of().contents()) is Some ==> tape_read(
                    w,
                    final(self).tape_of().contents(),
                ) == tape_read(w, old(self).tape_of().contents()),
    {
        self.tape.allocate_tagged(object)
    }

    /// The value of the cell `idx` of `map` (see [`Tape::get_value`]).
    pub fn get_value(&self, idx: u32, map: &HashMap<u32, TaggedCellPtr>) -> (r: Option<Value>)
        requires
            self.tape_of().holds(map@),
        ensures
            r is Some <==> map@.contains_key(idx),
            r matches Some(v) ==> tape_read(map@[idx].ptr(), self.tape_of().contents()) == Some(v@),
    {
        self.tape.get_value(idx, map)
    }

    /// Sets the cell `idx` of `map` (see [`Tape::upsert_value`]).
    pub fn upsert_value(&mut self, idx: u32, value: Value, map: &mut HashMap<u32, TaggedCellPtr>) -> (r:
        Result<(), RuntimeError>)
        requires
            old(self).wf(),
            old(self).tape_of().holds(old(map)@),
            !(value@ matches ValueV::Number(Number::Wide(_))),
        ensures
            final(self).wf(),
            final(self).data_of() == old(self).data_of(),
            final(self).tape_of().holds(final(map)@),
            forall|w: TaggedPtr| #[trigger]
                tape_read(w, old(self).tape_of().contents()) is Some ==> tape_read(
                    w,
                    final(self).tape_of().contents(),
                ) == tape_read(w, old(self).tape_of().contents()),
            match r {
                Ok(_) => {
                    &&& final(map)@.dom() == old(map)@.dom().insert(idx)
                    &&& tape_read(final(map)@[idx].ptr(), final(self).tape_of().contents()) == Some(
                        stored(value@),
                    )
                    &&& forall|j: u32|
                        j != idx && #[trigger] old(map)@.contains_key(j) ==> final(map)@[j] == old(map)@[j]
                            && tape_read(final(map)@[j].ptr(), final(self).tape_of().contents())
                            == tape_read(old(map)@[j].ptr(), old(self).tape_of().contents())
                },
                Err(e) => {
                    &&& e@ == out_of_memory()
                    &&& final(map)@ == old(map)@
                    &&& final(self).tape_of().contents() == old(self).tape_of().contents()
                    &&& old(self).tape_of().exhausted()
                },
            },
    {
        self.tape.upsert_value(idx, value, map)
    }
}

} // verus!
