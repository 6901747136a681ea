//! Addresses of objects on a heap, references scoped to a heap, and the
//! tagged words that hold either a number or an object's address.
use vstd::prelude::*;
use core::marker::PhantomData;
use crate::values::tape::constants::{PTR_MASK, TAG_OBJECT};

verus! {

/// What can look up the objects of a heap by their addresses.
pub trait MutatorScope {
    type Object;

    /// The objects, by address.
    spec fn objects(&self) -> Map<usize, Self::Object>;

    /// The object at `addr`, if there is one.
    fn object_at(&self, addr: usize) -> (r: Option<&Self::Object>)
        ensures
            match r {
                Some(o) => self.objects().contains_key(addr) && *o == self.objects()[addr],
                None => !self.objects().contains_key(addr),
            },
    ;
}

/// The address of an object of type `T`; never 0.
pub struct RawPtr<T> {
    addr: usize,
    marker: PhantomData<T>,
}

impl<T> RawPtr<T> {
    pub closed spec fn addr(&self) -> usize {
        self.addr
    }

    /// The pointer to the address `addr`, which must not be 0.
    pub fn new(addr: usize) -> (r: RawPtr<T>)
        requires
            addr != 0,
        ensures
            r.addr() == addr,
    {
        RawPtr { addr, marker: PhantomData }
    }

    /// The address (this library has no raw pointers: an address is a word).
    pub fn as_ptr(&self) -> (r: usize)
        ensures
            r == self.addr(),
            r != 0,
    {
        proof {
            use_type_invariant(self);
        }
        self.addr
    }

    /// The same address, for an object of no particular type.
    pub fn to_void(&self) -> (r: RawPtr<()>)
        ensures
            r.addr() == self.addr(),
    {
        proof {
            use_type_invariant(self);
        }
        RawPtr { addr: self.addr, marker: PhantomData }
    }

    /// The address as a word.
    pub fn as_word(&self) -> (r: usize)
        ensures
            r == self.addr(),
    {
        self.addr
    }

    /// The same pointer.
    pub fn duplicate(&self) -> (r: RawPtr<T>)
        ensures
            r.addr() == self.addr(),
    {
        proof {
            use_type_invariant(self);
        }
        RawPtr { addr: self.addr, marker: PhantomData }
    }

    #[verifier::type_invariant]
    spec fn non_null(&self) -> bool {
        self.addr != 0
    }
}

/// Looking up what a pointer points at, on a heap that holds it.
pub trait ScopedRef<T> {
    spec fn target(&self) -> usize;

    fn scoped_ref<'scope, G: MutatorScope<Object = T>>(&self, guard: &'scope G) -> (r: &'scope T)
        requires
            guard.objects().contains_key(self.target()),
        ensures
            *r == guard.objects()[self.target()],
    ;
}

impl<T> ScopedRef<T> for RawPtr<T> {
    open spec fn target(&self) -> usize {
        self.addr()
    }

    fn scoped_ref<'scope, G: MutatorScope<Object = T>>(&self, guard: &'scope G) -> (r: &'scope T) {
        guard.object_at(self.addr).unwrap()
    }
}

/// A reference to an object, valid while the heap it was found on is.
pub struct ScopedPtr<'guard, T> {
    value: &'guard T,
}

impl<'guard, T> ScopedPtr<'guard, T> {
    pub closed spec fn value(&self) -> T {
        *self.value
    }

    /// Wraps a reference into the heap `guard`.
    pub fn new<G: MutatorScope>(guard: &'guard G, ptr: &'guard T) -> (r: ScopedPtr<'guard, T>)
        ensures
            r.value() == *ptr,
    {
        ScopedPtr { value: ptr }
    }

    /// The object.
    pub fn get_ref(&self) -> (r: &'guard T)
        ensures
            *r == self.value(),
    {
        self.value
    }
}

/// A cell that holds a pointer.
pub struct CellPtr<T> {
    inner: RawPtr<T>,
}

impl<T> CellPtr<T> {
    pub closed spec fn target(&self) -> usize {
        self.inner.addr()
    }

    /// What the pointer points at, on the heap `guard`, which must hold it.
    pub fn get<'guard, G: MutatorScope<Object = T>>(&self, guard: &'guard G) -> (r: ScopedPtr<'guard, T>)
        requires
            guard.objects().contains_key(self.target()),
        ensures
            r.value() == guard.objects()[self.target()],
    {
        ScopedPtr::new(guard, self.inner.scoped_ref(guard))
    }

    /// A cell holding `ptr`.
    pub fn new_with(ptr: &RawPtr<T>) -> (r: CellPtr<T>)
        ensures
            r.target() == ptr.addr(),
    {
        CellPtr { inner: ptr.duplicate() }
    }
}

/// Setting and clearing the tag bits of a pointer's word.
pub trait Tagged<T> {
    spec fn word(&self) -> usize;

    fn tag(self, tag: usize) -> (r: usize)
        ensures
            r == self.word() | tag,
    ;

    fn untag(from: usize) -> (r: RawPtr<T>)
        requires
            from & PTR_MASK != 0,
        ensures
            r.addr() == from & PTR_MASK,
    ;
}

impl<T> Tagged<T> for RawPtr<T> {
    open spec fn word(&self) -> usize {
        self.addr()
    }

    fn tag(self, tag: usize) -> (r: usize) {
        self.as_word() | tag
    }

    fn untag(from: usize) -> (r: RawPtr<T>) {
        RawPtr::new(from & PTR_MASK)
    }
}

/// A word of the tape: 0 for nothing, an object's address (tag
/// `TAG_OBJECT`, 0, in the low bits), or a number: the bits of an `f32`,
/// shifted left by two, with the tag `TAG_NUMBER`, 1.
#[derive(Clone, Copy, Debug, PartialEq, Eq, Structural)]
pub struct TaggedPtr {
    word: u64,
}

/// What a tagged word holds.
pub enum Tag {
    Nil,
    Number(u32),
    Object(usize),
    Invalid,
}

/// How a word is read: 0 is nothing; otherwise its low two bits say
/// whether it is a number or an object's address.
pub open spec fn read_word(w: u64) -> Tag {
    if w == 0 {
        Tag::Nil
    } else if w & 3 == 1 {
        Tag::Number((w >> 2) as u32)
    } else if w & 3 == 0 {
        Tag::Object((w & 0xffff_ffff_ffff_fffeu64) as usize)
    } else {
        Tag::Invalid
    }
}

impl TaggedPtr {
    pub closed spec fn bits(&self) -> u64 {
        self.word
    }

    /// What the word holds.
    pub open spec fn tag_of(&self) -> Tag {
        read_word(self.bits())
    }

    /// The word that holds nothing.
    pub fn nil() -> (r: TaggedPtr)
        ensures
            r.tag_of() == Tag::Nil,
    {
        TaggedPtr { word: 0 }
    }

    /// The word that holds the number whose `f32` bits are `bits`.
    pub fn number(bits: u32) -> (r: TaggedPtr)
        ensures
            r.bits() == ((bits as u64) << 2u64) | 1u64,
            r.tag_of() == Tag::Number(bits),
    {
        let w: u64 = ((bits as u64) << 2u64) | 1u64;
        assert(w != 0 && w & 3 == 1 && (w >> 2u64) as u32 == bits) by (bit_vector)
            requires
                w == ((bits as u64) << 2u64) | 1u64,
        ;
        TaggedPtr { word: w }
    }

    /// The word of a small integer: its bits shifted left by two, with the
    /// number tag (a word that then reads as the number whose `f32` bits
    /// are the integer's low 32 bits).
    pub fn integer(value: i64) -> (r: TaggedPtr)
        ensures
            r.bits() == ((value as u64) << 2u64) | 1u64,
            r.tag_of() == Tag::Number(value as u32),
    {
        let w: u64 = ((value as u64) << 2u64) | 1u64;
        assert(w != 0 && w & 3 == 1 && (w >> 2u64) as u32 == value as u32) by (bit_vector)
            requires
                w == ((value as u64) << 2u64) | 1u64,
        ;
        TaggedPtr { word: w }
    }

    /// The word that holds the address of `ptr`'s object, which must be a
    /// multiple of 4 so that its low bits are free for the tag.
    pub fn object(ptr: RawPtr<()>) -> (r: TaggedPtr)
        requires
            ptr.addr() % 4 == 0,
        ensures
            r.bits() == ptr.addr() as u64,
            r.tag_of() == Tag::Object(ptr.addr()),
    {
        let addr = ptr.as_ptr();
        let a = ptr.tag(TAG_OBJECT);
        let w: u64 = a as u64;
        assert(a == addr | 0usize);
        assert(w == addr as u64 && w != 0 && w & 3 == 0 && (w & 0xffff_ffff_ffff_fffeu64) as usize == addr)
            by (bit_vector)
            requires
                a == addr | 0usize,
                addr % 4 == 0,
                addr != 0,
                w == a as u64,
        ;
        TaggedPtr { word: w }
    }

    /// Reads the word.
    pub fn read(&self) -> (r: Tag)
        ensures
            r == self.tag_of(),
    {
        let w = self.word;
        if w == 0 {
            Tag::Nil
        } else if w & 3 == 1 {
            Tag::Number((w >> 2u64) as u32)
        } else if w & 3 == 0 {
            Tag::Object((w & 0xffff_ffff_ffff_fffeu64) as usize)
        } else {
            Tag::Invalid
        }
    }
}

/// A cell of the tape that holds a tagged word.
#[derive(Clone, Copy, Debug, PartialEq, Eq, Structural)]
pub struct TaggedCellPtr {
    inner: TaggedPtr,
}

impl TaggedCellPtr {
    pub closed spec fn ptr(&self) -> TaggedPtr {
        self.inner
    }

    /// A cell holding `raw`.
    pub fn new(raw: TaggedPtr) -> (r: TaggedCellPtr)
        ensures
            r.ptr() == raw,
    {
        TaggedCellPtr { inner: raw }
    }

    /// The word the cell holds.
    pub fn get_ptr(&self) -> (r: TaggedPtr)
        ensures
            r == self.ptr(),
    {
        self.inner
    }
}

} // verus!
