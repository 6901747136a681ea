//! What a heap asks of the headers it writes before its objects.
use vstd::prelude::*;
use crate::values::tape::{AllocTypeId, Mark, SizeClass};

verus! {

/// The size of an object, as its header records it.
pub type ArraySize = u32;

/// A header that a heap writes before each object it allocates.
pub trait AllocHeader: Sized {
    type TypeId: AllocTypeId;

    /// The objects of the heap.
    type Object;

    /// The size of a header in bytes.
    spec fn header_bytes() -> nat;

    /// The size of an object in bytes.
    spec fn object_bytes(o: Self::Object) -> nat;

    /// The type id that an object's header records.
    spec fn type_of(o: Self::Object) -> Self::TypeId;

    spec fn spec_type_id(&self) -> Self::TypeId;

    spec fn spec_size(&self) -> ArraySize;

    spec fn spec_size_class(&self) -> SizeClass;

    spec fn spec_mark(&self) -> Mark;

    /// Headers are whole words; headers and objects are small.
    proof fn lemma_sizes(o: Self::Object)
        ensures
            8 <= Self::header_bytes() <= 64,
            Self::header_bytes() % 8 == 0,
            Self::object_bytes(o) <= 64,
    ;

    fn header_size() -> (r: usize)
        ensures
            r == Self::header_bytes(),
    ;

    fn object_size(o: &Self::Object) -> (r: usize)
        ensures
            r == Self::object_bytes(*o),
    ;

    /// The header of the object `o`, of `size` bytes.
    fn new(o: &Self::Object, size: ArraySize, size_class: SizeClass, mark: Mark) -> (h: Self)
        ensures
            h.spec_type_id() == Self::type_of(*o),
            h.spec_size() == size,
            h.spec_size_class() == size_class,
            h.spec_mark() == mark,
    ;

    /// The header of an array of `size` bytes.
    fn new_array(size: ArraySize, size_class: SizeClass, mark: Mark) -> (h: Self)
        ensures
            h.spec_size() == size,
            h.spec_size_class() == size_class,
            h.spec_mark() == mark,
    ;

    fn type_id(&self) -> (r: Self::TypeId)
        ensures
            r == self.spec_type_id(),
    ;
}

} // verus!
