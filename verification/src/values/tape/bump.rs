//! Bump allocation: blocks handed out from the top down, the list of blocks
//! of a heap, and the heap itself.
use vstd::prelude::*;
use crate::values::tape::{AllocError, Mark, SizeClass, size_class_of};
use crate::values::tape::header::{AllocHeader, ArraySize};
use crate::values::tape::block::{Block, BlockMeta, hole_scan, hole_size_scan, lines_for};
use crate::values::tape::constants::{ALIGN_MASK, BLOCK_SIZE, LINE_COUNT, LINE_SIZE};
use crate::values::tape::pointers::{MutatorScope, RawPtr};

verus! {

/// `x` rounded down to a multiple of 8.
pub open spec fn align_down(x: int) -> int {
    x - x % 8
}

proof fn lemma_align(x: usize)
    ensures
        x & ALIGN_MASK == align_down(x as int),
{
    assert(x & !7usize == x - x % 8) by (bit_vector);
}

/// Rounding down to a multiple of 8 stays at or above any multiple of 8
/// that is not above `x`.
proof fn lemma_align_above(x: usize, b: usize)
    requires
        b % 8 == 0,
        b <= x,
    ensures
        b <= align_down(x as int),
{
    assert(b <= x - x % 8) by (bit_vector)
        requires
            b % 8 == 0,
            b <= x,
    ;
}

/// Where a bump from `cursor` down by `size` bytes lands, if it stays at or
/// above `limit`.
pub open spec fn first_fit(cursor: int, limit: int, size: int) -> Option<int> {
    if cursor >= size && align_down(cursor - size) >= limit {
        Some(align_down(cursor - size))
    } else {
        None
    }
}

/// An allocation of `size` bytes in a block at `base` whose cursor and
/// limit are `cursor` and `limit`: the address, and the cursor and limit
/// after it. When the current hole has no room, the next hole below it that
/// the marks show is tried.
pub open spec fn bump_alloc(base: int, cursor: int, limit: int, marks: Seq<u8>, size: int) -> (
    Option<int>,
    int,
    int,
) {
    match first_fit(cursor, limit, size) {
        Some(p) => (Some(p), p, limit),
        None => if cursor < size || limit - base <= 0 {
            (None, cursor, limit)
        } else {
            let start = (limit - base) / LINE_SIZE as int;
            match hole_scan(marks, start, 0, start, lines_for(size)) {
                Some((c, l)) => match first_fit(base + c, base + l, size) {
                    Some(p) => (Some(p), p, base + l),
                    None => (None, base + c, base + l),
                },
                None => (None, cursor, limit),
            }
        },
    }
}

/// Free line marks for a block.
fn free_marks() -> (r: Vec<u8>)
    ensures
        r@.len() == LINE_COUNT,
        forall|i: int| 0 <= i < r@.len() ==> r@[i] == 0,
{
    let mut v: Vec<u8> = Vec::new();
    while v.len() < LINE_COUNT
        invariant
            v@.len() <= LINE_COUNT,
            forall|i: int| 0 <= i < v@.len() ==> v@[i] == 0,
        decreases LINE_COUNT - v@.len(),
    {
        v.push(0);
    }
    v
}

/// A block that objects are bump-allocated in, from its top down: the
/// current hole runs from `limit` up to `cursor`.
pub struct BumpBlock {
    cursor: usize,
    limit: usize,
    block: Block,
    meta: BlockMeta,
}

impl BumpBlock {
    pub closed spec fn base(&self) -> int {
        self.block.base() as int
    }

    pub closed spec fn cursor(&self) -> int {
        self.cursor as int
    }

    pub closed spec fn limit(&self) -> int {
        self.limit as int
    }

    pub closed spec fn marks(&self) -> Seq<u8> {
        self.meta.marks()
    }

    pub closed spec fn wf(&self) -> bool {
        &&& self.block.size() == BLOCK_SIZE
        &&& self.block.base() % 8 == 0
        &&& 0 < self.block.base() <= usize::MAX - BLOCK_SIZE
        &&& self.block.base() <= self.limit <= self.cursor <= self.block.base() + BLOCK_SIZE
        &&& self.limit % 8 == 0
        &&& self.meta.marks().len() == LINE_COUNT
    }

    /// A block at `base`, all of it free: the cursor at its top, the limit
    /// at its bottom.
    pub fn new(base: usize) -> (r: BumpBlock)
        requires
            0 < base <= usize::MAX - BLOCK_SIZE,
            base % 8 == 0,
            base % BLOCK_SIZE == 0,
        ensures
            r.wf(),
            r.base() == base,
            r.cursor() == base + BLOCK_SIZE,
            r.limit() == base,
            forall|i: int| 0 <= i < r.marks().len() ==> r.marks()[i] == 0,
    {
        assert(vstd::arithmetic::power2::is_pow2(BLOCK_SIZE as int)) by {
            reveal_with_fuel(vstd::arithmetic::power2::is_pow2, 17);
        }
        let block = match Block::new(BLOCK_SIZE, base) {
            Ok(b) => b,
            Err(_) => {
                proof {
                    assert(false);
                }
                Block::new(BLOCK_SIZE, base).unwrap()
            },
        };
        let meta = BlockMeta::new(free_marks());
        let cursor = block.as_ptr() + BLOCK_SIZE;
        let limit = block.as_ptr();
        BumpBlock { cursor, limit, block, meta }
    }

    /// The size of the next hole below the cursor, as the line marks show
    /// it; 0 when there is none.
    pub fn current_hole_size(&self) -> (r: usize)
        requires
            self.wf(),
        ensures
            r == (match hole_size_scan(
                self.marks(),
                (self.cursor() - self.base()) / LINE_SIZE as int,
                0,
                (self.cursor() - self.base()) / LINE_SIZE as int,
            ) {
                Some(n) => n,
                None => 0,
            }),
    {
        let rel = self.cursor - self.block.as_ptr();
        match self.meta.find_next_hole_size(rel) {
            Some(n) => n,
            None => 0,
        }
    }

    /// Bump-allocates `alloc_size` bytes: the cursor moves down by that
    /// much, aligned down to a word, if that stays in the current hole;
    /// otherwise the next hole below that the marks show is tried. Returns
    /// the address of the allocation.
    pub fn inner_alloc(&mut self, alloc_size: usize) -> (r: Option<usize>)
        requires
            old(self).wf(),
        ensures
            final(self).wf(),
            final(self).base() == old(self).base(),
            final(self).marks() == old(self).marks(),
            (match r {
                Some(p) => Some(p as int),
                None => None,
            }, final(self).cursor(), final(self).limit()) == bump_alloc(
                old(self).base(),
                old(self).cursor(),
                old(self).limit(),
                old(self).marks(),
                alloc_size as int,
            ),
            r matches Some(p) ==> {
                &&& p % 8 == 0
                &&& old(self).base() <= p
                &&& p + alloc_size <= old(self).cursor()
                &&& final(self).cursor() == p
            },
            r is None ==> final(self).cursor() == old(self).cursor(),
    {
        let ptr = self.cursor;
        let limit = self.limit;
        if ptr < alloc_size {
            return None;
        }
        let next_ptr = (ptr - alloc_size) & ALIGN_MASK;
        proof {
            lemma_align((ptr - alloc_size) as usize);
        }
        if next_ptr >= limit {
            self.cursor = next_ptr;
            return Some(next_ptr);
        }
        self.alloc_in_next_hole(alloc_size)
    }

    /// The part of [`BumpBlock::inner_alloc`] after the current hole has
    /// turned out too small.
    fn alloc_in_next_hole(&mut self, alloc_size: usize) -> (r: Option<usize>)
        requires
            old(self).wf(),
            old(self).cursor() >= alloc_size,
            first_fit(old(self).cursor(), old(self).limit(), alloc_size as int) is None,
        ensures
            final(self).wf(),
            final(self).base() == old(self).base(),
            final(self).marks() == old(self).marks(),
            (match r {
                Some(p) => Some(p as int),
                None => None,
            }, final(self).cursor(), final(self).limit()) == bump_alloc(
                old(self).base(),
                old(self).cursor(),
                old(self).limit(),
                old(self).marks(),
                alloc_size as int,
            ),
            r matches Some(p) ==> {
                &&& p % 8 == 0
                &&& old(self).base() <= p
                &&& p + alloc_size <= old(self).cursor()
                &&& final(self).cursor() == p
            },
            r is None ==> final(self).cursor() == old(self).cursor(),
    {
        let base = self.block.as_ptr();
        let block_relative_limit = self.limit - base;
        if block_relative_limit == 0 {
            return None;
        }
        match self.meta.find_next_available_hole(block_relative_limit, alloc_size) {
            None => None,
            Some((c, l)) => {
                let cursor = base + c;
                let new_limit = base + l;
                let next = (cursor - alloc_size) & ALIGN_MASK;
                proof {
                    lemma_align((cursor - alloc_size) as usize);
                    lemma_align_above((cursor - alloc_size) as usize, new_limit);
                }
                self.limit = new_limit;
                self.cursor = next;
                Some(next)
            },
        }
    }
}

/// Two ranges of addresses do not overlap.
pub open spec fn disjoint(a: (int, int), b: (int, int)) -> bool {
    a.1 <= b.0 || b.1 <= a.0
}

/// The blocks of a heap: the block that small objects go to, the block for
/// medium objects that do not fit in it, the blocks that are full, and the
/// address at which the next block will be placed.
pub struct BlockList {
    head: Option<BumpBlock>,
    overflow: Option<BumpBlock>,
    rest: Vec<BumpBlock>,
    next_base: usize,
}

/// The space that is still free in an active block lies below its cursor:
/// no allocation of `regions` reaches into it.
pub open spec fn clear_below(b: BumpBlock, regions: Seq<(int, int)>) -> bool {
    forall|i: int| 0 <= i < regions.len() ==> (#[trigger] regions[i]).1 <= b.base() || regions[i].0 >= b.cursor()
}

/// Where a new block at `next_base` gives `size` bytes: at its top,
/// rounded down to a word.
pub open spec fn fresh_space(next_base: int, size: int) -> int {
    align_down(next_base + BLOCK_SIZE - size)
}

/// Where the block `b` gives `size` bytes, if it has room for them.
pub open spec fn space_in(b: BumpBlock, size: int) -> Option<int> {
    bump_alloc(b.base(), b.cursor(), b.limit(), b.marks(), size).0
}

/// The size of the hole below the cursor of `b`, as
/// [`BumpBlock::current_hole_size`] gives it.
pub open spec fn hole_size_of(b: BumpBlock) -> int {
    match hole_size_scan(
        b.marks(),
        (b.cursor() - b.base()) / LINE_SIZE as int,
        0,
        (b.cursor() - b.base()) / LINE_SIZE as int,
    ) {
        Some(n) => n,
        None => 0,
    }
}

impl BlockList {
    pub closed spec fn next_base(&self) -> int {
        self.next_base as int
    }

    /// No room for another block is left in the address space.
    pub open spec fn exhausted(&self) -> bool {
        self.next_base() > usize::MAX - BLOCK_SIZE
    }

    /// The space that a new block gives for `size` bytes, or no room.
    pub open spec fn fresh_result(&self, size: int) -> Result<int, AllocError> {
        if self.exhausted() {
            Err(AllocError::OOM)
        } else {
            Ok(fresh_space(self.next_base(), size))
        }
    }

    /// The space that the overflow block gives for `size` bytes: in the
    /// current overflow block if it has room, else in a new one.
    pub closed spec fn overflow_result(&self, size: int) -> Result<int, AllocError> {
        match self.overflow {
            None => self.fresh_result(size),
            Some(o) => match space_in(o, size) {
                Some(p) => Ok(p),
                None => self.fresh_result(size),
            },
        }
    }

    /// The space found for `size` bytes of the size class `class` (see
    /// [`StickyImmixHeap::find_space`]).
    pub closed spec fn space_result(&self, size: int, class: SizeClass) -> Result<int, AllocError> {
        match class {
            SizeClass::Large => Err(AllocError::BadRequest),
            _ => match self.head {
                None => self.fresh_result(size),
                Some(h) => if class == SizeClass::Medium && size > hole_size_of(h) {
                    self.overflow_result(size)
                } else {
                    match space_in(h, size) {
                        Some(p) => Ok(p),
                        None => self.fresh_result(size),
                    }
                },
            },
        }
    }

    /// The blocks are sound, and the allocations `regions` made from them
    /// lie below the next block and outside the free space of the active
    /// blocks.
    pub closed spec fn inv(&self, regions: Seq<(int, int)>) -> bool {
        &&& self.next_base % 8 == 0
        &&& self.next_base % BLOCK_SIZE == 0
        &&& BLOCK_SIZE <= self.next_base
        &&& (self.head matches Some(h) ==> h.wf() && h.base() + BLOCK_SIZE <= self.next_base
            && clear_below(h, regions))
        &&& (self.overflow matches Some(o) ==> o.wf() && o.base() + BLOCK_SIZE <= self.next_base
            && clear_below(o, regions))
        &&& (self.head matches Some(h) ==> self.overflow matches Some(o) ==> h.base() + BLOCK_SIZE
            <= o.base() || o.base() + BLOCK_SIZE <= h.base())
        &&& forall|i: int|
            0 <= i < regions.len() ==> 0 < (#[trigger] regions[i]).0 < regions[i].1 <= self.next_base
    }

    /// No blocks yet; the first one will be placed at the address
    /// `BLOCK_SIZE`, so that no address is 0.
    /// No block is held.
    pub closed spec fn holds_none(&self) -> bool {
        &&& self.head is None
        &&& self.overflow is None
        &&& self.rest@.len() == 0
    }

    pub fn new() -> (r: BlockList)
        ensures
            r.inv(seq![]),
            r.next_base() == BLOCK_SIZE,
            r.holds_none(),
    {
        BlockList { head: None, overflow: None, rest: Vec::new(), next_base: BLOCK_SIZE }
    }

    /// A new block at the next free place of the address space.
    fn fresh(&mut self, Ghost(regions): Ghost<Seq<(int, int)>>) -> (r: Result<BumpBlock, AllocError>)
        requires
            old(self).inv(regions),
        ensures
            final(self).inv(regions),
            final(self).head == old(self).head,
            final(self).overflow == old(self).overflow,
            final(self).rest == old(self).rest,
            match r {
                Ok(b) => {
                    &&& b.wf()
                    &&& b.base() == old(self).next_base()
                    &&& b.cursor() == b.base() + BLOCK_SIZE
                    &&& b.limit() == b.base()
                    &&& final(self).next_base() == old(self).next_base() + BLOCK_SIZE
                    &&& !old(self).exhausted()
                },
                Err(e) => e == AllocError::OOM && old(self).exhausted() && final(self).next_base()
                    == old(self).next_base(),
            },
    {
        if self.next_base > usize::MAX - BLOCK_SIZE {
            return Err(AllocError::OOM);
        }
        let b = BumpBlock::new(self.next_base);
        self.next_base = self.next_base + BLOCK_SIZE;
        Ok(b)
    }

    /// Allocates `alloc_size` bytes in the overflow block, starting a new
    /// overflow block when the current one has no room; the block that this
    /// displaces is kept with the full blocks, and the head block stays.
    fn overflow_alloc(&mut self, alloc_size: usize, Ghost(regions): Ghost<Seq<(int, int)>>) -> (r:
        Result<usize, AllocError>)
        requires
            old(self).inv(regions),
            0 < alloc_size <= BLOCK_SIZE,
        ensures
            match r {
                Ok(p) => {
                    &&& final(self).inv(regions.push((p as int, p + alloc_size)))
                    &&& forall|i: int|
                        0 <= i < regions.len() ==> disjoint(
                            #[trigger] regions[i],
                            (p as int, p + alloc_size),
                        )
                    &&& p % 8 == 0
                },
                Err(e) => e == AllocError::OOM && final(self).inv(regions) && old(self).exhausted(),
            },
            (match r {
                Ok(p) => Ok(p as int),
                Err(e) => Err(e),
            }) == old(self).overflow_result(alloc_size as int),
            old(self).next_base() <= final(self).next_base() <= old(self).next_base() + BLOCK_SIZE,
            final(self).head == old(self).head,
            final(self).rest@.len() == old(self).rest@.len() + (if r is Ok && old(
                self,
            ).overflow is Some && space_in(old(self).overflow->0, alloc_size as int) is None {
                1int
            } else {
                0int
            }),
            final(self).rest@.take(old(self).rest@.len() as int) == old(self).rest@,
    {
        let taken = self.overflow.take();
        match taken {
            None => {
                let mut overflow = match self.fresh(Ghost(regions)) {
                    Ok(b) => b,
                    Err(e) => {
                        return Err(e);
                    },
                };
                proof {
                    lemma_align_above((overflow.cursor() - alloc_size) as usize, overflow.base() as usize);
                }
                let space = overflow.inner_alloc(alloc_size);
                match space {
                    Some(p) => {
                        self.overflow = Some(overflow);
                        Ok(p)
                    },
                    None => {
                        proof {
                            assert(false);
                        }
                        Err(AllocError::OOM)
                    },
                }
            },
            Some(mut overflow) => {
                match overflow.inner_alloc(alloc_size) {
                    Some(p) => {
                        self.overflow = Some(overflow);
                        Ok(p)
                    },
                    None => {
                        let mut fresh = match self.fresh(Ghost(regions)) {
                            Ok(b) => b,
                            Err(e) => {
                                self.overflow = Some(overflow);
                                return Err(e);
                            },
                        };
                        self.rest.push(overflow);
                        proof {
                            lemma_align_above((fresh.cursor() - alloc_size) as usize, fresh.base() as usize);
                        }
                        match fresh.inner_alloc(alloc_size) {
                            Some(p) => {
                                self.overflow = Some(fresh);
                                Ok(p)
                            },
                            None => {
                                proof {
                                    assert(false);
                                }
                                Err(AllocError::OOM)
                            },
                        }
                    },
                }
            },
        }
    }
}


/// One allocation of a heap: the range it takes up (`size` bytes from
/// `start`), the header written at its start, and the object written after
/// the header.
pub struct Record<H: AllocHeader> {
    pub start: usize,
    pub size: usize,
    pub header: H,
    pub object: H::Object,
}

/// The ranges of addresses that the allocations take up.
pub open spec fn regions_of<H: AllocHeader>(s: Seq<Record<H>>) -> Seq<(int, int)> {
    s.map_values(|r: Record<H>| (r.start as int, r.start + r.size))
}

/// The address of an allocation's object: just after its header.
pub open spec fn object_addr<H: AllocHeader>(r: Record<H>) -> usize {
    (r.start + H::header_bytes()) as usize
}

/// The allocation's object lies within the address space.
pub open spec fn addressable<H: AllocHeader>(r: Record<H>) -> bool {
    r.start + H::header_bytes() <= usize::MAX
}

/// The objects of the allocations by address; of two allocations at one
/// address, the later one counts.
pub open spec fn objects_of<H: AllocHeader>(s: Seq<Record<H>>) -> Map<usize, H::Object>
    decreases s.len(),
{
    if s.len() == 0 {
        Map::empty()
    } else if addressable(s.last()) {
        objects_of(s.drop_last()).insert(object_addr(s.last()), s.last().object)
    } else {
        objects_of(s.drop_last())
    }
}

/// The headers of the allocations by the address they are written at; of
/// two allocations at one address, the later one counts.
pub open spec fn headers_of<H: AllocHeader>(s: Seq<Record<H>>) -> Map<usize, H>
    decreases s.len(),
{
    if s.len() == 0 {
        Map::empty()
    } else {
        headers_of(s.drop_last()).insert(s.last().start, s.last().header)
    }
}

proof fn lemma_objects_push<H: AllocHeader>(s: Seq<Record<H>>, r: Record<H>)
    requires
        addressable(r),
    ensures
        objects_of(s.push(r)) == objects_of(s).insert(object_addr(r), r.object),
        headers_of(s.push(r)) == headers_of(s).insert(r.start, r.header),
        regions_of(s.push(r)) == regions_of(s).push((r.start as int, r.start + r.size)),
{
    assert(s.push(r).drop_last() =~= s);
    assert(regions_of(s.push(r)) =~= regions_of(s).push((r.start as int, r.start + r.size)));
}

/// An address that the objects hold is that of one of the allocations.
proof fn lemma_objects_dom<H: AllocHeader>(s: Seq<Record<H>>, a: usize)
    requires
        objects_of(s).contains_key(a),
    ensures
        exists|i: int| 0 <= i < s.len() && addressable(s[i]) && object_addr(#[trigger] s[i]) == a,
    decreases s.len(),
{
    if s.len() > 0 && !(addressable(s.last()) && object_addr(s.last()) == a) {
        lemma_objects_dom(s.drop_last(), a);
        let i = choose|i: int|
            0 <= i < s.drop_last().len() && addressable(s.drop_last()[i]) && object_addr(
                #[trigger] s.drop_last()[i],
            ) == a;
        assert(s[i] == s.drop_last()[i]);
    } else if s.len() > 0 {
        assert(object_addr(s[s.len() - 1]) == a);
    }
}

/// Past the allocations from `i` on, none of which is at `a`, the objects
/// at `a` are those of the first `i` allocations.
proof fn lemma_objects_prefix<H: AllocHeader>(s: Seq<Record<H>>, i: int, a: usize)
    requires
        0 <= i <= s.len(),
        forall|j: int| i <= j < s.len() ==> !(addressable(#[trigger] s[j]) && object_addr(s[j]) == a),
    ensures
        objects_of(s).contains_key(a) == objects_of(s.take(i)).contains_key(a),
        objects_of(s).contains_key(a) ==> objects_of(s)[a] == objects_of(s.take(i))[a],
    decreases s.len() - i,
{
    if i == s.len() {
        assert(s.take(i) =~= s);
    } else {
        let t = s.drop_last();
        assert(!(addressable(s[s.len() - 1]) && object_addr(s[s.len() - 1]) == a));
        assert forall|j: int| i <= j < t.len() implies !(addressable(#[trigger] t[j]) && object_addr(t[j]) == a) by {
            assert(t[j] == s[j]);
        }
        lemma_objects_prefix(t, i, a);
        assert(t.take(i) =~= s.take(i));
    }
}

/// What an allocation leaves on a heap (as [`StickyImmixHeap::allocate`]
/// states it): the new object reads back at its address, and every object
/// allocated before still reads back as it did, at an address of its own.
pub proof fn lemma_read_after_allocate<O>(before: Map<usize, O>, after: Map<usize, O>, p: usize, o: O, q: usize)
    requires
        after == before.insert(p, o),
        !before.contains_key(p),
    ensures
        after.contains_key(p) && after[p] == o,
        before.contains_key(q) ==> q != p && after.contains_key(q) && after[q] == before[q],
{
}

/// A heap of objects, each written after a header of type `H`, bump
/// allocated in blocks and lines.
pub struct StickyImmixHeap<H: AllocHeader> {
    blocks: BlockList,
    records: Vec<Record<H>>,
}

impl<H: AllocHeader> StickyImmixHeap<H> {
    /// The objects on the heap, by address.
    pub closed spec fn contents(&self) -> Map<usize, H::Object> {
        objects_of(self.records@)
    }

    /// The headers on the heap, by the address they are written at.
    pub closed spec fn headers(&self) -> Map<usize, H> {
        headers_of(self.records@)
    }

    /// The address at which the heap's next block will be placed.
    pub closed spec fn next_block(&self) -> int {
        self.blocks.next_base()
    }

    /// How many blocks the heap holds.
    pub closed spec fn block_count(&self) -> nat {
        (if self.blocks.head is Some {
            1nat
        } else {
            0nat
        }) + (if self.blocks.overflow is Some {
            1nat
        } else {
            0nat
        }) + self.blocks.rest@.len()
    }

    /// The address space has no room for another block.
    pub open spec fn exhausted(&self) -> bool {
        self.next_block() > usize::MAX - BLOCK_SIZE
    }

    /// Where the heap puts the header of `object`: the space it finds for
    /// a header and the object, rounded down to a whole word, or why it
    /// finds none.
    pub closed spec fn space_for(&self, object: H::Object) -> Result<int, AllocError> {
        let size = align_down((H::header_bytes() + H::object_bytes(object)) as int);
        self.blocks.space_result(size, size_class_of(size))
    }

    pub closed spec fn wf(&self) -> bool {
        &&& self.blocks.inv(regions_of(self.records@))
        &&& forall|i: int|
            0 <= i < self.records@.len() ==> H::header_bytes() <= (#[trigger] self.records@[i]).size
    }

    /// An empty heap.
    pub fn new() -> (r: StickyImmixHeap<H>)
        ensures
            r.wf(),
            r.contents() == Map::<usize, H::Object>::empty(),
            !r.exhausted(),
            r.next_block() == BLOCK_SIZE,
            r.block_count() == 0,
    {
        let r = StickyImmixHeap { blocks: BlockList::new(), records: Vec::new() };
        assert(regions_of(r.records@) =~= seq![]);
        r
    }

    /// Finds `alloc_size` bytes of free space: large objects are refused;
    /// small ones go to the head block, and a new head block is started
    /// when it has no room; medium ones that are larger than the head
    /// block's current hole go to the overflow block.
    fn find_space(&mut self, alloc_size: usize, size_class: SizeClass) -> (r: Result<usize, AllocError>)
        requires
            old(self).wf(),
            size_class != SizeClass::Large ==> size_class == size_class_of(alloc_size as int)
                && 0 < alloc_size,
        ensures
            final(self).records == old(self).records,
            old(self).next_block() <= final(self).next_block() <= old(self).next_block() + BLOCK_SIZE,
            match r {
                Ok(p) => {
                    &&& final(self).blocks.inv(
                        regions_of(old(self).records@).push((p as int, p + alloc_size)),
                    )
                    &&& forall|i: int|
                        0 <= i < old(self).records@.len() ==> disjoint(
                            #[trigger] regions_of(old(self).records@)[i],
                            (p as int, p + alloc_size),
                        )
                    &&& p % 8 == 0
                },
                Err(e) => {
                    &&& final(self).wf()
                    &&& (e == AllocError::BadRequest <==> size_class == SizeClass::Large)
                    &&& (e == AllocError::BadRequest ==> final(self).blocks == old(self).blocks)
                    &&& (e == AllocError::OOM ==> old(self).exhausted())
                },
            },
            (match r {
                Ok(p) => Ok(p as int),
                Err(e) => Err(e),
            }) == old(self).blocks.space_result(alloc_size as int, size_class),
    {
        let ghost regions = regions_of(self.records@);
        if let SizeClass::Large = size_class {
            return Err(AllocError::BadRequest);
        }
        let taken = self.blocks.head.take();
        match taken {
            None => {
                let mut head = match self.blocks.fresh(Ghost(regions)) {
                    Ok(b) => b,
                    Err(e) => {
                        return Err(e);
                    },
                };
                proof {
                    lemma_align_above((head.cursor() - alloc_size) as usize, head.base() as usize);
                }
                match head.inner_alloc(alloc_size) {
                    Some(p) => {
                        self.blocks.head = Some(head);
                        Ok(p)
                    },
                    None => {
                        proof {
                            assert(false);
                        }
                        Err(AllocError::OOM)
                    },
                }
            },
            Some(mut head) => {
                if let SizeClass::Medium = size_class {
                    if alloc_size > head.current_hole_size() {
                        self.blocks.head = Some(head);
                        return self.blocks.overflow_alloc(alloc_size, Ghost(regions));
                    }
                }
                match head.inner_alloc(alloc_size) {
                    Some(p) => {
                        self.blocks.head = Some(head);
                        Ok(p)
                    },
                    None => {
                        let mut fresh = match self.blocks.fresh(Ghost(regions)) {
                            Ok(b) => b,
                            Err(e) => {
                                self.blocks.head = Some(head);
                                return Err(e);
                            },
                        };
                        self.blocks.rest.push(head);
                        proof {
                            lemma_align_above(
                                (fresh.cursor() - alloc_size) as usize,
                                fresh.base() as usize,
                            );
                        }
                        match fresh.inner_alloc(alloc_size) {
                            Some(p) => {
                                self.blocks.head = Some(fresh);
                                Ok(p)
                            },
                            None => {
                                proof {
                                    assert(false);
                                }
                                Err(AllocError::OOM)
                            },
                        }
                    },
                }
            },
        }
    }

    /// Allocates `object`: its header and the object itself take up the
    /// size of a header plus the size of the object, rounded down to a
    /// whole word; returns the address of the object, just after its
    /// header. It fails only when no room is left in the address space.
    #[verifier::rlimit(40)]
    pub fn allocate(&mut self, object: H::Object) -> (r: Result<RawPtr<H::Object>, AllocError>)
        requires
            old(self).wf(),
        ensures
            old(self).next_block() <= final(self).next_block() <= old(self).next_block() + BLOCK_SIZE,
            final(self).wf(),
            match r {
                Ok(p) => {
                    &&& final(self).contents() == old(self).contents().insert(p.addr(), object)
                    &&& !old(self).contents().contains_key(p.addr())
                    &&& p.addr() % 8 == 0
                    &&& p.addr() >= H::header_bytes()
                    &&& final(self).headers().dom() == old(self).headers().dom().insert(
                        (p.addr() - H::header_bytes()) as usize,
                    )
                    &&& ({
                        let h = final(self).headers()[(p.addr() - H::header_bytes()) as usize];
                        let size = align_down((H::header_bytes() + H::object_bytes(object)) as int);
                        &&& h.spec_type_id() == H::type_of(object)
                        &&& h.spec_size() == H::object_bytes(object) as ArraySize
                        &&& h.spec_size_class() == size_class_of(size)
                        &&& h.spec_mark() == Mark::Allocated
                    })
                },
                Err(e) => {
                    &&& final(self).contents() == old(self).contents()
                    &&& final(self).headers() == old(self).headers()
                    &&& e == AllocError::OOM
                    &&& old(self).exhausted()
                },
            },
            (match r {
                Ok(p) => Ok(p.addr() as int),
                Err(e) => Err(e),
            }) == (match old(self).space_for(object) {
                Ok(s) => Ok(s + H::header_bytes()),
                Err(e) => Err(e),
            }),
    {
        proof {
            H::lemma_sizes(object);
        }
        let header_size = H::header_size();
        let object_size = H::object_size(&object);
        let total_size = header_size + object_size;
        let alloc_size = total_size & ALIGN_MASK;
        proof {
            lemma_align(total_size);
            lemma_align_above(total_size, header_size);
        }
        let size_class = SizeClass::get_for_size(alloc_size);
        let space = match self.find_space(alloc_size, size_class) {
            Ok(p) => p,
            Err(e) => {
                return Err(e);
            },
        };
        let header = H::new(&object, object_size as ArraySize, size_class, Mark::Allocated);
        proof {
            let nr = regions_of(self.records@).push((space as int, space + alloc_size));
            assert(nr[nr.len() - 1] == (space as int, space + alloc_size));
        }
        let addr = space + header_size;
        let ghost old_records = self.records@;
        let rec = Record { start: space, size: alloc_size, header, object };
        proof {
            lemma_objects_push(old_records, rec);
            if objects_of(old_records).contains_key(addr) {
                lemma_objects_dom(old_records, addr);
                let i = choose|i: int|
                    0 <= i < old_records.len() && addressable(old_records[i]) && object_addr(
                        #[trigger] old_records[i],
                    ) == addr;
                assert(regions_of(old_records)[i] == (
                    old_records[i].start as int,
                    old_records[i].start + old_records[i].size,
                ));
            }
        }
        self.records.push(rec);
        Ok(RawPtr::new(addr))
    }

    /// The address of the header of the object at `object`: just before it.
    pub fn get_header(object: usize) -> (r: usize)
        requires
            object >= H::header_bytes(),
        ensures
            r == object - H::header_bytes(),
    {
        object - H::header_size()
    }

    /// The address of the object whose header is at `header`: just after it.
    pub fn get_object(header: usize) -> (r: usize)
        requires
            header + H::header_bytes() <= usize::MAX,
        ensures
            r == header + H::header_bytes(),
    {
        header + H::header_size()
    }

    /// The object at `addr`, if there is one.
    pub fn find_object(&self, addr: usize) -> (r: Option<&H::Object>)
        ensures
            match r {
                Some(o) => self.contents().contains_key(addr) && *o == self.contents()[addr],
                None => !self.contents().contains_key(addr),
            },
    {
        let header_size = H::header_size();
        let mut i = self.records.len();
        while i > 0
            invariant
                i <= self.records@.len(),
                header_size == H::header_bytes(),
                forall|j: int|
                    i <= j < self.records@.len() ==> !(addressable(#[trigger] self.records@[j])
                        && object_addr(self.records@[j]) == addr),
            decreases i,
        {
            i = i - 1;
            let start = self.records[i].start;
            if start <= usize::MAX - header_size && start + header_size == addr {
                proof {
                    lemma_objects_prefix(self.records@, i + 1, addr);
                    let t = self.records@.take(i + 1);
                    assert(t.drop_last() =~= self.records@.take(i as int));
                    assert(t.last() == self.records@[i as int]);
                }
                return Some(&self.records[i].object);
            }
        }
        proof {
            lemma_objects_prefix(self.records@, 0, addr);
            assert(self.records@.take(0) =~= Seq::<Record<H>>::empty());
        }
        None
    }
}

impl<H: AllocHeader> MutatorScope for StickyImmixHeap<H> {
    type Object = H::Object;

    open spec fn objects(&self) -> Map<usize, H::Object> {
        self.contents()
    }

    fn object_at(&self, addr: usize) -> (r: Option<&H::Object>) {
        self.find_object(addr)
    }
}

} // verus!
