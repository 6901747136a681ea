//! Blocks of the heap and the line marks that say which of their lines are
//! in use.
use vstd::prelude::*;
use vstd::arithmetic::power2::is_pow2;
use crate::values::tape::AllocError;
use crate::values::tape::constants::LINE_SIZE;

verus! {

pub type BlockSize = usize;

/// `n` is 2 to some power: halving it while it is even and above 1 ends
/// at 1.
fn is_power_of_two(n: usize) -> (r: bool)
    ensures
        r == is_pow2(n as int),
{
    let mut m = n;
    while m > 1 && m % 2 == 0
        invariant
            is_pow2(m as int) == is_pow2(n as int),
        decreases m,
    {
        proof {
            reveal(is_pow2);
        }
        m = m / 2;
    }
    proof {
        reveal(is_pow2);
    }
    m == 1
}

/// A block of the heap: `size` bytes of the address space, from `base` on.
#[derive(Clone, Copy)]
pub struct Block {
    base: usize,
    size: BlockSize,
}

impl Block {
    /// The address of the block's first byte.
    pub closed spec fn base(&self) -> usize {
        self.base
    }

    /// The block's size in bytes.
    pub closed spec fn size(&self) -> usize {
        self.size
    }

    /// A block of `size` bytes starting at the address `base`, which is
    /// aligned to its size. A size that is not a power of two is a bad
    /// request; a block at address 0, at an address not aligned to its size,
    /// or one that would run past the end of the address space, cannot be
    /// had.
    pub fn new(size: BlockSize, base: usize) -> (r: Result<Block, AllocError>)
        ensures
            !is_pow2(size as int) ==> r == Err::<Block, AllocError>(AllocError::BadRequest),
            is_pow2(size as int) && (base == 0 || base > usize::MAX - size || base % size != 0)
                ==> r == Err::<Block, AllocError>(AllocError::OOM),
            is_pow2(size as int) && base != 0 && base <= usize::MAX - size && base % size == 0
                ==> (r matches Ok(b) && b.base() == base && b.size() == size),
            r matches Ok(b) ==> b.base() % b.size() == 0 && b.base() != 0,
    {
        if !is_power_of_two(size) {
            return Err(AllocError::BadRequest);
        }
        proof {
            reveal(is_pow2);
        }
        if base == 0 || base > usize::MAX - size || base % size != 0 {
            return Err(AllocError::OOM);
        }
        Ok(Block { base, size })
    }

    /// The address of the block's first byte.
    pub fn as_ptr(&self) -> (r: usize)
        ensures
            r == self.base(),
    {
        self.base
    }
}

/// The line marks of a block, one byte per line: 0 for a free line.
#[derive(Clone)]
pub struct BlockMeta {
    lines: Vec<u8>,
}

/// Scanning the marks downwards from line `index - 1` for a hole: `count`
/// free lines have been seen since the last marked line, and the hole being
/// counted ends at line `end`. A hole of at least `required` lines is
/// returned as a pair of byte offsets `(cursor, limit)`; the line just
/// below a marked line is taken to be in use as well.
pub open spec fn hole_scan(lines: Seq<u8>, index: int, count: int, end: int, required: int) -> Option<
    (int, int),
>
    decreases index,
{
    if index <= 0 {
        None
    } else {
        let i = index - 1;
        if lines[i] == 0 {
            if i == 0 && count + 1 >= required {
                Some((end * LINE_SIZE, 0))
            } else {
                hole_scan(lines, i, count + 1, end, required)
            }
        } else if count > required {
            Some((end * LINE_SIZE, (i + 2) * LINE_SIZE))
        } else {
            hole_scan(lines, i, 0, i, required)
        }
    }
}

/// Like [`hole_scan`], for the size in bytes of the next hole of two or
/// more free lines (of any number at the bottom of the block).
pub open spec fn hole_size_scan(lines: Seq<u8>, index: int, count: int, end: int) -> Option<int>
    decreases index,
{
    if index <= 0 {
        None
    } else {
        let i = index - 1;
        if lines[i] == 0 {
            if i == 0 {
                Some(end * LINE_SIZE)
            } else {
                hole_size_scan(lines, i, count + 1, end)
            }
        } else if count > 1 {
            Some(end * LINE_SIZE - (i + 2) * LINE_SIZE)
        } else {
            hole_size_scan(lines, i, 0, i)
        }
    }
}

/// The number of lines that `size` bytes take up.
pub open spec fn lines_for(size: int) -> int {
    if size % LINE_SIZE as int == 0 {
        size / LINE_SIZE as int
    } else {
        size / LINE_SIZE as int + 1
    }
}

/// The lines from `lo` up to `hi` are all free.
pub open spec fn all_free(lines: Seq<u8>, lo: int, hi: int) -> bool {
    forall|k: int| lo <= k < hi ==> lines[k] == 0
}

/// A hole that the scan returns is free, lies below where the scan began,
/// and has room for the lines asked for.
pub proof fn lemma_hole_scan(lines: Seq<u8>, index: int, count: int, end: int, required: int)
    requires
        0 <= index <= end <= lines.len(),
        count == end - index,
        all_free(lines, index, end),
        required >= 0,
    ensures
        hole_scan(lines, index, count, end, required) matches Some((c, l)) ==> {
            &&& 0 <= l <= c <= end * LINE_SIZE
            &&& l % LINE_SIZE as int == 0
            &&& c % LINE_SIZE as int == 0
            &&& c - l >= required * LINE_SIZE
            &&& all_free(lines, l / LINE_SIZE as int, c / LINE_SIZE as int)
        },
    decreases index,
{
    if index > 0 {
        let i = index - 1;
        if lines[i] == 0 {
            if !(i == 0 && count + 1 >= required) {
                lemma_hole_scan(lines, i, count + 1, end, required);
            } else {
                assert((end * LINE_SIZE) / LINE_SIZE as int == end) by (nonlinear_arith);
                assert((end * LINE_SIZE) % LINE_SIZE as int == 0) by (nonlinear_arith);
                assert(end * LINE_SIZE >= required * LINE_SIZE) by (nonlinear_arith)
                    requires
                        end >= required,
                ;
            }
        } else if count > required {
            assert((end * LINE_SIZE) / LINE_SIZE as int == end) by (nonlinear_arith);
            assert(((i + 2) * LINE_SIZE) / LINE_SIZE as int == i + 2) by (nonlinear_arith);
            assert((end * LINE_SIZE) % LINE_SIZE as int == 0) by (nonlinear_arith);
            assert(((i + 2) * LINE_SIZE) % LINE_SIZE as int == 0) by (nonlinear_arith);
            assert(end * LINE_SIZE - (i + 2) * LINE_SIZE >= required * LINE_SIZE) by (nonlinear_arith)
                requires
                    end - (i + 2) >= required,
            ;
            assert((i + 2) * LINE_SIZE <= end * LINE_SIZE) by (nonlinear_arith)
                requires
                    i + 2 <= end,
            ;
        } else {
            lemma_hole_scan(lines, i, 0, i, required);
        }
    }
}

impl BlockMeta {
    /// The marks, line by line.
    pub closed spec fn marks(&self) -> Seq<u8> {
        self.lines@
    }

    /// Marks for a block, from the given bytes (one per line).
    pub fn new(lines: Vec<u8>) -> (r: BlockMeta)
        ensures
            r.marks() == lines@,
    {
        BlockMeta { lines }
    }

    /// Looks for a hole of free lines below the byte offset `starting_at`
    /// that has room for `alloc_size` bytes, scanning downwards; returns the
    /// hole's upper and lower byte offsets. A marked line ends a hole, and
    /// the free line just above it is taken to be in use as well.
    pub fn find_next_available_hole(&self, starting_at: usize, alloc_size: usize) -> (r: Option<
        (usize, usize),
    >)
        requires
            starting_at / LINE_SIZE <= self.marks().len(),
        ensures
            match r {
                Some((c, l)) => hole_scan(
                    self.marks(),
                    (starting_at / LINE_SIZE) as int,
                    0,
                    (starting_at / LINE_SIZE) as int,
                    lines_for(alloc_size as int),
                ) == Some((c as int, l as int)),
                None => hole_scan(
                    self.marks(),
                    (starting_at / LINE_SIZE) as int,
                    0,
                    (starting_at / LINE_SIZE) as int,
                    lines_for(alloc_size as int),
                ) is None,
            },
            r matches Some((c, l)) ==> {
                &&& l <= c <= starting_at
                &&& l % LINE_SIZE == 0
                &&& c % LINE_SIZE == 0
                &&& c - l >= alloc_size
                &&& all_free(self.marks(), (l / LINE_SIZE) as int, (c / LINE_SIZE) as int)
            },
    {
        let starting_line = starting_at / LINE_SIZE;
        let lines_required = if alloc_size % LINE_SIZE == 0 {
            alloc_size / LINE_SIZE
        } else {
            alloc_size / LINE_SIZE + 1
        };
        let ghost target = hole_scan(
            self.lines@,
            starting_line as int,
            0,
            starting_line as int,
            lines_required as int,
        );
        proof {
            lemma_hole_scan(
                self.lines@,
                starting_line as int,
                0,
                starting_line as int,
                lines_required as int,
            );
            assert(lines_required == lines_for(alloc_size as int));
            assert(starting_line * LINE_SIZE <= starting_at) by (nonlinear_arith)
                requires
                    starting_line == starting_at / LINE_SIZE,
            ;
            assert(lines_required * LINE_SIZE >= alloc_size) by (nonlinear_arith)
                requires
                    lines_required == lines_for(alloc_size as int),
            ;
        }
        let mut count: usize = 0;
        let mut end: usize = starting_line;
        let mut index: usize = starting_line;
        while index > 0
            invariant
                index <= end <= starting_line <= self.lines@.len(),
                starting_line * LINE_SIZE <= starting_at,
                starting_line == starting_at / LINE_SIZE,
                count == end - index,
                all_free(self.lines@, index as int, end as int),
                lines_required * LINE_SIZE >= alloc_size,
                lines_required == lines_for(alloc_size as int),
                target == hole_scan(
                    self.lines@,
                    starting_line as int,
                    0,
                    starting_line as int,
                    lines_required as int,
                ),
                target == hole_scan(
                    self.lines@,
                    index as int,
                    count as int,
                    end as int,
                    lines_required as int,
                ),
            decreases index,
        {
            let i = index - 1;
            if self.lines[i] == 0 {
                count = count + 1;
                if i == 0 && count >= lines_required {
                    proof {
                        assert(end * LINE_SIZE <= starting_line * LINE_SIZE) by (nonlinear_arith)
                            requires
                                end <= starting_line,
                        ;
                    }
                    let limit: usize = 0;
                    let cursor: usize = end * LINE_SIZE;
                    return Some((cursor, limit));
                }
            } else {
                if count > lines_required {
                    proof {
                        assert(end * LINE_SIZE <= starting_line * LINE_SIZE) by (nonlinear_arith)
                            requires
                                end <= starting_line,
                        ;
                        assert((i + 2) * LINE_SIZE <= end * LINE_SIZE) by (nonlinear_arith)
                            requires
                                i + 2 <= end,
                        ;
                    }
                    let limit: usize = (i + 2) * LINE_SIZE;
                    let cursor: usize = end * LINE_SIZE;
                    return Some((cursor, limit));
                }
                count = 0;
                end = i;
            }
            index = i;
        }
        None
    }

    /// The size in bytes of the next hole below the byte offset
    /// `starting_at`, scanning downwards as
    /// [`BlockMeta::find_next_available_hole`] does, for a hole of two or
    /// more free lines, or of any number of free lines at the bottom.
    pub fn find_next_hole_size(&self, starting_at: usize) -> (r: Option<usize>)
        requires
            starting_at / LINE_SIZE <= self.marks().len(),
        ensures
            match r {
                Some(n) => hole_size_scan(
                    self.marks(),
                    (starting_at / LINE_SIZE) as int,
                    0,
                    (starting_at / LINE_SIZE) as int,
                ) == Some(n as int),
                None => hole_size_scan(
                    self.marks(),
                    (starting_at / LINE_SIZE) as int,
                    0,
                    (starting_at / LINE_SIZE) as int,
                ) is None,
            },
    {
        let starting_line = starting_at / LINE_SIZE;
        proof {
            assert(starting_line * LINE_SIZE <= starting_at) by (nonlinear_arith)
                requires
                    starting_line == starting_at / LINE_SIZE,
            ;
        }
        let mut count: usize = 0;
        let mut end: usize = starting_line;
        let mut index: usize = starting_line;
        while index > 0
            invariant
                index <= end <= starting_line <= self.lines@.len(),
                starting_line * LINE_SIZE <= starting_at,
                starting_line == starting_at / LINE_SIZE,
                count == end - index,
                hole_size_scan(
                    self.lines@,
                    starting_line as int,
                    0,
                    starting_line as int,
                ) == hole_size_scan(self.lines@, index as int, count as int, end as int),
            decreases index,
        {
            let i = index - 1;
            proof {
                assert(end * LINE_SIZE <= starting_line * LINE_SIZE) by (nonlinear_arith)
                    requires
                        end <= starting_line,
                ;
            }
            if self.lines[i] == 0 {
                count = count + 1;
                if i == 0 {
                    let cursor: usize = end * LINE_SIZE;
                    return Some(cursor - 0);
                }
            } else {
                if count > 1 {
                    proof {
                        assert((i + 2) * LINE_SIZE <= end * LINE_SIZE) by (nonlinear_arith)
                            requires
                                i + 2 <= end,
                        ;
                    }
                    let limit: usize = (i + 2) * LINE_SIZE;
                    let cursor: usize = end * LINE_SIZE;
                    return Some(cursor - limit);
                }
                count = 0;
                end = i;
            }
            index = i;
        }
        None
    }
}

} // verus!
