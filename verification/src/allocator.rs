//! The early bump allocator: one memory range handed out from both ends,
//! bytes growing forward from the start and pages growing backward from the
//! end, with nothing reclaimed until the whole range is.
//!
//! The allocator itself only does address arithmetic: it hands out
//! positions within the range it was initialised with. Turning a position
//! into a pointer into a real pool is left to the unverified rim.
use vstd::prelude::*;

verus! {

/// The errors allocation can report.
#[derive(Clone, Copy, Debug, PartialEq, Eq, Structural)]
pub enum AllocError {
    /// An argument of the request makes no sense for this allocator.
    InvalidParam,
    /// The added region overlaps one already managed.
    MemoryOverlap,
    /// The range cannot fit the request.
    NoMemory,
    /// The freed region was never handed out.
    NotAllocated,
}

/// The least multiple of `align` at or above `pos`.
pub open spec fn spec_align_up(pos: int, align: int) -> int {
    if pos % align == 0 {
        pos
    } else {
        pos + align - pos % align
    }
}

/// The greatest multiple of `align` at or below `pos`.
pub open spec fn spec_align_down(pos: int, align: int) -> int {
    pos - pos % align
}

/// The early allocator over one address range:
///
/// ```text
/// [ bytes-used | avail-area | pages-used ]
/// |            | -->    <-- |            |
/// start       b_pos        p_pos       end
/// ```
///
/// Bytes are allocated forward at `b_pos`, pages backward at `p_pos`; the
/// two meet in the middle and nothing in between is ever reused.
pub struct EarlyAllocator<const PAGE_SIZE: usize> {
    pub start: usize,
    pub end: usize,
    pub b_pos: usize,
    pub p_pos: usize,
    pub used_bytes: usize,
    pub used_pages: usize,
    pub inited: bool,
}

impl<const PAGE_SIZE: usize> EarlyAllocator<PAGE_SIZE> {
    /// The two cursors stay inside the range, in order.
    pub open spec fn wf(&self) -> bool {
        &&& self.inited ==> self.start <= self.b_pos <= self.p_pos <= self.end
        &&& self.inited ==> self.used_bytes <= self.b_pos - self.start
        &&& !self.inited ==> self.start == 0 && self.end == 0 && self.b_pos == 0 && self.p_pos
            == 0 && self.used_bytes == 0
    }

    /// An allocator that manages nothing yet.
    pub fn new() -> (r: EarlyAllocator<PAGE_SIZE>)
        ensures
            r.wf(),
            !r.inited,
            r.used_bytes == 0,
            r.used_pages == 0,
    {
        EarlyAllocator {
            start: 0,
            end: 0,
            b_pos: 0,
            p_pos: 0,
            used_bytes: 0,
            used_pages: 0,
            inited: false,
        }
    }

    /// Hands the allocator its range and resets both cursors.
    pub fn init(&mut self, start: usize, size: usize)
        requires
            start + size <= usize::MAX,
        ensures
            final(self).wf(),
            final(self).inited,
            final(self).start == start,
            final(self).end == start + size,
            final(self).b_pos == start,
            final(self).p_pos == start + size,
            final(self).used_bytes == 0,
            final(self).used_pages == 0,
    {
        self.start = start;
        self.end = start + size;
        self.b_pos = start;
        self.p_pos = start + size;
        self.used_bytes = 0;
        self.used_pages = 0;
        self.inited = true;
    }

    /// A bump allocator manages one fixed range; more memory is refused.
    pub fn add_memory(&mut self, _start: usize, _size: usize) -> (r: Result<(), AllocError>)
        ensures
            *final(self) == *old(self),
            r == Err::<(), AllocError>(AllocError::InvalidParam),
    {
        Err(AllocError::InvalidParam)
    }

    /// Allocates `size` bytes at alignment `align`, forward from `b_pos`:
    /// the result is `b_pos` rounded up to the alignment, and the cursor
    /// moves past the block. Fails when the allocator is uninitialised or
    /// the aligned block would cross `p_pos`.
    pub fn alloc_bytes(&mut self, size: usize, align: usize) -> (r: Result<usize, AllocError>)
        requires
            old(self).wf(),
            align >= 1,
        ensures
            final(self).wf(),
            ({
                let pos = spec_align_up(old(self).b_pos as int, align as int);
                if !old(self).inited || pos + size > old(self).p_pos {
                    r == Err::<usize, AllocError>(AllocError::NoMemory) && *final(self) == *old(
                        self,
                    )
                } else {
                    &&& r == Ok::<usize, AllocError>(pos as usize)
                    &&& final(self).b_pos == pos + size
                    &&& final(self).used_bytes == old(self).used_bytes + size
                    &&& *final(self) == (EarlyAllocator::<PAGE_SIZE> {
                        b_pos: (pos + size) as usize,
                        used_bytes: (old(self).used_bytes + size) as usize,
                        ..*old(self)
                    })
                }
            }),
    {
        if !self.inited {
            return Err(AllocError::NoMemory);
        }
        let rem = self.b_pos % align;
        let pos = if rem == 0 {
            self.b_pos
        } else {
            match self.b_pos.checked_add(align - rem) {
                Some(p) => p,
                None => {
                    proof {
                        assert(spec_align_up(self.b_pos as int, align as int) + size
                            > self.p_pos);
                    }
                    return Err(AllocError::NoMemory);
                },
            }
        };
        let new_b_pos = match pos.checked_add(size) {
            Some(p) => p,
            None => {
                return Err(AllocError::NoMemory);
            },
        };
        if new_b_pos > self.p_pos {
            return Err(AllocError::NoMemory);
        }
        proof {
            vstd::arithmetic::div_mod::lemma_mod_bound(old(self).b_pos as int, align as int);
        }
        let new_used = match self.used_bytes.checked_add(size) {
            Some(u) => u,
            None => {
                proof {
                    assert(false);
                }
                return Err(AllocError::NoMemory);
            },
        };
        self.b_pos = new_b_pos;
        self.used_bytes = new_used;
        Ok(pos)
    }

    /// Returns `size` bytes to the accounting; the area itself is not
    /// reusable until the whole range is dropped.
    pub fn dealloc(&mut self, _pos: usize, size: usize)
        requires
            old(self).wf(),
        ensures
            final(self).wf(),
            *final(self) == (EarlyAllocator::<PAGE_SIZE> {
                used_bytes: if old(self).used_bytes >= size {
                    (old(self).used_bytes - size) as usize
                } else {
                    0
                },
                ..*old(self)
            }),
    {
        self.used_bytes = self.used_bytes.saturating_sub(size);
    }

    /// The whole range, in bytes.
    pub fn total_bytes(&self) -> (r: usize)
        requires
            self.wf(),
        ensures
            r == self.end - self.start,
    {
        self.end - self.start
    }

    /// The bytes currently accounted as allocated.
    pub fn used_bytes(&self) -> (r: usize)
        ensures
            r == self.used_bytes,
    {
        self.used_bytes
    }

    /// The bytes left between the two cursors.
    pub fn available_bytes(&self) -> (r: usize)
        requires
            self.wf(),
        ensures
            r == self.p_pos - self.b_pos,
    {
        self.p_pos - self.b_pos
    }

    /// Allocates `num_pages` pages backward from `p_pos`: the cursor moves
    /// down by the pages' size, is rounded down to the requested page
    /// alignment, and its new value is the result. Fails when the allocator
    /// is uninitialised or the pages would cross `b_pos`.
    pub fn alloc_pages(&mut self, num_pages: usize, align_pow2: usize) -> (r: Result<
        usize,
        AllocError,
    >)
        requires
            old(self).wf(),
            PAGE_SIZE >= 1,
            align_pow2 >= 1,
            align_pow2 * PAGE_SIZE <= usize::MAX,
        ensures
            final(self).wf(),
            ({
                let size = num_pages * PAGE_SIZE;
                let down = spec_align_down(
                    old(self).p_pos - size,
                    (align_pow2 * PAGE_SIZE) as int,
                );
                if !old(self).inited || size > old(self).p_pos || down < old(self).b_pos {
                    r == Err::<usize, AllocError>(AllocError::NoMemory) && *final(self) == *old(
                        self,
                    )
                } else {
                    &&& r == Ok::<usize, AllocError>(down as usize)
                    &&& *final(self) == (EarlyAllocator::<PAGE_SIZE> {
                        p_pos: down as usize,
                        used_pages: if old(self).used_pages + num_pages <= usize::MAX {
                            (old(self).used_pages + num_pages) as usize
                        } else {
                            old(self).used_pages
                        },
                        ..*old(self)
                    })
                }
            }),
    {
        if !self.inited {
            return Err(AllocError::NoMemory);
        }
        let size = match num_pages.checked_mul(PAGE_SIZE) {
            Some(s) => s,
            None => {
                proof {
                    assert(num_pages * PAGE_SIZE > self.p_pos);
                }
                return Err(AllocError::NoMemory);
            },
        };
        let new_p_pos = match self.p_pos.checked_sub(size) {
            Some(p) => p,
            None => {
                return Err(AllocError::NoMemory);
            },
        };
        proof {
            assert(align_pow2 * PAGE_SIZE >= 1) by (nonlinear_arith)
                requires
                    align_pow2 >= 1,
                    PAGE_SIZE >= 1,
            ;
        }
        let align = align_pow2 * PAGE_SIZE;
        proof {
            vstd::arithmetic::div_mod::lemma_mod_bound(new_p_pos as int, align as int);
            assert(new_p_pos % align <= new_p_pos) by (nonlinear_arith)
                requires
                    align >= 1,
                    new_p_pos >= 0,
            ;
        }
        let down = new_p_pos - (new_p_pos % align);
        if down < self.b_pos {
            return Err(AllocError::NoMemory);
        }
        let new_used = match self.used_pages.checked_add(num_pages) {
            Some(u) => u,
            None => self.used_pages,
        };
        self.p_pos = down;
        self.used_pages = new_used;
        Ok(down)
    }

    /// Returns pages to the accounting; the area itself is never reused.
    pub fn dealloc_pages(&mut self, _pos: usize, num_pages: usize)
        ensures
            *final(self) == (EarlyAllocator::<PAGE_SIZE> {
                used_pages: if old(self).used_pages >= num_pages {
                    (old(self).used_pages - num_pages) as usize
                } else {
                    0
                },
                ..*old(self)
            }),
    {
        self.used_pages = self.used_pages.saturating_sub(num_pages);
    }

    /// The whole range, in pages.
    pub fn total_pages(&self) -> (r: usize)
        requires
            self.wf(),
            PAGE_SIZE >= 1,
        ensures
            r == (self.end - self.start) / PAGE_SIZE as int,
    {
        (self.end - self.start) / PAGE_SIZE
    }

    /// The pages currently accounted as allocated.
    pub fn used_pages(&self) -> (r: usize)
        ensures
            r == self.used_pages,
    {
        self.used_pages
    }

    /// The pages left between the two cursors.
    pub fn available_pages(&self) -> (r: usize)
        requires
            self.wf(),
            PAGE_SIZE >= 1,
        ensures
            r == (self.p_pos - self.b_pos) / PAGE_SIZE as int,
    {
        (self.p_pos - self.b_pos) / PAGE_SIZE
    }
}

} // verus!
