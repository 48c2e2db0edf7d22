//! A simple bump allocator: a cursor walks forward through one region and
//! only rewinds when every allocation has been returned.

use crate::memory::freelist_alloc::{lemma_round_up_from_rem, lemma_round_up_props, spec_round_up};
use vstd::prelude::*;

verus! {

/// A bump allocator over the region `[start_addr, start_addr + len)`.
pub struct BumpAlloc {
    start_addr: usize,
    len: usize,
    cursor: usize,
    alloc_count: usize,
}

impl BumpAlloc {
    pub closed spec fn spec_start(self) -> usize {
        self.start_addr
    }

    pub closed spec fn spec_len(self) -> usize {
        self.len
    }

    pub closed spec fn spec_cursor(self) -> usize {
        self.cursor
    }

    pub closed spec fn spec_alloc_count(self) -> usize {
        self.alloc_count
    }

    pub open spec fn wf(self) -> bool {
        &&& self.spec_start() >= 1
        &&& self.spec_cursor() <= self.spec_len()
        &&& self.spec_alloc_count() <= self.spec_cursor()
        &&& self.spec_start() + self.spec_len() <= usize::MAX
    }

    /// A bump allocator with no backing memory: every allocation fails.
    pub fn empty() -> (a: BumpAlloc)
        ensures
            a.wf(),
            a.spec_len() == 0,
            a.spec_cursor() == 0,
            a.spec_alloc_count() == 0,
    {
        BumpAlloc { start_addr: 1, len: 0, cursor: 0, alloc_count: 0 }
    }

    /// Adopt the region `[start_addr, start_addr + len)` as backing memory.
    pub fn init(start_addr: usize, len: usize) -> (a: BumpAlloc)
        requires
            start_addr >= 1,
            start_addr + len <= usize::MAX,
        ensures
            a.wf(),
            a.spec_start() == start_addr,
            a.spec_len() == len,
            a.spec_cursor() == 0,
            a.spec_alloc_count() == 0,
    {
        BumpAlloc { start_addr, len, cursor: 0, alloc_count: 0 }
    }

    /// Carve `size` bytes off the front of the unused part of the region:
    /// the allocation begins at the cursor rounded up to `align`, and
    /// succeeds exactly when that rounded offset plus `size` still fits in
    /// the region. Zero-sized requests succeed with a dangling non-null
    /// address and do not move the cursor.
    pub fn allocate(&mut self, size: usize, align: usize) -> (r: Option<usize>)
        requires
            old(self).wf(),
            align >= 1,
        ensures
            final(self).wf(),
            final(self).spec_start() == old(self).spec_start(),
            final(self).spec_len() == old(self).spec_len(),
            size == 0 ==> r == Some(align) && *final(self) == *old(self),
            size > 0 && spec_round_up(old(self).spec_cursor() as int, align as int) + size <= old(
                self,
            ).spec_len() ==> {
                let a = spec_round_up(old(self).spec_cursor() as int, align as int);
                &&& r == Some((old(self).spec_start() + a) as usize)
                &&& final(self).spec_cursor() == a + size
                &&& final(self).spec_alloc_count() == old(self).spec_alloc_count() + 1
            },
            size > 0 && spec_round_up(old(self).spec_cursor() as int, align as int) + size > old(
                self,
            ).spec_len() ==> r is None && *final(self) == *old(self),
    {
        if size == 0 {
            // A zero-sized allocation gets a dangling non-null address and
            // touches nothing.
            return Some(align);
        }
        proof {
            lemma_round_up_props(self.cursor as int, align as int);
        }
        let rem: usize = self.cursor % align;
        let aligned_cursor: usize = if rem == 0 {
            self.cursor
        } else {
            proof {
                lemma_round_up_from_rem(self.cursor as int, align as int);
            }
            match self.cursor.checked_add(align - rem) {
                Some(c) => c,
                None => {
                    // The rounded cursor overflows `usize`, so it cannot
                    // fit below `len` either.
                    return None;
                },
            }
        };
        proof {
            assert(aligned_cursor == spec_round_up(self.cursor as int, align as int));
        }
        let end: usize = match aligned_cursor.checked_add(size) {
            Some(e) => e,
            None => {
                return None;
            },
        };
        if end > self.len {
            return None;
        }
        self.cursor = end;
        self.alloc_count = self.alloc_count + 1;
        Some(self.start_addr + aligned_cursor)
    }

    /// Return one allocation; when the last outstanding allocation is
    /// returned the cursor rewinds to the start of the region.
    pub fn dealloc(&mut self)
        requires
            old(self).wf(),
            old(self).spec_alloc_count() >= 1,
        ensures
            final(self).wf(),
            final(self).spec_start() == old(self).spec_start(),
            final(self).spec_len() == old(self).spec_len(),
            final(self).spec_alloc_count() == old(self).spec_alloc_count() - 1,
            final(self).spec_alloc_count() == 0 ==> final(self).spec_cursor() == 0,
            final(self).spec_alloc_count() > 0 ==> final(self).spec_cursor() == old(self).spec_cursor(),
    {
        self.alloc_count = self.alloc_count - 1;
        if self.alloc_count == 0 {
            self.cursor = 0;
        }
    }
}

} // verus!
