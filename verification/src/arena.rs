use vstd::prelude::*;
use crate::AllocError;
use crate::round_address;
use crate::round_up_spec;

verus! {

/// A monotonic arena strategy: a single cursor advances through the backing
/// range, and space is reclaimed only when the outstanding-allocation counter
/// returns to zero, at which point the cursor resets to the start.
pub struct ArenaAllocator {
    pub space_start: usize,
    pub space_end: usize,
    pub next: usize,
    pub allocations: usize,
}

impl ArenaAllocator {
    pub open spec fn wf(&self) -> bool {
        self.space_start <= self.next <= self.space_end
    }

    pub fn new() -> (r: ArenaAllocator)
        ensures
            r.space_start == 0,
            r.space_end == 0,
            r.next == 0,
            r.allocations == 0,
            r.wf(),
    {
        let space_start: usize = 0;
        let space_end: usize = 0;
        let next: usize = 0;
        let allocations: usize = 0;
        ArenaAllocator { space_start, space_end, next, allocations }
    }

    /// Installs the caller-supplied backing range; the cursor starts at its
    /// lower end.
    pub fn initialize(&mut self, space_start: usize, space_end: usize)
        requires
            space_start <= space_end,
        ensures
            final(self).space_start == space_start,
            final(self).space_end == space_end,
            final(self).next == space_start,
            final(self).allocations == old(self).allocations,
            final(self).wf(),
    {
        self.space_start = space_start;
        self.space_end = space_end;
        self.next = space_start;
    }

    /// Serves a request from the cursor: the returned span starts at the
    /// cursor rounded up to `align` and the cursor advances past it.
    pub fn allocate(&mut self, size: usize, align: usize) -> (r: Result<usize, AllocError>)
        requires
            old(self).wf(),
            align >= 1,
            old(self).allocations < usize::MAX,
        ensures
            final(self).wf(),
            final(self).space_start == old(self).space_start,
            final(self).space_end == old(self).space_end,
            ({
                let s = round_up_spec(old(self).next as int, align as int);
                &&& (r matches Ok(a) ==> {
                    &&& a == s
                    &&& old(self).space_start <= a
                    &&& a + size <= old(self).space_end
                    &&& final(self).next == s + size
                    &&& final(self).allocations == old(self).allocations + 1
                })
                &&& (r is Err ==> *final(self) == *old(self))
                &&& (r == Err::<usize, AllocError>(AllocError::Overflow) <==> s + size
                    > usize::MAX)
                &&& (r == Err::<usize, AllocError>(AllocError::OutOfMemory) <==> (s + size
                    <= usize::MAX && s + size > old(self).space_end))
                &&& (r is Ok <==> s + size <= old(self).space_end)
            }),
    {
        proof {
            crate::lemma_round_up_bounds(self.next as int, align as int);
        }
        let rem = self.next % align;
        if rem != 0 && align - rem > usize::MAX - self.next {
            return Err(AllocError::Overflow);
        }
        let space_start = round_address(self.next, align);
        if size > usize::MAX - space_start {
            return Err(AllocError::Overflow);
        }
        let space_end = space_start + size;
        if space_end > self.space_end {
            Err(AllocError::OutOfMemory)
        } else {
            self.next = space_end;
            self.allocations = self.allocations + 1;
            Ok(space_start)
        }
    }

    /// Records the return of one allocation; when none remain outstanding the
    /// whole range is reclaimed by resetting the cursor.
    pub fn deallocate(&mut self)
        requires
            old(self).wf(),
            old(self).allocations >= 1,
        ensures
            final(self).wf(),
            final(self).space_start == old(self).space_start,
            final(self).space_end == old(self).space_end,
            final(self).allocations == old(self).allocations - 1,
            final(self).allocations == 0 ==> final(self).next == final(self).space_start,
            final(self).allocations >= 1 ==> final(self).next == old(self).next,
    {
        self.allocations = self.allocations - 1;
        if self.allocations == 0 {
            self.next = self.space_start;
        }
    }
}

} // verus!
