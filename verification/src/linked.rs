use vstd::prelude::*;
use crate::AllocError;
use crate::round_up_spec;
use crate::lemma_round_up_bounds;
use crate::lemma_round_up_least;

verus! {

/// Size in bytes of the bookkeeping record a free region must be able to
/// hold (a forward link and a size field); no region smaller than this is
/// ever kept on the free list, so every free region stays individually
/// reusable.
pub const METADATA_SIZE: usize = 16;

/// Natural alignment of the bookkeeping record.
pub const METADATA_ALIGN: usize = 8;

/// Bookkeeping for one free region: its start address and its size in bytes.
///
/// The free list is an explicit index of `(start, size)` entries rather than
/// headers written into the freed memory itself, so no byte of the managed
/// range is ever reinterpreted as a typed structure.
pub struct Metadata {
    pub space_start: usize,
    pub size: usize,
}

impl Metadata {
    /// One-past-the-end address of the region.
    pub open spec fn end_spec(&self) -> int {
        self.space_start + self.size
    }

    /// A region is valid when it can hold its own bookkeeping record and
    /// stays inside the addressable range.
    pub open spec fn wf(&self) -> bool {
        &&& self.size >= METADATA_SIZE
        &&& self.space_start + self.size <= usize::MAX
    }

    pub fn new(space_start: usize, size: usize) -> (r: Metadata)
        ensures
            r.space_start == space_start,
            r.size == size,
    {
        Metadata { space_start, size }
    }

    pub fn space_start(&self) -> (r: usize)
        ensures
            r == self.space_start,
    {
        self.space_start
    }

    pub fn space_end(&self) -> (r: usize)
        requires
            self.space_start + self.size <= usize::MAX,
        ensures
            r == self.end_spec(),
    {
        self.space_start + self.size
    }
}

/// First-fit free-list allocator: free regions are kept in free order (most
/// recently freed first), allocation scans from the front and takes the first
/// region that qualifies, and deallocation coalesces the freed span with any
/// address-adjacent free region.
pub struct LinkAllocator {
    pub regions: Vec<Metadata>,
}

impl LinkAllocator {
    /// A span `[lo, hi)` is separated from region `r` when the two byte
    /// ranges neither overlap nor touch.
    pub open spec fn separated_from(lo: int, hi: int, r: Metadata) -> bool {
        hi < r.space_start || r.end_spec() < lo
    }

    /// Two regions are separated when their byte ranges neither overlap nor
    /// touch; keeping every pair separated is exactly the guarantee that all
    /// possible coalescing has been performed.
    pub open spec fn separated(a: Metadata, b: Metadata) -> bool {
        Self::separated_from(a.space_start as int, a.end_spec(), b)
    }

    pub open spec fn wf(&self) -> bool {
        &&& forall|i: int|
            0 <= i < self.regions@.len() ==> (#[trigger] self.regions@[i]).wf()
        &&& forall|i: int, j: int|
            0 <= i < self.regions@.len() && 0 <= j < self.regions@.len() && i != j
                ==> Self::separated(self.regions@[i], self.regions@[j])
    }

    /// Whether byte address `a` is free, i.e. covered by some free region.
    pub open spec fn is_free(&self, a: int) -> bool {
        exists|i: int|
            0 <= i < self.regions@.len() && (#[trigger] self.regions@[i]).space_start <= a
                < self.regions@[i].end_spec()
    }

    /// The request size after normalization: padded to a multiple of the
    /// effective alignment and to at least the bookkeeping size, so a size of
    /// zero becomes the minimum granularity.
    pub open spec fn norm_size(size: int, align: int) -> int {
        let a2 = Self::norm_align(align);
        let p = round_up_spec(size, a2);
        if p < METADATA_SIZE {
            METADATA_SIZE as int
        } else {
            p
        }
    }

    /// The effective alignment: at least the bookkeeping record's alignment.
    pub open spec fn norm_align(align: int) -> int {
        if align < METADATA_ALIGN {
            METADATA_ALIGN as int
        } else {
            align
        }
    }

    /// Whether region `r` can serve an allocation of `size` bytes aligned to
    /// `align`: the aligned span fits inside `r` and the tail leftover is
    /// either zero or large enough to remain an individually reusable region.
    pub open spec fn fits(r: Metadata, size: int, align: int) -> bool {
        let s = round_up_spec(r.space_start as int, align);
        &&& s + size <= r.end_spec()
        &&& (r.end_spec() - (s + size) == 0 || r.end_spec() - (s + size) >= METADATA_SIZE)
    }

    pub fn new() -> (r: LinkAllocator)
        ensures
            r.regions@.len() == 0,
            r.wf(),
    {
        LinkAllocator { regions: Vec::new() }
    }

    /// Checks whether `region` can serve the request and, if so, at which
    /// address; rejects it otherwise. A region is rejected when the aligned
    /// span does not fit or when accepting it would strand a tail leftover
    /// too small to be a free region of its own.
    pub fn alloc_to(region: &Metadata, size: usize, align: usize) -> (r: Result<usize, ()>)
        requires
            align >= 1,
            region.space_start + region.size <= usize::MAX,
        ensures
            match r {
                Ok(s) => {
                    &&& s == round_up_spec(region.space_start as int, align as int)
                    &&& Self::fits(*region, size as int, align as int)
                },
                Err(()) => !Self::fits(*region, size as int, align as int),
            },
    {
        proof {
            lemma_round_up_bounds(region.space_start as int, align as int);
        }
        let start = region.space_start;
        let region_end = region.space_start + region.size;
        let rem = start % align;
        let s: usize = if rem == 0 {
            start
        } else {
            let pad = align - rem;
            if pad > region_end - start {
                // the aligned start already lies past the region's end
                return Err(());
            }
            start + pad
        };
        if size > region_end - s {
            return Err(());
        }
        let space_end = s + size;
        let residual = region_end - space_end;
        if residual > 0 && residual < METADATA_SIZE {
            return Err(());
        }
        Ok(s)
    }

    /// Pads the requested size to the effective alignment and to at least the
    /// bookkeeping size, and returns it with the effective alignment.
    pub fn size_align(size: usize, align: usize) -> (r: (usize, usize))
        requires
            align >= 1,
            Self::norm_size(size as int, align as int) <= usize::MAX,
        ensures
            r.0 == Self::norm_size(size as int, align as int),
            r.1 == Self::norm_align(align as int),
            r.0 >= METADATA_SIZE,
            r.1 >= METADATA_ALIGN,
    {
        let a2: usize = if align < METADATA_ALIGN {
            METADATA_ALIGN
        } else {
            align
        };
        proof {
            lemma_round_up_bounds(size as int, a2 as int);
        }
        let padded = crate::round_address(size, a2);
        let n: usize = if padded < METADATA_SIZE {
            METADATA_SIZE
        } else {
            padded
        };
        (n, a2)
    }

    /// What holds when `search` removes the first qualifying region: `m` was
    /// entry `i` of the list, no earlier entry qualified, and the list lost
    /// exactly that entry.
    pub open spec fn search_found(
        pre: LinkAllocator,
        post: LinkAllocator,
        m: Metadata,
        i: int,
        size: int,
        align: int,
    ) -> bool {
        &&& 0 <= i < pre.regions@.len()
        &&& pre.regions@[i] == m
        &&& Self::fits(m, size, align)
        &&& forall|j: int| 0 <= j < i ==> !Self::fits(#[trigger] pre.regions@[j], size, align)
        &&& post.regions@ == pre.regions@.remove(i)
    }

    /// Removing entry `k` from a well-formed list frees up nothing and takes
    /// away exactly that region's bytes.
    proof fn lemma_remove_effect(pre: LinkAllocator, post: LinkAllocator, k: int)
        requires
            pre.wf(),
            0 <= k < pre.regions@.len(),
            post.regions@ == pre.regions@.remove(k),
        ensures
            post.wf(),
            forall|b: int|
                post.is_free(b) <==> (pre.is_free(b) && !(pre.regions@[k].space_start <= b
                    < pre.regions@[k].end_spec())),
    {
        pre.regions@.remove_ensures(k);
        assert forall|i: int| 0 <= i < post.regions@.len() implies (#[trigger] post.regions@[i]).wf() by {
            if i < k {
                assert(post.regions@[i] == pre.regions@[i]);
            } else {
                assert(post.regions@[i] == pre.regions@[i + 1]);
            }
        }
        assert forall|i: int, j: int|
            0 <= i < post.regions@.len() && 0 <= j < post.regions@.len() && i != j implies Self::separated(
            post.regions@[i],
            post.regions@[j],
        ) by {
            let i0 = if i < k { i } else { i + 1 };
            let j0 = if j < k { j } else { j + 1 };
            assert(post.regions@[i] == pre.regions@[i0]);
            assert(post.regions@[j] == pre.regions@[j0]);
            assert(Self::separated(pre.regions@[i0], pre.regions@[j0]));
        }
        assert forall|b: int| post.is_free(b) implies (pre.is_free(b) && !(pre.regions@[k].space_start
            <= b < pre.regions@[k].end_spec())) by {
            let i = choose|i: int|
                0 <= i < post.regions@.len() && (#[trigger] post.regions@[i]).space_start <= b
                    < post.regions@[i].end_spec();
            let i0 = if i < k { i } else { i + 1 };
            assert(post.regions@[i] == pre.regions@[i0]);
            assert(pre.regions@[i0].space_start <= b < pre.regions@[i0].end_spec());
            assert(pre.is_free(b));
            assert(Self::separated(pre.regions@[i0], pre.regions@[k]));
        }
        assert forall|b: int|
            (pre.is_free(b) && !(pre.regions@[k].space_start <= b < pre.regions@[k].end_spec()))
            implies post.is_free(b) by {
            let i0 = choose|i0: int|
                0 <= i0 < pre.regions@.len() && (#[trigger] pre.regions@[i0]).space_start <= b
                    < pre.regions@[i0].end_spec();
            let i = if i0 < k { i0 } else { i0 - 1 };
            assert(i0 != k);
            assert(post.regions@[i] == pre.regions@[i0]);
            assert(post.regions@[i].space_start <= b < post.regions@[i].end_spec());
        }
    }

    /// Inserting a separated region at the head keeps the list well formed
    /// and adds exactly that region's bytes to the free ones.
    proof fn lemma_insert_head_effect(pre: LinkAllocator, post: LinkAllocator, m: Metadata)
        requires
            pre.wf(),
            m.wf(),
            forall|j: int|
                0 <= j < pre.regions@.len() ==> Self::separated(m, #[trigger] pre.regions@[j]),
            post.regions@ == pre.regions@.insert(0, m),
        ensures
            post.wf(),
            forall|b: int|
                post.is_free(b) <==> (pre.is_free(b) || m.space_start <= b < m.end_spec()),
    {
        pre.regions@.insert_ensures(0, m);
        assert(post.regions@[0] == m);
        assert forall|i: int| 0 <= i < post.regions@.len() implies (#[trigger] post.regions@[i]).wf() by {
            if i >= 1 {
                assert(post.regions@[i] == pre.regions@[i - 1]);
            }
        }
        assert forall|i: int, j: int|
            0 <= i < post.regions@.len() && 0 <= j < post.regions@.len() && i != j implies Self::separated(
            post.regions@[i],
            post.regions@[j],
        ) by {
            if i >= 1 {
                assert(post.regions@[i] == pre.regions@[i - 1]);
            }
            if j >= 1 {
                assert(post.regions@[j] == pre.regions@[j - 1]);
            }
        }
        assert forall|b: int| post.is_free(b) implies (pre.is_free(b) || m.space_start <= b
            < m.end_spec()) by {
            let i = choose|i: int|
                0 <= i < post.regions@.len() && (#[trigger] post.regions@[i]).space_start <= b
                    < post.regions@[i].end_spec();
            if i >= 1 {
                assert(post.regions@[i] == pre.regions@[i - 1]);
                assert(pre.is_free(b));
            }
        }
        assert forall|b: int| (pre.is_free(b) || m.space_start <= b < m.end_spec()) implies post.is_free(
            b,
        ) by {
            if m.space_start <= b < m.end_spec() {
                assert(post.regions@[0].space_start <= b < post.regions@[0].end_spec());
            } else {
                let i0 = choose|i0: int|
                    0 <= i0 < pre.regions@.len() && (#[trigger] pre.regions@[i0]).space_start <= b
                        < pre.regions@[i0].end_spec();
                assert(post.regions@[i0 + 1] == pre.regions@[i0]);
                assert(post.regions@[i0 + 1].space_start <= b < post.regions@[i0 + 1].end_spec());
            }
        }
    }

    /// Scans the free list front to back and takes the first region that can
    /// serve the request, removing it from the list and returning it with the
    /// aligned allocation start inside it.
    pub fn search(&mut self, size: usize, align: usize) -> (r: Option<(Metadata, usize)>)
        requires
            old(self).wf(),
            align >= 1,
        ensures
            final(self).wf(),
            match r {
                Some((m, s)) => {
                    &&& exists|i: int|
                        Self::search_found(*old(self), *final(self), m, i, size as int, align as int)
                    &&& s == round_up_spec(m.space_start as int, align as int)
                    &&& Self::fits(m, size as int, align as int)
                    &&& m.wf()
                },
                None => {
                    &&& *final(self) == *old(self)
                    &&& forall|i: int|
                        0 <= i < old(self).regions@.len() ==> !Self::fits(
                            #[trigger] old(self).regions@[i],
                            size as int,
                            align as int,
                        )
                },
            },
    {
        let ghost pre = *self;
        let mut i: usize = 0;
        while i < self.regions.len()
            invariant
                *self == pre,
                pre == *old(self),
                pre.wf(),
                align >= 1,
                i <= pre.regions@.len(),
                forall|j: int|
                    0 <= j < i ==> !Self::fits(#[trigger] pre.regions@[j], size as int, align as int),
            decreases pre.regions@.len() - i,
        {
            match Self::alloc_to(&self.regions[i], size, align) {
                Ok(s) => {
                    let m = self.regions.remove(i);
                    proof {
                        Self::lemma_remove_effect(pre, *self, i as int);
                        assert(pre.regions@[i as int].wf());
                        assert(m == pre.regions@[i as int]);
                        assert(Self::search_found(pre, *self, m, i as int, size as int, align as int));
                    }
                    return Some((m, s));
                },
                Err(()) => {
                    i = i + 1;
                },
            }
        }
        None
    }

    /// Puts a new free region at the head of the list. The region must be
    /// separated from every existing free region: coalescing is the caller's
    /// duty (`deallocate` performs it), never this list insertion's.
    pub fn addreg(&mut self, space_start: usize, size: usize)
        requires
            old(self).wf(),
            size >= METADATA_SIZE,
            space_start + size <= usize::MAX,
            forall|j: int|
                0 <= j < old(self).regions@.len() ==> Self::separated_from(
                    space_start as int,
                    space_start + size,
                    #[trigger] old(self).regions@[j],
                ),
        ensures
            final(self).wf(),
            final(self).regions@ == old(self).regions@.insert(0, (Metadata { space_start, size })),
            forall|b: int|
                final(self).is_free(b) <==> (old(self).is_free(b) || space_start <= b < space_start
                    + size),
    {
        let entry = Metadata::new(space_start, size);
        let ghost pre = *self;
        self.regions.insert(0, entry);
        proof {
            Self::lemma_insert_head_effect(pre, *self, entry);
        }
    }

    /// What a successful allocation does, witnessed by the index `i` of the
    /// region that served it: the request was served from the first
    /// qualifying region in list order, the returned span is that region's
    /// aligned front, its bytes were free, and afterwards exactly the bytes
    /// from the region's start to the span's end are no longer free (the
    /// tail leftover stays free).
    pub open spec fn alloc_effect(
        pre: LinkAllocator,
        post: LinkAllocator,
        i: int,
        a: int,
        n: int,
        a2: int,
    ) -> bool {
        &&& 0 <= i < pre.regions@.len()
        &&& Self::fits(pre.regions@[i], n, a2)
        &&& forall|j: int| 0 <= j < i ==> !Self::fits(#[trigger] pre.regions@[j], n, a2)
        &&& a == round_up_spec(pre.regions@[i].space_start as int, a2)
        &&& pre.regions@[i].space_start <= a
        &&& a + n <= pre.regions@[i].end_spec()
        &&& forall|b: int| a <= b < a + n ==> pre.is_free(b)
        &&& forall|b: int|
            post.is_free(b) <==> (pre.is_free(b) && !(pre.regions@[i].space_start <= b < a + n))
    }

    /// What `allocate` guarantees when it returns address `a`: some region
    /// index witnesses `alloc_effect` for the normalized request.
    pub open spec fn allocate_ok_post(
        pre: LinkAllocator,
        post: LinkAllocator,
        size: int,
        align: int,
        a: int,
    ) -> bool {
        exists|i: int|
            Self::alloc_effect(pre, post, i, a, Self::norm_size(size, align), Self::norm_align(align))
    }

    /// Serves a request first-fit: the size is normalized (padded to the
    /// effective alignment and to at least the bookkeeping size, so size
    /// zero becomes the minimum granularity), the list is scanned front to
    /// back, the first qualifying region is taken, and a non-zero tail
    /// leftover is re-inserted at the list head.
    #[verifier::rlimit(100)]
    pub fn allocate(&mut self, size: usize, align: usize) -> (r: Result<usize, AllocError>)
        requires
            old(self).wf(),
            align >= 1,
        ensures
            final(self).wf(),
            r is Err ==> *final(self) == *old(self),
            r == Err::<usize, AllocError>(AllocError::Overflow) <==> Self::norm_size(
                size as int,
                align as int,
            ) > usize::MAX,
            Self::norm_size(size as int, align as int) <= usize::MAX ==> (r is Ok <==> exists|i: int|
                0 <= i < old(self).regions@.len() && Self::fits(
                    #[trigger] old(self).regions@[i],
                    Self::norm_size(size as int, align as int),
                    Self::norm_align(align as int),
                )),
            r == Err::<usize, AllocError>(AllocError::OutOfMemory) <==> (Self::norm_size(
                size as int,
                align as int,
            ) <= usize::MAX && !(exists|i: int|
                0 <= i < old(self).regions@.len() && Self::fits(
                    #[trigger] old(self).regions@[i],
                    Self::norm_size(size as int, align as int),
                    Self::norm_align(align as int),
                ))),
            Self::norm_size(size as int, align as int) <= usize::MAX ==> (r matches Ok(a)
                ==> Self::allocate_ok_post(
                *old(self),
                *final(self),
                size as int,
                align as int,
                a as int,
            )),
    {
        let eff: usize = if align < METADATA_ALIGN {
            METADATA_ALIGN
        } else {
            align
        };
        let rem = size % eff;
        if rem != 0 && eff - rem > usize::MAX - size {
            return Err(AllocError::Overflow);
        }
        proof {
            assert(Self::norm_align(align as int) == eff);
            if rem == 0 {
                assert(round_up_spec(size as int, eff as int) == size);
            } else {
                assert(round_up_spec(size as int, eff as int) == size - rem + eff);
            }
            assert(Self::norm_size(size as int, align as int) <= usize::MAX);
        }
        let (n, a2) = Self::size_align(size, align);
        let ghost pre = *self;
        match self.search(n, a2) {
            Some((m, s)) => {
                let ghost mid = *self;
                let ghost i = choose|i: int|
                    Self::search_found(pre, mid, m, i, n as int, a2 as int);
                proof {
                    assert(Self::search_found(pre, mid, m, i, n as int, a2 as int));
                    lemma_round_up_bounds(m.space_start as int, a2 as int);
                    Self::lemma_remove_effect(pre, mid, i);
                }
                let alloc_end = s + n;
                let m_end = m.space_start + m.size;
                let excess = m_end - alloc_end;
                if excess > 0 {
                    proof {
                        pre.regions@.remove_ensures(i);
                        assert forall|j: int|
                            0 <= j < mid.regions@.len() implies Self::separated_from(
                            alloc_end as int,
                            alloc_end + excess,
                            #[trigger] mid.regions@[j],
                        ) by {
                            let j0 = if j < i {
                                j
                            } else {
                                j + 1
                            };
                            assert(mid.regions@[j] == pre.regions@[j0]);
                            assert(Self::separated(pre.regions@[i], pre.regions@[j0]));
                        }
                    }
                    self.addreg(alloc_end, excess);
                }
                proof {
                    assert forall|b: int| self.is_free(b) <==> (pre.is_free(b) && !(
                    pre.regions@[i].space_start <= b < s + n)) by {
                        if m.space_start <= b < m.end_spec() {
                            assert(pre.regions@[i].space_start <= b < pre.regions@[i].end_spec());
                            assert(pre.is_free(b));
                        }
                    }
                    assert forall|b: int| s <= b < s + n implies pre.is_free(b) by {
                        assert(pre.regions@[i].space_start <= b < pre.regions@[i].end_spec());
                    }
                    assert(Self::alloc_effect(pre, *self, i, s as int, n as int, a2 as int));
                    assert(Self::alloc_effect(
                        pre,
                        *self,
                        i,
                        s as int,
                        Self::norm_size(size as int, align as int),
                        Self::norm_align(align as int),
                    ));
                    assert(Self::fits(
                        pre.regions@[i],
                        Self::norm_size(size as int, align as int),
                        Self::norm_align(align as int),
                    ));
                    assert(Self::allocate_ok_post(
                        pre,
                        *self,
                        size as int,
                        align as int,
                        s as int,
                    ));
                }
                Ok(s)
            },
            None => {
                proof {
                    assert forall|t: int| 0 <= t < pre.regions@.len() implies !Self::fits(
                        #[trigger] pre.regions@[t],
                        Self::norm_size(size as int, align as int),
                        Self::norm_align(align as int),
                    ) by {
                        assert(!Self::fits(pre.regions@[t], n as int, a2 as int));
                    }
                }
                Err(AllocError::OutOfMemory)
            },
        }
    }

    /// Finds the position of the free region that ends exactly at `addr`, if
    /// one exists (at most one can, since free regions never touch).
    fn find_ending_at(&self, addr: usize) -> (r: Option<usize>)
        ensures
            match r {
                Some(j) => 0 <= j < self.regions@.len() && self.regions@[j as int].end_spec()
                    == addr,
                None => forall|j: int|
                    0 <= j < self.regions@.len() ==> (#[trigger] self.regions@[j]).end_spec()
                        != addr,
            },
    {
        let mut j: usize = 0;
        while j < self.regions.len()
            invariant
                j <= self.regions@.len(),
                forall|t: int|
                    0 <= t < j ==> (#[trigger] self.regions@[t]).end_spec() != addr,
            decreases self.regions@.len() - j,
        {
            let m = &self.regions[j];
            if m.size <= usize::MAX - m.space_start && m.space_start + m.size == addr {
                return Some(j);
            }
            proof {
                assert(self.regions@[j as int].end_spec() != addr);
            }
            j = j + 1;
        }
        None
    }

    /// Finds the position of the free region that starts exactly at `addr`,
    /// if one exists (at most one can, since free regions never touch).
    fn find_starting_at(&self, addr: usize) -> (r: Option<usize>)
        ensures
            match r {
                Some(j) => 0 <= j < self.regions@.len() && self.regions@[j as int].space_start
                    == addr,
                None => forall|j: int|
                    0 <= j < self.regions@.len() ==> (#[trigger] self.regions@[j]).space_start
                        != addr,
            },
    {
        let mut j: usize = 0;
        while j < self.regions.len()
            invariant
                j <= self.regions@.len(),
                forall|t: int|
                    0 <= t < j ==> (#[trigger] self.regions@[t]).space_start != addr,
            decreases self.regions@.len() - j,
        {
            if self.regions[j].space_start == addr {
                return Some(j);
            }
            j = j + 1;
        }
        None
    }

    /// What `deallocate` guarantees: exactly the freed bytes joined the free
    /// ones, and the head of the list is now the coalesced region covering
    /// them, whose distance to the freed span's own boundaries is either zero
    /// or at least a region's minimum size (it came from an absorbed free
    /// neighbour).
    pub open spec fn dealloc_post(
        pre: LinkAllocator,
        post: LinkAllocator,
        addr: int,
        n: int,
    ) -> bool {
        &&& forall|b: int| post.is_free(b) <==> (pre.is_free(b) || addr <= b < addr + n)
        &&& post.regions@.len() >= 1
        &&& post.regions@[0].space_start <= addr
        &&& addr + n <= post.regions@[0].end_spec()
        &&& (post.regions@[0].space_start == addr || addr - post.regions@[0].space_start
            >= METADATA_SIZE)
        &&& (post.regions@[0].end_spec() == addr + n || post.regions@[0].end_spec() - (addr + n)
            >= METADATA_SIZE)
    }

    /// Returns the span at `addr` to the free list, coalescing it with any
    /// free region immediately adjacent in address space, so that free
    /// regions never touch. The size is normalized exactly as the matching
    /// allocation request's was; the caller must pass the values used then,
    /// and the span must not already be free.
    #[verifier::rlimit(100)]
    pub fn deallocate(&mut self, addr: usize, size: usize, align: usize)
        requires
            old(self).wf(),
            align >= 1,
            Self::norm_size(size as int, align as int) <= usize::MAX,
            addr + Self::norm_size(size as int, align as int) <= usize::MAX,
            forall|b: int|
                addr <= b < addr + Self::norm_size(size as int, align as int) ==> !old(
                    self,
                ).is_free(b),
        ensures
            final(self).wf(),
            Self::dealloc_post(
                *old(self),
                *final(self),
                addr as int,
                Self::norm_size(size as int, align as int),
            ),
    {
        let (n, _a2) = Self::size_align(size, align);
        let ghost pre = *self;
        let mut new_start = addr;
        let mut new_size = n;
        let ghost mut gleft: Option<Metadata> = None;
        let ghost mut jleft: int = 0;

        // absorb the free region that ends exactly where the freed span starts
        match self.find_ending_at(addr) {
            Some(j) => {
                proof {
                    assert(pre.regions@[j as int].wf());
                }
                let m = self.regions.remove(j);
                proof {
                    Self::lemma_remove_effect(pre, *self, j as int);
                    pre.regions@.remove_ensures(j as int);
                    gleft = Some(m);
                    jleft = j as int;
                }
                new_start = m.space_start;
                new_size = new_size + m.size;
            },
            None => {},
        }
        let ghost mid1 = *self;

        proof {
            assert(new_start <= addr);
            assert(new_size == addr - new_start + n);
            assert(new_start == addr || addr - new_start >= METADATA_SIZE);
            assert(mid1.wf());
            assert(mid1.regions@ == if gleft is Some {
                pre.regions@.remove(jleft)
            } else {
                pre.regions@
            });
            assert forall|b: int| mid1.is_free(b) <==> (pre.is_free(b) && !(new_start <= b
                < addr)) by {
                if gleft is Some {
                    assert(gleft->0 == pre.regions@[jleft]);
                }
            }
            // no region still on the list ends where the gathered span starts
            assert forall|t: int|
                0 <= t < mid1.regions@.len() implies (#[trigger] mid1.regions@[t]).end_spec()
                != new_start by {
                if gleft is Some {
                    let l = gleft->0;
                    let t0 = if t < jleft {
                        t
                    } else {
                        t + 1
                    };
                    assert(mid1.regions@[t] == pre.regions@[t0]);
                    if pre.regions@[t0] == l {
                        assert(mid1.regions@[t].space_start <= l.space_start
                            && (l.space_start as int) < mid1.regions@[t].end_spec());
                        assert(mid1.is_free(l.space_start as int));
                        assert(!mid1.is_free(l.space_start as int));
                    } else {
                        assert(t0 != jleft);
                        assert(Self::separated(pre.regions@[t0], pre.regions@[jleft]));
                    }
                }
            }
        }

        // absorb the free region that starts exactly where the freed span ends
        let end_right = addr + n;
        let ghost mut gright: Option<Metadata> = None;
        let ghost mut kright: int = 0;
        match self.find_starting_at(end_right) {
            Some(k) => {
                proof {
                    assert(mid1.regions@[k as int].wf());
                }
                let m = self.regions.remove(k);
                proof {
                    Self::lemma_remove_effect(mid1, *self, k as int);
                    mid1.regions@.remove_ensures(k as int);
                    gright = Some(m);
                    kright = k as int;
                }
                new_size = new_size + m.size;
            },
            None => {},
        }
        let ghost mid2 = *self;
        let ghost espan = new_start + new_size as int;

        proof {
            assert(espan >= addr + n);
            assert(espan == addr + n || espan - (addr + n) >= METADATA_SIZE);
            assert(mid2.wf());
            assert forall|b: int| mid2.is_free(b) <==> (mid1.is_free(b) && !(addr + n <= b
                < espan)) by {
                if gright is Some {
                    assert(gright->0 == mid1.regions@[kright]);
                }
            }
            // no region still on the list ends where the gathered span starts
            assert forall|t: int|
                0 <= t < mid2.regions@.len() implies (#[trigger] mid2.regions@[t]).end_spec()
                != new_start by {
                if gright is Some {
                    let t0 = if t < kright {
                        t
                    } else {
                        t + 1
                    };
                    assert(mid2.regions@[t] == mid1.regions@[t0]);
                    assert(mid1.regions@[t0].end_spec() != new_start);
                } else {
                    assert(mid2.regions@[t] == mid1.regions@[t]);
                }
            }
            // no region still on the list starts where the gathered span ends
            assert forall|t: int|
                0 <= t < mid2.regions@.len() implies (#[trigger] mid2.regions@[t]).space_start
                != espan by {
                if gright is Some {
                    let r = gright->0;
                    let t0 = if t < kright {
                        t
                    } else {
                        t + 1
                    };
                    assert(mid2.regions@[t] == mid1.regions@[t0]);
                    if mid1.regions@[t0] == r {
                        assert(mid2.regions@[t].space_start <= r.space_start
                            && (r.space_start as int) < mid2.regions@[t].end_spec());
                        assert(mid2.is_free(r.space_start as int));
                        assert(!mid2.is_free(r.space_start as int));
                    } else {
                        assert(t0 != kright);
                        assert(Self::separated(mid1.regions@[t0], mid1.regions@[kright]));
                    }
                }
            }
            // no byte of the gathered span is still free
            assert forall|b: int| new_start <= b < espan implies !mid2.is_free(b) by {
                if addr <= b < addr + n {
                    assert(!pre.is_free(b));
                }
            }
            // hence every listed region is strictly separated from the span
            assert forall|t: int|
                0 <= t < mid2.regions@.len() implies Self::separated_from(
                new_start as int,
                espan,
                #[trigger] mid2.regions@[t],
            ) by {
                let r = mid2.regions@[t];
                if !(r.end_spec() < new_start || espan < r.space_start) {
                    let b = if r.space_start as int >= new_start {
                        r.space_start as int
                    } else {
                        new_start as int
                    };
                    if r.end_spec() <= new_start {
                        // the region touches the span's start: contradicts the
                        // no-region-ends-here fact
                        assert(r.end_spec() != new_start);
                        assert(r.space_start <= b < r.end_spec());
                        assert(mid2.is_free(b));
                        assert(!mid2.is_free(b));
                    } else if r.space_start as int >= espan {
                        assert(r.space_start != espan);
                        assert(false);
                    } else {
                        // ranges genuinely overlap: exhibit a shared byte
                        assert(r.space_start <= b < r.end_spec());
                        assert(new_start <= b < espan);
                        assert(mid2.is_free(b));
                        assert(!mid2.is_free(b));
                    }
                }
            }
        }

        self.addreg(new_start, new_size);

        proof {
            mid2.regions@.insert_ensures(0, (Metadata { space_start: new_start, size: new_size }));
            assert(self.regions@[0] == (Metadata { space_start: new_start, size: new_size }));
            assert forall|b: int| self.is_free(b) <==> (pre.is_free(b) || addr <= b < addr
                + n) by {
                if gleft is Some {
                    assert(gleft->0 == pre.regions@[jleft]);
                    if new_start <= b < addr {
                        assert(pre.regions@[jleft].space_start <= b
                            < pre.regions@[jleft].end_spec());
                        assert(pre.is_free(b));
                    }
                }
                if gright is Some {
                    assert(gright->0 == mid1.regions@[kright]);
                    if addr + n <= b < espan {
                        assert(mid1.regions@[kright].space_start <= b
                            < mid1.regions@[kright].end_spec());
                        assert(mid1.is_free(b));
                    }
                }
            }
            assert(Self::dealloc_post(pre, *self, addr as int, n as int));
            assert(Self::dealloc_post(
                pre,
                *self,
                addr as int,
                Self::norm_size(size as int, align as int),
            ));
        }
    }

    /// A contiguous run of free bytes always lies inside exactly one free
    /// region: free regions never touch, so freeing two adjacent spans — in
    /// either order — leaves a single region covering their union.
    pub proof fn lemma_contiguous_span(s: &LinkAllocator, lo: int, hi: int)
        requires
            s.wf(),
            lo < hi,
            forall|b: int| lo <= b < hi ==> s.is_free(b),
        ensures
            exists|i: int|
                0 <= i < s.regions@.len() && (#[trigger] s.regions@[i]).space_start <= lo && hi
                    <= s.regions@[i].end_spec(),
            forall|i: int, j: int|
                (0 <= i < s.regions@.len() && (#[trigger] s.regions@[i]).space_start <= lo && hi
                    <= s.regions@[i].end_spec() && 0 <= j < s.regions@.len() && (
                #[trigger] s.regions@[j]).space_start <= lo && hi <= s.regions@[j].end_spec())
                    ==> i == j,
    {
        assert(s.is_free(lo));
        let i = choose|i: int|
            0 <= i < s.regions@.len() && (#[trigger] s.regions@[i]).space_start <= lo
                < s.regions@[i].end_spec();
        if s.regions@[i].end_spec() < hi {
            let e = s.regions@[i].end_spec();
            assert(lo <= e < hi);
            assert(s.is_free(e));
            let j = choose|j: int|
                0 <= j < s.regions@.len() && (#[trigger] s.regions@[j]).space_start <= e
                    < s.regions@[j].end_spec();
            assert(j != i);
            assert(Self::separated(s.regions@[i], s.regions@[j]));
            assert(false);
        }
        assert(s.regions@[i].space_start <= lo && hi <= s.regions@[i].end_spec());
        assert forall|i1: int, j1: int|
            (0 <= i1 < s.regions@.len() && (#[trigger] s.regions@[i1]).space_start <= lo && hi
                <= s.regions@[i1].end_spec() && 0 <= j1 < s.regions@.len() && (
            #[trigger] s.regions@[j1]).space_start <= lo && hi
                <= s.regions@[j1].end_spec()) implies i1 == j1 by {
            if i1 != j1 {
                assert(Self::separated(s.regions@[i1], s.regions@[j1]));
                assert(false);
            }
        }
    }

    /// Bytes handed out by a successful allocation were free beforehand, so
    /// they can never overlap a span that was already allocated (one whose
    /// bytes are not free), and they stop being free themselves.
    pub proof fn lemma_no_overlap(
        pre: LinkAllocator,
        post: LinkAllocator,
        allocated: Set<int>,
        size: int,
        align: int,
        a: int,
    )
        requires
            Self::allocate_ok_post(pre, post, size, align, a),
            forall|b: int| allocated.contains(b) ==> !pre.is_free(b),
        ensures
            forall|b: int| a <= b < a + Self::norm_size(size, align) ==> pre.is_free(b),
            forall|b: int| a <= b < a + Self::norm_size(size, align) ==> !allocated.contains(b),
            forall|b: int| a <= b < a + Self::norm_size(size, align) ==> !post.is_free(b),
    {
        let n = Self::norm_size(size, align);
        let a2 = Self::norm_align(align);
        let i = choose|i: int| Self::alloc_effect(pre, post, i, a, n, a2);
        assert(Self::alloc_effect(pre, post, i, a, n, a2));
        assert forall|b: int| a <= b < a + n implies !post.is_free(b) by {
            assert(pre.regions@[i].space_start <= b < a + n);
        }
    }

    /// Freeing a span that an allocation just returned and repeating the
    /// same request always finds a qualifying region again: the coalesced
    /// head region left behind by `deallocate` fits it. Alignments are
    /// powers of two, as the alignment of every allocation layout is.
    pub proof fn lemma_round_trip(
        pre: LinkAllocator,
        mid: LinkAllocator,
        post: LinkAllocator,
        size: usize,
        align: usize,
        a: usize,
    )
        requires
            align >= 1,
            vstd::arithmetic::power2::is_pow2(align as int),
            Self::norm_size(size as int, align as int) <= usize::MAX,
            Self::allocate_ok_post(pre, mid, size as int, align as int, a as int),
            Self::dealloc_post(mid, post, a as int, Self::norm_size(size as int, align as int)),
        ensures
            exists|i: int|
                0 <= i < post.regions@.len() && Self::fits(
                    #[trigger] post.regions@[i],
                    Self::norm_size(size as int, align as int),
                    Self::norm_align(align as int),
                ),
    {
        let n = Self::norm_size(size as int, align as int);
        let a2 = Self::norm_align(align as int);
        // the effective alignment is 8 or at least 16
        assert(a2 == METADATA_ALIGN || a2 >= 2 * METADATA_ALIGN) by {
            if align > METADATA_ALIGN {
                vstd::arithmetic::power2::is_pow2_equiv(align as int);
                assert(vstd::arithmetic::power2::is_pow2_exists(align as int));
                let k = choose|k: nat| vstd::arithmetic::power::pow(2, k) == align as int;
                assert(vstd::arithmetic::power::pow(2, k) == align as int);
                vstd::arithmetic::power2::lemma2_to64();
                vstd::arithmetic::power::lemma_pow_positive(2, 3);
                vstd::arithmetic::power::lemma_pow_positive(2, 4);
                assert(vstd::arithmetic::power::pow(2, 3) == 8);
                assert(vstd::arithmetic::power::pow(2, 4) == 16);
                if k <= 3 {
                    vstd::arithmetic::power::lemma_pow_increases(2, k, 3);
                    assert(align as int <= 8);
                } else {
                    vstd::arithmetic::power::lemma_pow_increases(2, 4, k);
                    assert(align as int >= 16);
                }
            }
        }
        // the returned address is a multiple of the effective alignment
        let w = choose|w: int| Self::alloc_effect(pre, mid, w, a as int, n, a2);
        assert(Self::alloc_effect(pre, mid, w, a as int, n, a2));
        lemma_round_up_bounds(pre.regions@[w].space_start as int, a2);
        assert(a as int % a2 == 0);
        // the head region's aligned start lands at or below the freed span
        let h = post.regions@[0];
        let s = round_up_spec(h.space_start as int, a2);
        lemma_round_up_bounds(h.space_start as int, a2);
        lemma_round_up_least(h.space_start as int, a2, a as int);
        assert(h.space_start <= s <= a);
        // the front gap is a multiple of the alignment ...
        let g1 = a - s;
        assert(g1 % a2 == 0) by {
            vstd::arithmetic::div_mod::lemma_sub_mod_noop(a as int, s, a2);
            assert(((a as int % a2) - (s % a2)) % a2 == (a as int - s) % a2);
            assert(a as int % a2 == 0);
            assert(s % a2 == 0);
            assert((0int - 0int) % a2 == 0) by (nonlinear_arith)
                requires
                    a2 >= 1,
            ;
        }
        // ... and is therefore zero or at least a region's minimum size
        assert(g1 == 0 || g1 >= METADATA_SIZE) by {
            if g1 != 0 {
                assert(g1 >= a2) by (nonlinear_arith)
                    requires
                        g1 % a2 == 0,
                        g1 > 0,
                        a2 >= 1,
                ;
                if a2 == METADATA_ALIGN {
                    // the gap comes from an absorbed neighbour of full size
                    assert(h.space_start < a);
                    assert(a - h.space_start >= METADATA_SIZE);
                    assert(s < h.space_start + a2);
                    assert(g1 > METADATA_SIZE - a2);
                    assert(g1 >= 2 * METADATA_ALIGN) by (nonlinear_arith)
                        requires
                            g1 % METADATA_ALIGN as int == 0,
                            g1 > METADATA_ALIGN as int,
                    ;
                }
            }
        }
        assert(Self::fits(h, n, a2));
        assert(0 < post.regions@.len() && Self::fits(post.regions@[0], n, a2));
    }

    /// Installs the caller-supplied backing range as one free region.
    pub fn initialize(&mut self, space_start: usize, size: usize)
        requires
            old(self).wf(),
            size >= METADATA_SIZE,
            space_start + size <= usize::MAX,
            forall|j: int|
                0 <= j < old(self).regions@.len() ==> Self::separated_from(
                    space_start as int,
                    space_start + size,
                    #[trigger] old(self).regions@[j],
                ),
        ensures
            final(self).wf(),
            final(self).regions@ == old(self).regions@.insert(0, (Metadata { space_start, size })),
            forall|b: int|
                final(self).is_free(b) <==> (old(self).is_free(b) || space_start <= b < space_start
                    + size),
    {
        self.addreg(space_start, size);
    }
}

} // verus!
