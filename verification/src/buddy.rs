use vstd::prelude::*;
use crate::AllocError;
use vstd::arithmetic::power2::pow2;
use vstd::arithmetic::power2::lemma_pow2_pos;
use vstd::arithmetic::power2::lemma_pow2_adds;
use vstd::arithmetic::power2::lemma_pow2_strictly_increases;
use vstd::arithmetic::power2::lemma2_to64;

verus! {

/// Buddy allocator: a power-of-two-sized capacity is split into levels,
/// level 0 being the whole range as one block and each further level halving
/// the block size. Free blocks of each level are kept on a per-level free
/// list; allocation splits larger blocks on demand and deallocation merges a
/// freed block with its buddy, repeatedly, back towards level 0.
pub struct BuddyAllocator {
    pub space_start: usize,
    pub space_end: usize,
    pub levels: u8,
    pub block_size: u16,
    pub free_lists: Vec<Vec<u32>>,
}

impl BuddyAllocator {
    /// Total usable capacity: the byte size of the single level-0 block.
    pub open spec fn size_limit_spec(&self) -> int {
        self.block_size as int * pow2(self.levels as nat)
    }

    /// Byte size of one block at `level`.
    pub open spec fn block_size_at(&self, level: int) -> int {
        self.block_size as int * pow2((self.levels - level) as nat)
    }

    /// Start address of block `idx` at `level`.
    pub open spec fn block_addr(&self, level: int, idx: int) -> int {
        self.space_start + idx * self.block_size_at(level)
    }

    /// Whether byte `b` lies in block `idx` of `level`.
    pub open spec fn in_block(&self, level: int, idx: int, b: int) -> bool {
        self.block_addr(level, idx) <= b < self.block_addr(level, idx) + self.block_size_at(
            level,
        )
    }

    /// Two blocks, given by level and index, cover disjoint byte ranges.
    pub open spec fn blocks_disjoint(&self, l1: int, i1: int, l2: int, i2: int) -> bool {
        self.block_addr(l1, i1) + self.block_size_at(l1) <= self.block_addr(l2, i2)
            || self.block_addr(l2, i2) + self.block_size_at(l2) <= self.block_addr(l1, i1)
    }

    pub open spec fn wf(&self) -> bool {
        &&& 1 <= self.block_size
        &&& self.levels <= 32
        &&& self.free_lists@.len() == self.levels as int + 1
        &&& self.space_start <= self.space_end
        &&& self.space_start + self.size_limit_spec() <= usize::MAX
        &&& forall|l: int, j: int|
            0 <= l < self.free_lists@.len() && 0 <= j < self.free_lists@[l]@.len() ==> (
            #[trigger] self.free_lists@[l]@[j]) < pow2(l as nat)
        &&& forall|l1: int, j1: int, l2: int, j2: int|
            0 <= l1 < self.free_lists@.len() && 0 <= j1 < self.free_lists@[l1]@.len() && 0 <= l2
                < self.free_lists@.len() && 0 <= j2 < self.free_lists@[l2]@.len() && (l1 != l2
                || j1 != j2) ==> self.blocks_disjoint(
                l1,
                #[trigger] self.free_lists@[l1]@[j1] as int,
                l2,
                #[trigger] self.free_lists@[l2]@[j2] as int,
            )
    }

    /// Whether byte address `b` is free: covered by some block on a free list.
    pub open spec fn is_free(&self, b: int) -> bool {
        exists|l: int, j: int|
            0 <= l < self.free_lists@.len() && 0 <= j < self.free_lists@[l]@.len()
                && self.in_block(l, (#[trigger] self.free_lists@[l]@[j]) as int, b)
    }

    /// The two instances share the fixed configuration; only the free lists'
    /// contents may differ.
    pub open spec fn same_config(a: BuddyAllocator, b: BuddyAllocator) -> bool {
        &&& a.space_start == b.space_start
        &&& a.space_end == b.space_end
        &&& a.levels == b.levels
        &&& a.block_size == b.block_size
        &&& a.free_lists@.len() == b.free_lists@.len()
    }

    /// The request size after normalization: at least the alignment and at
    /// least one leaf block, so a size of zero becomes the minimum
    /// granularity.
    pub open spec fn norm_request(&self, size: int, align: int) -> int {
        let s = if size >= align {
            size
        } else {
            align
        };
        if s >= self.block_size as int {
            s
        } else {
            self.block_size as int
        }
    }

    /// `l` is the level whose blocks serve requests of `size` bytes: the
    /// deepest level whose block size still covers the request, clamped to
    /// the leaf level.
    pub open spec fn is_level_for(&self, size: int, l: int) -> bool {
        &&& 0 <= l <= self.levels
        &&& self.block_size_at(l) >= size
        &&& (l == self.levels || self.block_size_at(l + 1) < size)
    }

    /// The level that serves requests of `size` bytes.
    pub open spec fn level_for(&self, size: int) -> int {
        choose|l: int| self.is_level_for(size, l)
    }

    /// Block sizes are positive.
    proof fn lemma_bs_pos(&self, l: int)
        requires
            self.wf(),
            0 <= l <= self.levels,
        ensures
            self.block_size_at(l) >= 1,
    {
        lemma_pow2_pos((self.levels - l) as nat);
        assert(self.block_size as int * pow2((self.levels - l) as nat) >= 1) by (nonlinear_arith)
            requires
                self.block_size >= 1,
                pow2((self.levels - l) as nat) >= 1,
        ;
    }

    /// A block of the parent level is twice a block of the child level.
    proof fn lemma_bs_half(&self, l: int)
        requires
            self.wf(),
            1 <= l <= self.levels,
        ensures
            self.block_size_at(l - 1) == 2 * self.block_size_at(l),
    {
        lemma_pow2_adds(1, (self.levels - l) as nat);
        lemma2_to64();
        assert(pow2((self.levels - l + 1) as nat) == 2 * pow2((self.levels - l) as nat));
        assert(self.block_size as int * (2 * pow2((self.levels - l) as nat)) == 2 * (
        self.block_size as int * pow2((self.levels - l) as nat))) by (nonlinear_arith);
    }

    /// Block sizes shrink as the level grows.
    proof fn lemma_bs_mono(&self, l1: int, l2: int)
        requires
            self.wf(),
            0 <= l1 <= l2 <= self.levels,
        ensures
            self.block_size_at(l2) <= self.block_size_at(l1),
    {
        if l1 < l2 {
            lemma_pow2_strictly_increases((self.levels - l2) as nat, (self.levels - l1) as nat);
        }
        assert(self.block_size as int * pow2((self.levels - l2) as nat) <= self.block_size as int
            * pow2((self.levels - l1) as nat)) by (nonlinear_arith)
            requires
                self.block_size >= 1,
                pow2((self.levels - l2) as nat) <= pow2((self.levels - l1) as nat),
        ;
    }

    /// All of a level's blocks together cover exactly the capacity.
    proof fn lemma_level_total(&self, l: int)
        requires
            self.wf(),
            0 <= l <= self.levels,
        ensures
            pow2(l as nat) * self.block_size_at(l) == self.size_limit_spec(),
    {
        lemma_pow2_adds(l as nat, (self.levels - l) as nat);
        assert(pow2(l as nat) * (self.block_size as int * pow2((self.levels - l) as nat))
            == self.block_size as int * (pow2(l as nat) * pow2((self.levels - l) as nat)))
            by (nonlinear_arith);
    }

    /// A valid block lies inside the managed capacity.
    proof fn lemma_block_in_range(&self, l: int, i: int)
        requires
            self.wf(),
            0 <= l <= self.levels,
            0 <= i < pow2(l as nat),
        ensures
            self.space_start <= self.block_addr(l, i),
            self.block_addr(l, i) + self.block_size_at(l) <= self.space_start
                + self.size_limit_spec(),
    {
        self.lemma_bs_pos(l);
        self.lemma_level_total(l);
        assert(0 <= i * self.block_size_at(l) && (i + 1) * self.block_size_at(l) <= pow2(l as nat)
            * self.block_size_at(l) && (i + 1) * self.block_size_at(l) == i * self.block_size_at(l)
            + self.block_size_at(l)) by (nonlinear_arith)
            requires
                0 <= i < pow2(l as nat),
                self.block_size_at(l) >= 1,
        ;
    }

    /// A parent block covers exactly its two children.
    proof fn lemma_children(&self, l: int, p: int)
        requires
            self.wf(),
            1 <= l <= self.levels,
            0 <= p < pow2((l - 1) as nat),
        ensures
            2 * p + 1 < pow2(l as nat),
            self.block_addr(l - 1, p) == self.block_addr(l, 2 * p),
            self.block_addr(l, 2 * p + 1) == self.block_addr(l, 2 * p) + self.block_size_at(l),
            self.block_size_at(l - 1) == 2 * self.block_size_at(l),
            forall|b: int|
                #[trigger] self.in_block(l - 1, p, b) <==> (self.in_block(l, 2 * p, b)
                    || self.in_block(l, 2 * p + 1, b)),
            forall|b: int|
                self.in_block(l - 1, p, b) <==> (#[trigger] self.in_block(l, 2 * p, b)
                    || self.in_block(l, 2 * p + 1, b)),
            forall|b: int|
                self.in_block(l - 1, p, b) <==> (self.in_block(l, 2 * p, b)
                    || #[trigger] self.in_block(l, 2 * p + 1, b)),
    {
        self.lemma_bs_half(l);
        lemma_pow2_adds(1, (l - 1) as nat);
        lemma2_to64();
        assert(pow2(l as nat) == 2 * pow2((l - 1) as nat));
        assert((2 * p) * self.block_size_at(l) == p * (2 * self.block_size_at(l))
            && (2 * p + 1) * self.block_size_at(l) == (2 * p) * self.block_size_at(l)
            + self.block_size_at(l)) by (nonlinear_arith);
    }

    /// The serving level of a request size is unique.
    pub proof fn lemma_level_unique(&self, size: int, l1: int, l2: int)
        requires
            self.wf(),
            self.is_level_for(size, l1),
            self.is_level_for(size, l2),
        ensures
            l1 == l2,
    {
        if l1 < l2 {
            self.lemma_bs_mono(l1 + 1, l2);
        }
        if l2 < l1 {
            self.lemma_bs_mono(l2 + 1, l1);
        }
    }

    /// Total capacity, computed by doubling a leaf block once per level.
    pub fn size_limit(&self) -> (r: usize)
        requires
            self.wf(),
        ensures
            r == self.size_limit_spec(),
    {
        let mut r: usize = self.block_size as usize;
        let mut i: u8 = 0;
        proof {
            lemma2_to64();
        }
        while i < self.levels
            invariant
                self.wf(),
                i <= self.levels,
                r == self.block_size as int * pow2(i as nat),
            decreases self.levels - i,
        {
            proof {
                lemma_pow2_adds(1, i as nat);
                lemma2_to64();
                assert(pow2((i + 1) as nat) == 2 * pow2(i as nat));
                if ((i + 1) as nat) < (self.levels as nat) {
                    lemma_pow2_strictly_increases((i + 1) as nat, self.levels as nat);
                }
                assert(self.block_size as int * pow2((i + 1) as nat) <= self.block_size as int
                    * pow2(self.levels as nat)) by (nonlinear_arith)
                    requires
                        self.block_size >= 1,
                        pow2((i + 1) as nat) <= pow2(self.levels as nat),
                ;
                assert(self.block_size as int * (2 * pow2(i as nat)) == 2 * (
                self.block_size as int * pow2(i as nat))) by (nonlinear_arith);
            }
            r = r * 2;
            i = i + 1;
        }
        r
    }

    /// Byte size of one block at `level`, computed the same way.
    pub fn level_bytes(&self, level: usize) -> (r: usize)
        requires
            self.wf(),
            level <= self.levels as usize,
        ensures
            r == self.block_size_at(level as int),
    {
        let mut r: usize = self.block_size as usize;
        let mut i: usize = 0;
        let count = self.levels as usize - level;
        proof {
            lemma2_to64();
        }
        while i < count
            invariant
                self.wf(),
                i <= count,
                count == self.levels - level,
                level <= self.levels,
                r == self.block_size as int * pow2(i as nat),
            decreases count - i,
        {
            proof {
                lemma_pow2_adds(1, i as nat);
                lemma2_to64();
                assert(pow2((i + 1) as nat) == 2 * pow2(i as nat));
                if ((i + 1) as nat) < (self.levels as nat) {
                    lemma_pow2_strictly_increases((i + 1) as nat, self.levels as nat);
                }
                assert(self.block_size as int * pow2((i + 1) as nat) <= self.block_size as int
                    * pow2(self.levels as nat)) by (nonlinear_arith)
                    requires
                        self.block_size >= 1,
                        pow2((i + 1) as nat) <= pow2(self.levels as nat),
                ;
                assert(self.block_size as int * (2 * pow2(i as nat)) == 2 * (
                self.block_size as int * pow2(i as nat))) by (nonlinear_arith);
            }
            r = r * 2;
            i = i + 1;
        }
        r
    }

    /// Whether an address lies within the managed half-open range.
    pub fn includes(&self, addr: usize) -> (r: bool)
        ensures
            r == (self.space_start <= addr < self.space_end),
    {
        addr >= self.space_start && addr < self.space_end
    }

    /// Finds the level that serves a request of `size` bytes, or nothing if
    /// the request exceeds the capacity.
    pub fn level_size(&self, size: usize) -> (r: Option<usize>)
        requires
            self.wf(),
            size >= 1,
        ensures
            match r {
                Some(l) => size <= self.size_limit_spec() && self.is_level_for(
                    size as int,
                    l as int,
                ),
                None => size > self.size_limit_spec(),
            },
    {
        let limit = self.size_limit();
        if size > limit {
            return None;
        }
        let mut level: usize = 0;
        let mut bytes: usize = limit;
        while level < self.levels as usize && bytes / 2 >= size
            invariant
                self.wf(),
                size >= 1,
                level <= self.levels,
                bytes == self.block_size_at(level as int),
                bytes >= size,
            decreases self.levels - level,
        {
            proof {
                self.lemma_bs_half(level + 1);
            }
            bytes = bytes / 2;
            level = level + 1;
        }
        proof {
            if level < self.levels as usize {
                self.lemma_bs_half(level as int + 1);
            }
        }
        Some(level)
    }

    /// Appending an index whose block's bytes are all unfree keeps the state
    /// well formed and adds exactly that block's bytes to the free ones.
    proof fn lemma_push_effect(pre: BuddyAllocator, post: BuddyAllocator, l: int, idx: u32)
        requires
            pre.wf(),
            Self::same_config(pre, post),
            post.space_start == pre.space_start,
            post.space_end == pre.space_end,
            post.levels == pre.levels,
            post.block_size == pre.block_size,
            0 <= l < pre.free_lists@.len(),
            (idx as int) < pow2(l as nat),
            forall|l2: int|
                0 <= l2 < pre.free_lists@.len() && l2 != l ==> post.free_lists@[l2]@
                    == pre.free_lists@[l2]@,
            post.free_lists@[l]@ == pre.free_lists@[l]@.push(idx),
            forall|b: int| pre.in_block(l, idx as int, b) ==> !pre.is_free(b),
        ensures
            post.wf(),
            forall|b: int|
                post.is_free(b) <==> (pre.is_free(b) || pre.in_block(l, idx as int, b)),
    {
        let newpos = pre.free_lists@[l]@.len() as int;
        assert(post.free_lists@[l]@[newpos] == idx);
        assert forall|l2: int, j2: int|
            0 <= l2 < post.free_lists@.len() && 0 <= j2
                < post.free_lists@[l2]@.len() implies (#[trigger] post.free_lists@[l2]@[j2])
            < pow2(l2 as nat) by {
            if l2 == l && j2 == newpos {
            } else {
                assert(post.free_lists@[l2]@[j2] == pre.free_lists@[l2]@[j2]);
            }
        }
        // the new entry's block is disjoint from every listed block, because
        // its bytes are unfree while every listed block's bytes are free
        assert forall|l2: int, j2: int|
            0 <= l2 < pre.free_lists@.len() && 0 <= j2
                < pre.free_lists@[l2]@.len() implies pre.blocks_disjoint(
            l,
            idx as int,
            l2,
            (#[trigger] pre.free_lists@[l2]@[j2]) as int,
        ) by {
            let i2 = pre.free_lists@[l2]@[j2] as int;
            pre.lemma_bs_pos(l);
            pre.lemma_bs_pos(l2);
            if !pre.blocks_disjoint(l, idx as int, l2, i2) {
                let b = if pre.block_addr(l2, i2) >= pre.block_addr(l, idx as int) {
                    pre.block_addr(l2, i2)
                } else {
                    pre.block_addr(l, idx as int)
                };
                assert(pre.in_block(l, idx as int, b));
                assert(pre.in_block(l2, i2, b));
                assert(pre.is_free(b));
                assert(false);
            }
        }
        assert forall|l1: int, j1: int, l2: int, j2: int|
            0 <= l1 < post.free_lists@.len() && 0 <= j1 < post.free_lists@[l1]@.len() && 0 <= l2
                < post.free_lists@.len() && 0 <= j2 < post.free_lists@[l2]@.len() && (l1 != l2
                || j1 != j2) implies post.blocks_disjoint(
            l1,
            (#[trigger] post.free_lists@[l1]@[j1]) as int,
            l2,
            (#[trigger] post.free_lists@[l2]@[j2]) as int,
        ) by {
            let one_new = l1 == l && j1 == newpos;
            let two_new = l2 == l && j2 == newpos;
            if one_new && !two_new {
                assert(post.free_lists@[l2]@[j2] == pre.free_lists@[l2]@[j2]);
                assert(pre.blocks_disjoint(l, idx as int, l2, pre.free_lists@[l2]@[j2] as int));
            } else if !one_new && two_new {
                assert(post.free_lists@[l1]@[j1] == pre.free_lists@[l1]@[j1]);
                assert(pre.blocks_disjoint(l, idx as int, l1, pre.free_lists@[l1]@[j1] as int));
            } else if !one_new && !two_new {
                assert(post.free_lists@[l1]@[j1] == pre.free_lists@[l1]@[j1]);
                assert(post.free_lists@[l2]@[j2] == pre.free_lists@[l2]@[j2]);
                assert(pre.blocks_disjoint(
                    l1,
                    pre.free_lists@[l1]@[j1] as int,
                    l2,
                    pre.free_lists@[l2]@[j2] as int,
                ));
            }
        }
        assert forall|b: int| post.is_free(b) implies (pre.is_free(b) || pre.in_block(
            l,
            idx as int,
            b,
        )) by {
            let (l0, j0) = choose|l0: int, j0: int|
                0 <= l0 < post.free_lists@.len() && 0 <= j0 < post.free_lists@[l0]@.len()
                    && post.in_block(l0, (#[trigger] post.free_lists@[l0]@[j0]) as int, b);
            if l0 == l && j0 == newpos {
            } else {
                assert(post.free_lists@[l0]@[j0] == pre.free_lists@[l0]@[j0]);
                assert(pre.in_block(l0, pre.free_lists@[l0]@[j0] as int, b));
                assert(pre.is_free(b));
            }
        }
        assert forall|b: int| (pre.is_free(b) || pre.in_block(l, idx as int, b)) implies post.is_free(
            b,
        ) by {
            if pre.in_block(l, idx as int, b) {
                assert(post.in_block(l, post.free_lists@[l]@[newpos] as int, b));
            } else {
                let (l0, j0) = choose|l0: int, j0: int|
                    0 <= l0 < pre.free_lists@.len() && 0 <= j0 < pre.free_lists@[l0]@.len()
                        && pre.in_block(l0, (#[trigger] pre.free_lists@[l0]@[j0]) as int, b);
                assert(post.free_lists@[l0]@[j0] == pre.free_lists@[l0]@[j0]);
                assert(post.in_block(l0, post.free_lists@[l0]@[j0] as int, b));
            }
        }
    }

    /// Taking the entry at position `j` off level `l`'s list keeps the state
    /// well formed and removes exactly that block's bytes from the free ones.
    proof fn lemma_withdraw_effect(pre: BuddyAllocator, post: BuddyAllocator, l: int, j: int)
        requires
            pre.wf(),
            Self::same_config(pre, post),
            post.space_start == pre.space_start,
            post.space_end == pre.space_end,
            post.levels == pre.levels,
            post.block_size == pre.block_size,
            0 <= l < pre.free_lists@.len(),
            0 <= j < pre.free_lists@[l]@.len(),
            forall|l2: int|
                0 <= l2 < pre.free_lists@.len() && l2 != l ==> post.free_lists@[l2]@
                    == pre.free_lists@[l2]@,
            post.free_lists@[l]@ == pre.free_lists@[l]@.remove(j),
        ensures
            post.wf(),
            forall|b: int|
                post.is_free(b) <==> (pre.is_free(b) && !pre.in_block(
                    l,
                    pre.free_lists@[l]@[j] as int,
                    b,
                )),
            forall|b: int| pre.in_block(l, pre.free_lists@[l]@[j] as int, b) ==> pre.is_free(b),
    {
        pre.free_lists@[l]@.remove_ensures(j);
        let v = pre.free_lists@[l]@[j] as int;
        assert forall|b: int| pre.in_block(l, v, b) implies pre.is_free(b) by {
            assert(pre.in_block(l, (pre.free_lists@[l]@[j]) as int, b));
        }
        assert forall|l2: int, j2: int|
            0 <= l2 < post.free_lists@.len() && 0 <= j2
                < post.free_lists@[l2]@.len() implies (#[trigger] post.free_lists@[l2]@[j2])
            < pow2(l2 as nat) by {
            if l2 == l {
                let j0 = if j2 < j {
                    j2
                } else {
                    j2 + 1
                };
                assert(post.free_lists@[l2]@[j2] == pre.free_lists@[l2]@[j0]);
            } else {
                assert(post.free_lists@[l2]@[j2] == pre.free_lists@[l2]@[j2]);
            }
        }
        assert forall|l1: int, j1: int, l2: int, j2: int|
            0 <= l1 < post.free_lists@.len() && 0 <= j1 < post.free_lists@[l1]@.len() && 0 <= l2
                < post.free_lists@.len() && 0 <= j2 < post.free_lists@[l2]@.len() && (l1 != l2
                || j1 != j2) implies post.blocks_disjoint(
            l1,
            (#[trigger] post.free_lists@[l1]@[j1]) as int,
            l2,
            (#[trigger] post.free_lists@[l2]@[j2]) as int,
        ) by {
            let j1p = if l1 == l && j1 >= j {
                j1 + 1
            } else {
                j1
            };
            let j2p = if l2 == l && j2 >= j {
                j2 + 1
            } else {
                j2
            };
            assert(post.free_lists@[l1]@[j1] == pre.free_lists@[l1]@[j1p]);
            assert(post.free_lists@[l2]@[j2] == pre.free_lists@[l2]@[j2p]);
            assert(pre.blocks_disjoint(
                l1,
                pre.free_lists@[l1]@[j1p] as int,
                l2,
                pre.free_lists@[l2]@[j2p] as int,
            ));
        }
        assert forall|b: int| post.is_free(b) implies (pre.is_free(b) && !pre.in_block(
            l,
            v,
            b,
        )) by {
            let (l0, j0) = choose|l0: int, j0: int|
                0 <= l0 < post.free_lists@.len() && 0 <= j0 < post.free_lists@[l0]@.len()
                    && post.in_block(l0, (#[trigger] post.free_lists@[l0]@[j0]) as int, b);
            let j0p = if l0 == l && j0 >= j {
                j0 + 1
            } else {
                j0
            };
            assert(post.free_lists@[l0]@[j0] == pre.free_lists@[l0]@[j0p]);
            assert(pre.in_block(l0, pre.free_lists@[l0]@[j0p] as int, b));
            assert(pre.is_free(b));
            if l0 != l || j0p != j {
                assert(pre.blocks_disjoint(l0, pre.free_lists@[l0]@[j0p] as int, l, v));
            }
        }
        assert forall|b: int| (pre.is_free(b) && !pre.in_block(l, v, b)) implies post.is_free(
            b,
        ) by {
            let (l0, j0) = choose|l0: int, j0: int|
                0 <= l0 < pre.free_lists@.len() && 0 <= j0 < pre.free_lists@[l0]@.len()
                    && pre.in_block(l0, (#[trigger] pre.free_lists@[l0]@[j0]) as int, b);
            assert(l0 != l || j0 != j);
            let j0p = if l0 == l && j0 > j {
                j0 - 1
            } else {
                j0
            };
            assert(post.free_lists@[l0]@[j0p] == pre.free_lists@[l0]@[j0]);
            assert(post.in_block(l0, post.free_lists@[l0]@[j0p] as int, b));
        }
    }

    /// The structural effect of taking a block at `level`, witnessed by the
    /// level `k` it actually came from: that level's most recent entry (the
    /// requested block's ancestor) left its list, every level crossed on the
    /// way down gained exactly one entry — the kept child's buddy — and
    /// every other level is untouched.
    pub open spec fn take_chain(
        pre: BuddyAllocator,
        post: BuddyAllocator,
        level: int,
        idx: int,
        k: int,
    ) -> bool {
        &&& 0 <= k <= level
        &&& pre.free_lists@[k]@.len() > 0
        &&& pre.free_lists@[k]@.last() == (Self::chain_idx(idx, level, k) as u32)
        &&& post.free_lists@[k]@ == pre.free_lists@[k]@.drop_last()
        &&& (forall|m: int|
            k < m <= level ==> #[trigger] post.free_lists@[m]@ == pre.free_lists@[m]@.push(
                ((Self::chain_idx(idx, level, m) + 1) as u32),
            ))
        &&& (forall|m: int|
            0 <= m < pre.free_lists@.len() && !(k <= m <= level)
                ==> #[trigger] post.free_lists@[m]@ == pre.free_lists@[m]@)
    }

    /// What taking a block does to the free-list structure: some source
    /// level witnesses the chain.
    pub open spec fn take_post(
        pre: BuddyAllocator,
        post: BuddyAllocator,
        level: int,
        idx: int,
    ) -> bool {
        exists|k: int| Self::take_chain(pre, post, level, idx, k)
    }

    /// What taking one block off the free structure means: the block's bytes
    /// were all free and exactly they are no longer free afterwards.
    pub open spec fn block_removed(
        pre: BuddyAllocator,
        post: BuddyAllocator,
        level: int,
        idx: int,
    ) -> bool {
        &&& 0 <= idx < pow2(level as nat)
        &&& forall|b: int| pre.in_block(level, idx, b) ==> pre.is_free(b)
        &&& forall|b: int| post.is_free(b) <==> (pre.is_free(b) && !pre.in_block(level, idx, b))
    }

    /// Hands out a free block at exactly `level`: pops one off the level's
    /// free list if it has one, and otherwise splits a larger block.
    pub fn get_block(&mut self, level: usize) -> (r: Option<u32>)
        requires
            old(self).wf(),
            level <= old(self).levels as usize,
        ensures
            final(self).wf(),
            Self::same_config(*old(self), *final(self)),
            final(self).space_start == old(self).space_start,
            final(self).space_end == old(self).space_end,
            final(self).levels == old(self).levels,
            final(self).block_size == old(self).block_size,
            match r {
                Some(idx) => Self::block_removed(
                    *old(self),
                    *final(self),
                    level as int,
                    idx as int,
                ),
                None => *final(self) == *old(self) && forall|l: int|
                    0 <= l <= level ==> old(self).free_lists@[l]@.len() == 0,
            },
            (r is Some) <==> exists|l: int|
                0 <= l <= level && #[trigger] old(self).free_lists@[l]@.len() > 0,
            r matches Some(idx) ==> Self::take_post(
                *old(self),
                *final(self),
                level as int,
                idx as int,
            ),
        decreases 2 * level + 1,
    {
        let ghost pre = *self;
        if self.free_lists[level].len() > 0 {
            let idx_opt = self.free_lists[level].pop();
            let idx = idx_opt.unwrap();
            proof {
                let plen = pre.free_lists@[level as int]@.len() as int;
                assert(self.free_lists@[level as int]@ =~= pre.free_lists@[level as int]@.remove(
                    plen - 1,
                ));
                assert forall|l2: int|
                    0 <= l2 < pre.free_lists@.len() && l2 != level implies self.free_lists@[l2]@
                    == pre.free_lists@[l2]@ by {
                    assert(self.free_lists@[l2] == pre.free_lists@[l2]);
                }
                Self::lemma_withdraw_effect(pre, *self, level as int, plen - 1);
                lemma2_to64();
                assert((idx as int) / 1int == idx as int);
                assert(Self::chain_idx(idx as int, level as int, level as int) == idx as int);
                assert(self.free_lists@[level as int]@ =~= pre.free_lists@[level as int]@.drop_last());
                assert(Self::take_chain(pre, *self, level as int, idx as int, level as int));
                assert(Self::take_post(pre, *self, level as int, idx as int));
            }
            Some(idx)
        } else {
            self.split(level)
        }
    }

    /// Obtains a block at `level` by splitting: recursively takes a block of
    /// the next larger size, keeps its first half for the caller and puts
    /// the second half (the new block's buddy) on this level's free list.
    #[verifier::rlimit(100)]
    pub fn split(&mut self, level: usize) -> (r: Option<u32>)
        requires
            old(self).wf(),
            level <= old(self).levels as usize,
        ensures
            final(self).wf(),
            Self::same_config(*old(self), *final(self)),
            final(self).space_start == old(self).space_start,
            final(self).space_end == old(self).space_end,
            final(self).levels == old(self).levels,
            final(self).block_size == old(self).block_size,
            match r {
                Some(idx) => Self::block_removed(
                    *old(self),
                    *final(self),
                    level as int,
                    idx as int,
                ),
                None => *final(self) == *old(self) && forall|l: int|
                    0 <= l < level ==> old(self).free_lists@[l]@.len() == 0,
            },
            (r is Some) <==> exists|l: int|
                0 <= l < level && #[trigger] old(self).free_lists@[l]@.len() > 0,
            r matches Some(idx) ==> idx % 2 == 0 && Self::take_post(
                *old(self),
                *final(self),
                level as int,
                idx as int,
            ),
        decreases 2 * level,
    {
        if level == 0 {
            return None;
        }
        let ghost pre = *self;
        match self.get_block(level - 1) {
            Some(block) => {
                let ghost mid = *self;
                proof {
                    pre.lemma_children(level as int, block as int);
                    lemma2_to64();
                    if (level as nat) < 32 {
                        lemma_pow2_strictly_increases(level as nat, 32);
                    }
                    assert(pow2(level as nat) <= 0x100000000);
                }
                let right = block * 2 + 1;
                let ghost mid2 = *self;
                self.free_lists[level].push(right);
                proof {
                    assert forall|l2: int|
                        0 <= l2 < mid.free_lists@.len() && l2 != level implies self.free_lists@[l2]@
                        == mid.free_lists@[l2]@ by {
                        assert(self.free_lists@[l2] == mid.free_lists@[l2]);
                    }
                    assert forall|b: int| mid.in_block(
                        level as int,
                        right as int,
                        b,
                    ) implies !mid.is_free(b) by {
                        assert(pre.in_block(level as int, right as int, b));
                        assert(pre.in_block((level - 1) as int, block as int, b));
                    }
                    Self::lemma_push_effect(mid, *self, level as int, right);
                    let left = 2 * block as int;
                    assert forall|b: int| self.is_free(b) <==> (pre.is_free(b) && !pre.in_block(
                        level as int,
                        left,
                        b,
                    )) by {
                        if pre.in_block(level as int, right as int, b) {
                            assert(pre.in_block((level - 1) as int, block as int, b));
                            assert(pre.is_free(b));
                        }
                    }
                    assert forall|b: int| pre.in_block(level as int, left, b) implies pre.is_free(
                        b,
                    ) by {
                        assert(pre.in_block((level - 1) as int, block as int, b));
                    }
                    assert(Self::block_removed(pre, *self, level as int, left));
                    // translate the chain seen one level up
                    let lm1: int = (level - 1) as int;
                    let kr = choose|kr: int| Self::take_chain(pre, mid, lm1, block as int, kr);
                    assert(Self::take_chain(pre, mid, lm1, block as int, kr));
                    assert forall|m: int| 0 <= m <= level - 1 implies Self::chain_idx(
                        2 * block as int,
                        level as int,
                        m,
                    ) == Self::chain_idx(block as int, lm1, m) by {
                        lemma_pow2_adds(1, (level - 1 - m) as nat);
                        assert((2 * (block as int)) / 2 == block as int);
                        vstd::arithmetic::div_mod::lemma_div_denominator(
                            2 * block as int,
                            2,
                            pow2((level - 1 - m) as nat) as int,
                        );
                    }
                    assert((2 * (block as int)) / 1int == 2 * block as int);
                    assert(Self::chain_idx(2 * block as int, level as int, level as int) == 2
                        * block as int);
                    assert(self.free_lists@[kr]@ == pre.free_lists@[kr]@.drop_last());
                    assert forall|m: int| kr < m <= level implies self.free_lists@[m]@
                        == pre.free_lists@[m]@.push(
                        ((Self::chain_idx(2 * block as int, level as int, m) + 1) as u32),
                    ) by {
                        if m <= level - 1 {
                            assert(self.free_lists@[m]@ == mid.free_lists@[m]@);
                            assert(mid.free_lists@[m]@ == pre.free_lists@[m]@.push(
                                ((Self::chain_idx(block as int, lm1, m) + 1) as u32),
                            ));
                        } else {
                            assert(self.free_lists@[level as int]@
                                == mid.free_lists@[level as int]@.push(right));
                            assert(mid.free_lists@[level as int]@
                                == pre.free_lists@[level as int]@);
                        }
                    }
                    assert(Self::take_chain(pre, *self, level as int, 2 * block as int, kr));
                    assert(Self::take_post(pre, *self, level as int, (block * 2) as int));
                }
                Some(block * 2)
            },
            None => None,
        }
    }

    /// Sets up an allocator over `[space_start, space_end)` with leaf blocks
    /// of `block_size` bytes: the number of levels is the smallest that lets
    /// one level-0 block cover the whole range, and that single block starts
    /// out as the only free one.
    pub fn new(space_start: usize, space_end: usize, block_size: u16) -> (r: BuddyAllocator)
        requires
            space_start <= space_end,
            1 <= block_size,
            // the range is a power-of-two multiple of the leaf block, so the
            // usable capacity is exactly the range
            exists|e: nat| space_end - space_start == block_size as int * pow2(e),
            space_end - space_start <= block_size as int * pow2(32),
        ensures
            r.wf(),
            r.space_start == space_start,
            r.space_end == space_end,
            r.block_size == block_size,
            r.size_limit_spec() == space_end - space_start,
            r.levels == 0 || r.block_size as int * pow2((r.levels - 1) as nat) < space_end
                - space_start,
            r.free_lists@.len() == r.levels as int + 1,
            r.free_lists@[0]@ == seq![0u32],
            forall|l: int| 1 <= l < r.free_lists@.len() ==> (#[trigger] r.free_lists@[l]@).len()
                == 0,
            forall|b: int| r.is_free(b) <==> space_start <= b < space_end,
    {
        let size = space_end - space_start;
        proof {
            let e = choose|e: nat| size == block_size as int * pow2(e);
            lemma_pow2_pos(e);
            assert(block_size as int * 1 <= block_size as int * pow2(e)) by (nonlinear_arith)
                requires
                    block_size >= 1,
                    1 <= pow2(e),
            ;
        }
        let mut levels: u8 = 0;
        let mut limit: usize = block_size as usize;
        proof {
            lemma2_to64();
        }
        while limit < size
            invariant
                1 <= block_size,
                size <= block_size as int * pow2(32),
                exists|e: nat| size == block_size as int * pow2(e),
                1 <= limit,
                limit <= size,
                limit == block_size as int * pow2(levels as nat),
                levels == 0 || block_size as int * pow2((levels - 1) as nat) < size,
                levels <= 32,
            decreases 32 - levels,
        {
            proof {
                lemma_pow2_adds(1, levels as nat);
                lemma2_to64();
                assert(pow2((levels + 1) as nat) == 2 * pow2(levels as nat));
                assert(block_size as int * (2 * pow2(levels as nat)) == 2 * (block_size as int
                    * pow2(levels as nat))) by (nonlinear_arith);
                // the doubled block still fits the capacity: the capacity is
                // itself a power-of-two multiple of the leaf
                let e = choose|e: nat| size == block_size as int * pow2(e);
                if levels as nat >= e {
                    if (levels as nat) > e {
                        lemma_pow2_strictly_increases(e, levels as nat);
                    }
                    assert(block_size as int * pow2(levels as nat) >= block_size as int * pow2(
                        e,
                    )) by (nonlinear_arith)
                        requires
                            block_size >= 1,
                            pow2(levels as nat) >= pow2(e),
                    ;
                    assert(false);
                }
                if ((levels + 1) as nat) < e {
                    lemma_pow2_strictly_increases((levels + 1) as nat, e);
                }
                assert(block_size as int * pow2((levels + 1) as nat) <= block_size as int * pow2(
                    e,
                )) by (nonlinear_arith)
                    requires
                        block_size >= 1,
                        pow2((levels + 1) as nat) <= pow2(e),
                ;
                // the level count stays within the index type's reach
                if levels == 32 {
                    assert(pow2(32) <= block_size as int * pow2(32)) by (nonlinear_arith)
                        requires
                            block_size >= 1,
                            pow2(32) >= 0,
                    ;
                    assert(false);
                }
            }
            limit = limit * 2;
            levels = levels + 1;
        }
        let mut free_lists: Vec<Vec<u32>> = Vec::new();
        let mut i: usize = 0;
        while i < levels as usize + 1
            invariant
                i <= levels as usize + 1,
                free_lists@.len() == i,
                forall|l: int| 0 <= l < i ==> (#[trigger] free_lists@[l])@.len() == 0,
            decreases levels + 1 - i,
        {
            free_lists.push(Vec::new());
            i = i + 1;
        }
        let ghost before = free_lists@;
        free_lists[0].push(0u32);
        proof {
            assert forall|l: int| 1 <= l < free_lists@.len() implies (
            #[trigger] free_lists@[l])@.len() == 0 by {
                assert(free_lists@[l] == before[l]);
            }
            lemma_pow2_pos(0);
        }
        let r = BuddyAllocator { space_start, space_end, levels, block_size, free_lists };
        proof {
            assert(r.free_lists@[0]@.len() == 1 && r.free_lists@[0]@[0] == 0u32);
            assert(r.free_lists@[0]@ =~= seq![0u32]);
            assert(r.size_limit_spec() == space_end - space_start);
            assert(r.wf());
            r.lemma_level_total(0);
            assert(r.block_size_at(0) == r.size_limit_spec());
            assert(r.block_addr(0, 0) == space_start) by (nonlinear_arith)
                requires
                    r.block_addr(0, 0) == r.space_start + 0 * r.block_size_at(0),
                    r.space_start == space_start,
            ;
            assert forall|b: int| r.is_free(b) implies space_start <= b < space_start
                + r.size_limit_spec() by {
                let (l0, j0) = choose|l0: int, j0: int|
                    0 <= l0 < r.free_lists@.len() && 0 <= j0 < r.free_lists@[l0]@.len()
                        && r.in_block(l0, (#[trigger] r.free_lists@[l0]@[j0]) as int, b);
                assert(l0 == 0 && j0 == 0);
                assert(r.in_block(0, 0, b));
            }
            assert forall|b: int| space_start <= b < space_start
                + r.size_limit_spec() implies r.is_free(b) by {
                assert(r.in_block(0, r.free_lists@[0]@[0] as int, b));
            }
        }
        r
    }

    /// What a successful allocation does: the returned address is the start
    /// of a block of the serving level, the block lies inside the capacity,
    /// all its bytes were free, and exactly they are no longer free
    /// afterwards.
    pub open spec fn alloc_effect(
        pre: BuddyAllocator,
        post: BuddyAllocator,
        lv: int,
        idx: int,
        a: int,
    ) -> bool {
        &&& 0 <= lv <= pre.levels
        &&& 0 <= idx < pow2(lv as nat)
        &&& a == pre.block_addr(lv, idx)
        &&& pre.space_start <= a
        &&& a + pre.block_size_at(lv) <= pre.space_start + pre.size_limit_spec()
        &&& (a - pre.space_start) % pre.block_size_at(lv) == 0
        &&& forall|b: int| a <= b < a + pre.block_size_at(lv) ==> pre.is_free(b)
        &&& forall|b: int|
            post.is_free(b) <==> (pre.is_free(b) && !(a <= b < a + pre.block_size_at(lv)))
        &&& Self::take_post(pre, post, lv, idx)
    }

    /// What `allocate` guarantees when it returns address `a`: the serving
    /// level is the one determined by the normalized request, and some block
    /// index of that level witnesses the effect.
    pub open spec fn allocate_ok_post(
        pre: BuddyAllocator,
        post: BuddyAllocator,
        size: int,
        align: int,
        a: int,
    ) -> bool {
        exists|lv: int, idx: int|
            pre.is_level_for(pre.norm_request(size, align), lv) && Self::alloc_effect(
                pre,
                post,
                lv,
                idx,
                a,
            )
    }

    /// Whether a request can currently be served: it fits the capacity and
    /// some free list at or above the serving level is non-empty.
    pub open spec fn can_allocate(&self, size: int, align: int) -> bool {
        &&& self.norm_request(size, align) <= self.size_limit_spec()
        &&& exists|lv: int, l: int|
            #[trigger] self.is_level_for(self.norm_request(size, align), lv) && 0 <= l <= lv
                && #[trigger] self.free_lists@[l]@.len() > 0
    }

    /// Serves a request: the size is normalized (raised to the alignment and
    /// to at least one leaf block, so size zero becomes the minimum
    /// granularity), the serving level is computed, and a block of that
    /// level is handed out, split off a larger one if need be.
    pub fn allocate(&mut self, size: usize, align: usize) -> (r: Result<usize, AllocError>)
        requires
            old(self).wf(),
        ensures
            final(self).wf(),
            Self::same_config(*old(self), *final(self)),
            final(self).space_start == old(self).space_start,
            final(self).space_end == old(self).space_end,
            final(self).levels == old(self).levels,
            final(self).block_size == old(self).block_size,
            r is Err ==> *final(self) == *old(self),
            r == Err::<usize, AllocError>(AllocError::RangeExceeded) <==> old(self).norm_request(
                size as int,
                align as int,
            ) > old(self).size_limit_spec(),
            r == Err::<usize, AllocError>(AllocError::OutOfMemory) <==> (old(self).norm_request(
                size as int,
                align as int,
            ) <= old(self).size_limit_spec() && !old(self).can_allocate(size as int, align as int)),
            (r is Ok) <==> old(self).can_allocate(size as int, align as int),
            r matches Ok(a) ==> Self::allocate_ok_post(
                *old(self),
                *final(self),
                size as int,
                align as int,
                a as int,
            ),
        {
        let mut sz = size;
        if align > sz {
            sz = align;
        }
        if (self.block_size as usize) > sz {
            sz = self.block_size as usize;
        }
        let ghost pre = *self;
        match self.level_size(sz) {
            None => Err(AllocError::RangeExceeded),
            Some(required) => {
                match self.get_block(required) {
                    None => {
                        proof {
                            assert forall|lv: int, l: int|
                                #[trigger] pre.is_level_for(sz as int, lv) && 0 <= l <= lv implies (
                            #[trigger] pre.free_lists@[l]@.len()) == 0 by {
                                pre.lemma_level_unique(sz as int, lv, required as int);
                            }
                        }
                        Err(AllocError::OutOfMemory)
                    },
                    Some(block) => {
                        proof {
                            pre.lemma_block_in_range(required as int, block as int);
                            pre.lemma_bs_pos(required as int);
                        }
                        let lb = self.level_bytes(required);
                        proof {
                            assert((block as int) * (lb as int) + lb as int == (block as int + 1)
                                * (lb as int)) by (nonlinear_arith);
                            assert((block as int) * (lb as int) >= 0) by (nonlinear_arith)
                                requires
                                    block as int >= 0,
                                    lb as int >= 0,
                            ;
                        }
                        let off = (block as usize) * lb;
                        let a = self.space_start + off;
                        proof {
                            assert((a - pre.space_start) % pre.block_size_at(required as int)
                                == 0) by (nonlinear_arith)
                                requires
                                    a - pre.space_start == block as int * pre.block_size_at(
                                        required as int,
                                    ),
                                    pre.block_size_at(required as int) >= 1,
                            ;
                            assert(Self::alloc_effect(
                                pre,
                                *self,
                                required as int,
                                block as int,
                                a as int,
                            ));
                            assert(Self::allocate_ok_post(
                                pre,
                                *self,
                                size as int,
                                align as int,
                                a as int,
                            ));
                        }
                        Ok(a)
                    },
                }
            },
        }
    }

    /// Finds the position of `value` on level `level`'s free list.
    fn position_of(&self, level: usize, value: u32) -> (r: Option<usize>)
        requires
            self.wf(),
            level < self.free_lists@.len(),
        ensures
            match r {
                Some(p) => 0 <= p < self.free_lists@[level as int]@.len()
                    && self.free_lists@[level as int]@[p as int] == value,
                None => forall|j: int|
                    0 <= j < self.free_lists@[level as int]@.len()
                        ==> #[trigger] self.free_lists@[level as int]@[j] != value,
            },
    {
        let list = &self.free_lists[level];
        let mut p: usize = 0;
        while p < list.len()
            invariant
                list@ == self.free_lists@[level as int]@,
                p <= list@.len(),
                forall|j: int| 0 <= j < p ==> #[trigger] list@[j] != value,
            decreases list@.len() - p,
        {
            if list[p] == value {
                return Some(p);
            }
            p = p + 1;
        }
        None
    }

    /// The buddy of a block index: the one differing in the lowest bit.
    pub open spec fn buddy_of(i: int) -> int {
        if i % 2 == 0 {
            i + 1
        } else {
            i - 1
        }
    }

    /// The ancestor of block `idx` of `level` that lives at level `m`: the
    /// index divided by two once per level climbed.
    pub open spec fn chain_idx(idx: int, level: int, m: int) -> int {
        idx / (pow2((level - m) as nat) as int)
    }

    /// Whether the index `v` stands somewhere on level `m`'s free list.
    pub open spec fn on_list(&self, m: int, v: u32) -> bool {
        exists|j: int|
            0 <= j < self.free_lists@[m]@.len() && (#[trigger] self.free_lists@[m]@[j]) == v
    }

    /// `posts` is `pres` with one occurrence of `v` taken out.
    pub open spec fn removed_one(pres: Seq<u32>, posts: Seq<u32>, v: u32) -> bool {
        exists|j: int| 0 <= j < pres.len() && pres[j] == v && posts == pres.remove(j)
    }

    /// The structural effect of merging, witnessed by the level `k` where it
    /// stopped. If the block's buddy was absent, nothing happened and
    /// `k == level`. Otherwise, at the entry level the block (the most
    /// recent entry) and its buddy both left; at every level climbed through
    /// the merged ancestor met its buddy there, which left as well; the
    /// final parent joined level `k`'s list, where its own buddy is absent
    /// (or `k` is 0); and every other level is untouched.
    pub open spec fn merge_chain(
        pre: BuddyAllocator,
        post: BuddyAllocator,
        level: int,
        block_num: u32,
        k: int,
    ) -> bool {
        &&& 0 <= k <= level
        &&& (k == level ==> post == pre && !pre.on_list(
            level,
            (Self::buddy_of(block_num as int) as u32),
        ))
        &&& (k < level ==> {
            &&& Self::removed_one(
                pre.free_lists@[level]@.drop_last(),
                post.free_lists@[level]@,
                (Self::buddy_of(block_num as int) as u32),
            )
            &&& (forall|m: int|
                k < m < level ==> Self::removed_one(
                    pre.free_lists@[m]@,
                    #[trigger] post.free_lists@[m]@,
                    (Self::buddy_of(Self::chain_idx(block_num as int, level, m)) as u32),
                ))
            &&& post.free_lists@[k]@ == pre.free_lists@[k]@.push(
                (Self::chain_idx(block_num as int, level, k) as u32),
            )
            &&& (k == 0 || !pre.on_list(
                k,
                (Self::buddy_of(Self::chain_idx(block_num as int, level, k)) as u32),
            ))
            &&& (forall|m: int|
                0 <= m < pre.free_lists@.len() && !(k <= m <= level)
                    ==> #[trigger] post.free_lists@[m]@ == pre.free_lists@[m]@)
        })
    }

    /// What merging does to the free-list structure: some stopping level
    /// witnesses the chain.
    pub open spec fn merge_post(
        pre: BuddyAllocator,
        post: BuddyAllocator,
        level: int,
        block_num: u32,
    ) -> bool {
        exists|k: int| Self::merge_chain(pre, post, level, block_num, k)
    }

    /// Coalesces a just-freed block upward: while the block's buddy is also
    /// free at the same level, both leave their level's list and the parent
    /// joins the list one level up, where merging continues. The block must
    /// sit at the end of its level's list (it was just pushed there).
    /// Merging never changes which bytes are free.
    #[verifier::rlimit(100)]
    pub fn merge(&mut self, level: usize, block_num: u32)
        requires
            old(self).wf(),
            level <= old(self).levels,
            old(self).free_lists@[level as int]@.len() > 0,
            old(self).free_lists@[level as int]@.last() == block_num,
        ensures
            final(self).wf(),
            Self::same_config(*old(self), *final(self)),
            final(self).space_start == old(self).space_start,
            final(self).space_end == old(self).space_end,
            final(self).levels == old(self).levels,
            final(self).block_size == old(self).block_size,
            forall|b: int| final(self).is_free(b) <==> old(self).is_free(b),
            exists|l: int| 0 <= l <= level && #[trigger] final(self).free_lists@[l]@.len() > 0,
            Self::merge_post(*old(self), *final(self), level as int, block_num),
        decreases level,
    {
        let buddy_block = block_num ^ 1;
        proof {
            // the buddy differs from the block exactly in the lowest bit
            assert((block_num ^ 1) != block_num) by (bit_vector);
            assert(block_num % 2 == 0 ==> block_num ^ 1 == block_num + 1) by (bit_vector);
            assert(block_num % 2 != 0 ==> block_num ^ 1 == block_num - 1) by (bit_vector);
        }
        proof {
            // connect the bit-level buddy to its arithmetic description and
            // note that a block is its own chain ancestor at its own level
            lemma2_to64();
            assert(buddy_block as int == Self::buddy_of(block_num as int));
            assert((block_num as int) / 1int == block_num as int);
            assert(Self::chain_idx(block_num as int, level as int, level as int)
                == block_num as int);
        }
        match self.position_of(level, buddy_block) {
            None => {
                proof {
                    assert(self.free_lists@[level as int]@.len() > 0);
                    assert(Self::merge_chain(
                        *old(self),
                        *self,
                        level as int,
                        block_num,
                        level as int,
                    ));
                    assert(Self::merge_post(*old(self), *self, level as int, block_num));
                }
            },
            Some(buddy_idx) => {
                let ghost pre = *self;
                let ghost plen = pre.free_lists@[level as int]@.len() as int;
                proof {
                    // two distinct indices live at this level, so it is not level 0
                    lemma2_to64();
                    assert(pre.free_lists@[level as int]@[plen - 1] == block_num);
                    if level == 0 {
                        assert(block_num < pow2(0));
                        assert(buddy_block < pow2(0));
                        assert(false);
                    }
                    // the buddy is not the last entry: that one is the block itself
                    assert(buddy_idx != plen - 1);
                }
                let _ = self.free_lists[level].pop();
                let ghost mid1 = *self;
                proof {
                    assert(mid1.free_lists@[level as int]@ =~= pre.free_lists@[level as int]@.remove(
                        plen - 1,
                    ));
                    assert forall|l2: int|
                        0 <= l2 < pre.free_lists@.len() && l2 != level implies mid1.free_lists@[l2]@
                        == pre.free_lists@[l2]@ by {
                        assert(mid1.free_lists@[l2] == pre.free_lists@[l2]);
                    }
                    Self::lemma_withdraw_effect(pre, mid1, level as int, plen - 1);
                    assert(mid1.free_lists@[level as int]@[buddy_idx as int] == buddy_block);
                }
                let _ = self.free_lists[level].remove(buddy_idx);
                let ghost mid2 = *self;
                proof {
                    assert forall|l2: int|
                        0 <= l2 < mid1.free_lists@.len() && l2 != level implies mid2.free_lists@[l2]@
                        == mid1.free_lists@[l2]@ by {
                        assert(mid2.free_lists@[l2] == mid1.free_lists@[l2]);
                    }
                    Self::lemma_withdraw_effect(mid1, mid2, level as int, buddy_idx as int);
                }
                let parent = block_num / 2;
                proof {
                    lemma_pow2_adds(1, (level - 1) as nat);
                    lemma2_to64();
                    assert(pow2(level as nat) == 2 * pow2((level - 1) as nat));
                    assert(parent < pow2((level - 1) as nat)) by (nonlinear_arith)
                        requires
                            parent == block_num as int / 2,
                            block_num < 2 * pow2((level - 1) as nat),
                            pow2((level - 1) as nat) >= 1,
                    ;
                    pre.lemma_children(level as int, parent as int);
                    // the two children of the parent are the block and its buddy
                    assert(block_num as int == 2 * parent || block_num as int == 2 * parent + 1);
                }
                self.free_lists[level - 1].push(parent);
                proof {
                    assert forall|l2: int|
                        0 <= l2 < mid2.free_lists@.len() && l2 != level - 1 implies self.free_lists@[l2]@
                        == mid2.free_lists@[l2]@ by {
                        assert(self.free_lists@[l2] == mid2.free_lists@[l2]);
                    }
                    assert forall|b: int| mid2.in_block(
                        (level - 1) as int,
                        parent as int,
                        b,
                    ) implies !mid2.is_free(b) by {
                        assert(pre.in_block((level - 1) as int, parent as int, b));
                        assert(pre.in_block(level as int, 2 * parent as int, b) || pre.in_block(
                            level as int,
                            2 * parent as int + 1,
                            b,
                        ));
                    }
                    Self::lemma_push_effect(mid2, *self, (level - 1) as int, parent);
                    assert forall|b: int| self.is_free(b) <==> pre.is_free(b) by {
                        if pre.in_block((level - 1) as int, parent as int, b) {
                            assert(pre.in_block(level as int, 2 * parent as int, b)
                                || pre.in_block(level as int, 2 * parent as int + 1, b));
                        }
                    }
                    assert(self.free_lists@[(level - 1) as int]@.last() == parent);
                }
                let ghost mid3 = *self;
                self.merge(level - 1, parent);
                proof {
                    let lm1: int = (level - 1) as int;
                    let kr = choose|kr: int| Self::merge_chain(mid3, *self, lm1, parent, kr);
                    assert(Self::merge_chain(mid3, *self, (level - 1) as int, parent, kr));
                    // the chain indices seen one level down are the same
                    // ancestors seen from the entry level
                    assert forall|m: int| 0 <= m <= level - 1 implies Self::chain_idx(
                        parent as int,
                        (level - 1) as int,
                        m,
                    ) == Self::chain_idx(block_num as int, level as int, m) by {
                        lemma_pow2_adds(1, (level - 1 - m) as nat);
                        lemma2_to64();
                        vstd::arithmetic::div_mod::lemma_div_denominator(
                            block_num as int,
                            2,
                            pow2((level - 1 - m) as nat) as int,
                        );
                    }
                    assert(Self::chain_idx(block_num as int, level as int, (level - 1) as int)
                        == parent as int);
                    // the entry level kept its pop-and-remove shape through the
                    // recursion, which never touches it again
                    assert(self.free_lists@[level as int]@
                        == pre.free_lists@[level as int]@.drop_last().remove(buddy_idx as int));
                    assert(pre.free_lists@[level as int]@.drop_last()[buddy_idx as int]
                        == buddy_block);
                    assert(Self::removed_one(
                        pre.free_lists@[level as int]@.drop_last(),
                        self.free_lists@[level as int]@,
                        buddy_block,
                    ));
                    if kr == level - 1 {
                        // the recursion stopped at once: the parent stayed pushed
                        assert(self.free_lists@[(level - 1) as int]@
                            == pre.free_lists@[(level - 1) as int]@.push(parent));
                        assert(!mid3.on_list(
                            (level - 1) as int,
                            (Self::buddy_of(parent as int) as u32),
                        ));
                        if level - 1 > 0 && pre.on_list(
                            (level - 1) as int,
                            (Self::buddy_of(parent as int) as u32),
                        ) {
                            let j = choose|j: int|
                                0 <= j < pre.free_lists@[(level - 1) as int]@.len() && (
                                #[trigger] pre.free_lists@[(level - 1) as int]@[j])
                                    == (Self::buddy_of(parent as int) as u32);
                            assert(mid3.free_lists@[(level - 1) as int]@[j]
                                == (Self::buddy_of(parent as int) as u32));
                            assert(false);
                        }
                        assert(Self::merge_chain(
                            pre,
                            *self,
                            level as int,
                            block_num,
                            (level - 1) as int,
                        ));
                    } else {
                        // the recursion climbed on: translate its chain
                        assert(mid3.free_lists@[(level - 1) as int]@.drop_last() =~= pre.free_lists@[(
                        level - 1) as int]@);
                        assert(Self::removed_one(
                            pre.free_lists@[(level - 1) as int]@,
                            self.free_lists@[(level - 1) as int]@,
                            (Self::buddy_of(
                                Self::chain_idx(block_num as int, level as int, (level - 1) as int),
                            ) as u32),
                        ));
                        assert forall|m: int| kr < m < level implies Self::removed_one(
                            pre.free_lists@[m]@,
                            #[trigger] self.free_lists@[m]@,
                            (Self::buddy_of(
                                Self::chain_idx(block_num as int, level as int, m),
                            ) as u32),
                        ) by {
                            if m < level - 1 {
                                assert(mid3.free_lists@[m]@ == pre.free_lists@[m]@);
                                assert(Self::removed_one(
                                    mid3.free_lists@[m]@,
                                    self.free_lists@[m]@,
                                    (Self::buddy_of(
                                        Self::chain_idx(parent as int, (level - 1) as int, m),
                                    ) as u32),
                                ));
                            }
                        }
                        assert(self.free_lists@[kr]@ == pre.free_lists@[kr]@.push(
                            (Self::chain_idx(block_num as int, level as int, kr) as u32),
                        ));
                        assert(kr == 0 || !pre.on_list(
                            kr,
                            (Self::buddy_of(
                                Self::chain_idx(block_num as int, level as int, kr),
                            ) as u32),
                        ));
                        assert(Self::merge_chain(pre, *self, level as int, block_num, kr));
                    }
                    assert(Self::merge_post(pre, *self, level as int, block_num));
                    assert(Self::merge_post(*old(self), *self, level as int, block_num));
                }
            },
        }
    }

    /// The deallocation precondition: the triple must match an allocation
    /// that has not been freed since. The address is block-aligned for the
    /// serving level, the block lies inside the capacity, and none of its
    /// bytes are free.
    pub open spec fn dealloc_pre(&self, addr: int, size: int, align: int) -> bool {
        let m = self.norm_request(size, align);
        let lv = self.level_for(m);
        &&& m <= self.size_limit_spec()
        &&& self.space_start <= addr
        &&& (addr - self.space_start) % self.block_size_at(lv) == 0
        &&& addr + self.block_size_at(lv) <= self.space_start + self.size_limit_spec()
        &&& forall|b: int| addr <= b < addr + self.block_size_at(lv) ==> !self.is_free(b)
    }

    /// One deallocation, structurally: the freed block's index joined the
    /// serving level's free list — `mid` is the state right after that — and
    /// was then merged upward with its free buddies.
    pub open spec fn dealloc_step(
        pre: BuddyAllocator,
        mid: BuddyAllocator,
        post: BuddyAllocator,
        addr: int,
        size: int,
        align: int,
    ) -> bool {
        let lv = pre.level_for(pre.norm_request(size, align));
        let idx = (addr - pre.space_start) / pre.block_size_at(lv);
        &&& Self::same_config(pre, mid)
        &&& (forall|m: int|
            0 <= m < pre.free_lists@.len() && m != lv ==> #[trigger] mid.free_lists@[m]@
                == pre.free_lists@[m]@)
        &&& mid.free_lists@[lv]@ == pre.free_lists@[lv]@.push((idx as u32))
        &&& Self::merge_post(mid, post, lv, (idx as u32))
    }

    /// What `deallocate` guarantees: exactly the freed block's bytes joined
    /// the free ones, and some free list at or above the serving level is
    /// non-empty, so the same request can be served again; structurally, the
    /// freed index was pushed on the serving level's list and merged upward.
    pub open spec fn dealloc_post(
        pre: BuddyAllocator,
        post: BuddyAllocator,
        addr: int,
        size: int,
        align: int,
    ) -> bool {
        let lv = pre.level_for(pre.norm_request(size, align));
        &&& forall|b: int|
            post.is_free(b) <==> (pre.is_free(b) || addr <= b < addr + pre.block_size_at(lv))
        &&& exists|l: int| 0 <= l <= lv && #[trigger] post.free_lists@[l]@.len() > 0
        &&& exists|mid: BuddyAllocator| Self::dealloc_step(pre, mid, post, addr, size, align)
    }

    /// Returns a block to the allocator: the serving level is recomputed
    /// from the same size and alignment the matching allocation used, the
    /// block joins that level's free list, and buddies are merged upward.
    pub fn deallocate(&mut self, addr: usize, size: usize, align: usize)
        requires
            old(self).wf(),
            old(self).dealloc_pre(addr as int, size as int, align as int),
        ensures
            final(self).wf(),
            Self::same_config(*old(self), *final(self)),
            final(self).space_start == old(self).space_start,
            final(self).space_end == old(self).space_end,
            final(self).levels == old(self).levels,
            final(self).block_size == old(self).block_size,
            Self::dealloc_post(
                *old(self),
                *final(self),
                addr as int,
                size as int,
                align as int,
            ),
    {
        let mut sz = size;
        if align > sz {
            sz = align;
        }
        if (self.block_size as usize) > sz {
            sz = self.block_size as usize;
        }
        let ghost pre = *self;
        let ghost lv = pre.level_for(sz as int);
        match self.level_size(sz) {
            None => {
                proof {
                    assert(false);
                }
            },
            Some(required) => {
                proof {
                    assert(pre.is_level_for(sz as int, pre.level_for(sz as int))) by {
                        assert(pre.is_level_for(sz as int, required as int));
                    }
                    pre.lemma_level_unique(sz as int, required as int, lv);
                    pre.lemma_bs_pos(required as int);
                }
                let lb = self.level_bytes(required);
                let off = addr - self.space_start;
                let block_number_wide = off / lb;
                proof {
                    vstd::arithmetic::div_mod::lemma_fundamental_div_mod(off as int, lb as int);
                    assert(off as int == lb as int * (off as int / lb as int));
                    assert(lb as int * (off as int / lb as int) == (off as int / lb as int)
                        * lb as int) by (nonlinear_arith);
                    pre.lemma_level_total(required as int);
                    // one past this block still fits the capacity
                    assert(block_number_wide as int + 1 <= pow2(required as nat))
                        by (nonlinear_arith)
                        requires
                            (block_number_wide as int) * lb as int + lb as int <= pow2(
                                required as nat,
                            ) * lb as int,
                            lb as int >= 1,
                    ;
                    lemma2_to64();
                    if (required as nat) < 32 {
                        lemma_pow2_strictly_increases(required as nat, 32);
                    }
                    assert(pow2(required as nat) <= 0x100000000);
                }
                let block_number = block_number_wide as u32;
                self.free_lists[required].push(block_number);
                proof {
                    assert forall|l2: int|
                        0 <= l2 < pre.free_lists@.len() && l2 != required implies self.free_lists@[l2]@
                        == pre.free_lists@[l2]@ by {
                        assert(self.free_lists@[l2] == pre.free_lists@[l2]);
                    }
                    assert(pre.block_addr(required as int, block_number as int) == addr);
                    assert forall|b: int| pre.in_block(
                        required as int,
                        block_number as int,
                        b,
                    ) implies !pre.is_free(b) by {
                        assert(addr <= b < addr + pre.block_size_at(lv));
                    }
                    Self::lemma_push_effect(pre, *self, required as int, block_number);
                    assert(self.free_lists@[required as int]@.last() == block_number);
                }
                let ghost mid = *self;
                self.merge(required, block_number);
                proof {
                    assert forall|b: int| self.is_free(b) <==> (pre.is_free(b) || addr <= b < addr
                        + pre.block_size_at(lv)) by {
                        assert(self.is_free(b) <==> mid.is_free(b));
                    }
                    let ghost wl = choose|l: int|
                        0 <= l <= required && #[trigger] self.free_lists@[l]@.len() > 0;
                    assert(0 <= wl <= lv && self.free_lists@[wl]@.len() > 0);
                    assert((addr - pre.space_start) as int / pre.block_size_at(lv)
                        == block_number as int);
                    assert(Self::dealloc_step(pre, mid, *self, addr as int, size as int, align as int));
                    assert(exists|w: BuddyAllocator|
                        Self::dealloc_step(pre, w, *self, addr as int, size as int, align as int));
                }
            },
        }
    }

    /// Merge correctness: when the freed block's buddy, and every buddy of
    /// the merged ancestors above it, is free, merging propagates all the
    /// way to level 0, so the whole-range block returns to level 0's list
    /// and a full-capacity request can be served again.
    pub proof fn lemma_merge_propagates(
        pre: BuddyAllocator,
        post: BuddyAllocator,
        level: int,
        block_num: u32,
    )
        requires
            1 <= level < pre.free_lists@.len(),
            Self::merge_post(pre, post, level, block_num),
            forall|m: int|
                1 <= m <= level ==> pre.on_list(
                    m,
                    (Self::buddy_of(Self::chain_idx(block_num as int, level, m)) as u32),
                ),
        ensures
            post.free_lists@[0]@ == pre.free_lists@[0]@.push(
                (Self::chain_idx(block_num as int, level, 0) as u32),
            ),
            post.free_lists@[0]@.len() > 0,
    {
        let k = choose|k: int| Self::merge_chain(pre, post, level, block_num, k);
        assert(Self::merge_chain(pre, post, level, block_num, k));
        if k == level && level > 0 {
            vstd::arithmetic::power2::lemma2_to64();
            assert((block_num as int) / 1int == block_num as int);
            assert(Self::chain_idx(block_num as int, level, level) == block_num as int);
            assert(pre.on_list(level, (Self::buddy_of(block_num as int) as u32)));
            assert(false);
        }
        if 0 < k < level {
            assert(pre.on_list(
                k,
                (Self::buddy_of(Self::chain_idx(block_num as int, level, k)) as u32),
            ));
            assert(false);
        }
    }

    /// Conservation, allocation step: when the allocated and the free bytes
    /// partition the capacity exactly, a successful allocation moves exactly
    /// the served block's bytes from the free side to the allocated side:
    /// the two sides still partition the capacity, no byte counted twice or
    /// lost, and the served block overlaps nothing already allocated nor
    /// leaves the capacity.
    pub proof fn lemma_conservation_allocate(
        pre: BuddyAllocator,
        post: BuddyAllocator,
        allocated: Set<int>,
        size: int,
        align: int,
        a: int,
    )
        requires
            pre.wf(),
            forall|b: int| allocated.contains(b) ==> !pre.is_free(b),
            forall|b: int|
                pre.space_start <= b < pre.space_start + pre.size_limit_spec() <==> (
                allocated.contains(b) || pre.is_free(b)),
            Self::allocate_ok_post(pre, post, size, align, a),
        ensures
            ({
                let n = pre.block_size_at(pre.level_for(pre.norm_request(size, align)));
                &&& pre.space_start <= a && a + n <= pre.space_start + pre.size_limit_spec()
                &&& forall|b: int| a <= b < a + n ==> pre.is_free(b)
                &&& forall|b: int| a <= b < a + n ==> !allocated.contains(b)
                &&& forall|b: int|
                    (allocated.contains(b) || a <= b < a + n) ==> !post.is_free(b)
                &&& forall|b: int|
                    pre.space_start <= b < pre.space_start + pre.size_limit_spec() <==> ((
                    allocated.contains(b) || a <= b < a + n) || post.is_free(b))
            }),
    {
        let m = pre.norm_request(size, align);
        let (lv, idx) = choose|lv: int, idx: int|
            pre.is_level_for(m, lv) && Self::alloc_effect(pre, post, lv, idx, a);
        assert(pre.is_level_for(m, lv) && Self::alloc_effect(pre, post, lv, idx, a));
        assert(pre.is_level_for(m, pre.level_for(m))) by {
            assert(pre.is_level_for(m, lv));
        }
        pre.lemma_level_unique(m, lv, pre.level_for(m));
    }

    /// Conservation, deallocation step: freeing a block that was allocated
    /// moves exactly its bytes back from the allocated side to the free
    /// side, and the two sides still partition the capacity.
    pub proof fn lemma_conservation_deallocate(
        pre: BuddyAllocator,
        post: BuddyAllocator,
        allocated: Set<int>,
        addr: int,
        size: int,
        align: int,
    )
        requires
            pre.wf(),
            forall|b: int| allocated.contains(b) ==> !pre.is_free(b),
            forall|b: int|
                pre.space_start <= b < pre.space_start + pre.size_limit_spec() <==> (
                allocated.contains(b) || pre.is_free(b)),
            forall|b: int|
                addr <= b < addr + pre.block_size_at(
                    pre.level_for(pre.norm_request(size, align)),
                ) ==> allocated.contains(b),
            Self::dealloc_post(pre, post, addr, size, align),
        ensures
            ({
                let n = pre.block_size_at(pre.level_for(pre.norm_request(size, align)));
                &&& forall|b: int|
                    (allocated.contains(b) && !(addr <= b < addr + n)) ==> !post.is_free(b)
                &&& forall|b: int| addr <= b < addr + n ==> post.is_free(b)
                &&& forall|b: int|
                    pre.space_start <= b < pre.space_start + pre.size_limit_spec() <==> ((
                    allocated.contains(b) && !(addr <= b < addr + n)) || post.is_free(b))
            }),
    {
    }

    /// Round trip: a successful allocation, immediately undone by freeing
    /// the same block with the same size and alignment, leaves the
    /// allocator able to serve the same request again.
    pub proof fn lemma_round_trip(
        pre: BuddyAllocator,
        mid: BuddyAllocator,
        post: BuddyAllocator,
        size: usize,
        align: usize,
        a: usize,
    )
        requires
            pre.wf(),
            Self::same_config(pre, mid),
            mid.space_start == pre.space_start,
            mid.levels == pre.levels,
            mid.block_size == pre.block_size,
            Self::same_config(mid, post),
            post.levels == pre.levels,
            post.block_size == pre.block_size,
            Self::allocate_ok_post(pre, mid, size as int, align as int, a as int),
            Self::dealloc_post(mid, post, a as int, size as int, align as int),
        ensures
            post.can_allocate(size as int, align as int),
    {
        let m = pre.norm_request(size as int, align as int);
        let (lv, idx) = choose|lv: int, idx: int|
            pre.is_level_for(m, lv) && Self::alloc_effect(pre, mid, lv, idx, a as int);
        assert(pre.is_level_for(m, lv) && Self::alloc_effect(pre, mid, lv, idx, a as int));
        assert(mid.norm_request(size as int, align as int) == m);
        assert(mid.is_level_for(m, lv));
        let lv_mid = mid.level_for(m);
        assert(mid.is_level_for(m, lv_mid)) by {
            assert(mid.is_level_for(m, lv));
        }
        assert(pre.is_level_for(m, lv_mid));
        pre.lemma_level_unique(m, lv, lv_mid);
        let wl = choose|l: int| 0 <= l <= lv_mid && #[trigger] post.free_lists@[l]@.len() > 0;
        assert(0 <= wl <= lv_mid && post.free_lists@[wl]@.len() > 0);
        assert(post.is_level_for(m, lv));
        assert(post.norm_request(size as int, align as int) == m);
        // the request still fits the capacity
        pre.lemma_bs_mono(0, lv);
        assert(pre.block_size_at(0) == pre.size_limit_spec()) by {
            lemma2_to64();
        }
        assert(post.size_limit_spec() == pre.size_limit_spec());
        assert(exists|lv2: int, l: int|
            #[trigger] post.is_level_for(post.norm_request(size as int, align as int), lv2) && 0
                <= l <= lv2 && #[trigger] post.free_lists@[l]@.len() > 0) by {
            assert(post.is_level_for(post.norm_request(size as int, align as int), lv)
                && 0 <= wl <= lv && post.free_lists@[wl]@.len() > 0);
        }
    }

    /// A successful allocation may be undone at once: its address, size and
    /// alignment meet `deallocate`'s precondition.
    pub proof fn lemma_dealloc_allowed(
        pre: BuddyAllocator,
        mid: BuddyAllocator,
        size: usize,
        align: usize,
        a: usize,
    )
        requires
            pre.wf(),
            mid.wf(),
            Self::same_config(pre, mid),
            mid.space_start == pre.space_start,
            mid.levels == pre.levels,
            mid.block_size == pre.block_size,
            Self::allocate_ok_post(pre, mid, size as int, align as int, a as int),
        ensures
            mid.dealloc_pre(a as int, size as int, align as int),
    {
        let m = pre.norm_request(size as int, align as int);
        let (lv, idx) = choose|lv: int, idx: int|
            pre.is_level_for(m, lv) && Self::alloc_effect(pre, mid, lv, idx, a as int);
        assert(pre.is_level_for(m, lv) && Self::alloc_effect(pre, mid, lv, idx, a as int));
        assert(mid.norm_request(size as int, align as int) == m);
        let lv_mid = mid.level_for(m);
        assert(mid.is_level_for(m, lv_mid)) by {
            assert(mid.is_level_for(m, lv));
        }
        mid.lemma_level_unique(m, lv, lv_mid);
        pre.lemma_bs_mono(0, lv);
        assert(pre.block_size_at(0) == pre.size_limit_spec()) by {
            lemma2_to64();
        }
    }
}

} // verus!
