//! The page allocator and its region source.
//!
//! A `Region` models one contiguous, zero-initialised, read/write block of
//! memory obtained from the operating system; the allocator owns every region
//! it has acquired and serves byte-granular requests by bump-allocating inside
//! the current standard region, acquiring a dedicated region for oversized
//! requests.  A returned `Ptr` names a byte range by region index and offset;
//! all reads and writes of allocated memory go through the allocator, so the
//! whole state of memory stays explicit.  The allocator is passed around by
//! exclusive reference rather than living in process-wide shared state, so
//! observing the remaining space and committing to an offset can never be
//! torn apart by a concurrent caller.

use vstd::pervasive::VecAdditionalExecFns;
use vstd::prelude::*;

verus! {

/// Size in bytes of a standard region.
pub const PAGE_SIZE: usize = 0x1000;

/// A contiguous block of memory obtained from the operating system.
pub struct Region {
    /// The bytes of the region; its length is the region's size.
    pub data: Vec<u8>,
}

/// A zero-filled byte sequence of the given length.
pub open spec fn zeros(n: int) -> Seq<u8> {
    Seq::new(n as nat, |i: int| 0u8)
}

/// The region source: maps a fresh, zero-filled, read/write block of exactly
/// `size_bytes` bytes.  Inability to satisfy the request is fatal (the
/// process aborts inside the memory allocation), matching a freestanding
/// environment with no fallback tier.
pub fn acquire_region(size_bytes: usize) -> (r: Region)
    requires
        1 <= size_bytes,
    ensures
        r.data@ == zeros(size_bytes as int),
{
    let mut data: Vec<u8> = Vec::new();
    let mut i: usize = 0;
    proof {
        assert(Seq::<u8>::empty() =~= zeros(0));
    }
    while i < size_bytes
        invariant
            i <= size_bytes,
            data@ == zeros(i as int),
        decreases size_bytes - i,
    {
        data.push(0u8);
        proof {
            assert(data@ =~= zeros(i + 1));
        }
        i = i + 1;
    }
    Region { data }
}

/// One allocation the allocator has handed out: a byte range of a region.
pub struct AllocRec {
    pub region: int,
    pub offset: int,
    pub size: int,
}

/// Names a byte range handed out by the allocator: the index of the region
/// it lies in and the byte offset of its first byte within that region.
#[derive(Clone, Copy)]
pub struct Ptr {
    pub region: usize,
    pub offset: usize,
}

/// Sum of the sizes of the allocations among `allocs[..j]` that lie in
/// region `r`.
pub open spec fn sum_before(allocs: Seq<AllocRec>, r: int, j: int) -> int
    decreases j,
{
    if j <= 0 {
        0
    } else {
        sum_before(allocs, r, j - 1) + if allocs[j - 1].region == r {
            allocs[j - 1].size
        } else {
            0
        }
    }
}

/// The page allocator.  It owns every region it has acquired for the life of
/// the process; no region is ever released (a known limitation, not an
/// invariant worth preserving).
pub struct DummyAllocator {
    /// Every region acquired so far, in acquisition order.
    pub regions: Vec<Region>,
    /// Index of the current standard region, if one exists.
    pub current: Option<usize>,
    /// Next free byte offset within the current standard region.
    pub cursor: usize,
    /// Every allocation handed out so far, in order.
    pub history: Ghost<Seq<AllocRec>>,
}

impl DummyAllocator {
    pub open spec fn allocs(self) -> Seq<AllocRec> {
        self.history@
    }

    pub open spec fn n_regions(self) -> int {
        self.regions@.len() as int
    }

    pub open spec fn region_bytes(self, r: int) -> Seq<u8> {
        self.regions@[r].data@
    }

    pub open spec fn has_current(self) -> bool {
        self.current is Some
    }

    /// The allocator invariant: the cursor stays within the current standard
    /// region and equals the total of what was handed out of it; every
    /// recorded allocation lies within its region; allocations in one region
    /// never overlap and are handed out at strictly increasing offsets, each
    /// starting exactly at the sum of the sizes handed out of that region
    /// before it.
    pub open spec fn wf(self) -> bool {
        let al = self.allocs();
        &&& match self.current {
            Some(r) => {
                &&& (r as int) < self.n_regions()
                &&& self.region_bytes(r as int).len() == PAGE_SIZE
                &&& self.cursor <= PAGE_SIZE
                &&& self.cursor == sum_before(al, r as int, al.len() as int)
                &&& forall|j: int|
                    0 <= j < al.len() && (#[trigger] al[j]).region == r as int ==> al[j].offset
                        + al[j].size <= self.cursor
            },
            None => self.cursor == 0,
        }
        &&& forall|j: int|
            0 <= j < al.len() ==> 0 <= (#[trigger] al[j]).region < self.n_regions()
        &&& forall|j: int|
            0 <= j < al.len() ==> 0 <= (#[trigger] al[j]).offset && 1 <= al[j].size && al[j].offset
                + al[j].size <= self.region_bytes(al[j].region).len()
        &&& forall|i: int, j: int|
            #![trigger al[i], al[j]]
            0 <= i < j < al.len() && al[i].region == al[j].region ==> al[i].offset + al[i].size
                <= al[j].offset
        &&& forall|j: int|
            0 <= j < al.len() ==> (#[trigger] al[j]).offset == sum_before(al, al[j].region, j)
    }

    /// An allocator with no region yet.
    pub fn new() -> (a: DummyAllocator)
        ensures
            a.wf(),
            a.allocs().len() == 0,
            a.n_regions() == 0,
            !a.has_current(),
    {
        DummyAllocator { regions: Vec::new(), current: None, cursor: 0, history: Ghost(Seq::empty()) }
    }

    /// Serve a byte-granular allocation request, as `alloc_post` states.
    pub fn allocate(&mut self, size: usize) -> (p: Ptr)
        requires
            old(self).wf(),
            1 <= size <= usize::MAX / 2,
        ensures
            alloc_post(*old(self), *final(self), size as int, p),
    {
        let ghost pre = *self;
        if size > PAGE_SIZE {
            // Oversized: a dedicated region of exactly `size` bytes, never
            // shared with later requests; the bump state is left alone.
            let r = self.regions.len();
            let region = acquire_region(size);
            self.regions.push(region);
            let p = Ptr { region: r, offset: 0 };
            let ghost rec = AllocRec { region: r as int, offset: 0, size: size as int };
            self.history = Ghost(self.history@.push(rec));
            proof {
                lemma_alloc_wf_after_push(pre, *self, rec);
            }
            p
        } else {
            let need_new = match self.current {
                None => true,
                Some(_) => self.cursor + size > PAGE_SIZE,
            };
            if need_new {
                let r = self.regions.len();
                let region = acquire_region(PAGE_SIZE);
                self.regions.push(region);
                self.current = Some(r);
                self.cursor = 0;
                proof {
                    lemma_sum_fresh_region(pre.allocs(), r as int, pre.allocs().len() as int);
                }
            }
            let r = match self.current {
                Some(r) => r,
                None => 0,
            };
            let offset = self.cursor;
            self.cursor = offset + size;
            let p = Ptr { region: r, offset };
            let ghost rec = AllocRec { region: r as int, offset: offset as int, size: size as int };
            let ghost mid = *self;
            self.history = Ghost(self.history@.push(rec));
            proof {
                lemma_alloc_wf_after_push_bump(pre, mid, *self, rec);
            }
            p
        }
    }

    /// Deallocation is accepted but has no effect: the design defers real
    /// reclamation rather than silently pretending to free memory it cannot
    /// track.
    pub fn dealloc(&mut self, ptr: Ptr, size: usize)
        ensures
            *final(self) == *old(self),
    {
        let _ = ptr;
        let _ = size;
    }

    /// Read the byte at offset `i` of the range `p` names.
    pub fn read_byte(&self, p: Ptr, i: usize) -> (b: u8)
        requires
            (p.region as int) < self.n_regions(),
            p.offset + i < self.region_bytes(p.region as int).len(),
        ensures
            b == self.region_bytes(p.region as int)[p.offset + i],
    {
        let region: &Region = &self.regions[p.region];
        let n = region.data.len();
        assert(p.offset + i < n);
        region.data[p.offset + i]
    }

    /// Write the byte at offset `i` of the range `p` names.  The cell must
    /// lie inside some allocation the allocator has handed out; nothing else
    /// in the allocator changes.
    pub fn write_byte(&mut self, p: Ptr, i: usize, b: u8)
        requires
            old(self).wf(),
            (p.region as int) < old(self).n_regions(),
            p.offset + i < old(self).region_bytes(p.region as int).len(),
            exists|k: int|
                0 <= k < old(self).allocs().len() && (#[trigger] old(self).allocs()[k]).region
                    == p.region as int && old(self).allocs()[k].offset <= p.offset + i
                    < old(self).allocs()[k].offset + old(self).allocs()[k].size,
        ensures
            final(self).wf(),
            final(self).allocs() == old(self).allocs(),
            final(self).current == old(self).current,
            final(self).cursor == old(self).cursor,
            final(self).n_regions() == old(self).n_regions(),
            final(self).region_bytes(p.region as int) == old(self).region_bytes(
                p.region as int,
            ).update(p.offset + i, b),
            forall|r: int|
                0 <= r < old(self).n_regions() && r != p.region as int
                    ==> final(self).region_bytes(r) == old(self).region_bytes(r),
    {
        let mut region = self.regions.remove(p.region);
        let n = region.data.len();
        assert(p.offset + i < n);
        region.data.set(p.offset + i, b);
        self.regions.insert(p.region, region);
        proof {
            assert(self.regions@ =~= old(self).regions@.update(
                p.region as int,
                self.regions@[p.region as int],
            ));
        }
    }
}

/// What `alloc` does: the request is recorded in the allocation history; an
/// oversized request (beyond `PAGE_SIZE`) gets a dedicated zero-filled region
/// of exactly its size and leaves the current region and cursor untouched; a
/// standard request bumps the cursor of the current region when it has room,
/// and otherwise starts a fresh zero-filled standard region.  Bytes of
/// pre-existing regions are never changed.
pub open spec fn alloc_post(pre: DummyAllocator, post: DummyAllocator, size: int, p: Ptr) -> bool {
    &&& post.wf()
    &&& post.allocs() == pre.allocs().push(
        AllocRec { region: p.region as int, offset: p.offset as int, size: size },
    )
    &&& (p.region as int) < post.n_regions()
    &&& p.offset + size <= post.region_bytes(p.region as int).len()
    &&& post.n_regions() >= pre.n_regions()
    &&& forall|r: int| 0 <= r < pre.n_regions() ==> post.region_bytes(r) == pre.region_bytes(r)
    &&& size > PAGE_SIZE ==> {
        &&& p.region as int == pre.n_regions()
        &&& p.offset == 0
        &&& post.n_regions() == pre.n_regions() + 1
        &&& post.region_bytes(p.region as int) == zeros(size)
        &&& post.current == pre.current
        &&& post.cursor == pre.cursor
    }
    &&& size <= PAGE_SIZE ==> {
        &&& post.current == Some(p.region)
        &&& post.cursor == p.offset + size
        &&& p.offset + size <= PAGE_SIZE
    }
    &&& (size <= PAGE_SIZE && pre.has_current() && pre.cursor + size <= PAGE_SIZE) ==> {
        &&& Some(p.region) == pre.current
        &&& p.offset == pre.cursor
        &&& post.n_regions() == pre.n_regions()
    }
    &&& (size <= PAGE_SIZE && !(pre.has_current() && pre.cursor + size <= PAGE_SIZE)) ==> {
        &&& p.region as int == pre.n_regions()
        &&& p.offset == 0
        &&& post.n_regions() == pre.n_regions() + 1
        &&& post.region_bytes(p.region as int) == zeros(PAGE_SIZE as int)
    }
}

/// Appending an allocation record leaves the region sums of every strict
/// prefix unchanged.
proof fn lemma_sum_push_prefix(allocs: Seq<AllocRec>, rec: AllocRec, r: int, j: int)
    requires
        0 <= j <= allocs.len(),
    ensures
        sum_before(allocs.push(rec), r, j) == sum_before(allocs, r, j),
    decreases j,
{
    if j > 0 {
        lemma_sum_push_prefix(allocs, rec, r, j - 1);
    }
}

/// A region no allocation lies in has sum zero.
proof fn lemma_sum_fresh_region(allocs: Seq<AllocRec>, r: int, j: int)
    requires
        0 <= j <= allocs.len(),
        forall|i: int| 0 <= i < allocs.len() ==> (#[trigger] allocs[i]).region != r,
    ensures
        sum_before(allocs, r, j) == 0,
    decreases j,
{
    if j > 0 {
        lemma_sum_fresh_region(allocs, r, j - 1);
    }
}

/// Re-establishes the invariant after an oversized allocation: the new record
/// covers a fresh dedicated region; the bump state is untouched.
proof fn lemma_alloc_wf_after_push(pre: DummyAllocator, post: DummyAllocator, rec: AllocRec)
    requires
        pre.wf(),
        rec.region == pre.n_regions(),
        rec.offset == 0,
        1 <= rec.size,
        post.n_regions() == pre.n_regions() + 1,
        forall|r: int| 0 <= r < pre.n_regions() ==> post.region_bytes(r) == pre.region_bytes(r),
        post.region_bytes(rec.region).len() == rec.size,
        post.current == pre.current,
        post.cursor == pre.cursor,
        post.allocs() == pre.allocs().push(rec),
    ensures
        post.wf(),
{
    let al = pre.allocs();
    let n = al.len() as int;
    assert forall|j: int| 0 <= j < n implies sum_before(post.allocs(), al[j].region, j)
        == sum_before(al, al[j].region, j) by {
        lemma_sum_push_prefix(al, rec, al[j].region, j);
    }
    lemma_sum_push_prefix(al, rec, rec.region, n);
    assert forall|i: int| 0 <= i < n implies (#[trigger] al[i]).region != rec.region by {}
    lemma_sum_fresh_region(al, rec.region, n);
    assert(sum_before(post.allocs(), rec.region, n) == 0);
    assert(post.allocs()[n] == rec);
    match post.current {
        Some(r) => {
            lemma_sum_push_prefix(al, rec, r as int, n);
            assert(sum_before(post.allocs(), r as int, n + 1) == sum_before(al, r as int, n));
        },
        None => {},
    }
}

/// Re-establishes the invariant after a standard (bump) allocation.  `mid` is
/// the state after any fresh standard region was installed but before the
/// cursor advanced and the record was appended.
proof fn lemma_alloc_wf_after_push_bump(
    pre: DummyAllocator,
    mid: DummyAllocator,
    post: DummyAllocator,
    rec: AllocRec,
)
    requires
        pre.wf(),
        1 <= rec.size,
        // mid extends pre with at most one fresh standard region and keeps
        // the history; its current region has room for the record.
        mid.allocs() == pre.allocs(),
        mid.current is Some,
        (mid.current.unwrap() as int) < mid.n_regions(),
        mid.region_bytes(mid.current.unwrap() as int).len() == PAGE_SIZE,
        rec.region == mid.current.unwrap() as int,
        0 <= rec.offset,
        rec.offset == sum_before(pre.allocs(), rec.region, pre.allocs().len() as int),
        rec.offset + rec.size <= PAGE_SIZE,
        forall|j: int|
            0 <= j < pre.allocs().len() && (#[trigger] pre.allocs()[j]).region == rec.region
                ==> pre.allocs()[j].offset + pre.allocs()[j].size <= rec.offset,
        forall|j: int|
            0 <= j < pre.allocs().len() ==> 0 <= (#[trigger] pre.allocs()[j]).region
                < mid.n_regions(),
        forall|j: int|
            0 <= j < pre.allocs().len() ==> 0 <= (#[trigger] pre.allocs()[j]).offset && 1 <= pre.allocs()[j].size
                && pre.allocs()[j].offset + pre.allocs()[j].size <= mid.region_bytes(
                pre.allocs()[j].region,
            ).len(),
        post.regions@ == mid.regions@,
        post.current == mid.current,
        post.cursor == rec.offset + rec.size,
        post.allocs() == pre.allocs().push(rec),
    ensures
        post.wf(),
{
    let al = pre.allocs();
    let n = al.len() as int;
    assert forall|j: int| 0 <= j < n implies sum_before(post.allocs(), al[j].region, j)
        == sum_before(al, al[j].region, j) by {
        lemma_sum_push_prefix(al, rec, al[j].region, j);
    }
    lemma_sum_push_prefix(al, rec, rec.region, n);
    assert(post.allocs()[n] == rec);
    assert(sum_before(post.allocs(), rec.region, n + 1) == sum_before(post.allocs(), rec.region, n)
        + rec.size);
}

/// Bump monotonicity: every allocation begins exactly at the cumulative sum
/// of the sizes previously handed out of its region, and no two allocations
/// of one region overlap (later ones start at or beyond the end of earlier
/// ones; distinct regions are disjoint blocks by construction).
pub proof fn lemma_bump_monotonic(a: DummyAllocator)
    requires
        a.wf(),
    ensures
        forall|j: int|
            0 <= j < a.allocs().len() ==> (#[trigger] a.allocs()[j]).offset == sum_before(
                a.allocs(),
                a.allocs()[j].region,
                j,
            ),
        forall|i: int, j: int|
            #![trigger a.allocs()[i], a.allocs()[j]]
            0 <= i < j < a.allocs().len() && a.allocs()[i].region == a.allocs()[j].region
                ==> a.allocs()[i].offset + a.allocs()[i].size <= a.allocs()[j].offset,
{
}

/// Oversized isolation: an allocation that covers its whole region — as the
/// one in a dedicated region does — is the only allocation that region ever
/// holds; no later request of any size lands beside it.
pub proof fn lemma_dedicated_region_exclusive(a: DummyAllocator, j: int, k: int)
    requires
        a.wf(),
        0 <= j < a.allocs().len(),
        0 <= k < a.allocs().len(),
        j != k,
        a.allocs()[j].offset == 0,
        a.allocs()[j].size == a.region_bytes(a.allocs()[j].region).len(),
    ensures
        a.allocs()[k].region != a.allocs()[j].region,
{
    if a.allocs()[k].region == a.allocs()[j].region {
        if j < k {
            assert(a.allocs()[j].offset + a.allocs()[j].size <= a.allocs()[k].offset);
        } else {
            assert(a.allocs()[k].offset + a.allocs()[k].size <= a.allocs()[j].offset);
        }
        assert(false);
    }
}

/// The allocation entry point the rest of the library uses.  A request
/// whose size cannot be represented as a signed byte count must fail
/// loudly, never wrap, so such sizes are excluded up front.
pub fn malloc(a: &mut DummyAllocator, size: usize) -> (p: Ptr)
    requires
        old(a).wf(),
        1 <= size <= usize::MAX / 2,
    ensures
        alloc_post(*old(a), *final(a), size as int, p),
{
    a.allocate(size)
}

} // verus!

