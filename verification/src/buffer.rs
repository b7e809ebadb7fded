//! The growable buffer: a single-owner, resizable sequence of bytes backed
//! by one allocation at a time.  An append that would exceed the capacity
//! first grows the buffer: a larger backing range is allocated, the existing
//! bytes are copied forward, and the old backing range is abandoned (the
//! allocator never reclaims it).  Capacity, length and offsets are byte
//! counts throughout.

use crate::allocator::{alloc_post, AllocRec, DummyAllocator, Ptr};
use vstd::prelude::*;

verus! {

/// A single-owner growable byte buffer.  `addr` names the backing byte range
/// inside the page allocator, `capacity` its size, and `offset` how many
/// bytes of it hold content — the length, counted in bytes like everything
/// here.
pub struct Vec {
    /// Base of the backing allocation.
    pub addr: Ptr,
    /// Size of the backing allocation in bytes.
    pub capacity: usize,
    /// Current length in bytes.
    pub offset: usize,
    /// Which entry of the allocator's history is the backing allocation.
    pub id: Ghost<int>,
}

impl Vec {
    /// The buffer exclusively owns one recorded allocation of the allocator,
    /// and its length never exceeds its capacity.
    pub open spec fn wf(self, a: DummyAllocator) -> bool {
        &&& a.wf()
        &&& 0 <= self.id@ < a.allocs().len()
        &&& a.allocs()[self.id@] == (AllocRec {
            region: self.addr.region as int,
            offset: self.addr.offset as int,
            size: self.capacity as int,
        })
        &&& self.offset <= self.capacity
    }

    /// The buffer's contents: the first `offset` bytes of its backing range.
    pub open spec fn bytes(self, a: DummyAllocator) -> Seq<u8> {
        a.region_bytes(self.addr.region as int).subrange(
            self.addr.offset as int,
            self.addr.offset + self.offset,
        )
    }
}

/// Every well-formed buffer other than the one backed by allocation
/// `touched` keeps its well-formedness and its exact contents across the
/// step from `a0` to `a1`.  Mutating one buffer can never change another:
/// backing allocations never overlap.
pub open spec fn others_preserved(a0: DummyAllocator, a1: DummyAllocator, touched: int) -> bool {
    forall|o: Vec|
        #[trigger] o.wf(a0) && o.id@ != touched ==> o.wf(a1) && o.bytes(a1) == o.bytes(a0)
}

/// Every buffer that is well-formed at `a0` keeps its well-formedness and
/// its exact contents across the step from `a0` to `a1`.
pub open spec fn all_preserved(a0: DummyAllocator, a1: DummyAllocator) -> bool {
    forall|o: Vec| #[trigger] o.wf(a0) ==> o.wf(a1) && o.bytes(a1) == o.bytes(a0)
}

/// A step that touches only an allocation that did not exist at `a0`
/// preserves every buffer that existed at `a0`.
pub proof fn lemma_fresh_touch_all(a0: DummyAllocator, a1: DummyAllocator, t: int)
    requires
        others_preserved(a0, a1, t),
        t >= a0.allocs().len(),
    ensures
        all_preserved(a0, a1),
{
    assert forall|o: Vec| o.wf(a0) implies o.wf(a1) && o.bytes(a1) == o.bytes(a0) by {
        assert(o.id@ != t);
    }
}

/// Clone independence, stated as a law: a mutation step that touches the
/// allocation `touched` leaves every buffer backed by a different
/// allocation — in particular the buffer a clone was made from, or the
/// clone itself when the source is mutated — with its contents unchanged.
pub proof fn lemma_clone_independence(
    a0: DummyAllocator,
    a1: DummyAllocator,
    touched: int,
    o: Vec,
)
    requires
        others_preserved(a0, a1, touched),
        o.wf(a0),
        o.id@ != touched,
    ensures
        o.wf(a1),
        o.bytes(a1) == o.bytes(a0),
{
}

/// Frame rule: if a step changes bytes only inside the range of allocation
/// `owner` and leaves the bookkeeping alone, every buffer backed by another
/// allocation is untouched.
pub proof fn lemma_frame(a0: DummyAllocator, a1: DummyAllocator, owner: int)
    requires
        a0.wf(),
        a1.wf(),
        a1.allocs() == a0.allocs(),
        a1.n_regions() == a0.n_regions(),
        0 <= owner < a0.allocs().len(),
        forall|r: int|
            0 <= r < a0.n_regions() ==> #[trigger] a1.region_bytes(r).len()
                == a0.region_bytes(r).len(),
        forall|r: int, j: int|
            #![trigger a1.region_bytes(r)[j]]
            0 <= r < a0.n_regions() && 0 <= j < a0.region_bytes(r).len() && !(r
                == a0.allocs()[owner].region && a0.allocs()[owner].offset <= j
                < a0.allocs()[owner].offset + a0.allocs()[owner].size) ==> a1.region_bytes(r)[j]
                == a0.region_bytes(r)[j],
    ensures
        others_preserved(a0, a1, owner),
{
    assert forall|o: Vec| o.wf(a0) && o.id@ != owner implies o.wf(a1) && o.bytes(a1)
        == o.bytes(a0) by {
        let eo = a0.allocs()[o.id@];
        let et = a0.allocs()[owner];
        if eo.region == et.region {
            // distinct allocations of one region never overlap
            if o.id@ < owner {
                assert(eo.offset + eo.size <= et.offset);
            } else {
                assert(et.offset + et.size <= eo.offset);
            }
        }
        assert(o.bytes(a1) =~= o.bytes(a0));
    }
}

/// A fresh allocation never disturbs any buffer that already existed.
pub proof fn lemma_alloc_others(a0: DummyAllocator, a1: DummyAllocator, size: int, p: Ptr)
    requires
        a0.wf(),
        alloc_post(a0, a1, size, p),
    ensures
        others_preserved(a0, a1, a0.allocs().len() as int),
{
    assert forall|o: Vec| o.wf(a0) && o.id@ != a0.allocs().len() implies o.wf(a1) && o.bytes(
        a1,
    ) == o.bytes(a0) by {
        assert(a1.allocs()[o.id@] == a0.allocs()[o.id@]);
    }
}

/// Chaining two steps that each leave all other buffers alone leaves all
/// other buffers alone, provided the second step touches either the same
/// allocation or one that did not yet exist at the start.
pub proof fn lemma_others_trans(
    a0: DummyAllocator,
    a1: DummyAllocator,
    a2: DummyAllocator,
    t0: int,
    t1: int,
)
    requires
        others_preserved(a0, a1, t0),
        others_preserved(a1, a2, t1),
        t1 == t0 || t1 >= a0.allocs().len(),
    ensures
        others_preserved(a0, a2, t0),
{
    assert forall|o: Vec| o.wf(a0) && o.id@ != t0 implies o.wf(a2) && o.bytes(a2) == o.bytes(
        a0,
    ) by {
        assert(o.wf(a1) && o.bytes(a1) == o.bytes(a0));
        assert(o.id@ != t1);
        assert(o.wf(a2) && o.bytes(a2) == o.bytes(a1));
    }
}

/// One mutation step of a buffer: `b1` with allocator state `a1` is `b0`
/// with allocator state `a0` after appending exactly the bytes `s`; the
/// capacity stays within the doubling discipline, the allocation history
/// only grows, and every other buffer is untouched.
pub open spec fn appended(
    b0: Vec,
    a0: DummyAllocator,
    b1: Vec,
    a1: DummyAllocator,
    s: Seq<u8>,
) -> bool {
    &&& b1.wf(a1)
    &&& b1.bytes(a1) == b0.bytes(a0) + s
    &&& b1.offset == b0.offset + s.len()
    &&& b1.capacity as int <= vstd::math::max(b0.capacity as int, 2 * (b1.offset as int))
    &&& b1.capacity >= b0.capacity
    &&& (b1.id@ == b0.id@ || b1.id@ >= a0.allocs().len())
    &&& a1.allocs().len() >= a0.allocs().len()
    &&& others_preserved(a0, a1, b0.id@)
}

/// Growing never disturbs what was already written: after any append step,
/// the bytes held before the step read back byte for byte, whether or not
/// the step replaced the backing allocation.
pub proof fn lemma_grow_preserves_prefix(
    b0: Vec,
    a0: DummyAllocator,
    b1: Vec,
    a1: DummyAllocator,
    s: Seq<u8>,
)
    requires
        appended(b0, a0, b1, a1, s),
    ensures
        b1.bytes(a1).subrange(0, b0.offset as int) == b0.bytes(a0),
{
    assert(b1.bytes(a1).subrange(0, b0.offset as int) =~= b0.bytes(a0));
}

/// Appending `s1` and then `s2` is appending `s1 + s2`.
pub proof fn lemma_appended_trans(
    b0: Vec,
    a0: DummyAllocator,
    b1: Vec,
    a1: DummyAllocator,
    b2: Vec,
    a2: DummyAllocator,
    s1: Seq<u8>,
    s2: Seq<u8>,
)
    requires
        appended(b0, a0, b1, a1, s1),
        appended(b1, a1, b2, a2, s2),
    ensures
        appended(b0, a0, b2, a2, s1 + s2),
{
    lemma_others_trans(a0, a1, a2, b0.id@, b1.id@);
    assert(b2.bytes(a2) =~= b0.bytes(a0) + (s1 + s2));
}

/// Copy the first `n` bytes of the backing range of allocation `src_id`
/// (based at `src`) into the backing range of allocation `dst_id` (based at
/// `dst`).  Only bytes of the destination range change.
#[verifier::rlimit(60)]
fn copy_prefix(
    a: &mut DummyAllocator,
    src: Ptr,
    dst: Ptr,
    n: usize,
    Ghost(src_id): Ghost<int>,
    Ghost(dst_id): Ghost<int>,
)
    requires
        old(a).wf(),
        0 <= src_id < old(a).allocs().len(),
        0 <= dst_id < old(a).allocs().len(),
        src_id != dst_id,
        old(a).allocs()[src_id].region == src.region as int,
        old(a).allocs()[src_id].offset == src.offset as int,
        n <= old(a).allocs()[src_id].size,
        old(a).allocs()[dst_id].region == dst.region as int,
        old(a).allocs()[dst_id].offset == dst.offset as int,
        n <= old(a).allocs()[dst_id].size,
    ensures
        final(a).wf(),
        final(a).allocs() == old(a).allocs(),
        final(a).current == old(a).current,
        final(a).cursor == old(a).cursor,
        final(a).n_regions() == old(a).n_regions(),
        final(a).region_bytes(dst.region as int).subrange(dst.offset as int, dst.offset + n)
            == old(a).region_bytes(src.region as int).subrange(
            src.offset as int,
            src.offset + n,
        ),
        others_preserved(*old(a), *final(a), dst_id),
{
    let ghost a0 = *old(a);
    let ghost es = a0.allocs()[src_id];
    let ghost ed = a0.allocs()[dst_id];
    proof {
        if es.region == ed.region {
            if src_id < dst_id {
                assert(es.offset + es.size <= ed.offset);
            } else {
                assert(ed.offset + ed.size <= es.offset);
            }
        }
    }
    let mut i: usize = 0;
    while i < n
        invariant
            i <= n,
            a.wf(),
            a.allocs() == a0.allocs(),
            a.current == a0.current,
            a.cursor == a0.cursor,
            a.n_regions() == a0.n_regions(),
            0 <= src_id < a0.allocs().len(),
            0 <= dst_id < a0.allocs().len(),
            src_id != dst_id,
            es == a0.allocs()[src_id],
            ed == a0.allocs()[dst_id],
            es.region == src.region as int,
            es.offset == src.offset as int,
            n <= es.size,
            ed.region == dst.region as int,
            ed.offset == dst.offset as int,
            n <= ed.size,
            forall|r: int|
                0 <= r < a0.n_regions() ==> #[trigger] a.region_bytes(r).len()
                    == a0.region_bytes(r).len(),
            forall|r: int, j: int|
                #![trigger a.region_bytes(r)[j]]
                0 <= r < a0.n_regions() && 0 <= j < a0.region_bytes(r).len() && !(r == ed.region
                    && ed.offset <= j < ed.offset + ed.size) ==> a.region_bytes(r)[j]
                    == a0.region_bytes(r)[j],
            forall|j: int|
                0 <= j < i ==> #[trigger] a.region_bytes(ed.region)[ed.offset + j]
                    == a0.region_bytes(es.region)[es.offset + j],
        decreases n - i,
    {
        proof {
            if es.region == ed.region {
                if src_id < dst_id {
                    assert(es.offset + es.size <= ed.offset);
                } else {
                    assert(ed.offset + ed.size <= es.offset);
                }
            }
        }
        proof {
            assert(a.allocs()[src_id] == es && a.allocs()[dst_id] == ed);
            assert(es.offset + es.size <= a.region_bytes(es.region).len());
            assert(ed.offset + ed.size <= a.region_bytes(ed.region).len());
        }
        let b = a.read_byte(src, i);
        assert(b == a0.region_bytes(es.region)[es.offset + i]);
        proof {
            assert(a.allocs()[dst_id].region == dst.region as int && a.allocs()[dst_id].offset
                <= dst.offset + i < a.allocs()[dst_id].offset + a.allocs()[dst_id].size);
        }
        a.write_byte(dst, i, b);
        i = i + 1;
    }
    proof {
        assert(a.allocs()[dst_id] == ed && a.allocs()[src_id] == es);
        assert(ed.offset + ed.size <= a.region_bytes(ed.region).len());
        assert(es.offset + es.size <= a0.region_bytes(es.region).len());
        let sd = a.region_bytes(dst.region as int).subrange(dst.offset as int, dst.offset + n);
        let ss = a0.region_bytes(src.region as int).subrange(src.offset as int, src.offset + n);
        assert forall|j: int| 0 <= j < n implies sd[j] == ss[j] by {
            assert(sd[j] == a.region_bytes(ed.region)[ed.offset + j]);
            assert(ss[j] == a0.region_bytes(es.region)[es.offset + j]);
        }
        assert(sd =~= ss);
        lemma_frame(a0, *a, dst_id);
    }
}

impl Vec {
    /// Create a buffer of the requested byte capacity and length zero.  This
    /// always performs exactly one allocation, so a zero capacity (which the
    /// allocator rejects) is excluded.
    pub fn with_capacity(a: &mut DummyAllocator, capacity: usize) -> (buf: Vec)
        requires
            old(a).wf(),
            1 <= capacity <= usize::MAX / 2,
        ensures
            buf.wf(*final(a)),
            buf.capacity == capacity,
            buf.offset == 0,
            buf.bytes(*final(a)) == Seq::<u8>::empty(),
            buf.id@ == old(a).allocs().len(),
            final(a).allocs().len() == old(a).allocs().len() + 1,
            others_preserved(*old(a), *final(a), buf.id@),
    {
        let ghost pre = *a;
        let p = a.allocate(capacity);
        let buf = Vec {
            addr: p,
            capacity,
            offset: 0,
            id: Ghost(pre.allocs().len() as int),
        };
        proof {
            lemma_alloc_others(pre, *a, capacity as int, p);
            assert(buf.bytes(*a) =~= Seq::<u8>::empty());
        }
        buf
    }

    /// Grow: allocate a backing range of the larger of double the capacity
    /// and capacity plus `needed_size`, copy the contents forward byte for
    /// byte, and adopt the new range; the old one is abandoned.  The
    /// contents are preserved exactly.
    fn resize(&mut self, a: &mut DummyAllocator, needed_size: usize)
        requires
            old(self).wf(*old(a)),
            1 <= needed_size <= usize::MAX / 4,
            old(self).capacity <= usize::MAX / 4,
        ensures
            final(self).wf(*final(a)),
            final(self).bytes(*final(a)) == old(self).bytes(*old(a)),
            final(self).offset == old(self).offset,
            final(self).capacity as int == vstd::math::max(
                2 * old(self).capacity as int,
                old(self).capacity + needed_size,
            ),
            final(self).id@ == old(a).allocs().len(),
            final(a).allocs().len() == old(a).allocs().len() + 1,
            others_preserved(*old(a), *final(a), old(self).id@),
    {
        let doubled = self.capacity * 2;
        let needed = self.capacity + needed_size;
        let new_size = if doubled > needed {
            doubled
        } else {
            needed
        };
        let ghost a0 = *a;
        let ghost b0 = *self;
        let ghost new_id = a0.allocs().len() as int;
        let p = a.allocate(new_size);
        proof {
            lemma_alloc_others(a0, *a, new_size as int, p);
            assert(b0.wf(a0));
            assert(b0.wf(*a) && b0.bytes(*a) == b0.bytes(a0));
        }
        let ghost a1 = *a;
        copy_prefix(a, self.addr, p, self.offset, Ghost(self.id@), Ghost(new_id));
        proof {
            lemma_others_trans(a0, a1, *a, new_id, new_id);
            assert forall|o: Vec| o.wf(a0) && o.id@ != b0.id@ implies o.wf(*a) && o.bytes(*a)
                == o.bytes(a0) by {
                assert(o.id@ != new_id);
                assert(o.wf(*a) && o.bytes(*a) == o.bytes(a0));
            }
        }
        self.addr = p;
        self.capacity = new_size;
        self.id = Ghost(new_id);
        proof {
            assert(self.bytes(*a) == a.region_bytes(p.region as int).subrange(
                p.offset as int,
                p.offset + b0.offset,
            ));
            assert(self.bytes(*a) == b0.bytes(a1));
        }
    }

    /// Append one byte, growing first when the capacity is exhausted.
    pub fn push(&mut self, a: &mut DummyAllocator, data: u8)
        requires
            old(self).wf(*old(a)),
            old(self).capacity <= usize::MAX / 4,
        ensures
            appended(*old(self), *old(a), *final(self), *final(a), seq![data]),
            old(self).offset < old(self).capacity ==> final(self).capacity == old(self).capacity
                && final(self).addr == old(self).addr && final(self).id == old(self).id
                && final(a).allocs() == old(a).allocs(),
            old(self).offset == old(self).capacity ==> final(self).capacity > old(self).capacity,
    {
        let ghost b0 = *self;
        let ghost a0 = *a;
        if self.offset + 1 > self.capacity {
            self.resize(a, 1);
        }
        let ghost b1 = *self;
        let ghost a1 = *a;
        proof {
            assert(self.wf(*a));
            assert(a.allocs()[self.id@].region == self.addr.region as int
                && a.allocs()[self.id@].offset <= self.addr.offset + self.offset
                < a.allocs()[self.id@].offset + a.allocs()[self.id@].size);
        }
        a.write_byte(self.addr, self.offset, data);
        proof {
            lemma_frame(a1, *a, b1.id@);
            lemma_others_trans(a0, a1, *a, b0.id@, b1.id@);
        }
        self.offset = self.offset + 1;
        proof {
            assert(self.bytes(*a) =~= b1.bytes(a1) + seq![data]);
        }
    }

    /// Append every byte of `data`, in order: the same as pushing each one.
    pub fn push_slice(&mut self, a: &mut DummyAllocator, data: &[u8])
        requires
            old(self).wf(*old(a)),
            old(self).capacity <= usize::MAX / 4,
            2 * (old(self).offset + data@.len()) <= usize::MAX / 4,
        ensures
            appended(*old(self), *old(a), *final(self), *final(a), data@),
            old(self).offset + data@.len() <= old(self).capacity ==> final(self).capacity == old(
                self,
            ).capacity && final(self).addr == old(self).addr && final(self).id == old(self).id
                && final(a).allocs() == old(a).allocs(),
    {
        let ghost b0 = *self;
        let ghost a0 = *a;
        let n = data.len();
        proof {
            assert(b0.bytes(a0) + data@.subrange(0, 0) =~= b0.bytes(a0));
        }
        let mut k: usize = 0;
        while k < n
            invariant
                k <= n,
                n == data@.len(),
                b0.capacity <= usize::MAX / 4,
                2 * (b0.offset + n) <= usize::MAX / 4,
                appended(b0, a0, *self, *a, data@.subrange(0, k as int)),
                b0.offset + n <= b0.capacity ==> self.capacity == b0.capacity && self.addr
                    == b0.addr && self.id == b0.id && a.allocs() == a0.allocs(),
            decreases n - k,
        {
            let byte = data[k];
            let ghost bmid = *self;
            let ghost amid = *a;
            self.push(a, byte);
            proof {
                lemma_appended_trans(
                    b0,
                    a0,
                    bmid,
                    amid,
                    *self,
                    *a,
                    data@.subrange(0, k as int),
                    seq![byte],
                );
                assert(data@.subrange(0, k + 1) =~= data@.subrange(0, k as int) + seq![byte]);
            }
            k = k + 1;
        }
        proof {
            assert(data@.subrange(0, n as int) =~= data@);
        }
    }

    /// A read view of exactly the current contents: the first `offset` bytes
    /// of the backing range.  A later append that grows the buffer moves the
    /// backing range, so a view must not be kept across a mutating call.
    pub fn as_slice<'a>(&self, a: &'a DummyAllocator) -> (r: &'a [u8])
        requires
            self.wf(*a),
        ensures
            r@ == self.bytes(*a),
    {
        let region: &crate::allocator::Region = &a.regions[self.addr.region];
        let total = region.data.len();
        assert(self.addr.offset + self.offset <= total);
        vstd::slice::slice_subrange(region.data.as_slice(), self.addr.offset, self.addr.offset
            + self.offset)
    }

    /// Base of the backing allocation.
    pub fn as_ptr(&self) -> (r: Ptr)
        ensures
            r == self.addr,
    {
        self.addr
    }

    /// Current length in bytes.
    pub fn len(&self) -> (r: usize)
        ensures
            r == self.offset,
    {
        self.offset
    }

    /// Deep copy: a fresh backing allocation of the source's capacity with
    /// the source's contents copied in.  The two buffers share nothing, so
    /// mutating either never changes the other.
    pub fn clone(&self, a: &mut DummyAllocator) -> (r: Vec)
        requires
            self.wf(*old(a)),
            self.capacity <= usize::MAX / 2,
        ensures
            r.wf(*final(a)),
            self.wf(*final(a)),
            r.bytes(*final(a)) == self.bytes(*old(a)),
            self.bytes(*final(a)) == self.bytes(*old(a)),
            r.capacity == self.capacity,
            r.offset == self.offset,
            r.id@ == old(a).allocs().len(),
            r.id@ != self.id@,
            final(a).allocs().len() == old(a).allocs().len() + 1,
            others_preserved(*old(a), *final(a), r.id@),
    {
        let ghost a0 = *a;
        let ghost new_id = a0.allocs().len() as int;
        let p = a.allocate(self.capacity);
        proof {
            lemma_alloc_others(a0, *a, self.capacity as int, p);
            assert(self.wf(a0));
            assert(self.wf(*a) && self.bytes(*a) == self.bytes(a0));
        }
        let ghost a1 = *a;
        copy_prefix(a, self.addr, p, self.offset, Ghost(self.id@), Ghost(new_id));
        let r = Vec { addr: p, capacity: self.capacity, offset: self.offset, id: Ghost(new_id) };
        proof {
            lemma_others_trans(a0, a1, *a, new_id, new_id);
            assert(self.wf(*a) && self.bytes(*a) == self.bytes(a1));
            assert(r.bytes(*a) == a.region_bytes(p.region as int).subrange(
                p.offset as int,
                p.offset + self.offset,
            ));
            assert(r.bytes(*a) == self.bytes(a1));
        }
        r
    }
}

} // verus!
