//! The text buffer: a growable buffer specialised to bytes, holding the
//! UTF-8 encoding of the text appended to it.  Appends originate from
//! string slices, which are valid UTF-8 by construction, so no validation
//! happens here.

use crate::allocator::DummyAllocator;
use crate::buffer::{appended, lemma_fresh_touch_all};
use vstd::prelude::*;
use vstd::string::StringSliceAdditionalSpecFns;

verus! {

/// A UTF-8 byte accumulator over a growable buffer.
pub struct String {
    /// The underlying growable byte buffer.
    pub vec: crate::buffer::Vec,
}

impl String {
    pub open spec fn wf(self, a: DummyAllocator) -> bool {
        self.vec.wf(a)
    }

    /// The accumulated UTF-8 bytes.
    pub open spec fn bytes(self, a: DummyAllocator) -> Seq<u8> {
        self.vec.bytes(a)
    }

    /// Build a text buffer holding the UTF-8 bytes of `value`, with capacity
    /// exactly its byte length.  A zero-length string is excluded because
    /// construction always performs one allocation and the allocator rejects
    /// zero-size requests.
    pub fn from(a: &mut DummyAllocator, value: &str) -> (r: String)
        requires
            old(a).wf(),
            1 <= value.spec_bytes().len(),
            value.spec_bytes().len() <= usize::MAX / 8,
        ensures
            r.wf(*final(a)),
            r.bytes(*final(a)) == value.spec_bytes(),
            r.vec.capacity == value.spec_bytes().len(),
            r.vec.offset == value.spec_bytes().len(),
            final(a).allocs().len() == old(a).allocs().len() + 1,
            crate::buffer::all_preserved(*old(a), *final(a)),
    {
        let ghost a0 = *a;
        let bytes: &[u8] = value.as_bytes();
        let mut vec = crate::buffer::Vec::with_capacity(a, bytes.len());
        let ghost a1 = *a;
        let ghost b1 = vec;
        vec.push_slice(a, bytes);
        proof {
            lemma_fresh_touch_all(a0, a1, b1.id@);
            assert forall|o: crate::buffer::Vec| o.wf(a0) implies o.wf(*a) && o.bytes(*a) == o.bytes(a0) by {
                assert(o.wf(a1) && o.bytes(a1) == o.bytes(a0));
                assert(o.id@ != b1.id@);
            }
            assert(vec.bytes(*a) =~= value.spec_bytes());
        }
        String { vec }
    }

    /// Append the raw UTF-8 bytes of a string slice.
    pub fn push(&mut self, a: &mut DummyAllocator, s: &str)
        requires
            old(self).wf(*old(a)),
            old(self).vec.capacity <= usize::MAX / 4,
            2 * (old(self).vec.offset + s.spec_bytes().len()) <= usize::MAX / 4,
        ensures
            appended(old(self).vec, *old(a), final(self).vec, *final(a), s.spec_bytes()),
    {
        let bytes: &[u8] = s.as_bytes();
        self.vec.push_slice(a, bytes);
    }

    /// A read view of exactly the accumulated bytes.
    pub fn as_slice<'a>(&self, a: &'a DummyAllocator) -> (r: &'a [u8])
        requires
            self.wf(*a),
        ensures
            r@ == self.bytes(*a),
    {
        self.vec.as_slice(a)
    }

    /// Current length in bytes.
    pub fn len(&self) -> (r: usize)
        ensures
            r == self.vec.offset,
    {
        self.vec.len()
    }
}

} // verus!
