use vstd::prelude::*;
use crate::disk::{u64_le, PageId};

verus! {

/// The header of a B+tree's meta page: the page of the tree's root.
pub struct Header {
    pub root_page_id: PageId,
}

/// A B+tree meta page over a byte buffer: the header in the first eight
/// bytes (the root page id, little endian), the rest unused.
pub struct Meta<'a> {
    bytes: &'a mut [u8],
}

impl<'a> Meta<'a> {
    /// The bytes of the page.
    pub closed spec fn view(&self) -> Seq<u8> {
        self.bytes@
    }

    /// Wraps `bytes` as a meta page.
    pub fn new(bytes: &'a mut [u8]) -> (r: Self)
        requires
            old(bytes)@.len() >= 8,
        ensures
            r@ == old(bytes)@,
    {
        Meta { bytes }
    }

    /// The header, read from the first eight bytes.
    pub fn header(&self) -> (r: Header)
        requires
            self@.len() >= 8,
        ensures
            r.root_page_id.0 == u64_le(self@.take(8)),
    {
        let head = &self.bytes[0..8];
        Header { root_page_id: PageId::from_bytes(head) }
    }

    /// Writes `header` into the first eight bytes; the rest of the page stays.
    pub fn set_header(&mut self, header: Header)
        requires
            old(self)@.len() >= 8,
        ensures
            final(self)@.len() == old(self)@.len(),
            u64_le(final(self)@.take(8)) == header.root_page_id.0,
            final(self)@.skip(8) == old(self)@.skip(8),
    {
        let b = header.root_page_id.to_bytes();
        let mut i: usize = 0;
        while i < 8
            invariant
                i <= 8,
                self@.len() == old(self)@.len(),
                old(self)@.len() >= 8,
                forall|k: int| 0 <= k < i ==> self@[k] == b@[k],
                forall|k: int| i <= k < self@.len() ==> self@[k] == old(self)@[k],
            decreases 8 - i,
        {
            self.bytes[i] = b[i];
            i += 1;
        }
        assert(self@.take(8) =~= b@);
        assert(self@.skip(8) =~= old(self)@.skip(8));
    }
}

} // verus!
