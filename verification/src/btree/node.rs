use vstd::prelude::*;

verus! {

/// The tag of a leaf node: `"LEAF    "`.
pub const NODE_TYPE_LEAF: [u8; 8] = [76, 69, 65, 70, 32, 32, 32, 32];

/// The tag of a branch node: `"BRANCH  "`.
pub const NODE_TYPE_BRANCH: [u8; 8] = [66, 82, 65, 78, 67, 72, 32, 32];

/// The header of a B+tree node: the eight-byte tag of its kind.
pub struct Header {
    pub node_type: [u8; 8],
}

/// A B+tree node over a byte buffer: the tag in the first eight bytes, the
/// body of the leaf or branch after it.
pub struct Node<'a> {
    bytes: &'a mut [u8],
}

/// The body of a node, by the kind its tag names.
pub enum Body<'a> {
    Leaf(&'a mut [u8]),
    Branch(&'a mut [u8]),
}

fn same_tag(a: &[u8; 8], b: &[u8; 8]) -> (r: bool)
    ensures
        r == (a@ == b@),
{
    let mut i: usize = 0;
    while i < 8
        invariant
            i <= 8,
            a@.len() == 8,
            b@.len() == 8,
            forall|k: int| 0 <= k < i ==> a@[k] == b@[k],
        decreases 8 - i,
    {
        if a[i] != b[i] {
            return false;
        }
        i += 1;
    }
    assert(a@ =~= b@);
    true
}

impl<'a> Body<'a> {
    /// The body bytes, as a leaf or a branch by the tag `node_type`.
    pub fn new(node_type: [u8; 8], bytes: &'a mut [u8]) -> (r: Body<'a>)
        requires
            node_type@ == NODE_TYPE_LEAF@ || node_type@ == NODE_TYPE_BRANCH@,
        ensures
            node_type@ == NODE_TYPE_LEAF@ ==> (r matches Body::Leaf(b) && b@ == old(bytes)@),
            node_type@ == NODE_TYPE_BRANCH@ ==> (r matches Body::Branch(b) && b@ == old(bytes)@),
    {
        if same_tag(&node_type, &NODE_TYPE_LEAF) {
            Body::Leaf(bytes)
        } else {
            Body::Branch(bytes)
        }
    }
}

impl<'a> Node<'a> {
    /// The bytes of the node.
    pub closed spec fn view(&self) -> Seq<u8> {
        self.bytes@
    }

    /// Wraps `bytes` as a node; the tag is the first eight bytes.
    pub fn new(bytes: &'a mut [u8]) -> (r: Self)
        requires
            old(bytes)@.len() >= 8,
        ensures
            r@ == old(bytes)@,
    {
        Node { bytes }
    }

    /// The header: the tag.
    pub fn header(&self) -> (r: Header)
        requires
            self@.len() >= 8,
        ensures
            r.node_type@ == self@.take(8),
    {
        let mut t: [u8; 8] = [0u8; 8];
        let mut i: usize = 0;
        while i < 8
            invariant
                i <= 8,
                self@.len() >= 8,
                t@.len() == 8,
                forall|k: int| 0 <= k < i ==> t@[k] == self@[k],
            decreases 8 - i,
        {
            t[i] = self.bytes[i];
            i += 1;
        }
        assert(t@ =~= self@.take(8));
        Header { node_type: t }
    }

    fn set_tag(&mut self, tag: &[u8; 8])
        requires
            old(self)@.len() >= 8,
        ensures
            final(self)@.len() == old(self)@.len(),
            final(self)@.take(8) == tag@,
            final(self)@.skip(8) == old(self)@.skip(8),
    {
        let mut i: usize = 0;
        while i < 8
            invariant
                i <= 8,
                self@.len() == old(self)@.len(),
                old(self)@.len() >= 8,
                tag@.len() == 8,
                forall|k: int| 0 <= k < i ==> self@[k] == tag@[k],
                forall|k: int| i <= k < self@.len() ==> self@[k] == old(self)@[k],
            decreases 8 - i,
        {
            self.bytes[i] = tag[i];
            i += 1;
        }
        assert(self@.take(8) =~= tag@);
        assert(self@.skip(8) =~= old(self)@.skip(8));
    }

    /// Tags the node as a leaf; the body is left as it is.
    pub fn initialize_as_leaf(&mut self)
        requires
            old(self)@.len() >= 8,
        ensures
            final(self)@.len() == old(self)@.len(),
            final(self)@.take(8) == NODE_TYPE_LEAF@,
            final(self)@.skip(8) == old(self)@.skip(8),
    {
        self.set_tag(&NODE_TYPE_LEAF);
    }

    /// Tags the node as a branch; the body is left as it is.
    pub fn initialize_as_branch(&mut self)
        requires
            old(self)@.len() >= 8,
        ensures
            final(self)@.len() == old(self)@.len(),
            final(self)@.take(8) == NODE_TYPE_BRANCH@,
            final(self)@.skip(8) == old(self)@.skip(8),
    {
        self.set_tag(&NODE_TYPE_BRANCH);
    }
}

} // verus!
