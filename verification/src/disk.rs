use vstd::prelude::*;

verus! {

/// Size of a page, in bytes.
pub const PAGE_SIZE: usize = 4096;

/// Identifies a page of the heap file: page `n` occupies bytes
/// `n * PAGE_SIZE .. (n + 1) * PAGE_SIZE`.
#[derive(Debug, Clone, Copy, PartialEq, Eq, Hash, Structural)]
pub struct PageId(pub u64);

/// Number of whole pages in a heap file of `file_size` bytes: the id the
/// next allocated page takes.
pub fn page_count(file_size: u64) -> (r: u64)
    ensures
        r == file_size / (PAGE_SIZE as u64),
{
    file_size / (PAGE_SIZE as u64)
}

/// Hands out the page id `next_page_id` and returns it with the counter for
/// the next allocation, one higher.
pub fn allocate_page_id(next_page_id: u64) -> (r: (PageId, u64))
    requires
        next_page_id < u64::MAX,
    ensures
        r.0.0 == next_page_id,
        r.1 == next_page_id + 1,
{
    (PageId(next_page_id), next_page_id + 1)
}

/// Byte offset of page `page_id` in the heap file.
pub fn page_offset(page_id: PageId) -> (r: u64)
    requires
        page_id.0 < 0x10_0000_0000_0000,
    ensures
        r == page_id.0 * PAGE_SIZE,
{
    (PAGE_SIZE as u64) * page_id.to_u64()
}

/// The number stored in the eight little-endian bytes `b`.
pub open spec fn u64_le(b: Seq<u8>) -> int
    decreases b.len(),
{
    if b.len() == 0 {
        0
    } else {
        b[0] as int + 256 * u64_le(b.drop_first())
    }
}

/// The page number of the invalid page id.
pub const INVALID_PAGE_NUMBER: u64 = 0xffff_ffff_ffff_ffff;

impl PageId {
    /// The page id that names no page.
    pub fn invalid() -> (r: PageId)
        ensures
            r.0 == INVALID_PAGE_NUMBER,
    {
        PageId(INVALID_PAGE_NUMBER)
    }

    /// `Some(self)` unless `self` is the invalid page id.
    pub fn valid(self) -> (r: Option<PageId>)
        ensures
            r == (if self.0 == INVALID_PAGE_NUMBER {
                None
            } else {
                Some(self)
            }),
    {
        if self.0 == INVALID_PAGE_NUMBER {
            None
        } else {
            Some(self)
        }
    }

    /// The page number.
    pub fn to_u64(self) -> (r: u64)
        ensures
            r == self.0,
    {
        self.0
    }

    /// The page id stored in the eight bytes `bytes`, little endian.
    pub fn from_bytes(bytes: &[u8]) -> (r: PageId)
        requires
            bytes@.len() == 8,
        ensures
            r.0 == u64_le(bytes@),
    {
        let mut v: u64 = 0;
        let mut i: usize = 8;
        proof {
            lemma_pow256_bounds();
        }
        while i > 0
            invariant
                i <= 8,
                bytes@.len() == 8,
                v == u64_le(bytes@.skip(i as int)),
                v < pow256((8 - i) as nat),
                forall|k: nat| k <= 8 ==> #[trigger] pow256(k) <= pow256(8),
                pow256(8) == 0x1_0000_0000_0000_0000,
            decreases i,
        {
            let ghost old_v = v;
            let ghost k = (8 - i) as nat;
            proof {
                assert(bytes@.skip(i - 1).drop_first() =~= bytes@.skip(i as int));
                lemma_pow256_step(k);
                let b = bytes@[i - 1];
                assert(v * 256 + b < pow256(k + 1)) by (nonlinear_arith)
                    requires
                        v < pow256(k),
                        b < 256,
                        pow256(k + 1) == pow256(k) * 256;
                assert(pow256(k + 1) <= pow256(8));
            }
            v = v * 256 + bytes[i - 1] as u64;
            i -= 1;
        }
        assert(bytes@.skip(0) =~= bytes@);
        PageId(v)
    }

    /// The eight little-endian bytes that store this page id.
    pub fn to_bytes(self) -> (r: [u8; 8])
        ensures
            u64_le(r@) == self.0,
    {
        let mut out: [u8; 8] = [0u8; 8];
        let mut v: u64 = self.0;
        let mut i: usize = 0;
        proof {
            lemma_pow256_bounds();
            assert(out@.take(0) =~= Seq::<u8>::empty());
        }
        while i < 8
            invariant
                i <= 8,
                out@.len() == 8,
                self.0 == u64_le(out@.take(i as int)) + pow256(i as nat) * v,
                v < pow256((8 - i) as nat),
            decreases 8 - i,
        {
            let ghost before = out@;
            out[i] = (v % 256) as u8;
            proof {
                lemma_u64_le_push(before.take(i as int), (v % 256) as u8);
                assert(out@.take(i + 1) =~= before.take(i as int).push((v % 256) as u8));
                lemma_pow256_step(i as nat);
                assert(pow256(i as nat) * v == pow256(i as nat) * (v % 256) + pow256((i + 1) as nat)
                    * (v / 256)) by (nonlinear_arith)
                    requires
                        pow256((i + 1) as nat) == pow256(i as nat) * 256;
                lemma_pow256_step((8 - i - 1) as nat);
                assert(v / 256 < pow256((8 - i - 1) as nat)) by (nonlinear_arith)
                    requires
                        v < pow256((8 - i) as nat),
                        pow256((8 - i) as nat) == pow256((8 - i - 1) as nat) * 256;
            }
            v = v / 256;
            i += 1;
        }
        assert(out@.take(8) =~= out@);
        out
    }
}

/// 256 to the power `n`.
pub open spec fn pow256(n: nat) -> int
    decreases n,
{
    if n == 0 {
        1
    } else {
        256 * pow256((n - 1) as nat)
    }
}

proof fn lemma_pow256_step(n: nat)
    ensures
        pow256(n + 1) == pow256(n) * 256,
        pow256(n) >= 1,
    decreases n,
{
    if n > 0 {
        lemma_pow256_step((n - 1) as nat);
    }
}

proof fn lemma_pow256_bounds()
    ensures
        forall|k: nat| k <= 8 ==> #[trigger] pow256(k) <= pow256(8),
        pow256(8) == 0x1_0000_0000_0000_0000,
        pow256(0) == 1,
{
    reveal_with_fuel(pow256, 9);
    assert forall|k: nat| k <= 8 implies #[trigger] pow256(k) <= pow256(8) by {
        reveal_with_fuel(pow256, 9);
    }
}

proof fn lemma_u64_le_push(b: Seq<u8>, x: u8)
    ensures
        u64_le(b.push(x)) == u64_le(b) + pow256(b.len()) * x,
    decreases b.len(),
{
    if b.len() == 0 {
        assert(b.push(x).drop_first() =~= Seq::<u8>::empty());
        assert(u64_le(b.push(x)) == x as int + 256 * u64_le(Seq::<u8>::empty()));
    } else {
        assert(b.push(x).drop_first() =~= b.drop_first().push(x));
        lemma_u64_le_push(b.drop_first(), x);
        assert(u64_le(b.push(x)) == b[0] as int + 256 * u64_le(b.drop_first().push(x)));
        lemma_pow256_step((b.len() - 1) as nat);
        assert(256 * (pow256((b.len() - 1) as nat) * x) == pow256(b.len()) * x) by (nonlinear_arith)
            requires
                pow256(b.len()) == pow256((b.len() - 1) as nat) * 256;
    }
}

/// Equal little-endian numbers of the same width have the same bytes: the
/// bytes that store a page id are determined by it, so reading back what
/// `to_bytes` wrote gives the page id, and writing back what `from_bytes`
/// read gives the bytes.
pub proof fn lemma_u64_le_unique(a: Seq<u8>, b: Seq<u8>)
    requires
        a.len() == b.len(),
        u64_le(a) == u64_le(b),
    ensures
        a == b,
    decreases a.len(),
{
    if a.len() > 0 {
        lemma_u64_le_nonneg(a.drop_first());
        lemma_u64_le_nonneg(b.drop_first());
        let x = a[0] as int;
        let y = b[0] as int;
        let p = u64_le(a.drop_first());
        let q = u64_le(b.drop_first());
        assert(x == y && p == q) by (nonlinear_arith)
            requires
                x + 256 * p == y + 256 * q,
                0 <= x < 256,
                0 <= y < 256,
                p >= 0,
                q >= 0;
        lemma_u64_le_unique(a.drop_first(), b.drop_first());
        assert(a =~= seq![a[0]] + a.drop_first());
        assert(b =~= seq![b[0]] + b.drop_first());
    } else {
        assert(a =~= b);
    }
}

proof fn lemma_u64_le_nonneg(b: Seq<u8>)
    ensures
        u64_le(b) >= 0,
    decreases b.len(),
{
    if b.len() > 0 {
        lemma_u64_le_nonneg(b.drop_first());
    }
}

impl Default for PageId {
    /// The invalid page id.
    fn default() -> (r: Self)
        ensures
            r.0 == INVALID_PAGE_NUMBER,
    {
        PageId::invalid()
    }
}

impl From<Option<PageId>> for PageId {
    /// The page id held, or the invalid page id for `None`.
    fn from(page_id: Option<PageId>) -> (r: Self) {
        match page_id {
            Some(p) => p,
            None => PageId::invalid(),
        }
    }
}

impl vstd::std_specs::convert::FromSpecImpl<Option<PageId>> for PageId {
    open spec fn obeys_from_spec() -> bool {
        true
    }

    open spec fn from_spec(v: Option<PageId>) -> PageId {
        match v {
            Some(p) => p,
            None => PageId(INVALID_PAGE_NUMBER),
        }
    }
}

} // verus!
