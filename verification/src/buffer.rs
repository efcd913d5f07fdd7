use vstd::prelude::*;
use crate::disk::{PageId, PAGE_SIZE, INVALID_PAGE_NUMBER};
use std::collections::HashMap;

verus! {

broadcast use vstd::std_specs::hash::group_hash_axioms;

#[verifier::external_type_specification]
#[verifier::external_body]
pub struct ExIoError(std::io::Error);

/// Errors of the buffer pool.
#[derive(Debug)]
pub enum Error {
    /// The disk could not be read or written.
    Io(std::io::Error),
    /// Every buffer is pinned: none can take another page.
    NoFreeBuffer,
}

/// Names a frame of the buffer pool.
#[derive(Debug, Default, Clone, Copy, PartialEq, Eq, Hash, Structural)]
pub struct BufferId(usize);

impl BufferId {
    /// The position of the frame in the pool.
    pub closed spec fn at(self) -> int {
        self.0 as int
    }

    /// The position of the frame in the pool.
    pub fn index(self) -> (r: usize)
        ensures
            r == self.at(),
    {
        self.0
    }
}

/// A page held in memory: which page it is, its bytes, and whether they
/// changed since they were read or last written to disk.
pub struct Buffer {
    pub page_id: PageId,
    pub page: Vec<u8>,
    pub is_dirty: bool,
}

impl Default for Buffer {
    /// A clean buffer of zeros that holds no page.
    fn default() -> (r: Self)
        ensures
            r.page_id.0 == crate::disk::INVALID_PAGE_NUMBER,
            r.page@ == Seq::new(PAGE_SIZE as nat, |i: int| 0u8),
            !r.is_dirty,
    {
        let page: Vec<u8> = vec![0u8; PAGE_SIZE];
        assert(page@ =~= Seq::new(PAGE_SIZE as nat, |i: int| 0u8));
        Buffer { page_id: PageId::invalid(), page, is_dirty: false }
    }
}

/// One frame of the pool: a buffer, the clock-sweep usage count, and the
/// number of holders that pin the buffer in place.
pub struct Frame {
    usage_count: u64,
    pin_count: u64,
    buffer: Buffer,
}

impl Default for Frame {
    /// An empty, unused, unpinned frame.
    fn default() -> (r: Self)
        ensures
            r@ == empty_frame(),
    {
        Frame { usage_count: 0, pin_count: 0, buffer: Buffer::default() }
    }
}

/// A frame that holds no page: zeros, clean, unused, unpinned.
pub open spec fn empty_frame() -> FrameView {
    FrameView {
        page_id: 0xffff_ffff_ffff_ffff,
        page: Seq::new(PAGE_SIZE as nat, |k: int| 0u8),
        dirty: false,
        usage: 0,
        pins: 0,
    }
}

/// What the pool shows of one frame.
pub struct FrameView {
    pub page_id: u64,
    pub page: Seq<u8>,
    pub dirty: bool,
    pub usage: nat,
    pub pins: nat,
}

impl Frame {
    pub closed spec fn view(&self) -> FrameView {
        FrameView {
            page_id: self.buffer.page_id.0,
            page: self.buffer.page@,
            dirty: self.buffer.is_dirty,
            usage: self.usage_count as nat,
            pins: self.pin_count as nat,
        }
    }
}

/// How far the clock hand, standing at `hand`, travels to reach frame `i`
/// of `n`.
pub open spec fn clock_distance(i: int, hand: int, n: int) -> int {
    if i >= hand {
        i - hand
    } else {
        i + n - hand
    }
}

/// A frame the sweep may take: one nobody pins, or one whose usage count is
/// already zero.
pub open spec fn evictable(f: FrameView) -> bool {
    f.pins == 0 || f.usage == 0
}

/// The sweep reaches frame `i` (with its usage count worn down) before frame
/// `j`: it has the lower usage count, or the same and lies nearer the hand.
pub open spec fn reached_first(frames: Seq<FrameView>, hand: int, i: int, j: int) -> bool {
    let n = frames.len() as int;
    ||| frames[i].usage < frames[j].usage
    ||| frames[i].usage == frames[j].usage && clock_distance(i, hand, n) < clock_distance(j, hand, n)
}

/// Frame `v` is the clock sweep's victim: it is evictable, and the sweep
/// reaches it before every other evictable frame.
pub open spec fn is_victim(frames: Seq<FrameView>, hand: int, v: int) -> bool {
    &&& 0 <= v < frames.len()
    &&& evictable(frames[v])
    &&& forall|j: int|
        0 <= j < frames.len() && j != v && #[trigger] evictable(frames[j]) ==> reached_first(
            frames,
            hand,
            v,
            j,
        )
}

/// The frames once the hand, starting at `hand`, has gone `rounds` times
/// round and then `d` frames further: every unpinned frame lost one use per
/// time the hand passed it.
pub open spec fn worn(frames: Seq<FrameView>, hand: int, rounds: int, d: int) -> Seq<FrameView> {
    let n = frames.len() as int;
    Seq::new(
        frames.len(),
        |i: int|
            if frames[i].pins > 0 {
                frames[i]
            } else {
                FrameView {
                    usage: (frames[i].usage - rounds - (if clock_distance(i, hand, n) < d {
                        1int
                    } else {
                        0int
                    })) as nat,
                    ..frames[i]
                }
            },
    )
}

/// The frames after the sweep stopped at victim `v`: the hand went round as
/// many times as `v`'s usage count and then on to `v`.
pub open spec fn swept(frames: Seq<FrameView>, hand: int, v: int) -> Seq<FrameView> {
    worn(frames, hand, frames[v].usage as int, clock_distance(v, hand, frames.len() as int))
}

/// Clock distance `x` lies among the last `c` frames the hand passed before
/// reaching distance `d`.
pub open spec fn just_passed(x: int, d: int, c: int, n: int) -> bool {
    (d - c <= x < d) || (x >= n + d - c)
}

proof fn lemma_victim_found(f0: Seq<FrameView>, hand0: int, rounds: int, v: int, cur: Seq<FrameView>)
    requires
        0 <= hand0 < f0.len(),
        0 <= v < f0.len(),
        0 <= rounds,
        cur == worn(f0, hand0, rounds, clock_distance(v, hand0, f0.len() as int)),
        cur[v].usage == 0,
        forall|c: int|
            0 <= c < f0.len() && #[trigger] evictable(f0[c]) ==> f0[c].usage > rounds || (f0[c].usage
                == rounds && clock_distance(c, hand0, f0.len() as int) >= clock_distance(v, hand0, f0.len() as int)),
    ensures
        is_victim(f0, hand0, v),
        cur == swept(f0, hand0, v),
{
    let n = f0.len() as int;
    assert(evictable(f0[v]));
    assert(f0[v].usage == rounds);
    assert forall|j: int| 0 <= j < n && j != v && #[trigger] evictable(f0[j]) implies reached_first(
        f0,
        hand0,
        v,
        j,
    ) by {
        assert(clock_distance(j, hand0, n) != clock_distance(v, hand0, n));
    }
}

/// One step of the sweep past frame `v` (which it did not take): the hand
/// moves on one frame, and a full turn starts a new round.
proof fn lemma_sweep_step(
    f0: Seq<FrameView>,
    hand0: int,
    rounds: int,
    v: int,
    cur: Seq<FrameView>,
    next: Seq<FrameView>,
    bound: int,
)
    requires
        0 <= hand0 < f0.len(),
        0 <= v < f0.len(),
        0 <= rounds <= bound,
        cur == worn(f0, hand0, rounds, clock_distance(v, hand0, f0.len() as int)),
        cur[v].usage > 0,
        next.len() == cur.len(),
        forall|i: int| 0 <= i < cur.len() && i != v ==> next[i] == cur[i],
        cur[v].pins > 0 ==> next[v] == cur[v],
        cur[v].pins == 0 ==> next[v] == (FrameView { usage: (cur[v].usage - 1) as nat, ..cur[v] }),
        forall|c: int|
            0 <= c < f0.len() && #[trigger] evictable(f0[c]) ==> f0[c].usage > rounds || (f0[c].usage
                == rounds && clock_distance(c, hand0, f0.len() as int) >= clock_distance(v, hand0, f0.len() as int)),
        (exists|c: int| 0 <= c < f0.len() && #[trigger] evictable(f0[c])) ==> bound == f0[choose|c: int|
            0 <= c < f0.len() && #[trigger] evictable(f0[c])].usage,
        (forall|i: int| 0 <= i < f0.len() ==> !#[trigger] evictable(f0[i])) ==> (clock_distance(
            v,
            hand0,
            f0.len() as int,
        ) < f0.len() - 1),
    ensures
        ({
            let n = f0.len() as int;
            let nv = if v + 1 == n { 0 } else { v + 1 };
            let r2 = if nv == hand0 { rounds + 1 } else { rounds };
            &&& next == worn(f0, hand0, r2, clock_distance(nv, hand0, n))
            &&& r2 <= bound
            &&& nv != hand0 ==> clock_distance(nv, hand0, n) == clock_distance(v, hand0, n) + 1
            &&& nv == hand0 ==> clock_distance(v, hand0, n) == n - 1
        }),
{
    let n = f0.len() as int;
    let nv = if v + 1 == n { 0 } else { v + 1 };
    let d = clock_distance(v, hand0, n);
    let wrap = nv == hand0;
    assert(wrap <==> d == n - 1);
    let r2 = if wrap { rounds + 1 } else { rounds };
    let d2 = clock_distance(nv, hand0, n);
    assert(!wrap ==> d2 == d + 1);
    assert(wrap ==> d2 == 0);
    let w = worn(f0, hand0, r2, d2);
    assert forall|i: int| 0 <= i < n implies next[i] == w[i] by {
        let di = clock_distance(i, hand0, n);
        if i != v {
            assert(di != d);
        }
        if f0[i].pins == 0 {
            let dec = if di < d { 1int } else { 0int };
            let dec2 = if di < d2 { 1int } else { 0int };
            assert(evictable(f0[i]));
            assert(f0[i].usage >= rounds + dec);
            assert(cur[i].usage == f0[i].usage - rounds - dec);
            if i != v {
                assert(rounds + dec == r2 + dec2);
                assert(next[i].usage == w[i].usage);
            } else {
                assert(rounds + dec + 1 == r2 + dec2);
                assert(next[i].usage == w[i].usage);
            }
            assert(next[i] =~= w[i]);
        }
    }
    assert(next =~= w);
    if wrap {
        let c = choose|c: int| 0 <= c < n && #[trigger] evictable(f0[c]);
        if exists|c: int| 0 <= c < n && #[trigger] evictable(f0[c]) {
            if c != v {
                assert(clock_distance(c, hand0, n) != d);
            } else {
                assert(f0[v].pins == 0 || f0[v].usage == 0);
            }
        }
    }
}

/// The frames the hand passed in a row, all pinned and in use, gain the frame
/// it just passed when that one is pinned and in use too.
proof fn lemma_window_step(f0: Seq<FrameView>, hand0: int, v: int, c: int)
    requires
        0 <= hand0 < f0.len(),
        0 <= v < f0.len(),
        0 <= c,
        c + 1 < f0.len(),
        f0[v].pins > 0 && f0[v].usage > 0,
        forall|i: int|
            0 <= i < f0.len() && just_passed(
                clock_distance(i, hand0, f0.len() as int),
                clock_distance(v, hand0, f0.len() as int),
                c,
                f0.len() as int,
            ) ==> #[trigger] f0[i].pins > 0 && f0[i].usage > 0,
    ensures
        ({
            let n = f0.len() as int;
            let nv = if v + 1 == n { 0 } else { v + 1 };
            forall|i: int|
                0 <= i < n && just_passed(
                    clock_distance(i, hand0, n),
                    clock_distance(nv, hand0, n),
                    c + 1,
                    n,
                ) ==> #[trigger] f0[i].pins > 0 && f0[i].usage > 0
        }),
{
    let n = f0.len() as int;
    let nv = if v + 1 == n { 0 } else { v + 1 };
    let d = clock_distance(v, hand0, n);
    assert forall|i: int|
        0 <= i < n && just_passed(
            clock_distance(i, hand0, n),
            clock_distance(nv, hand0, n),
            c + 1,
            n,
        ) implies #[trigger] f0[i].pins > 0 && f0[i].usage > 0 by {
        if clock_distance(i, hand0, n) != d {
            assert(just_passed(clock_distance(i, hand0, n), d, c, n));
        } else {
            assert(i == v);
        }
    }
}

proof fn lemma_all_pinned(f0: Seq<FrameView>, hand0: int, v: int, c: int)
    requires
        0 <= hand0 < f0.len(),
        0 <= v < f0.len(),
        c == f0.len(),
        f0[v].pins > 0 && f0[v].usage > 0,
        forall|i: int|
            0 <= i < f0.len() && just_passed(
                clock_distance(i, hand0, f0.len() as int),
                clock_distance(v, hand0, f0.len() as int),
                c - 1,
                f0.len() as int,
            ) ==> #[trigger] f0[i].pins > 0 && f0[i].usage > 0,
    ensures
        forall|i: int| 0 <= i < f0.len() ==> !#[trigger] evictable(f0[i]),
{
    let n = f0.len() as int;
    assert forall|i: int| 0 <= i < n implies !#[trigger] evictable(f0[i]) by {
        if i != v {
            assert(clock_distance(i, hand0, n) != clock_distance(v, hand0, n));
            assert(f0[i].pins > 0 && f0[i].usage > 0);
        }
    }
}

/// The frames of a buffer pool and the position of the clock hand.
pub struct BufferPool {
    buffers: Vec<Frame>,
    next_victim_id: BufferId,
}

impl BufferPool {
    /// What the pool holds, frame by frame.
    pub closed spec fn frames(&self) -> Seq<FrameView> {
        self.buffers@.map_values(|f: Frame| f@)
    }

    /// Where the clock hand stands.
    pub closed spec fn hand(&self) -> int {
        self.next_victim_id.0 as int
    }

    /// The hand points at a frame (at zero in a pool without frames), and
    /// every page buffer is a page long.
    pub closed spec fn wf(&self) -> bool {
        &&& self.next_victim_id.0 < self.buffers@.len() || (self.buffers@.len() == 0
            && self.next_victim_id.0 == 0)
        &&& forall|i: int|
            0 <= i < self.buffers@.len() ==> #[trigger] self.buffers@[i].buffer.page@.len()
                == PAGE_SIZE
    }

    /// A pool of `pool_size` empty frames, the hand at the first.
    pub fn new(pool_size: usize) -> (r: Self)
        ensures
            r.wf(),
            r.frames().len() == pool_size,
            r.hand() == 0,
            forall|i: int| 0 <= i < pool_size ==> #[trigger] r.frames()[i] == empty_frame(),
    {
        let mut buffers: Vec<Frame> = Vec::new();
        let mut i: usize = 0;
        while i < pool_size
            invariant
                i <= pool_size,
                buffers@.len() == i,
                forall|k: int| 0 <= k < i ==> #[trigger] buffers@[k]@ == empty_frame(),
            decreases pool_size - i,
        {
            buffers.push(Frame::default());
            i += 1;
        }
        let next_victim_id = BufferId(0);
        let r = BufferPool { buffers, next_victim_id };
        assert forall|i: int| 0 <= i < pool_size implies #[trigger] r.frames()[i] == empty_frame()
            && r.buffers@[i].buffer.page@.len() == PAGE_SIZE by {
            assert(r.buffers@[i]@ == empty_frame());
        }
        assert forall|i: int| 0 <= i < r.buffers@.len() implies #[trigger] r.buffers@[i].buffer.page@.len()
            == PAGE_SIZE by {
            assert(r.buffers@[i]@ == empty_frame());
        }
        r
    }

    /// Number of frames.
    fn size(&self) -> (r: usize)
        ensures
            r == self.frames().len(),
    {
        self.buffers.len()
    }

    /// Runs the clock sweep: from the hand on, takes the first frame whose
    /// usage count is zero, counting down the usage of each unpinned frame it
    /// passes. `None` where every frame is pinned and in use.
    fn evict(&mut self) -> (r: Option<BufferId>)
        requires
            old(self).wf(),
            old(self).frames().len() > 0,
        ensures
            final(self).wf(),
            final(self).frames().len() == old(self).frames().len(),
            r is None <==> forall|i: int|
                0 <= i < old(self).frames().len() ==> !#[trigger] evictable(old(self).frames()[i]),
            r matches Some(v) ==> is_victim(old(self).frames(), old(self).hand(), v.at())
                && final(self).frames() == swept(old(self).frames(), old(self).hand(), v.at())
                && final(self).hand() == v.at(),
            r is None ==> final(self).frames() == old(self).frames() && final(self).hand() == if old(
                self,
            ).hand() == 0 {
                old(self).frames().len() - 1
            } else {
                old(self).hand() - 1
            },
    {
        let pool_size = self.size();
        let mut consecutive_pinned: usize = 0;
        let ghost f0 = self.frames();
        let ghost hand0 = self.hand();
        let ghost n = pool_size as int;
        let ghost mut rounds: int = 0;
        let ghost bound: int = if exists|c: int| 0 <= c < n && #[trigger] evictable(f0[c]) {
            f0[choose|c: int| 0 <= c < n && #[trigger] evictable(f0[c])].usage as int
        } else {
            0
        };
        proof {
            assert(worn(f0, hand0, 0, 0) =~= f0);
        }
        loop
            invariant_except_break
                self.wf(),
                n == self.frames().len(),
                n == pool_size,
                f0.len() == n,
                0 <= hand0 < n,
                f0 == old(self).frames(),
                hand0 == old(self).hand(),
                0 <= rounds <= bound,
                self.frames() == worn(f0, hand0, rounds, clock_distance(self.hand(), hand0, n)),
                forall|c: int|
                    0 <= c < n && #[trigger] evictable(f0[c]) ==> f0[c].usage > rounds || (f0[c].usage
                        == rounds && clock_distance(c, hand0, n) >= clock_distance(
                        self.hand(),
                        hand0,
                        n,
                    )),
                consecutive_pinned < n,
                forall|i: int|
                    0 <= i < n && just_passed(
                        clock_distance(i, hand0, n),
                        clock_distance(self.hand(), hand0, n),
                        consecutive_pinned as int,
                        n,
                    ) ==> #[trigger] f0[i].pins > 0 && f0[i].usage > 0,
                (forall|i: int| 0 <= i < n ==> !#[trigger] evictable(f0[i])) ==> rounds == 0
                    && consecutive_pinned == clock_distance(self.hand(), hand0, n),
                (exists|c: int| 0 <= c < n && #[trigger] evictable(f0[c])) ==> bound == f0[choose|c: int|
                    0 <= c < n && #[trigger] evictable(f0[c])].usage,
            ensures
                self.wf(),
                is_victim(f0, hand0, self.hand()),
                self.frames() == swept(f0, hand0, self.hand()),
            decreases bound - rounds, n - clock_distance(self.hand(), hand0, n),
        {
            let ghost d = clock_distance(self.hand(), hand0, n);
            let ghost cur = self.frames();
            let victim = self.next_victim_id;
            let i = victim.0;
            let ghost old_consecutive = consecutive_pinned as int;
            assert(self.frames()[i as int] == self.buffers@[i as int]@);
            if self.buffers[i].usage_count == 0 {
                proof {
                    lemma_victim_found(f0, hand0, rounds, i as int, self.frames());
                }
                break;
            }
            if self.buffers[i].pin_count == 0 {
                let u = self.buffers[i].usage_count;
                self.buffers[i].usage_count = u - 1;
                consecutive_pinned = 0;
            } else {
                consecutive_pinned += 1;
                if consecutive_pinned >= pool_size {
                    proof {
                        lemma_all_pinned(f0, hand0, i as int, consecutive_pinned as int);
                        assert(worn(f0, hand0, 0, d) =~= f0);
                    }
                    return None;
                }
            }
            let next = self.increment_id(victim);
            self.next_victim_id = next;
            proof {
                let old_rounds = rounds;
                if next.0 == hand0 {
                    rounds = rounds + 1;
                }
                assert forall|k: int| 0 <= k < n && k != i implies self.frames()[k] == cur[k] by {}
                assert(f0[i as int].pins == cur[i as int].pins);
                if consecutive_pinned > 0 {
                    lemma_window_step(f0, hand0, i as int, old_consecutive);
                }
                if forall|k: int| 0 <= k < n ==> !#[trigger] evictable(f0[k]) {
                    assert(!evictable(f0[i as int]));
                    assert(consecutive_pinned == old_consecutive + 1);
                }
                lemma_sweep_step(f0, hand0, old_rounds, i as int, cur, self.frames(), bound);
            }
        }
        Some(self.next_victim_id)
    }

    /// Counts one more use and one more holder of frame `i`.
    fn pin(&mut self, i: usize)
        requires
            old(self).wf(),
            i < old(self).frames().len(),
            old(self).frames()[i as int].usage < u64::MAX,
            old(self).frames()[i as int].pins < u64::MAX,
        ensures
            final(self).wf(),
            final(self).hand() == old(self).hand(),
            final(self).frames() == old(self).frames().update(
                i as int,
                FrameView {
                    usage: old(self).frames()[i as int].usage + 1,
                    pins: old(self).frames()[i as int].pins + 1,
                    ..old(self).frames()[i as int]
                },
            ),
    {
        let u = self.buffers[i].usage_count;
        self.buffers[i].usage_count = u + 1;
        let p = self.buffers[i].pin_count;
        self.buffers[i].pin_count = p + 1;
        proof {
            assert(self.frames() =~= old(self).frames().update(
                i as int,
                FrameView {
                    usage: old(self).frames()[i as int].usage + 1,
                    pins: old(self).frames()[i as int].pins + 1,
                    ..old(self).frames()[i as int]
                },
            ));
        }
    }

    /// Puts `frame` in place of frame `i`.
    fn put_frame(&mut self, i: usize, frame: Frame)
        requires
            old(self).wf(),
            i < old(self).frames().len(),
            frame.buffer.page@.len() == PAGE_SIZE,
        ensures
            final(self).wf(),
            final(self).hand() == old(self).hand(),
            final(self).frames() == old(self).frames().update(i as int, frame@),
    {
        self.buffers.set(i, frame);
        proof {
            assert(self.frames() =~= old(self).frames().update(i as int, frame@));
        }
    }

    /// The frame after `buffer_id`, round the clock.
    fn increment_id(&self, buffer_id: BufferId) -> (r: BufferId)
        requires
            self.wf(),
            buffer_id.0 < self.frames().len(),
        ensures
            r.0 == if buffer_id.0 + 1 == self.frames().len() {
                0
            } else {
                buffer_id.0 + 1
            },
    {
        let n = self.size();
        let next = buffer_id.0 + 1;
        assert(next % n == if next == n { 0 } else { next }) by (nonlinear_arith)
            requires
                0 < next <= n;
        BufferId(next % n)
    }
}

/// The sweep only wears usage counts down: page ids and contents stay, and
/// pinned frames are untouched.
proof fn lemma_sweep_keeps_wf(before: BufferPoolManager, after: BufferPoolManager, v: int)
    requires
        before.wf(),
        after.pool.wf(),
        after.page_table == before.page_table,
        is_victim(before.frames(), before.hand(), v),
        after.frames() == swept(before.frames(), before.hand(), v),
    ensures
        after.wf(),
        after.frames()[v].pins == 0,
        after.frames()[v].page_id == before.frames()[v].page_id,
        after.frames()[v].dirty == before.frames()[v].dirty,
{
    let f = before.frames();
    assert(evictable(f[v]));
    assert forall|i: int| 0 <= i < f.len() implies #[trigger] after.frames()[i].page_id == f[i].page_id
        && after.frames()[i].pins == f[i].pins && (f[i].pins > 0 ==> after.frames()[i].usage == f[i].usage) by {}
    if f[v].pins > 0 {
        assert(f[v].usage > 0);
    }
    let g = after.frames();
    assert(after.table() == before.table());
    assert forall|p: u64| #[trigger] after.table().contains_key(p) implies 0 <= after.table()[p] < g.len()
        && g[after.table()[p]].page_id == p && addressable(p) by {
        assert(before.table().contains_key(p));
        assert(g[before.table()[p]].page_id == f[before.table()[p]].page_id);
    }
    assert forall|i: int| 0 <= i < g.len() && #[trigger] g[i].page_id != INVALID_PAGE_NUMBER implies after.table().contains_key(
        g[i].page_id,
    ) && after.table()[g[i].page_id] == i by {
        assert(g[i].page_id == f[i].page_id);
        assert(f[i].page_id != INVALID_PAGE_NUMBER);
    }
    assert forall|i: int| 0 <= i < g.len() && #[trigger] g[i].pins > 0 implies g[i].usage > 0 && g[i].page_id
        != INVALID_PAGE_NUMBER by {
        assert(g[i].pins == f[i].pins);
        assert(f[i].pins > 0);
    }
    assert forall|i: int| 0 <= i < g.len() && #[trigger] g[i].dirty implies g[i].page_id != INVALID_PAGE_NUMBER by {
        assert(g[i].page_id == f[i].page_id);
        assert(f[i].dirty);
    }
}

proof fn lemma_same_frames_keeps_wf(before: BufferPoolManager, after: BufferPoolManager)
    requires
        before.wf(),
        after.pool.wf(),
        after.page_table == before.page_table,
        after.frames() == before.frames(),
    ensures
        after.wf(),
{
    assert(after.table() == before.table());
}

/// Frames that keep their page ids and pins keep a well-formed manager well
/// formed, where pinned frames keep their usage.
proof fn lemma_same_ids_keeps_wf(before: BufferPoolManager, after: BufferPoolManager)
    requires
        before.wf(),
        after.pool.wf(),
        after.page_table == before.page_table,
        after.frames().len() == before.frames().len(),
        forall|i: int|
            0 <= i < before.frames().len() ==> #[trigger] after.frames()[i].page_id == before.frames()[i].page_id
                && after.frames()[i].pins == before.frames()[i].pins && after.frames()[i].usage
                == before.frames()[i].usage,
        forall|i: int|
            0 <= i < before.frames().len() && #[trigger] after.frames()[i].dirty ==> after.frames()[i].page_id
                != INVALID_PAGE_NUMBER,
    ensures
        after.wf(),
{
    let f = before.frames();
    let g = after.frames();
    assert(after.table() == before.table());
    assert forall|p: u64| #[trigger] after.table().contains_key(p) implies 0 <= after.table()[p] < g.len()
        && g[after.table()[p]].page_id == p && addressable(p) by {
        assert(g[before.table()[p]].page_id == f[before.table()[p]].page_id);
    }
    assert forall|i: int| 0 <= i < g.len() && #[trigger] g[i].page_id != INVALID_PAGE_NUMBER implies after.table().contains_key(
        g[i].page_id,
    ) && after.table()[g[i].page_id] == i by {
        assert(g[i].page_id == f[i].page_id);
    }
    assert forall|i: int| 0 <= i < g.len() && #[trigger] g[i].pins > 0 implies g[i].usage > 0 && g[i].page_id
        != INVALID_PAGE_NUMBER by {
        assert(g[i].page_id == f[i].page_id);
        assert(g[i].pins == f[i].pins);
        assert(f[i].pins > 0);
    }
}

/// `after` is `before` with page `page_id` placed in the frame `ev` chose,
/// holding `page` with the given dirty flag, one use and one holder; the
/// page table maps it there in place of the page the frame gave up.
pub open spec fn installed(
    before: BufferPoolManager,
    after: BufferPoolManager,
    ev: Eviction,
    page_id: PageId,
    page: Seq<u8>,
    dirty: bool,
) -> bool {
    &&& after.wf()
    &&& after.hand() == before.hand()
    &&& after.frames() == before.frames().update(
        ev.buffer_id.at(),
        FrameView { page_id: page_id.0, page: page, dirty: dirty, usage: 1, pins: 1 },
    )
    &&& after.table() == before.table().remove(ev.evicted.0).insert(page_id.0, ev.buffer_id.at())
}

proof fn lemma_place_keeps_wf(before: BufferPoolManager, after: BufferPoolManager, ev: Eviction, page_id: PageId)
    requires
        before.wf(),
        pending(before.frames(), before.table(), ev, page_id),
        after.pool.wf(),
        after.frames() == before.frames().update(
            ev.buffer_id.at(),
            FrameView { page_id: page_id.0, page: after.frames()[ev.buffer_id.at()].page, dirty: after.frames()[ev.buffer_id.at()].dirty, usage: 1, pins: 1 },
        ),
        after.table() == before.table().remove(ev.evicted.0).insert(page_id.0, ev.buffer_id.at()),
    ensures
        after.wf(),
{
    let f = before.frames();
    let g = after.frames();
    let b = ev.buffer_id.at();
    let t = before.table();
    let u = after.table();
    assert forall|p: u64| #[trigger] u.contains_key(p) implies 0 <= u[p] < g.len() && g[u[p]].page_id == p
        && addressable(p) by {
        if p != page_id.0 {
            assert(t.contains_key(p) && p != ev.evicted.0);
            if t[p] == b {
                assert(f[b].page_id == p);
            }
        }
    }
    assert forall|i: int| 0 <= i < g.len() && #[trigger] g[i].page_id != INVALID_PAGE_NUMBER implies u.contains_key(
        g[i].page_id,
    ) && u[g[i].page_id] == i by {
        if i != b {
            assert(g[i].page_id == f[i].page_id);
            assert(t.contains_key(f[i].page_id) && t[f[i].page_id] == i);
            if f[i].page_id == ev.evicted.0 {
                assert(f[b].page_id != INVALID_PAGE_NUMBER ==> t[f[b].page_id] == b);
            }
        }
    }
    assert forall|i: int| 0 <= i < g.len() && #[trigger] g[i].pins > 0 implies g[i].usage > 0 && g[i].page_id
        != INVALID_PAGE_NUMBER by {
        if i != b {
            assert(g[i] == f[i]);
        }
    }
    assert forall|i: int| 0 <= i < g.len() && #[trigger] g[i].dirty implies g[i].page_id != INVALID_PAGE_NUMBER by {
        if i != b {
            assert(g[i] == f[i]);
        }
    }
}

/// A page whose byte offset in the heap file, `page_id * PAGE_SIZE`, fits
/// in 64 bits.
pub open spec fn addressable(page_id: u64) -> bool {
    page_id < 0x10_0000_0000_0000
}

/// A frame chosen to take a new page, and what it held: the page it gives
/// up, and whether that page must be written back to disk first.
#[derive(Clone, Copy)]
pub struct Eviction {
    pub buffer_id: BufferId,
    pub evicted: PageId,
    pub write_back: bool,
}

/// The outcome of looking a page up: the frame that already holds it, or the
/// frame chosen to receive it once it has been read.
pub enum Fetched {
    Hit(BufferId),
    Miss(Eviction),
}

/// `frames`, with the hand at `hand`, became `after`, with the hand at
/// `after_hand`, by one run of the clock sweep, which chose the frame and
/// page that `ev` names, or found every frame pinned and in use (`None`).
/// The chosen frame is unpinned, and must be written back exactly when it
/// is dirty.
pub open spec fn evicted(
    frames: Seq<FrameView>,
    hand: int,
    after: Seq<FrameView>,
    after_hand: int,
    ev: Option<Eviction>,
) -> bool {
    match ev {
        Some(ev) => {
            &&& is_victim(frames, hand, ev.buffer_id.at())
            &&& after == swept(frames, hand, ev.buffer_id.at())
            &&& after_hand == ev.buffer_id.at()
            &&& frames[ev.buffer_id.at()].pins == 0
            &&& ev.evicted.0 == frames[ev.buffer_id.at()].page_id
            &&& ev.write_back == frames[ev.buffer_id.at()].dirty
        },
        None => {
            &&& forall|i: int| 0 <= i < frames.len() ==> !#[trigger] evictable(frames[i])
            &&& after == frames
            &&& after_hand == if hand == 0 {
                frames.len() - 1
            } else {
                hand - 1
            }
        },
    }
}

/// `ev` names the frame a sweep chose, still holding the page it gives up
/// and unpinned, and `page_id` is a page the pool does not hold yet.
pub open spec fn pending(frames: Seq<FrameView>, table: Map<u64, int>, ev: Eviction, page_id: PageId) -> bool {
    &&& 0 <= ev.buffer_id.at() < frames.len()
    &&& frames[ev.buffer_id.at()].pins == 0
    &&& frames[ev.buffer_id.at()].page_id == ev.evicted.0
    &&& !table.contains_key(page_id.0)
    &&& addressable(page_id.0)
}

/// The buffer pool with its page table: which page each frame holds, and
/// where each resident page is. Disk transfers are left to the caller: a
/// miss names the frame to fill and the page to write back first.
pub struct BufferPoolManager {
    pool: BufferPool,
    page_table: HashMap<u64, BufferId>,
}

impl BufferPoolManager {
    /// The frames of the pool.
    pub closed spec fn frames(&self) -> Seq<FrameView> {
        self.pool.frames()
    }

    /// Where the clock hand stands.
    pub closed spec fn hand(&self) -> int {
        self.pool.hand()
    }

    /// The page table: the frame of each resident page.
    pub closed spec fn table(&self) -> Map<u64, int> {
        self.page_table@.map_values(|b: BufferId| b.at())
    }

    /// The page table maps each resident page to the frame that holds it, a
    /// frame holds a page exactly when the table maps that page to it, a
    /// pinned frame holds a page and has been used, and a dirty frame holds a
    /// page.
    pub closed spec fn wf(&self) -> bool {
        &&& self.pool.wf()
        &&& forall|p: u64|
            #[trigger] self.table().contains_key(p) ==> 0 <= self.table()[p] < self.frames().len()
                && self.frames()[self.table()[p]].page_id == p && addressable(p)
        &&& forall|i: int|
            0 <= i < self.frames().len() && #[trigger] self.frames()[i].page_id != INVALID_PAGE_NUMBER
                ==> self.table().contains_key(self.frames()[i].page_id) && self.table()[self.frames()[i].page_id]
                == i
        &&& forall|i: int|
            0 <= i < self.frames().len() && #[trigger] self.frames()[i].pins > 0 ==> self.frames()[i].usage
                > 0 && self.frames()[i].page_id != INVALID_PAGE_NUMBER
        &&& forall|i: int|
            0 <= i < self.frames().len() && #[trigger] self.frames()[i].dirty ==> self.frames()[i].page_id
                != INVALID_PAGE_NUMBER
    }

    /// A manager over `pool`, with no page resident.
    pub fn new(pool: BufferPool) -> (r: Self)
        requires
            pool.wf(),
            forall|i: int| 0 <= i < pool.frames().len() ==> #[trigger] pool.frames()[i] == empty_frame(),
        ensures
            r.wf(),
            r.frames() == pool.frames(),
            r.hand() == pool.hand(),
            r.table() == Map::<u64, int>::empty(),
    {
        let page_table: HashMap<u64, BufferId> = HashMap::new();
        let r = BufferPoolManager { pool, page_table };
        assert(r.table() =~= Map::<u64, int>::empty());
        r
    }

    /// Looks up page `page_id`. Where it is resident, pins its frame and
    /// counts a use: `Hit`. Otherwise runs the clock sweep and names the
    /// frame that is to receive the page: `Miss`; `NoFreeBuffer` where every
    /// frame is pinned and in use.
    pub fn fetch_page(&mut self, page_id: PageId) -> (r: Result<Fetched, Error>)
        requires
            old(self).wf(),
            old(self).frames().len() > 0,
            old(self).table().contains_key(page_id.0) ==> old(self).frames()[old(self).table()[page_id.0]].usage
                < u64::MAX && old(self).frames()[old(self).table()[page_id.0]].pins < u64::MAX,
        ensures
            final(self).wf(),
            final(self).table() == old(self).table(),
            old(self).table().contains_key(page_id.0) ==> ({
                let b = old(self).table()[page_id.0];
                let f = old(self).frames()[b];
                &&& r matches Ok(Fetched::Hit(id)) && id.at() == b
                &&& final(self).frames() == old(self).frames().update(
                    b,
                    FrameView { usage: f.usage + 1, pins: f.pins + 1, ..f },
                )
                &&& final(self).hand() == old(self).hand()
            }),
            !old(self).table().contains_key(page_id.0) ==> evicted(
                old(self).frames(),
                old(self).hand(),
                final(self).frames(),
                final(self).hand(),
                match r {
                    Ok(Fetched::Miss(ev)) => Some(ev),
                    _ => None,
                },
            ),
            !old(self).table().contains_key(page_id.0) ==> (r is Err <==> r matches Err(Error::NoFreeBuffer)),
            !old(self).table().contains_key(page_id.0) ==> !(r matches Ok(Fetched::Hit(_))),
    {
        match self.page_table.get(&page_id.0) {
            Some(b) => {
                let b = *b;
                proof {
                    assert(self.page_table@.contains_key(page_id.0));
                    assert(self.table().contains_key(page_id.0));
                    assert(self.table()[page_id.0] == b.at());
                }
                self.pool.pin(b.0);
                proof {
                    assert(self.table() =~= old(self).table());
                }
                Ok(Fetched::Hit(b))
            },
            None => {
                match self.evict_for_new_page() {
                    Some(ev) => Ok(Fetched::Miss(ev)),
                    None => Err(Error::NoFreeBuffer),
                }
            },
        }
    }

    /// Runs the clock sweep to choose the frame that is to receive a new
    /// page; `NoFreeBuffer` where every frame is pinned and in use.
    pub fn create_page(&mut self) -> (r: Result<Eviction, Error>)
        requires
            old(self).wf(),
            old(self).frames().len() > 0,
        ensures
            final(self).wf(),
            final(self).table() == old(self).table(),
            evicted(
                old(self).frames(),
                old(self).hand(),
                final(self).frames(),
                final(self).hand(),
                match r {
                    Ok(ev) => Some(ev),
                    Err(_) => None,
                },
            ),
            r is Err ==> r matches Err(Error::NoFreeBuffer),
    {
        match self.evict_for_new_page() {
            Some(ev) => Ok(ev),
            None => Err(Error::NoFreeBuffer),
        }
    }

    /// Places page `page_id`, read from disk as `data`, in the frame that
    /// `ev` chose (its old page written back where `ev` asked for it): the
    /// frame holds the page clean, with one use and one holder, and the page
    /// table maps the page to it in place of the page it gave up.
    pub fn install_page(&mut self, ev: Eviction, page_id: PageId, data: &[u8]) -> (r: BufferId)
        requires
            old(self).wf(),
            pending(old(self).frames(), old(self).table(), ev, page_id),
            data@.len() == PAGE_SIZE,
        ensures
            r == ev.buffer_id,
            installed(*old(self), *final(self), ev, page_id, data@, false),
    {
        let mut page: Vec<u8> = Vec::new();
        let mut i: usize = 0;
        while i < data.len()
            invariant
                i <= data@.len(),
                page@ == data@.take(i as int),
            decreases data@.len() - i,
        {
            page.push(data[i]);
            i += 1;
            assert(page@ =~= data@.take(i as int));
        }
        assert(page@ =~= data@);
        self.place(ev, page_id, page, false);
        ev.buffer_id
    }

    /// Places the new page `page_id`, just allocated on disk, in the frame
    /// that `ev` chose (its old page written back where `ev` asked for it):
    /// the frame holds zeros, marked dirty, with one use and one holder, and
    /// the page table maps the page to it in place of the page it gave up.
    pub fn install_new_page(&mut self, ev: Eviction, page_id: PageId) -> (r: BufferId)
        requires
            old(self).wf(),
            pending(old(self).frames(), old(self).table(), ev, page_id),
        ensures
            r == ev.buffer_id,
            installed(*old(self), *final(self), ev, page_id, Seq::new(PAGE_SIZE as nat, |k: int| 0u8), true),
    {
        let buffer = Buffer::default();
        self.place(ev, page_id, buffer.page, true);
        ev.buffer_id
    }

    fn place(&mut self, ev: Eviction, page_id: PageId, page: Vec<u8>, dirty: bool)
        requires
            old(self).wf(),
            pending(old(self).frames(), old(self).table(), ev, page_id),
            page@.len() == PAGE_SIZE,
        ensures
            installed(*old(self), *final(self), ev, page_id, page@, dirty),
    {
        let b = ev.buffer_id;
        let frame = Frame {
            usage_count: 1,
            pin_count: 1,
            buffer: Buffer { page_id, page, is_dirty: dirty },
        };
        self.pool.put_frame(b.0, frame);
        self.page_table.remove(&ev.evicted.0);
        self.page_table.insert(page_id.0, b);
        proof {
            assert(self.table() =~= old(self).table().remove(ev.evicted.0).insert(page_id.0, b.at()));
            lemma_place_keeps_wf(*old(self), *self, ev, page_id);
        }
    }

    /// One holder of frame `buffer_id` lets go of it.
    pub fn release(&mut self, buffer_id: BufferId)
        requires
            old(self).wf(),
            0 <= buffer_id.at() < old(self).frames().len(),
            old(self).frames()[buffer_id.at()].pins > 0,
        ensures
            final(self).wf(),
            final(self).table() == old(self).table(),
            final(self).hand() == old(self).hand(),
            final(self).frames() == old(self).frames().update(
                buffer_id.at(),
                FrameView { pins: (old(self).frames()[buffer_id.at()].pins - 1) as nat, ..old(self).frames()[buffer_id.at()] },
            ),
    {
        let i = buffer_id.0;
        let p = self.pool.buffers[i].pin_count;
        self.pool.buffers[i].pin_count = p - 1;
        proof {
            assert(self.frames() =~= old(self).frames().update(
                buffer_id.at(),
                FrameView { pins: (old(self).frames()[buffer_id.at()].pins - 1) as nat, ..old(self).frames()[buffer_id.at()] },
            ));
            assert(self.pool.wf());
            assert(self.table() == old(self).table());
        }
    }

    /// The buffer of frame `buffer_id`: its page id, bytes and dirty flag.
    pub fn buffer(&self, buffer_id: BufferId) -> (r: &Buffer)
        requires
            self.wf(),
            0 <= buffer_id.at() < self.frames().len(),
        ensures
            r.page_id.0 == self.frames()[buffer_id.at()].page_id,
            r.page@ == self.frames()[buffer_id.at()].page,
            r.is_dirty == self.frames()[buffer_id.at()].dirty,
    {
        &self.pool.buffers[buffer_id.0].buffer
    }

    /// Copies `data` into the page of frame `buffer_id`, from byte `offset`
    /// on. The dirty flag is left as it is.
    pub fn write_page(&mut self, buffer_id: BufferId, offset: usize, data: &[u8])
        requires
            old(self).wf(),
            0 <= buffer_id.at() < old(self).frames().len(),
            offset + data@.len() <= PAGE_SIZE,
        ensures
            final(self).wf(),
            final(self).table() == old(self).table(),
            final(self).hand() == old(self).hand(),
            final(self).frames() == old(self).frames().update(
                buffer_id.at(),
                FrameView {
                    page: old(self).frames()[buffer_id.at()].page.take(offset as int) + data@
                        + old(self).frames()[buffer_id.at()].page.skip(offset + data@.len()),
                    ..old(self).frames()[buffer_id.at()]
                },
            ),
    {
        let b = buffer_id.0;
        let ghost page0 = self.pool.buffers@[b as int].buffer.page@;
        let mut i: usize = 0;
        while i < data.len()
            invariant
                b == buffer_id.0,
                b < self.pool.buffers@.len(),
                offset + data@.len() <= PAGE_SIZE,
                i <= data@.len(),
                self.pool.buffers@.len() == old(self).pool.buffers@.len(),
                self.pool.next_victim_id == old(self).pool.next_victim_id,
                self.page_table == old(self).page_table,
                forall|k: int| 0 <= k < self.pool.buffers@.len() && k != b ==> self.pool.buffers@[k] == old(self).pool.buffers@[k],
                self.pool.buffers@[b as int].usage_count == old(self).pool.buffers@[b as int].usage_count,
                self.pool.buffers@[b as int].pin_count == old(self).pool.buffers@[b as int].pin_count,
                self.pool.buffers@[b as int].buffer.page_id == old(self).pool.buffers@[b as int].buffer.page_id,
                self.pool.buffers@[b as int].buffer.is_dirty == old(self).pool.buffers@[b as int].buffer.is_dirty,
                page0 == old(self).pool.buffers@[b as int].buffer.page@,
                page0.len() == PAGE_SIZE,
                self.pool.buffers@[b as int].buffer.page@ == page0.take(offset as int) + data@.take(i as int)
                    + page0.skip(offset + i),
            decreases data@.len() - i,
        {
            self.pool.buffers[b].buffer.page.set(offset + i, data[i]);
            i += 1;
            assert(self.pool.buffers@[b as int].buffer.page@ =~= page0.take(offset as int) + data@.take(i as int)
                + page0.skip(offset + i));
        }
        proof {
            assert(data@.take(data@.len() as int) =~= data@);
            assert(self.frames() =~= old(self).frames().update(
                buffer_id.at(),
                FrameView {
                    page: old(self).frames()[buffer_id.at()].page.take(offset as int) + data@
                        + old(self).frames()[buffer_id.at()].page.skip(offset + data@.len()),
                    ..old(self).frames()[buffer_id.at()]
                },
            ));
            assert(self.table() == old(self).table());
            assert forall|k: int| 0 <= k < self.frames().len() && #[trigger] self.frames()[k].dirty implies self.frames()[k].page_id
                != INVALID_PAGE_NUMBER by {
                assert(old(self).frames()[k].dirty);
            }
            lemma_same_ids_keeps_wf(*old(self), *self);
        }
    }

    /// Sets the dirty flag of frame `buffer_id`, which holds a page.
    pub fn set_dirty(&mut self, buffer_id: BufferId, dirty: bool)
        requires
            old(self).wf(),
            0 <= buffer_id.at() < old(self).frames().len(),
            old(self).frames()[buffer_id.at()].page_id != INVALID_PAGE_NUMBER,
        ensures
            final(self).wf(),
            final(self).table() == old(self).table(),
            final(self).hand() == old(self).hand(),
            final(self).frames() == old(self).frames().update(
                buffer_id.at(),
                FrameView { dirty: dirty, ..old(self).frames()[buffer_id.at()] },
            ),
    {
        self.pool.buffers[buffer_id.0].buffer.is_dirty = dirty;
        proof {
            assert(self.frames() =~= old(self).frames().update(
                buffer_id.at(),
                FrameView { dirty: dirty, ..old(self).frames()[buffer_id.at()] },
            ));
            assert(self.table() == old(self).table());
            assert forall|k: int| 0 <= k < self.frames().len() && #[trigger] self.frames()[k].dirty implies self.frames()[k].page_id
                != INVALID_PAGE_NUMBER by {
                if k != buffer_id.at() {
                    assert(old(self).frames()[k].dirty);
                }
            }
            lemma_same_ids_keeps_wf(*old(self), *self);
        }
    }

    /// The frame that holds page `page_id`, if the page is resident.
    pub fn lookup(&self, page_id: PageId) -> (r: Option<BufferId>)
        requires
            self.wf(),
        ensures
            r is Some <==> self.table().contains_key(page_id.0),
            r matches Some(b) ==> b.at() == self.table()[page_id.0],
    {
        match self.page_table.get(&page_id.0) {
            Some(b) => Some(*b),
            None => None,
        }
    }

    /// The usage count and the number of holders of frame `buffer_id`.
    pub fn counts(&self, buffer_id: BufferId) -> (r: (u64, u64))
        requires
            self.wf(),
            0 <= buffer_id.at() < self.frames().len(),
        ensures
            r.0 == self.frames()[buffer_id.at()].usage,
            r.1 == self.frames()[buffer_id.at()].pins,
    {
        let f = &self.pool.buffers[buffer_id.0];
        (f.usage_count, f.pin_count)
    }

    /// Number of frames.
    pub fn pool_size(&self) -> (r: usize)
        requires
            self.wf(),
        ensures
            r == self.frames().len(),
    {
        self.pool.buffers.len()
    }

    /// Every dirty page with its frame, in frame order: what a flush writes
    /// back to disk before it marks them clean.
    pub fn dirty_pages(&self) -> (r: Vec<(PageId, BufferId)>)
        requires
            self.wf(),
        ensures
            forall|j: int|
                #![trigger r@[j]]
                0 <= j < r@.len() ==> self.table().contains_key(r@[j].0.0) && self.table()[r@[j].0.0]
                    == r@[j].1.at() && self.frames()[r@[j].1.at()].dirty,
            forall|p: u64|
                #[trigger] self.table().contains_key(p) && self.frames()[self.table()[p]].dirty ==> exists|j: int|
                    0 <= j < r@.len() && #[trigger] r@[j].0.0 == p,
            forall|j: int, k: int|
                #![trigger r@[j], r@[k]]
                0 <= j < k < r@.len() ==> r@[j].1.at() < r@[k].1.at(),
    {
        let mut r: Vec<(PageId, BufferId)> = Vec::new();
        let n = self.pool.buffers.len();
        let mut i: usize = 0;
        while i < n
            invariant
                self.wf(),
                n == self.frames().len(),
                i <= n,
                forall|j: int|
                    #![trigger r@[j]]
                    0 <= j < r@.len() ==> self.table().contains_key(r@[j].0.0) && self.table()[r@[j].0.0]
                        == r@[j].1.at() && r@[j].1.at() < i && self.frames()[r@[j].1.at()].dirty,
                forall|p: u64|
                    #[trigger] self.table().contains_key(p) && self.table()[p] < i && self.frames()[self.table()[p]].dirty
                        ==> exists|j: int| 0 <= j < r@.len() && #[trigger] r@[j].0.0 == p,
                forall|j: int, k: int|
                    #![trigger r@[j], r@[k]]
                    0 <= j < k < r@.len() ==> r@[j].1.at() < r@[k].1.at(),
            decreases n - i,
        {
            let buffer = &self.pool.buffers[i].buffer;
            let page_id = buffer.page_id;
            let dirty = buffer.is_dirty;
            assert(self.frames()[i as int].page_id == page_id.0);
            assert(self.frames()[i as int].dirty == dirty);
            if dirty {
                let ghost before = r@;
                r.push((page_id, BufferId(i)));
                proof {
                    assert(r@[before.len() as int].0.0 == page_id.0);
                    assert(r@[before.len() as int].1.at() == i);
                    assert(self.table().contains_key(page_id.0) && self.table()[page_id.0] == i);
                    assert forall|j: int| 0 <= j < before.len() implies r@[j] == before[j] by {}
                    assert forall|p: u64|
                        #[trigger] self.table().contains_key(p) && self.table()[p] < i + 1 && self.frames()[self.table()[p]].dirty
                            implies exists|j: int| 0 <= j < r@.len() && #[trigger] r@[j].0.0 == p by {
                        if self.table()[p] == i {
                            assert(r@[before.len() as int].0.0 == p);
                        } else {
                            let j = choose|j: int| 0 <= j < before.len() && #[trigger] before[j].0.0 == p;
                            assert(r@[j].0.0 == p);
                        }
                    }
                }
            } else {
                proof {
                    assert forall|p: u64|
                        #[trigger] self.table().contains_key(p) && self.table()[p] < i + 1 && self.frames()[self.table()[p]].dirty
                            implies exists|j: int| 0 <= j < r@.len() && #[trigger] r@[j].0.0 == p by {
                        if self.table()[p] == i {
                            assert(self.frames()[i as int].page_id == p);
                        }
                    }
                }
            }
            i += 1;
        }
        r
    }

    fn evict_for_new_page(&mut self) -> (r: Option<Eviction>)
        requires
            old(self).wf(),
            old(self).frames().len() > 0,
        ensures
            final(self).wf(),
            final(self).table() == old(self).table(),
            evicted(old(self).frames(), old(self).hand(), final(self).frames(), final(self).hand(), r),
    {
        match self.pool.evict() {
            Some(b) => {
                let buffer = &self.pool.buffers[b.0].buffer;
                let ev = Eviction { buffer_id: b, evicted: buffer.page_id, write_back: buffer.is_dirty };
                proof {
                    assert(self.frames()[b.at()] == self.pool.buffers@[b.at()]@);
                    lemma_sweep_keeps_wf(*old(self), *self, b.at());
                }
                Some(ev)
            },
            None => {
                proof {
                    lemma_same_frames_keeps_wf(*old(self), *self);
                }
                None
            },
        }
    }
}

/// In a well-formed manager, the state every operation keeps, the page table
/// lists exactly the resident pages: it maps each page it holds to the frame
/// that holds that page, each frame holding a page is listed for it, so no
/// page is resident in two frames, and the invalid page id is never listed;
/// a pinned or dirty frame holds a page.
pub proof fn lemma_table_agrees(m: BufferPoolManager)
    requires
        m.wf(),
    ensures
        forall|p: u64|
            #[trigger] m.table().contains_key(p) ==> 0 <= m.table()[p] < m.frames().len()
                && m.frames()[m.table()[p]].page_id == p,
        forall|i: int|
            0 <= i < m.frames().len() && #[trigger] m.frames()[i].page_id != INVALID_PAGE_NUMBER
                ==> m.table().contains_key(m.frames()[i].page_id) && m.table()[m.frames()[i].page_id] == i,
        forall|i: int, j: int|
            0 <= i < j < m.frames().len() && #[trigger] m.frames()[i].page_id == #[trigger] m.frames()[j].page_id
                ==> m.frames()[i].page_id == INVALID_PAGE_NUMBER,
        !m.table().contains_key(INVALID_PAGE_NUMBER),
        forall|i: int|
            0 <= i < m.frames().len() && (#[trigger] m.frames()[i].pins > 0 || m.frames()[i].dirty)
                ==> m.frames()[i].page_id != INVALID_PAGE_NUMBER,
{
    assert forall|i: int, j: int|
        0 <= i < j < m.frames().len() && #[trigger] m.frames()[i].page_id == #[trigger] m.frames()[j].page_id
            implies m.frames()[i].page_id == INVALID_PAGE_NUMBER by {
        if m.frames()[i].page_id != INVALID_PAGE_NUMBER {
            assert(m.table()[m.frames()[i].page_id] == i);
            assert(m.table()[m.frames()[j].page_id] == j);
        }
    }
    if m.table().contains_key(INVALID_PAGE_NUMBER) {
        assert(addressable(INVALID_PAGE_NUMBER));
    }
}

/// What page `p` holds, as the pool and a disk holding `disk` present it
/// together: the pool's copy where the page is resident, the disk's
/// otherwise.
pub open spec fn content(m: BufferPoolManager, disk: Map<u64, Seq<u8>>, p: u64) -> Seq<u8> {
    if m.table().contains_key(p) {
        m.frames()[m.table()[p]].page
    } else {
        disk[p]
    }
}

/// The pool agrees with the disk: every resident page that is not dirty
/// holds what the disk holds for it.
pub open spec fn synced(m: BufferPoolManager, disk: Map<u64, Seq<u8>>) -> bool {
    forall|p: u64|
        #[trigger] m.table().contains_key(p) && !m.frames()[m.table()[p]].dirty ==> disk.contains_key(p)
            && disk[p] == m.frames()[m.table()[p]].page
}

/// The disk after the write-back that eviction `ev` asks for: the evicted
/// page's bytes where the frame was dirty, the disk unchanged otherwise.
pub open spec fn written_back(m: BufferPoolManager, disk: Map<u64, Seq<u8>>, ev: Eviction) -> Map<u64, Seq<u8>> {
    if ev.write_back {
        disk.insert(ev.evicted.0, m.frames()[ev.buffer_id.at()].page)
    } else {
        disk
    }
}

/// Choosing a frame for a new page, and writing its page back where the
/// eviction asks for it, changes no page's content, and the pool stays in
/// agreement with the disk; the evicted page, where resident, is then safe
/// on disk.
pub proof fn lemma_eviction_keeps_content(
    m0: BufferPoolManager,
    m1: BufferPoolManager,
    disk: Map<u64, Seq<u8>>,
    ev: Eviction,
)
    requires
        m0.wf(),
        m1.wf(),
        m1.table() == m0.table(),
        evicted(m0.frames(), m0.hand(), m1.frames(), m1.hand(), Some(ev)),
        synced(m0, disk),
    ensures
        synced(m1, written_back(m0, disk, ev)),
        forall|p: u64| #[trigger] content(m1, written_back(m0, disk, ev), p) == content(m0, disk, p),
        m1.table().contains_key(ev.evicted.0) ==> written_back(m0, disk, ev).contains_key(ev.evicted.0)
            && written_back(m0, disk, ev)[ev.evicted.0] == m1.frames()[ev.buffer_id.at()].page,
{
    let b = ev.buffer_id.at();
    let d1 = written_back(m0, disk, ev);
    assert forall|i: int| 0 <= i < m0.frames().len() implies #[trigger] m1.frames()[i].page
        == m0.frames()[i].page && m1.frames()[i].dirty == m0.frames()[i].dirty by {}
    assert forall|p: u64| #[trigger] content(m1, d1, p) == content(m0, disk, p) by {
        if !m0.table().contains_key(p) {
            if ev.write_back && p == ev.evicted.0 {
                assert(m0.frames()[b].page_id == p);
                assert(m0.frames()[b].page_id != INVALID_PAGE_NUMBER ==> m0.table().contains_key(p));
                assert(m0.frames()[b].dirty);
            }
        }
    }
    assert forall|p: u64| #[trigger] m1.table().contains_key(p) && !m1.frames()[m1.table()[p]].dirty implies d1.contains_key(
        p,
    ) && d1[p] == m1.frames()[m1.table()[p]].page by {
        assert(m0.table().contains_key(p));
    }
    if m1.table().contains_key(ev.evicted.0) {
        assert(m0.frames()[b].page_id == ev.evicted.0);
        assert(m0.table()[ev.evicted.0] == b);
    }
}

/// Placing a page read from the disk in the frame an eviction chose, once
/// the evicted page is safe on disk, changes no page's content, and the pool
/// stays in agreement with the disk.
pub proof fn lemma_install_keeps_content(
    m1: BufferPoolManager,
    m2: BufferPoolManager,
    disk: Map<u64, Seq<u8>>,
    ev: Eviction,
    page_id: PageId,
)
    requires
        m1.wf(),
        pending(m1.frames(), m1.table(), ev, page_id),
        synced(m1, disk),
        m1.table().contains_key(ev.evicted.0) ==> disk.contains_key(ev.evicted.0) && disk[ev.evicted.0]
            == m1.frames()[ev.buffer_id.at()].page,
        disk.contains_key(page_id.0),
        installed(m1, m2, ev, page_id, disk[page_id.0], false),
    ensures
        synced(m2, disk),
        forall|p: u64| #[trigger] content(m2, disk, p) == content(m1, disk, p),
{
    let b = ev.buffer_id.at();
    assert forall|p: u64| #[trigger] content(m2, disk, p) == content(m1, disk, p) by {
        if p != page_id.0 && p != ev.evicted.0 && m1.table().contains_key(p) {
            assert(m1.table()[p] != b);
        }
        if p == ev.evicted.0 && p != page_id.0 && m1.table().contains_key(p) {
            assert(m1.table()[p] == b);
        }
    }
    assert forall|p: u64| #[trigger] m2.table().contains_key(p) && !m2.frames()[m2.table()[p]].dirty implies disk.contains_key(
        p,
    ) && disk[p] == m2.frames()[m2.table()[p]].page by {
        if p != page_id.0 {
            assert(m1.table().contains_key(p));
            assert(m1.table()[p] != b);
        }
    }
}

/// Pinning a resident page, releasing it, or marking it dirty changes no
/// page's content, and the pool stays in agreement with the disk: the page
/// table and every frame's page and bytes stay, and no frame turns clean.
pub proof fn lemma_bookkeeping_keeps_content(m0: BufferPoolManager, m1: BufferPoolManager, disk: Map<u64, Seq<u8>>)
    requires
        m0.wf(),
        m1.wf(),
        synced(m0, disk),
        m1.table() == m0.table(),
        m1.frames().len() == m0.frames().len(),
        forall|i: int|
            0 <= i < m0.frames().len() ==> #[trigger] m1.frames()[i].page_id == m0.frames()[i].page_id
                && m1.frames()[i].page == m0.frames()[i].page && (m0.frames()[i].dirty
                ==> m1.frames()[i].dirty),
    ensures
        synced(m1, disk),
        forall|p: u64| #[trigger] content(m1, disk, p) == content(m0, disk, p),
{
    assert forall|p: u64| #[trigger] content(m1, disk, p) == content(m0, disk, p) by {
        if m0.table().contains_key(p) {
            assert(m1.frames()[m0.table()[p]].page == m0.frames()[m0.table()[p]].page);
        }
    }
    assert forall|p: u64| #[trigger] m1.table().contains_key(p) && !m1.frames()[m1.table()[p]].dirty implies disk.contains_key(
        p,
    ) && disk[p] == m1.frames()[m1.table()[p]].page by {
        let b = m0.table()[p];
        assert(m1.frames()[b].page == m0.frames()[b].page);
        assert(!m0.frames()[b].dirty);
    }
}

/// Writing a resident page back to disk and marking it clean, the step a
/// flush takes for each dirty page, changes no page's content, and the pool
/// stays in agreement with the disk.
pub proof fn lemma_clean_keeps_content(
    m0: BufferPoolManager,
    m1: BufferPoolManager,
    disk: Map<u64, Seq<u8>>,
    buffer_id: BufferId,
)
    requires
        m0.wf(),
        m1.wf(),
        synced(m0, disk),
        0 <= buffer_id.at() < m0.frames().len(),
        m0.frames()[buffer_id.at()].page_id != INVALID_PAGE_NUMBER,
        m1.table() == m0.table(),
        m1.frames() == m0.frames().update(
            buffer_id.at(),
            FrameView { dirty: false, ..m0.frames()[buffer_id.at()] },
        ),
    ensures
        ({
            let f = m0.frames()[buffer_id.at()];
            let disk1 = disk.insert(f.page_id, f.page);
            &&& synced(m1, disk1)
            &&& forall|p: u64| #[trigger] content(m1, disk1, p) == content(m0, disk, p)
        }),
{
    let b = buffer_id.at();
    let f = m0.frames()[b];
    let disk1 = disk.insert(f.page_id, f.page);
    assert(m0.table().contains_key(f.page_id) && m0.table()[f.page_id] == b);
    assert forall|p: u64| #[trigger] content(m1, disk1, p) == content(m0, disk, p) by {
        if m0.table().contains_key(p) && p != f.page_id {
            assert(m0.table()[p] != b);
        }
    }
    assert forall|p: u64| #[trigger] m1.table().contains_key(p) && !m1.frames()[m1.table()[p]].dirty implies disk1.contains_key(
        p,
    ) && disk1[p] == m1.frames()[m1.table()[p]].page by {
        if p != f.page_id {
            assert(m0.table()[p] != b);
        }
    }
}

/// Writing bytes into a page and marking it dirty makes them the page's
/// content; every other page keeps its content, and the pool stays in
/// agreement with the disk.
pub proof fn lemma_write_sets_content(
    m0: BufferPoolManager,
    m1: BufferPoolManager,
    disk: Map<u64, Seq<u8>>,
    buffer_id: BufferId,
    page: Seq<u8>,
)
    requires
        m0.wf(),
        m1.wf(),
        synced(m0, disk),
        0 <= buffer_id.at() < m0.frames().len(),
        m1.table() == m0.table(),
        m1.frames() == m0.frames().update(
            buffer_id.at(),
            FrameView { page: page, dirty: true, ..m0.frames()[buffer_id.at()] },
        ),
    ensures
        synced(m1, disk),
        m0.table().contains_key(m0.frames()[buffer_id.at()].page_id) ==> content(
            m1,
            disk,
            m0.frames()[buffer_id.at()].page_id,
        ) == page,
        forall|p: u64|
            p != m0.frames()[buffer_id.at()].page_id ==> #[trigger] content(m1, disk, p) == content(
                m0,
                disk,
                p,
            ),
{
    let b = buffer_id.at();
    let pid = m0.frames()[b].page_id;
    assert forall|p: u64| p != pid implies #[trigger] content(m1, disk, p) == content(m0, disk, p) by {
        if m0.table().contains_key(p) {
            assert(m0.table()[p] != b);
        }
    }
    assert forall|p: u64| #[trigger] m1.table().contains_key(p) && !m1.frames()[m1.table()[p]].dirty implies disk.contains_key(
        p,
    ) && disk[p] == m1.frames()[m1.table()[p]].page by {
        assert(m0.table().contains_key(p));
    }
}

} // verus!
