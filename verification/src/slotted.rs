use vstd::prelude::*;

verus! {

/// Size of the page header: the slot count, the free space offset and four
/// bytes of padding.
pub const HEADER_SIZE: usize = 8;

/// Size of one slot pointer: the offset and the length of the slot's data.
pub const POINTER_SIZE: usize = 4;

/// The 16-bit little-endian number stored at `at`.
pub open spec fn u16_at(s: Seq<u8>, at: int) -> int {
    s[at] as int + 256 * (s[at + 1] as int)
}

/// Number of slots recorded in the header of page `s`.
pub open spec fn num_slots_of(s: Seq<u8>) -> int {
    u16_at(s, 0)
}

/// Offset, within the body, where the data area (and so the free space's
/// end) begins.
pub open spec fn free_offset_of(s: Seq<u8>) -> int {
    u16_at(s, 2)
}

/// Number of bytes after the header.
pub open spec fn capacity_of(s: Seq<u8>) -> int {
    s.len() - HEADER_SIZE
}

/// Position in the page of the pointer of slot `i`.
pub open spec fn pointer_at(i: int) -> int {
    HEADER_SIZE + POINTER_SIZE * i
}

/// Body offset of the data of slot `i`.
pub open spec fn slot_offset(s: Seq<u8>, i: int) -> int {
    u16_at(s, pointer_at(i))
}

/// Length of the data of slot `i`.
pub open spec fn slot_len(s: Seq<u8>, i: int) -> int {
    u16_at(s, pointer_at(i) + 2)
}

/// The data of slot `i`.
pub open spec fn slot_data(s: Seq<u8>, i: int) -> Seq<u8> {
    s.subrange(HEADER_SIZE + slot_offset(s, i), HEADER_SIZE + slot_offset(s, i) + slot_len(s, i))
}

/// The data of every slot, in slot order.
pub open spec fn slots_of(s: Seq<u8>) -> Seq<Seq<u8>> {
    Seq::new(num_slots_of(s) as nat, |i: int| slot_data(s, i))
}

/// Bytes used by the pointer array.
pub open spec fn pointers_size_of(s: Seq<u8>) -> int {
    POINTER_SIZE * num_slots_of(s)
}

/// The data of slot `i` lies in the data area, below 65536.
pub open spec fn slot_in_bounds(s: Seq<u8>, i: int) -> bool {
    &&& free_offset_of(s) <= slot_offset(s, i)
    &&& slot_offset(s, i) + slot_len(s, i) <= capacity_of(s)
    &&& slot_offset(s, i) + slot_len(s, i) <= 0xffff
}

/// The data of slot `i` does not meet the data of a non-empty slot `j`: the
/// two do not share a byte, and an empty slot `i` does not point strictly
/// inside slot `j`.
pub open spec fn slots_disjoint(s: Seq<u8>, i: int, j: int) -> bool {
    ||| slot_len(s, j) == 0
    ||| slot_offset(s, i) + slot_len(s, i) <= slot_offset(s, j)
    ||| slot_offset(s, j) + slot_len(s, j) <= slot_offset(s, i)
    ||| slot_len(s, i) == 0 && slot_offset(s, i) == slot_offset(s, j)
}

/// A well-formed slotted page: the pointer array ends before the data area,
/// the data area lies in the page, and every slot's data lies in the data
/// area without overlapping another slot's.
#[verifier::opaque]
pub open spec fn wf_page(s: Seq<u8>) -> bool {
    &&& s.len() >= HEADER_SIZE
    &&& pointers_size_of(s) <= free_offset_of(s) <= capacity_of(s)
    &&& forall|i: int| 0 <= i < num_slots_of(s) ==> #[trigger] slot_in_bounds(s, i)
    &&& forall|i: int, j: int|
        0 <= i < num_slots_of(s) && 0 <= j < num_slots_of(s) && i != j ==> #[trigger] slots_disjoint(
            s,
            i,
            j,
        )
}

/// The number of bytes the slots hold together.
pub open spec fn total_len(slots: Seq<Seq<u8>>) -> int
    decreases slots.len(),
{
    if slots.len() == 0 {
        0
    } else {
        slots[0].len() + total_len(slots.drop_first())
    }
}

/// Every byte of the body is accounted for: the free space, the pointer
/// array and the slots' data together fill the capacity.
pub open spec fn accounted(s: Seq<u8>) -> bool {
    (free_offset_of(s) - pointers_size_of(s)) + pointers_size_of(s) + total_len(slots_of(s))
        == capacity_of(s)
}

proof fn lemma_total_len_concat(a: Seq<Seq<u8>>, b: Seq<Seq<u8>>)
    ensures
        total_len(a + b) == total_len(a) + total_len(b),
    decreases a.len(),
{
    if a.len() == 0 {
        assert(a + b =~= b);
    } else {
        assert((a + b).drop_first() =~= a.drop_first() + b);
        lemma_total_len_concat(a.drop_first(), b);
    }
}

proof fn lemma_total_len_one(d: Seq<u8>)
    ensures
        total_len(seq![d]) == d.len(),
{
    assert(seq![d].drop_first() =~= Seq::<Seq<u8>>::empty());
    assert(total_len(seq![d].drop_first()) == 0);
    assert(seq![d][0] == d);
}

/// Putting `d` in place of the element at `i`, or in front of it, or taking
/// the element out, changes the total by the lengths involved.
proof fn lemma_total_len_edit(x: Seq<Seq<u8>>, i: int, d: Seq<u8>)
    requires
        0 <= i <= x.len(),
    ensures
        total_len(x.insert(i, d)) == total_len(x) + d.len(),
        i < x.len() ==> total_len(x.update(i, d)) == total_len(x) - x[i].len() + d.len(),
        i < x.len() ==> total_len(x.remove(i)) == total_len(x) - x[i].len(),
{
    let a = x.take(i);
    lemma_total_len_one(d);
    assert(x.insert(i, d) =~= a + (seq![d] + x.skip(i)));
    assert(x =~= a + x.skip(i));
    lemma_total_len_concat(a, seq![d] + x.skip(i));
    lemma_total_len_concat(seq![d], x.skip(i));
    lemma_total_len_concat(a, x.skip(i));
    if i < x.len() {
        let c = x.skip(i + 1);
        lemma_total_len_one(x[i]);
        assert(x.skip(i) =~= seq![x[i]] + c);
        lemma_total_len_concat(seq![x[i]], c);
        assert(x.update(i, d) =~= a + (seq![d] + c));
        lemma_total_len_concat(a, seq![d] + c);
        lemma_total_len_concat(seq![d], c);
        assert(x.remove(i) =~= a + c);
        lemma_total_len_concat(a, c);
    }
}

/// The header fields of a well-formed page.
pub proof fn lemma_wf_header(s: Seq<u8>)
    requires
        wf_page(s),
    ensures
        s.len() >= HEADER_SIZE,
        pointers_size_of(s) <= free_offset_of(s) <= capacity_of(s),
{
    reveal(wf_page);
}

/// Where the data of slot `i` of a well-formed page lies.
pub proof fn lemma_wf_slot(s: Seq<u8>, i: int)
    requires
        wf_page(s),
        0 <= i < num_slots_of(s),
    ensures
        slot_in_bounds(s, i),
        pointer_at(num_slots_of(s)) <= HEADER_SIZE + free_offset_of(s),
{
    reveal(wf_page);
}

/// Slot `k` of page `t` carries the pointer that slot `j` carries in page `s`.
pub open spec fn same_pointer(t: Seq<u8>, k: int, s: Seq<u8>, j: int) -> bool {
    slot_offset(t, k) == slot_offset(s, j) && slot_len(t, k) == slot_len(s, j)
}

/// `t` is `s` with a slot of `len` bytes inserted at `index`: the new slot
/// takes the last `len` bytes of the free space, the pointers from `index`
/// on move up by one, and no byte past the grown pointer array changes.
pub open spec fn inserted(s: Seq<u8>, t: Seq<u8>, index: int, len: int) -> bool {
    let n = num_slots_of(s);
    &&& t.len() == s.len()
    &&& num_slots_of(t) == n + 1
    &&& free_offset_of(t) == free_offset_of(s) - len
    &&& t.subrange(4, 8) == s.subrange(4, 8)
    &&& forall|k: int| 0 <= k < index ==> #[trigger] same_pointer(t, k, s, k)
    &&& slot_offset(t, index) == free_offset_of(s) - len
    &&& slot_len(t, index) == len
    &&& forall|k: int| index < k <= n ==> #[trigger] same_pointer(t, k, s, k - 1)
    &&& forall|p: int| pointer_at(n + 1) <= p < s.len() ==> #[trigger] t[p] == s[p]
}

/// Inserting into a well-formed page keeps it well formed; the slots are the
/// old ones with the new slot, holding the bytes it was given from the free
/// space, placed at `index`.
#[verifier::spinoff_prover]
pub proof fn lemma_inserted_slots(s: Seq<u8>, t: Seq<u8>, index: int, len: int)
    requires
        wf_page(s),
        0 <= index <= num_slots_of(s),
        0 <= len,
        free_offset_of(s) - pointers_size_of(s) >= POINTER_SIZE + len,
        inserted(s, t, index, len),
    ensures
        wf_page(t),
        accounted(s) ==> accounted(t),
        slots_of(t) == slots_of(s).insert(
            index,
            s.subrange(HEADER_SIZE + free_offset_of(s) - len, HEADER_SIZE + free_offset_of(s)),
        ),
{
    reveal(wf_page);
    let n = num_slots_of(s);
    let fso = free_offset_of(s);
    assert forall|k: int| 0 <= k < num_slots_of(t) implies #[trigger] slot_in_bounds(t, k) by {
        if k < index {
            assert(same_pointer(t, k, s, k));
            assert(slot_in_bounds(s, k));
        } else if k > index {
            assert(same_pointer(t, k, s, k - 1));
            assert(slot_in_bounds(s, k - 1));
        }
    }
    assert forall|i: int, j: int|
        0 <= i < num_slots_of(t) && 0 <= j < num_slots_of(t) && i != j implies #[trigger] slots_disjoint(
        t,
        i,
        j,
    ) by {
        let si = if i < index { i } else { i - 1 };
        let sj = if j < index { j } else { j - 1 };
        if i < index {
            assert(same_pointer(t, i, s, i));
        } else if i > index {
            assert(same_pointer(t, i, s, i - 1));
        }
        if j < index {
            assert(same_pointer(t, j, s, j));
        } else if j > index {
            assert(same_pointer(t, j, s, j - 1));
        }
        if i != index && j != index {
            assert(slots_disjoint(s, si, sj));
        } else if i == index {
            assert(slot_in_bounds(s, sj));
        } else {
            assert(slot_in_bounds(s, si));
        }
    }
    let expected = slots_of(s).insert(index, s.subrange(HEADER_SIZE + fso - len, HEADER_SIZE + fso));
    assert forall|k: int| 0 <= k < num_slots_of(t) implies #[trigger] slots_of(t)[k] == expected[k] by {
        let j = if k < index { k } else { k - 1 };
        if k != index {
            if k < index {
                assert(same_pointer(t, k, s, k));
            } else {
                assert(same_pointer(t, k, s, k - 1));
            }
            assert(slot_in_bounds(s, j));
            assert(slot_data(t, k) =~= slot_data(s, j));
        } else {
            assert(slot_data(t, k) =~= s.subrange(HEADER_SIZE + fso - len, HEADER_SIZE + fso));
        }
    }
    lemma_total_len_edit(slots_of(s), index, s.subrange(HEADER_SIZE + fso - len, HEADER_SIZE + fso));
    assert(slots_of(t) =~= expected);
}

/// Where slot `k` of `s` points after the data area in front of body offset
/// `from` moved by `delta` bytes: pointers at or below `from` move with it.
pub open spec fn shifted_offset(s: Seq<u8>, k: int, from: int, delta: int) -> int {
    if slot_offset(s, k) <= from {
        slot_offset(s, k) + delta
    } else {
        slot_offset(s, k)
    }
}

/// The body offsets at or below which slot pointers lie in front of slot
/// `index`: its own offset, or for an empty slot the offsets strictly below
/// it, since a non-empty slot may start where an empty one points.
pub open spec fn shift_bound(s: Seq<u8>, index: int) -> int {
    if slot_len(s, index) > 0 {
        slot_offset(s, index)
    } else {
        slot_offset(s, index) - 1
    }
}

/// `t` is `s` after slot `index` was resized to `len_new` bytes (a change in
/// size): the data area from the free space offset up to the start of the
/// slot moves by the difference, every pointer in front of the slot moves
/// with it, and the slot keeps its end, growing or shrinking at its front; a
/// slot resized to nothing points at the new free space offset.
pub open spec fn resized(s: Seq<u8>, t: Seq<u8>, index: int, len_new: int) -> bool {
    let n = num_slots_of(s);
    let off = slot_offset(s, index);
    let len = slot_len(s, index);
    let delta = len - len_new;
    let fso = free_offset_of(s) + delta;
    &&& t.len() == s.len()
    &&& num_slots_of(t) == n
    &&& free_offset_of(t) == fso
    &&& t.subrange(4, 8) == s.subrange(4, 8)
    &&& forall|k: int|
        0 <= k < n && k != index ==> #[trigger] slot_offset(t, k) == shifted_offset(
            s,
            k,
            shift_bound(s, index),
            delta,
        ) && slot_len(t, k) == slot_len(s, k)
    &&& slot_len(t, index) == len_new
    &&& slot_offset(t, index) == if len_new == 0 {
        fso
    } else {
        off + delta
    }
    &&& forall|p: int|
        pointer_at(n) <= p < s.len() ==> #[trigger] t[p] == if HEADER_SIZE + fso <= p < HEADER_SIZE
            + off + delta {
            s[p - delta]
        } else {
            s[p]
        }
}

#[verifier::spinoff_prover]
proof fn lemma_resize_result(
    s: Seq<u8>,
    s1: Seq<u8>,
    s2: Seq<u8>,
    s3: Seq<u8>,
    s4: Seq<u8>,
    t: Seq<u8>,
    index: int,
    len_new: int,
    down: bool,
    delta: int,
)
    requires
        wf_page(s),
        0 <= index < num_slots_of(s),
        0 <= len_new <= 0xffff,
        len_new != slot_len(s, index),
        down <==> len_new > slot_len(s, index),
        down ==> delta == len_new - slot_len(s, index),
        !down ==> delta == slot_len(s, index) - len_new,
        down ==> delta <= free_offset_of(s) - pointers_size_of(s),
        // header written
        s1.len() == s.len(),
        num_slots_of(s1) == num_slots_of(s),
        free_offset_of(s1) == free_offset_of(s) + slot_len(s, index) - len_new,
        forall|p: int| 4 <= p < s.len() ==> #[trigger] s1[p] == s[p],
        // data moved
        s2.len() == s.len(),
        forall|p: int|
            0 <= p < s.len() ==> #[trigger] s2[p] == if HEADER_SIZE + free_offset_of(s1) <= p
                < HEADER_SIZE + free_offset_of(s1) + (slot_offset(s, index) - free_offset_of(s)) {
                s1[HEADER_SIZE + free_offset_of(s) + p - (HEADER_SIZE + free_offset_of(s1))]
            } else {
                s1[p]
            },
        // pointers shifted
        s3.len() == s.len(),
        forall|k: int|
            0 <= k < num_slots_of(s2) ==> #[trigger] slot_offset(s3, k) == shifted_offset(
                s2,
                k,
                shift_bound(s, index),
                if down {
                    -delta
                } else {
                    delta
                },
            ) && slot_len(s3, k) == slot_len(s2, k),
        forall|p: int|
            0 <= p < s.len() && !(HEADER_SIZE <= p < pointer_at(num_slots_of(s2))) ==> #[trigger] s3[p]
                == s2[p],
        // length written
        s4.len() == s.len(),
        slot_len(s4, index) == len_new,
        slot_offset(s4, index) == slot_offset(s3, index),
        forall|p: int|
            0 <= p < s.len() && !(pointer_at(index) + 2 <= p < pointer_at(index) + 4) ==> #[trigger] s4[p]
                == s3[p],
        // offset written for an emptied slot, and for a slot that was empty
        t.len() == s.len(),
        len_new == 0 ==> slot_offset(t, index) == free_offset_of(s1),
        slot_len(s, index) == 0 ==> slot_offset(t, index) == slot_offset(s, index) - delta,
        len_new == 0 || slot_len(s, index) == 0 ==> slot_len(t, index) == slot_len(s4, index),
        len_new == 0 || slot_len(s, index) == 0 ==> forall|p: int|
            0 <= p < s.len() && !(pointer_at(index) <= p < pointer_at(index) + 2) ==> #[trigger] t[p]
                == s4[p],
        len_new != 0 && slot_len(s, index) != 0 ==> t == s4,
    ensures
        resized(s, t, index, len_new),
{
    lemma_wf_header(s);
    lemma_wf_slot(s, index);
    let n = num_slots_of(s);
    let off = slot_offset(s, index);
    let d = slot_len(s, index) - len_new;
    assert(num_slots_of(s2) == n) by {
        assert(s2[0] == s1[0]);
        assert(s2[1] == s1[1]);
    }
    assert(free_offset_of(s3) == free_offset_of(s1)) by {
        assert(s2[2] == s1[2]);
        assert(s2[3] == s1[3]);
    }
    assert(num_slots_of(s3) == n);
    assert(t.subrange(4, 8) =~= s.subrange(4, 8)) by {
        assert forall|p: int| 4 <= p < 8 implies t[p] == s[p] by {
            assert(s2[p] == s1[p]);
        }
    }
    assert(num_slots_of(t) == n && free_offset_of(t) == free_offset_of(s1)) by {
        assert(s2[0] == s1[0]);
        assert(s2[1] == s1[1]);
        assert(s2[2] == s1[2]);
        assert(s2[3] == s1[3]);
    }
    assert forall|k: int| 0 <= k < n implies #[trigger] same_pointer(s2, k, s, k) by {
        {
            assert(s2[pointer_at(k)] == s[pointer_at(k)]);
            assert(s2[pointer_at(k) + 1] == s[pointer_at(k) + 1]);
            assert(s2[pointer_at(k) + 2] == s[pointer_at(k) + 2]);
            assert(s2[pointer_at(k) + 3] == s[pointer_at(k) + 3]);
        }
    }
    assert forall|k: int| 0 <= k < n && k != index implies #[trigger] slot_offset(t, k)
        == shifted_offset(s, k, shift_bound(s, index), d) && slot_len(t, k) == slot_len(s, k) by {
        assert(same_pointer(s2, k, s, k));
        assert(slot_offset(s3, k) == shifted_offset(s2, k, shift_bound(s, index), if down { -delta } else { delta }));
        assert(t[pointer_at(k)] == s3[pointer_at(k)]);
        assert(t[pointer_at(k) + 1] == s3[pointer_at(k) + 1]);
        assert(t[pointer_at(k) + 2] == s3[pointer_at(k) + 2]);
        assert(t[pointer_at(k) + 3] == s3[pointer_at(k) + 3]);
    }
    assert(same_pointer(s2, index, s, index));
    assert(slot_offset(s3, index) == shifted_offset(s2, index, shift_bound(s, index), if down { -delta } else { delta }));
    assert forall|p: int| pointer_at(n) <= p < s.len() implies #[trigger] t[p] == if HEADER_SIZE
        + free_offset_of(s) + d <= p < HEADER_SIZE + off + d {
        s[p - d]
    } else {
        s[p]
    } by {
        assert(t[p] == s2[p]);
        if HEADER_SIZE + free_offset_of(s) + d <= p < HEADER_SIZE + off + d {
            assert(s1[p - d] == s[p - d]);
        } else {
            assert(s1[p] == s[p]);
        }
    }
}

/// Resizing a slot of a well-formed page keeps the page well formed; every
/// other slot keeps its data, and the resized slot holds the last `len_new`
/// bytes that end where it ended: a suffix of its data when it shrinks, its
/// data behind the bytes it grew over when it grows.
#[verifier::spinoff_prover]
pub proof fn lemma_resized_slots(s: Seq<u8>, t: Seq<u8>, index: int, len_new: int)
    requires
        wf_page(s),
        0 <= index < num_slots_of(s),
        0 <= len_new,
        len_new - slot_len(s, index) <= free_offset_of(s) - pointers_size_of(s),
        resized(s, t, index, len_new),
    ensures
        wf_page(t),
        accounted(s) ==> accounted(t),
        slots_of(t) == slots_of(s).update(
            index,
            s.subrange(
                HEADER_SIZE + slot_offset(s, index) + slot_len(s, index) - len_new,
                HEADER_SIZE + slot_offset(s, index) + slot_len(s, index),
            ),
        ),
{
    reveal(wf_page);
    let n = num_slots_of(s);
    let off = slot_offset(s, index);
    let len = slot_len(s, index);
    let d = len - len_new;
    let fso = free_offset_of(s);
    let bound = shift_bound(s, index);
    assert(slot_in_bounds(s, index));
    // Every other non-empty slot lies wholly in front of the resized one or
    // wholly behind it.
    assert forall|k: int| 0 <= k < n && k != index && slot_len(s, k) > 0 implies (slot_offset(s, k)
        <= bound ==> #[trigger] slot_offset(s, k) + slot_len(s, k) <= off) && (slot_offset(s, k) > bound
        ==> slot_offset(s, k) >= off + len) by {
        assert(slots_disjoint(s, k, index));
        assert(slots_disjoint(s, index, k));
    }
    assert forall|k: int| 0 <= k < n && k != index && slot_len(s, k) == 0 && slot_offset(s, k) > bound
        implies #[trigger] slot_offset(s, k) >= off + len by {
        assert(slots_disjoint(s, k, index));
    }
    assert forall|k: int| 0 <= k < n implies #[trigger] slot_in_bounds(t, k) by {
        assert(slot_in_bounds(s, k));
        if k != index {
            assert(slot_offset(t, k) == shifted_offset(s, k, bound, d));
        }
    }
    assert forall|i: int, j: int| 0 <= i < n && 0 <= j < n && i != j implies #[trigger] slots_disjoint(
        t,
        i,
        j,
    ) by {
        assert(slots_disjoint(s, i, j));
        assert(slots_disjoint(s, j, i));
        assert(slot_in_bounds(s, i));
        assert(slot_in_bounds(s, j));
        if i != index {
            assert(slot_offset(t, i) == shifted_offset(s, i, bound, d));
        }
        if j != index {
            assert(slot_offset(t, j) == shifted_offset(s, j, bound, d));
        }
    }
    let expected = slots_of(s).update(
        index,
        s.subrange(HEADER_SIZE + off + len - len_new, HEADER_SIZE + off + len),
    );
    assert forall|k: int| 0 <= k < n implies #[trigger] slots_of(t)[k] == expected[k] by {
        assert(slot_in_bounds(s, k));
        if k != index {
            assert(slot_offset(t, k) == shifted_offset(s, k, bound, d));
            if slot_len(s, k) > 0 {
                if slot_offset(s, k) <= bound {
                    assert forall|q: int| 0 <= q < slot_len(s, k) implies slot_data(t, k)[q]
                        == slot_data(s, k)[q] by {
                        let p = HEADER_SIZE + slot_offset(s, k) + d + q;
                        assert(t[p] == s[p - d]);
                    }
                } else {
                    assert forall|q: int| 0 <= q < slot_len(s, k) implies slot_data(t, k)[q]
                        == slot_data(s, k)[q] by {
                        let p = HEADER_SIZE + slot_offset(s, k) + q;
                        assert(t[p] == s[p]);
                    }
                }
            }
            assert(slot_data(t, k) =~= slot_data(s, k));
        } else {
            assert forall|q: int| 0 <= q < len_new implies slot_data(t, k)[q] == expected[k][q] by {
                let p = HEADER_SIZE + off + d + q;
                assert(t[p] == s[p]);
            }
            assert(slot_data(t, k) =~= expected[k]);
        }
    }
    assert(slots_of(s)[index].len() == len);
    lemma_total_len_edit(slots_of(s), index, expected[index]);
    assert(slots_of(t) =~= expected);
}

/// `t` is `s` with slot `index` removed: the slot's data is given back to the
/// free space as resizing it to nothing does, and the pointers behind it move
/// down by one place; the place the last pointer held keeps that pointer's
/// bytes.
pub open spec fn removed(s: Seq<u8>, t: Seq<u8>, index: int) -> bool {
    let n = num_slots_of(s);
    let off = slot_offset(s, index);
    let len = slot_len(s, index);
    &&& t.len() == s.len()
    &&& num_slots_of(t) == n - 1
    &&& free_offset_of(t) == free_offset_of(s) + len
    &&& t.subrange(4, 8) == s.subrange(4, 8)
    &&& forall|k: int|
        0 <= k < index ==> #[trigger] slot_offset(t, k) == shifted_offset(s, k, off, len) && slot_len(
            t,
            k,
        ) == slot_len(s, k)
    &&& forall|k: int|
        index <= k < n - 1 ==> #[trigger] slot_offset(t, k) == shifted_offset(s, k + 1, off, len)
            && slot_len(t, k) == slot_len(s, k + 1)
    &&& slot_len(t, n - 1) == if index == n - 1 {
        0
    } else {
        slot_len(s, n - 1)
    }
    &&& slot_offset(t, n - 1) == if index == n - 1 {
        if len == 0 {
            off
        } else {
            free_offset_of(s) + len
        }
    } else {
        shifted_offset(s, n - 1, off, len)
    }
    &&& forall|p: int|
        pointer_at(n) <= p < s.len() ==> #[trigger] t[p] == if HEADER_SIZE + free_offset_of(s) + len
            <= p < HEADER_SIZE + off + len {
            s[p - len]
        } else {
            s[p]
        }
}

#[verifier::spinoff_prover]
proof fn lemma_remove_result(s: Seq<u8>, r: Seq<u8>, u: Seq<u8>, t: Seq<u8>, index: int)
    requires
        wf_page(s),
        0 <= index < num_slots_of(s),
        slot_len(s, index) == 0 ==> r == s,
        slot_len(s, index) != 0 ==> resized(s, r, index, 0),
        u.len() == r.len(),
        forall|k: int|
            index <= k < num_slots_of(s) - 1 ==> #[trigger] same_pointer(u, k, r, k + 1),
        forall|p: int|
            0 <= p < r.len() && !(pointer_at(index) <= p < pointer_at(num_slots_of(s) - 1))
                ==> #[trigger] u[p] == r[p],
        t.len() == u.len(),
        num_slots_of(t) == num_slots_of(s) - 1,
        forall|p: int| 2 <= p < u.len() ==> #[trigger] t[p] == u[p],
    ensures
        removed(s, t, index),
{
    lemma_wf_header(s);
    lemma_wf_slot(s, index);
    let n = num_slots_of(s);
    let off = slot_offset(s, index);
    let len = slot_len(s, index);
    assert(free_offset_of(t) == free_offset_of(r)) by {
        assert(t[2] == u[2] && u[2] == r[2]);
        assert(t[3] == u[3] && u[3] == r[3]);
    }
    assert(t.subrange(4, 8) =~= s.subrange(4, 8)) by {
        assert forall|p: int| 4 <= p < 8 implies t[p] == s[p] by {
            assert(t[p] == u[p] && u[p] == r[p]);
            if len != 0 {
                assert(r.subrange(4, 8)[p - 4] == s.subrange(4, 8)[p - 4]);
            }
        }
    }
    assert forall|k: int| 0 <= k < n implies #[trigger] slot_offset(r, k) == if k == index && len
        != 0 {
        free_offset_of(s) + len
    } else {
        shifted_offset(s, k, off, len)
    } && slot_len(r, k) == if k == index {
        0
    } else {
        slot_len(s, k)
    } by {}
    assert forall|k: int| 0 <= k < index implies #[trigger] slot_offset(t, k) == shifted_offset(
        s,
        k,
        off,
        len,
    ) && slot_len(t, k) == slot_len(s, k) by {
        assert(slot_offset(r, k) == shifted_offset(s, k, off, len));
        assert(slot_len(r, k) == slot_len(s, k));
        assert(t[pointer_at(k)] == u[pointer_at(k)] && u[pointer_at(k)] == r[pointer_at(k)]);
        assert(t[pointer_at(k) + 1] == u[pointer_at(k) + 1] && u[pointer_at(k) + 1] == r[pointer_at(k) + 1]);
        assert(t[pointer_at(k) + 2] == u[pointer_at(k) + 2] && u[pointer_at(k) + 2] == r[pointer_at(k) + 2]);
        assert(t[pointer_at(k) + 3] == u[pointer_at(k) + 3] && u[pointer_at(k) + 3] == r[pointer_at(k) + 3]);
    }
    assert forall|k: int| index <= k < n - 1 implies #[trigger] slot_offset(t, k) == shifted_offset(
        s,
        k + 1,
        off,
        len,
    ) && slot_len(t, k) == slot_len(s, k + 1) by {
        assert(same_pointer(u, k, r, k + 1));
        assert(t[pointer_at(k)] == u[pointer_at(k)]);
        assert(t[pointer_at(k) + 1] == u[pointer_at(k) + 1]);
        assert(t[pointer_at(k) + 2] == u[pointer_at(k) + 2]);
        assert(t[pointer_at(k) + 3] == u[pointer_at(k) + 3]);
    }
    assert(same_pointer(t, n - 1, r, n - 1)) by {
        let k = n - 1;
        assert(t[pointer_at(k)] == r[pointer_at(k)]);
        assert(t[pointer_at(k) + 1] == r[pointer_at(k) + 1]);
        assert(t[pointer_at(k) + 2] == r[pointer_at(k) + 2]);
        assert(t[pointer_at(k) + 3] == r[pointer_at(k) + 3]);
    }
    assert forall|p: int| pointer_at(n) <= p < s.len() implies #[trigger] t[p] == if HEADER_SIZE
        + free_offset_of(s) + len <= p < HEADER_SIZE + off + len {
        s[p - len]
    } else {
        s[p]
    } by {
        assert(t[p] == u[p] && u[p] == r[p]);
    }
}

/// Removing a slot from a well-formed page keeps it well formed, and the
/// other slots keep their data and order.
#[verifier::spinoff_prover]
pub proof fn lemma_removed_slots(s: Seq<u8>, t: Seq<u8>, index: int)
    requires
        wf_page(s),
        0 <= index < num_slots_of(s),
        removed(s, t, index),
    ensures
        wf_page(t),
        accounted(s) ==> accounted(t),
        slots_of(t) == slots_of(s).remove(index),
{
    reveal(wf_page);
    let n = num_slots_of(s);
    let off = slot_offset(s, index);
    let len = slot_len(s, index);
    let fso = free_offset_of(s);
    assert(slot_in_bounds(s, index));
    assert forall|k: int| 0 <= k < n && k != index && slot_len(s, k) > 0 && len > 0 implies (slot_offset(s, k)
        <= off ==> #[trigger] slot_offset(s, k) + slot_len(s, k) <= off) && (slot_offset(s, k) > off
        ==> slot_offset(s, k) >= off + len) by {
        assert(slots_disjoint(s, k, index));
        assert(slots_disjoint(s, index, k));
    }
    assert forall|k: int| 0 <= k < n && k != index && slot_len(s, k) == 0 && slot_offset(s, k) > off
        implies #[trigger] slot_offset(s, k) >= off + len by {
        assert(slots_disjoint(s, k, index));
    }
    let src = |k: int| if k < index { k } else { k + 1 };
    assert forall|k: int| 0 <= k < n - 1 implies #[trigger] slot_in_bounds(t, k) by {
        assert(slot_in_bounds(s, src(k)));
    }
    assert forall|i: int, j: int| 0 <= i < n - 1 && 0 <= j < n - 1 && i != j implies #[trigger] slots_disjoint(
        t,
        i,
        j,
    ) by {
        assert(slots_disjoint(s, src(i), src(j)));
        assert(slot_in_bounds(s, src(i)));
        assert(slot_in_bounds(s, src(j)));
    }
    let expected = slots_of(s).remove(index);
    assert forall|k: int| 0 <= k < n - 1 implies #[trigger] slots_of(t)[k] == expected[k] by {
        let j = src(k);
        assert(slot_in_bounds(s, j));
        assert(expected[k] == slot_data(s, j));
        if slot_len(s, j) > 0 {
            if slot_offset(s, j) <= off {
                assert forall|q: int| 0 <= q < slot_len(s, j) implies slot_data(t, k)[q]
                    == slot_data(s, j)[q] by {
                    let p = HEADER_SIZE + slot_offset(s, j) + len + q;
                    assert(t[p] == s[p - len]);
                }
            } else {
                assert forall|q: int| 0 <= q < slot_len(s, j) implies slot_data(t, k)[q]
                    == slot_data(s, j)[q] by {
                    let p = HEADER_SIZE + slot_offset(s, j) + q;
                    assert(t[p] == s[p]);
                }
            }
        }
        assert(slot_data(t, k) =~= slot_data(s, j));
    }
    assert(slots_of(s)[index].len() == len);
    lemma_total_len_edit(slots_of(s), index, Seq::empty());
    assert(slots_of(t) =~= expected);
}

/// Inserting a slot and then removing it, whatever was written into it in
/// between, gives back a page with the same slots, the same slot count and
/// the same free space.
pub proof fn lemma_insert_then_remove(
    s: Seq<u8>,
    t: Seq<u8>,
    w: Seq<u8>,
    u: Seq<u8>,
    index: int,
    len: int,
    data: Seq<u8>,
)
    requires
        wf_page(s),
        0 <= index <= num_slots_of(s),
        0 <= len,
        free_offset_of(s) - pointers_size_of(s) >= POINTER_SIZE + len,
        inserted(s, t, index, len),
        data.len() == len,
        w == t.subrange(0, HEADER_SIZE + slot_offset(t, index)) + data + t.subrange(
            HEADER_SIZE + slot_offset(t, index) + slot_len(t, index),
            t.len() as int,
        ),
        removed(w, u, index),
    ensures
        wf_page(u),
        num_slots_of(u) == num_slots_of(s),
        free_offset_of(u) == free_offset_of(s),
        free_offset_of(u) - pointers_size_of(u) == free_offset_of(s) - pointers_size_of(s),
        slots_of(u) == slots_of(s),
{
    lemma_inserted_slots(s, t, index, len);
    lemma_wf_header(t);
    lemma_slot_written(t, w, index, data);
    lemma_wf_header(w);
    assert(num_slots_of(w) == num_slots_of(t)) by {
        lemma_wf_slot(t, index);
        assert(w[0] == t[0] && w[1] == t[1]);
    }
    assert(free_offset_of(w) == free_offset_of(t) && slot_len(w, index) == slot_len(t, index)) by {
        lemma_wf_slot(t, index);
        assert(w[2] == t[2] && w[3] == t[3]);
        assert(w[pointer_at(index) + 2] == t[pointer_at(index) + 2]);
        assert(w[pointer_at(index) + 3] == t[pointer_at(index) + 3]);
    }
    lemma_removed_slots(w, u, index);
    assert(slots_of(u) =~= slots_of(s));
}

/// Writing into the data of one slot of a well-formed page (as `data_mut`
/// lets a caller do) keeps it well formed and changes that slot's data
/// alone.
#[verifier::spinoff_prover]
pub proof fn lemma_slot_written(s: Seq<u8>, t: Seq<u8>, index: int, data: Seq<u8>)
    requires
        wf_page(s),
        0 <= index < num_slots_of(s),
        data.len() == slot_len(s, index),
        t == s.subrange(0, HEADER_SIZE + slot_offset(s, index)) + data + s.subrange(
            HEADER_SIZE + slot_offset(s, index) + slot_len(s, index),
            s.len() as int,
        ),
    ensures
        wf_page(t),
        accounted(s) ==> accounted(t),
        slots_of(t) == slots_of(s).update(index, data),
{
    reveal(wf_page);
    let n = num_slots_of(s);
    let off = slot_offset(s, index);
    let len = slot_len(s, index);
    assert(slot_in_bounds(s, index));
    let lo = HEADER_SIZE + off;
    let hi = lo + len;
    assert(t.len() == s.len());
    assert forall|p: int| 0 <= p < s.len() implies #[trigger] t[p] == if lo <= p < hi {
        data[p - lo]
    } else {
        s[p]
    } by {}
    assert forall|k: int| 0 <= k < n implies #[trigger] same_pointer(t, k, s, k) by {
        assert(t[pointer_at(k)] == s[pointer_at(k)]);
        assert(t[pointer_at(k) + 1] == s[pointer_at(k) + 1]);
        assert(t[pointer_at(k) + 2] == s[pointer_at(k) + 2]);
        assert(t[pointer_at(k) + 3] == s[pointer_at(k) + 3]);
    }
    assert(num_slots_of(t) == n && free_offset_of(t) == free_offset_of(s)) by {
        assert(t[0] == s[0] && t[1] == s[1] && t[2] == s[2] && t[3] == s[3]);
    }
    assert forall|k: int| 0 <= k < n implies #[trigger] slot_in_bounds(t, k) by {
        assert(same_pointer(t, k, s, k));
        assert(slot_in_bounds(s, k));
    }
    assert forall|i: int, j: int| 0 <= i < n && 0 <= j < n && i != j implies #[trigger] slots_disjoint(
        t,
        i,
        j,
    ) by {
        assert(same_pointer(t, i, s, i));
        assert(same_pointer(t, j, s, j));
        assert(slots_disjoint(s, i, j));
    }
    let expected = slots_of(s).update(index, data);
    assert forall|k: int| 0 <= k < n implies #[trigger] slots_of(t)[k] == expected[k] by {
        assert(same_pointer(t, k, s, k));
        assert(slot_in_bounds(s, k));
        if k != index && slot_len(s, k) > 0 {
            assert(slots_disjoint(s, k, index));
            assert(slots_disjoint(s, index, k));
        }
        assert(slot_data(t, k) =~= expected[k]);
    }
    assert(slots_of(s)[index].len() == len);
    lemma_total_len_edit(slots_of(s), index, data);
    assert(slots_of(t) =~= expected);
}

/// The page header: the number of slots and the body offset where slot data
/// begins; four bytes of padding follow.
pub struct Header {
    pub num_slots: u16,
    pub free_space_offset: u16,
}

/// Where the data of a slot lies in the body of the page.
#[derive(Clone, Copy)]
pub struct Pointer {
    pub offset: u16,
    pub len: u16,
}

impl Pointer {
    /// The body offsets the slot's data occupies.
    pub fn range(&self) -> (r: core::ops::Range<usize>)
        ensures
            r.start == self.offset,
            r.end == self.offset + self.len,
    {
        let start = self.offset as usize;
        let end = start + self.len as usize;
        start..end
    }
}

/// A slotted page over a byte buffer: a header, an array of slot pointers
/// growing forward from the header, and slot data growing backward from the
/// end of the buffer.
pub struct Slotted<'a> {
    bytes: &'a mut [u8],
}

impl<'a> Slotted<'a> {
    /// The bytes of the page.
    pub closed spec fn view(&self) -> Seq<u8> {
        self.bytes@
    }

    /// Wraps `bytes` as a slotted page. The header is the first eight bytes.
    pub fn new(bytes: &'a mut [u8]) -> (r: Self)
        requires
            old(bytes)@.len() >= HEADER_SIZE,
        ensures
            r@ == old(bytes)@,
    {
        Slotted { bytes }
    }

    fn read_u16(&self, at: usize) -> (r: u16)
        requires
            at + 1 < self@.len(),
        ensures
            r == u16_at(self@, at as int),
    {
        self.bytes[at] as u16 + (self.bytes[at + 1] as u16) * 256
    }

    fn write_u16(&mut self, at: usize, v: u16)
        requires
            at + 1 < old(self)@.len(),
        ensures
            final(self)@ == old(self)@.update(at as int, (v % 256) as u8).update(
                at + 1,
                (v / 256) as u8,
            ),
            u16_at(final(self)@, at as int) == v,
    {
        self.bytes[at] = (v % 256) as u8;
        self.bytes[at + 1] = (v / 256) as u8;
    }

    fn copy_within(&mut self, src: usize, end: usize, dest: usize)
        requires
            src <= end <= old(self)@.len(),
            dest + (end - src) <= old(self)@.len(),
        ensures
            final(self)@.len() == old(self)@.len(),
            forall|p: int|
                0 <= p < old(self)@.len() ==> #[trigger] final(self)@[p] == if dest <= p < dest + (
                end - src) {
                    old(self)@[src + p - dest]
                } else {
                    old(self)@[p]
                },
    {
        let count = end - src;
        if dest <= src {
            let mut i: usize = 0;
            while i < count
                invariant
                    count == end - src,
                    dest <= src,
                    src <= end <= old(self)@.len(),
                    dest + count <= old(self)@.len(),
                    i <= count,
                    self@.len() == old(self)@.len(),
                    forall|p: int|
                        0 <= p < old(self)@.len() ==> #[trigger] self@[p] == if dest <= p < dest
                            + i {
                            old(self)@[src + p - dest]
                        } else {
                            old(self)@[p]
                        },
                decreases count - i,
            {
                let b = self.bytes[src + i];
                self.bytes[dest + i] = b;
                i += 1;
            }
        } else {
            let mut i: usize = count;
            while i > 0
                invariant
                    count == end - src,
                    dest > src,
                    src <= end <= old(self)@.len(),
                    dest + count <= old(self)@.len(),
                    i <= count,
                    self@.len() == old(self)@.len(),
                    forall|p: int|
                        0 <= p < old(self)@.len() ==> #[trigger] self@[p] == if dest + i <= p
                            < dest + count {
                            old(self)@[src + p - dest]
                        } else {
                            old(self)@[p]
                        },
                decreases i,
            {
                let b = self.bytes[src + i - 1];
                self.bytes[dest + i - 1] = b;
                i -= 1;
            }
        }
    }

    /// The header fields.
    pub fn header(&self) -> (r: Header)
        requires
            self@.len() >= HEADER_SIZE,
        ensures
            r.num_slots == num_slots_of(self@),
            r.free_space_offset == free_offset_of(self@),
    {
        Header { num_slots: self.read_u16(0), free_space_offset: self.read_u16(2) }
    }

    fn pointer(&self, i: usize) -> (r: Pointer)
        requires
            pointer_at(i as int) + 3 < self@.len(),
        ensures
            r.offset == slot_offset(self@, i as int),
            r.len == slot_len(self@, i as int),
    {
        Pointer { offset: self.slot_offset(i), len: self.slot_len(i) }
    }

    fn slot_offset(&self, i: usize) -> (r: u16)
        requires
            pointer_at(i as int) + 3 < self@.len(),
        ensures
            r == slot_offset(self@, i as int),
    {
        // The page's length, a usize, bounds the pointer's position.
        let _page_len = self.bytes.len();
        self.read_u16(HEADER_SIZE + POINTER_SIZE * i)
    }

    fn slot_len(&self, i: usize) -> (r: u16)
        requires
            pointer_at(i as int) + 3 < self@.len(),
        ensures
            r == slot_len(self@, i as int),
    {
        // The page's length, a usize, bounds the pointer's position.
        let _page_len = self.bytes.len();
        self.read_u16(HEADER_SIZE + POINTER_SIZE * i + 2)
    }

    /// The data of slot `index`.
    pub fn data(&self, index: usize) -> (r: &[u8])
        requires
            wf_page(self@),
            index < num_slots_of(self@),
        ensures
            r@ == slot_data(self@, index as int),
    {
        reveal(wf_page);
        assert(slot_in_bounds(self@, index as int));
        let range = self.pointer(index).range();
        &self.bytes[HEADER_SIZE + range.start..HEADER_SIZE + range.end]
    }

    /// The data of slot `index`, to write into.
    pub fn data_mut(&mut self, index: usize) -> (r: &mut [u8])
        requires
            wf_page(old(self)@),
            index < num_slots_of(old(self)@),
        ensures
            r@ == slot_data(old(self)@, index as int),
            final(self)@ == old(self)@.subrange(0, HEADER_SIZE + slot_offset(old(self)@, index as int))
                + final(r)@ + old(self)@.subrange(
                HEADER_SIZE + slot_offset(old(self)@, index as int) + slot_len(old(self)@, index as int),
                old(self)@.len() as int,
            ),
    {
        reveal(wf_page);
        assert(slot_in_bounds(self@, index as int));
        let off = self.slot_offset(index) as usize;
        let len = self.slot_len(index) as usize;
        let (_, rest) = self.bytes.split_at_mut(HEADER_SIZE + off);
        let (mid, _) = rest.split_at_mut(len);
        mid
    }

    /// Number of bytes after the header.
    pub fn capacity(&self) -> (r: usize)
        requires
            self@.len() >= HEADER_SIZE,
        ensures
            r == capacity_of(self@),
    {
        self.bytes.len() - HEADER_SIZE
    }

    /// Number of slots.
    pub fn num_slots(&self) -> (r: usize)
        requires
            self@.len() >= HEADER_SIZE,
        ensures
            r == num_slots_of(self@),
    {
        self.header().num_slots as usize
    }

    fn free_offset(&self) -> (r: usize)
        requires
            self@.len() >= HEADER_SIZE,
        ensures
            r == free_offset_of(self@),
    {
        self.header().free_space_offset as usize
    }

    /// Bytes left between the pointer array and the data area.
    pub fn free_space(&self) -> (r: usize)
        requires
            self@.len() >= HEADER_SIZE,
            pointers_size_of(self@) <= free_offset_of(self@),
        ensures
            r == free_offset_of(self@) - pointers_size_of(self@),
    {
        self.free_offset() - self.pointers_size()
    }

    fn pointers_size(&self) -> (r: usize)
        requires
            self@.len() >= HEADER_SIZE,
        ensures
            r == pointers_size_of(self@),
    {
        POINTER_SIZE * self.num_slots()
    }

    fn set_header(&mut self, n: u16, fso: u16)
        requires
            old(self)@.len() >= HEADER_SIZE,
        ensures
            final(self)@.len() == old(self)@.len(),
            num_slots_of(final(self)@) == n,
            free_offset_of(final(self)@) == fso,
            forall|p: int| 4 <= p < old(self)@.len() ==> #[trigger] final(self)@[p] == old(self)@[p],
    {
        self.write_u16(0, n);
        self.write_u16(2, fso);
    }

    fn set_pointer(&mut self, i: usize, off: u16, len: u16)
        requires
            pointer_at(i as int) + 3 < old(self)@.len(),
        ensures
            final(self)@.len() == old(self)@.len(),
            slot_offset(final(self)@, i as int) == off,
            slot_len(final(self)@, i as int) == len,
            forall|p: int|
                0 <= p < old(self)@.len() && !(pointer_at(i as int) <= p < pointer_at(i as int) + 4)
                    ==> #[trigger] final(self)@[p] == old(self)@[p],
    {
        // The page's length, a usize, bounds the pointer's position.
        let _page_len = self.bytes.len();
        let at = HEADER_SIZE + POINTER_SIZE * i;
        self.write_u16(at, off);
        self.write_u16(at + 2, len);
    }

    /// Moves the pointers `from..to` one place up (`up`) or down.
    fn move_pointers(&mut self, from: usize, to: usize, up: bool)
        requires
            from <= to,
            !up ==> from >= 1,
            up ==> pointer_at(to + 1) <= old(self)@.len(),
            !up ==> pointer_at(to as int) <= old(self)@.len(),
        ensures
            final(self)@.len() == old(self)@.len(),
            up ==> forall|k: int|
                from + 1 <= k < to + 1 ==> #[trigger] same_pointer(final(self)@, k, old(self)@, k - 1),
            !up ==> forall|k: int|
                from - 1 <= k < to - 1 ==> #[trigger] same_pointer(final(self)@, k, old(self)@, k + 1),
            up ==> forall|p: int|
                0 <= p < old(self)@.len() && !(pointer_at(from + 1) <= p < pointer_at(to + 1))
                    ==> #[trigger] final(self)@[p] == old(self)@[p],
            !up ==> forall|p: int|
                0 <= p < old(self)@.len() && !(pointer_at(from - 1) <= p < pointer_at(to - 1))
                    ==> #[trigger] final(self)@[p] == old(self)@[p],
    {
        // The page's length, a usize, bounds the pointer's position.
        let _page_len = self.bytes.len();
        let ghost s = self@;
        let dest = if up { from + 1 } else { from - 1 };
        self.copy_within(
            HEADER_SIZE + POINTER_SIZE * from,
            HEADER_SIZE + POINTER_SIZE * to,
            HEADER_SIZE + POINTER_SIZE * dest,
        );
        proof {
            let t = self@;
            if up {
                assert forall|k: int| from + 1 <= k < to + 1 implies #[trigger] same_pointer(t, k, s, k - 1) by {
                    assert(t[pointer_at(k)] == s[pointer_at(k - 1)]);
                    assert(t[pointer_at(k) + 1] == s[pointer_at(k - 1) + 1]);
                    assert(t[pointer_at(k) + 2] == s[pointer_at(k - 1) + 2]);
                    assert(t[pointer_at(k) + 3] == s[pointer_at(k - 1) + 3]);
                }
            } else {
                assert forall|k: int| from - 1 <= k < to - 1 implies #[trigger] same_pointer(t, k, s, k + 1) by {
                    assert(t[pointer_at(k)] == s[pointer_at(k + 1)]);
                    assert(t[pointer_at(k) + 1] == s[pointer_at(k + 1) + 1]);
                    assert(t[pointer_at(k) + 2] == s[pointer_at(k + 1) + 2]);
                    assert(t[pointer_at(k) + 3] == s[pointer_at(k + 1) + 3]);
                }
            }
        }
    }

    /// Inserts a slot of `len` bytes at position `index`, taking its bytes
    /// from the end of the free space. Fails, changing nothing, where the free
    /// space cannot hold the data and one more pointer.
    pub fn insert(&mut self, index: usize, len: usize) -> (r: Option<()>)
        requires
            wf_page(old(self)@),
            index <= num_slots_of(old(self)@),
            len + POINTER_SIZE <= usize::MAX,
        ensures
            r is None <==> free_offset_of(old(self)@) - pointers_size_of(old(self)@) < POINTER_SIZE
                + len,
            r is None ==> final(self)@ == old(self)@,
            accounted(old(self)@) ==> accounted(final(self)@),
            r is Some ==> inserted(old(self)@, final(self)@, index as int, len as int),
            r is Some ==> wf_page(final(self)@),
            r is Some ==> slots_of(final(self)@) == slots_of(old(self)@).insert(
                index as int,
                old(self)@.subrange(
                    HEADER_SIZE + free_offset_of(old(self)@) - len,
                    HEADER_SIZE + free_offset_of(old(self)@),
                ),
            ),
    {
        proof {
            lemma_wf_header(self@);
        }
        if self.free_space() < POINTER_SIZE + len {
            return None;
        }
        let ghost s = self@;
        let n = self.num_slots();
        let fso = self.free_offset();
        let new_fso = fso - len;
        self.set_header((n + 1) as u16, new_fso as u16);
        let ghost s1 = self@;
        self.move_pointers(index, n, true);
        let ghost s2 = self@;
        self.set_pointer(index, new_fso as u16, len as u16);
        proof {
            let t = self@;
            assert(t.subrange(4, 8) =~= s.subrange(4, 8));
            assert forall|k: int| 0 <= k < index implies #[trigger] same_pointer(t, k, s, k) by {
                assert(t[pointer_at(k)] == s[pointer_at(k)]);
                assert(t[pointer_at(k) + 1] == s[pointer_at(k) + 1]);
                assert(t[pointer_at(k) + 2] == s[pointer_at(k) + 2]);
                assert(t[pointer_at(k) + 3] == s[pointer_at(k) + 3]);
            }
            assert forall|k: int| index < k <= n implies #[trigger] same_pointer(t, k, s, k - 1) by {
                assert(same_pointer(s2, k, s1, k - 1));
                assert(s1[pointer_at(k - 1)] == s[pointer_at(k - 1)]);
                assert(s1[pointer_at(k - 1) + 1] == s[pointer_at(k - 1) + 1]);
                assert(s1[pointer_at(k - 1) + 2] == s[pointer_at(k - 1) + 2]);
                assert(s1[pointer_at(k - 1) + 3] == s[pointer_at(k - 1) + 3]);
                assert(t[pointer_at(k)] == s2[pointer_at(k)]);
                assert(t[pointer_at(k) + 1] == s2[pointer_at(k) + 1]);
                assert(t[pointer_at(k) + 2] == s2[pointer_at(k) + 2]);
                assert(t[pointer_at(k) + 3] == s2[pointer_at(k) + 3]);
            }
            lemma_inserted_slots(s, t, index as int, len as int);
        }
        Some(())
    }

    fn set_slot_offset(&mut self, i: usize, off: u16)
        requires
            pointer_at(i as int) + 3 < old(self)@.len(),
        ensures
            final(self)@.len() == old(self)@.len(),
            slot_offset(final(self)@, i as int) == off,
            slot_len(final(self)@, i as int) == slot_len(old(self)@, i as int),
            forall|p: int|
                0 <= p < old(self)@.len() && !(pointer_at(i as int) <= p < pointer_at(i as int) + 2)
                    ==> #[trigger] final(self)@[p] == old(self)@[p],
    {
        // The page's length, a usize, bounds the pointer's position.
        let _page_len = self.bytes.len();
        self.write_u16(HEADER_SIZE + POINTER_SIZE * i, off);
    }

    fn set_slot_len(&mut self, i: usize, len: u16)
        requires
            pointer_at(i as int) + 3 < old(self)@.len(),
        ensures
            final(self)@.len() == old(self)@.len(),
            slot_len(final(self)@, i as int) == len,
            slot_offset(final(self)@, i as int) == slot_offset(old(self)@, i as int),
            forall|p: int|
                0 <= p < old(self)@.len() && !(pointer_at(i as int) + 2 <= p < pointer_at(i as int)
                    + 4) ==> #[trigger] final(self)@[p] == old(self)@[p],
    {
        // The page's length, a usize, bounds the pointer's position.
        let _page_len = self.bytes.len();
        self.write_u16(HEADER_SIZE + POINTER_SIZE * i + 2, len);
    }

    /// Moves every pointer at or below body offset `from` by `delta` bytes,
    /// down when `down`, up otherwise.
    fn shift_pointers(&mut self, from: usize, delta: usize, down: bool)
        requires
            old(self)@.len() >= HEADER_SIZE,
            pointer_at(num_slots_of(old(self)@)) <= old(self)@.len(),
            forall|k: int|
                0 <= k < num_slots_of(old(self)@) && slot_offset(old(self)@, k) <= from ==> if down {
                    #[trigger] slot_offset(old(self)@, k) >= delta
                } else {
                    slot_offset(old(self)@, k) + delta <= 0xffff
                },
        ensures
            final(self)@.len() == old(self)@.len(),
            forall|k: int|
                0 <= k < num_slots_of(old(self)@) ==> #[trigger] slot_offset(final(self)@, k)
                    == shifted_offset(old(self)@, k, from as int, if down {
                    -delta
                } else {
                    delta as int
                }) && slot_len(final(self)@, k) == slot_len(old(self)@, k),
            forall|p: int|
                0 <= p < old(self)@.len() && !(HEADER_SIZE <= p < pointer_at(
                    num_slots_of(old(self)@),
                )) ==> #[trigger] final(self)@[p] == old(self)@[p],
    {
        let n = self.num_slots();
        let ghost s = self@;
        let mut j: usize = 0;
        while j < n
            invariant
                n == num_slots_of(s),
                j <= n,
                s == old(self)@,
                self@.len() == s.len(),
                s.len() >= HEADER_SIZE,
                pointer_at(n as int) <= s.len(),
                forall|k: int|
                    0 <= k < n && slot_offset(s, k) <= from ==> if down {
                        #[trigger] slot_offset(s, k) >= delta
                    } else {
                        slot_offset(s, k) + delta <= 0xffff
                    },
                forall|k: int|
                    0 <= k < j ==> #[trigger] slot_offset(self@, k) == shifted_offset(s, k, from as int, if down {
                        -delta
                    } else {
                        delta as int
                    }) && slot_len(self@, k) == slot_len(s, k),
                forall|k: int| j <= k < n ==> #[trigger] same_pointer(self@, k, s, k),
                forall|p: int|
                    0 <= p < s.len() && !(HEADER_SIZE <= p < pointer_at(j as int)) ==> #[trigger] self@[p]
                        == s[p],
            decreases n - j,
        {
            assert(same_pointer(self@, j as int, s, j as int));
            let o = self.slot_offset(j);
            let ghost before = self@;
            if o as usize <= from {
                let v = if down { o - delta as u16 } else { o + delta as u16 };
                self.set_slot_offset(j, v);
            }
            proof {
                let t = self@;
                assert forall|k: int| 0 <= k < j + 1 implies #[trigger] slot_offset(t, k) == shifted_offset(s, k, from as int, if down {
                        -delta
                    } else {
                        delta as int
                    }) && slot_len(t, k) == slot_len(s, k) by {
                    if k < j {
                        assert(slot_offset(before, k) == shifted_offset(s, k, from as int, if down {
                            -delta
                        } else {
                            delta as int
                        }));
                        assert(slot_len(before, k) == slot_len(s, k));
                        assert(t[pointer_at(k)] == before[pointer_at(k)]);
                        assert(t[pointer_at(k) + 1] == before[pointer_at(k) + 1]);
                        assert(t[pointer_at(k) + 2] == before[pointer_at(k) + 2]);
                        assert(t[pointer_at(k) + 3] == before[pointer_at(k) + 3]);
                    }
                }
                assert forall|k: int| j + 1 <= k < n implies #[trigger] same_pointer(t, k, s, k) by {
                    assert(same_pointer(before, k, s, k));
                    assert(t[pointer_at(k)] == before[pointer_at(k)]);
                    assert(t[pointer_at(k) + 1] == before[pointer_at(k) + 1]);
                    assert(t[pointer_at(k) + 2] == before[pointer_at(k) + 2]);
                    assert(t[pointer_at(k) + 3] == before[pointer_at(k) + 3]);
                }
            }
            j += 1;
        }
    }

    /// Resizes slot `index` to `len_new` bytes. The slot keeps its end and
    /// grows or shrinks at its front; the data in front of it moves to make or
    /// return the room. Fails, changing nothing, where growing needs more than
    /// the free space.
    pub fn resize(&mut self, index: usize, len_new: usize) -> (r: Option<()>)
        requires
            wf_page(old(self)@),
            index < num_slots_of(old(self)@),
        ensures
            r is None <==> len_new - slot_len(old(self)@, index as int) > free_offset_of(old(self)@)
                - pointers_size_of(old(self)@),
            r is None || len_new == slot_len(old(self)@, index as int) ==> final(self)@ == old(
                self,
            )@,
            r is Some && len_new != slot_len(old(self)@, index as int) ==> resized(
                old(self)@,
                final(self)@,
                index as int,
                len_new as int,
            ),
            r is Some ==> wf_page(final(self)@),
            accounted(old(self)@) ==> accounted(final(self)@),
            r is Some ==> slots_of(final(self)@)
                == slots_of(old(self)@).update(
                index as int,
                old(self)@.subrange(
                    HEADER_SIZE + slot_offset(old(self)@, index as int) + slot_len(old(self)@, index as int)
                        - len_new,
                    HEADER_SIZE + slot_offset(old(self)@, index as int) + slot_len(old(self)@, index as int),
                ),
            ),
    {
        proof {
            lemma_wf_header(self@);
            lemma_wf_slot(self@, index as int);
        }
        let ghost s = self@;
        let len_orig = self.slot_len(index) as usize;
        if len_new == len_orig {
            proof {
                let e = s.subrange(
                    HEADER_SIZE + slot_offset(s, index as int),
                    HEADER_SIZE + slot_offset(s, index as int) + len_orig,
                );
                assert(slots_of(s)[index as int] == e);
                assert(slots_of(s).update(index as int, e) =~= slots_of(s));
            }
            return Some(());
        }
        let free = self.free_space();
        if len_new > len_orig && len_new - len_orig > free {
            return None;
        }
        let n = self.num_slots();
        let fso = self.free_offset();
        let off = self.slot_offset(index) as usize;
        let down = len_new > len_orig;
        let delta = if down { len_new - len_orig } else { len_orig - len_new };
        let new_fso = if down { fso - delta } else { fso + delta };
        // Pointers at or below `bound` lie in front of the slot and move with
        // the data there; an empty slot at offset zero cannot grow.
        let bound = if len_orig > 0 { off } else { off - 1 };
        self.set_header(n as u16, new_fso as u16);
        let ghost s1 = self@;
        self.copy_within(HEADER_SIZE + fso, HEADER_SIZE + off, HEADER_SIZE + new_fso);
        let ghost s2 = self@;
        proof {
            assert forall|k: int| 0 <= k < n implies #[trigger] same_pointer(s2, k, s, k) by {
                assert(s2[pointer_at(k)] == s[pointer_at(k)]);
                assert(s2[pointer_at(k) + 1] == s[pointer_at(k) + 1]);
                assert(s2[pointer_at(k) + 2] == s[pointer_at(k) + 2]);
                assert(s2[pointer_at(k) + 3] == s[pointer_at(k) + 3]);
            }
            assert forall|k: int|
                0 <= k < n && slot_offset(s2, k) <= bound implies if down {
                    #[trigger] slot_offset(s2, k) >= delta
                } else {
                    slot_offset(s2, k) + delta <= 0xffff
                } by {
                assert(same_pointer(s2, k, s, k));
                lemma_wf_slot(s, k);
            }
        }
        self.shift_pointers(bound, delta, down);
        let ghost s3 = self@;
        self.set_slot_len(index, len_new as u16);
        let ghost s4 = self@;
        if len_new == 0 {
            self.set_slot_offset(index, new_fso as u16);
        } else if len_orig == 0 {
            self.set_slot_offset(index, (off - delta) as u16);
        }
        proof {
            lemma_resize_result(s, s1, s2, s3, s4, self@, index as int, len_new as int, down, delta as int);
            lemma_resized_slots(s, self@, index as int, len_new as int);
        }
        Some(())
    }

    /// Removes slot `index`, giving its data back to the free space.
    pub fn remove(&mut self, index: usize)
        requires
            wf_page(old(self)@),
            index < num_slots_of(old(self)@),
        ensures
            removed(old(self)@, final(self)@, index as int),
            wf_page(final(self)@),
            accounted(old(self)@) ==> accounted(final(self)@),
            slots_of(final(self)@) == slots_of(old(self)@).remove(index as int),
    {
        let ghost s = self@;
        proof {
            lemma_wf_header(s);
        }
        let _ = self.resize(index, 0);
        let ghost r = self@;
        proof {
            if slot_len(s, index as int) != 0 {
                lemma_resized_slots(s, r, index as int, 0);
            }
            lemma_wf_header(r);
        }
        let n = self.num_slots();
        self.move_pointers(index + 1, n, false);
        let ghost u = self@;
        self.write_u16(0, (n - 1) as u16);
        proof {
            lemma_remove_result(s, r, u, self@, index as int);
            lemma_removed_slots(s, self@, index as int);
        }
    }

    /// Empties the page: no slots, and the whole body is free.
    pub fn initialize(&mut self)
        requires
            old(self)@.len() >= HEADER_SIZE,
        ensures
            final(self)@.len() == old(self)@.len(),
            num_slots_of(final(self)@) == 0,
            free_offset_of(final(self)@) == capacity_of(old(self)@) % 0x10000,
            forall|p: int| 4 <= p < old(self)@.len() ==> final(self)@[p] == old(self)@[p],
            wf_page(final(self)@),
            capacity_of(old(self)@) < 0x10000 ==> accounted(final(self)@),
    {
        reveal(wf_page);
        self.write_u16(0, 0);
        let cap = self.bytes.len() - HEADER_SIZE;
        self.write_u16(2, (cap % 0x10000) as u16);
        assert(slots_of(self@) =~= Seq::<Seq<u8>>::empty());
    }
}

} // verus!
