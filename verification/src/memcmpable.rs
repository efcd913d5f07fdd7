use vstd::prelude::*;

verus! {

/// Length of one encoded block: eight data bytes and one marker byte.
pub const ESCAPE_LENGTH: usize = 9;

/// `n` zero bytes.
pub open spec fn zeros(n: nat) -> Seq<u8> {
    Seq::new(n, |i: int| 0u8)
}

/// Size of the encoding of `len` bytes: one block of nine bytes per started
/// group of eight bytes, and one block for the empty input.
pub open spec fn spec_encoded_size(len: nat) -> nat {
    if len == 0 {
        9
    } else {
        (len + 7) / 8 * 9
    }
}

/// The memcmp-comparable encoding of `s`: groups of eight bytes, each
/// followed by the marker 9 while more bytes follow; the last group is
/// padded with zeros and followed by the number of bytes it holds.
pub open spec fn encode_spec(s: Seq<u8>) -> Seq<u8>
    decreases s.len(),
{
    if s.len() <= 8 {
        s + zeros((8 - s.len()) as nat) + seq![s.len() as u8]
    } else {
        s.take(8) + seq![9u8] + encode_spec(s.skip(8))
    }
}

/// What decoding reads from the front of `s`: the bytes recovered and the
/// number of bytes consumed, or `None` where `s` ends inside a block.
pub open spec fn decode_spec(s: Seq<u8>) -> Option<(Seq<u8>, nat)>
    decreases s.len(),
{
    if s.len() < 9 {
        None
    } else if s[8] < 9 {
        Some((s.take(s[8] as int), 9))
    } else {
        match decode_spec(s.skip(9)) {
            Some((d, n)) => Some((s.take(8) + d, n + 9)),
            None => None,
        }
    }
}

/// Size of the encoding of `len` bytes.
pub fn encoded_size(len: usize) -> (r: usize)
    requires
        spec_encoded_size(len as nat) <= usize::MAX,
    ensures
        r == spec_encoded_size(len as nat),
{
    if len == 0 {
        ESCAPE_LENGTH
    } else {
        (len - 1) / (ESCAPE_LENGTH - 1) * ESCAPE_LENGTH + ESCAPE_LENGTH
    }
}

/// Appends the encoding of `src` to `dst`.
pub fn encode(src: &[u8], dst: &mut Vec<u8>)
    ensures
        final(dst)@ == old(dst)@ + encode_spec(src@),
        final(dst)@.len() == old(dst)@.len() + spec_encoded_size(src@.len()),
{
    proof {
        lemma_encoded_len(src@);
    }
    let mut pos: usize = 0;
    assert(src@.skip(0) =~= src@);
    loop
        invariant_except_break
            pos <= src.len(),
            dst@ + encode_spec(src@.skip(pos as int)) == old(dst)@ + encode_spec(src@),
        ensures
            dst@ == old(dst)@ + encode_spec(src@),
        decreases src.len() - pos,
    {
        let remaining = src.len() - pos;
        let copy_len = if remaining < ESCAPE_LENGTH - 1 { remaining } else { ESCAPE_LENGTH - 1 };
        let ghost before = dst@;
        let ghost rest = src@.skip(pos as int);
        let mut i: usize = 0;
        while i < copy_len
            invariant
                i <= copy_len <= 8,
                pos + copy_len <= src.len(),
                dst@ == before + src@.subrange(pos as int, pos + i),
            decreases copy_len - i,
        {
            dst.push(src[pos + i]);
            i += 1;
        }
        pos = pos + copy_len;
        if pos == src.len() {
            let pad_size = ESCAPE_LENGTH - 1 - copy_len;
            let mut j: usize = 0;
            while j < pad_size
                invariant
                    j <= pad_size,
                    dst@ == before + rest + zeros(j as nat),
                decreases pad_size - j,
            {
                dst.push(0u8);
                j += 1;
                assert(zeros(j as nat) =~= zeros((j - 1) as nat).push(0u8));
            }
            dst.push(copy_len as u8);
            assert(src@.subrange(pos - copy_len, pos as int) =~= rest);
            assert(dst@ == before + encode_spec(rest));
            break;
        }
        dst.push(ESCAPE_LENGTH as u8);
        assert(rest.skip(8) =~= src@.skip(pos as int));
        assert(dst@ == before + rest.take(8) + seq![9u8]);
    }
}

/// Decodes one encoded value from the front of `src`, appends its bytes to
/// `dst` and advances `src` past the blocks it read.
pub fn decode(src: &mut &[u8], dst: &mut Vec<u8>)
    requires
        decode_spec(old(src)@) is Some,
    ensures
        final(dst)@ == old(dst)@ + decode_spec(old(src)@).unwrap().0,
        final(src)@ == old(src)@.skip(decode_spec(old(src)@).unwrap().1 as int),
{
    let s: &[u8] = *src;
    let mut pos: usize = 0;
    assert(s@.skip(0) =~= s@);
    loop
        invariant_except_break
            pos <= s.len(),
            s@ == old(src)@,
            decode_spec(s@.skip(pos as int)) is Some,
            ({
                let (rest, n) = decode_spec(s@.skip(pos as int)).unwrap();
                let (all, m) = decode_spec(s@).unwrap();
                &&& all == dst@.skip(old(dst)@.len() as int) + rest
                &&& m == pos + n
            }),
            dst@.len() >= old(dst)@.len(),
            dst@.take(old(dst)@.len() as int) == old(dst)@,
        ensures
            pos <= s.len(),
            s@ == old(src)@,
            dst@ == old(dst)@ + decode_spec(s@).unwrap().0,
            pos == decode_spec(s@).unwrap().1,
        decreases s.len() - pos,
    {
        let ghost block = s@.skip(pos as int);
        let ghost before = dst@;
        let extra = s[pos + (ESCAPE_LENGTH - 1)];
        let len: usize = if extra < 8 { extra as usize } else { ESCAPE_LENGTH - 1 };
        let mut i: usize = 0;
        while i < len
            invariant
                i <= len <= 8,
                pos + 9 <= s.len(),
                dst@ == before + s@.subrange(pos as int, pos + i),
            decreases len - i,
        {
            dst.push(s[pos + i]);
            i += 1;
        }
        assert(s@.subrange(pos as int, pos + len) =~= block.take(len as int));
        pos = pos + ESCAPE_LENGTH;
        assert(block.skip(9) =~= s@.skip(pos as int));
        assert(dst@.skip(old(dst)@.len() as int) =~= before.skip(old(dst)@.len() as int) + block.take(len as int));
        assert(dst@.take(old(dst)@.len() as int) =~= before.take(old(dst)@.len() as int));
        if extra < ESCAPE_LENGTH as u8 {
            assert(dst@ =~= old(dst)@ + dst@.skip(old(dst)@.len() as int));
            break;
        }
    }
    *src = &s[pos..s.len()];
    assert(s@.subrange(pos as int, s@.len() as int) =~= s@.skip(pos as int));
}

/// The encoding of `s` has `spec_encoded_size(s.len())` bytes.
pub proof fn lemma_encoded_len(s: Seq<u8>)
    ensures
        encode_spec(s).len() == spec_encoded_size(s.len()),
    decreases s.len(),
{
    let n = s.len();
    if n > 8 {
        lemma_encoded_len(s.skip(8));
        assert((n + 7) / 8 == (n - 8 + 7) / 8 + 1);
        assert(spec_encoded_size(n) == spec_encoded_size(s.skip(8).len()) + 9) by (nonlinear_arith)
            requires
                (n + 7) / 8 == (n - 8 + 7) / 8 + 1,
                s.skip(8).len() == n - 8,
                n > 8,
                spec_encoded_size(n) == (n + 7) / 8 * 9,
                spec_encoded_size((n - 8) as nat) == (n - 8 + 7) / 8 * 9;
    } else if n > 0 {
        assert((n + 7) / 8 == 1) by (nonlinear_arith)
            requires
                0 < n <= 8;
    }
}

/// The encoding, byte by byte: the input is cut into blocks of eight bytes
/// (one empty block for the empty input), the last block padded with zeros,
/// and every block is followed by a marker byte: 9 after every block but the
/// last, and after the last the number of input bytes that block holds.
/// Byte `p` lies in block `p / 9`, at place `p % 9`.
pub proof fn lemma_encode_layout(s: Seq<u8>)
    ensures
        encode_spec(s).len() == spec_encoded_size(s.len()),
        forall|p: int|
            0 <= p < encode_spec(s).len() && p % 9 != 8 ==> #[trigger] encode_spec(s)[p] == (if (p / 9)
                * 8 + p % 9 < s.len() {
                s[(p / 9) * 8 + p % 9]
            } else {
                0u8
            }),
        forall|p: int|
            0 <= p < encode_spec(s).len() - 1 && p % 9 == 8 ==> #[trigger] encode_spec(s)[p] == 9u8,
        encode_spec(s)[encode_spec(s).len() - 1] == s.len() - (spec_encoded_size(s.len()) / 9 - 1) * 8,
    decreases s.len(),
{
    lemma_encoded_len(s);
    let n = s.len();
    let e = encode_spec(s);
    if n <= 8 {
        assert(e.len() == 9);
        assert forall|p: int| 0 <= p < e.len() && p % 9 != 8 implies #[trigger] e[p] == (if (p / 9) * 8
            + p % 9 < n {
            s[(p / 9) * 8 + p % 9]
        } else {
            0u8
        }) by {
            assert(p / 9 == 0 && p % 9 == p);
        }
        assert(spec_encoded_size(n) / 9 == 1);
    } else {
        let t = s.skip(8);
        let r = encode_spec(t);
        lemma_encode_layout(t);
        assert(e == s.take(8) + seq![9u8] + r);
        assert(spec_encoded_size(n) == spec_encoded_size(t.len()) + 9);
        assert(spec_encoded_size(t.len()) / 9 >= 1);
        assert(spec_encoded_size(n) / 9 == spec_encoded_size(t.len()) / 9 + 1);
        assert forall|p: int| 0 <= p < e.len() && p % 9 != 8 implies #[trigger] e[p] == (if (p / 9) * 8
            + p % 9 < n {
            s[(p / 9) * 8 + p % 9]
        } else {
            0u8
        }) by {
            if p < 9 {
                assert(p / 9 == 0 && p % 9 == p);
            } else {
                let q = p - 9;
                assert(q / 9 == p / 9 - 1 && q % 9 == p % 9) by (nonlinear_arith)
                    requires
                        q == p - 9,
                        p >= 9;
                assert(e[p] == r[q]);
                assert(r[q] == (if (q / 9) * 8 + q % 9 < t.len() {
                    t[(q / 9) * 8 + q % 9]
                } else {
                    0u8
                }));
            }
        }
        assert forall|p: int| 0 <= p < e.len() - 1 && p % 9 == 8 implies #[trigger] e[p] == 9u8 by {
            if p >= 9 {
                let q = p - 9;
                assert(q % 9 == 8) by (nonlinear_arith)
                    requires
                        q == p - 9,
                        p % 9 == 8,
                        p >= 9;
                assert(e[p] == r[q]);
            }
        }
        assert(e[e.len() - 1] == r[r.len() - 1]);
    }
}

/// Decoding the encoding of `s`, whatever follows it, gives back `s` and
/// consumes exactly the encoding.
pub proof fn lemma_decode_encode(s: Seq<u8>, rest: Seq<u8>)
    ensures
        decode_spec(encode_spec(s) + rest) == Some((s, encode_spec(s).len())),
    decreases s.len(),
{
    let e = encode_spec(s) + rest;
    if s.len() <= 8 {
        assert(e[8] == s.len() as u8);
        assert(e.take(s.len() as int) =~= s);
    } else {
        lemma_decode_encode(s.skip(8), rest);
        assert(e[8] == 9u8);
        assert(e.skip(9) =~= encode_spec(s.skip(8)) + rest);
        assert(e.take(8) + s.skip(8) =~= s);
    }
}

/// Lexicographic order on byte strings, as `memcmp` followed by a length
/// comparison orders them: a proper prefix comes first.
pub open spec fn lex_lt(a: Seq<u8>, b: Seq<u8>) -> bool
    decreases a.len(),
{
    if a.len() == 0 {
        b.len() > 0
    } else if b.len() == 0 {
        false
    } else if a[0] != b[0] {
        a[0] < b[0]
    } else {
        lex_lt(a.drop_first(), b.drop_first())
    }
}

/// A common prefix does not change how two byte strings compare.
pub proof fn lemma_lex_common_prefix(p: Seq<u8>, x: Seq<u8>, y: Seq<u8>)
    ensures
        lex_lt(p + x, p + y) == lex_lt(x, y),
    decreases p.len(),
{
    if p.len() > 0 {
        lemma_lex_common_prefix(p.drop_first(), x, y);
        assert((p + x).drop_first() =~= p.drop_first() + x);
        assert((p + y).drop_first() =~= p.drop_first() + y);
    } else {
        assert(p + x =~= x);
        assert(p + y =~= y);
    }
}

/// Two byte strings that agree on their first `k` bytes and differ at byte
/// `k` compare as those bytes do.
proof fn lemma_lex_first_difference(a: Seq<u8>, b: Seq<u8>, k: int)
    requires
        0 <= k < a.len(),
        k < b.len(),
        a.take(k) == b.take(k),
        a[k] != b[k],
    ensures
        lex_lt(a, b) == (a[k] < b[k]),
        lex_lt(b, a) == (b[k] < a[k]),
    decreases k,
{
    if k > 0 {
        assert(a[0] == a.take(k)[0]);
        assert(b[0] == b.take(k)[0]);
        assert(a.drop_first().take(k - 1) =~= a.take(k).drop_first());
        assert(b.drop_first().take(k - 1) =~= b.take(k).drop_first());
        lemma_lex_first_difference(a.drop_first(), b.drop_first(), k - 1);
    }
}

/// A proper prefix comes before the longer string.
proof fn lemma_lex_proper_prefix(a: Seq<u8>, b: Seq<u8>)
    requires
        a.len() < b.len(),
        a == b.take(a.len() as int),
    ensures
        lex_lt(a, b),
        !lex_lt(b, a),
    decreases a.len(),
{
    if a.len() > 0 {
        assert(a.drop_first() =~= b.drop_first().take(a.len() - 1));
        lemma_lex_proper_prefix(a.drop_first(), b.drop_first());
    }
}

/// The first block of the encoding of `a`: its first eight bytes, padded
/// with zeros.
spec fn padded_head(a: Seq<u8>) -> Seq<u8> {
    if a.len() <= 8 {
        a + zeros((8 - a.len()) as nat)
    } else {
        a.take(8)
    }
}

/// The marker that closes the first block of the encoding of `a`.
spec fn head_marker(a: Seq<u8>) -> u8 {
    if a.len() <= 8 {
        a.len() as u8
    } else {
        9u8
    }
}

proof fn lemma_encode_head(a: Seq<u8>, x: Seq<u8>)
    ensures
        (encode_spec(a) + x).len() >= 9,
        (encode_spec(a) + x).take(8) == padded_head(a),
        (encode_spec(a) + x)[8] == head_marker(a),
        padded_head(a).len() == 8,
        forall|i: int| 0 <= i < 8 && i < a.len() ==> #[trigger] padded_head(a)[i] == a[i],
        forall|i: int| a.len() <= i < 8 ==> #[trigger] padded_head(a)[i] == 0,
        a.len() > 8 ==> (encode_spec(a) + x).skip(9) =~= encode_spec(a.skip(8)) + x,
{
    let e = encode_spec(a) + x;
    assert(e.take(8) =~= padded_head(a));
}

/// A position below 8 at which `p` and `q` differ, with no difference before.
proof fn lemma_first_mismatch(p: Seq<u8>, q: Seq<u8>, i: int) -> (k: int)
    requires
        p.len() == 8,
        q.len() == 8,
        0 <= i <= 8,
        p.take(i) == q.take(i),
        p != q,
    ensures
        i <= k < 8,
        p.take(k) == q.take(k),
        p[k] != q[k],
    decreases 8 - i,
{
    if i == 8 {
        assert(p =~= p.take(8));
        assert(q =~= q.take(8));
        i
    } else if p[i] != q[i] {
        i
    } else {
        assert(p.take(i + 1) =~= p.take(i).push(p[i]));
        assert(q.take(i + 1) =~= q.take(i).push(q[i]));
        lemma_first_mismatch(p, q, i + 1)
    }
}

/// The encoding keeps the order: for distinct `a` and `b`, the encodings
/// compare as `a` and `b` do, whatever follows each encoding.
pub proof fn lemma_encode_order(a: Seq<u8>, b: Seq<u8>, x: Seq<u8>, y: Seq<u8>)
    requires
        a != b,
    ensures
        lex_lt(encode_spec(a) + x, encode_spec(b) + y) == lex_lt(a, b),
    decreases a.len(),
{
    let ea = encode_spec(a) + x;
    let eb = encode_spec(b) + y;
    lemma_encode_head(a, x);
    lemma_encode_head(b, y);
    let pa = padded_head(a);
    let pb = padded_head(b);
    assert(pa.take(0) =~= pb.take(0));
    if pa != pb {
        let k = lemma_first_mismatch(pa, pb, 0);
        assert(ea.take(k) =~= pa.take(k));
        assert(eb.take(k) =~= pb.take(k));
        lemma_lex_first_difference(ea, eb, k);
        if k < a.len() && k < b.len() {
            assert(a.take(k) =~= pa.take(k));
            assert(b.take(k) =~= pb.take(k));
            lemma_lex_first_difference(a, b, k);
        } else if k < b.len() {
            assert forall|i: int| 0 <= i < a.len() implies a[i] == b[i] by {
                assert(pa.take(k)[i] == pb.take(k)[i]);
            }
            assert(a =~= b.take(a.len() as int));
            lemma_lex_proper_prefix(a, b);
        } else {
            assert forall|i: int| 0 <= i < b.len() implies a[i] == b[i] by {
                assert(pa.take(k)[i] == pb.take(k)[i]);
            }
            assert(b =~= a.take(b.len() as int));
            lemma_lex_proper_prefix(b, a);
        }
    } else {
        let ma = head_marker(a);
        let mb = head_marker(b);
        assert(ea.take(8) == eb.take(8));
        if ma != mb {
            lemma_lex_first_difference(ea, eb, 8);
            if a.len() < b.len() {
                assert(a.len() <= 8);
                assert forall|i: int| 0 <= i < a.len() implies a[i] == b[i] by {
                    assert(pa[i] == pb[i]);
                }
                assert(a =~= b.take(a.len() as int));
                lemma_lex_proper_prefix(a, b);
            } else {
                assert(b.len() <= 8);
                assert forall|i: int| 0 <= i < b.len() implies a[i] == b[i] by {
                    assert(pa[i] == pb[i]);
                }
                assert(b =~= a.take(b.len() as int));
                lemma_lex_proper_prefix(b, a);
            }
        } else if a.len() <= 8 {
            assert(a =~= pa.take(a.len() as int));
            assert(b =~= pb.take(b.len() as int));
        } else {
            let a8 = a.skip(8);
            let b8 = b.skip(8);
            let h = a.take(8);
            assert(a =~= h + a8);
            assert(b =~= h + b8);
            assert(a8 != b8);
            lemma_encode_order(a8, b8, x, y);
            let hh = h.push(9u8);
            assert(ea =~= hh + (encode_spec(a8) + x));
            assert(eb =~= hh + (encode_spec(b8) + y));
            lemma_lex_common_prefix(hh, encode_spec(a8) + x, encode_spec(b8) + y);
            lemma_lex_common_prefix(h, a8, b8);
        }
    }
}

} // verus!
