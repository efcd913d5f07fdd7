use vstd::prelude::*;
use vstd::string::*;
use vstd::utf8::{decode_utf8, valid_utf8};
use crate::memcmpable;
use crate::memcmpable::{encode_spec, decode_spec, lex_lt, lemma_decode_encode, lemma_encoded_len, lemma_encode_order, lemma_lex_common_prefix};

verus! {

/// The byte strings that a slice of borrowed elements holds.
pub open spec fn elems_view(elems: Seq<&[u8]>) -> Seq<Seq<u8>> {
    elems.map_values(|e: &[u8]| e@)
}

/// The encoding of a tuple: the memcmp-comparable encodings of its elements,
/// one after another.
pub open spec fn tuple_encode_spec(t: Seq<Seq<u8>>) -> Seq<u8>
    decreases t.len(),
{
    if t.len() == 0 {
        Seq::empty()
    } else {
        tuple_encode_spec(t.drop_last()) + encode_spec(t.last())
    }
}

/// Decoding one value consumes at least one block and no more than is there.
pub proof fn lemma_decode_consumes(s: Seq<u8>)
    ensures
        decode_spec(s) matches Some((d, n)) ==> 9 <= n <= s.len(),
    decreases s.len(),
{
    if s.len() >= 9 && s[8] >= 9 {
        lemma_decode_consumes(s.skip(9));
    }
}

/// The elements that decoding all of `s` yields, or `None` where `s` is not
/// a sequence of whole encoded values.
pub open spec fn tuple_decode_spec(s: Seq<u8>) -> Option<Seq<Seq<u8>>>
    decreases s.len(),
{
    if s.len() == 0 {
        Some(Seq::empty())
    } else {
        match decode_spec(s) {
            Some((d, n)) => {
                proof {
                    lemma_decode_consumes(s);
                }
                match tuple_decode_spec(s.skip(n as int)) {
                    Some(t) => Some(seq![d] + t),
                    None => None,
                }
            },
            None => None,
        }
    }
}

/// The byte strings of the first `n` elements.
pub open spec fn elems_prefix(elems: Seq<&[u8]>, n: usize) -> Seq<Seq<u8>> {
    elems_view(elems.take(n as int))
}

/// The byte strings that a vector of owned elements holds.
pub open spec fn vecs_view(elems: Seq<Vec<u8>>) -> Seq<Seq<u8>> {
    elems.map_values(|e: Vec<u8>| e@)
}

/// The byte strings of the elements from position `n` on.
pub open spec fn vecs_from(elems: Seq<Vec<u8>>, n: nat) -> Seq<Seq<u8>> {
    vecs_view(elems).skip(n as int)
}

proof fn lemma_elems_prefix_step(elems: Seq<&[u8]>, i: usize, j: usize)
    requires
        j == i + 1,
        j <= elems.len(),
    ensures
        elems_prefix(elems, j) == elems_prefix(elems, i).push(elems[i as int]@),
        tuple_encode_spec(elems_prefix(elems, j)) == tuple_encode_spec(elems_prefix(elems, i))
            + encode_spec(elems[i as int]@),
{
    let a = elems_prefix(elems, j);
    let b = elems_prefix(elems, i).push(elems[i as int]@);
    assert forall|k: int| 0 <= k < a.len() implies a[k] == b[k] by {
        if k < i {
            assert(elems.take(j as int)[k] == elems.take(i as int)[k]);
        }
    }
    assert(a =~= b);
    assert(b.drop_last() =~= elems_prefix(elems, i));
}

proof fn lemma_elems_prefix_all(elems: Seq<&[u8]>, n: usize)
    requires
        n == elems.len(),
    ensures
        elems_prefix(elems, n) == elems_view(elems),
{
    assert(elems.take(n as int) =~= elems);
}

proof fn lemma_decode_step(r0: Seq<u8>, rest: Seq<u8>, elem: Seq<u8>)
    requires
        tuple_decode_spec(r0) is Some,
        r0.len() > 0,
        decode_spec(r0) is Some,
        elem == decode_spec(r0).unwrap().0,
        rest == r0.skip(decode_spec(r0).unwrap().1 as int),
    ensures
        tuple_decode_spec(rest) is Some,
        tuple_decode_spec(r0).unwrap() == seq![elem] + tuple_decode_spec(rest).unwrap(),
{
    lemma_decode_consumes(r0);
}

/// `all` begins with the elements of `prefix`.
pub open spec fn starts_with(all: Seq<Vec<u8>>, prefix: Seq<Vec<u8>>) -> bool {
    prefix.len() <= all.len() && all.take(prefix.len() as int) == prefix
}

proof fn lemma_starts_with_self(all: Seq<Vec<u8>>)
    ensures
        starts_with(all, all),
        vecs_from(all, all.len()) == Seq::<Seq<u8>>::empty(),
{
    assert(all.take(all.len() as int) =~= all);
    assert(vecs_from(all, all.len()) =~= Seq::<Seq<u8>>::empty());
}

proof fn lemma_vecs_push(before: Seq<Vec<u8>>, e: Vec<u8>, n: nat)
    requires
        n <= before.len(),
    ensures
        vecs_from(before.push(e), n) == vecs_from(before, n).push(e@),
        before.push(e).take(n as int) == before.take(n as int),
{
    assert(vecs_from(before.push(e), n) =~= vecs_from(before, n).push(e@));
    assert(before.push(e).take(n as int) =~= before.take(n as int));
}

proof fn lemma_vecs_whole(all: Seq<Vec<u8>>, old: Seq<Vec<u8>>)
    requires
        starts_with(all, old),
    ensures
        vecs_view(all) == vecs_view(old) + vecs_from(all, old.len()),
{
    assert(vecs_view(all) =~= vecs_view(old) + vecs_from(all, old.len()));
}

/// Appends the encoding of the tuple `elems` to `bytes`.
pub fn encode(elems: &[&[u8]], bytes: &mut Vec<u8>)
    ensures
        final(bytes)@ == old(bytes)@ + tuple_encode_spec(elems_view(elems@)),
{
    let mut i: usize = 0;
    while i < elems.len()
        invariant
            i <= elems.len(),
            bytes@ == old(bytes)@ + tuple_encode_spec(elems_prefix(elems@, i)),
        decreases elems.len() - i,
    {
        let elem: &[u8] = elems[i];
        memcmpable::encode(elem, bytes);
        let next = i + 1;
        proof {
            lemma_elems_prefix_step(elems@, i, next);
        }
        i = next;
    }
    proof {
        lemma_elems_prefix_all(elems@, i);
    }
}

/// Decodes every value in `bytes` and appends them, in order, to `elems`.
pub fn decode(bytes: &[u8], elems: &mut Vec<Vec<u8>>)
    requires
        tuple_decode_spec(bytes@) is Some,
    ensures
        vecs_view(final(elems)@) == vecs_view(old(elems)@) + tuple_decode_spec(bytes@).unwrap(),
{
    let mut rest: &[u8] = bytes;
    let ghost n0 = elems@.len();
    proof {
        lemma_starts_with_self(elems@);
    }
    while rest.len() > 0
        invariant
            tuple_decode_spec(rest@) is Some,
            n0 == old(elems)@.len(),
            starts_with(elems@, old(elems)@),
            tuple_decode_spec(bytes@).unwrap() == vecs_from(elems@, n0) + tuple_decode_spec(
                rest@,
            ).unwrap(),
        decreases rest@.len(),
    {
        let ghost r0 = rest@;
        let ghost before = elems@;
        let mut elem: Vec<u8> = Vec::new();
        proof {
            lemma_decode_consumes(r0);
        }
        memcmpable::decode(&mut rest, &mut elem);
        proof {
            lemma_decode_step(r0, rest@, elem@);
            lemma_vecs_push(before, elem, n0);
            assert(vecs_from(before, n0).push(elem@) + tuple_decode_spec(rest@).unwrap()
                =~= vecs_from(before, n0) + (seq![elem@] + tuple_decode_spec(rest@).unwrap()));
        }
        elems.push(elem);
    }
    proof {
        lemma_vecs_whole(elems@, old(elems)@);
        assert(tuple_decode_spec(rest@).unwrap() =~= Seq::<Seq<u8>>::empty());
    }
}

/// Lexicographic order on tuples: element by element, each element compared
/// as a byte string; a proper prefix comes first.
pub open spec fn tuple_lt(t: Seq<Seq<u8>>, u: Seq<Seq<u8>>) -> bool
    decreases t.len(),
{
    if t.len() == 0 {
        u.len() > 0
    } else if u.len() == 0 {
        false
    } else if t[0] != u[0] {
        lex_lt(t[0], u[0])
    } else {
        tuple_lt(t.drop_first(), u.drop_first())
    }
}

/// The encoding of a non-empty tuple starts with the encoding of its first
/// element, followed by the encoding of the rest.
pub proof fn lemma_tuple_encode_front(t: Seq<Seq<u8>>)
    requires
        t.len() > 0,
    ensures
        tuple_encode_spec(t) == encode_spec(t[0]) + tuple_encode_spec(t.drop_first()),
    decreases t.len(),
{
    if t.len() == 1 {
        assert(t.drop_last() =~= Seq::<Seq<u8>>::empty());
        assert(t.drop_first() =~= Seq::<Seq<u8>>::empty());
        assert(encode_spec(t[0]) + Seq::<u8>::empty() =~= encode_spec(t[0]));
    } else {
        lemma_tuple_encode_front(t.drop_last());
        assert(t.drop_last().drop_first() =~= t.drop_first().drop_last());
        assert(t.drop_first().last() == t.last());
        assert(t.drop_last()[0] == t[0]);
        let a = encode_spec(t[0]);
        let b = tuple_encode_spec(t.drop_first().drop_last());
        let c = encode_spec(t.last());
        assert(a + b + c =~= a + (b + c));
    }
}

/// A tuple of one element is encoded as that element alone, and the encoding
/// of two tuples one after the other is their encodings one after the other:
/// the encoding of a tuple is the encodings of all its elements, whole and in
/// order.
pub proof fn lemma_tuple_encode_concat(t: Seq<Seq<u8>>, u: Seq<Seq<u8>>, e: Seq<u8>)
    ensures
        tuple_encode_spec(seq![e]) == encode_spec(e),
        tuple_encode_spec(t + u) == tuple_encode_spec(t) + tuple_encode_spec(u),
    decreases u.len(),
{
    assert(seq![e].drop_last() =~= Seq::<Seq<u8>>::empty());
    assert(tuple_encode_spec(seq![e].drop_last()) == Seq::<u8>::empty());
    assert(seq![e].last() == e);
    assert(Seq::<u8>::empty() + encode_spec(e) =~= encode_spec(e));
    if u.len() == 0 {
        assert(t + u =~= t);
        assert(tuple_encode_spec(t) + Seq::<u8>::empty() =~= tuple_encode_spec(t));
    } else {
        lemma_tuple_encode_concat(t, u.drop_last(), e);
        assert((t + u).drop_last() =~= t + u.drop_last());
        assert((t + u).last() == u.last());
        let a = tuple_encode_spec(t);
        let b = tuple_encode_spec(u.drop_last());
        let c = encode_spec(u.last());
        assert(a + b + c =~= a + (b + c));
    }
}

/// Decoding the encoding of a tuple gives the tuple back.
pub proof fn lemma_tuple_decode_encode(t: Seq<Seq<u8>>)
    ensures
        tuple_decode_spec(tuple_encode_spec(t)) == Some(t),
    decreases t.len(),
{
    if t.len() == 0 {
        assert(tuple_encode_spec(t).len() == 0);
        assert(t =~= Seq::<Seq<u8>>::empty());
    } else {
        lemma_tuple_encode_front(t);
        let rest = tuple_encode_spec(t.drop_first());
        let e = tuple_encode_spec(t);
        lemma_decode_encode(t[0], rest);
        lemma_encoded_len(t[0]);
        assert(e.skip(encode_spec(t[0]).len() as int) =~= rest);
        lemma_tuple_decode_encode(t.drop_first());
        assert(seq![t[0]] + t.drop_first() =~= t);
    }
}

/// The tuple encoding keeps the order: encoded tuples compare byte-wise as
/// the tuples compare element by element.
pub proof fn lemma_tuple_order(t: Seq<Seq<u8>>, u: Seq<Seq<u8>>)
    ensures
        lex_lt(tuple_encode_spec(t), tuple_encode_spec(u)) == tuple_lt(t, u),
    decreases t.len(),
{
    if t.len() == 0 {
        if u.len() > 0 {
            lemma_tuple_encode_front(u);
            lemma_encoded_len(u[0]);
        }
    } else if u.len() == 0 {
        lemma_tuple_encode_front(t);
        lemma_encoded_len(t[0]);
    } else {
        lemma_tuple_encode_front(t);
        lemma_tuple_encode_front(u);
        let x = tuple_encode_spec(t.drop_first());
        let y = tuple_encode_spec(u.drop_first());
        if t[0] != u[0] {
            lemma_encode_order(t[0], u[0], x, y);
        } else {
            lemma_lex_common_prefix(encode_spec(t[0]), x, y);
            lemma_tuple_order(t.drop_first(), u.drop_first());
        }
    }
}

/// How `{:?}` writes a string: quoted, with escapes.
pub uninterp spec fn debug_str(s: Seq<char>) -> Seq<char>;

/// `std::str::from_utf8`: `Some` exactly when `bytes` is valid UTF-8, as its
/// documentation states; the string then holds the decoded characters.
#[verifier::external_body]
fn utf8_str(bytes: &[u8]) -> (r: Option<&str>)
    ensures
        r is Some <==> valid_utf8(bytes@),
        r matches Some(s) ==> s@ == decode_utf8(bytes@),
{
    std::str::from_utf8(bytes).ok()
}

/// `<str as Debug>::fmt`, through `format!("{:?}", s)`: the string quoted
/// and escaped. The result is named, not spelled out: the escaping follows
/// Unicode tables that std carries.
#[verifier::external_body]
fn debug_string(s: &str) -> (r: String)
    ensures
        r@ == debug_str(s@),
{
    format!("{:?}", s)
}

/// The lowercase hexadecimal digit for `d`.
pub open spec fn hex_digit(d: int) -> char {
    if d < 10 {
        (48 + d) as char
    } else {
        (87 + d) as char
    }
}

/// `b` as two lowercase hexadecimal digits.
pub open spec fn hex_byte(b: u8) -> Seq<char> {
    seq![hex_digit((b / 16) as int), hex_digit((b % 16) as int)]
}

/// The items of `bytes` in hexadecimal, separated by spaces.
pub open spec fn hex_items(bytes: Seq<u8>) -> Seq<char>
    decreases bytes.len(),
{
    if bytes.len() == 0 {
        Seq::empty()
    } else if bytes.len() == 1 {
        hex_byte(bytes[0])
    } else {
        hex_items(bytes.drop_last()) + seq![' '] + hex_byte(bytes.last())
    }
}

/// `bytes` in brackets, in hexadecimal: `[68 65 6c]`.
pub open spec fn hex_list(bytes: Seq<u8>) -> Seq<char> {
    seq!['['] + hex_items(bytes) + seq![']']
}

/// One element of a tuple as it is shown: the quoted string and its bytes
/// where the bytes are valid UTF-8, the bytes alone otherwise.
pub open spec fn pretty_elem(bytes: Seq<u8>) -> Seq<char> {
    if valid_utf8(bytes) {
        debug_str(decode_utf8(bytes)) + seq![' '] + hex_list(bytes)
    } else {
        hex_list(bytes)
    }
}

/// The shown elements, separated by `", "`.
pub open spec fn pretty_items(elems: Seq<Seq<u8>>) -> Seq<char>
    decreases elems.len(),
{
    if elems.len() == 0 {
        Seq::empty()
    } else if elems.len() == 1 {
        pretty_elem(elems[0])
    } else {
        pretty_items(elems.drop_last()) + seq![',', ' '] + pretty_elem(elems.last())
    }
}

/// A tuple as it is shown: `Tuple`, then its elements in parentheses where
/// it has any.
pub open spec fn pretty_tuple(elems: Seq<Seq<u8>>) -> Seq<char> {
    if elems.len() == 0 {
        seq!['T', 'u', 'p', 'l', 'e']
    } else {
        seq!['T', 'u', 'p', 'l', 'e', '('] + pretty_items(elems) + seq![')']
    }
}

/// The value of a lowercase hexadecimal digit: `'0'` to `'9'` stand for 0
/// to 9, `'a'` to `'f'` for 10 to 15.
pub open spec fn hex_value(c: char) -> int {
    if '0' <= c && c <= '9' {
        c as int - '0' as int
    } else {
        c as int - 'a' as int + 10
    }
}

/// A byte is shown as two lowercase hexadecimal digits, high digit first,
/// that read back as the byte in base 16.
pub proof fn lemma_hex_byte(b: u8)
    ensures
        hex_byte(b).len() == 2,
        forall|i: int|
            0 <= i < 2 ==> ('0' <= #[trigger] hex_byte(b)[i] && hex_byte(b)[i] <= '9') || ('a'
                <= hex_byte(b)[i] && hex_byte(b)[i] <= 'f'),
        hex_value(hex_byte(b)[0]) * 16 + hex_value(hex_byte(b)[1]) == b,
{
    let hi = (b / 16) as int;
    let lo = (b % 16) as int;
    assert(hex_byte(b)[0] == hex_digit(hi));
    assert(hex_byte(b)[1] == hex_digit(lo));
    assert(hi * 16 + lo == b);
}

/// A tuple, to show in a readable form.
pub struct Pretty<'a>(pub &'a [Vec<u8>]);

fn append_hex_byte(out: &mut String, b: u8)
    ensures
        final(out)@ == old(out)@ + hex_byte(b),
{
    let digits = "0123456789abcdef";
    proof {
        reveal_strlit("0123456789abcdef");
    }
    let hi = (b / 16) as usize;
    let lo = (b % 16) as usize;
    out.append(digits.substring_ascii(hi, hi + 1));
    out.append(digits.substring_ascii(lo, lo + 1));
    proof {
        assert(digits@[hi as int] == hex_digit(hi as int));
        assert(digits@[lo as int] == hex_digit(lo as int));
        assert(final(out)@ =~= old(out)@ + hex_byte(b)) by {
            assert(digits@.subrange(hi as int, hi + 1) =~= seq![hex_digit(hi as int)]);
            assert(digits@.subrange(lo as int, lo + 1) =~= seq![hex_digit(lo as int)]);
        }
    }
}

fn append_hex_list(out: &mut String, bytes: &[u8])
    ensures
        final(out)@ == old(out)@ + hex_list(bytes@),
{
    let ghost start = out@;
    out.append("[");
    proof {
        reveal_strlit("[");
    }
    let mut i: usize = 0;
    while i < bytes.len()
        invariant
            i <= bytes@.len(),
            out@ == start + seq!['['] + hex_items(bytes@.take(i as int)),
        decreases bytes@.len() - i,
    {
        if i > 0 {
            out.append(" ");
            proof {
                reveal_strlit(" ");
            }
        }
        append_hex_byte(out, bytes[i]);
        proof {
            let t = bytes@.take(i + 1);
            assert(t.drop_last() =~= bytes@.take(i as int));
            assert(t.last() == bytes@[i as int]);
            if i == 0 {
                assert(bytes@.take(0) =~= Seq::<u8>::empty());
                assert(out@ =~= start + seq!['['] + hex_items(t));
            } else {
                assert(out@ =~= start + seq!['['] + hex_items(t));
            }
        }
        i += 1;
    }
    out.append("]");
    proof {
        reveal_strlit("]");
        assert(bytes@.take(i as int) =~= bytes@);
        assert(out@ =~= start + hex_list(bytes@));
    }
}

fn append_elem(out: &mut String, bytes: &[u8])
    ensures
        final(out)@ == old(out)@ + pretty_elem(bytes@),
{
    let ghost start = out@;
    match utf8_str(bytes) {
        Some(s) => {
            let d = debug_string(s);
            out.append(d.as_str());
            out.append(" ");
            proof {
                reveal_strlit(" ");
            }
        },
        None => {},
    }
    append_hex_list(out, bytes);
    proof {
        assert(out@ =~= start + pretty_elem(bytes@));
    }
}

impl<'a> Pretty<'a> {
    /// The tuple in readable form, e.g. `Tuple("hello" [68 65 6c 6c 6f], [ff
    /// fe fd])`: each element as a quoted string followed by its bytes in
    /// hexadecimal where it is valid UTF-8, as its bytes alone otherwise.
    pub fn to_string(&self) -> (r: String)
        ensures
            r@ == pretty_tuple(self.0@.map_values(|e: Vec<u8>| e@)),
    {
        let elems = self.0;
        let ghost v = elems@.map_values(|e: Vec<u8>| e@);
        let mut out = String::from_str("Tuple");
        proof {
            reveal_strlit("Tuple");
        }
        if elems.len() == 0 {
            return out;
        }
        out.append("(");
        proof {
            reveal_strlit("(");
        }
        let mut i: usize = 0;
        while i < elems.len()
            invariant
                i <= elems@.len(),
                elems@.len() > 0,
                v == elems@.map_values(|e: Vec<u8>| e@),
                out@ == seq!['T', 'u', 'p', 'l', 'e', '('] + pretty_items(v.take(i as int)),
            decreases elems@.len() - i,
        {
            if i > 0 {
                out.append(", ");
                proof {
                    reveal_strlit(", ");
                }
            }
            append_elem(&mut out, elems[i].as_slice());
            proof {
                let t = v.take(i + 1);
                assert(t.drop_last() =~= v.take(i as int));
                assert(t.last() == elems@[i as int]@);
                if i == 0 {
                    assert(v.take(0) =~= Seq::<Seq<u8>>::empty());
                }
                assert(out@ =~= seq!['T', 'u', 'p', 'l', 'e', '('] + pretty_items(t));
            }
            i += 1;
        }
        out.append(")");
        proof {
            reveal_strlit(")");
            assert(v.take(i as int) =~= v);
            assert(out@ =~= pretty_tuple(v));
        }
        out
    }
}

} // verus!
