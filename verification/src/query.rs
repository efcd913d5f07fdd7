use vstd::prelude::*;
use crate::btree::SearchMode;
use crate::disk::PageId;
use crate::tuple;
use crate::tuple::{elems_view, lemma_tuple_decode_encode, tuple_decode_spec, tuple_encode_spec, vecs_view};
use std::collections::VecDeque;

verus! {

/// A row: one byte string per column.
pub type Tuple = Vec<Vec<u8>>;

/// Where a scan starts: at the first row, or at the first row whose key is
/// at least the given columns.
pub enum TupleSearchMode<'a> {
    Start,
    Key(&'a [&'a [u8]]),
}

/// `r` is the B+tree search mode for `mode`: the start, or the key columns
/// encoded as a tuple.
pub open spec fn encodes_to(mode: TupleSearchMode, r: SearchMode) -> bool {
    match (mode, r) {
        (TupleSearchMode::Start, SearchMode::Start) => true,
        (TupleSearchMode::Key(t), SearchMode::Key(k)) => k@ == tuple_encode_spec(elems_view(t@)),
        _ => false,
    }
}

/// A scan from a key starts at the key it was asked for: the search key
/// decodes to exactly the given columns, every one whole and in order.
pub proof fn lemma_search_key_decodes(mode: TupleSearchMode, r: SearchMode)
    requires
        encodes_to(mode, r),
    ensures
        mode is Start <==> r is Start,
        mode matches TupleSearchMode::Key(t) ==> r matches SearchMode::Key(k) && tuple_decode_spec(k@)
            is Some && tuple_decode_spec(k@).unwrap().len() == t@.len() && forall|i: int|
            0 <= i < t@.len() ==> #[trigger] tuple_decode_spec(k@).unwrap()[i] == t@[i]@,
{
    if let TupleSearchMode::Key(t) = mode {
        lemma_tuple_decode_encode(elems_view(t@));
    }
}

impl<'a> TupleSearchMode<'a> {
    /// The B+tree search mode: the key columns encoded as a tuple.
    pub fn encode(&self) -> (r: SearchMode)
        ensures
            encodes_to(*self, r),
    {
        match self {
            TupleSearchMode::Start => SearchMode::Start,
            TupleSearchMode::Key(t) => {
                let mut key: Vec<u8> = Vec::new();
                tuple::encode(t, &mut key);
                SearchMode::Key(key)
            },
        }
    }
}

/// `cond` may return `b` for a row whose columns are `key`.
pub open spec fn answers<F: Fn(&[Vec<u8>]) -> bool>(cond: F, key: Seq<Seq<u8>>, b: bool) -> bool {
    exists|t: &[Vec<u8>]| vecs_view(t@) == key && call_ensures(cond, (t,), b)
}

/// What a scan returns for a B+tree entry whose key bytes decode to `key`
/// and whose value bytes decode to `value`: nothing, ending the scan, where
/// `cond` rejects the key columns, and otherwise the key columns followed by
/// the value columns.
pub open spec fn scan_result<F: Fn(&[Vec<u8>]) -> bool>(
    cond: F,
    key: Seq<Seq<u8>>,
    value: Seq<Seq<u8>>,
    r: Option<Tuple>,
) -> bool {
    match r {
        None => answers(cond, key, false),
        Some(row) => answers(cond, key, true) && vecs_view(row@) == key + value,
    }
}

/// `entry`, a pair of key and value bytes, holds two encoded tuples.
pub open spec fn decodable(entry: (&[u8], &[u8])) -> bool {
    tuple_decode_spec(entry.0@) is Some && tuple_decode_spec(entry.1@) is Some
}

/// Decodes the key columns of `key_bytes` and asks `cond` about them.
fn check_key<F: Fn(&[Vec<u8>]) -> bool>(key_bytes: &[u8], cond: &F) -> (r: bool)
    requires
        tuple_decode_spec(key_bytes@) is Some,
        forall|t: &[Vec<u8>]| call_requires(*cond, (t,)),
    ensures
        answers(*cond, tuple_decode_spec(key_bytes@).unwrap(), r),
{
    let mut key: Tuple = Vec::new();
    tuple::decode(key_bytes, &mut key);
    proof {
        assert(vecs_view(Seq::<Vec<u8>>::empty()) =~= Seq::<Seq<u8>>::empty());
        assert(vecs_view(key@) =~= tuple_decode_spec(key_bytes@).unwrap());
    }
    let t = key.as_slice();
    let b = cond(t);
    proof {
        assert(vecs_view(t@) == tuple_decode_spec(key_bytes@).unwrap());
        assert(call_ensures(*cond, (t,), b));
    }
    b
}

/// Turns one B+tree entry into a row: decodes the key columns, ends the scan
/// (`None`) where `cond` rejects them, and otherwise returns them followed
/// by the decoded value columns.
fn scan_entry<F: Fn(&[Vec<u8>]) -> bool>(key_bytes: &[u8], value_bytes: &[u8], cond: &F) -> (r: Option<Tuple>)
    requires
        tuple_decode_spec(key_bytes@) is Some,
        tuple_decode_spec(value_bytes@) is Some,
        forall|t: &[Vec<u8>]| call_requires(*cond, (t,)),
    ensures
        scan_result(*cond, tuple_decode_spec(key_bytes@).unwrap(), tuple_decode_spec(value_bytes@).unwrap(), r),
{
    let mut row: Tuple = Vec::new();
    tuple::decode(key_bytes, &mut row);
    proof {
        assert(vecs_view(Seq::<Vec<u8>>::empty()) =~= Seq::<Seq<u8>>::empty());
        assert(vecs_view(row@) =~= tuple_decode_spec(key_bytes@).unwrap());
    }
    let keep = cond(row.as_slice());
    if !keep {
        return None;
    }
    tuple::decode(value_bytes, &mut row);
    Some(row)
}

/// A scan of a table's B+tree from `search_mode` on, for as long as
/// `while_cond` accepts the primary key columns.
pub struct SeqScan<'a, F: Fn(&[Vec<u8>]) -> bool> {
    pub table_meta_page_id: PageId,
    pub search_mode: TupleSearchMode<'a>,
    pub while_cond: &'a F,
}

/// A running table scan. The B+tree iterator that feeds it stays with the
/// caller, which hands each entry it yields to `next`.
pub struct ExecSeqScan<'a, F: Fn(&[Vec<u8>]) -> bool> {
    while_cond: &'a F,
}

impl<'a, F: Fn(&[Vec<u8>]) -> bool> SeqScan<'a, F> {
    /// Starts the scan: the search to run on the table's B+tree (whose meta
    /// page is `table_meta_page_id`), and the executor for its entries.
    pub fn start(&self) -> (r: (SearchMode, ExecSeqScan<'a, F>))
        ensures
            encodes_to(self.search_mode, r.0),
            r.1.cond() == *self.while_cond,
    {
        (self.search_mode.encode(), ExecSeqScan { while_cond: self.while_cond })
    }
}

impl<'a, F: Fn(&[Vec<u8>]) -> bool> ExecSeqScan<'a, F> {
    /// The condition that keeps the scan going.
    pub closed spec fn cond(&self) -> F {
        *self.while_cond
    }

    /// The next row, given the next entry of the table's B+tree (`None` when
    /// it has no more): the primary key columns followed by the other
    /// columns, or `None`, ending the scan, where the entries ran out or
    /// `while_cond` rejects the primary key columns.
    pub fn next(&self, entry: Option<(&[u8], &[u8])>) -> (r: Option<Tuple>)
        requires
            entry matches Some(e) ==> decodable(e),
            forall|t: &[Vec<u8>]| call_requires(self.cond(), (t,)),
        ensures
            entry is None ==> r is None,
            entry matches Some(e) ==> scan_result(
                self.cond(),
                tuple_decode_spec(e.0@).unwrap(),
                tuple_decode_spec(e.1@).unwrap(),
                r,
            ),
    {
        proof {
            assert forall|t: &[Vec<u8>]| call_requires(*self.while_cond, (t,)) by {
                assert(call_requires(self.cond(), (t,)));
            }
        }
        match entry {
            None => None,
            Some((key_bytes, value_bytes)) => scan_entry(key_bytes, value_bytes, self.while_cond),
        }
    }
}

/// A filter over the rows of another plan: only rows that `cond` accepts
/// pass.
pub struct ExecFilter<'a, F: Fn(&[Vec<u8>]) -> bool> {
    cond: &'a F,
}

/// What a filter does with the row it pulled from the plan below.
pub enum FilterStep {
    /// The row passes: return it.
    Emit(Tuple),
    /// The row is rejected: pull the next one.
    Skip,
    /// The plan below has no more rows: the filter has none either.
    Done,
}

impl<'a, F: Fn(&[Vec<u8>]) -> bool> ExecFilter<'a, F> {
    /// A filter that passes the rows `cond` accepts.
    pub fn new(cond: &'a F) -> (r: Self)
        ensures
            r.cond() == *cond,
    {
        ExecFilter { cond }
    }

    /// The condition rows must meet.
    pub closed spec fn cond(&self) -> F {
        *self.cond
    }

    /// One turn of the filter, given the row pulled from the plan below
    /// (`None` when it has no more): the row where `cond` accepts it, a skip
    /// where it rejects it, the end where the rows ran out.
    pub fn next(&self, pulled: Option<Tuple>) -> (r: FilterStep)
        requires
            forall|t: &[Vec<u8>]| call_requires(self.cond(), (t,)),
        ensures
            pulled is None <==> r is Done,
            pulled matches Some(row) ==> match r {
                FilterStep::Emit(out) => out == row && answers(self.cond(), vecs_view(row@), true),
                FilterStep::Skip => answers(self.cond(), vecs_view(row@), false),
                FilterStep::Done => false,
            },
    {
        proof {
            assert forall|t: &[Vec<u8>]| call_requires(*self.cond, (t,)) by {
                assert(call_requires(self.cond(), (t,)));
            }
        }
        match pulled {
            None => FilterStep::Done,
            Some(row) => {
                let t = row.as_slice();
                let keep = (self.cond)(t);
                proof {
                    assert(vecs_view(t@) == vecs_view(row@));
                    assert(call_ensures(self.cond(), (t,), keep));
                }
                if keep {
                    FilterStep::Emit(row)
                } else {
                    FilterStep::Skip
                }
            },
        }
    }
}

impl<'a, F: Fn(&[Vec<u8>]) -> bool> ExecFilter<'a, F> {
    /// The filter's next row, pulled from `rows`, the rows the plan below
    /// still yields, in order: rows are taken from the front until one that
    /// `cond` accepts, which is returned; `None` where none is left. Every
    /// row taken before it was rejected.
    pub fn next_from(&self, rows: &mut VecDeque<Tuple>) -> (r: Option<Tuple>)
        requires
            forall|t: &[Vec<u8>]| call_requires(self.cond(), (t,)),
        ensures
            ({
                let before = old(rows)@;
                let used = before.len() - final(rows)@.len();
                &&& final(rows)@.len() <= before.len()
                &&& final(rows)@ == before.skip(used)
                &&& match r {
                    None => final(rows)@.len() == 0 && forall|j: int|
                        0 <= j < before.len() ==> answers(self.cond(), vecs_view(#[trigger] before[j]@), false),
                    Some(row) => {
                        &&& used > 0
                        &&& row == before[used - 1]
                        &&& answers(self.cond(), vecs_view(row@), true)
                        &&& forall|j: int|
                            0 <= j < used - 1 ==> answers(self.cond(), vecs_view(#[trigger] before[j]@), false)
                    },
                }
            }),
    {
        let ghost before = rows@;
        proof {
            assert(before.skip(0) =~= before);
        }
        loop
            invariant
                forall|t: &[Vec<u8>]| call_requires(self.cond(), (t,)),
                before == old(rows)@,
                rows@.len() <= before.len(),
                rows@ == before.skip(before.len() - rows@.len()),
                forall|j: int|
                    0 <= j < before.len() - rows@.len() ==> answers(self.cond(), vecs_view(#[trigger] before[j]@), false),
            decreases rows@.len(),
        {
            let ghost used = before.len() - rows@.len();
            let ghost prev = rows@;
            let pulled = rows.pop_front();
            proof {
                if prev.len() > 0 {
                    assert(prev[0] == before[used]);
                    assert(rows@ =~= before.skip(used + 1));
                }
            }
            match self.next(pulled) {
                FilterStep::Emit(row) => {
                    return Some(row);
                },
                FilterStep::Skip => {},
                FilterStep::Done => {
                    return None;
                },
            }
        }
    }
}

/// A scan of a unique index from `search_mode` on, for as long as
/// `while_cond` accepts the secondary key columns, returning the table's
/// rows.
pub struct IndexScan<'a, F: Fn(&[Vec<u8>]) -> bool> {
    pub table_meta_page_id: PageId,
    pub index_meta_page_id: PageId,
    pub search_mode: TupleSearchMode<'a>,
    pub while_cond: &'a F,
}

/// A running index scan. The index iterator that feeds it, and the table
/// lookups it asks for, stay with the caller.
pub struct ExecIndexScan<'a, F: Fn(&[Vec<u8>]) -> bool> {
    while_cond: &'a F,
}

impl<'a, F: Fn(&[Vec<u8>]) -> bool> IndexScan<'a, F> {
    /// Starts the scan: the search to run on the index's B+tree (whose meta
    /// page is `index_meta_page_id`), and the executor for its entries.
    pub fn start(&self) -> (r: (SearchMode, ExecIndexScan<'a, F>))
        ensures
            encodes_to(self.search_mode, r.0),
            r.1.cond() == *self.while_cond,
    {
        (self.search_mode.encode(), ExecIndexScan { while_cond: self.while_cond })
    }
}

impl<'a, F: Fn(&[Vec<u8>]) -> bool> ExecIndexScan<'a, F> {
    /// The condition that keeps the scan going.
    pub closed spec fn cond(&self) -> F {
        *self.while_cond
    }

    /// Given the next index entry (secondary key, primary key), `None` when
    /// the index has no more: the search that finds the row in the table's
    /// B+tree, or `None`, ending the scan, where the entries ran out or
    /// `while_cond` rejects the secondary key columns.
    pub fn next(&self, entry: Option<(&[u8], &[u8])>) -> (r: Option<SearchMode>)
        requires
            entry matches Some(e) ==> tuple_decode_spec(e.0@) is Some,
            forall|t: &[Vec<u8>]| call_requires(self.cond(), (t,)),
        ensures
            entry is None ==> r is None,
            entry matches Some(e) ==> answers(self.cond(), tuple_decode_spec(e.0@).unwrap(), r is Some),
            entry matches Some(e) ==> (r matches Some(m) ==> m matches SearchMode::Key(k) && k@ == e.1@),
    {
        proof {
            assert forall|t: &[Vec<u8>]| call_requires(*self.while_cond, (t,)) by {
                assert(call_requires(self.cond(), (t,)));
            }
        }
        match entry {
            None => None,
            Some((skey_bytes, pkey_bytes)) => {
                let keep = check_key(skey_bytes, self.while_cond);
                if !keep {
                    return None;
                }
                Some(SearchMode::Key(vstd::slice::slice_to_vec(pkey_bytes)))
            },
        }
    }

    /// The row for the table entry (primary key, other columns) that the
    /// search returned: the primary key columns followed by the others.
    pub fn row(&self, table_entry: (&[u8], &[u8])) -> (r: Tuple)
        requires
            decodable(table_entry),
        ensures
            vecs_view(r@) == tuple_decode_spec(table_entry.0@).unwrap() + tuple_decode_spec(
                table_entry.1@,
            ).unwrap(),
    {
        let (pkey_bytes, tuple_bytes) = table_entry;
        let mut row: Tuple = Vec::new();
        tuple::decode(pkey_bytes, &mut row);
        proof {
            assert(vecs_view(Seq::<Vec<u8>>::empty()) =~= Seq::<Seq<u8>>::empty());
            assert(vecs_view(row@) =~= tuple_decode_spec(pkey_bytes@).unwrap());
        }
        tuple::decode(tuple_bytes, &mut row);
        row
    }
}

/// A scan of a unique index from `search_mode` on, for as long as
/// `while_cond` accepts the secondary key columns, returning the secondary
/// key columns followed by the primary key columns.
pub struct IndexOnlyScan<'a, F: Fn(&[Vec<u8>]) -> bool> {
    pub index_meta_page_id: PageId,
    pub search_mode: TupleSearchMode<'a>,
    pub while_cond: &'a F,
}

/// A running index-only scan. The index iterator that feeds it stays with
/// the caller, which hands each entry it yields to `next`.
pub struct ExecIndexOnlyScan<'a, F: Fn(&[Vec<u8>]) -> bool> {
    while_cond: &'a F,
}

impl<'a, F: Fn(&[Vec<u8>]) -> bool> IndexOnlyScan<'a, F> {
    /// Starts the scan: the search to run on the index's B+tree (whose meta
    /// page is `index_meta_page_id`), and the executor for its entries.
    pub fn start(&self) -> (r: (SearchMode, ExecIndexOnlyScan<'a, F>))
        ensures
            encodes_to(self.search_mode, r.0),
            r.1.cond() == *self.while_cond,
    {
        (self.search_mode.encode(), ExecIndexOnlyScan { while_cond: self.while_cond })
    }
}

impl<'a, F: Fn(&[Vec<u8>]) -> bool> ExecIndexOnlyScan<'a, F> {
    /// The condition that keeps the scan going.
    pub closed spec fn cond(&self) -> F {
        *self.while_cond
    }

    /// The next row, given the next index entry (secondary key, primary key),
    /// `None` when the index has no more: the secondary key columns followed
    /// by the primary key columns, or `None`, ending the scan, where the
    /// entries ran out or `while_cond` rejects the secondary key columns.
    pub fn next(&self, entry: Option<(&[u8], &[u8])>) -> (r: Option<Tuple>)
        requires
            entry matches Some(e) ==> decodable(e),
            forall|t: &[Vec<u8>]| call_requires(self.cond(), (t,)),
        ensures
            entry is None ==> r is None,
            entry matches Some(e) ==> scan_result(
                self.cond(),
                tuple_decode_spec(e.0@).unwrap(),
                tuple_decode_spec(e.1@).unwrap(),
                r,
            ),
    {
        proof {
            assert forall|t: &[Vec<u8>]| call_requires(*self.while_cond, (t,)) by {
                assert(call_requires(self.cond(), (t,)));
            }
        }
        match entry {
            None => None,
            Some((skey_bytes, pkey_bytes)) => scan_entry(skey_bytes, pkey_bytes, self.while_cond),
        }
    }
}

} // verus!
