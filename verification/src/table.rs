use vstd::prelude::*;
use crate::disk::PageId;
use crate::tuple;
use crate::tuple::{elems_view, lemma_tuple_decode_encode, tuple_decode_spec, tuple_encode_spec};

verus! {

/// A table keyed by its first `num_key_elems` columns, stored in the B+tree
/// whose meta page is `meta_page_id`.
#[derive(Debug)]
pub struct SimpleTable {
    pub meta_page_id: PageId,
    pub num_key_elems: usize,
}

/// A table with a primary key and unique secondary indexes.
#[derive(Debug)]
pub struct Table {
    pub meta_page_id: PageId,
    pub num_key_elems: usize,
    pub unique_indices: Vec<UniqueIndex>,
}

/// A unique index on the columns `skey` of a table, mapping their values to
/// the primary key, stored in the B+tree whose meta page is `meta_page_id`.
#[derive(Debug)]
pub struct UniqueIndex {
    pub meta_page_id: PageId,
    pub skey: Vec<usize>,
}

/// The entry a record takes in a table keyed by its first `num_key_elems`
/// columns: the encoded key columns, and the encoded remaining columns.
pub open spec fn record_entry(record: Seq<&[u8]>, num_key_elems: int) -> (Seq<u8>, Seq<u8>) {
    (
        tuple_encode_spec(elems_view(record.take(num_key_elems))),
        tuple_encode_spec(elems_view(record.skip(num_key_elems))),
    )
}

/// Splits `record` at `num_key_elems` and encodes both parts: the B+tree key
/// and value that inserting the record stores.
fn encode_record(record: &[&[u8]], num_key_elems: usize) -> (r: (Vec<u8>, Vec<u8>))
    requires
        num_key_elems <= record@.len(),
    ensures
        (r.0@, r.1@) == record_entry(record@, num_key_elems as int),
{
    let mut key_elems: Vec<&[u8]> = Vec::new();
    let mut value_elems: Vec<&[u8]> = Vec::new();
    let mut i: usize = 0;
    while i < record.len()
        invariant
            num_key_elems <= record@.len(),
            i <= record@.len(),
            i <= num_key_elems ==> key_elems@ == record@.take(i as int) && value_elems@.len() == 0,
            i > num_key_elems ==> key_elems@ == record@.take(num_key_elems as int)
                && value_elems@ == record@.subrange(num_key_elems as int, i as int),
        decreases record@.len() - i,
    {
        if i < num_key_elems {
            key_elems.push(record[i]);
            assert(key_elems@ =~= record@.take(i + 1));
        } else {
            value_elems.push(record[i]);
            if i == num_key_elems {
                assert(value_elems@ =~= record@.subrange(num_key_elems as int, i + 1));
            } else {
                assert(value_elems@ =~= record@.subrange(num_key_elems as int, i + 1));
            }
        }
        i += 1;
    }
    if record.len() == num_key_elems {
        assert(value_elems@ =~= record@.skip(num_key_elems as int));
    } else {
        assert(value_elems@ =~= record@.skip(num_key_elems as int));
    }
    let mut key: Vec<u8> = Vec::new();
    tuple::encode(key_elems.as_slice(), &mut key);
    let mut value: Vec<u8> = Vec::new();
    tuple::encode(value_elems.as_slice(), &mut value);
    (key, value)
}

/// One B+tree insertion: the pair (`key`, `value`) into the tree whose meta
/// page is `meta_page_id`.
#[derive(Debug)]
pub struct Insertion {
    pub meta_page_id: PageId,
    pub key: Vec<u8>,
    pub value: Vec<u8>,
}

impl SimpleTable {
    /// What inserting `record` writes: its key columns and its other
    /// columns, each encoded as a tuple, into the table's B+tree.
    pub fn insertion(&self, record: &[&[u8]]) -> (r: Insertion)
        requires
            self.num_key_elems <= record@.len(),
        ensures
            r.meta_page_id == self.meta_page_id,
            (r.key@, r.value@) == record_entry(record@, self.num_key_elems as int),
    {
        let (key, value) = encode_record(record, self.num_key_elems);
        Insertion { meta_page_id: self.meta_page_id, key, value }
    }
}

/// The columns `skey` of `record`, in that order.
pub open spec fn select(record: Seq<&[u8]>, skey: Seq<usize>) -> Seq<Seq<u8>> {
    Seq::new(skey.len(), |j: int| record[skey[j] as int]@)
}

/// Every column that `skey` names is a column of `record`.
pub open spec fn selects_from(skey: Seq<usize>, record: Seq<&[u8]>) -> bool {
    forall|j: int| 0 <= j < skey.len() ==> #[trigger] skey[j] < record.len()
}

impl UniqueIndex {
    /// What inserting `record`, whose encoded primary key is `pkey`, writes
    /// into the index: its columns `skey` encoded as a tuple, mapped to
    /// `pkey`, into the index's B+tree.
    pub fn insertion(&self, pkey: &[u8], record: &[&[u8]]) -> (r: Insertion)
        requires
            selects_from(self.skey@, record@),
        ensures
            r.meta_page_id == self.meta_page_id,
            r.key@ == tuple_encode_spec(select(record@, self.skey@)),
            r.value@ == pkey@,
    {
        let mut elems: Vec<&[u8]> = Vec::new();
        let mut j: usize = 0;
        while j < self.skey.len()
            invariant
                j <= self.skey@.len(),
                selects_from(self.skey@, record@),
                elems@.len() == j,
                elems_view(elems@) == select(record@, self.skey@.take(j as int)),
            decreases self.skey@.len() - j,
        {
            let index = self.skey[j];
            let ghost before = elems@;
            elems.push(record[index]);
            assert forall|k: int| 0 <= k < j + 1 implies #[trigger] elems_view(elems@)[k] == select(
                record@,
                self.skey@.take(j + 1),
            )[k] by {
                if k < j {
                    assert(elems_view(before)[k] == select(record@, self.skey@.take(j as int))[k]);
                    assert(elems@[k] == before[k]);
                }
            }
            assert(elems_view(elems@) =~= select(record@, self.skey@.take(j + 1)));
            j += 1;
        }
        assert(self.skey@.take(j as int) =~= self.skey@);
        let mut key: Vec<u8> = Vec::new();
        tuple::encode(elems.as_slice(), &mut key);
        Insertion { meta_page_id: self.meta_page_id, key, value: vstd::slice::slice_to_vec(pkey) }
    }
}

/// A row read back from a table is the record that was inserted: the key
/// that an insertion writes decodes to exactly the first `num_key_elems`
/// columns and the value to exactly the others, which together are the whole
/// record. An index key decodes to one column per entry of `skey`, the
/// column that entry names, in order.
pub proof fn lemma_insertion_reads_back(record: Seq<&[u8]>, num_key_elems: int, skey: Seq<usize>)
    requires
        0 <= num_key_elems <= record.len(),
        selects_from(skey, record),
    ensures
        ({
            let (key, value) = record_entry(record, num_key_elems);
            &&& tuple_decode_spec(key) is Some
            &&& tuple_decode_spec(value) is Some
            &&& tuple_decode_spec(key).unwrap() + tuple_decode_spec(value).unwrap() == elems_view(record)
            &&& tuple_decode_spec(tuple_encode_spec(select(record, skey))) == Some(select(record, skey))
        }),
        tuple_decode_spec(record_entry(record, num_key_elems).0).unwrap().len() == num_key_elems,
        forall|i: int|
            0 <= i < num_key_elems ==> #[trigger] tuple_decode_spec(record_entry(record, num_key_elems).0).unwrap()[i]
                == record[i]@,
        tuple_decode_spec(record_entry(record, num_key_elems).1).unwrap().len() == record.len()
            - num_key_elems,
        forall|i: int|
            0 <= i < record.len() - num_key_elems ==> #[trigger] tuple_decode_spec(
                record_entry(record, num_key_elems).1,
            ).unwrap()[i] == record[num_key_elems + i]@,
        tuple_decode_spec(tuple_encode_spec(select(record, skey))).unwrap().len() == skey.len(),
        forall|j: int|
            0 <= j < skey.len() ==> #[trigger] tuple_decode_spec(tuple_encode_spec(select(record, skey))).unwrap()[j]
                == record[skey[j] as int]@,
{
    let k = elems_view(record.take(num_key_elems));
    let v = elems_view(record.skip(num_key_elems));
    lemma_tuple_decode_encode(k);
    lemma_tuple_decode_encode(v);
    lemma_tuple_decode_encode(select(record, skey));
    assert(k + v =~= elems_view(record));
}

impl Table {
    /// What inserting `record` writes, in order: into the table's B+tree,
    /// its key columns and its other columns, each encoded as a tuple; then
    /// into each unique index, the index's columns encoded as a tuple,
    /// mapped to the encoded key columns.
    pub fn insertions(&self, record: &[&[u8]]) -> (r: Vec<Insertion>)
        requires
            self.num_key_elems <= record@.len(),
            forall|i: int| 0 <= i < self.unique_indices@.len() ==> selects_from(
                #[trigger] self.unique_indices@[i].skey@,
                record@,
            ),
        ensures
            r@.len() == self.unique_indices@.len() + 1,
            r@[0].meta_page_id == self.meta_page_id,
            (r@[0].key@, r@[0].value@) == record_entry(record@, self.num_key_elems as int),
            forall|i: int|
                0 <= i < self.unique_indices@.len() ==> {
                    let x = #[trigger] r@[i + 1];
                    let index = self.unique_indices@[i];
                    &&& x.meta_page_id == index.meta_page_id
                    &&& x.key@ == tuple_encode_spec(select(record@, index.skey@))
                    &&& x.value@ == record_entry(record@, self.num_key_elems as int).0
                },
    {
        let (key, value) = encode_record(record, self.num_key_elems);
        let mut r: Vec<Insertion> = Vec::new();
        let mut i: usize = 0;
        let ghost pkey = key@;
        let first = Insertion { meta_page_id: self.meta_page_id, key: vstd::slice::slice_to_vec(key.as_slice()), value };
        r.push(first);
        while i < self.unique_indices.len()
            invariant
                i <= self.unique_indices@.len(),
                r@.len() == i + 1,
                key@ == pkey,
                pkey == record_entry(record@, self.num_key_elems as int).0,
                r@[0].meta_page_id == self.meta_page_id,
                (r@[0].key@, r@[0].value@) == record_entry(record@, self.num_key_elems as int),
                forall|k: int| 0 <= k < self.unique_indices@.len() ==> selects_from(
                    #[trigger] self.unique_indices@[k].skey@,
                    record@,
                ),
                forall|k: int|
                    0 <= k < i ==> {
                        let x = #[trigger] r@[k + 1];
                        let index = self.unique_indices@[k];
                        &&& x.meta_page_id == index.meta_page_id
                        &&& x.key@ == tuple_encode_spec(select(record@, index.skey@))
                        &&& x.value@ == pkey
                    },
            decreases self.unique_indices@.len() - i,
        {
            let x = self.unique_indices[i].insertion(key.as_slice(), record);
            let ghost before = r@;
            r.push(x);
            assert forall|k: int| 0 <= k < i + 1 implies {
                let x = #[trigger] r@[k + 1];
                let index = self.unique_indices@[k];
                &&& x.meta_page_id == index.meta_page_id
                &&& x.key@ == tuple_encode_spec(select(record@, index.skey@))
                &&& x.value@ == pkey
            } by {
                if k < i {
                    assert(r@[k + 1] == before[k + 1]);
                }
            }
            i += 1;
        }
        r
    }
}

} // verus!
