use relly::disk::PageId;
use relly::table::{SimpleTable, Table, UniqueIndex};
use relly::tuple::{decode, encode};

fn dec(bytes: &[u8]) -> Vec<Vec<u8>> {
    let mut out = vec![];
    decode(bytes, &mut out);
    out
}

fn enc(cols: &[&[u8]]) -> Vec<u8> {
    let mut out = vec![];
    encode(cols, &mut out);
    out
}

#[test]
fn simple_table_insertion_splits_key_and_value() {
    let table = SimpleTable { meta_page_id: PageId(3), num_key_elems: 1 };
    let record: Vec<&[u8]> = vec![b"z", b"Alice", b"Smith"];
    let ins = table.insertion(&record);
    assert_eq!(ins.meta_page_id, PageId(3));
    assert_eq!(dec(&ins.key), vec![b"z".to_vec()]);
    assert_eq!(dec(&ins.value), vec![b"Alice".to_vec(), b"Smith".to_vec()]);
    // Read back, the key and value columns make the record again.
    let mut row = dec(&ins.key);
    decode(&ins.value, &mut row);
    let expected: Vec<Vec<u8>> = record.iter().map(|c| c.to_vec()).collect();
    assert_eq!(row, expected);
}

#[test]
fn unique_index_insertion_selects_columns() {
    let index = UniqueIndex { meta_page_id: PageId(1), skey: vec![2, 0] };
    let record: Vec<&[u8]> = vec![b"z", b"Alice", b"Smith"];
    let pkey = enc(&[b"z"]);
    let ins = index.insertion(&pkey, &record);
    assert_eq!(ins.meta_page_id, PageId(1));
    assert_eq!(ins.key, enc(&[b"Smith", b"z"]));
    assert_eq!(ins.value, pkey);
}

#[test]
fn table_insertions_cover_table_then_each_index() {
    let table = Table {
        meta_page_id: PageId(2),
        num_key_elems: 1,
        unique_indices: vec![
            UniqueIndex { meta_page_id: PageId(5), skey: vec![2, 1] },
            UniqueIndex { meta_page_id: PageId(6), skey: vec![1] },
        ],
    };
    let record: Vec<&[u8]> = vec![b"z", b"Alice", b"Smith"];
    let all = table.insertions(&record);
    assert_eq!(all.len(), 3);
    assert_eq!(all[0].meta_page_id, PageId(2));
    assert_eq!(all[0].key, enc(&[b"z"]));
    assert_eq!(all[0].value, enc(&[b"Alice", b"Smith"]));
    assert_eq!(all[1].meta_page_id, PageId(5));
    assert_eq!(all[1].key, enc(&[b"Smith", b"Alice"]));
    assert_eq!(all[1].value, enc(&[b"z"]));
    assert_eq!(all[2].meta_page_id, PageId(6));
    assert_eq!(all[2].key, enc(&[b"Alice"]));
    assert_eq!(all[2].value, enc(&[b"z"]));
}

#[test]
fn table_with_whole_record_as_key_has_empty_value() {
    let table = Table { meta_page_id: PageId(2), num_key_elems: 3, unique_indices: vec![] };
    let record: Vec<&[u8]> = vec![b"a", b"b", b"c"];
    let all = table.insertions(&record);
    assert_eq!(all.len(), 1);
    assert_eq!(dec(&all[0].key).len(), 3);
    assert!(all[0].value.is_empty());
}
