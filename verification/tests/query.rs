use relly::btree::SearchMode;
use relly::disk::PageId;
use relly::query::{
    ExecFilter, FilterStep, IndexOnlyScan, IndexScan, SeqScan, Tuple, TupleSearchMode,
};
use relly::tuple::encode;
use std::collections::VecDeque;

fn enc(cols: &[&[u8]]) -> Vec<u8> {
    let mut out = vec![];
    encode(cols, &mut out);
    out
}

#[test]
fn search_mode_encodes_key_columns() {
    assert!(matches!(TupleSearchMode::Start.encode(), SearchMode::Start));
    let key: Vec<&[u8]> = vec![b"a", b"bc"];
    let expected = enc(&key);
    match TupleSearchMode::Key(&key).encode() {
        SearchMode::Key(k) => assert_eq!(k, expected),
        SearchMode::Start => panic!("expected a key"),
    }
}

#[test]
fn seq_scan_returns_rows_while_the_key_qualifies() {
    let start: Vec<&[u8]> = vec![b"k1"];
    let cond = |t: &[Vec<u8>]| t[0].as_slice() < b"k3".as_slice();
    let plan = SeqScan {
        table_meta_page_id: PageId(0),
        search_mode: TupleSearchMode::Key(&start),
        while_cond: &cond,
    };
    let (mode, exec) = plan.start();
    match mode {
        SearchMode::Key(k) => assert_eq!(k, enc(&start)),
        SearchMode::Start => panic!("expected a key"),
    }
    // Entries as the table's B+tree yields them, in key order.
    let entries = vec![
        (enc(&[b"k1"]), enc(&[b"v1", b"w1"])),
        (enc(&[b"k2"]), enc(&[b"v2", b"w2"])),
        (enc(&[b"k3"]), enc(&[b"v3", b"w3"])),
    ];
    let mut rows: Vec<Tuple> = vec![];
    for (k, v) in &entries {
        match exec.next(Some((k, v))) {
            Some(row) => rows.push(row),
            None => break,
        }
    }
    assert_eq!(
        rows,
        vec![
            vec![b"k1".to_vec(), b"v1".to_vec(), b"w1".to_vec()],
            vec![b"k2".to_vec(), b"v2".to_vec(), b"w2".to_vec()],
        ]
    );
    assert_eq!(exec.next(None), None);
}

#[test]
fn index_scan_looks_up_the_table_by_primary_key() {
    let cond = |t: &[Vec<u8>]| t[0] == b"red".to_vec();
    let plan = IndexScan {
        table_meta_page_id: PageId(0),
        index_meta_page_id: PageId(1),
        search_mode: TupleSearchMode::Start,
        while_cond: &cond,
    };
    let (mode, exec) = plan.start();
    assert!(matches!(mode, SearchMode::Start));
    let skey = enc(&[b"red"]);
    let pkey = enc(&[b"id7"]);
    match exec.next(Some((&skey, &pkey))) {
        Some(SearchMode::Key(k)) => assert_eq!(k, pkey),
        _ => panic!("expected a table lookup"),
    }
    let other = enc(&[b"blue"]);
    assert!(exec.next(Some((&other, &pkey))).is_none());
    assert!(exec.next(None).is_none());
    let rest = enc(&[b"apple", b"3"]);
    assert_eq!(
        exec.row((&pkey, &rest)),
        vec![b"id7".to_vec(), b"apple".to_vec(), b"3".to_vec()]
    );
}

#[test]
fn index_only_scan_returns_secondary_then_primary_key() {
    let cond = |_t: &[Vec<u8>]| true;
    let plan = IndexOnlyScan {
        index_meta_page_id: PageId(1),
        search_mode: TupleSearchMode::Start,
        while_cond: &cond,
    };
    let (_, exec) = plan.start();
    let skey = enc(&[b"m", b"n"]);
    let pkey = enc(&[b"p"]);
    assert_eq!(
        exec.next(Some((&skey, &pkey))),
        Some(vec![b"m".to_vec(), b"n".to_vec(), b"p".to_vec()])
    );
    let stop = |_t: &[Vec<u8>]| false;
    let plan = IndexOnlyScan {
        index_meta_page_id: PageId(1),
        search_mode: TupleSearchMode::Start,
        while_cond: &stop,
    };
    let (_, exec) = plan.start();
    assert_eq!(exec.next(Some((&skey, &pkey))), None);
}

#[test]
fn filter_passes_only_accepted_rows() {
    let even = |t: &[Vec<u8>]| t[0][0] % 2 == 0;
    let filter = ExecFilter::new(&even);
    let mut source = vec![vec![vec![1u8]], vec![vec![2u8]], vec![vec![3u8]], vec![vec![4u8]]]
        .into_iter();
    let mut out: Vec<Tuple> = vec![];
    loop {
        match filter.next(source.next()) {
            FilterStep::Emit(row) => out.push(row),
            FilterStep::Skip => continue,
            FilterStep::Done => break,
        }
    }
    assert_eq!(out, vec![vec![vec![2u8]], vec![vec![4u8]]]);
}

#[test]
fn filter_pulls_until_a_row_passes() {
    let even = |t: &[Vec<u8>]| t[0][0] % 2 == 0;
    let filter = ExecFilter::new(&even);
    let mut rows: VecDeque<Tuple> =
        vec![vec![vec![1u8]], vec![vec![3u8]], vec![vec![4u8]], vec![vec![5u8]]].into();
    assert_eq!(filter.next_from(&mut rows), Some(vec![vec![4u8]]));
    assert_eq!(rows.len(), 1);
    assert_eq!(filter.next_from(&mut rows), None);
    assert!(rows.is_empty());
}
