use relly::btree::meta::{Header as MetaHeader, Meta};
use relly::btree::node::{Body, Node, NODE_TYPE_BRANCH, NODE_TYPE_LEAF};
use relly::disk::PageId;

#[test]
fn meta_root_page_id_roundtrip() {
    let mut page = vec![0xaau8; 64];
    let mut meta = Meta::new(page.as_mut_slice());
    meta.set_header(MetaHeader { root_page_id: PageId(77) });
    assert_eq!(meta.header().root_page_id, PageId(77));
    drop(meta);
    assert_eq!(&page[..8], &[77, 0, 0, 0, 0, 0, 0, 0]);
    assert!(page[8..].iter().all(|&b| b == 0xaa));
}

#[test]
fn node_tags() {
    let mut page = vec![0u8; 32];
    let mut node = Node::new(page.as_mut_slice());
    node.initialize_as_leaf();
    assert_eq!(node.header().node_type, *b"LEAF    ");
    node.initialize_as_branch();
    assert_eq!(node.header().node_type, *b"BRANCH  ");
    assert_eq!(NODE_TYPE_LEAF, *b"LEAF    ");
    assert_eq!(NODE_TYPE_BRANCH, *b"BRANCH  ");
    let mut body = vec![1u8, 2, 3];
    match Body::new(NODE_TYPE_LEAF, body.as_mut_slice()) {
        Body::Leaf(b) => assert_eq!(b, &[1, 2, 3]),
        Body::Branch(_) => panic!("expected a leaf"),
    }
    match Body::new(NODE_TYPE_BRANCH, body.as_mut_slice()) {
        Body::Branch(b) => assert_eq!(b, &[1, 2, 3]),
        Body::Leaf(_) => panic!("expected a branch"),
    }
}
