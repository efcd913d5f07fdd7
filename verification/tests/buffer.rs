use relly::buffer::{BufferId, BufferPool, BufferPoolManager, Error, Fetched};
use relly::disk::{PageId, PAGE_SIZE};

/// Pages kept in memory in place of the heap file.
#[derive(Default)]
struct MemDisk {
    pages: Vec<Vec<u8>>,
}

impl MemDisk {
    fn allocate(&mut self) -> PageId {
        self.pages.push(vec![0; PAGE_SIZE]);
        PageId(self.pages.len() as u64 - 1)
    }

    fn read(&self, page_id: PageId) -> Vec<u8> {
        self.pages[page_id.0 as usize].clone()
    }

    fn write(&mut self, page_id: PageId, data: &[u8]) {
        self.pages[page_id.0 as usize].copy_from_slice(data);
    }
}

fn fetch(bufmgr: &mut BufferPoolManager, disk: &mut MemDisk, page_id: PageId) -> Result<BufferId, Error> {
    match bufmgr.fetch_page(page_id)? {
        Fetched::Hit(b) => Ok(b),
        Fetched::Miss(ev) => {
            if ev.write_back {
                let data = bufmgr.buffer(ev.buffer_id).page.clone();
                disk.write(ev.evicted, &data);
            }
            let data = disk.read(page_id);
            Ok(bufmgr.install_page(ev, page_id, &data))
        }
    }
}

fn create(bufmgr: &mut BufferPoolManager, disk: &mut MemDisk) -> Result<BufferId, Error> {
    let ev = bufmgr.create_page()?;
    if ev.write_back {
        let data = bufmgr.buffer(ev.buffer_id).page.clone();
        disk.write(ev.evicted, &data);
    }
    let page_id = disk.allocate();
    Ok(bufmgr.install_new_page(ev, page_id))
}

#[test]
fn buffer_test() {
    let mut hello = Vec::with_capacity(PAGE_SIZE);
    hello.extend_from_slice(b"hello");
    hello.resize(PAGE_SIZE, 0);
    let mut world = Vec::with_capacity(PAGE_SIZE);
    world.extend_from_slice(b"world");
    world.resize(PAGE_SIZE, 0);

    let mut disk = MemDisk::default();
    let pool = BufferPool::new(1);
    let mut bufmgr = BufferPoolManager::new(pool);
    let page1_id = {
        let buffer = create(&mut bufmgr, &mut disk).unwrap();
        assert!(create(&mut bufmgr, &mut disk).is_err());
        bufmgr.write_page(buffer, 0, &hello);
        bufmgr.set_dirty(buffer, true);
        let page_id = bufmgr.buffer(buffer).page_id;
        bufmgr.release(buffer);
        page_id
    };
    {
        let buffer = fetch(&mut bufmgr, &mut disk, page1_id).unwrap();
        assert_eq!(&hello, &bufmgr.buffer(buffer).page);
        bufmgr.release(buffer);
    }
    let page2_id = {
        let buffer = create(&mut bufmgr, &mut disk).unwrap();
        bufmgr.write_page(buffer, 0, &world);
        bufmgr.set_dirty(buffer, true);
        let page_id = bufmgr.buffer(buffer).page_id;
        bufmgr.release(buffer);
        page_id
    };
    {
        let buffer = fetch(&mut bufmgr, &mut disk, page1_id).unwrap();
        assert_eq!(&hello, &bufmgr.buffer(buffer).page);
        bufmgr.release(buffer);
    }
    {
        let buffer = fetch(&mut bufmgr, &mut disk, page2_id).unwrap();
        assert_eq!(&world, &bufmgr.buffer(buffer).page);
        bufmgr.release(buffer);
    }
}

#[test]
fn buffer_hit_pins_and_sweep_skips_pinned() {
    let mut disk = MemDisk::default();
    let mut bufmgr = BufferPoolManager::new(BufferPool::new(2));
    let a = create(&mut bufmgr, &mut disk).unwrap();
    let b = create(&mut bufmgr, &mut disk).unwrap();
    assert_ne!(a, b);
    let pa = bufmgr.buffer(a).page_id;
    // Both frames pinned: no room for a third page.
    assert!(matches!(create(&mut bufmgr, &mut disk), Err(Error::NoFreeBuffer)));
    bufmgr.release(b);
    // Only the unpinned frame can be taken.
    let c = create(&mut bufmgr, &mut disk).unwrap();
    assert_eq!(c, b);
    // The pinned page is still resident: a hit on the same frame.
    match bufmgr.fetch_page(pa).unwrap() {
        Fetched::Hit(f) => assert_eq!(f, a),
        Fetched::Miss(_) => panic!("expected a hit"),
    }
}

#[test]
fn buffer_new_page_is_dirty_zeros_and_written_back() {
    let mut disk = MemDisk::default();
    let mut bufmgr = BufferPoolManager::new(BufferPool::new(1));
    let a = create(&mut bufmgr, &mut disk).unwrap();
    assert!(bufmgr.buffer(a).is_dirty);
    assert!(bufmgr.buffer(a).page.iter().all(|&x| x == 0));
    bufmgr.write_page(a, 10, b"abc");
    let pa = bufmgr.buffer(a).page_id;
    bufmgr.release(a);
    let ev = bufmgr.create_page().unwrap();
    assert!(ev.write_back);
    assert_eq!(ev.evicted, pa);
    assert_eq!(&bufmgr.buffer(ev.buffer_id).page[10..13], b"abc");
    // The frame took no page yet, so it still holds the dirty page.
    let pages = bufmgr.dirty_pages();
    assert_eq!(pages.len(), 1);
    assert_eq!(pages[0].0, pa);
    bufmgr.install_new_page(ev, PageId(7));
    let pages = bufmgr.dirty_pages();
    assert_eq!(pages, vec![(PageId(7), ev.buffer_id)]);
}

#[test]
fn buffer_clock_sweep_spares_recently_used_pages() {
    let mut disk = MemDisk::default();
    let mut bufmgr = BufferPoolManager::new(BufferPool::new(3));
    let mut ids = vec![];
    for _ in 0..3 {
        let f = create(&mut bufmgr, &mut disk).unwrap();
        ids.push(bufmgr.buffer(f).page_id);
        bufmgr.release(f);
    }
    // Page 0 is used again; page 1 has gone longest without use.
    let f = fetch(&mut bufmgr, &mut disk, ids[0]).unwrap();
    bufmgr.release(f);
    let ev = bufmgr.create_page().unwrap();
    assert_eq!(ev.evicted, ids[1]);
    assert!(ev.write_back);
    assert_eq!(ev.buffer_id.index(), 1);
}

#[test]
fn buffer_flush_cleans_pages_and_keeps_content() {
    let mut disk = MemDisk::default();
    let mut bufmgr = BufferPoolManager::new(BufferPool::new(2));
    let a = create(&mut bufmgr, &mut disk).unwrap();
    bufmgr.write_page(a, 0, b"abc");
    let pa = bufmgr.buffer(a).page_id;
    bufmgr.release(a);
    for (page_id, buffer_id) in bufmgr.dirty_pages() {
        let data = bufmgr.buffer(buffer_id).page.clone();
        disk.write(page_id, &data);
        bufmgr.set_dirty(buffer_id, false);
    }
    assert!(bufmgr.dirty_pages().is_empty());
    assert_eq!(&disk.read(pa)[..3], b"abc");
    // A clean page leaves without a write-back and reads back the same.
    let b = create(&mut bufmgr, &mut disk).unwrap();
    bufmgr.release(b);
    let ev = bufmgr.create_page().unwrap();
    assert_eq!(ev.evicted, pa);
    assert!(!ev.write_back);
    let c = bufmgr.install_new_page(ev, disk.allocate());
    bufmgr.release(c);
    let f = fetch(&mut bufmgr, &mut disk, pa).unwrap();
    assert_eq!(&bufmgr.buffer(f).page[..3], b"abc");
}

#[test]
fn buffer_pool_of_no_frames() {
    let bufmgr = BufferPoolManager::new(BufferPool::new(0));
    assert_eq!(bufmgr.pool_size(), 0);
    assert!(bufmgr.dirty_pages().is_empty());
    assert!(bufmgr.lookup(PageId(0)).is_none());
}

#[test]
fn buffer_table_lists_exactly_the_resident_pages() {
    let mut disk = MemDisk::default();
    let mut bufmgr = BufferPoolManager::new(BufferPool::new(2));
    let mut ids = vec![];
    for _ in 0..3 {
        let f = create(&mut bufmgr, &mut disk).unwrap();
        ids.push(bufmgr.buffer(f).page_id);
        bufmgr.release(f);
    }
    // The first page was evicted; the other two are resident, each in the
    // frame the table names.
    assert!(bufmgr.lookup(ids[0]).is_none());
    let b1 = bufmgr.lookup(ids[1]).unwrap();
    let b2 = bufmgr.lookup(ids[2]).unwrap();
    assert_ne!(b1, b2);
    assert_eq!(bufmgr.buffer(b1).page_id, ids[1]);
    assert_eq!(bufmgr.buffer(b2).page_id, ids[2]);
    let f = fetch(&mut bufmgr, &mut disk, ids[1]).unwrap();
    assert_eq!(f, b1);
    assert_eq!(bufmgr.counts(f), (1, 1));
}
