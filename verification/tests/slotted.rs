use relly::slotted::Slotted;

fn insert(slotted: &mut Slotted, index: usize, buf: &[u8]) {
    slotted.insert(index, buf.len()).unwrap();
    slotted.data_mut(index).copy_from_slice(buf);
}

fn push(slotted: &mut Slotted, buf: &[u8]) {
    let index = slotted.num_slots();
    insert(slotted, index, buf);
}

#[test]
fn slotted_test() {
    let mut page_data = vec![0u8; 128];
    let mut slotted = Slotted::new(page_data.as_mut_slice());
    slotted.initialize();
    push(&mut slotted, b"hello");
    push(&mut slotted, b"world");
    assert_eq!(slotted.data(0), b"hello");
    assert_eq!(slotted.data(1), b"world");
    insert(&mut slotted, 1, b", ");
    push(&mut slotted, b"!");
    assert_eq!(slotted.data(0), b"hello");
    assert_eq!(slotted.data(1), b", ");
    assert_eq!(slotted.data(2), b"world");
    assert_eq!(slotted.data(3), b"!");
}

#[test]
fn slotted_free_space_and_full_page() {
    let mut page_data = vec![0u8; 32];
    let mut slotted = Slotted::new(page_data.as_mut_slice());
    slotted.initialize();
    assert_eq!(slotted.capacity(), 24);
    assert_eq!(slotted.free_space(), 24);
    assert!(slotted.insert(0, 20).is_some());
    assert_eq!(slotted.free_space(), 0);
    assert!(slotted.insert(0, 0).is_none());
    assert_eq!(slotted.num_slots(), 1);
}

#[test]
fn slotted_resize_and_remove_keep_other_slots() {
    let mut page_data = vec![0u8; 128];
    let mut slotted = Slotted::new(page_data.as_mut_slice());
    slotted.initialize();
    push(&mut slotted, b"aaaa");
    push(&mut slotted, b"bbbb");
    push(&mut slotted, b"cccc");
    let free = slotted.free_space();
    // Shrinking keeps the end of the slot.
    slotted.resize(1, 2).unwrap();
    assert_eq!(slotted.data(1), b"bb");
    assert_eq!(slotted.data(0), b"aaaa");
    assert_eq!(slotted.data(2), b"cccc");
    assert_eq!(slotted.free_space(), free + 2);
    // Growing past the free space fails and changes nothing.
    assert!(slotted.resize(1, 2 + free + 3).is_none());
    assert_eq!(slotted.data(1), b"bb");
    // Growing keeps the old bytes at the end.
    slotted.resize(1, 5).unwrap();
    assert_eq!(&slotted.data(1)[3..], b"bb");
    slotted.data_mut(1).copy_from_slice(b"BBBBB");
    assert_eq!(slotted.data(0), b"aaaa");
    assert_eq!(slotted.data(1), b"BBBBB");
    assert_eq!(slotted.data(2), b"cccc");
    slotted.remove(0);
    assert_eq!(slotted.num_slots(), 2);
    assert_eq!(slotted.data(0), b"BBBBB");
    assert_eq!(slotted.data(1), b"cccc");
    assert_eq!(slotted.free_space(), 120 - 2 * 4 - 9);
}

#[test]
fn slotted_growing_an_empty_slot_keeps_its_neighbour() {
    let mut page_data = vec![0u8; 24];
    let mut slotted = Slotted::new(page_data.as_mut_slice());
    slotted.initialize();
    insert(&mut slotted, 0, b"abcde");
    insert(&mut slotted, 1, b"");
    // The empty slot points where slot 0 starts; growing it must not move
    // slot 0's pointer away from its bytes.
    slotted.resize(1, 3).unwrap();
    assert_eq!(slotted.data(0), b"abcde");
    assert_eq!(slotted.data(1).len(), 3);
    slotted.data_mut(1).copy_from_slice(b"xyz");
    assert_eq!(slotted.data(0), b"abcde");
    assert_eq!(slotted.data(1), b"xyz");
    assert_eq!(slotted.free_space(), 0);
}

#[test]
fn slotted_insert_then_remove_restores_the_slots() {
    let mut page_data = vec![0u8; 64];
    let mut slotted = Slotted::new(page_data.as_mut_slice());
    slotted.initialize();
    push(&mut slotted, b"one");
    push(&mut slotted, b"three");
    let free = slotted.free_space();
    insert(&mut slotted, 1, b"two");
    slotted.data_mut(1).copy_from_slice(b"TWO");
    slotted.remove(1);
    assert_eq!(slotted.num_slots(), 2);
    assert_eq!(slotted.free_space(), free);
    assert_eq!(slotted.data(0), b"one");
    assert_eq!(slotted.data(1), b"three");
}

#[test]
fn slotted_bytes_are_all_accounted_for() {
    fn accounted(s: &Slotted) -> bool {
        let data: usize = (0..s.num_slots()).map(|i| s.data(i).len()).sum();
        s.free_space() + 4 * s.num_slots() + data == s.capacity()
    }
    let mut page_data = vec![0u8; 96];
    let mut slotted = Slotted::new(page_data.as_mut_slice());
    slotted.initialize();
    assert!(accounted(&slotted));
    push(&mut slotted, b"alpha");
    insert(&mut slotted, 0, b"");
    push(&mut slotted, b"gamma!");
    assert!(accounted(&slotted));
    slotted.resize(0, 4).unwrap();
    slotted.resize(1, 2).unwrap();
    assert!(accounted(&slotted));
    slotted.remove(2);
    assert!(accounted(&slotted));
}
