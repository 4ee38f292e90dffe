use ofs::{
    DeadObj, FsError, HeaderObj, InodeId, Object, ObjectId, Objects, Storage, Transaction,
};

fn oid(n: u32) -> ObjectId {
    ObjectId::new(n)
}

fn header(dead: Option<u32>) -> HeaderObj {
    HeaderObj { root: oid(1), dead: dead.map(ObjectId::new), clone: None }
}

/// A container with a header in slot 0.
fn fresh(dead: Option<u32>) -> Objects {
    let mut objects = Objects::new(Storage::create());
    assert_eq!(objects.allocate(None, Object::Header(header(dead))), Ok(oid(0)));
    objects
}

#[test]
fn storage_slots() {
    let mut s = Storage::create();
    assert_eq!(s.len(), Ok(0));
    assert_eq!(s.read(0).err(), Some(FsError::Other));
    assert_eq!(s.write(0, [1; 32]).err(), Some(FsError::Other));
    assert_eq!(s.append([1; 32]), Ok(0));
    assert_eq!(s.append([2; 32]), Ok(1));
    assert_eq!(s.len(), Ok(2));
    assert_eq!(s.read(1), Ok([2; 32]));
    assert_eq!(s.write(0, [9; 32]), Ok(()));
    assert_eq!(s.read(0), Ok([9; 32]));
    assert_eq!(s.read(2).err(), Some(FsError::Other));
    assert_eq!(s.write(2, [0; 32]).err(), Some(FsError::Other));
    let mut image = vec![9u8; 32];
    image.extend_from_slice(&[2; 32]);
    assert_eq!(s.to_bytes(), image);
}

#[test]
fn storage_of_fixed_size_is_out_of_space() {
    let image = vec![0u8; 64];
    let mut s = Storage::open(&image, false).unwrap();
    assert_eq!(s.len(), Ok(2));
    assert_eq!(s.append([1; 32]).err(), Some(FsError::OutOfSpace));
    assert_eq!(s.len(), Ok(2));
    assert_eq!(s.write(1, [7; 32]), Ok(()));
    let mut grow = Storage::open(&image, true).unwrap();
    assert_eq!(grow.append([1; 32]), Ok(2));
}

#[test]
fn storage_open_wants_whole_slots() {
    assert_eq!(Storage::open(&[0u8; 33], true).err(), Some(FsError::Corrupt));
    assert_eq!(Storage::open(&[0u8; 31], true).err(), Some(FsError::Corrupt));
    assert!(Storage::open(&[], true).is_ok());
    let image: Vec<u8> = (0..96).map(|i| i as u8).collect();
    assert_eq!(Storage::open(&image, true).unwrap().to_bytes(), image);
}

#[test]
fn header_slot_is_not_an_object() {
    let mut objects = fresh(None);
    assert_eq!(objects.get(oid(0)).err(), Some(FsError::Other));
    assert_eq!(objects.set(oid(0), Object::Empty).err(), Some(FsError::Other));
    assert_eq!(objects.get(oid(1)).err(), Some(FsError::Other));
    assert_eq!(objects.set(oid(1), Object::Empty).err(), Some(FsError::Other));
    assert!(objects.get_header().is_ok());
}

#[test]
fn get_header_wants_a_header() {
    let empty = Objects::new(Storage::create());
    assert_eq!(empty.get_header().err(), Some(FsError::Other));
    let zeros = Objects::new(Storage::open(&[0u8; 32], true).unwrap());
    assert_eq!(zeros.get_header().err(), Some(FsError::Corrupt));
    let bad = Objects::new(Storage::open(&[4u8; 32], true).unwrap());
    assert_eq!(bad.get_header().err(), Some(FsError::Corrupt));
}

#[test]
fn set_and_get() {
    let mut objects = fresh(None);
    let at = objects.allocate(None, Object::Empty).unwrap();
    assert_eq!(at, oid(1));
    assert!(matches!(objects.get(at), Ok(Object::Empty)));
    objects.set(at, Object::Dead(DeadObj { next: Some(oid(5)) })).unwrap();
    match objects.get(at).unwrap() {
        Object::Dead(d) => assert_eq!(d.next, Some(oid(5))),
        other => panic!("{:?}", other),
    }
    objects.set_header(header(Some(1))).unwrap();
    assert_eq!(objects.get_header().unwrap().dead, Some(oid(1)));
}

#[test]
fn get_of_an_unknown_tag_is_corrupt() {
    let mut image = vec![0u8; 64];
    image[0] = 1;
    image[32] = 4;
    let objects = Objects::new(Storage::open(&image, true).unwrap());
    assert_eq!(objects.get(oid(1)).err(), Some(FsError::Corrupt));
    assert_eq!(objects.all().err(), Some(FsError::Corrupt));
}

#[test]
fn all_lists_every_slot() {
    let mut objects = fresh(None);
    objects.allocate(None, Object::payload(b"x")).unwrap();
    objects.allocate(None, Object::Empty).unwrap();
    let all = objects.all().unwrap();
    assert_eq!(all.len(), 3);
    assert_eq!(all[0].0, oid(0));
    assert!(matches!(all[0].1, Object::Header(_)));
    assert_eq!(all[1].0, oid(1));
    assert!(matches!(all[1].1, Object::Payload(_)));
    assert_eq!(all[2].0, oid(2));
    assert!(matches!(all[2].1, Object::Empty));
}

#[test]
fn payload_round_trip() {
    for len in [1usize, 2, 25, 26, 27, 51, 52, 53, 100, 1000] {
        let bytes: Vec<u8> = (0..len).map(|i| (i * 7 + 3) as u8).collect();
        let mut objects = fresh(None);
        let before = objects.len().unwrap();
        let first = objects.alloc_payload(None, &bytes).unwrap().unwrap();
        assert_eq!(objects.get_payload(first), Ok(bytes.clone()), "len {}", len);
        let chunks = (len as u32 + 25) / 26;
        assert_eq!(objects.len().unwrap(), before + chunks);
    }
}

#[test]
fn payload_of_nothing_is_none() {
    let mut objects = fresh(None);
    assert_eq!(objects.alloc_payload(None, b""), Ok(None));
    assert_eq!(objects.len(), Ok(1));
    let mut tx = Transaction::default();
    tx.begin(&objects).unwrap();
    assert_eq!(objects.alloc_payload(Some(&mut tx), b""), Ok(None));
}

#[test]
fn payload_chain_is_allocated_tail_first() {
    let mut objects = fresh(None);
    let bytes: Vec<u8> = (0..60).collect();
    let first = objects.alloc_payload(None, &bytes).unwrap().unwrap();
    // three records: the last piece took slot 1, the first piece slot 3
    assert_eq!(first, oid(3));
    let rec = objects.get(oid(3)).unwrap().into_payload(oid(3)).unwrap();
    assert_eq!(rec.size, 26);
    assert_eq!(rec.next, Some(oid(2)));
    assert_eq!(&rec.data[..], &bytes[..26]);
    let rec = objects.get(oid(2)).unwrap().into_payload(oid(2)).unwrap();
    assert_eq!(rec.next, Some(oid(1)));
    let rec = objects.get(oid(1)).unwrap().into_payload(oid(1)).unwrap();
    assert_eq!(rec.size, 8);
    assert_eq!(rec.next, None);
    assert_eq!(&rec.data[..8], &bytes[52..]);
}

#[test]
fn payload_errors() {
    let mut objects = fresh(None);
    let dead = objects.allocate(None, Object::Dead(DeadObj { next: None })).unwrap();
    assert_eq!(objects.get_payload(dead).err(), Some(FsError::Corrupt));
    assert_eq!(objects.get_payload(oid(0)).err(), Some(FsError::Other));
    assert_eq!(objects.get_payload(oid(50)).err(), Some(FsError::Other));

    // a record that points at itself
    let at = objects.allocate(None, Object::payload(b"loop")).unwrap();
    let mut rec = objects.get(at).unwrap().into_payload(at).unwrap();
    rec.next = Some(at);
    objects.set(at, Object::Payload(rec)).unwrap();
    assert_eq!(objects.get_payload(at).err(), Some(FsError::Corrupt));

    // a record that claims more bytes than it has
    let at = objects.allocate(None, Object::payload(b"big")).unwrap();
    let mut rec = objects.get(at).unwrap().into_payload(at).unwrap();
    rec.size = 27;
    objects.set(at, Object::Payload(rec)).unwrap();
    assert_eq!(objects.get_payload(at).err(), Some(FsError::Corrupt));
}

#[test]
fn get_string_replaces_invalid_utf8() {
    let mut objects = fresh(None);
    let ok = objects.alloc_payload(None, "grüß".as_bytes()).unwrap().unwrap();
    assert_eq!(objects.get_string(ok).unwrap(), "grüß");
    let bad = objects.alloc_payload(None, &[b'a', 0xff, b'b']).unwrap().unwrap();
    assert_eq!(objects.get_string(bad).unwrap(), "a\u{fffd}b");
}

#[test]
fn alloc_reuses_the_free_list() {
    let mut objects = fresh(None);
    let d1 = objects.allocate(None, Object::Dead(DeadObj { next: None })).unwrap();
    let d2 = objects.allocate(None, Object::Dead(DeadObj { next: Some(d1) })).unwrap();
    objects.set_header(header(Some(d2.get()))).unwrap();
    let len = objects.len().unwrap();

    let mut tx = Transaction::default();
    tx.begin(&objects).unwrap();
    assert_eq!(objects.allocate(Some(&mut tx), Object::payload(b"a")), Ok(d2));
    {
        let state = tx.get_mut().unwrap();
        assert!(state.dirty);
        assert_eq!(state.new_header.dead, Some(d1));
    }
    assert_eq!(objects.allocate(Some(&mut tx), Object::payload(b"b")), Ok(d1));
    assert_eq!(tx.get_mut().unwrap().new_header.dead, None);
    assert_eq!(objects.len().unwrap(), len);
    // the list is used up: the next object is appended
    assert_eq!(objects.allocate(Some(&mut tx), Object::payload(b"c")), Ok(oid(len)));
    assert_eq!(objects.len().unwrap(), len + 1);
    assert_eq!(objects.get_payload(d2), Ok(b"a".to_vec()));
    assert_eq!(objects.get_payload(d1), Ok(b"b".to_vec()));
}

#[test]
fn alloc_without_a_transaction_appends() {
    let mut objects = fresh(None);
    let d = objects.allocate(None, Object::Dead(DeadObj { next: None })).unwrap();
    objects.set_header(header(Some(d.get()))).unwrap();
    assert_eq!(objects.allocate(None, Object::Empty), Ok(oid(2)));
    assert!(matches!(objects.get(d), Ok(Object::Dead(_))));
}

#[test]
fn alloc_skips_a_free_list_that_starts_at_a_live_object() {
    let mut objects = fresh(None);
    let live = objects.allocate(None, Object::payload(b"live")).unwrap();
    objects.set_header(header(Some(live.get()))).unwrap();
    let mut tx = Transaction::default();
    tx.begin(&objects).unwrap();
    assert_eq!(objects.allocate(Some(&mut tx), Object::Empty), Ok(oid(2)));
    assert_eq!(objects.get_payload(live), Ok(b"live".to_vec()));
    let state = tx.get_mut().unwrap();
    assert!(!state.dirty);
    assert_eq!(state.new_header.dead, Some(live));
}

#[test]
fn alloc_fails_in_a_closed_transaction_and_on_a_bad_free_list() {
    let mut objects = fresh(Some(9));
    let mut tx = Transaction::default();
    assert_eq!(objects.allocate(Some(&mut tx), Object::Empty).err(), Some(FsError::Other));
    tx.begin(&objects).unwrap();
    // the free list starts outside the container
    assert_eq!(objects.allocate(Some(&mut tx), Object::Empty).err(), Some(FsError::Other));
    assert_eq!(objects.len(), Ok(1));
}

#[test]
fn alloc_on_a_fixed_container_is_out_of_space() {
    let image = fresh(None).into_storage().to_bytes();
    let mut objects = Objects::new(Storage::open(&image, false).unwrap());
    assert_eq!(objects.allocate(None, Object::Empty).err(), Some(FsError::OutOfSpace));
    assert_eq!(objects.alloc_payload(None, b"x").err(), Some(FsError::OutOfSpace));
    let mut tx = Transaction::default();
    tx.begin(&objects).unwrap();
    assert_eq!(objects.allocate(Some(&mut tx), Object::Empty).err(), Some(FsError::OutOfSpace));
}

#[test]
fn inode_id_counts_up_to_the_last_number() {
    let mut id = InodeId::new(7);
    assert_eq!(id.fetch_add(), Ok(InodeId::new(7)));
    assert_eq!(id.get(), 8);
    assert!(!id.is_root());
    assert!(InodeId::root().is_root());
    assert_eq!(InodeId::root().get(), 1);
    let mut last = InodeId::new(u64::MAX);
    assert_eq!(last.fetch_add().err(), Some(FsError::Other));
    assert_eq!(last.get(), u64::MAX);
    assert_eq!(ObjectId::header().get(), 0);
    assert_eq!(ObjectId::new(42).get(), 42);
}
