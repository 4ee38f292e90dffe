use ofs::{
    CloneObj, DeadObj, EntryObj, FileKind, FsError, HeaderObj, Object, ObjectId, ObjectReader,
    ObjectWriter, PayloadObj,
};

fn oid(n: u32) -> ObjectId {
    ObjectId::new(n)
}

fn same(a: Object, b: Object) -> bool {
    format!("{:?}", a) == format!("{:?}", b)
}

fn round_trip(obj: Object) {
    let back = Object::decode(obj.encode()).unwrap();
    assert!(same(obj, back), "{:?} came back as {:?}", obj, back);
}

#[test]
fn empty_is_all_zero() {
    assert_eq!(Object::Empty.encode(), [0u8; 32]);
    assert!(matches!(Object::decode([0u8; 32]), Ok(Object::Empty)));
}

#[test]
fn header_layout() {
    let obj = Object::Header(HeaderObj {
        root: oid(0x0102_0304),
        dead: Some(oid(0x0a0b_0c0d)),
        clone: Some(oid(7)),
    });
    let mut want = [0u8; 32];
    want[..13].copy_from_slice(&[1, 1, 2, 3, 4, 0x0a, 0x0b, 0x0c, 0x0d, 0, 0, 0, 7]);
    assert_eq!(obj.encode(), want);
    round_trip(obj);
}

#[test]
fn header_without_lists() {
    let obj = Object::Header(HeaderObj { root: oid(1), dead: None, clone: None });
    let mut want = [0u8; 32];
    want[..5].copy_from_slice(&[1, 0, 0, 0, 1]);
    assert_eq!(obj.encode(), want);
    match Object::decode(want).unwrap() {
        Object::Header(h) => {
            assert_eq!(h.root, oid(1));
            assert_eq!(h.dead, None);
            assert_eq!(h.clone, None);
        }
        other => panic!("{:?}", other),
    }
}

#[test]
fn clone_layout() {
    let obj = Object::Clone(CloneObj {
        name: oid(5),
        root: oid(0x100),
        is_writable: true,
        next: Some(oid(9)),
    });
    let mut want = [0u8; 32];
    want[..14].copy_from_slice(&[2, 0, 0, 0, 5, 0, 0, 1, 0, 1, 0, 0, 0, 9]);
    assert_eq!(obj.encode(), want);
    round_trip(obj);
    round_trip(Object::Clone(CloneObj {
        name: oid(5),
        root: oid(6),
        is_writable: false,
        next: None,
    }));
}

#[test]
fn entry_layout() {
    let obj = Object::Entry(EntryObj {
        name: oid(2),
        body: Some(oid(3)),
        next: None,
        kind: FileKind::RegularFile,
        size: 0x0001_0002,
        mode: 0o644,
        uid: 1000,
        gid: 0xffff_ffff,
    });
    let mut want = [0u8; 32];
    want[..28].copy_from_slice(&[
        3, 0, 0, 0, 2, 0, 0, 0, 3, 0, 0, 0, 0, 1, 0, 1, 0, 2, 0x01, 0xa4, 0, 0, 0x03, 0xe8, 0xff,
        0xff, 0xff, 0xff,
    ]);
    assert_eq!(obj.encode(), want);
    round_trip(obj);
}

#[test]
fn directory_kind_is_zero() {
    let obj = Object::Entry(EntryObj {
        name: oid(2),
        body: None,
        next: Some(oid(4)),
        kind: FileKind::Directory,
        size: 0,
        mode: 0o777,
        uid: 0,
        gid: 0,
    });
    assert_eq!(obj.encode()[13], 0);
    round_trip(obj);
}

#[test]
fn payload_layout() {
    let obj = Object::payload(b"hello");
    let mut want = [0u8; 32];
    want[..11].copy_from_slice(&[5, 5, 0, 0, 0, 0, b'h', b'e', b'l', b'l', b'o']);
    assert_eq!(obj.encode(), want);
    round_trip(obj);

    let full = PayloadObj { next: Some(oid(0x01020304)), ..PayloadObj::new(&[0xab; 26]) };
    let bytes = Object::Payload(full).encode();
    assert_eq!(&bytes[..6], &[5, 26, 1, 2, 3, 4]);
    assert_eq!(&bytes[6..], &[0xab; 26]);
    round_trip(Object::Payload(full));
}

#[test]
fn payload_new_pads_with_zeros() {
    let p = PayloadObj::new(b"ab");
    assert_eq!(p.size, 2);
    assert_eq!(p.next, None);
    assert_eq!(&p.data[..2], b"ab");
    assert!(p.data[2..].iter().all(|b| *b == 0));
    let empty = PayloadObj::new(b"");
    assert_eq!(empty.size, 0);
    assert_eq!(empty.data, [0u8; 26]);
}

#[test]
fn dead_layout() {
    let obj = Object::Dead(DeadObj { next: Some(oid(0x0000_ff00)) });
    let mut want = [0u8; 32];
    want[..5].copy_from_slice(&[6, 0, 0, 0xff, 0]);
    assert_eq!(obj.encode(), want);
    round_trip(obj);
    round_trip(Object::Dead(DeadObj { next: None }));
}

#[test]
fn unknown_tags_are_corrupt() {
    for tag in [4u8, 7, 8, 100, 255] {
        let mut slot = [0u8; 32];
        slot[0] = tag;
        assert_eq!(Object::decode(slot).err(), Some(FsError::Corrupt), "tag {}", tag);
    }
}

#[test]
fn round_trip_over_many_values() {
    let mut x: u32 = 0x1234_5678;
    let mut next = move || {
        x ^= x << 13;
        x ^= x >> 17;
        x ^= x << 5;
        x
    };
    let ptr = |v: u32| if v % 3 == 0 { None } else { Some(ObjectId::new(v | 1)) };
    for _ in 0..500 {
        round_trip(Object::Header(HeaderObj {
            root: oid(next()),
            dead: ptr(next()),
            clone: ptr(next()),
        }));
        round_trip(Object::Clone(CloneObj {
            name: oid(next()),
            root: oid(next()),
            is_writable: next() % 2 == 0,
            next: ptr(next()),
        }));
        round_trip(Object::Entry(EntryObj {
            name: oid(next()),
            body: ptr(next()),
            next: ptr(next()),
            kind: if next() % 2 == 0 { FileKind::Directory } else { FileKind::RegularFile },
            size: next(),
            mode: (next() % 65536) as u16,
            uid: next(),
            gid: next(),
        }));
        let mut data = [0u8; 26];
        for b in &mut data {
            *b = (next() % 256) as u8;
        }
        round_trip(Object::Payload(PayloadObj {
            size: (next() % 27) as u8,
            next: ptr(next()),
            data,
        }));
        round_trip(Object::Dead(DeadObj { next: ptr(next()) }));
    }
}

#[test]
fn pointer_at_slot_zero_reads_as_none() {
    let obj = Object::Dead(DeadObj { next: Some(oid(0)) });
    match Object::decode(obj.encode()).unwrap() {
        Object::Dead(d) => assert_eq!(d.next, None),
        other => panic!("{:?}", other),
    }
}

#[test]
fn into_variants() {
    let h = HeaderObj { root: oid(1), dead: None, clone: None };
    assert!(Object::Header(h).into_header(oid(0)).is_ok());
    assert_eq!(Object::Empty.into_header(oid(0)).err(), Some(FsError::Corrupt));
    assert_eq!(Object::Header(h).into_clone(oid(3)).err(), Some(FsError::Corrupt));
    assert_eq!(Object::Header(h).into_entry(oid(3)).err(), Some(FsError::Corrupt));
    assert_eq!(Object::Header(h).into_payload(oid(3)).err(), Some(FsError::Corrupt));
    assert_eq!(Object::Header(h).into_dead(oid(3)).err(), Some(FsError::Corrupt));
    assert!(Object::Dead(DeadObj { next: None }).into_dead(oid(3)).is_ok());
    assert!(Object::payload(b"x").into_payload(oid(3)).is_ok());
}

#[test]
fn writer_and_reader_agree() {
    let mut w = ObjectWriter::default();
    w.u8(0xfe);
    w.bool(true);
    w.bool(false);
    w.u16(0xbeef);
    w.u32(0xdead_c0de);
    w.oid(oid(0x0102_0304));
    w.oid_opt(None);
    w.oid_opt(Some(oid(9)));
    w.kind(FileKind::Directory);
    w.kind(FileKind::RegularFile);
    w.rest(&[1, 2, 3]);
    let slot = w.finish();
    assert_eq!(
        &slot[..24],
        &[
            0xfe, 1, 0, 0xbe, 0xef, 0xde, 0xad, 0xc0, 0xde, 1, 2, 3, 4, 0, 0, 0, 0, 0, 0, 0, 9, 0,
            1, 1
        ]
    );
    assert_eq!(&slot[24..], &[2, 3, 0, 0, 0, 0, 0, 0]);

    let mut r = ObjectReader::new(slot);
    assert_eq!(r.u8(), 0xfe);
    assert!(r.bool());
    assert!(!r.bool());
    assert_eq!(r.u16(), 0xbeef);
    assert_eq!(r.u32(), 0xdead_c0de);
    assert_eq!(r.oid(), oid(0x0102_0304));
    assert_eq!(r.oid_opt(), None);
    assert_eq!(r.oid_opt(), Some(oid(9)));
    assert_eq!(r.kind(), FileKind::Directory);
    assert_eq!(r.kind(), FileKind::RegularFile);
    let rest: [u8; 9] = r.rest();
    assert_eq!(rest, [1, 2, 3, 0, 0, 0, 0, 0, 0]);
}

#[test]
fn reader_takes_any_nonzero_kind_as_file() {
    let mut slot = [0u8; 32];
    slot[0] = 7;
    assert_eq!(ObjectReader::new(slot).kind(), FileKind::RegularFile);
    slot[0] = 2;
    assert!(!ObjectReader::new(slot).bool());
}
