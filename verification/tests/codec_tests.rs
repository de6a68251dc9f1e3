use gitultra::codec::{decode_index_set, encode_index_set, CachedIndexSet};
use gitultra::index_entry::IndexEntry;

fn entry(path: Vec<u8>, content_id: Vec<u8>) -> IndexEntry {
    IndexEntry {
        path,
        content_id,
        file_size: 7,
        ctime_secs: -5,
        ctime_nanos: 11,
        mtime_secs: 123456,
        mtime_nanos: 22,
        dev: 1,
        ino: 2,
        mode: 0o100644,
        uid: 1000,
        gid: 1001,
        flags: 0x1234,
        flags_extended: 0x5678,
    }
}

fn entries_equal(a: &IndexEntry, b: &IndexEntry) -> bool {
    a.path == b.path
        && a.content_id == b.content_id
        && a.file_size == b.file_size
        && a.ctime_secs == b.ctime_secs
        && a.ctime_nanos == b.ctime_nanos
        && a.mtime_secs == b.mtime_secs
        && a.mtime_nanos == b.mtime_nanos
        && a.dev == b.dev
        && a.ino == b.ino
        && a.mode == b.mode
        && a.uid == b.uid
        && a.gid == b.gid
        && a.flags == b.flags
        && a.flags_extended == b.flags_extended
}

#[test]
fn decode_of_encode_restores_every_field() {
    let set = CachedIndexSet {
        version: 1,
        entries: vec![
            entry(b"src/main.rs".to_vec(), vec![0xaa; 20]),
            // a path that is not valid text must round-trip byte-exact
            entry(vec![0xff, 0x00, 0xfe, b'x'], vec![0x01; 20]),
            // a zero-length path round-trips too
            entry(Vec::new(), vec![0x02; 20]),
        ],
    };
    let bytes = encode_index_set(&set);
    let back = decode_index_set(&bytes).unwrap();
    assert_eq!(back.version, 1);
    assert_eq!(back.entries.len(), 3);
    for (a, b) in set.entries.iter().zip(back.entries.iter()) {
        assert!(entries_equal(a, b));
    }
}

#[test]
fn encode_of_decode_reproduces_the_payload() {
    let set = CachedIndexSet {
        version: 3,
        entries: vec![entry(b"a".to_vec(), vec![9; 20]), entry(b"b".to_vec(), vec![8; 20])],
    };
    let bytes = encode_index_set(&set);
    let back = decode_index_set(&bytes).unwrap();
    let again = encode_index_set(&back);
    assert_eq!(bytes, again);
}

#[test]
fn empty_set_encodes_to_the_version_stamp_alone() {
    let set = CachedIndexSet { version: 1, entries: Vec::new() };
    let bytes = encode_index_set(&set);
    assert_eq!(bytes, vec![1, 0, 0, 0]);
}

#[test]
fn one_entry_encodes_to_the_documented_layout() {
    let set = CachedIndexSet {
        version: 1,
        entries: vec![IndexEntry {
            path: vec![b'p'],
            content_id: vec![0xab, 0xcd],
            file_size: 7,
            ctime_secs: 1,
            ctime_nanos: 2,
            mtime_secs: 3,
            mtime_nanos: 4,
            dev: 5,
            ino: 6,
            mode: 8,
            uid: 9,
            gid: 10,
            flags: 11,
            flags_extended: 12,
        }],
    };
    let bytes = encode_index_set(&set);
    let mut expected: Vec<u8> = Vec::new();
    expected.extend_from_slice(&[1, 0, 0, 0]); // version
    expected.extend_from_slice(&[1, 0, 0, 0]); // path length
    expected.extend_from_slice(&[2, 0, 0, 0]); // content id length
    expected.extend_from_slice(&[7, 0, 0, 0]); // file size
    expected.extend_from_slice(&[1, 0, 0, 0]); // ctime seconds
    expected.extend_from_slice(&[2, 0, 0, 0]); // ctime nanoseconds
    expected.extend_from_slice(&[3, 0, 0, 0]); // mtime seconds
    expected.extend_from_slice(&[4, 0, 0, 0]); // mtime nanoseconds
    expected.extend_from_slice(&[5, 0, 0, 0]); // dev
    expected.extend_from_slice(&[6, 0, 0, 0]); // ino
    expected.extend_from_slice(&[8, 0, 0, 0]); // mode
    expected.extend_from_slice(&[9, 0, 0, 0]); // uid
    expected.extend_from_slice(&[10, 0, 0, 0]); // gid
    expected.extend_from_slice(&[11, 0]); // flags
    expected.extend_from_slice(&[12, 0]); // flags extended
    expected.push(b'p'); // path bytes
    expected.extend_from_slice(&[0xab, 0xcd]); // content id bytes
    assert_eq!(bytes, expected);
}

#[test]
fn negative_times_round_trip() {
    let mut e = entry(b"x".to_vec(), vec![1; 20]);
    e.ctime_secs = i32::MIN;
    e.mtime_secs = -1;
    let set = CachedIndexSet { version: 1, entries: vec![e] };
    let bytes = encode_index_set(&set);
    let back = decode_index_set(&bytes).unwrap();
    assert_eq!(back.entries[0].ctime_secs, i32::MIN);
    assert_eq!(back.entries[0].mtime_secs, -1);
}

#[test]
fn garbage_is_rejected() {
    assert!(decode_index_set(&vec![1, 2, 3]).is_none());
}

#[test]
fn truncated_payload_is_rejected() {
    let set = CachedIndexSet { version: 1, entries: vec![entry(b"abc".to_vec(), vec![1; 20])] };
    let mut bytes = encode_index_set(&set);
    bytes.pop();
    assert!(decode_index_set(&bytes).is_none());
}

#[test]
fn trailing_bytes_are_rejected() {
    let set = CachedIndexSet { version: 1, entries: vec![entry(b"abc".to_vec(), vec![1; 20])] };
    let mut bytes = encode_index_set(&set);
    bytes.push(0);
    assert!(decode_index_set(&bytes).is_none());
}

#[test]
fn same_entries_encode_identically() {
    let make = || CachedIndexSet {
        version: 1,
        entries: vec![entry(b"p1".to_vec(), vec![3; 20]), entry(b"p2".to_vec(), vec![4; 20])],
    };
    assert_eq!(encode_index_set(&make()), encode_index_set(&make()));
}
