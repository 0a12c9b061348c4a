use frecency::entry::{Access, LastVisit};
use frecency::store::Entries;

fn store_of(items: &[(&str, u64)]) -> Entries {
    let mut store = Entries::empty();
    for (p, t) in items {
        store.upsert(Access(p.as_bytes().to_vec()), LastVisit(*t));
    }
    store
}

#[test]
fn round_trip() {
    let store = store_of(&[("/home/u/code", 50), ("/etc", 10), ("/home/u", 99)]);
    let bytes = store.to_bytes();
    let back = Entries::from_bytes(&bytes);
    assert_eq!(back.len(), store.len());
    for i in 0..store.len() {
        assert_eq!(back.get(i).path, store.get(i).path);
        assert_eq!(back.get(i).last_visit, store.get(i).last_visit);
    }
}

#[test]
fn empty_round_trip() {
    let store = Entries::empty();
    let bytes = store.to_bytes();
    assert_eq!(bytes, vec![0u8; 8]);
    let back = Entries::from_bytes(&bytes);
    assert_eq!(back.len(), 0);
}

#[test]
fn encoding_layout() {
    let store = store_of(&[("/ab", 0x0102)]);
    let bytes = store.to_bytes();
    let mut expected: Vec<u8> = Vec::new();
    expected.extend_from_slice(&1u64.to_le_bytes());
    expected.extend_from_slice(&3u64.to_le_bytes());
    expected.extend_from_slice(b"/ab");
    expected.extend_from_slice(&0x0102u64.to_le_bytes());
    assert_eq!(bytes, expected);
}

#[test]
fn corrupt_reads_as_empty() {
    let bytes = vec![0xffu8, 1, 2, 3, 4, 5];
    let store = Entries::from_bytes(&bytes);
    assert_eq!(store.len(), 0);
}

#[test]
fn truncated_reads_as_empty() {
    let full = store_of(&[("/a", 1), ("/b", 2)]).to_bytes();
    let cut = full[..full.len() - 1].to_vec();
    let store = Entries::from_bytes(&cut);
    assert_eq!(store.len(), 0);
}

#[test]
fn trailing_garbage_reads_as_empty() {
    let mut bytes = store_of(&[("/a", 1)]).to_bytes();
    bytes.push(0);
    let store = Entries::from_bytes(&bytes);
    assert_eq!(store.len(), 0);
}
