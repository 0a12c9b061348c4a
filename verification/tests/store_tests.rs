use frecency::entry::{Access, Entry, LastVisit};
use frecency::store::Entries;

const DAY: u64 = 60 * 60 * 24;
const YEAR: u64 = 365 * DAY;

fn path_of(e: &Entry) -> &[u8] {
    e.path.as_slice()
}

fn upsert(store: &mut Entries, path: &str, secs: u64) {
    store.upsert(Access(path.as_bytes().to_vec()), LastVisit(secs));
}

fn paths(store: &Entries) -> Vec<Vec<u8>> {
    let mut out = Vec::new();
    for i in 0..store.len() {
        out.push(store.get(i).path.clone());
    }
    out
}

#[test]
fn upsert_into_empty() {
    let mut store = Entries::empty();
    assert_eq!(store.len(), 0);
    upsert(&mut store, "/a", 100);
    assert_eq!(store.len(), 1);
    assert_eq!(path_of(store.get(0)), b"/a");
    assert_eq!(store.get(0).last_visit, 100);
}

#[test]
fn idempotent_reaccess() {
    let mut store = Entries::empty();
    upsert(&mut store, "/a", 100);
    upsert(&mut store, "/b", 90);
    let before = paths(&store);
    upsert(&mut store, "/a", 150);
    assert_eq!(store.len(), 2);
    assert_eq!(paths(&store), before);
    assert_eq!(store.get(0).last_visit, 150);
    assert_eq!(store.get(1).last_visit, 90);
    upsert(&mut store, "/a", 150);
    assert_eq!(store.len(), 2);
    assert_eq!(paths(&store), before);
    assert_eq!(store.get(0).last_visit, 150);
    assert_eq!(store.get(1).last_visit, 90);
}

#[test]
fn sorted_after_upserts() {
    let mut store = Entries::empty();
    for p in ["/m", "/a", "/z", "/b/c", "/b", "/aa"] {
        upsert(&mut store, p, 10);
    }
    assert_eq!(store.len(), 6);
    for i in 1..store.len() {
        assert!(path_of(store.get(i - 1)) < path_of(store.get(i)));
    }
}

#[test]
fn retention_drops_unrelated_old_entry() {
    let now = 10 * YEAR;
    let mut store = Entries::empty();
    upsert(&mut store, "/old", now - YEAR);
    assert_eq!(store.len(), 1);
    upsert(&mut store, "/new", now);
    assert_eq!(store.len(), 1);
    assert_eq!(path_of(store.get(0)), b"/new");
}

#[test]
fn retention_boundary() {
    let now = 10 * YEAR;
    let mut store = Entries::empty();
    // one second inside the window: 364 whole days, kept
    upsert(&mut store, "/young", now - YEAR + 1);
    upsert(&mut store, "/x", now);
    assert_eq!(store.len(), 2);
    // exactly 365 whole days: dropped
    let mut store = Entries::empty();
    upsert(&mut store, "/aged", now - YEAR);
    upsert(&mut store, "/x", now);
    assert_eq!(store.len(), 1);
    assert_eq!(path_of(store.get(0)), b"/x");
}

#[test]
fn future_visit_is_kept() {
    let mut store = Entries::empty();
    upsert(&mut store, "/future", 5000);
    upsert(&mut store, "/x", 100);
    assert_eq!(store.len(), 2);
    assert_eq!(path_of(store.get(0)), b"/future");
}

#[test]
fn disjoint_inserts() {
    let mut store = Entries::empty();
    upsert(&mut store, "/p/two", 11);
    upsert(&mut store, "/p/one", 12);
    assert_eq!(store.len(), 2);
    assert_eq!(path_of(store.get(0)), b"/p/one");
    assert_eq!(store.get(0).last_visit, 12);
    assert_eq!(path_of(store.get(1)), b"/p/two");
    assert_eq!(store.get(1).last_visit, 11);
}

#[test]
fn heal_sorts_and_dedups() {
    let list = vec![
        Entry { path: b"/b".to_vec(), last_visit: 5 },
        Entry { path: b"/a".to_vec(), last_visit: 3 },
        Entry { path: b"/b".to_vec(), last_visit: 9 },
        Entry { path: b"/a".to_vec(), last_visit: 1 },
    ];
    let store = Entries::from_list(list);
    assert_eq!(store.len(), 2);
    assert_eq!(path_of(store.get(0)), b"/a");
    assert_eq!(store.get(0).last_visit, 3);
    assert_eq!(path_of(store.get(1)), b"/b");
    assert_eq!(store.get(1).last_visit, 9);
}
