use frecency::entry::{Access, LastVisit};
use frecency::rank::{rank, render, Error, Match};
use frecency::store::Entries;

fn store_of(items: &[(&str, u64)]) -> Entries {
    let mut store = Entries::empty();
    for (p, t) in items {
        store.upsert(Access(p.as_bytes().to_vec()), LastVisit(*t));
    }
    store
}

#[test]
fn single_match_prints_path_alone() {
    let t = 1_000_000;
    let store = store_of(&[("/home/a", t), ("/home/b", t - 1)]);
    let ms = rank(&store, &b"a".to_vec()).unwrap();
    assert_eq!(ms.len(), 1);
    assert_eq!(ms[0].path, b"/home/a".to_vec());
    let lines = render(&ms);
    assert_eq!(lines, vec![b"/home/a".to_vec()]);
}

#[test]
fn tie_break_recent_first() {
    // an empty query scores every path alike; order falls to recency
    let store = store_of(&[("/p/old", 10), ("/p/recent", 20)]);
    let ms = rank(&store, &b"".to_vec()).unwrap();
    assert_eq!(ms.len(), 2);
    assert_eq!(ms[0].score, ms[1].score);
    assert_eq!(ms[0].path, b"/p/recent".to_vec());
    assert_eq!(ms[1].path, b"/p/old".to_vec());
}

#[test]
fn no_matches_error() {
    let store = store_of(&[("/aaa", 1)]);
    match rank(&store, &b"z".to_vec()) {
        Err(Error::NoMatches) => {},
        other => panic!("expected NoMatches, got {:?}", other),
    }
}

#[test]
fn empty_store_has_no_matches() {
    let store = Entries::empty();
    assert!(matches!(rank(&store, &b"a".to_vec()), Err(Error::NoMatches)));
}

#[test]
fn ranked_descending() {
    let store = store_of(&[("/one/query", 5), ("/two/qxuxexry", 6), ("/three/nothing", 7)]);
    let ms = rank(&store, &b"query".to_vec()).unwrap();
    assert_eq!(ms.len(), 2);
    for w in ms.windows(2) {
        assert!(
            w[0].score > w[1].score
                || (w[0].score == w[1].score && w[0].last_visit >= w[1].last_visit)
        );
    }
    // the contiguous match scores higher than the scattered one
    assert_eq!(ms[0].path, b"/one/query".to_vec());
}

#[test]
fn unmatched_path_is_excluded() {
    let store = store_of(&[("/aaa", 1), ("/bbb", 2)]);
    let ms = rank(&store, &b"b".to_vec()).unwrap();
    assert_eq!(ms.len(), 1);
    assert_eq!(ms[0].path, b"/bbb".to_vec());
}

#[test]
fn render_multiple_lines() {
    let ms = vec![
        Match { score: 100, last_visit: 9, path: b"/a".to_vec() },
        Match { score: 60, last_visit: 8, path: b"/b".to_vec() },
    ];
    let lines = render(&ms);
    assert_eq!(lines, vec![b"100 /a".to_vec(), b"60 /b".to_vec()]);
}

#[test]
fn render_negative_and_zero_scores() {
    let ms = vec![
        Match { score: 0, last_visit: 1, path: b"/z".to_vec() },
        Match { score: -15, last_visit: 1, path: b"/n".to_vec() },
    ];
    let lines = render(&ms);
    assert_eq!(lines, vec![b"0 /z".to_vec(), b"-15 /n".to_vec()]);
}

#[test]
fn render_empty() {
    let ms: Vec<Match> = Vec::new();
    let lines = render(&ms);
    assert!(lines.is_empty());
}

#[test]
fn query_error_message() {
    assert_eq!(Error::NoMatches.message(), "No matches");
}
