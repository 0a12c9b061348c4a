use std::cmp::Ordering;

use frecency::entry::{Access, Entry, LastVisit};
use frecency::error::Error;

fn entry(path: &str, last_visit: u64) -> Entry {
    Entry::new(Access(path.as_bytes().to_vec()), LastVisit(last_visit))
}

#[test]
fn new_carries_path_and_time() {
    let e = entry("/x", 42);
    assert_eq!(e.path, b"/x".to_vec());
    assert_eq!(e.last_visit, 42);
}

#[test]
fn days_since_math() {
    let e = entry("/x", 0);
    assert_eq!(e.days_since(LastVisit(2 * 86400)), 2);
    assert_eq!(e.days_since(LastVisit(2 * 86400 - 1)), 1);
    let future = entry("/x", 1000);
    assert_eq!(future.days_since(LastVisit(10)), 0);
}

#[test]
fn cmp_path_order() {
    let a = entry("/a", 1);
    let b = entry("/b", 1);
    let a2 = entry("/a", 99);
    assert_eq!(a.cmp_path(&b), Ordering::Less);
    assert_eq!(b.cmp_path(&a), Ordering::Greater);
    assert_eq!(a.cmp_path(&a2), Ordering::Equal);
    // a proper prefix sorts first
    let ab = entry("/ab", 1);
    assert_eq!(a.cmp_path(&ab), Ordering::Less);
}

#[test]
fn same_path_check() {
    let mut a = entry("/a", 1);
    let mut a2 = entry("/a", 2);
    let mut b = entry("/b", 1);
    assert!(Entry::same_path(&mut a, &mut a2));
    assert!(!Entry::same_path(&mut a, &mut b));
    assert_eq!(a.path, b"/a".to_vec());
    assert_eq!(a.last_visit, 1);
    assert_eq!(b.path, b"/b".to_vec());
}

fn resolved(
    given: &str,
    canonical: &str,
    is_dir: bool,
    home: Option<&str>,
) -> Result<Access, Error> {
    Access::try_from_resolved(
        given.as_bytes().to_vec(),
        Some(canonical.as_bytes().to_vec()),
        is_dir,
        home.map(|h| h.as_bytes().to_vec()),
    )
}

#[test]
fn normalize_under_home() {
    let a = resolved("code", "/home/u/code", true, Some("/home/u")).unwrap();
    assert_eq!(a.0, b"~/code".to_vec());
}

#[test]
fn normalize_home_itself() {
    let a = resolved(".", "/home/u", true, Some("/home/u")).unwrap();
    assert_eq!(a.0, b"~".to_vec());
}

#[test]
fn normalize_outside_home() {
    let a = resolved("/etc", "/etc", true, Some("/home/u")).unwrap();
    assert_eq!(a.0, b"/etc".to_vec());
}

#[test]
fn normalize_no_boundary_is_not_under_home() {
    let a = resolved("x", "/home/ux", true, Some("/home/u")).unwrap();
    assert_eq!(a.0, b"/home/ux".to_vec());
}

#[test]
fn normalize_home_with_trailing_slash() {
    let a = resolved("x", "/home/u/x", true, Some("/home/u/")).unwrap();
    assert_eq!(a.0, b"~/x".to_vec());
}

#[test]
fn normalize_without_home() {
    let a = resolved("/etc", "/etc", true, None).unwrap();
    assert_eq!(a.0, b"/etc".to_vec());
}

#[test]
fn invalid_path_error() {
    let r = Access::try_from_resolved(b"missing".to_vec(), None, false, None);
    match r {
        Err(Error::InvalidPath(p)) => assert_eq!(p, b"missing".to_vec()),
        other => panic!("expected InvalidPath, got {:?}", other.map(|a| a.0)),
    }
}

#[test]
fn not_dir_error() {
    let r = Access::try_from_resolved(
        b"f".to_vec(),
        Some(b"/etc/passwd".to_vec()),
        false,
        None,
    );
    match r {
        Err(Error::NotDir(p)) => assert_eq!(p, b"/etc/passwd".to_vec()),
        other => panic!("expected NotDir, got {:?}", other.map(|a| a.0)),
    }
}

#[test]
fn last_visit_now_is_after_epoch() {
    let now = LastVisit::now().unwrap();
    assert!(now.0 > 1_500_000_000);
}
