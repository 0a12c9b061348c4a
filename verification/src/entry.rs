//! The persisted record: a normalized directory path (as bytes) and the
//! time it was last visited, in whole seconds since the Unix epoch.

use vstd::prelude::*;

use crate::error::Error;
use crate::order::lex_lt;

verus! {

pub const SECONDS_IN_DAY: u64 = 60 * 60 * 24;

/// Entries older than this many days are dropped by the retention pass.
pub const RETENTION_DAYS: u64 = 365;

/// One persisted record.
#[derive(Debug)]
pub struct Entry {
    /// The normalized path, as produced by `Access`.
    pub path: Vec<u8>,
    /// Seconds since the epoch of the most recent visit.
    pub last_visit: u64,
}

/// The mathematical model of an entry: its path bytes and last-visit time.
impl View for Entry {
    type V = (Seq<u8>, u64);

    open spec fn view(&self) -> (Seq<u8>, u64) {
        (self.path@, self.last_visit)
    }
}

/// Whole days from `last_visit` to `reference`, zero when the visit lies
/// in the future of `reference`.
pub open spec fn days_since_spec(last_visit: u64, reference: u64) -> int {
    if reference >= last_visit {
        (reference - last_visit) / (SECONDS_IN_DAY as int)
    } else {
        0
    }
}

/// An entry visited at `last_visit` is still within the retention window
/// at `now`.
pub open spec fn fresh_at(last_visit: u64, now: u64) -> bool {
    now - last_visit < RETENTION_DAYS * SECONDS_IN_DAY
}

/// The retention test the store runs is exactly the freshness predicate:
/// fewer than `RETENTION_DAYS` whole days have passed.
pub proof fn lemma_days_retention(last_visit: u64, now: u64)
    ensures
        (days_since_spec(last_visit, now) < RETENTION_DAYS) == fresh_at(last_visit, now),
{
    if now >= last_visit {
        let d = now - last_visit;
        assert((d / (SECONDS_IN_DAY as int) < RETENTION_DAYS) == (d < RETENTION_DAYS
            * SECONDS_IN_DAY)) by (nonlinear_arith)
            requires
                d >= 0,
        ;
    }
}

impl Entry {
    /// Builds the record for a visit of `access`'s path at `last_visit`.
    pub fn new(access: Access, last_visit: LastVisit) -> (r: Entry)
        ensures
            r.path@ == access@,
            r.last_visit == last_visit.0,
    {
        Entry { path: access.0, last_visit: last_visit.0 }
    }

    /// Three-way comparison of the paths alone, in the store's
    /// lexicographic order.
    pub fn cmp_path(&self, other: &Entry) -> (r: core::cmp::Ordering)
        ensures
            r == core::cmp::Ordering::Less <==> lex_lt(self.path@, other.path@),
            r == core::cmp::Ordering::Greater <==> lex_lt(other.path@, self.path@),
            r == core::cmp::Ordering::Equal <==> self.path@ == other.path@,
    {
        crate::order::cmp_bytes(&self.path, &other.path)
    }

    /// Whether two entries record the same path; neither entry changes.
    pub fn same_path(a: &mut Entry, b: &mut Entry) -> (r: bool)
        ensures
            *final(a) == *old(a),
            *final(b) == *old(b),
            r == (old(a).path@ == old(b).path@),
    {
        match crate::order::cmp_bytes(&a.path, &b.path) {
            core::cmp::Ordering::Equal => true,
            _ => false,
        }
    }

    /// Whole days between this entry's visit and `reference`; zero when
    /// the visit lies in `reference`'s future.
    pub fn days_since(&self, reference: LastVisit) -> (r: u64)
        ensures
            r == days_since_spec(self.last_visit, reference.0),
    {
        reference.0.saturating_sub(self.last_visit) / SECONDS_IN_DAY
    }
}

/// A normalized visited path: canonical, and home-relativized behind the
/// `~` sentinel segment when it lies under the user's home directory.
pub struct Access(pub Vec<u8>);

impl View for Access {
    type V = Seq<u8>;

    open spec fn view(&self) -> Seq<u8> {
        self.0@
    }
}

/// `canonical` lies strictly below the home directory `home`: `home` is a
/// proper prefix and the cut falls on a path-segment boundary.
pub open spec fn under_home(canonical: Seq<u8>, home: Seq<u8>) -> bool {
    &&& home.len() > 0
    &&& canonical.len() > home.len()
    &&& canonical.take(home.len() as int) == home
    &&& (canonical[home.len() as int] == 47 || home[home.len() - 1] == 47)
}

/// The stored form of a canonical path: the home directory itself becomes
/// the sentinel `~`, a path below home keeps only the part below it behind
/// `~/`, and any other path is stored as it came.
pub open spec fn normalize_spec(canonical: Seq<u8>, home: Seq<u8>) -> Seq<u8> {
    if home.len() > 0 && canonical == home {
        seq![126u8]
    } else if under_home(canonical, home) {
        if home[home.len() - 1] == 47 {
            seq![126u8, 47u8] + canonical.skip(home.len() as int)
        } else {
            seq![126u8] + canonical.skip(home.len() as int)
        }
    } else {
        canonical
    }
}

/// `prefix` is a prefix of `c`, bytewise.
fn starts_with(c: &Vec<u8>, prefix: &Vec<u8>) -> (r: bool)
    ensures
        r == (c@.len() >= prefix@.len() && c@.take(prefix@.len() as int) == prefix@),
{
    if c.len() < prefix.len() {
        return false;
    }
    let n = prefix.len();
    let mut i: usize = 0;
    while i < n
        invariant
            0 <= i <= n,
            n == prefix@.len(),
            n <= c@.len(),
            forall|j: int| 0 <= j < i ==> c@[j] == prefix@[j],
        decreases n - i,
    {
        if c[i] != prefix[i] {
            assert(c@.take(prefix@.len() as int)[i as int] == c@[i as int]);
            return false;
        }
        i = i + 1;
    }
    assert(c@.take(prefix@.len() as int) =~= prefix@);
    true
}

impl Access {
    /// Home-relativizes a canonical path against the home directory, as
    /// `normalize_spec` lays down.
    fn normalize(canonical: Vec<u8>, home: &Vec<u8>) -> (r: Access)
        ensures
            r@ == normalize_spec(canonical@, home@),
    {
        if home.len() == 0 {
            return Access(canonical);
        }
        let same = canonical.len() == home.len() && starts_with(&canonical, home);
        if same {
            assert(canonical@ =~= home@);
            let mut out: Vec<u8> = Vec::new();
            out.push(126u8);
            assert(out@ =~= seq![126u8]);
            return Access(out);
        }
        assert(canonical@ != home@) by {
            if canonical@ == home@ {
                assert(canonical@.take(home@.len() as int) =~= home@);
            }
        }
        let below = canonical.len() > home.len() && starts_with(&canonical, home) && (
        canonical[home.len()] == 47 || home[home.len() - 1] == 47);
        if below {
            assert(under_home(canonical@, home@));
            let mut out: Vec<u8> = Vec::new();
            out.push(126u8);
            if home[home.len() - 1] == 47 {
                out.push(47u8);
                assert(out@ =~= seq![126u8, 47u8]);
            } else {
                assert(out@ =~= seq![126u8]);
            }
            let mut tail = vstd::slice::slice_to_vec(
                vstd::slice::slice_subrange(canonical.as_slice(), home.len(), canonical.len()),
            );
            assert(tail@ =~= canonical@.skip(home@.len() as int));
            out.append(&mut tail);
            return Access(out);
        }
        assert(!under_home(canonical@, home@)) by {
            if under_home(canonical@, home@) {
                assert(canonical@.take(home@.len() as int) == home@);
            }
        }
        Access(canonical)
    }

    /// The decision core of registering an access: a path that failed to
    /// resolve is invalid, a resolved non-directory is rejected, and a
    /// resolved directory is normalized against the home directory when
    /// one is known.
    pub fn try_from_resolved(
        given: Vec<u8>,
        resolved: Option<Vec<u8>>,
        is_dir: bool,
        home: Option<Vec<u8>>,
    ) -> (r: Result<Access, Error>)
        ensures
            r is Ok <==> (resolved is Some && is_dir),
            match r {
                Ok(a) => resolved matches Some(c) && (a@ == match home {
                    Some(h) => normalize_spec(c@, h@),
                    None => c@,
                }),
                Err(e) => match e {
                    Error::InvalidPath(p) => resolved is None && p@ == given@,
                    Error::NotDir(p) => resolved matches Some(c) && !is_dir && p@ == c@,
                    _ => false,
                },
            },
    {
        let c = match resolved {
            Some(c) => c,
            None => {
                return Err(Error::InvalidPath(given));
            },
        };
        if !is_dir {
            return Err(Error::NotDir(c));
        }
        match home {
            Some(h) => Ok(Access::normalize(c, &h)),
            None => Ok(Access(c)),
        }
    }
}

/// Seconds since the epoch at which a visit happened.
#[derive(Debug, Copy, Clone, PartialEq, Eq, Structural)]
pub struct LastVisit(pub u64);

impl LastVisit {
    /// Relies on std::time's SystemTime::now, duration_since and
    /// Duration::as_secs: the wall clock, read as whole seconds since the
    /// Unix epoch; an error exactly when the clock reads before the epoch.
    #[verifier::external_body]
    pub fn now() -> (r: Result<LastVisit, Error>)
        ensures
            r matches Err(e) ==> e is SystemTime,
    {
        match std::time::SystemTime::now().duration_since(std::time::SystemTime::UNIX_EPOCH) {
            Ok(d) => Ok(LastVisit(d.as_secs())),
            Err(_) => Err(Error::SystemTime),
        }
    }
}

} // verus!
