//! The entry store's transaction core: a sequence of entries strictly
//! ordered by path, at most one entry per path, every entry within the
//! retention window of the last mutation. The upsert transaction prunes
//! stale entries and then inserts or refreshes the visited path; healing
//! re-sorts and deduplicates a sequence read from disk.

use vstd::prelude::*;

use crate::codec;
use crate::codec::models;
use crate::entry::{fresh_at, Access, Entry, LastVisit, RETENTION_DAYS};
use crate::order::{
    cmp_bytes, lemma_lex_asymmetric, lemma_lex_irreflexive, lemma_lex_transitive,
    lemma_lex_trichotomy, lex_lt,
};

verus! {

/// Strictly ordered by path: the store's structural invariant. It implies
/// that every path occurs at most once.
pub open spec fn sorted_strict(s: Seq<(Seq<u8>, u64)>) -> bool {
    forall|i: int, j: int| 0 <= i < j < s.len() ==> lex_lt(s[i].0, s[j].0)
}

/// Some entry records path `p`.
pub open spec fn contains_path(s: Seq<(Seq<u8>, u64)>, p: Seq<u8>) -> bool {
    exists|i: int| 0 <= i < s.len() && s[i].0 == p
}

/// The index of the entry recording path `p` (unique in a sorted store).
pub open spec fn path_index(s: Seq<(Seq<u8>, u64)>, p: Seq<u8>) -> int {
    choose|i: int| 0 <= i < s.len() && s[i].0 == p
}

/// The last-visit time stored for path `p`.
pub open spec fn visit_at(s: Seq<(Seq<u8>, u64)>, p: Seq<u8>) -> u64 {
    s[path_index(s, p)].1
}

/// The paths alone, in store order.
pub open spec fn paths(s: Seq<(Seq<u8>, u64)>) -> Seq<Seq<u8>> {
    s.map_values(|e: (Seq<u8>, u64)| e.0)
}

/// The retention pass: the subsequence of entries still fresh at `now`.
pub open spec fn prune_spec(s: Seq<(Seq<u8>, u64)>, now: u64) -> Seq<(Seq<u8>, u64)>
    decreases s.len(),
{
    if s.len() == 0 {
        Seq::empty()
    } else {
        let rest = prune_spec(s.drop_last(), now);
        if fresh_at(s.last().1, now) {
            rest.push(s.last())
        } else {
            rest
        }
    }
}

/// The sorted upsert: replaces the entry for `path` with `(path, lv)`, or
/// inserts it at its ordered position.
pub open spec fn insert_spec(s: Seq<(Seq<u8>, u64)>, path: Seq<u8>, lv: u64) -> Seq<
    (Seq<u8>, u64),
>
    decreases s.len(),
{
    if s.len() == 0 {
        seq![(path, lv)]
    } else if lex_lt(s[0].0, path) {
        seq![s[0]] + insert_spec(s.skip(1), path, lv)
    } else if s[0].0 == path {
        seq![(path, lv)] + s.skip(1)
    } else {
        seq![(path, lv)] + s
    }
}

/// One whole upsert transaction on the decoded sequence: prune, then
/// insert or refresh the visited path.
pub open spec fn upsert_spec(s: Seq<(Seq<u8>, u64)>, path: Seq<u8>, now: u64) -> Seq<
    (Seq<u8>, u64),
> {
    insert_spec(prune_spec(s, now), path, now)
}

/// The integrity pass over a sequence read from disk: fold every record
/// into an empty store in order, keeping the greatest last-visit time per
/// path.
pub open spec fn heal_spec(s: Seq<(Seq<u8>, u64)>) -> Seq<(Seq<u8>, u64)>
    decreases s.len(),
{
    if s.len() == 0 {
        Seq::empty()
    } else {
        let acc = heal_spec(s.drop_last());
        let e = s.last();
        if contains_path(acc, e.0) && visit_at(acc, e.0) >= e.1 {
            acc
        } else {
            insert_spec(acc, e.0, e.1)
        }
    }
}

proof fn lemma_push_contains<T>(x: Seq<T>, v: T, e: T)
    ensures
        x.push(v).contains(e) <==> (x.contains(e) || e == v),
{
    if x.push(v).contains(e) {
        let i = choose|i: int| 0 <= i < x.push(v).len() && x.push(v)[i] == e;
        if i < x.len() {
            assert(x[i] == e);
        }
    }
    if x.contains(e) {
        let i = choose|i: int| 0 <= i < x.len() && x[i] == e;
        assert(x.push(v)[i] == e);
    }
    if e == v {
        assert(x.push(v)[x.len() as int] == e);
    }
}

proof fn lemma_drop_last_contains<T>(s: Seq<T>, e: T)
    requires
        s.len() > 0,
    ensures
        s.contains(e) <==> (s.drop_last().contains(e) || e == s.last()),
{
    if s.contains(e) {
        let i = choose|i: int| 0 <= i < s.len() && s[i] == e;
        if i < s.len() - 1 {
            assert(s.drop_last()[i] == e);
        }
    }
    if s.drop_last().contains(e) {
        let i = choose|i: int| 0 <= i < s.drop_last().len() && s.drop_last()[i] == e;
        assert(s[i] == e);
    }
    assert(s[s.len() - 1] == s.last());
}

proof fn lemma_sorted_drop_last(s: Seq<(Seq<u8>, u64)>)
    requires
        sorted_strict(s),
        s.len() > 0,
    ensures
        sorted_strict(s.drop_last()),
{
    assert forall|i: int, j: int| 0 <= i < j < s.drop_last().len() implies lex_lt(
        #[trigger] s.drop_last()[i].0,
        #[trigger] s.drop_last()[j].0,
    ) by {
        assert(s.drop_last()[i] == s[i]);
        assert(s.drop_last()[j] == s[j]);
    }
}

proof fn lemma_sorted_skip1(s: Seq<(Seq<u8>, u64)>)
    requires
        sorted_strict(s),
        s.len() > 0,
    ensures
        sorted_strict(s.skip(1)),
{
    assert forall|i: int, j: int| 0 <= i < j < s.skip(1).len() implies lex_lt(
        #[trigger] s.skip(1)[i].0,
        #[trigger] s.skip(1)[j].0,
    ) by {
        assert(s.skip(1)[i] == s[i + 1]);
        assert(s.skip(1)[j] == s[j + 1]);
    }
}

/// A strictly sorted store holds at most one entry per path.
pub proof fn lemma_sorted_unique_paths(s: Seq<(Seq<u8>, u64)>, i: int, j: int)
    requires
        sorted_strict(s),
        0 <= i < s.len(),
        0 <= j < s.len(),
        i != j,
    ensures
        s[i].0 != s[j].0,
{
    if i < j {
        assert(lex_lt(s[i].0, s[j].0));
    } else {
        assert(lex_lt(s[j].0, s[i].0));
    }
    lemma_lex_irreflexive(s[i].0);
}

/// In a sorted store the entry for a path sits at one index only.
pub proof fn lemma_unique_index(s: Seq<(Seq<u8>, u64)>, i: int)
    requires
        sorted_strict(s),
        0 <= i < s.len(),
    ensures
        path_index(s, s[i].0) == i,
        contains_path(s, s[i].0),
        visit_at(s, s[i].0) == s[i].1,
{
    let p = s[i].0;
    assert(contains_path(s, p));
    let j = path_index(s, p);
    assert(0 <= j < s.len() && s[j].0 == p);
    if j < i {
        assert(lex_lt(s[j].0, s[i].0));
        lemma_lex_irreflexive(p);
    }
    if i < j {
        assert(lex_lt(s[i].0, s[j].0));
        lemma_lex_irreflexive(p);
    }
}

/// What the retention pass keeps: exactly the fresh entries, in their old
/// order.
pub proof fn lemma_prune_props(s: Seq<(Seq<u8>, u64)>, now: u64)
    ensures
        forall|e: (Seq<u8>, u64)| #[trigger]
            prune_spec(s, now).contains(e) <==> (s.contains(e) && fresh_at(e.1, now)),
        sorted_strict(s) ==> sorted_strict(prune_spec(s, now)),
        prune_spec(s, now).len() <= s.len(),
    decreases s.len(),
{
    if s.len() > 0 {
        let dl = s.drop_last();
        let last = s.last();
        lemma_prune_props(dl, now);
        if sorted_strict(s) {
            lemma_sorted_drop_last(s);
        }
        assert forall|e: (Seq<u8>, u64)|
            #![trigger prune_spec(s, now).contains(e)]
            true implies (prune_spec(s, now).contains(e) <==> (s.contains(e) && fresh_at(
            e.1,
            now,
        ))) by {
            lemma_drop_last_contains(s, e);
            if fresh_at(last.1, now) {
                lemma_push_contains(prune_spec(dl, now), last, e);
            }
        }
        if sorted_strict(s) && fresh_at(last.1, now) {
            let pr = prune_spec(dl, now).push(last);
            assert forall|i: int, j: int| 0 <= i < j < pr.len() implies lex_lt(
                #[trigger] pr[i].0,
                #[trigger] pr[j].0,
            ) by {
                if j < pr.len() - 1 {
                    assert(pr[i] == prune_spec(dl, now)[i]);
                    assert(pr[j] == prune_spec(dl, now)[j]);
                } else {
                    assert(pr[j] == last);
                    assert(pr[i] == prune_spec(dl, now)[i]);
                    assert(prune_spec(dl, now).contains(prune_spec(dl, now)[i]));
                    assert(dl.contains(pr[i]));
                    let k = choose|k: int| 0 <= k < dl.len() && dl[k] == pr[i];
                    assert(s[k] == pr[i]);
                    assert(lex_lt(s[k].0, s[s.len() - 1].0));
                }
            }
        }
    }
}

/// Pruning a store whose entries are all fresh changes nothing.
pub proof fn lemma_prune_all_fresh(s: Seq<(Seq<u8>, u64)>, now: u64)
    requires
        forall|i: int| 0 <= i < s.len() ==> fresh_at((#[trigger] s[i]).1, now),
    ensures
        prune_spec(s, now) == s,
    decreases s.len(),
{
    if s.len() > 0 {
        let dl = s.drop_last();
        assert(forall|i: int| 0 <= i < dl.len() ==> dl[i] == s[i]);
        lemma_prune_all_fresh(dl, now);
        assert(s[s.len() - 1] == s.last());
        assert(prune_spec(s, now) =~= s);
    } else {
        assert(prune_spec(s, now) =~= s);
    }
}

/// What the sorted upsert produces: the visited path present with the new
/// time, every other entry kept, order kept, nothing else.
pub proof fn lemma_insert_props(s: Seq<(Seq<u8>, u64)>, p: Seq<u8>, lv: u64)
    requires
        sorted_strict(s),
    ensures
        sorted_strict(insert_spec(s, p, lv)),
        insert_spec(s, p, lv).contains((p, lv)),
        forall|e: (Seq<u8>, u64)| #[trigger]
            insert_spec(s, p, lv).contains(e) ==> ((s.contains(e) && e.0 != p) || e == (p, lv)),
        forall|e: (Seq<u8>, u64)|
            s.contains(e) && (#[trigger] e.0) != p ==> insert_spec(s, p, lv).contains(e),
        contains_path(s, p) ==> insert_spec(s, p, lv).len() == s.len(),
        !contains_path(s, p) ==> insert_spec(s, p, lv).len() == s.len() + 1,
        contains_path(insert_spec(s, p, lv), p),
        visit_at(insert_spec(s, p, lv), p) == lv,
    decreases s.len(),
{
    let r = insert_spec(s, p, lv);
    lemma_lex_irreflexive(p);
    if s.len() == 0 {
        assert(r == seq![(p, lv)]);
        assert(r[0] == (p, lv));
        assert(r.contains((p, lv)));
        assert forall|e: (Seq<u8>, u64)| #[trigger] r.contains(e) implies ((s.contains(e) && e.0
            != p) || e == (p, lv)) by {
            let i = choose|i: int| 0 <= i < r.len() && r[i] == e;
            assert(e == (p, lv));
        }
        lemma_unique_index(r, 0);
    } else if lex_lt(s[0].0, p) {
        lemma_sorted_skip1(s);
        lemma_insert_props(s.skip(1), p, lv);
        let t = insert_spec(s.skip(1), p, lv);
        assert(r == seq![s[0]] + t);
        assert(r[0] == s[0]);
        assert(forall|i: int| 0 <= i < t.len() ==> r[i + 1] == t[i]);
        // order: everything in the tail is above s[0]
        assert forall|i: int| 0 <= i < t.len() implies lex_lt(s[0].0, (#[trigger] t[i]).0) by {
            assert(t.contains(t[i]));
            if t[i] == (p, lv) {
                assert(lex_lt(s[0].0, p));
            } else {
                assert(s.skip(1).contains(t[i]));
                let k = choose|k: int| 0 <= k < s.skip(1).len() && s.skip(1)[k] == t[i];
                assert(s[k + 1] == t[i]);
                assert(lex_lt(s[0].0, s[k + 1].0));
            }
        }
        assert forall|i: int, j: int| 0 <= i < j < r.len() implies lex_lt(
            #[trigger] r[i].0,
            #[trigger] r[j].0,
        ) by {
            if i == 0 {
                assert(r[j] == t[j - 1]);
            } else {
                assert(r[i] == t[i - 1]);
                assert(r[j] == t[j - 1]);
            }
        }
        // membership
        assert(t.contains((p, lv)));
        let k0 = choose|k: int| 0 <= k < t.len() && t[k] == (p, lv);
        assert(r[k0 + 1] == (p, lv));
        assert(r.contains((p, lv)));
        assert forall|e: (Seq<u8>, u64)| #[trigger] r.contains(e) implies ((s.contains(e) && e.0
            != p) || e == (p, lv)) by {
            let i = choose|i: int| 0 <= i < r.len() && r[i] == e;
            if i == 0 {
                assert(e == s[0]);
                assert(s.contains(e));
                lemma_lex_irreflexive(e.0);
            } else {
                assert(t[i - 1] == e);
                assert(t.contains(e));
                if e != (p, lv) {
                    assert(s.skip(1).contains(e));
                    let k = choose|k: int| 0 <= k < s.skip(1).len() && s.skip(1)[k] == e;
                    assert(s[k + 1] == e);
                    assert(s.contains(e));
                }
            }
        }
        assert forall|e: (Seq<u8>, u64)| s.contains(e) && (#[trigger] e.0) != p implies r.contains(
            e,
        ) by {
            let i = choose|i: int| 0 <= i < s.len() && s[i] == e;
            if i == 0 {
                assert(r[0] == e);
            } else {
                assert(s.skip(1)[i - 1] == e);
                assert(s.skip(1).contains(e));
                assert(t.contains(e));
                let k = choose|k: int| 0 <= k < t.len() && t[k] == e;
                assert(r[k + 1] == e);
            }
        }
        // length and lookup
        assert(contains_path(s, p) <==> contains_path(s.skip(1), p)) by {
            if contains_path(s, p) {
                let i = choose|i: int| 0 <= i < s.len() && s[i].0 == p;
                assert(i != 0);
                assert(s.skip(1)[i - 1].0 == p);
            }
            if contains_path(s.skip(1), p) {
                let i = choose|i: int| 0 <= i < s.skip(1).len() && s.skip(1)[i].0 == p;
                assert(s[i + 1].0 == p);
            }
        }
        let ki = choose|k: int| 0 <= k < r.len() && r[k] == (p, lv);
        lemma_unique_index(r, ki);
    } else if s[0].0 == p {
        lemma_sorted_skip1(s);
        assert(r == seq![(p, lv)] + s.skip(1));
        assert(r[0] == (p, lv));
        assert(r.contains((p, lv)));
        assert(forall|i: int| 0 <= i < s.skip(1).len() ==> r[i + 1] == s.skip(1)[i]);
        assert forall|i: int, j: int| 0 <= i < j < r.len() implies lex_lt(
            #[trigger] r[i].0,
            #[trigger] r[j].0,
        ) by {
            assert(r[j] == s.skip(1)[j - 1]);
            assert(s.skip(1)[j - 1] == s[j]);
            if i == 0 {
                assert(lex_lt(s[0].0, s[j].0));
            } else {
                assert(r[i] == s[i]);
            }
        }
        assert forall|e: (Seq<u8>, u64)| #[trigger] r.contains(e) implies ((s.contains(e) && e.0
            != p) || e == (p, lv)) by {
            let i = choose|i: int| 0 <= i < r.len() && r[i] == e;
            if i > 0 {
                assert(e == s[i]);
                assert(s.contains(e));
                assert(lex_lt(s[0].0, s[i].0));
                lemma_lex_irreflexive(p);
            }
        }
        assert forall|e: (Seq<u8>, u64)| s.contains(e) && (#[trigger] e.0) != p implies r.contains(
            e,
        ) by {
            let i = choose|i: int| 0 <= i < s.len() && s[i] == e;
            assert(i != 0);
            assert(r[i] == s.skip(1)[i - 1]);
            assert(r[i] == e);
        }
        assert(contains_path(s, p)) by {
            assert(s[0].0 == p);
        }
        lemma_unique_index(r, 0);
    } else {
        lemma_lex_trichotomy(s[0].0, p);
        assert(lex_lt(p, s[0].0));
        assert(r == seq![(p, lv)] + s);
        assert(r[0] == (p, lv));
        assert(r.contains((p, lv)));
        assert(forall|i: int| 0 <= i < s.len() ==> r[i + 1] == s[i]);
        assert forall|i: int| 0 <= i < s.len() implies lex_lt(p, (#[trigger] s[i]).0) by {
            if i > 0 {
                lemma_lex_transitive(p, s[0].0, s[i].0);
            }
        }
        assert forall|i: int, j: int| 0 <= i < j < r.len() implies lex_lt(
            #[trigger] r[i].0,
            #[trigger] r[j].0,
        ) by {
            assert(r[j] == s[j - 1]);
            if i > 0 {
                assert(r[i] == s[i - 1]);
            }
        }
        assert forall|e: (Seq<u8>, u64)| #[trigger] r.contains(e) implies ((s.contains(e) && e.0
            != p) || e == (p, lv)) by {
            let i = choose|i: int| 0 <= i < r.len() && r[i] == e;
            if i > 0 {
                assert(e == s[i - 1]);
                assert(s.contains(e));
                assert(lex_lt(p, e.0));
                lemma_lex_irreflexive(p);
            }
        }
        assert forall|e: (Seq<u8>, u64)| s.contains(e) && (#[trigger] e.0) != p implies r.contains(
            e,
        ) by {
            let i = choose|i: int| 0 <= i < s.len() && s[i] == e;
            assert(r[i + 1] == e);
        }
        assert(!contains_path(s, p)) by {
            if contains_path(s, p) {
                let i = choose|i: int| 0 <= i < s.len() && s[i].0 == p;
                lemma_lex_irreflexive(p);
            }
        }
        lemma_unique_index(r, 0);
    }
}

/// A found binary search pins the upsert down to an in-place overwrite.
pub proof fn lemma_insert_found(s: Seq<(Seq<u8>, u64)>, p: Seq<u8>, lv: u64, i: int)
    requires
        sorted_strict(s),
        0 <= i < s.len(),
        s[i].0 == p,
    ensures
        insert_spec(s, p, lv) == s.update(i, (p, lv)),
    decreases s.len(),
{
    lemma_lex_irreflexive(p);
    if i == 0 {
        assert(!lex_lt(s[0].0, p));
        assert(insert_spec(s, p, lv) =~= s.update(0, (p, lv)));
    } else {
        assert(lex_lt(s[0].0, s[i].0));
        lemma_sorted_skip1(s);
        assert(s.skip(1)[i - 1] == s[i]);
        lemma_insert_found(s.skip(1), p, lv, i - 1);
        assert(insert_spec(s, p, lv) =~= s.update(i, (p, lv)));
    }
}

/// A missed binary search pins the upsert down to an insertion at the
/// reported position.
pub proof fn lemma_insert_notfound(s: Seq<(Seq<u8>, u64)>, p: Seq<u8>, lv: u64, i: int)
    requires
        sorted_strict(s),
        0 <= i <= s.len(),
        forall|j: int| 0 <= j < i ==> lex_lt((#[trigger] s[j]).0, p),
        forall|j: int| i <= j < s.len() ==> lex_lt(p, (#[trigger] s[j]).0),
    ensures
        insert_spec(s, p, lv) == s.insert(i, (p, lv)),
    decreases s.len(),
{
    lemma_lex_irreflexive(p);
    if s.len() == 0 {
        assert(insert_spec(s, p, lv) =~= s.insert(0, (p, lv)));
    } else if i == 0 {
        assert(lex_lt(p, s[0].0));
        lemma_lex_asymmetric(p, s[0].0);
        assert(insert_spec(s, p, lv) =~= s.insert(0, (p, lv)));
    } else {
        assert(lex_lt(s[0].0, p));
        lemma_sorted_skip1(s);
        assert(forall|j: int| 0 <= j < i - 1 ==> s.skip(1)[j] == s[j + 1]);
        assert(forall|j: int| i - 1 <= j < s.skip(1).len() ==> s.skip(1)[j] == s[j + 1]);
        lemma_insert_notfound(s.skip(1), p, lv, i - 1);
        assert(insert_spec(s, p, lv) =~= s.insert(i, (p, lv)));
    }
}

/// What the integrity pass produces: a sorted store holding exactly the
/// input's paths, each with a last-visit time at least as recent as every
/// input record for it, and holding nothing but input records.
pub proof fn lemma_heal_props(s: Seq<(Seq<u8>, u64)>)
    ensures
        sorted_strict(heal_spec(s)),
        forall|e: (Seq<u8>, u64)| #[trigger] heal_spec(s).contains(e) ==> s.contains(e),
        forall|i: int| 0 <= i < s.len() ==> contains_path(heal_spec(s), (#[trigger] s[i]).0),
        forall|i: int| 0 <= i < s.len() ==> (#[trigger] s[i]).1 <= visit_at(heal_spec(s), s[i].0),
    decreases s.len(),
{
    if s.len() > 0 {
        let dl = s.drop_last();
        let e = s.last();
        let acc = heal_spec(dl);
        let r = heal_spec(s);
        lemma_heal_props(dl);
        assert(forall|i: int| 0 <= i < dl.len() ==> dl[i] == s[i]);
        assert(s[s.len() - 1] == e);
        if contains_path(acc, e.0) && visit_at(acc, e.0) >= e.1 {
            assert(r == acc);
            assert forall|x: (Seq<u8>, u64)| #[trigger] r.contains(x) implies s.contains(x) by {
                lemma_drop_last_contains(s, x);
            }
        } else {
            lemma_insert_props(acc, e.0, e.1);
            assert(r == insert_spec(acc, e.0, e.1));
            assert((e.0, e.1) == e);
            // everything in the result is an input record
            assert forall|x: (Seq<u8>, u64)| #[trigger] r.contains(x) implies s.contains(x) by {
                lemma_drop_last_contains(s, x);
                if x != (e.0, e.1) {
                    assert(acc.contains(x));
                }
            }
            // every input path is present
            assert forall|i: int| 0 <= i < s.len() implies contains_path(
                r,
                (#[trigger] s[i]).0,
            ) by {
                let q = s[i].0;
                if q == e.0 {
                    assert(contains_path(r, e.0));
                } else {
                    assert(i < s.len() - 1);
                    assert(contains_path(acc, q));
                    let k = path_index(acc, q);
                    assert(0 <= k < acc.len() && acc[k].0 == q);
                    assert(acc.contains(acc[k]));
                    assert(r.contains(acc[k]));
                    let k2 = choose|k2: int| 0 <= k2 < r.len() && r[k2] == acc[k];
                    assert(r[k2].0 == q);
                }
            }
            // no input record is more recent than what is kept for its path
            assert forall|i: int| 0 <= i < s.len() implies (#[trigger] s[i]).1 <= visit_at(
                r,
                s[i].0,
            ) by {
                let q = s[i].0;
                let ri = path_index(r, q);
                assert(contains_path(r, q));
                assert(0 <= ri < r.len() && r[ri].0 == q);
                if q == e.0 {
                    lemma_unique_index(r, ri);
                    assert(visit_at(r, e.0) == e.1);
                    if i < s.len() - 1 {
                        // an older record for the same path sat in acc
                        assert(s[i].1 <= visit_at(acc, q));
                        if contains_path(acc, q) {
                            assert(visit_at(acc, q) < e.1);
                        } else {
                            assert(!contains_path(acc, q));
                            assert(false) by {
                                assert(contains_path(acc, dl[i].0));
                            }
                        }
                    }
                } else {
                    assert(i < s.len() - 1);
                    assert(contains_path(acc, q));
                    let k = path_index(acc, q);
                    assert(0 <= k < acc.len() && acc[k].0 == q);
                    assert(s[i].1 <= acc[k].1) by {
                        lemma_unique_index(acc, k);
                    }
                    assert(acc.contains(acc[k]));
                    assert(r.contains(acc[k]));
                    let k2 = choose|k2: int| 0 <= k2 < r.len() && r[k2] == acc[k];
                    lemma_unique_index(r, k2);
                    assert(visit_at(r, q) == acc[k].1);
                }
            }
        }
    }
}

/// The store stays strictly ordered by path across any upsert.
pub proof fn lemma_upsert_sorted(s: Seq<(Seq<u8>, u64)>, p: Seq<u8>, now: u64)
    requires
        sorted_strict(s),
    ensures
        sorted_strict(upsert_spec(s, p, now)),
{
    lemma_prune_props(s, now);
    lemma_insert_props(prune_spec(s, now), p, now);
}

/// Retention: immediately after an upsert, every stored entry lies within
/// the retention window of that upsert's `now`; an entry that aged out is
/// gone, whether or not it relates to the visited path.
pub proof fn lemma_upsert_retention(s: Seq<(Seq<u8>, u64)>, p: Seq<u8>, now: u64)
    requires
        sorted_strict(s),
    ensures
        forall|i: int|
            0 <= i < upsert_spec(s, p, now).len() ==> fresh_at(
                (#[trigger] upsert_spec(s, p, now)[i]).1,
                now,
            ),
{
    lemma_prune_props(s, now);
    lemma_insert_props(prune_spec(s, now), p, now);
    let u = upsert_spec(s, p, now);
    assert forall|i: int| 0 <= i < u.len() implies fresh_at((#[trigger] u[i]).1, now) by {
        assert(u.contains(u[i]));
        if u[i] != (p, now) {
            assert(prune_spec(s, now).contains(u[i]));
        }
    }
}

/// Re-upserting a path the store already holds, while every entry is
/// still fresh, overwrites that entry's last_visit in place: length and
/// path order are unchanged, every other entry is untouched.
pub proof fn lemma_upsert_reaccess(s: Seq<(Seq<u8>, u64)>, p: Seq<u8>, now: u64)
    requires
        sorted_strict(s),
        contains_path(s, p),
        forall|i: int| 0 <= i < s.len() ==> fresh_at((#[trigger] s[i]).1, now),
    ensures
        upsert_spec(s, p, now) == s.update(path_index(s, p), (p, now)),
        upsert_spec(s, p, now).len() == s.len(),
        paths(upsert_spec(s, p, now)) == paths(s),
        forall|i: int|
            0 <= i < s.len() && (#[trigger] s[i]).0 != p ==> upsert_spec(s, p, now)[i] == s[i],
{
    lemma_prune_all_fresh(s, now);
    let i = path_index(s, p);
    assert(0 <= i < s.len() && s[i].0 == p);
    lemma_insert_found(s, p, now, i);
    let u = upsert_spec(s, p, now);
    assert(u == s.update(i, (p, now)));
    assert(paths(u) =~= paths(s));
    assert forall|j: int| 0 <= j < s.len() && (#[trigger] s[j]).0 != p implies u[j] == s[j] by {
        assert(j != i);
    }
}

/// Upserting the same path twice with the same time is the same as
/// upserting it once.
pub proof fn lemma_upsert_idempotent(s: Seq<(Seq<u8>, u64)>, p: Seq<u8>, now: u64)
    requires
        sorted_strict(s),
    ensures
        upsert_spec(upsert_spec(s, p, now), p, now) == upsert_spec(s, p, now),
{
    let u = upsert_spec(s, p, now);
    lemma_upsert_sorted(s, p, now);
    lemma_upsert_retention(s, p, now);
    lemma_prune_props(s, now);
    lemma_insert_props(prune_spec(s, now), p, now);
    assert(contains_path(u, p));
    assert(visit_at(u, p) == now);
    lemma_upsert_reaccess(u, p, now);
    let i = path_index(u, p);
    assert(0 <= i < u.len() && u[i].0 == p);
    lemma_unique_index(u, i);
    assert(u[i].1 == now);
    assert(u[i] == (p, now));
    assert(u.update(i, (p, now)) =~= u);
}

/// Two upserts of distinct paths against an empty store leave exactly the
/// two entries, sorted by path, each with its own visit time (the first
/// visit still fresh when the second lands).
pub proof fn lemma_disjoint_inserts(p1: Seq<u8>, p2: Seq<u8>, t1: u64, t2: u64)
    requires
        p1 != p2,
        fresh_at(t1, t2),
    ensures
        ({
            let s = upsert_spec(upsert_spec(Seq::empty(), p1, t1), p2, t2);
            &&& s.len() == 2
            &&& sorted_strict(s)
            &&& s.contains((p1, t1))
            &&& s.contains((p2, t2))
        }),
{
    let e: Seq<(Seq<u8>, u64)> = Seq::empty();
    assert(prune_spec(e, t1) =~= e);
    let s1 = upsert_spec(e, p1, t1);
    assert(s1 =~= seq![(p1, t1)]);
    assert(sorted_strict(s1));
    assert(forall|i: int| 0 <= i < s1.len() ==> fresh_at((#[trigger] s1[i]).1, t2));
    lemma_prune_all_fresh(s1, t2);
    lemma_insert_props(s1, p2, t2);
    let s = upsert_spec(s1, p2, t2);
    assert(!contains_path(s1, p2)) by {
        if contains_path(s1, p2) {
            let i = choose|i: int| 0 <= i < s1.len() && s1[i].0 == p2;
            assert(s1[i].0 == p1);
        }
    }
    assert(s.len() == 2);
    assert(s.contains((p2, t2)));
    assert(s1.contains((p1, t1)));
    assert(s.contains((p1, t1)));
}

/// Binary search by path over a sorted entry list: the index of the entry
/// for `path`, or the position where it belongs. The comparator is the
/// sole source of truth for ordering; the result is re-validated before
/// any index is used.
fn search(list: &Vec<Entry>, path: &Vec<u8>) -> (r: Result<usize, usize>)
    requires
        sorted_strict(models(list@)),
    ensures
        match r {
            Ok(i) => i < list@.len() && models(list@)[i as int].0 == path@,
            Err(i) => i <= list@.len() && (forall|j: int|
                0 <= j < i ==> lex_lt((#[trigger] models(list@)[j]).0, path@)) && (forall|j: int|
                i <= j < list@.len() ==> lex_lt(path@, (#[trigger] models(list@)[j]).0)),
        },
{
    let ghost s = models(list@);
    let mut lo: usize = 0;
    let mut hi: usize = list.len();
    while lo < hi
        invariant
            0 <= lo <= hi <= list@.len(),
            s == models(list@),
            sorted_strict(s),
            forall|j: int| 0 <= j < lo ==> lex_lt((#[trigger] s[j]).0, path@),
            forall|j: int| hi <= j < list@.len() ==> lex_lt(path@, (#[trigger] s[j]).0),
        decreases hi - lo,
    {
        let mid = lo + (hi - lo) / 2;
        assert(lo <= mid < hi);
        assert(list@[mid as int]@.0 == s[mid as int].0);
        match cmp_bytes(&list[mid].path, path) {
            core::cmp::Ordering::Less => {
                assert forall|j: int| 0 <= j < mid + 1 implies lex_lt(
                    (#[trigger] s[j]).0,
                    path@,
                ) by {
                    if j < mid {
                        assert(lex_lt(s[j].0, s[mid as int].0));
                        lemma_lex_transitive(s[j].0, s[mid as int].0, path@);
                    }
                }
                lo = mid + 1;
            },
            core::cmp::Ordering::Greater => {
                assert forall|j: int| mid <= j < list@.len() implies lex_lt(
                    path@,
                    (#[trigger] s[j]).0,
                ) by {
                    if j > mid {
                        assert(lex_lt(s[mid as int].0, s[j].0));
                        lemma_lex_transitive(path@, s[mid as int].0, s[j].0);
                    }
                }
                hi = mid;
            },
            core::cmp::Ordering::Equal => {
                return Ok(mid);
            },
        }
    }
    Err(lo)
}

/// The retention pass: keeps the entries visited fewer than
/// `RETENTION_DAYS` whole days before `now`, in order.
fn prune(list: Vec<Entry>, now: LastVisit) -> (r: Vec<Entry>)
    ensures
        models(r@) == prune_spec(models(list@), now.0),
{
    let ghost m = models(list@);
    let mut rest = list;
    let mut kept: Vec<Entry> = Vec::new();
    let ghost mut idx: int = 0;
    assert(models(kept@) =~= prune_spec(m.take(0), now.0));
    assert(rest@ =~= rest@.skip(0));
    while rest.len() > 0
        invariant
            0 <= idx <= m.len(),
            m == models(list@),
            rest@.len() == m.len() - idx,
            forall|j: int| 0 <= j < rest@.len() ==> rest@[j] == list@[idx + j],
            models(kept@) == prune_spec(m.take(idx), now.0),
        decreases rest@.len(),
    {
        let e = rest.remove(0);
        assert(e == list@[idx]);
        let keep = e.days_since(now) < RETENTION_DAYS;
        proof {
            crate::entry::lemma_days_retention(e.last_visit, now.0);
            assert(keep == fresh_at(e@.1, now.0));
        }
        let ghost old_kept = models(kept@);
        if keep {
            kept.push(e);
        }
        proof {
            let t1 = m.take(idx + 1);
            assert(t1.drop_last() =~= m.take(idx));
            assert(t1.last() == m[idx]);
            assert(m[idx] == list@[idx]@);
            if keep {
                assert(models(kept@) =~= old_kept.push(list@[idx]@));
            }
            assert(models(kept@) == prune_spec(t1, now.0));
            idx = idx + 1;
        }
    }
    assert(m.take(idx) =~= m);
    kept
}

/// The persistent entry store's in-memory form: entries strictly ordered
/// by path, at most one per path.
pub struct Entries {
    list: Vec<Entry>,
}

impl View for Entries {
    type V = Seq<(Seq<u8>, u64)>;

    closed spec fn view(&self) -> Seq<(Seq<u8>, u64)> {
        models(self.list@)
    }
}

impl Entries {
    /// The structural invariant every store value satisfies.
    pub open spec fn wf(&self) -> bool {
        sorted_strict(self@)
    }

    /// The empty store: what a missing or undecodable file denotes.
    pub fn empty() -> (r: Entries)
        ensures
            r@ == Seq::<(Seq<u8>, u64)>::empty(),
            r.wf(),
    {
        let list: Vec<Entry> = Vec::new();
        assert(models(list@) =~= Seq::<(Seq<u8>, u64)>::empty());
        Entries { list }
    }

    /// The number of stored entries.
    pub fn len(&self) -> (r: usize)
        ensures
            r == self@.len(),
    {
        self.list.len()
    }

    /// Read access to the stored entries, in store order.
    pub fn entries(&self) -> (r: &Vec<Entry>)
        ensures
            models(r@) == self@,
    {
        &self.list
    }

    /// The entry at position `i` of the store order.
    pub fn get(&self, i: usize) -> (r: &Entry)
        requires
            i < self@.len(),
        ensures
            r@ == self@[i as int],
    {
        &self.list[i]
    }

    /// The integrity pass: re-sorts a decoded record list and collapses
    /// duplicate paths to their most recent visit, healing any drift in a
    /// file written by another hand.
    pub fn from_list(list: Vec<Entry>) -> (r: Entries)
        ensures
            r@ == heal_spec(models(list@)),
            r.wf(),
    {
        let ghost m = models(list@);
        let mut rest = list;
        let mut acc: Vec<Entry> = Vec::new();
        let ghost mut idx: int = 0;
        assert(models(acc@) =~= heal_spec(m.take(0)));
        while rest.len() > 0
            invariant
                0 <= idx <= m.len(),
                m == models(list@),
                rest@.len() == m.len() - idx,
                forall|j: int| 0 <= j < rest@.len() ==> rest@[j] == list@[idx + j],
                models(acc@) == heal_spec(m.take(idx)),
                sorted_strict(models(acc@)),
            decreases rest@.len(),
        {
            let e = rest.remove(0);
            assert(e == list@[idx]);
            let ghost s = models(acc@);
            let ghost em = e@;
            match search(&acc, &e.path) {
                Ok(i) => {
                    assert(s[i as int].0 == em.0);
                    proof {
                        lemma_unique_index(s, i as int);
                        assert(contains_path(s, em.0));
                        assert(visit_at(s, em.0) == s[i as int].1);
                        assert(s[i as int].1 == acc@[i as int]@.1);
                    }
                    if acc[i].last_visit < e.last_visit {
                        proof {
                            lemma_insert_found(s, em.0, em.1, i as int);
                        }
                        acc[i] = e;
                        assert(models(acc@) =~= s.update(i as int, em));
                        proof {
                            lemma_insert_props(s, em.0, em.1);
                        }
                    }
                },
                Err(i) => {
                    proof {
                        assert(!contains_path(s, em.0)) by {
                            if contains_path(s, em.0) {
                                let j = choose|j: int| 0 <= j < s.len() && s[j].0 == em.0;
                                lemma_lex_irreflexive(em.0);
                            }
                        }
                        lemma_insert_notfound(s, em.0, em.1, i as int);
                        lemma_insert_props(s, em.0, em.1);
                    }
                    acc.insert(i, e);
                    assert(models(acc@) =~= s.insert(i as int, em));
                },
            }
            proof {
                let t1 = m.take(idx + 1);
                assert(t1.drop_last() =~= m.take(idx));
                assert(t1.last() == m[idx]);
                assert(m[idx] == em);
                assert(models(acc@) == heal_spec(t1));
                idx = idx + 1;
            }
        }
        assert(m.take(idx) =~= m);
        Entries { list: acc }
    }

    /// The pure core of `load`: decodes a store image, healing what it
    /// finds; a corrupt or truncated image is read as an empty store.
    pub fn from_bytes(bytes: &Vec<u8>) -> (r: Entries)
        ensures
            r.wf(),
            match codec::decode_store(bytes@) {
                Some(s) => r@ == heal_spec(s),
                None => r@ == Seq::<(Seq<u8>, u64)>::empty(),
            },
    {
        match codec::decode(bytes) {
            Some(list) => Entries::from_list(list),
            None => Entries::empty(),
        }
    }

    /// The store image to commit: the entries in their fixed binary form.
    pub fn to_bytes(&self) -> (r: Vec<u8>)
        ensures
            r@ == codec::encode_store(self@),
    {
        codec::encode(&self.list)
    }

    /// One upsert transaction: drops every entry that aged past the
    /// retention window at `now`, then records the visit of `access`'s
    /// path at `now` — in place if the path is already stored, at its
    /// ordered position otherwise.
    pub fn upsert(&mut self, access: Access, now: LastVisit)
        requires
            old(self).wf(),
        ensures
            final(self).wf(),
            final(self)@ == upsert_spec(old(self)@, access@, now.0),
            final(self)@.contains((access@, now.0)),
            forall|i: int|
                0 <= i < final(self)@.len() ==> fresh_at((#[trigger] final(self)@[i]).1, now.0),
            forall|e: (Seq<u8>, u64)|
                old(self)@.contains(e) && (#[trigger] e.0) != access@ && fresh_at(e.1, now.0)
                    ==> final(self)@.contains(e),
            forall|e: (Seq<u8>, u64)| #[trigger]
                final(self)@.contains(e) ==> ((old(self)@.contains(e) && e.0 != access@
                    && fresh_at(e.1, now.0)) || e == (access@, now.0)),
    {
        let ghost s0 = self@;
        let ghost p = access@;
        let e = Entry::new(access, now);
        let mut list: Vec<Entry> = Vec::new();
        core::mem::swap(&mut self.list, &mut list);
        let mut list = prune(list, now);
        let ghost pr = models(list@);
        proof {
            lemma_prune_props(s0, now.0);
            assert(sorted_strict(pr));
            lemma_insert_props(pr, p, now.0);
        }
        match search(&list, &e.path) {
            Ok(i) => {
                proof {
                    lemma_insert_found(pr, p, now.0, i as int);
                }
                list[i] = e;
                assert(models(list@) =~= pr.update(i as int, (p, now.0)));
            },
            Err(i) => {
                proof {
                    lemma_insert_notfound(pr, p, now.0, i as int);
                }
                list.insert(i, e);
                assert(models(list@) =~= pr.insert(i as int, (p, now.0)));
            },
        }
        self.list = list;
        proof {
            assert(self@ == insert_spec(pr, p, now.0));
            lemma_upsert_retention(s0, p, now.0);
            assert forall|i: int| 0 <= i < self@.len() implies fresh_at(
                (#[trigger] self@[i]).1,
                now.0,
            ) by {
                assert(self@[i] == upsert_spec(s0, p, now.0)[i]);
            }
            assert forall|x: (Seq<u8>, u64)|
                s0.contains(x) && (#[trigger] x.0) != p && fresh_at(x.1, now.0) implies self
                @.contains(x) by {
                assert(pr.contains(x));
            }
            assert forall|x: (Seq<u8>, u64)| #[trigger] self@.contains(x) implies ((s0.contains(x)
                && x.0 != p && fresh_at(x.1, now.0)) || x == (p, now.0)) by {
                if x != (p, now.0) {
                    assert(pr.contains(x));
                }
            }
        }
    }
}

} // verus!
