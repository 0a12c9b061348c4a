//! Ranking stored entries against a fuzzy query: every entry the matcher
//! scores becomes a hit, and hits are ordered by descending score, ties
//! broken by descending last-visit time.

use vstd::multiset::Multiset;
use vstd::prelude::*;

use crate::codec::models;
use crate::entry::Entry;
use crate::store::Entries;

use fuzzy_matcher::FuzzyMatcher;

verus! {

/// The score the external fuzzy matcher assigns to a path for a query, or
/// nothing when the path does not match. The scoring itself is opaque and
/// owned by the matcher; it depends on the two byte strings alone.
pub uninterp spec fn fuzzy_score(path: Seq<u8>, query: Seq<u8>) -> Option<i64>;

/// Relies on fuzzy_matcher's SkimMatcherV2 under its default
/// configuration: a deterministic score for a (path, query) pair, higher
/// meaning a better match, nothing when the path does not match. A path or
/// query that is not valid UTF-8 gets no score, as str::from_utf8 decides.
#[verifier::external_body]
fn score_path(path: &Vec<u8>, query: &Vec<u8>) -> (r: Option<i64>)
    ensures
        r == fuzzy_score(path@, query@),
{
    match (core::str::from_utf8(path), core::str::from_utf8(query)) {
        (Ok(p), Ok(q)) => fuzzy_matcher::skim::SkimMatcherV2::default().fuzzy_match(p, q),
        _ => None,
    }
}

/// One query hit: the matcher's score, and the entry's visit time and
/// path.
#[derive(Debug)]
pub struct Match {
    pub score: i64,
    pub last_visit: u64,
    pub path: Vec<u8>,
}

impl View for Match {
    type V = (i64, u64, Seq<u8>);

    open spec fn view(&self) -> (i64, u64, Seq<u8>) {
        (self.score, self.last_visit, self.path@)
    }
}

/// The models of a sequence of hits.
pub open spec fn match_models(s: Seq<Match>) -> Seq<(i64, u64, Seq<u8>)> {
    s.map_values(|m: Match| m@)
}

/// The hits for a query, in store order: each stored entry the matcher
/// scores, paired with its score.
pub open spec fn scored(s: Seq<(Seq<u8>, u64)>, query: Seq<u8>) -> Seq<(i64, u64, Seq<u8>)>
    decreases s.len(),
{
    if s.len() == 0 {
        Seq::empty()
    } else {
        let rest = scored(s.drop_last(), query);
        match fuzzy_score(s.last().0, query) {
            Some(sc) => rest.push((sc, s.last().1, s.last().0)),
            None => rest,
        }
    }
}

/// `a` may stand before `b` in ranked output: a higher score first, and
/// between equal scores the more recently visited first.
pub open spec fn rank_le(a: (i64, u64, Seq<u8>), b: (i64, u64, Seq<u8>)) -> bool {
    a.0 > b.0 || (a.0 == b.0 && a.1 >= b.1)
}

/// The whole sequence is in ranked order.
pub open spec fn ranked(s: Seq<(i64, u64, Seq<u8>)>) -> bool {
    forall|i: int, j: int| 0 <= i < j < s.len() ==> rank_le(#[trigger] s[i], #[trigger] s[j])
}

/// Between equal scores, ranked order puts the more recent visit first.
pub proof fn lemma_ranked_tie_break(s: Seq<(i64, u64, Seq<u8>)>, i: int, j: int)
    requires
        ranked(s),
        0 <= i < j < s.len(),
        s[i].0 == s[j].0,
    ensures
        s[i].1 >= s[j].1,
{
    assert(rank_le(s[i], s[j]));
}

/// Errors of a query.
#[derive(Debug)]
pub enum Error {
    /// The query scored no stored path.
    NoMatches,
}

impl Error {
    /// A fixed human-readable message for this error.
    pub fn message(&self) -> (r: &'static str)
        ensures
            r@.len() > 0,
    {
        let r = match self {
            Error::NoMatches => "No matches",
        };
        proof {
            reveal_strlit("No matches");
        }
        r
    }
}

fn le_match(a: &Match, b: &Match) -> (r: bool)
    ensures
        r == rank_le(a@, b@),
{
    a.score > b.score || (a.score == b.score && a.last_visit >= b.last_visit)
}

/// Sorts hits into ranked order, keeping exactly the same hits.
fn sort_matches(input: Vec<Match>) -> (r: Vec<Match>)
    ensures
        match_models(r@).to_multiset() == match_models(input@).to_multiset(),
        ranked(match_models(r@)),
        r@.len() == input@.len(),
{
    broadcast use vstd::seq_lib::group_to_multiset_ensures;

    let ghost orig = match_models(input@);
    let mut rest = input;
    let mut out: Vec<Match> = Vec::new();
    assert(match_models(out@) =~= Seq::<(i64, u64, Seq<u8>)>::empty());
    assert(match_models(out@).to_multiset().add(match_models(rest@).to_multiset())
        =~= orig.to_multiset());
    while rest.len() > 0
        invariant
            match_models(out@).to_multiset().add(match_models(rest@).to_multiset())
                == orig.to_multiset(),
            ranked(match_models(out@)),
            forall|i: int, j: int|
                0 <= i < out@.len() && 0 <= j < rest@.len() ==> rank_le(
                    #[trigger] match_models(out@)[i],
                    #[trigger] match_models(rest@)[j],
                ),
            out@.len() + rest@.len() == orig.len(),
        decreases rest@.len(),
    {
        let mut best: usize = 0;
        let mut k: usize = 1;
        while k < rest.len()
            invariant
                0 <= best < rest@.len(),
                1 <= k <= rest@.len(),
                forall|j: int|
                    0 <= j < k ==> rank_le(
                        match_models(rest@)[best as int],
                        #[trigger] match_models(rest@)[j],
                    ),
            decreases rest@.len() - k,
        {
            if !le_match(&rest[best], &rest[k]) {
                assert(rank_le(rest@[k as int]@, rest@[best as int]@));
                best = k;
            }
            k = k + 1;
        }
        let ghost o = match_models(out@);
        let ghost rr = match_models(rest@);
        let ghost b = rr[best as int];
        assert(rr.contains(b));
        let m = rest.remove(best);
        assert(m@ == b);
        out.push(m);
        proof {
            assert(match_models(out@) =~= o.push(b));
            assert(match_models(rest@) =~= rr.remove(best as int));
            o.to_multiset_ensures();
            rr.to_multiset_ensures();
            assert(match_models(out@).to_multiset() =~= o.to_multiset().insert(b));
            assert(match_models(rest@).to_multiset() =~= rr.to_multiset().remove(b));
            assert(rr.to_multiset().count(b) > 0);
            assert(match_models(out@).to_multiset().add(match_models(rest@).to_multiset())
                =~= o.to_multiset().add(rr.to_multiset()));
            // the appended hit stays in ranked order, and still precedes
            // everything left
            assert forall|i: int, j: int|
                0 <= i < j < match_models(out@).len() implies rank_le(
                #[trigger] match_models(out@)[i],
                #[trigger] match_models(out@)[j],
            ) by {
                if j == match_models(out@).len() - 1 {
                    assert(match_models(out@)[i] == o[i]);
                    assert(match_models(out@)[j] == b);
                } else {
                    assert(match_models(out@)[i] == o[i]);
                    assert(match_models(out@)[j] == o[j]);
                }
            }
            assert forall|i: int, j: int|
                0 <= i < match_models(out@).len() && 0 <= j < match_models(rest@).len() implies
                rank_le(#[trigger] match_models(out@)[i], #[trigger] match_models(rest@)[j]) by {
                let rj = if j < best { j } else { j + 1 };
                assert(match_models(rest@)[j] == rr[rj]);
                if i < match_models(out@).len() - 1 {
                    assert(match_models(out@)[i] == o[i]);
                } else {
                    assert(match_models(out@)[i] == b);
                }
            }
        }
    }
    assert(match_models(rest@) =~= Seq::<(i64, u64, Seq<u8>)>::empty());
    assert(match_models(rest@).to_multiset() =~= Multiset::<(i64, u64, Seq<u8>)>::empty());
    assert(match_models(out@).to_multiset() =~= orig.to_multiset());
    out
}

/// Scores every stored entry against the query and returns the hits in
/// ranked order; `NoMatches` exactly when no stored path scores.
pub fn rank(store: &Entries, query: &Vec<u8>) -> (r: Result<Vec<Match>, Error>)
    ensures
        match r {
            Ok(ms) => scored(store@, query@).len() > 0 && match_models(ms@).to_multiset()
                == scored(store@, query@).to_multiset() && ranked(match_models(ms@)) && ms@.len()
                == scored(store@, query@).len(),
            Err(e) => e is NoMatches && scored(store@, query@).len() == 0,
        },
{
    let list = store.entries();
    let ghost m = models(list@);
    let mut hits: Vec<Match> = Vec::new();
    let mut i: usize = 0;
    assert(match_models(hits@) =~= scored(m.take(0), query@));
    while i < list.len()
        invariant
            m == models(list@),
            0 <= i <= list@.len(),
            match_models(hits@) == scored(m.take(i as int), query@),
        decreases list@.len() - i,
    {
        let e = &list[i];
        assert(e@ == m[i as int]);
        let ghost old_hits = match_models(hits@);
        let sc = score_path(&e.path, query);
        if let Some(score) = sc {
            let path = vstd::slice::slice_to_vec(e.path.as_slice());
            hits.push(Match { score, last_visit: e.last_visit, path });
            assert(match_models(hits@) =~= old_hits.push((score, m[i as int].1, m[i as int].0)));
        }
        proof {
            let t1 = m.take(i + 1);
            assert(t1.drop_last() =~= m.take(i as int));
            assert(t1.last() == m[i as int]);
            assert(match_models(hits@) == scored(t1, query@));
        }
        i = i + 1;
    }
    assert(m.take(list@.len() as int) =~= m);
    if hits.len() == 0 {
        assert(scored(m, query@).len() == match_models(hits@).len());
        Err(Error::NoMatches)
    } else {
        let sorted = sort_matches(hits);
        Ok(sorted)
    }
}

/// The decimal digits of `n`, most significant first, as ASCII bytes.
pub open spec fn dec_digits(n: nat) -> Seq<u8>
    decreases n,
{
    if n < 10 {
        seq![(48 + n) as u8]
    } else {
        dec_digits(n / 10).push((48 + n % 10) as u8)
    }
}

/// The decimal form of a score, with a leading minus for a negative one.
pub open spec fn dec_score(v: i64) -> Seq<u8> {
    if v >= 0 {
        dec_digits(v as nat)
    } else {
        seq![45u8] + dec_digits((-(v as int)) as nat)
    }
}

/// Appends the decimal digits of `n`.
fn push_decimal(n: u64, out: &mut Vec<u8>)
    ensures
        final(out)@ == old(out)@ + dec_digits(n as nat),
    decreases n,
{
    if n < 10 {
        out.push(48 + (n as u8));
        assert(out@ =~= old(out)@ + dec_digits(n as nat));
    } else {
        assert(n / 10 < n) by (nonlinear_arith)
            requires
                n >= 10,
        ;
        push_decimal(n / 10, out);
        let d = n % 10;
        assert(d < 10);
        out.push(48 + (d as u8));
        assert(out@ =~= old(out)@ + dec_digits(n as nat));
    }
}

/// One hit's printed line: the score, a space, then the path.
fn score_line(m: &Match) -> (r: Vec<u8>)
    ensures
        r@ == dec_score(m.score) + seq![32u8] + m.path@,
{
    let mut out: Vec<u8> = Vec::new();
    if m.score < 0 {
        out.push(45u8);
        assert(out@ =~= seq![45u8]);
        let mag: u64 = ((-(m.score + 1)) as u64) + 1;
        assert(mag == -(m.score as int));
        push_decimal(mag, &mut out);
    } else {
        assert(out@ =~= Seq::<u8>::empty());
        push_decimal(m.score as u64, &mut out);
        assert(out@ =~= dec_digits(m.score as nat));
    }
    out.push(32u8);
    let mut p = vstd::slice::slice_to_vec(m.path.as_slice());
    out.append(&mut p);
    assert(out@ =~= dec_score(m.score) + seq![32u8] + m.path@);
    out
}

/// The printed lines for the hits: a single hit prints its path alone,
/// with no score; several hits print one line each in ranked order, the
/// score, a space, then the path.
pub open spec fn render_spec(ms: Seq<(i64, u64, Seq<u8>)>) -> Seq<Seq<u8>> {
    if ms.len() == 1 {
        seq![ms[0].2]
    } else {
        ms.map_values(|m: (i64, u64, Seq<u8>)| dec_score(m.0) + seq![32u8] + m.2)
    }
}

/// Renders ranked hits into output lines, as `render_spec` lays down.
pub fn render(ms: &Vec<Match>) -> (r: Vec<Vec<u8>>)
    ensures
        r@.map_values(|l: Vec<u8>| l@) == render_spec(match_models(ms@)),
{
    if ms.len() == 1 {
        let p = vstd::slice::slice_to_vec(ms[0].path.as_slice());
        let mut out: Vec<Vec<u8>> = Vec::new();
        out.push(p);
        assert(out@.map_values(|l: Vec<u8>| l@) =~= render_spec(match_models(ms@)));
        out
    } else {
        let ghost mm = match_models(ms@);
        let mut out: Vec<Vec<u8>> = Vec::new();
        let mut i: usize = 0;
        while i < ms.len()
            invariant
                0 <= i <= ms@.len(),
                mm == match_models(ms@),
                out@.len() == i,
                forall|j: int|
                    0 <= j < i ==> (#[trigger] out@[j])@ == dec_score(mm[j].0) + seq![32u8]
                        + mm[j].2,
            decreases ms@.len() - i,
        {
            let line = score_line(&ms[i]);
            assert(ms@[i as int]@ == mm[i as int]);
            out.push(line);
            i = i + 1;
        }
        assert(ms@.len() != 1);
        assert(out@.map_values(|l: Vec<u8>| l@) =~= render_spec(mm));
        out
    }
}

} // verus!
