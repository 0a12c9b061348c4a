//! Lexicographic (bytewise) order over paths, the total order the store is
//! sorted by.

use vstd::prelude::*;

verus! {

/// Strict lexicographic order over byte sequences: `a` comes before `b`
/// when `a` is a proper prefix of `b`, or when at the first differing
/// position `a` holds the smaller byte.
pub open spec fn lex_lt(a: Seq<u8>, b: Seq<u8>) -> bool
    decreases a.len(),
{
    if b.len() == 0 {
        false
    } else if a.len() == 0 {
        true
    } else if a[0] < b[0] {
        true
    } else if a[0] == b[0] {
        lex_lt(a.skip(1), b.skip(1))
    } else {
        false
    }
}

pub proof fn lemma_lex_irreflexive(a: Seq<u8>)
    ensures
        !lex_lt(a, a),
    decreases a.len(),
{
    if a.len() > 0 {
        lemma_lex_irreflexive(a.skip(1));
    }
}

pub proof fn lemma_lex_trichotomy(a: Seq<u8>, b: Seq<u8>)
    ensures
        lex_lt(a, b) || lex_lt(b, a) || a == b,
    decreases a.len(),
{
    if a.len() == 0 && b.len() == 0 {
        assert(a =~= b);
    } else if a.len() > 0 && b.len() > 0 && a[0] == b[0] {
        lemma_lex_trichotomy(a.skip(1), b.skip(1));
        if !lex_lt(a, b) && !lex_lt(b, a) {
            assert(a.skip(1) == b.skip(1));
            assert(a.len() == b.len());
            assert forall|i: int| 0 <= i < a.len() implies a[i] == b[i] by {
                if i >= 1 {
                    assert(a.skip(1)[i - 1] == a[i]);
                    assert(b.skip(1)[i - 1] == b[i]);
                }
            }
            assert(a =~= b);
        }
    }
}

pub proof fn lemma_lex_asymmetric(a: Seq<u8>, b: Seq<u8>)
    ensures
        lex_lt(a, b) ==> !lex_lt(b, a),
    decreases a.len(),
{
    if a.len() > 0 && b.len() > 0 && a[0] == b[0] {
        lemma_lex_asymmetric(a.skip(1), b.skip(1));
    }
}

pub proof fn lemma_lex_transitive(a: Seq<u8>, b: Seq<u8>, c: Seq<u8>)
    ensures
        lex_lt(a, b) && lex_lt(b, c) ==> lex_lt(a, c),
    decreases a.len(),
{
    if a.len() > 0 && b.len() > 0 && c.len() > 0 {
        lemma_lex_transitive(a.skip(1), b.skip(1), c.skip(1));
    }
}

/// When the first `i` bytes agree, the order is decided by the remainders.
proof fn lemma_lex_skip_step(a: Seq<u8>, b: Seq<u8>, i: int)
    requires
        0 <= i < a.len(),
        i < b.len(),
        a[i] == b[i],
    ensures
        lex_lt(a.skip(i), b.skip(i)) == lex_lt(a.skip(i + 1), b.skip(i + 1)),
{
    assert(a.skip(i)[0] == a[i]);
    assert(b.skip(i)[0] == b[i]);
    assert(a.skip(i).skip(1) =~= a.skip(i + 1));
    assert(b.skip(i).skip(1) =~= b.skip(i + 1));
}

/// Three-way bytewise comparison; the executable counterpart of `lex_lt`.
pub fn cmp_bytes(a: &Vec<u8>, b: &Vec<u8>) -> (r: core::cmp::Ordering)
    ensures
        r == core::cmp::Ordering::Less <==> lex_lt(a@, b@),
        r == core::cmp::Ordering::Greater <==> lex_lt(b@, a@),
        r == core::cmp::Ordering::Equal <==> a@ == b@,
{
    proof {
        lemma_lex_trichotomy(a@, b@);
        lemma_lex_asymmetric(a@, b@);
        lemma_lex_irreflexive(a@);
    }
    let n: usize = if a.len() < b.len() {
        a.len()
    } else {
        b.len()
    };
    let mut i: usize = 0;
    assert(a@.skip(0) =~= a@);
    assert(b@.skip(0) =~= b@);
    while i < n
        invariant
            0 <= i <= n,
            n <= a@.len(),
            n <= b@.len(),
            n == a@.len() || n == b@.len(),
            forall|j: int| 0 <= j < i ==> a@[j] == b@[j],
            lex_lt(a@, b@) == lex_lt(a@.skip(i as int), b@.skip(i as int)),
            lex_lt(b@, a@) == lex_lt(b@.skip(i as int), a@.skip(i as int)),
        decreases n - i,
    {
        let x = a[i];
        let y = b[i];
        proof {
            assert(a@.skip(i as int)[0] == a@[i as int]);
            assert(b@.skip(i as int)[0] == b@[i as int]);
        }
        if x < y {
            proof {
                lemma_lex_asymmetric(a@, b@);
                lemma_lex_irreflexive(a@);
            }
            assert(lex_lt(a@.skip(i as int), b@.skip(i as int)));
            return core::cmp::Ordering::Less;
        }
        if y < x {
            proof {
                lemma_lex_asymmetric(b@, a@);
                lemma_lex_irreflexive(a@);
            }
            assert(lex_lt(b@.skip(i as int), a@.skip(i as int)));
            return core::cmp::Ordering::Greater;
        }
        proof {
            lemma_lex_skip_step(a@, b@, i as int);
            lemma_lex_skip_step(b@, a@, i as int);
        }
        i = i + 1;
    }
    if a.len() < b.len() {
        assert(lex_lt(a@.skip(i as int), b@.skip(i as int)));
        core::cmp::Ordering::Less
    } else if b.len() < a.len() {
        assert(lex_lt(b@.skip(i as int), a@.skip(i as int)));
        core::cmp::Ordering::Greater
    } else {
        assert(a@ =~= b@);
        proof {
            lemma_lex_irreflexive(a@);
        }
        core::cmp::Ordering::Equal
    }
}

} // verus!
