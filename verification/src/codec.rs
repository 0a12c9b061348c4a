//! The on-disk record format: a little-endian, fixed-width encoding of the
//! entry sequence. The file holds an 8-byte count, then one record per
//! entry: an 8-byte path length, the path bytes, and the 8-byte last-visit
//! time. Decoding is exact: leftover or missing bytes make the whole input
//! undecodable, and callers treat an undecodable store as empty.

use vstd::bytes::{
    lemma_auto_spec_u64_to_from_le_bytes, spec_u64_from_le_bytes, spec_u64_to_le_bytes,
    u64_from_le_bytes, u64_to_le_bytes,
};
use vstd::prelude::*;

use crate::entry::Entry;

verus! {

/// The models of a sequence of entries: each entry as its path bytes and
/// last-visit time.
pub open spec fn models(s: Seq<Entry>) -> Seq<(Seq<u8>, u64)> {
    s.map_values(|e: Entry| e@)
}

/// The bytes of one record.
pub open spec fn encode_entry(e: (Seq<u8>, u64)) -> Seq<u8> {
    spec_u64_to_le_bytes(e.0.len() as u64) + e.0 + spec_u64_to_le_bytes(e.1)
}

/// The bytes of the records, in sequence order.
pub open spec fn encode_records(s: Seq<(Seq<u8>, u64)>) -> Seq<u8>
    decreases s.len(),
{
    if s.len() == 0 {
        Seq::empty()
    } else {
        encode_records(s.drop_last()) + encode_entry(s.last())
    }
}

/// The bytes of the whole store: the entry count, then the records.
pub open spec fn encode_store(s: Seq<(Seq<u8>, u64)>) -> Seq<u8> {
    spec_u64_to_le_bytes(s.len() as u64) + encode_records(s)
}

/// Parses exactly `n` records out of `b`; `None` on truncation or on
/// leftover bytes.
pub open spec fn decode_records(b: Seq<u8>, n: nat) -> Option<Seq<(Seq<u8>, u64)>>
    decreases n,
{
    if n == 0 {
        if b.len() == 0 {
            Some(Seq::empty())
        } else {
            None
        }
    } else if b.len() < 8 {
        None
    } else {
        let plen = spec_u64_from_le_bytes(b.take(8)) as int;
        if b.len() < 16 + plen {
            None
        } else {
            let path = b.subrange(8, 8 + plen);
            let lv = spec_u64_from_le_bytes(b.subrange(8 + plen, 16 + plen));
            match decode_records(b.skip(16 + plen), (n - 1) as nat) {
                Some(tail) => Some(seq![(path, lv)] + tail),
                None => None,
            }
        }
    }
}

/// Parses a whole store image; `None` when the image is corrupt.
pub open spec fn decode_store(b: Seq<u8>) -> Option<Seq<(Seq<u8>, u64)>> {
    if b.len() < 8 {
        None
    } else {
        decode_records(b.skip(8), spec_u64_from_le_bytes(b.take(8)) as nat)
    }
}

/// Unfolding `encode_records` from the front instead of the back.
proof fn lemma_encode_records_first(s: Seq<(Seq<u8>, u64)>)
    requires
        s.len() > 0,
    ensures
        encode_records(s) == encode_entry(s[0]) + encode_records(s.skip(1)),
    decreases s.len(),
{
    if s.len() == 1 {
        assert(s.drop_last().len() == 0);
        assert(s.skip(1).len() == 0);
        assert(encode_records(s.drop_last()) =~= Seq::<u8>::empty());
        assert(encode_records(s.skip(1)) =~= Seq::<u8>::empty());
        assert(s.last() == s[0]);
        assert(Seq::<u8>::empty() + encode_entry(s[0]) =~= encode_entry(s[0]));
        assert(encode_entry(s[0]) + Seq::<u8>::empty() =~= encode_entry(s[0]));
        assert(encode_records(s) =~= encode_entry(s[0]) + encode_records(s.skip(1)));
    } else {
        lemma_encode_records_first(s.drop_last());
        assert(s.drop_last()[0] == s[0]);
        assert(s.skip(1).drop_last() =~= s.drop_last().skip(1));
        assert(s.skip(1).last() == s.last());
        assert(encode_records(s.skip(1)) == encode_records(s.skip(1).drop_last()) + encode_entry(
            s.skip(1).last(),
        ));
        assert(encode_records(s) =~= encode_entry(s[0]) + encode_records(s.skip(1)));
    }
}

/// Decoding is a left inverse of encoding, record by record.
proof fn lemma_decode_encode_records(s: Seq<(Seq<u8>, u64)>)
    requires
        forall|i: int| 0 <= i < s.len() ==> (#[trigger] s[i]).0.len() <= u64::MAX,
    ensures
        decode_records(encode_records(s), s.len()) == Some(s),
    decreases s.len(),
{
    lemma_auto_spec_u64_to_from_le_bytes();
    if s.len() == 0 {
        assert(decode_records(encode_records(s), 0) == Some(s)) by {
            assert(s =~= Seq::<(Seq<u8>, u64)>::empty());
        }
    } else {
        lemma_encode_records_first(s);
        let e = s[0];
        let head = encode_entry(e);
        let rest = encode_records(s.skip(1));
        let b = encode_records(s);
        assert(b == head + rest);
        let l = spec_u64_to_le_bytes(e.0.len() as u64);
        let v = spec_u64_to_le_bytes(e.1);
        assert(head == l + e.0 + v);
        assert(l.len() == 8 && v.len() == 8);
        assert(head.len() == 16 + e.0.len());
        assert(b.take(8) =~= l);
        assert(spec_u64_from_le_bytes(b.take(8)) == e.0.len() as u64);
        let plen = e.0.len() as int;
        assert(b.len() >= 16 + plen);
        assert(b.subrange(8, 8 + plen) =~= e.0);
        assert(b.subrange(8 + plen, 16 + plen) =~= v);
        assert(spec_u64_from_le_bytes(b.subrange(8 + plen, 16 + plen)) == e.1);
        assert(b.skip(16 + plen) =~= rest);
        lemma_decode_encode_records(s.skip(1));
        assert(decode_records(rest, (s.len() - 1) as nat) == Some(s.skip(1)));
        assert(seq![(e.0, e.1)] + s.skip(1) =~= s);
        assert((e.0, e.1) == e);
        assert(decode_records(b, s.len()) == Some(s));
    }
}

/// Round trip: decoding an encoded store reproduces the entry sequence
/// exactly.
pub proof fn lemma_store_round_trip(s: Seq<(Seq<u8>, u64)>)
    requires
        s.len() <= u64::MAX,
        forall|i: int| 0 <= i < s.len() ==> (#[trigger] s[i]).0.len() <= u64::MAX,
    ensures
        decode_store(encode_store(s)) == Some(s),
{
    lemma_auto_spec_u64_to_from_le_bytes();
    let c = spec_u64_to_le_bytes(s.len() as u64);
    let b = encode_store(s);
    assert(b.take(8) =~= c);
    assert(b.skip(8) =~= encode_records(s));
    lemma_decode_encode_records(s);
}

/// Encodes the entries into a fresh store image.
pub fn encode(entries: &Vec<Entry>) -> (r: Vec<u8>)
    ensures
        r@ == encode_store(models(entries@)),
{
    proof {
        lemma_auto_spec_u64_to_from_le_bytes();
    }
    let mut out: Vec<u8> = u64_to_le_bytes(entries.len() as u64);
    assert(models(entries@.take(0)) =~= Seq::<(Seq<u8>, u64)>::empty());
    assert(out@ =~= spec_u64_to_le_bytes(entries@.len() as u64) + encode_records(
        models(entries@.take(0)),
    ));
    let n = entries.len();
    let mut i: usize = 0;
    while i < n
        invariant
            n == entries@.len(),
            0 <= i <= n,
            out@ == spec_u64_to_le_bytes(entries@.len() as u64) + encode_records(
                models(entries@.take(i as int)),
            ),
        decreases n - i,
    {
        let e = &entries[i];
        let mut lenb = u64_to_le_bytes(e.path.len() as u64);
        out.append(&mut lenb);
        let mut pathb = vstd::slice::slice_to_vec(e.path.as_slice());
        out.append(&mut pathb);
        let mut lvb = u64_to_le_bytes(e.last_visit);
        out.append(&mut lvb);
        proof {
            let m = models(entries@.take(i as int));
            let m1 = models(entries@.take(i + 1 as int));
            assert(m1.drop_last() =~= m);
            assert(m1.last() == entries@[i as int]@);
            assert(encode_records(m1) == encode_records(m) + encode_entry(entries@[i as int]@));
        }
        i = i + 1;
    }
    assert(entries@.take(n as int) =~= entries@);
    out
}

/// Decodes a store image; `None` when the image is corrupt, truncated, or
/// holds leftover bytes.
pub fn decode(bytes: &Vec<u8>) -> (r: Option<Vec<Entry>>)
    ensures
        match r {
            Some(v) => decode_store(bytes@) == Some(models(v@)),
            None => decode_store(bytes@) is None,
        },
{
    proof {
        lemma_auto_spec_u64_to_from_le_bytes();
    }
    let len = bytes.len();
    if len < 8 {
        return None;
    }
    let n = u64_from_le_bytes(vstd::slice::slice_subrange(bytes.as_slice(), 0, 8));
    assert(bytes@.subrange(0, 8) =~= bytes@.take(8));
    let mut acc: Vec<Entry> = Vec::new();
    let mut pos: usize = 8;
    let mut k: u64 = 0;
    assert(models(acc@) =~= Seq::<(Seq<u8>, u64)>::empty());
    while k < n
        invariant
            len == bytes@.len(),
            8 <= pos <= bytes@.len(),
            0 <= k <= n,
            n == spec_u64_from_le_bytes(bytes@.take(8)),
            bytes@.len() >= 8,
            decode_store(bytes@) == match decode_records(bytes@.skip(pos as int), (n - k) as nat) {
                Some(t) => Some(models(acc@) + t),
                None => None::<Seq<(Seq<u8>, u64)>>,
            },
        decreases n - k,
    {
        let ghost b = bytes@.skip(pos as int);
        let remaining = len - pos;
        if remaining < 16 {
            assert(decode_records(b, (n - k) as nat) is None);
            return None;
        }
        let plen64 = u64_from_le_bytes(vstd::slice::slice_subrange(bytes.as_slice(), pos, pos + 8));
        assert(bytes@.subrange(pos as int, pos + 8 as int) =~= b.take(8));
        if plen64 > (remaining - 16) as u64 {
            assert(b.len() < 16 + spec_u64_from_le_bytes(b.take(8)));
            assert(decode_records(b, (n - k) as nat) is None);
            return None;
        }
        let plen = plen64 as usize;
        let path = vstd::slice::slice_to_vec(
            vstd::slice::slice_subrange(bytes.as_slice(), pos + 8, pos + 8 + plen),
        );
        assert(bytes@.subrange(pos + 8 as int, pos + 8 + plen as int) =~= b.subrange(
            8,
            8 + plen as int,
        ));
        let lv = u64_from_le_bytes(
            vstd::slice::slice_subrange(bytes.as_slice(), pos + 8 + plen, pos + 16 + plen),
        );
        assert(bytes@.subrange(pos + 8 + plen as int, pos + 16 + plen as int) =~= b.subrange(
            8 + plen as int,
            16 + plen as int,
        ));
        let ghost old_acc = acc@;
        acc.push(Entry { path, last_visit: lv });
        proof {
            assert(b.skip(16 + plen as int) =~= bytes@.skip(pos + 16 + plen as int));
            assert(models(acc@) =~= models(old_acc).push((b.subrange(8, 8 + plen as int), lv)));
            let tail_n = (n - k - 1) as nat;
            match decode_records(bytes@.skip(pos + 16 + plen as int), tail_n) {
                Some(t) => {
                    assert(decode_records(b, (n - k) as nat) == Some(
                        seq![(b.subrange(8, 8 + plen as int), lv)] + t,
                    ));
                    assert(models(old_acc) + (seq![(b.subrange(8, 8 + plen as int), lv)] + t)
                        =~= models(acc@) + t);
                },
                None => {
                    assert(decode_records(b, (n - k) as nat) is None);
                },
            }
        }
        pos = pos + 16 + plen;
        k = k + 1;
    }
    if pos != len {
        assert(bytes@.skip(pos as int).len() > 0);
        assert(decode_records(bytes@.skip(pos as int), 0) is None);
        return None;
    }
    assert(bytes@.skip(pos as int).len() == 0);
    assert(decode_records(bytes@.skip(pos as int), 0) == Some(Seq::<(Seq<u8>, u64)>::empty()));
    assert(models(acc@) + Seq::<(Seq<u8>, u64)>::empty() =~= models(acc@));
    Some(acc)
}

} // verus!
