//! The two value encodings that share the store's key space.
//!
//! An identifier record holds a concatenation of length-prefixed handle byte
//! strings (one length byte, then up to 255 bytes). A handle record holds a
//! concatenation of eight-byte big-endian identifiers.

use crate::bytes::{be_val, lemma_be_val_of_bytes, read_be_val};
use vstd::prelude::*;

verus! {

/// A handle-record value is a whole number of eight-byte identifiers.
pub open spec fn ids_wf(v: Seq<u8>) -> bool {
    v.len() % 8 == 0
}

/// The identifiers stored in a handle-record value, in stored order.
pub open spec fn decode_ids(v: Seq<u8>) -> Seq<u64>
    decreases v.len(),
{
    if v.len() < 8 {
        Seq::empty()
    } else {
        seq![be_val(v.take(8))] + decode_ids(v.skip(8))
    }
}

/// An identifier-record value is a concatenation of length-prefixed entries,
/// each length byte covering exactly the bytes that follow it.
pub open spec fn handles_wf(v: Seq<u8>) -> bool
    decreases v.len(),
{
    v.len() == 0 || (1 + v[0] as int <= v.len() && handles_wf(v.skip(1 + v[0] as int)))
}

/// The handle byte strings stored in an identifier-record value, in stored order.
pub open spec fn decode_handles(v: Seq<u8>) -> Seq<Seq<u8>>
    decreases v.len(),
{
    if v.len() == 0 {
        Seq::empty()
    } else if 1 + v[0] as int <= v.len() {
        seq![v.subrange(1, 1 + v[0] as int)] + decode_handles(v.skip(1 + v[0] as int))
    } else {
        Seq::empty()
    }
}

/// One length-prefixed entry.
pub open spec fn encode_handle(h: Seq<u8>) -> Seq<u8>
    recommends
        h.len() <= 255,
{
    seq![h.len() as u8] + h
}

pub proof fn lemma_decode_ids_concat(x: Seq<u8>, y: Seq<u8>)
    requires
        ids_wf(x),
    ensures
        decode_ids(x + y) == decode_ids(x) + decode_ids(y),
    decreases x.len(),
{
    if x.len() == 0 {
        assert(x + y =~= y);
        assert(decode_ids(x) + decode_ids(y) =~= decode_ids(y));
    } else {
        assert(x.len() >= 8);
        let xy = x + y;
        assert(xy.take(8) =~= x.take(8));
        assert(xy.skip(8) =~= x.skip(8) + y);
        assert(ids_wf(x.skip(8)));
        lemma_decode_ids_concat(x.skip(8), y);
        assert(decode_ids(x + y) =~= decode_ids(x) + decode_ids(y));
    }
}

pub proof fn lemma_decode_ids_block(s: Seq<u8>)
    requires
        s.len() == 8,
    ensures
        decode_ids(s) == seq![be_val(s)],
{
    assert(s.take(8) =~= s);
    assert(decode_ids(s.skip(8)) =~= Seq::<u64>::empty());
    assert(decode_ids(s) =~= seq![be_val(s)]);
}

pub proof fn lemma_handles_wf_concat(x: Seq<u8>, y: Seq<u8>)
    requires
        handles_wf(x),
        handles_wf(y),
    ensures
        handles_wf(x + y),
    decreases x.len(),
{
    if x.len() == 0 {
        assert(x + y =~= y);
    } else {
        let rest = x.skip(1 + x[0] as int);
        assert((x + y).skip(1 + x[0] as int) =~= rest + y);
        lemma_handles_wf_concat(rest, y);
    }
}

pub proof fn lemma_decode_handles_concat(x: Seq<u8>, y: Seq<u8>)
    requires
        handles_wf(x),
    ensures
        decode_handles(x + y) == decode_handles(x) + decode_handles(y),
    decreases x.len(),
{
    if x.len() == 0 {
        assert(x + y =~= y);
        assert(decode_handles(x) + decode_handles(y) =~= decode_handles(y));
    } else {
        let n = 1 + x[0] as int;
        let xy = x + y;
        assert(xy.subrange(1, n) =~= x.subrange(1, n));
        assert(xy.skip(n) =~= x.skip(n) + y);
        lemma_decode_handles_concat(x.skip(n), y);
        assert(decode_handles(x + y) =~= decode_handles(x) + decode_handles(y));
    }
}

pub proof fn lemma_decode_handles_single(h: Seq<u8>)
    requires
        h.len() <= 255,
    ensures
        handles_wf(encode_handle(h)),
        decode_handles(encode_handle(h)) == seq![h],
{
    let e = encode_handle(h);
    assert(e.len() == 1 + h.len());
    assert(e[0] == h.len() as u8);
    assert(1 + e[0] as int == e.len());
    assert(handles_wf(Seq::<u8>::empty()));
    assert(e.skip(1 + e[0] as int) =~= Seq::<u8>::empty());
    assert(e.subrange(1, 1 + e[0] as int) =~= h);
    assert(decode_handles(e) == seq![e.subrange(1, 1 + e[0] as int)] + decode_handles(
        e.skip(1 + e[0] as int),
    ));
    assert(decode_handles(Seq::<u8>::empty()) =~= Seq::<Seq<u8>>::empty());
    assert(decode_handles(e) =~= seq![h]);
}

/// Every stored handle entry fits its one-byte length prefix.
pub proof fn lemma_decode_handles_len(v: Seq<u8>)
    requires
        handles_wf(v),
    ensures
        forall|k: int|
            0 <= k < decode_handles(v).len() ==> (#[trigger] decode_handles(v)[k]).len() <= 255,
    decreases v.len(),
{
    if v.len() != 0 {
        let n = 1 + v[0] as int;
        lemma_decode_handles_len(v.skip(n));
        assert forall|k: int| 0 <= k < decode_handles(v).len() implies (#[trigger] decode_handles(
            v,
        )[k]).len() <= 255 by {
            if k == 0 {
                assert(decode_handles(v)[0] == v.subrange(1, n));
            } else {
                assert(decode_handles(v)[k] == decode_handles(v.skip(n))[k - 1]);
            }
        }
    }
}

/// Reports whether `v` is a whole number of eight-byte identifiers.
pub fn check_ids_wf(v: &[u8]) -> (r: bool)
    ensures
        r == ids_wf(v@),
{
    v.len() % 8 == 0
}

/// Reports whether every length prefix in `v` covers bytes that are present.
pub fn check_handles_wf(v: &[u8]) -> (r: bool)
    ensures
        r == handles_wf(v@),
{
    let mut i: usize = 0;
    proof {
        assert(v@.skip(0) =~= v@);
    }
    while i < v.len()
        invariant
            i <= v@.len(),
            handles_wf(v@) == handles_wf(v@.skip(i as int)),
        decreases v@.len() - i,
    {
        let len = v[i] as usize;
        if len > v.len() - (i + 1) {
            proof {
                assert(v@.skip(i as int)[0] == v@[i as int]);
                assert(!handles_wf(v@.skip(i as int)));
            }
            return false;
        }
        proof {
            assert(v@.skip(i as int)[0] == v@[i as int]);
            assert(v@.skip(i as int).skip(1 + v@[i as int] as int) =~= v@.skip(
                i as int + 1 + v@[i as int] as int,
            ));
        }
        i = i + 1 + len;
    }
    proof {
        assert(v@.skip(i as int) =~= Seq::<u8>::empty());
    }
    true
}

/// Decodes a handle-record value into its identifiers; reports a value that
/// is not a whole number of eight-byte blocks.
pub fn decode_id_list(v: &[u8]) -> (r: Option<Vec<u64>>)
    ensures
        r matches Some(ids) ==> ids_wf(v@) && ids@ == decode_ids(v@),
        r is None ==> !ids_wf(v@),
{
    if v.len() % 8 != 0 {
        return None;
    }
    let mut ids: Vec<u64> = Vec::new();
    let mut i: usize = 0;
    while i < v.len()
        invariant
            ids_wf(v@),
            i <= v@.len(),
            i % 8 == 0,
            ids@ == decode_ids(v@.take(i as int)),
        decreases v@.len() - i,
    {
        let next = read_be_val(v, i);
        ids.push(next);
        proof {
            let t1 = v@.take(i as int + 8);
            assert(t1.take(i as int) =~= v@.take(i as int));
            assert(t1.skip(i as int) =~= v@.subrange(i as int, i as int + 8));
            lemma_decode_ids_concat(v@.take(i as int), v@.subrange(i as int, i as int + 8));
            assert(v@.take(i as int) + v@.subrange(i as int, i as int + 8) =~= t1);
            lemma_decode_ids_block(v@.subrange(i as int, i as int + 8));
        }
        i = i + 8;
    }
    proof {
        assert(v@.take(i as int) =~= v@);
    }
    Some(ids)
}

} // verus!
