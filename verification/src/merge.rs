//! The merge operator: append-if-absent combination of record values.
//!
//! Given a key's current value and one pending operand, the operator appends
//! each of the operand's entries that the value does not already hold, keeping
//! first-seen order. Entries already present are dropped, so re-insertion is a
//! no-op; nothing is ever removed. The operand's entries are checked against
//! the value as it stood when the operand's merge began, as the store applies
//! operands one at a time.

use crate::bytes::{be_bytes_of, be_val, lemma_be_bytes_of_val, read_be_val};
use crate::codec::{
    decode_handles, decode_ids, encode_handle, handles_wf, ids_wf, lemma_decode_handles_concat,
    lemma_decode_handles_single, lemma_decode_ids_block, lemma_decode_ids_concat,
};
use vstd::prelude::*;

verus! {

broadcast use vstd::seq_lib::group_seq_properties;

/// `a` followed by those entries of `b` that `a` does not contain, in order.
pub open spec fn merge_entries<A>(a: Seq<A>, b: Seq<A>) -> Seq<A> {
    a + b.filter(|x: A| !a.contains(x))
}

/// The bytes of a handle-record value after merging one operand into it.
pub open spec fn merge_ids_bytes(ex: Seq<u8>, op: Seq<u8>) -> Seq<u8> {
    ex + decode_ids(op).filter(|x: u64| !decode_ids(ex).contains(x)).flat_map(
        |x: u64| be_bytes_of(x),
    )
}

/// The bytes of an identifier-record value after merging one operand into it.
pub open spec fn merge_handles_bytes(ex: Seq<u8>, op: Seq<u8>) -> Seq<u8> {
    ex + decode_handles(op).filter(|e: Seq<u8>| !decode_handles(ex).contains(e)).flat_map(
        |e: Seq<u8>| encode_handle(e),
    )
}

pub proof fn lemma_filter_push<A>(s: Seq<A>, x: A, p: spec_fn(A) -> bool)
    ensures
        s.push(x).filter(p) == if p(x) {
            s.filter(p).push(x)
        } else {
            s.filter(p)
        },
{
    reveal(Seq::filter);
    Seq::filter_distributes_over_add(s, seq![x], p);
    assert(s.push(x) =~= s + seq![x]);
    let single = seq![x];
    assert(single.drop_last() =~= Seq::<A>::empty());
    assert(single.last() == x);
    assert(Seq::<A>::empty().filter(p) =~= Seq::<A>::empty());
    if p(x) {
        assert(single.filter(p) =~= seq![x]);
        assert(s.filter(p) + seq![x] =~= s.filter(p).push(x));
    } else {
        assert(single.filter(p) =~= Seq::<A>::empty());
        assert(s.filter(p) + Seq::<A>::empty() =~= s.filter(p));
    }
}

/// Appends `src[from..to]` to `out`.
fn push_range(out: &mut Vec<u8>, src: &[u8], from: usize, to: usize)
    requires
        from <= to <= src@.len(),
    ensures
        final(out)@ == old(out)@ + src@.subrange(from as int, to as int),
{
    let piece = vstd::slice::slice_subrange(src, from, to);
    out.extend_from_slice(piece);
    proof {
        assert(out@ =~= old(out)@ + src@.subrange(from as int, to as int));
    }
}

/// Merges one operand into a handle-record value: appends each eight-byte
/// identifier of `b` that the first `a.len()` bytes do not already hold.
pub fn merge_ids(a: &mut Vec<u8>, b: &[u8])
    requires
        ids_wf(old(a)@),
        ids_wf(b@),
    ensures
        final(a)@ == merge_ids_bytes(old(a)@, b@),
{
    let original_len = a.len();
    let mut i: usize = 0;
    proof {
        assert(b@.take(0) =~= Seq::<u8>::empty());
        assert(decode_ids(b@.take(0)).filter(
            |x: u64| !decode_ids(old(a)@).contains(x),
        ).flat_map(|x: u64| be_bytes_of(x)) =~= Seq::<u8>::empty());
        assert(a@ =~= old(a)@ + Seq::<u8>::empty());
    }
    while i < b.len()
        invariant
            ids_wf(old(a)@),
            ids_wf(b@),
            original_len == old(a)@.len(),
            i % 8 == 0,
            i <= b@.len(),
            original_len <= a@.len(),
            a@ == merge_ids_bytes(old(a)@, b@.take(i as int)),
            a@.subrange(0, original_len as int) == old(a)@,
        decreases b@.len() - i,
    {
        let ghost a_entry = a@;
        let next_b = read_be_val(b, i);
        let mut found = false;
        let mut j: usize = 0;
        proof {
            assert(old(a)@.take(0) =~= Seq::<u8>::empty());
        }
        while !found && j < original_len
            invariant
                ids_wf(old(a)@),
                original_len == old(a)@.len(),
                a@ == a_entry,
                original_len <= a@.len(),
                a@.subrange(0, original_len as int) == old(a)@,
                j % 8 == 0,
                j <= original_len,
                found ==> decode_ids(old(a)@).contains(next_b),
                !found ==> !decode_ids(old(a)@.take(j as int)).contains(next_b),
            decreases original_len - j,
        {
            let next_a = read_be_val(a.as_slice(), j);
            proof {
                assert(a@.subrange(j as int, j as int + 8) =~= old(a)@.subrange(
                    j as int,
                    j as int + 8,
                ));
                let block = old(a)@.subrange(j as int, j as int + 8);
                let t1 = old(a)@.take(j as int + 8);
                assert(t1.take(j as int) =~= old(a)@.take(j as int));
                assert(old(a)@.take(j as int) + block =~= t1);
                lemma_decode_ids_concat(old(a)@.take(j as int), block);
                lemma_decode_ids_block(block);
                assert(decode_ids(t1) =~= decode_ids(old(a)@.take(j as int)).push(next_a));
                if next_a == next_b {
                    assert(decode_ids(t1).contains(next_b)) by {
                        assert(decode_ids(t1).last() == next_b);
                    }
                    assert(t1 + old(a)@.skip(j as int + 8) =~= old(a)@);
                    lemma_decode_ids_concat(t1, old(a)@.skip(j as int + 8));
                    assert(decode_ids(old(a)@).contains(next_b));
                } else {
                    assert(!decode_ids(t1).contains(next_b));
                }
            }
            found = next_a == next_b;
            j = j + 8;
        }
        proof {
            if !found {
                assert(j == original_len);
                assert(old(a)@.take(j as int) =~= old(a)@);
            }
        }
        if !found {
            push_range(a, b, i, i + 8);
        }
        proof {
            let p = |x: u64| !decode_ids(old(a)@).contains(x);
            let f = |x: u64| be_bytes_of(x);
            let bt = b@.take(i as int);
            let block = b@.subrange(i as int, i as int + 8);
            let bt1 = b@.take(i as int + 8);
            assert(bt + block =~= bt1);
            lemma_decode_ids_concat(bt, block);
            lemma_decode_ids_block(block);
            assert(decode_ids(bt1) =~= decode_ids(bt).push(next_b));
            lemma_filter_push(decode_ids(bt), next_b, p);
            if !found {
                decode_ids(bt).filter(p).lemma_flat_map_push(f, next_b);
                lemma_be_bytes_of_val(block);
                assert(a@ =~= a_entry + block);
                assert(a@ =~= merge_ids_bytes(old(a)@, bt1));
            } else {
                assert(a@ =~= merge_ids_bytes(old(a)@, bt1));
            }
            assert(a@.subrange(0, original_len as int) =~= old(a)@);
        }
        i = i + 8;
    }
    proof {
        assert(b@.take(i as int) =~= b@);
    }
}

proof fn lemma_filter_elements<A>(s: Seq<A>, p: spec_fn(A) -> bool)
    ensures
        forall|i: int| 0 <= i < s.filter(p).len() ==> s.contains(#[trigger] s.filter(p)[i]),
    decreases s.len(),
{
    reveal(Seq::filter);
    if s.len() != 0 {
        lemma_filter_elements(s.drop_last(), p);
        let fl = s.filter(p);
        let dl = s.drop_last();
        assert forall|i: int| 0 <= i < fl.len() implies s.contains(#[trigger] fl[i]) by {
            if i < dl.filter(p).len() {
                assert(fl[i] == dl.filter(p)[i]);
                assert(dl.contains(dl.filter(p)[i]));
                let k = choose|k: int| 0 <= k < dl.len() && dl[k] == dl.filter(p)[i];
                assert(s[k] == fl[i]);
            } else {
                assert(fl[i] == s.last());
                assert(s[s.len() - 1] == s.last());
            }
        }
    }
}

/// A run of eight-byte encodings decodes back to the identifiers it encodes.
proof fn lemma_flat_map_ids(l: Seq<u64>)
    ensures
        ids_wf(l.flat_map(|x: u64| be_bytes_of(x))),
        decode_ids(l.flat_map(|x: u64| be_bytes_of(x))) == l,
    decreases l.len(),
{
    let f = |x: u64| be_bytes_of(x);
    if l.len() == 0 {
        assert(l.flat_map(f) =~= Seq::<u8>::empty());
        assert(decode_ids(l.flat_map(f)) =~= l);
    } else {
        let dl = l.drop_last();
        lemma_flat_map_ids(dl);
        dl.lemma_flat_map_push(f, l.last());
        assert(dl.push(l.last()) =~= l);
        lemma_decode_ids_concat(dl.flat_map(f), be_bytes_of(l.last()));
        lemma_decode_ids_block(be_bytes_of(l.last()));
        crate::bytes::lemma_be_val_of_bytes(l.last());
        assert(decode_ids(l.flat_map(f)) =~= dl.push(l.last()));
    }
}

/// A run of length-prefixed encodings decodes back to the entries it encodes.
proof fn lemma_flat_map_handles(l: Seq<Seq<u8>>)
    requires
        forall|i: int| 0 <= i < l.len() ==> (#[trigger] l[i]).len() <= 255,
    ensures
        handles_wf(l.flat_map(|e: Seq<u8>| encode_handle(e))),
        decode_handles(l.flat_map(|e: Seq<u8>| encode_handle(e))) == l,
    decreases l.len(),
{
    let f = |e: Seq<u8>| encode_handle(e);
    if l.len() == 0 {
        assert(l.flat_map(f) =~= Seq::<u8>::empty());
        assert(decode_handles(l.flat_map(f)) =~= l);
    } else {
        let dl = l.drop_last();
        lemma_flat_map_handles(dl);
        dl.lemma_flat_map_push(f, l.last());
        assert(dl.push(l.last()) =~= l);
        lemma_decode_handles_concat(dl.flat_map(f), encode_handle(l.last()));
        assert(l[l.len() - 1] == l.last());
        lemma_decode_handles_single(l.last());
        crate::codec::lemma_handles_wf_concat(dl.flat_map(f), encode_handle(l.last()));
        assert(decode_handles(l.flat_map(f)) =~= dl.push(l.last()));
    }
}

/// A merged handle-record value decodes to the dedup-append of its parts.
pub proof fn lemma_merge_ids_decode(ex: Seq<u8>, op: Seq<u8>)
    requires
        ids_wf(ex),
        ids_wf(op),
    ensures
        ids_wf(merge_ids_bytes(ex, op)),
        decode_ids(merge_ids_bytes(ex, op)) == merge_entries(decode_ids(ex), decode_ids(op)),
{
    let p = |x: u64| !decode_ids(ex).contains(x);
    let f = |x: u64| be_bytes_of(x);
    let fl = decode_ids(op).filter(p);
    lemma_flat_map_ids(fl);
    lemma_decode_ids_concat(ex, fl.flat_map(f));
    assert(ids_wf(merge_ids_bytes(ex, op))) by {
        assert(merge_ids_bytes(ex, op).len() == ex.len() + fl.flat_map(f).len());
        assert(ex.len() % 8 == 0 && fl.flat_map(f).len() % 8 == 0);
    }
}

/// A merged identifier-record value decodes to the dedup-append of its parts.
pub proof fn lemma_merge_handles_decode(ex: Seq<u8>, op: Seq<u8>)
    requires
        handles_wf(ex),
        handles_wf(op),
    ensures
        handles_wf(merge_handles_bytes(ex, op)),
        decode_handles(merge_handles_bytes(ex, op)) == merge_entries(
            decode_handles(ex),
            decode_handles(op),
        ),
{
    let p = |e: Seq<u8>| !decode_handles(ex).contains(e);
    let f = |e: Seq<u8>| encode_handle(e);
    let fl = decode_handles(op).filter(p);
    crate::codec::lemma_decode_handles_len(op);
    lemma_filter_elements(decode_handles(op), p);
    assert(forall|i: int| 0 <= i < fl.len() ==> (#[trigger] fl[i]).len() <= 255) by {
        assert forall|i: int| 0 <= i < fl.len() implies (#[trigger] fl[i]).len() <= 255 by {
            assert(decode_handles(op).contains(fl[i]));
            let k = choose|k: int|
                0 <= k < decode_handles(op).len() && decode_handles(op)[k] == fl[i];
        }
    }
    lemma_flat_map_handles(fl);
    lemma_decode_handles_concat(ex, fl.flat_map(f));
    crate::codec::lemma_handles_wf_concat(ex, fl.flat_map(f));
}

/// Every well-formed handle-record value is the concatenation of the
/// encodings of the entries it decodes to.
pub proof fn lemma_handles_canonical(v: Seq<u8>)
    requires
        handles_wf(v),
    ensures
        decode_handles(v).flat_map(|e: Seq<u8>| encode_handle(e)) == v,
    decreases v.len(),
{
    let f = |e: Seq<u8>| encode_handle(e);
    if v.len() == 0 {
        assert(decode_handles(v).flat_map(f) =~= v);
    } else {
        let n = 1 + v[0] as int;
        let entry = v.subrange(1, n);
        let rest = v.skip(n);
        lemma_handles_canonical(rest);
        assert(decode_handles(v) == seq![entry] + decode_handles(rest));
        let mapped = decode_handles(v).map_values(f);
        assert(mapped =~= seq![encode_handle(entry)] + decode_handles(rest).map_values(f));
        assert(mapped.first() == encode_handle(entry));
        assert(mapped.drop_first() =~= decode_handles(rest).map_values(f));
        assert(encode_handle(entry) =~= v.take(n));
        assert(v.take(n) + rest =~= v);
        assert(decode_handles(v).flat_map(f) == mapped.flatten());
        assert(mapped.flatten() == mapped.first() + mapped.drop_first().flatten());
        assert(decode_handles(v).flat_map(f) =~= v);
    }
}

/// Every well-formed handle-record value is the concatenation of the
/// encodings of the identifiers it decodes to.
pub proof fn lemma_ids_canonical(v: Seq<u8>)
    requires
        ids_wf(v),
    ensures
        decode_ids(v).flat_map(|x: u64| be_bytes_of(x)) == v,
    decreases v.len(),
{
    let f = |x: u64| be_bytes_of(x);
    if v.len() == 0 {
        assert(decode_ids(v).flat_map(f) =~= v);
    } else {
        assert(v.len() >= 8);
        let block = v.take(8);
        let rest = v.skip(8);
        lemma_ids_canonical(rest);
        assert(decode_ids(v) == seq![be_val(block)] + decode_ids(rest));
        let mapped = decode_ids(v).map_values(f);
        assert(mapped =~= seq![be_bytes_of(be_val(block))] + decode_ids(rest).map_values(f));
        assert(mapped.first() == be_bytes_of(be_val(block)));
        assert(mapped.drop_first() =~= decode_ids(rest).map_values(f));
        lemma_be_bytes_of_val(block);
        assert(block + rest =~= v);
        assert(decode_ids(v).flat_map(f) == mapped.flatten());
        assert(mapped.flatten() == mapped.first() + mapped.drop_first().flatten());
        assert(decode_ids(v).flat_map(f) =~= v);
    }
}

/// A key addresses an identifier record exactly when its first byte is zero.
pub open spec fn is_id_record_key(key: Seq<u8>) -> bool {
    key.len() >= 1 && key[0] == 0
}

/// A value decodes in the namespace of its key.
pub open spec fn value_wf(key: Seq<u8>, v: Seq<u8>) -> bool {
    if is_id_record_key(key) {
        handles_wf(v)
    } else {
        ids_wf(v)
    }
}

/// One merge application: dispatches on the key's namespace prefix and leaves
/// the value unchanged when it or the operand does not decode in that
/// namespace.
pub open spec fn merge_step(key: Seq<u8>, cur: Seq<u8>, op: Seq<u8>) -> Seq<u8> {
    if is_id_record_key(key) {
        if handles_wf(cur) && handles_wf(op) {
            merge_handles_bytes(cur, op)
        } else {
            cur
        }
    } else {
        if ids_wf(cur) && ids_wf(op) {
            merge_ids_bytes(cur, op)
        } else {
            cur
        }
    }
}

/// The value under `key` after a run of pending operands is applied in order,
/// starting from `ex` (the empty sequence when the key was absent).
pub open spec fn merge_result(key: Seq<u8>, ex: Seq<u8>, ops: Seq<Seq<u8>>) -> Seq<u8>
    decreases ops.len(),
{
    if ops.len() == 0 {
        ex
    } else {
        merge_result(key, merge_step(key, ex, ops[0]), ops.skip(1))
    }
}

pub proof fn lemma_merge_result_snoc(key: Seq<u8>, ex: Seq<u8>, ops: Seq<Seq<u8>>, k: int)
    requires
        0 <= k < ops.len(),
    ensures
        merge_result(key, ex, ops.take(k + 1)) == merge_step(
            key,
            merge_result(key, ex, ops.take(k)),
            ops[k],
        ),
    decreases k,
{
    if k == 0 {
        assert(ops.take(0) =~= Seq::<Seq<u8>>::empty());
        assert(ops.take(1)[0] == ops[0]);
        assert(ops.take(1).skip(1) =~= Seq::<Seq<u8>>::empty());
        assert(merge_result(key, ex, ops.take(1)) == merge_result(
            key,
            merge_step(key, ex, ops[0]),
            Seq::<Seq<u8>>::empty(),
        ));
    } else {
        let ex1 = merge_step(key, ex, ops[0]);
        lemma_merge_result_snoc(key, ex1, ops.skip(1), k - 1);
        assert(ops.take(k + 1)[0] == ops[0]);
        assert(ops.take(k)[0] == ops[0]);
        assert(ops.take(k + 1).skip(1) =~= ops.skip(1).take(k));
        assert(ops.take(k).skip(1) =~= ops.skip(1).take(k - 1));
        assert(ops.skip(1)[k - 1] == ops[k]);
        assert(merge_result(key, ex, ops.take(k + 1)) == merge_result(
            key,
            ex1,
            ops.skip(1).take(k),
        ));
        assert(merge_result(key, ex, ops.take(k)) == merge_result(
            key,
            ex1,
            ops.skip(1).take(k - 1),
        ));
    }
}

/// The store's merge operator. Combines a key's current value (absent on
/// first write) with the pending operands, oldest first, dispatching on the
/// key's namespace prefix; a value or operand that does not decode in the
/// key's namespace is passed over unchanged rather than rejected.
pub fn merge_value(key: &[u8], existing: Option<&[u8]>, operands: &Vec<Vec<u8>>) -> (r: Vec<u8>)
    ensures
        r@ == merge_result(
            key@,
            match existing {
                Some(e) => e@,
                None => Seq::empty(),
            },
            operands@.map_values(|v: Vec<u8>| v@),
        ),
{
    let ghost ex0: Seq<u8> = match existing {
        Some(e) => e@,
        None => Seq::empty(),
    };
    let ghost ops = operands@.map_values(|v: Vec<u8>| v@);
    let mut cur: Vec<u8> = match existing {
        Some(v) => vstd::slice::slice_to_vec(v),
        None => Vec::new(),
    };
    let is_id_record = key.len() >= 1 && key[0] == 0;
    let mut k: usize = 0;
    proof {
        assert(ops.take(0) =~= Seq::<Seq<u8>>::empty());
        assert(cur@ =~= ex0);
    }
    while k < operands.len()
        invariant
            k <= operands@.len(),
            ops == operands@.map_values(|v: Vec<u8>| v@),
            is_id_record == is_id_record_key(key@),
            cur@ == merge_result(key@, ex0, ops.take(k as int)),
        decreases operands@.len() - k,
    {
        let op: &Vec<u8> = &operands[k];
        let ghost before = cur@;
        proof {
            assert(ops[k as int] == op@);
        }
        if is_id_record {
            if crate::codec::check_handles_wf(cur.as_slice()) && crate::codec::check_handles_wf(
                op.as_slice(),
            ) {
                merge_handles(&mut cur, op.as_slice());
            }
        } else {
            if cur.len() % 8 == 0 && op.len() % 8 == 0 {
                merge_ids(&mut cur, op.as_slice());
            }
        }
        proof {
            assert(cur@ == merge_step(key@, before, op@));
            lemma_merge_result_snoc(key@, ex0, ops, k as int);
        }
        k = k + 1;
    }
    proof {
        assert(ops.take(k as int) =~= ops);
    }
    cur
}

/// Compares `x[xo..xo + n]` with `y[yo..yo + n]`.
fn ranges_eq(x: &[u8], xo: usize, y: &[u8], yo: usize, n: usize) -> (r: bool)
    requires
        xo + n <= x.len(),
        yo + n <= y.len(),
    ensures
        r == (x@.subrange(xo as int, xo as int + n) == y@.subrange(yo as int, yo as int + n)),
{
    let ghost xs = x@.subrange(xo as int, xo as int + n);
    let ghost ys = y@.subrange(yo as int, yo as int + n);
    let mut k: usize = 0;
    while k < n
        invariant
            xo + n <= x.len(),
            yo + n <= y.len(),
            k <= n,
            xs == x@.subrange(xo as int, xo as int + n),
            ys == y@.subrange(yo as int, yo as int + n),
            forall|m: int| 0 <= m < k ==> xs[m] == ys[m],
        decreases n - k,
    {
        if x[xo + k] != y[yo + k] {
            proof {
                assert(xs[k as int] != ys[k as int]);
            }
            return false;
        }
        k = k + 1;
    }
    proof {
        assert(xs =~= ys);
    }
    true
}

/// Merges one operand into an identifier-record value: appends each
/// length-prefixed entry of `b` that the first `a.len()` bytes do not already
/// hold, compared by exact bytes.
pub fn merge_handles(a: &mut Vec<u8>, b: &[u8])
    requires
        handles_wf(old(a)@),
        handles_wf(b@),
    ensures
        final(a)@ == merge_handles_bytes(old(a)@, b@),
{
    let original_len = a.len();
    let mut i: usize = 0;
    proof {
        assert(b@.take(0) =~= Seq::<u8>::empty());
        assert(b@.skip(0) =~= b@);
        assert(decode_handles(b@.take(0)).filter(
            |e: Seq<u8>| !decode_handles(old(a)@).contains(e),
        ).flat_map(|e: Seq<u8>| encode_handle(e)) =~= Seq::<u8>::empty());
        assert(a@ =~= old(a)@ + Seq::<u8>::empty());
    }
    while i < b.len()
        invariant
            handles_wf(old(a)@),
            handles_wf(b@.take(i as int)),
            handles_wf(b@.skip(i as int)),
            original_len == old(a)@.len(),
            i <= b@.len(),
            original_len <= a@.len(),
            a@ == merge_handles_bytes(old(a)@, b@.take(i as int)),
            a@.subrange(0, original_len as int) == old(a)@,
        decreases b@.len() - i,
    {
        let ghost a_entry = a@;
        proof {
            assert(b@.skip(i as int)[0] == b@[i as int]);
            assert(1 + b@[i as int] as int <= b@.len() - i);
        }
        let len_b = b[i] as usize;
        let ghost entry_b = b@.subrange(i as int + 1, i as int + 1 + len_b as int);
        proof {
            let record = b@.subrange(i as int, i as int + 1 + len_b as int);
            assert(record =~= encode_handle(entry_b));
        }
        let mut found = false;
        let mut j: usize = 0;
        proof {
            assert(old(a)@.take(0) =~= Seq::<u8>::empty());
            assert(old(a)@.skip(0) =~= old(a)@);
        }
        while !found && j < original_len
            invariant
                handles_wf(old(a)@),
                handles_wf(old(a)@.take(j as int)),
                handles_wf(old(a)@.skip(j as int)),
                original_len == old(a)@.len(),
                a@ == a_entry,
                original_len <= a@.len(),
                a@.subrange(0, original_len as int) == old(a)@,
                j <= original_len,
                i + 1 + len_b <= b.len(),
                entry_b == b@.subrange(i as int + 1, i as int + 1 + len_b as int),
                len_b <= 255,
                found ==> decode_handles(old(a)@).contains(entry_b),
                !found ==> !decode_handles(old(a)@.take(j as int)).contains(entry_b),
            decreases original_len - j,
        {
            proof {
                assert(old(a)@.skip(j as int)[0] == old(a)@[j as int]);
                assert(1 + old(a)@[j as int] as int <= old(a)@.len() - j);
                assert(a@[j as int] == old(a)@[j as int]);
            }
            let len_a = a[j] as usize;
            let ghost entry_a = old(a)@.subrange(j as int + 1, j as int + 1 + len_a as int);
            if len_a == len_b {
                proof {
                    assert(a@.subrange(j as int + 1, j as int + 1 + len_a as int) =~= entry_a);
                }
                found = ranges_eq(a.as_slice(), j + 1, b, i + 1, len_a);
            }
            proof {
                let n = 1 + len_a as int;
                let record_a = old(a)@.subrange(j as int, j as int + n);
                assert(record_a =~= encode_handle(entry_a));
                let t1 = old(a)@.take(j as int + n);
                assert(t1.take(j as int) =~= old(a)@.take(j as int));
                assert(old(a)@.take(j as int) + record_a =~= t1);
                lemma_decode_handles_concat(old(a)@.take(j as int), record_a);
                lemma_decode_handles_single(entry_a);
                assert(decode_handles(t1) =~= decode_handles(old(a)@.take(j as int)).push(
                    entry_a,
                ));
                assert(t1.skip(j as int + n) =~= Seq::<u8>::empty());
                assert(handles_wf(record_a));
                crate::codec::lemma_handles_wf_concat(old(a)@.take(j as int), record_a);
                assert(old(a)@.skip(j as int).skip(n) =~= old(a)@.skip(j as int + n));
                if found {
                    assert(entry_a == entry_b);
                    assert(decode_handles(t1).contains(entry_b)) by {
                        assert(decode_handles(t1).last() == entry_b);
                    }
                    assert(t1 + old(a)@.skip(j as int + n) =~= old(a)@);
                    lemma_decode_handles_concat(t1, old(a)@.skip(j as int + n));
                    assert(decode_handles(old(a)@).contains(entry_b));
                } else {
                    assert(entry_a != entry_b);
                    assert(!decode_handles(t1).contains(entry_b));
                }
            }
            j = j + 1 + len_a;
        }
        proof {
            if !found {
                assert(j == original_len) by {
                    if j != original_len {
                        assert(old(a)@.skip(j as int)[0] == old(a)@[j as int]);
                    }
                }
                assert(old(a)@.take(j as int) =~= old(a)@);
            }
        }
        if !found {
            push_range(a, b, i, i + 1 + len_b);
        }
        proof {
            let p = |e: Seq<u8>| !decode_handles(old(a)@).contains(e);
            let f = |e: Seq<u8>| encode_handle(e);
            let bt = b@.take(i as int);
            let record = b@.subrange(i as int, i as int + 1 + len_b as int);
            let bt1 = b@.take(i as int + 1 + len_b as int);
            assert(bt + record =~= bt1);
            assert(record =~= encode_handle(entry_b));
            lemma_decode_handles_concat(bt, record);
            lemma_decode_handles_single(entry_b);
            assert(decode_handles(bt1) =~= decode_handles(bt).push(entry_b));
            lemma_filter_push(decode_handles(bt), entry_b, p);
            crate::codec::lemma_handles_wf_concat(bt, record);
            assert(b@.skip(i as int).skip(1 + len_b as int) =~= b@.skip(
                i as int + 1 + len_b as int,
            ));
            if !found {
                decode_handles(bt).filter(p).lemma_flat_map_push(f, entry_b);
                assert(a@ =~= a_entry + record);
                assert(a@ =~= merge_handles_bytes(old(a)@, bt1));
            } else {
                assert(a@ =~= merge_handles_bytes(old(a)@, bt1));
            }
            assert(a@.subrange(0, original_len as int) =~= old(a)@);
        }
        i = i + 1 + len_b;
    }
    proof {
        assert(b@.take(i as int) =~= b@);
    }
}

} // verus!
