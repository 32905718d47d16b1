//! The store model and the index's laws.
//!
//! The backing store is modelled as a map from key bytes to value bytes; each
//! submitted operand rewrites one key's value through the merge operator. The
//! proofs here state the index's promises over that model: idempotent
//! insertion, bidirectional lookup, exact case handling, empty lookups, merge
//! associativity and the shape of the key space.

use crate::bytes::be_bytes_of;
use crate::codec::{
    decode_handles, decode_ids, handles_wf, ids_wf, lemma_decode_handles_single,
    lemma_decode_ids_block,
};
use crate::index::{handle_key_bytes, handle_operand, id_key_bytes, is_handle_record_key, lower_of};
use crate::merge::{
    is_id_record_key, lemma_filter_push, lemma_merge_handles_decode, lemma_merge_ids_decode,
    merge_entries, merge_handles_bytes, merge_ids_bytes, merge_result, merge_step, value_wf,
};
use vstd::prelude::*;
use vstd::utf8::encode_utf8;

verus! {

broadcast use vstd::seq_lib::group_seq_properties;

/// The store after one merge operand lands on `key`.
pub open spec fn apply_merge(m: Map<Seq<u8>, Seq<u8>>, key: Seq<u8>, op: Seq<u8>) -> Map<
    Seq<u8>,
    Seq<u8>,
> {
    let cur = if m.dom().contains(key) {
        m[key]
    } else {
        Seq::empty()
    };
    m.insert(key, merge_step(key, cur, op))
}

/// The store after one insertion: both of its operands applied.
pub open spec fn insert_pair_model(m: Map<Seq<u8>, Seq<u8>>, id: u64, handle: Seq<char>) -> Map<
    Seq<u8>,
    Seq<u8>,
> {
    apply_merge(
        apply_merge(m, id_key_bytes(id), handle_operand(handle)),
        handle_key_bytes(lower_of(handle)),
        be_bytes_of(id),
    )
}

/// The handle byte strings stored for `id`, in stored order.
pub open spec fn handles_at(m: Map<Seq<u8>, Seq<u8>>, id: u64) -> Seq<Seq<u8>> {
    if m.dom().contains(id_key_bytes(id)) {
        decode_handles(m[id_key_bytes(id)])
    } else {
        Seq::empty()
    }
}

/// The identifiers stored for a folded handle, in stored order.
pub open spec fn ids_at(m: Map<Seq<u8>, Seq<u8>>, folded: Seq<char>) -> Seq<u64> {
    if m.dom().contains(handle_key_bytes(folded)) {
        decode_ids(m[handle_key_bytes(folded)])
    } else {
        Seq::empty()
    }
}

/// Every stored value decodes in its key's namespace.
pub open spec fn store_wf(m: Map<Seq<u8>, Seq<u8>>) -> bool {
    forall|k: Seq<u8>| #[trigger] m.dom().contains(k) ==> value_wf(k, m[k])
}

proof fn lemma_keys_distinct(id: u64, folded: Seq<char>)
    ensures
        id_key_bytes(id) != handle_key_bytes(folded),
        is_id_record_key(id_key_bytes(id)),
        is_handle_record_key(handle_key_bytes(folded)),
        !is_id_record_key(handle_key_bytes(folded)),
{
    assert(id_key_bytes(id)[0] == 0);
    assert(handle_key_bytes(folded)[0] == 1);
}

/// Membership in a merged list is membership in either part.
pub proof fn lemma_merge_entries_contains<A>(a: Seq<A>, b: Seq<A>, x: A)
    ensures
        merge_entries(a, b).contains(x) == (a.contains(x) || b.contains(x)),
{
    let p = |y: A| !a.contains(y);
    lemma_filter_mem(b, p, x);
    if a.contains(x) || b.contains(x) {
        if a.contains(x) {
            let k = choose|k: int| 0 <= k < a.len() && a[k] == x;
            assert(merge_entries(a, b)[k] == x);
        } else {
            assert(b.filter(p).contains(x));
            let k = choose|k: int| 0 <= k < b.filter(p).len() && b.filter(p)[k] == x;
            assert(merge_entries(a, b)[a.len() + k] == x);
        }
    }
    if merge_entries(a, b).contains(x) {
        let k = choose|k: int| 0 <= k < merge_entries(a, b).len() && merge_entries(a, b)[k] == x;
        if k < a.len() {
            assert(a[k] == x);
        } else {
            assert(b.filter(p)[k - a.len()] == x);
            assert(b.filter(p).contains(x));
        }
    }
}

proof fn lemma_filter_mem<A>(s: Seq<A>, p: spec_fn(A) -> bool, x: A)
    ensures
        s.filter(p).contains(x) == (s.contains(x) && p(x)),
    decreases s.len(),
{
    reveal(Seq::filter);
    if s.len() != 0 {
        let dl = s.drop_last();
        lemma_filter_mem(dl, p, x);
        assert(s =~= dl.push(s.last()));
        lemma_filter_push(dl, s.last(), p);
        if dl.contains(x) {
            let k = choose|k: int| 0 <= k < dl.len() && dl[k] == x;
            assert(s[k] == x);
        }
        if dl.filter(p).contains(x) {
            let k = choose|k: int| 0 <= k < dl.filter(p).len() && dl.filter(p)[k] == x;
            assert(s.filter(p).contains(x)) by {
                if p(s.last()) {
                    assert(s.filter(p)[k] == x);
                } else {
                    assert(s.filter(p)[k] == x);
                }
            }
        }
        if s.contains(x) && p(x) {
            let k = choose|k: int| 0 <= k < s.len() && s[k] == x;
            if k < dl.len() {
                assert(dl[k] == x);
            } else {
                assert(s.last() == x);
                assert(s.filter(p).last() == x);
            }
        }
        if s.filter(p).contains(x) {
            let k = choose|k: int| 0 <= k < s.filter(p).len() && s.filter(p)[k] == x;
            if p(s.last()) {
                if k < dl.filter(p).len() {
                    assert(dl.filter(p)[k] == x);
                } else {
                    assert(x == s.last());
                    assert(s[s.len() - 1] == x);
                }
            } else {
                assert(dl.filter(p)[k] == x);
            }
        }
    }
}

proof fn lemma_filter_agree<A>(s: Seq<A>, p: spec_fn(A) -> bool, q: spec_fn(A) -> bool)
    requires
        forall|x: A| #[trigger] p(x) == q(x),
    ensures
        s.filter(p) == s.filter(q),
    decreases s.len(),
{
    reveal(Seq::filter);
    if s.len() != 0 {
        lemma_filter_agree(s.drop_last(), p, q);
    }
}

proof fn lemma_filter_compose<A>(
    s: Seq<A>,
    p: spec_fn(A) -> bool,
    q: spec_fn(A) -> bool,
    r: spec_fn(A) -> bool,
)
    requires
        forall|x: A| #[trigger] r(x) == (p(x) && q(x)),
    ensures
        s.filter(p).filter(q) == s.filter(r),
    decreases s.len(),
{
    reveal(Seq::filter);
    if s.len() != 0 {
        let dl = s.drop_last();
        lemma_filter_compose(dl, p, q, r);
        assert(s =~= dl.push(s.last()));
        lemma_filter_push(dl, s.last(), p);
        lemma_filter_push(dl, s.last(), r);
        if p(s.last()) {
            lemma_filter_push(dl.filter(p), s.last(), q);
        }
    }
}

/// Merging is associative: combining operand lists in either grouping gives
/// the same entry list, first-seen order included.
pub proof fn lemma_merge_entries_assoc<A>(a: Seq<A>, b: Seq<A>, c: Seq<A>)
    ensures
        merge_entries(merge_entries(a, b), c) == merge_entries(a, merge_entries(b, c)),
{
    let na = |x: A| !a.contains(x);
    let nb = |x: A| !b.contains(x);
    let fb = b.filter(na);
    let nab = |x: A| !merge_entries(a, b).contains(x);
    let both = |x: A| !b.contains(x) && !a.contains(x);
    assert(forall|x: A| #[trigger] nab(x) == both(x)) by {
        assert forall|x: A| #[trigger] nab(x) == both(x) by {
            lemma_merge_entries_contains(a, b, x);
        }
    }
    lemma_filter_agree(c, nab, both);
    lemma_filter_compose(c, nb, na, both);
    Seq::filter_distributes_over_add(b, c.filter(nb), na);
    assert(merge_entries(merge_entries(a, b), c) =~= merge_entries(a, merge_entries(b, c)));
}

/// The operator is associative on the stored bytes themselves.
proof fn lemma_merge_step_assoc(key: Seq<u8>, ex: Seq<u8>, c: Seq<u8>, r: Seq<u8>)
    requires
        value_wf(key, ex),
        value_wf(key, c),
        value_wf(key, r),
    ensures
        merge_step(key, merge_step(key, ex, c), r) == merge_step(key, ex, merge_step(key, c, r)),
{
    if is_id_record_key(key) {
        lemma_merge_handles_decode(ex, c);
        lemma_merge_handles_decode(c, r);
        lemma_merge_handles_decode(merge_handles_bytes(ex, c), r);
        lemma_merge_handles_decode(ex, merge_handles_bytes(c, r));
        lemma_merge_entries_assoc(decode_handles(ex), decode_handles(c), decode_handles(r));
        crate::merge::lemma_handles_canonical(
            merge_handles_bytes(merge_handles_bytes(ex, c), r),
        );
        crate::merge::lemma_handles_canonical(
            merge_handles_bytes(ex, merge_handles_bytes(c, r)),
        );
    } else {
        lemma_merge_ids_decode(ex, c);
        lemma_merge_ids_decode(c, r);
        lemma_merge_ids_decode(merge_ids_bytes(ex, c), r);
        lemma_merge_ids_decode(ex, merge_ids_bytes(c, r));
        lemma_merge_entries_assoc(decode_ids(ex), decode_ids(c), decode_ids(r));
        crate::merge::lemma_ids_canonical(merge_ids_bytes(merge_ids_bytes(ex, c), r));
        crate::merge::lemma_ids_canonical(merge_ids_bytes(ex, merge_ids_bytes(c, r)));
    }
}

/// Merging the empty operand changes nothing.
proof fn lemma_merge_step_empty(key: Seq<u8>, ex: Seq<u8>)
    requires
        value_wf(key, ex),
    ensures
        merge_step(key, ex, Seq::<u8>::empty()) == ex,
{
    reveal(Seq::filter);
    assert(handles_wf(Seq::<u8>::empty()) && ids_wf(Seq::<u8>::empty()));
    assert(decode_handles(Seq::<u8>::empty()) =~= Seq::<Seq<u8>>::empty());
    assert(decode_ids(Seq::<u8>::empty()) =~= Seq::<u64>::empty());
    if is_id_record_key(key) {
        let fl = decode_handles(Seq::<u8>::empty()).filter(
            |e: Seq<u8>| !decode_handles(ex).contains(e),
        );
        assert(fl =~= Seq::<Seq<u8>>::empty());
        assert(fl.flat_map(|e: Seq<u8>| crate::codec::encode_handle(e)) =~= Seq::<u8>::empty());
        assert(merge_handles_bytes(ex, Seq::<u8>::empty()) =~= ex);
    } else {
        let fl = decode_ids(Seq::<u8>::empty()).filter(|x: u64| !decode_ids(ex).contains(x));
        assert(fl =~= Seq::<u64>::empty());
        assert(fl.flat_map(|x: u64| be_bytes_of(x)) =~= Seq::<u8>::empty());
        assert(merge_ids_bytes(ex, Seq::<u8>::empty()) =~= ex);
    }
}

proof fn lemma_merge_result_shift(key: Seq<u8>, ex: Seq<u8>, c: Seq<u8>, ops: Seq<Seq<u8>>)
    requires
        value_wf(key, ex),
        value_wf(key, c),
    ensures
        merge_step(key, ex, merge_result(key, c, ops)) == merge_result(
            key,
            merge_step(key, ex, c),
            ops,
        ),
    decreases ops.len(),
{
    if ops.len() != 0 {
        let op0 = ops[0];
        if value_wf(key, op0) {
            if is_id_record_key(key) {
                lemma_merge_handles_decode(c, op0);
                lemma_merge_handles_decode(ex, c);
            } else {
                lemma_merge_ids_decode(c, op0);
                lemma_merge_ids_decode(ex, c);
            }
            lemma_merge_result_shift(key, ex, merge_step(key, c, op0), ops.skip(1));
            lemma_merge_step_assoc(key, ex, c, op0);
        } else {
            assert(merge_step(key, c, op0) == c);
            assert(merge_step(key, merge_step(key, ex, c), op0) == merge_step(key, ex, c)) by {
                if is_id_record_key(key) {
                    lemma_merge_handles_decode(ex, c);
                } else {
                    lemma_merge_ids_decode(ex, c);
                }
            }
            lemma_merge_result_shift(key, ex, c, ops.skip(1));
        }
    }
}

/// Re-applying the operator to its own prior output is sound: operands first
/// combined from an absent value (as a compaction pass may) and later merged
/// into the existing value give exactly what merging the operands directly
/// gives.
pub proof fn lemma_merge_reapply(key: Seq<u8>, ex: Seq<u8>, ops: Seq<Seq<u8>>)
    requires
        value_wf(key, ex),
    ensures
        merge_step(key, ex, merge_result(key, Seq::empty(), ops)) == merge_result(key, ex, ops),
{
    assert(handles_wf(Seq::<u8>::empty()) && ids_wf(Seq::<u8>::empty()));
    lemma_merge_result_shift(key, ex, Seq::empty(), ops);
    lemma_merge_step_empty(key, ex);
}

/// Applying two operand runs in turn is applying their concatenation: a
/// compaction pass may combine any consecutive batch of pending operands.
pub proof fn lemma_merge_result_append(key: Seq<u8>, ex: Seq<u8>, ops1: Seq<Seq<u8>>, ops2: Seq<
    Seq<u8>,
>)
    ensures
        merge_result(key, ex, ops1 + ops2) == merge_result(
            key,
            merge_result(key, ex, ops1),
            ops2,
        ),
    decreases ops1.len(),
{
    if ops1.len() == 0 {
        assert(ops1 + ops2 =~= ops2);
    } else {
        let ex1 = merge_step(key, ex, ops1[0]);
        lemma_merge_result_append(key, ex1, ops1.skip(1), ops2);
        assert((ops1 + ops2)[0] == ops1[0]);
        assert((ops1 + ops2).skip(1) =~= ops1.skip(1) + ops2);
    }
}

/// A never-inserted key holds nothing: both lookups are empty, not errors.
pub proof fn lemma_empty_lookup(m: Map<Seq<u8>, Seq<u8>>, id: u64, folded: Seq<char>)
    requires
        !m.dom().contains(id_key_bytes(id)),
        !m.dom().contains(handle_key_bytes(folded)),
    ensures
        handles_at(m, id) == Seq::<Seq<u8>>::empty(),
        ids_at(m, folded) == Seq::<u64>::empty(),
{
}

/// One insertion preserves the store's namespaces.
pub proof fn lemma_insert_wf(m: Map<Seq<u8>, Seq<u8>>, id: u64, handle: Seq<char>)
    requires
        store_wf(m),
        encode_utf8(handle).len() <= 255,
    ensures
        store_wf(insert_pair_model(m, id, handle)),
{
    let idk = id_key_bytes(id);
    let hk = handle_key_bytes(lower_of(handle));
    lemma_keys_distinct(id, lower_of(handle));
    let cur0 = if m.dom().contains(idk) {
        m[idk]
    } else {
        Seq::empty()
    };
    lemma_decode_handles_single(encode_utf8(handle));
    lemma_merge_handles_decode(cur0, handle_operand(handle));
    let m1 = apply_merge(m, idk, handle_operand(handle));
    let cur1 = if m1.dom().contains(hk) {
        m1[hk]
    } else {
        Seq::empty()
    };
    assert(ids_wf(be_bytes_of(id)));
    lemma_merge_ids_decode(cur1, be_bytes_of(id));
    let m2 = insert_pair_model(m, id, handle);
    assert forall|k: Seq<u8>| #[trigger] m2.dom().contains(k) implies value_wf(k, m2[k]) by {
        if k == hk {
            assert(m2[k] == merge_step(hk, cur1, be_bytes_of(id)));
        } else if k == idk {
            assert(m2[k] == merge_step(idk, cur0, handle_operand(handle)));
        } else {
            assert(m.dom().contains(k) && m2[k] == m[k]);
        }
    }
}

/// Bidirectionality: after inserting `(id, handle)`, the identifier record
/// holds the handle's bytes and the folded handle record holds the identifier.
pub proof fn lemma_insert_bidirectional(m: Map<Seq<u8>, Seq<u8>>, id: u64, handle: Seq<char>)
    requires
        store_wf(m),
        encode_utf8(handle).len() <= 255,
    ensures
        handles_at(insert_pair_model(m, id, handle), id).contains(encode_utf8(handle)),
        ids_at(insert_pair_model(m, id, handle), lower_of(handle)).contains(id),
{
    let idk = id_key_bytes(id);
    let hk = handle_key_bytes(lower_of(handle));
    lemma_keys_distinct(id, lower_of(handle));
    let cur0 = if m.dom().contains(idk) {
        m[idk]
    } else {
        Seq::empty()
    };
    lemma_decode_handles_single(encode_utf8(handle));
    lemma_merge_handles_decode(cur0, handle_operand(handle));
    lemma_merge_entries_contains(
        decode_handles(cur0),
        decode_handles(handle_operand(handle)),
        encode_utf8(handle),
    );
    let m1 = apply_merge(m, idk, handle_operand(handle));
    let m2 = insert_pair_model(m, id, handle);
    assert(m2[idk] == m1[idk]);
    let cur1 = if m1.dom().contains(hk) {
        m1[hk]
    } else {
        Seq::empty()
    };
    lemma_decode_ids_block(be_bytes_of(id));
    crate::bytes::lemma_be_val_of_bytes(id);
    assert(ids_wf(be_bytes_of(id)));
    lemma_merge_ids_decode(cur1, be_bytes_of(id));
    lemma_merge_entries_contains(decode_ids(cur1), decode_ids(be_bytes_of(id)), id);
}

/// Merging an entry a list already holds leaves its bytes unchanged.
proof fn lemma_merge_handles_noop(ex: Seq<u8>, handle: Seq<char>)
    requires
        handles_wf(ex),
        encode_utf8(handle).len() <= 255,
        decode_handles(ex).contains(encode_utf8(handle)),
    ensures
        merge_handles_bytes(ex, handle_operand(handle)) == ex,
{
    let u = encode_utf8(handle);
    let p = |e: Seq<u8>| !decode_handles(ex).contains(e);
    lemma_decode_handles_single(u);
    assert(decode_handles(handle_operand(handle)) == seq![u]);
    assert(seq![u] =~= Seq::<Seq<u8>>::empty().push(u));
    lemma_filter_push(Seq::<Seq<u8>>::empty(), u, p);
    reveal(Seq::filter);
    assert(seq![u].filter(p) =~= Seq::<Seq<u8>>::empty());
    assert(Seq::<Seq<u8>>::empty().flat_map(|e: Seq<u8>| crate::codec::encode_handle(e)) =~= Seq::<
        u8,
    >::empty());
    assert(merge_handles_bytes(ex, handle_operand(handle)) =~= ex);
}

/// Merging an identifier a list already holds leaves its bytes unchanged.
proof fn lemma_merge_ids_noop(ex: Seq<u8>, id: u64)
    requires
        ids_wf(ex),
        decode_ids(ex).contains(id),
    ensures
        merge_ids_bytes(ex, be_bytes_of(id)) == ex,
{
    let p = |x: u64| !decode_ids(ex).contains(x);
    lemma_decode_ids_block(be_bytes_of(id));
    crate::bytes::lemma_be_val_of_bytes(id);
    assert(decode_ids(be_bytes_of(id)) == seq![id]);
    assert(seq![id] =~= Seq::<u64>::empty().push(id));
    lemma_filter_push(Seq::<u64>::empty(), id, p);
    reveal(Seq::filter);
    assert(seq![id].filter(p) =~= Seq::<u64>::empty());
    assert(Seq::<u64>::empty().flat_map(|x: u64| be_bytes_of(x)) =~= Seq::<u8>::empty());
    assert(merge_ids_bytes(ex, be_bytes_of(id)) =~= ex);
}

/// Dedup idempotence: re-inserting a pair leaves the whole store unchanged,
/// so inserting it any number of times equals inserting it once.
pub proof fn lemma_insert_idempotent(m: Map<Seq<u8>, Seq<u8>>, id: u64, handle: Seq<char>)
    requires
        store_wf(m),
        encode_utf8(handle).len() <= 255,
    ensures
        insert_pair_model(insert_pair_model(m, id, handle), id, handle) == insert_pair_model(
            m,
            id,
            handle,
        ),
{
    let idk = id_key_bytes(id);
    let hk = handle_key_bytes(lower_of(handle));
    let u = encode_utf8(handle);
    lemma_keys_distinct(id, lower_of(handle));
    let m2 = insert_pair_model(m, id, handle);
    lemma_insert_wf(m, id, handle);
    lemma_insert_bidirectional(m, id, handle);
    let m3 = apply_merge(m2, idk, handle_operand(handle));
    assert(handles_wf(m2[idk]) && decode_handles(m2[idk]).contains(u));
    lemma_decode_handles_single(u);
    lemma_merge_handles_noop(m2[idk], handle);
    assert(m3 =~= m2);
    assert(ids_wf(m3[hk]) && decode_ids(m3[hk]).contains(id));
    lemma_merge_ids_noop(m3[hk], id);
    let m4 = apply_merge(m3, hk, be_bytes_of(id));
    assert(m4 =~= m3);
    assert(insert_pair_model(m2, id, handle) =~= m2);
}

/// Case handling: on fresh keys, inserting two handles that differ in bytes
/// but fold alike keeps both under the identifier record while the folded
/// handle record holds the identifier once.
pub proof fn lemma_insert_case_handling(
    m: Map<Seq<u8>, Seq<u8>>,
    id: u64,
    h1: Seq<char>,
    h2: Seq<char>,
)
    requires
        store_wf(m),
        encode_utf8(h1).len() <= 255,
        encode_utf8(h2).len() <= 255,
        encode_utf8(h1) != encode_utf8(h2),
        lower_of(h1) == lower_of(h2),
        !m.dom().contains(id_key_bytes(id)),
        !m.dom().contains(handle_key_bytes(lower_of(h1))),
    ensures
        handles_at(insert_pair_model(insert_pair_model(m, id, h1), id, h2), id) == seq![
            encode_utf8(h1),
            encode_utf8(h2),
        ],
        ids_at(insert_pair_model(insert_pair_model(m, id, h1), id, h2), lower_of(h1)) == seq![id],
{
    let idk = id_key_bytes(id);
    let hk = handle_key_bytes(lower_of(h1));
    let u1 = encode_utf8(h1);
    let u2 = encode_utf8(h2);
    lemma_keys_distinct(id, lower_of(h1));
    let m1 = insert_pair_model(m, id, h1);
    lemma_insert_wf(m, id, h1);
    lemma_insert_bidirectional(m, id, h1);

    lemma_decode_handles_single(u1);
    lemma_merge_handles_decode(Seq::empty(), handle_operand(h1));
    assert(decode_handles(Seq::<u8>::empty()) =~= Seq::<Seq<u8>>::empty());
    assert(merge_entries(Seq::<Seq<u8>>::empty(), seq![u1]) =~= seq![u1]) by {
        reveal(Seq::filter);
        assert(seq![u1] =~= Seq::<Seq<u8>>::empty().push(u1));
        lemma_filter_push(
            Seq::<Seq<u8>>::empty(),
            u1,
            |e: Seq<u8>| !Seq::<Seq<u8>>::empty().contains(e),
        );
    }
    assert(decode_handles(m1[idk]) == seq![u1]);

    lemma_decode_ids_block(be_bytes_of(id));
    crate::bytes::lemma_be_val_of_bytes(id);
    lemma_merge_ids_decode(Seq::empty(), be_bytes_of(id));
    assert(decode_ids(Seq::<u8>::empty()) =~= Seq::<u64>::empty());
    assert(merge_entries(Seq::<u64>::empty(), seq![id]) =~= seq![id]) by {
        reveal(Seq::filter);
        assert(seq![id] =~= Seq::<u64>::empty().push(id));
        lemma_filter_push(Seq::<u64>::empty(), id, |x: u64| !Seq::<u64>::empty().contains(x));
    }
    assert(decode_ids(m1[hk]) == seq![id]);

    let m2 = insert_pair_model(m1, id, h2);
    lemma_insert_wf(m1, id, h2);
    lemma_decode_handles_single(u2);
    lemma_merge_handles_decode(m1[idk], handle_operand(h2));
    assert(merge_entries(seq![u1], seq![u2]) =~= seq![u1, u2]) by {
        reveal(Seq::filter);
        assert(!seq![u1].contains(u2));
        assert(seq![u2] =~= Seq::<Seq<u8>>::empty().push(u2));
        lemma_filter_push(Seq::<Seq<u8>>::empty(), u2, |e: Seq<u8>| !seq![u1].contains(e));
    }
    assert(handles_at(m2, id) == seq![u1, u2]);

    assert(m2[hk] == merge_ids_bytes(m1[hk], be_bytes_of(id)));
    lemma_merge_ids_noop(m1[hk], id);
    assert(ids_at(m2, lower_of(h1)) == seq![id]);
}

/// One insertion touches exactly its two keys.
pub proof fn lemma_insert_dom(m: Map<Seq<u8>, Seq<u8>>, id: u64, handle: Seq<char>)
    ensures
        insert_pair_model(m, id, handle).dom() == m.dom().insert(id_key_bytes(id)).insert(
            handle_key_bytes(lower_of(handle)),
        ),
{
    assert(insert_pair_model(m, id, handle).dom() =~= m.dom().insert(id_key_bytes(id)).insert(
        handle_key_bytes(lower_of(handle)),
    ));
}

} // verus!
