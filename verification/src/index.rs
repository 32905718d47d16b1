//! The index engine's verified half.
//!
//! Key encoding, insertion operands, lookup decoding and key classification
//! all live here as pure functions. The driver around the backing store opens
//! it with `merge::merge_value` registered as its associative merge operator,
//! feeds it the operands produced here, and hands stored values back to the
//! decoders; it adds no logic of its own.

use crate::bytes::{be_bytes_of, push_be_bytes};
use crate::codec::{decode_handles, decode_ids, encode_handle, handles_wf, ids_wf};
use crate::error::Error;
use crate::merge::is_id_record_key;
use vstd::prelude::*;
use vstd::utf8::{encode_utf8, valid_utf8};

verus! {

broadcast use vstd::seq_lib::group_seq_properties;

/// The case-folded form of a handle.
pub uninterp spec fn lower_of(s: Seq<char>) -> Seq<char>;

/// Relies on str::to_lowercase: the Unicode lowercase mapping of the
/// characters, depending on the characters alone.
#[verifier::external_body]
fn to_lowercase(s: &str) -> (r: String)
    ensures
        r@ == lower_of(s@),
{
    s.to_lowercase()
}

/// Relies on str::from_utf8: succeeds exactly on valid UTF-8, and the
/// returned string views the bytes it was given.
#[verifier::external_body]
fn bytes_to_string(v: &[u8]) -> (r: Option<String>)
    ensures
        r matches Some(s) ==> valid_utf8(v@) && encode_utf8(s@) == v@,
        r is None ==> !valid_utf8(v@),
{
    match std::str::from_utf8(v) {
        Ok(s) => Some(s.to_owned()),
        Err(_) => None,
    }
}

/// The key of the identifier record for `id`.
pub open spec fn id_key_bytes(id: u64) -> Seq<u8> {
    seq![0u8] + be_bytes_of(id)
}

/// The key of the handle record for an already-folded handle.
pub open spec fn handle_key_bytes(folded: Seq<char>) -> Seq<u8> {
    seq![1u8] + encode_utf8(folded)
}

/// A key starts with the handle-record namespace tag.
pub open spec fn is_handle_record_key(key: Seq<u8>) -> bool {
    key.len() >= 1 && key[0] == 1
}

pub fn id_to_key(id: u64) -> (r: Vec<u8>)
    ensures
        r@ == id_key_bytes(id),
{
    let mut key: Vec<u8> = Vec::new();
    key.push(0);
    push_be_bytes(&mut key, id);
    proof {
        assert(key@ =~= id_key_bytes(id));
    }
    key
}

pub fn screen_name_to_key(screen_name: &str) -> (r: Vec<u8>)
    ensures
        r@ == handle_key_bytes(lower_of(screen_name@)),
{
    let form = to_lowercase(screen_name);
    let mut key: Vec<u8> = Vec::new();
    key.push(1);
    key.extend_from_slice(form.as_str().as_bytes());
    proof {
        assert(key@ =~= handle_key_bytes(lower_of(screen_name@)));
    }
    key
}

/// The operand submitted under the identifier key: the handle, length-prefixed,
/// cased as supplied.
pub open spec fn handle_operand(handle: Seq<char>) -> Seq<u8> {
    encode_handle(encode_utf8(handle))
}

/// The two keyed merge operands one insertion submits: under the identifier
/// key a length-prefixed copy of the handle as supplied, and under the folded
/// handle key the identifier's eight bytes. A handle whose UTF-8 form exceeds
/// 255 bytes is rejected outright.
pub fn insert_pair_operands(id: u64, screen_name: &str) -> (r: Result<
    ((Vec<u8>, Vec<u8>), (Vec<u8>, Vec<u8>)),
    Error,
>)
    ensures
        r matches Ok(pairs) ==> {
            &&& encode_utf8(screen_name@).len() <= 255
            &&& pairs.0.0@ == id_key_bytes(id)
            &&& pairs.0.1@ == handle_operand(screen_name@)
            &&& pairs.1.0@ == handle_key_bytes(lower_of(screen_name@))
            &&& pairs.1.1@ == be_bytes_of(id)
        },
        r is Err <==> encode_utf8(screen_name@).len() > 255,
        r matches Err(e) ==> e == Error::HandleTooLong,
{
    let as_bytes = screen_name.as_bytes();
    if as_bytes.len() > 255 {
        return Err(Error::HandleTooLong);
    }
    let mut value: Vec<u8> = Vec::new();
    value.push(as_bytes.len() as u8);
    value.extend_from_slice(as_bytes);
    proof {
        assert(value@ =~= handle_operand(screen_name@));
    }
    let mut id_bytes: Vec<u8> = Vec::new();
    push_be_bytes(&mut id_bytes, id);
    proof {
        assert(id_bytes@ =~= be_bytes_of(id));
    }
    Ok(((id_to_key(id), value), (screen_name_to_key(screen_name), id_bytes)))
}

/// Every entry of an identifier-record value holds valid UTF-8.
pub open spec fn handles_utf8(v: Seq<u8>) -> bool {
    forall|i: int| 0 <= i < decode_handles(v).len() ==> valid_utf8(#[trigger] decode_handles(v)[i])
}

/// Decodes a stored identifier-record value into its handle strings, in
/// stored order; pass the empty slice for an absent record. Reports a value
/// that does not decode, or whose entries are not UTF-8, as corruption.
pub fn decode_handle_strings(v: &[u8]) -> (r: Result<Vec<String>, Error>)
    ensures
        r matches Ok(hs) ==> {
            &&& handles_wf(v@)
            &&& handles_utf8(v@)
            &&& hs@.len() == decode_handles(v@).len()
            &&& forall|i: int|
                0 <= i < hs@.len() ==> encode_utf8(#[trigger] hs@[i]@) == decode_handles(v@)[i]
        },
        r is Err <==> !(handles_wf(v@) && handles_utf8(v@)),
        r matches Err(e) ==> e == Error::CorruptValue,
{
    if !crate::codec::check_handles_wf(v) {
        return Err(Error::CorruptValue);
    }
    let mut result: Vec<String> = Vec::new();
    let mut i: usize = 0;
    proof {
        assert(v@.take(0) =~= Seq::<u8>::empty());
        assert(v@.skip(0) =~= v@);
    }
    while i < v.len()
        invariant
            handles_wf(v@),
            handles_wf(v@.take(i as int)),
            handles_wf(v@.skip(i as int)),
            i <= v@.len(),
            result@.len() == decode_handles(v@.take(i as int)).len(),
            forall|k: int|
                0 <= k < result@.len() ==> encode_utf8(#[trigger] result@[k]@) == decode_handles(
                    v@.take(i as int),
                )[k],
            forall|k: int|
                0 <= k < decode_handles(v@.take(i as int)).len() ==> valid_utf8(
                    #[trigger] decode_handles(v@.take(i as int))[k],
                ),
        decreases v@.len() - i,
    {
        proof {
            assert(v@.skip(i as int)[0] == v@[i as int]);
            assert(1 + v@[i as int] as int <= v@.len() - i);
        }
        let len = v[i] as usize;
        let ghost entry = v@.subrange(i as int + 1, i as int + 1 + len as int);
        let piece = vstd::slice::slice_subrange(v, i + 1, i + 1 + len);
        let next = match bytes_to_string(piece) {
            Some(s) => s,
            None => {
                proof {
                    let record = v@.subrange(i as int, i as int + 1 + len as int);
                    assert(record =~= encode_handle(entry));
                    let t1 = v@.take(i as int + 1 + len as int);
                    assert(v@.take(i as int) + record =~= t1);
                    crate::codec::lemma_decode_handles_concat(v@.take(i as int), record);
                    crate::codec::lemma_decode_handles_single(entry);
                    assert(decode_handles(t1).last() == entry);
                    assert(t1 + v@.skip(i as int + 1 + len as int) =~= v@);
                    crate::codec::lemma_handles_wf_concat(v@.take(i as int), record);
                    assert(v@.skip(i as int).skip(1 + len as int) =~= v@.skip(
                        i as int + 1 + len as int,
                    ));
                    crate::codec::lemma_decode_handles_concat(t1, v@.skip(
                        i as int + 1 + len as int,
                    ));
                    let idx = decode_handles(t1).len() - 1;
                    assert(decode_handles(v@)[idx] == entry);
                    assert(!handles_utf8(v@));
                }
                return Err(Error::CorruptValue);
            },
        };
        result.push(next);
        proof {
            let record = v@.subrange(i as int, i as int + 1 + len as int);
            assert(record =~= encode_handle(entry));
            let t1 = v@.take(i as int + 1 + len as int);
            assert(v@.take(i as int) + record =~= t1);
            crate::codec::lemma_decode_handles_concat(v@.take(i as int), record);
            crate::codec::lemma_decode_handles_single(entry);
            assert(decode_handles(t1) =~= decode_handles(v@.take(i as int)).push(entry));
            crate::codec::lemma_handles_wf_concat(v@.take(i as int), record);
            assert(v@.skip(i as int).skip(1 + len as int) =~= v@.skip(i as int + 1 + len as int));
        }
        i = i + 1 + len;
    }
    proof {
        assert(v@.take(i as int) =~= v@);
    }
    Ok(result)
}

/// Decodes a stored handle-record value into its identifiers, in stored
/// order; pass the empty slice for an absent record.
pub fn decode_id_values(v: &[u8]) -> (r: Result<Vec<u64>, Error>)
    ensures
        r matches Ok(ids) ==> ids_wf(v@) && ids@ == decode_ids(v@),
        r is Err <==> !ids_wf(v@),
        r matches Err(e) ==> e == Error::CorruptValue,
{
    match crate::codec::decode_id_list(v) {
        Some(ids) => Ok(ids),
        None => Err(Error::CorruptValue),
    }
}

/// How many of the given keys address each namespace, in one scan. A key that
/// starts with neither namespace tag is an unrecoverable inconsistency and is
/// reported with its prefix byte.
pub fn count_key_kinds(keys: &Vec<Vec<u8>>) -> (r: Result<(u64, u64), Error>)
    ensures
        r matches Ok(c) ==> {
            &&& c.0 == keys@.map_values(|k: Vec<u8>| k@).filter(|k: Seq<u8>| is_id_record_key(k)).len()
            &&& c.1 == keys@.map_values(|k: Vec<u8>| k@).filter(
                |k: Seq<u8>| is_handle_record_key(k),
            ).len()
        },
        r is Ok <==> (forall|i: int|
            0 <= i < keys@.len() ==> is_id_record_key(#[trigger] keys@[i]@) || is_handle_record_key(
                keys@[i]@,
            )),
        r matches Err(e) ==> {
            &&& exists|i: int|
                0 <= i < keys@.len() && !is_id_record_key(#[trigger] keys@[i]@)
                    && !is_handle_record_key(keys@[i]@)
            &&& e matches Error::InvalidKeyPrefix(_)
        },
{
    let ghost ks = keys@.map_values(|k: Vec<u8>| k@);
    let ghost idp = |k: Seq<u8>| is_id_record_key(k);
    let ghost hp = |k: Seq<u8>| is_handle_record_key(k);
    let mut id_keys: u64 = 0;
    let mut screen_name_keys: u64 = 0;
    let mut i: usize = 0;
    proof {
        assert(ks.take(0) =~= Seq::<Seq<u8>>::empty());
        assert(ks.take(0).filter(idp) =~= Seq::<Seq<u8>>::empty());
        assert(ks.take(0).filter(hp) =~= Seq::<Seq<u8>>::empty());
    }
    while i < keys.len()
        invariant
            i <= keys@.len(),
            ks == keys@.map_values(|k: Vec<u8>| k@),
            idp == |k: Seq<u8>| is_id_record_key(k),
            hp == |k: Seq<u8>| is_handle_record_key(k),
            id_keys <= i,
            screen_name_keys <= i,
            id_keys == ks.take(i as int).filter(idp).len(),
            screen_name_keys == ks.take(i as int).filter(hp).len(),
            forall|k: int|
                0 <= k < i ==> is_id_record_key(#[trigger] keys@[k]@) || is_handle_record_key(
                    keys@[k]@,
                ),
        decreases keys@.len() - i,
    {
        let key: &Vec<u8> = &keys[i];
        proof {
            assert(ks[i as int] == keys@[i as int]@);
            assert(ks.take(i as int + 1) =~= ks.take(i as int).push(ks[i as int]));
            crate::merge::lemma_filter_push(ks.take(i as int), ks[i as int], idp);
            crate::merge::lemma_filter_push(ks.take(i as int), ks[i as int], hp);
            ks.take(i as int).lemma_filter_len(idp);
            ks.take(i as int).lemma_filter_len(hp);
        }
        if key.len() >= 1 && key[0] == 0 {
            id_keys = id_keys + 1;
        } else if key.len() >= 1 && key[0] == 1 {
            screen_name_keys = screen_name_keys + 1;
        } else {
            let prefix: u8 = if key.len() >= 1 {
                key[0]
            } else {
                0
            };
            return Err(Error::InvalidKeyPrefix(prefix));
        }
        i = i + 1;
    }
    proof {
        assert(ks.take(i as int) =~= ks);
    }
    Ok((id_keys, screen_name_keys))
}

} // verus!
