//! Big-endian encoding of 64-bit identifiers.

use vstd::prelude::*;

verus! {

/// The eight bytes of `x`, most significant first.
pub open spec fn be_bytes_of(x: u64) -> Seq<u8> {
    seq![
        ((x >> 56) & 0xff) as u8,
        ((x >> 48) & 0xff) as u8,
        ((x >> 40) & 0xff) as u8,
        ((x >> 32) & 0xff) as u8,
        ((x >> 24) & 0xff) as u8,
        ((x >> 16) & 0xff) as u8,
        ((x >> 8) & 0xff) as u8,
        (x & 0xff) as u8,
    ]
}

/// The integer read from eight bytes, most significant first.
pub open spec fn be_val(s: Seq<u8>) -> u64
    recommends
        s.len() == 8,
{
    ((s[0] as u64) << 56) | ((s[1] as u64) << 48) | ((s[2] as u64) << 40) | ((s[3] as u64) << 32)
        | ((s[4] as u64) << 24) | ((s[5] as u64) << 16) | ((s[6] as u64) << 8) | (s[7] as u64)
}

pub proof fn lemma_be_val_of_bytes(x: u64)
    ensures
        be_val(be_bytes_of(x)) == x,
{
    assert((((((x >> 56) & 0xff) as u8) as u64) << 56) | (((((x >> 48) & 0xff) as u8) as u64)
        << 48) | (((((x >> 40) & 0xff) as u8) as u64) << 40) | (((((x >> 32) & 0xff) as u8) as u64)
        << 32) | (((((x >> 24) & 0xff) as u8) as u64) << 24) | (((((x >> 16) & 0xff) as u8) as u64)
        << 16) | (((((x >> 8) & 0xff) as u8) as u64) << 8) | (((x & 0xff) as u8) as u64) == x)
        by (bit_vector);
}

pub proof fn lemma_be_bytes_of_val(s: Seq<u8>)
    requires
        s.len() == 8,
    ensures
        be_bytes_of(be_val(s)) == s,
{
    let b0 = s[0];
    let b1 = s[1];
    let b2 = s[2];
    let b3 = s[3];
    let b4 = s[4];
    let b5 = s[5];
    let b6 = s[6];
    let b7 = s[7];
    let x = be_val(s);
    assert(x == ((b0 as u64) << 56) | ((b1 as u64) << 48) | ((b2 as u64) << 40) | ((b3 as u64)
        << 32) | ((b4 as u64) << 24) | ((b5 as u64) << 16) | ((b6 as u64) << 8) | (b7 as u64));
    assert({
        let x = ((b0 as u64) << 56) | ((b1 as u64) << 48) | ((b2 as u64) << 40) | ((b3 as u64)
            << 32) | ((b4 as u64) << 24) | ((b5 as u64) << 16) | ((b6 as u64) << 8) | (b7 as u64);
        ((x >> 56) & 0xff) as u8 == b0 && ((x >> 48) & 0xff) as u8 == b1 && ((x >> 40)
            & 0xff) as u8 == b2 && ((x >> 32) & 0xff) as u8 == b3 && ((x >> 24) & 0xff) as u8 == b4
            && ((x >> 16) & 0xff) as u8 == b5 && ((x >> 8) & 0xff) as u8 == b6 && (x
            & 0xff) as u8 == b7
    }) by (bit_vector);
    assert(be_bytes_of(x) =~= s);
}

/// Big-endian identifiers are distinct exactly when their byte encodings are.
pub proof fn lemma_be_bytes_injective(x: u64, y: u64)
    ensures
        (be_bytes_of(x) == be_bytes_of(y)) == (x == y),
{
    lemma_be_val_of_bytes(x);
    lemma_be_val_of_bytes(y);
}

/// Appends the big-endian encoding of `x`.
pub fn push_be_bytes(out: &mut Vec<u8>, x: u64)
    ensures
        final(out)@ == old(out)@ + be_bytes_of(x),
{
    proof {
        assert((x >> 56) & 0xff < 256 && (x >> 48) & 0xff < 256 && (x >> 40) & 0xff < 256 && (x
            >> 32) & 0xff < 256 && (x >> 24) & 0xff < 256 && (x >> 16) & 0xff < 256 && (x >> 8)
            & 0xff < 256 && x & 0xff < 256) by (bit_vector);
    }
    out.push(((x >> 56) & 0xff) as u8);
    out.push(((x >> 48) & 0xff) as u8);
    out.push(((x >> 40) & 0xff) as u8);
    out.push(((x >> 32) & 0xff) as u8);
    out.push(((x >> 24) & 0xff) as u8);
    out.push(((x >> 16) & 0xff) as u8);
    out.push(((x >> 8) & 0xff) as u8);
    out.push((x & 0xff) as u8);
    proof {
        assert(out@ =~= old(out)@ + be_bytes_of(x));
    }
}


/// Reads the big-endian integer stored at `off`.
pub fn read_be_val(v: &[u8], off: usize) -> (r: u64)
    requires
        off + 8 <= v@.len(),
    ensures
        r == be_val(v@.subrange(off as int, off as int + 8)),
{
    let r = ((v[off] as u64) << 56) | ((v[off + 1] as u64) << 48) | ((v[off + 2] as u64) << 40) | ((
    v[off + 3] as u64) << 32) | ((v[off + 4] as u64) << 24) | ((v[off + 5] as u64) << 16) | ((v[off
        + 6] as u64) << 8) | (v[off + 7] as u64);
    proof {
        let s = v@.subrange(off as int, off as int + 8);
        assert(s[0] == v@[off as int] && s[1] == v@[off as int + 1] && s[2] == v@[off as int + 2]
            && s[3] == v@[off as int + 3] && s[4] == v@[off as int + 4] && s[5] == v@[off as int
            + 5] && s[6] == v@[off as int + 6] && s[7] == v@[off as int + 7]);
    }
    r
}

} // verus!
