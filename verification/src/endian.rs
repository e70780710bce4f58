//! Big-endian byte order for 64-bit snapshot identifiers.
//!
//! The wire format stores the parent snapshot id as its 8 bytes in
//! big-endian order, and the store keys blobs by the same 8 bytes.

use vstd::prelude::*;

verus! {

/// The 8 bytes of `x` in big-endian order (most significant first).
pub open spec fn spec_u64_to_be_bytes(x: u64) -> Seq<u8> {
    seq![
        ((x >> 56) & 0xff) as u8,
        ((x >> 48) & 0xff) as u8,
        ((x >> 40) & 0xff) as u8,
        ((x >> 32) & 0xff) as u8,
        ((x >> 24) & 0xff) as u8,
        ((x >> 16) & 0xff) as u8,
        ((x >> 8) & 0xff) as u8,
        (x & 0xff) as u8,
    ]
}

/// The u64 whose big-endian bytes are `s`.
pub open spec fn spec_u64_from_be_bytes(s: Seq<u8>) -> u64
    recommends
        s.len() == 8,
{
    ((s[0] as u64) << 56) | ((s[1] as u64) << 48) | ((s[2] as u64) << 40) | ((s[3] as u64) << 32)
        | ((s[4] as u64) << 24) | ((s[5] as u64) << 16) | ((s[6] as u64) << 8) | (s[7] as u64)
}

/// Reading back the big-endian bytes of `x` yields `x`.
pub proof fn lemma_u64_be_round_trip(x: u64)
    ensures
        spec_u64_to_be_bytes(x).len() == 8,
        spec_u64_from_be_bytes(spec_u64_to_be_bytes(x)) == x,
{
    assert({
        &&& (x >> 56) & 0xff < 256
        &&& (x >> 48) & 0xff < 256
        &&& (x >> 40) & 0xff < 256
        &&& (x >> 32) & 0xff < 256
        &&& (x >> 24) & 0xff < 256
        &&& (x >> 16) & 0xff < 256
        &&& (x >> 8) & 0xff < 256
        &&& x & 0xff < 256
    }) by (bit_vector);
    assert(x == (((x >> 56) & 0xff) << 56) | (((x >> 48) & 0xff) << 48) | (((x >> 40) & 0xff)
        << 40) | (((x >> 32) & 0xff) << 32) | (((x >> 24) & 0xff) << 24) | (((x >> 16) & 0xff)
        << 16) | (((x >> 8) & 0xff) << 8) | (x & 0xff)) by (bit_vector);
}

/// The big-endian bytes of `x` are all zero exactly when `x` is zero.
pub proof fn lemma_u64_be_zero(x: u64)
    ensures
        (forall|i: int| 0 <= i < 8 ==> spec_u64_to_be_bytes(x)[i] == 0) <==> x == 0,
{
    assert({
        &&& (x >> 56) & 0xff < 256
        &&& (x >> 48) & 0xff < 256
        &&& (x >> 40) & 0xff < 256
        &&& (x >> 32) & 0xff < 256
        &&& (x >> 24) & 0xff < 256
        &&& (x >> 16) & 0xff < 256
        &&& (x >> 8) & 0xff < 256
        &&& x & 0xff < 256
    }) by (bit_vector);
    assert(((x >> 56) & 0xff == 0 && (x >> 48) & 0xff == 0 && (x >> 40) & 0xff == 0 && (x >> 32)
        & 0xff == 0 && (x >> 24) & 0xff == 0 && (x >> 16) & 0xff == 0 && (x >> 8) & 0xff == 0 && x
        & 0xff == 0) <==> x == 0) by (bit_vector);
    let s = spec_u64_to_be_bytes(x);
    assert(s[0] == ((x >> 56) & 0xff) as u8 && s[1] == ((x >> 48) & 0xff) as u8 && s[2] == ((x
        >> 40) & 0xff) as u8 && s[3] == ((x >> 32) & 0xff) as u8 && s[4] == ((x >> 24)
        & 0xff) as u8 && s[5] == ((x >> 16) & 0xff) as u8 && s[6] == ((x >> 8) & 0xff) as u8 && s[7]
        == (x & 0xff) as u8);
    if x == 0 {
        assert forall|i: int| 0 <= i < 8 implies s[i] == 0 by {
            if i == 0 {
            } else if i == 1 {
            } else if i == 2 {
            } else if i == 3 {
            } else if i == 4 {
            } else if i == 5 {
            } else if i == 6 {
            } else {
            }
        }
    } else {
        if forall|i: int| 0 <= i < 8 ==> s[i] == 0 {
            assert(s[0] == 0 && s[1] == 0 && s[2] == 0 && s[3] == 0 && s[4] == 0 && s[5] == 0
                && s[6] == 0 && s[7] == 0);
            assert((x >> 56) & 0xff == 0 && (x >> 48) & 0xff == 0 && (x >> 40) & 0xff == 0 && (x
                >> 32) & 0xff == 0 && (x >> 24) & 0xff == 0 && (x >> 16) & 0xff == 0 && (x >> 8)
                & 0xff == 0 && x & 0xff == 0);
            assert(false);
        }
    }
}

/// Appends the 8 big-endian bytes of `x` to `out`.
pub fn push_u64_be(out: &mut Vec<u8>, x: u64)
    ensures
        final(out)@ == old(out)@ + spec_u64_to_be_bytes(x),
{
    proof {
        assert({
            &&& (x >> 56) & 0xff < 256
            &&& (x >> 48) & 0xff < 256
            &&& (x >> 40) & 0xff < 256
            &&& (x >> 32) & 0xff < 256
            &&& (x >> 24) & 0xff < 256
            &&& (x >> 16) & 0xff < 256
            &&& (x >> 8) & 0xff < 256
            &&& x & 0xff < 256
        }) by (bit_vector);
    }
    out.push(((x >> 56) & 0xff) as u8);
    out.push(((x >> 48) & 0xff) as u8);
    out.push(((x >> 40) & 0xff) as u8);
    out.push(((x >> 32) & 0xff) as u8);
    out.push(((x >> 24) & 0xff) as u8);
    out.push(((x >> 16) & 0xff) as u8);
    out.push(((x >> 8) & 0xff) as u8);
    out.push((x & 0xff) as u8);
    proof {
        assert(out@ =~= old(out)@ + spec_u64_to_be_bytes(x));
    }
}

/// Reads the u64 stored in big-endian order at `off` in `v`.
pub fn read_u64_be(v: &Vec<u8>, off: usize) -> (x: u64)
    requires
        off + 8 <= v@.len(),
    ensures
        x == spec_u64_from_be_bytes(v@.subrange(off as int, off as int + 8)),
{
    let n = v.len();
    proof {
        assert(off + 8 <= n);
    }
    let x: u64 = ((v[off] as u64) << 56) | ((v[off + 1] as u64) << 48) | ((v[off + 2] as u64)
        << 40) | ((v[off + 3] as u64) << 32) | ((v[off + 4] as u64) << 24) | ((v[off + 5] as u64)
        << 16) | ((v[off + 6] as u64) << 8) | (v[off + 7] as u64);
    proof {
        let s = v@.subrange(off as int, off as int + 8);
        assert(s[0] == v@[off as int] && s[1] == v@[off as int + 1] && s[2] == v@[off as int + 2]
            && s[3] == v@[off as int + 3] && s[4] == v@[off as int + 4] && s[5] == v@[off as int
            + 5] && s[6] == v@[off as int + 6] && s[7] == v@[off as int + 7]);
    }
    x
}

} // verus!
