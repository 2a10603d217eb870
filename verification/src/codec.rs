//! Byte-level primitives shared by the segment record format and the wire
//! protocol: big-endian `u32` fields, length-prefixed byte runs, and the
//! one checked conversion from raw bytes back to a `String`.

use vstd::prelude::*;

verus! {

/// The four big-endian bytes of `n`, most significant first.
pub open spec fn be32(n: u32) -> Seq<u8> {
    seq![
        (n / 0x1000000) as u8,
        ((n / 0x10000) % 0x100) as u8,
        ((n / 0x100) % 0x100) as u8,
        (n % 0x100) as u8,
    ]
}

/// The `u32` written big-endian in the four bytes `b`.
pub open spec fn be32_val(b: Seq<u8>) -> u32
    recommends
        b.len() == 4,
{
    (b[0] * 0x1000000 + b[1] * 0x10000 + b[2] * 0x100 + b[3]) as u32
}

/// Decoding inverts encoding: the four bytes of `n` read back as `n`.
pub proof fn lemma_be32_round_trip(n: u32)
    ensures
        be32_val(be32(n)) == n,
{
    assert(be32_val(be32(n)) == n) by {
        assert((n / 0x1000000) * 0x1000000 + ((n / 0x10000) % 0x100) * 0x10000 + ((n / 0x100)
            % 0x100) * 0x100 + (n % 0x100) == n) by (nonlinear_arith);
    };
}

/// Encoding inverts decoding: a four-byte run re-encodes to itself.
pub proof fn lemma_be32_bytes_round_trip(b: Seq<u8>)
    requires
        b.len() == 4,
    ensures
        be32(be32_val(b)) == b,
{
    let v = be32_val(b);
    assert(v == b[0] * 0x1000000 + b[1] * 0x10000 + b[2] * 0x100 + b[3]);
    assert(v / 0x1000000 == b[0] && (v / 0x10000) % 0x100 == b[1] && (v / 0x100) % 0x100 == b[2]
        && v % 0x100 == b[3]) by (nonlinear_arith)
        requires
            v == b[0] * 0x1000000 + b[1] * 0x10000 + b[2] * 0x100 + b[3],
            b[0] < 0x100 && b[1] < 0x100 && b[2] < 0x100 && b[3] < 0x100,
    ;
    assert(be32(v) =~= b);
}

/// Appends the big-endian bytes of `n` to `out`.
pub fn push_be32(out: &mut Vec<u8>, n: u32)
    ensures
        final(out)@ == old(out)@ + be32(n),
{
    out.push((n / 0x1000000) as u8);
    out.push(((n / 0x10000) % 0x100) as u8);
    out.push(((n / 0x100) % 0x100) as u8);
    out.push((n % 0x100) as u8);
    proof {
        assert(out@ =~= old(out)@ + be32(n));
    }
}

/// Reads the big-endian `u32` at `pos`.
pub fn read_be32(d: &[u8], pos: usize) -> (r: u32)
    requires
        pos + 4 <= d@.len(),
    ensures
        r == be32_val(d@.subrange(pos as int, pos as int + 4)),
{
    let b0 = d[pos];
    let b1 = d[pos + 1];
    let b2 = d[pos + 2];
    let b3 = d[pos + 3];
    let r = (b0 as u32) * 0x1000000 + (b1 as u32) * 0x10000 + (b2 as u32) * 0x100 + (b3 as u32);
    proof {
        let s = d@.subrange(pos as int, pos as int + 4);
        assert(s[0] == b0 && s[1] == b1 && s[2] == b2 && s[3] == b3);
    }
    r
}

/// Copies `d[start..end]` into a fresh vector.
pub fn bytes_range(d: &[u8], start: usize, end: usize) -> (r: Vec<u8>)
    requires
        start <= end <= d@.len(),
    ensures
        r@ == d@.subrange(start as int, end as int),
{
    vstd::slice::slice_to_vec(vstd::slice::slice_subrange(d, start, end))
}

/// Relies on `String::from_utf8`: it succeeds exactly on input that is
/// valid UTF-8, and then returns the string those bytes encode.
#[verifier::external_body]
pub(crate) fn bytes_to_string(v: Vec<u8>) -> (r: Option<String>)
    ensures
        r is Some <==> vstd::utf8::valid_utf8(v@),
        r is Some ==> r.unwrap()@ == vstd::utf8::decode_utf8(v@),
{
    match String::from_utf8(v) {
        Ok(s) => Some(s),
        Err(_) => None,
    }
}

} // verus!
