//! Byte-level helpers shared by the codec: big-endian integer reads and the
//! search for a name's zero terminator.

use vstd::prelude::*;

use crate::DnsError;
use vstd::utf8::encode_utf8;
use vstd::utf8::valid_utf8;

verus! {

/// The 16-bit value that two octets spell in network (big-endian) order.
pub open spec fn be16(hi: u8, lo: u8) -> u16 {
    (256 * (hi as int) + (lo as int)) as u16
}

/// The 32-bit value that four octets spell in network (big-endian) order.
pub open spec fn be32(b0: u8, b1: u8, b2: u8, b3: u8) -> u32 {
    (0x1000000 * (b0 as int) + 0x10000 * (b1 as int) + 0x100 * (b2 as int) + (b3 as int)) as u32
}

/// The high octet of a 16-bit value in network order.
pub open spec fn hi8(x: u16) -> u8 {
    (x / 256) as u8
}

/// The low octet of a 16-bit value in network order.
pub open spec fn lo8(x: u16) -> u8 {
    (x % 256) as u8
}

/// The four network-order octets of a 32-bit value.
pub open spec fn be32_bytes(x: u32) -> Seq<u8> {
    seq![
        (x / 0x1000000) as u8,
        ((x / 0x10000) % 256) as u8,
        ((x / 256) % 256) as u8,
        (x % 256) as u8,
    ]
}

/// The two network-order octets of a 16-bit value.
pub open spec fn be16_bytes(x: u16) -> Seq<u8> {
    seq![hi8(x), lo8(x)]
}

/// Serializing a 16-bit value read from two octets restores the octets.
pub proof fn lemma_be16_octets(hi: u8, lo: u8)
    ensures
        be16_bytes(be16(hi, lo)) == seq![hi, lo],
{
    assert(be16(hi, lo) / 256 == hi as int && be16(hi, lo) % 256 == lo as int);
    assert(be16_bytes(be16(hi, lo)) =~= seq![hi, lo]);
}

/// Serializing a 32-bit value read from four octets restores the octets.
pub proof fn lemma_be32_octets(b0: u8, b1: u8, b2: u8, b3: u8)
    ensures
        be32_bytes(be32(b0, b1, b2, b3)) == seq![b0, b1, b2, b3],
{
    let x = be32(b0, b1, b2, b3);
    assert(x / 0x1000000 == b0 as int && (x / 0x10000) % 256 == b1 as int && (x / 256) % 256
        == b2 as int && x % 256 == b3 as int);
    assert(be32_bytes(x) =~= seq![b0, b1, b2, b3]);
}

/// Read a big-endian 16-bit integer from the first two octets.
pub fn to_u16(bytes: &[u8]) -> (r: u16)
    requires
        bytes@.len() >= 2,
    ensures
        r == be16(bytes@[0], bytes@[1]),
{
    (bytes[0] as u16) * 256 + (bytes[1] as u16)
}

/// Read a big-endian 32-bit integer from the first four octets.
pub fn to_u32(bytes: &[u8]) -> (r: u32)
    requires
        bytes@.len() >= 4,
    ensures
        r == be32(bytes@[0], bytes@[1], bytes@[2], bytes@[3]),
{
    (bytes[0] as u32) * 0x1000000 + (bytes[1] as u32) * 0x10000 + (bytes[2] as u32) * 0x100
        + (bytes[3] as u32)
}

/// Find the index of the first zero octet, the terminator of an
/// uncompressed wire-encoded name.
pub fn find_first_null(bytes: &[u8]) -> (r: Result<usize, DnsError>)
    ensures
        match r {
            Ok(i) => i < bytes@.len() && bytes@[i as int] == 0 && (forall|j: int|
                0 <= j < i ==> bytes@[j] != 0),
            Err(e) => e == DnsError::MissingTerminator && (forall|j: int|
                0 <= j < bytes@.len() ==> bytes@[j] != 0),
        },
{
    let mut i: usize = 0;
    while i < bytes.len()
        invariant
            i <= bytes@.len(),
            forall|j: int| 0 <= j < i ==> bytes@[j] != 0,
        decreases bytes@.len() - i,
    {
        if bytes[i] == 0 {
            return Ok(i);
        }
        i = i + 1;
    }
    Err(DnsError::MissingTerminator)
}

/// Append the two network-order octets of a 16-bit value.
pub fn push_u16(v: &mut Vec<u8>, x: u16)
    ensures
        final(v)@ == old(v)@ + be16_bytes(x),
{
    v.push((x / 256) as u8);
    v.push((x % 256) as u8);
    proof {
        assert(v@ =~= old(v)@ + be16_bytes(x));
    }
}

/// Append the four network-order octets of a 32-bit value.
pub fn push_u32(v: &mut Vec<u8>, x: u32)
    ensures
        final(v)@ == old(v)@ + be32_bytes(x),
{
    v.push((x / 0x1000000) as u8);
    v.push(((x / 0x10000) % 256) as u8);
    v.push(((x / 256) % 256) as u8);
    v.push((x % 256) as u8);
    proof {
        assert(v@ =~= old(v)@ + be32_bytes(x));
    }
}

/// Copy the octets of `s` between `from` and `to` into a fresh vector.
pub fn subrange_to_vec(s: &[u8], from: usize, to: usize) -> (r: Vec<u8>)
    requires
        from <= to <= s@.len(),
    ensures
        r@ == s@.subrange(from as int, to as int),
{
    let mut r: Vec<u8> = Vec::new();
    let mut i: usize = from;
    proof {
        assert(r@ =~= s@.subrange(from as int, from as int));
    }
    while i < to
        invariant
            from <= i <= to <= s@.len(),
            r@ == s@.subrange(from as int, i as int),
        decreases to - i,
    {
        r.push(s[i]);
        i = i + 1;
        proof {
            assert(r@ =~= s@.subrange(from as int, i as int));
        }
    }
    r
}

/// A sequence of seven-bit octets is a valid UTF-8 encoding.
pub proof fn lemma_ascii_bytes_valid_utf8(bytes: Seq<u8>)
    requires
        forall|i: int| 0 <= i < bytes.len() ==> bytes[i] < 128,
    ensures
        valid_utf8(bytes),
    decreases bytes.len(),
{
    if bytes.len() > 0 {
        let b = bytes[0];
        assert(b < 128 ==> b & 0x7F <= 0x7F) by (bit_vector);
        assert(vstd::utf8::valid_first_scalar(bytes));
        assert(vstd::utf8::length_of_first_scalar(bytes) == 1);
        let rest = vstd::utf8::pop_first_scalar(bytes);
        assert(forall|i: int| 0 <= i < rest.len() ==> rest[i] < 128);
        lemma_ascii_bytes_valid_utf8(rest);
    }
}

/// Relies on String::from_utf8: it succeeds exactly on valid UTF-8 input,
/// and the octets of the resulting string are the input octets.
#[verifier::external_body]
pub fn bytes_to_string(v: Vec<u8>) -> (r: Option<String>)
    ensures
        r is Some <==> valid_utf8(v@),
        r matches Some(s) ==> encode_utf8(s@) == v@,
{
    match String::from_utf8(v) {
        Ok(s) => Some(s),
        Err(_) => None,
    }
}

} // verus!
