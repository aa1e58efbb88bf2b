//! The header codec: the fixed 12-octet message header, with the eight flag
//! subfields packed most-significant-first into one 16-bit word.

use vstd::prelude::*;

use crate::utility::{be16, be16_bytes, lemma_be16_octets, push_u16, to_u16};
use vstd::slice::slice_subrange;
use crate::DnsError;

verus! {

/// The flags bitfield of a header, one field per subfield of the packed
/// 16-bit word: qr (1 bit), op_code (4), aa (1), tc (1), rd (1), ra (1),
/// z (3), r_code (4), most significant first.
#[derive(Clone, Copy, Debug, PartialEq, Eq, Structural)]
pub struct Flag {
    pub qr: u16,
    pub op_code: u16,
    pub aa: u16,
    pub tc: u16,
    pub rd: u16,
    pub ra: u16,
    pub z: u16,
    pub r_code: u16,
}

/// The 16-bit word that packing a flags bitfield yields.
pub open spec fn flag_word(f: Flag) -> u16 {
    (f.qr << 15 | f.op_code << 11 | f.aa << 10 | f.tc << 9 | f.rd << 8 | f.ra << 7 | f.z << 4
        | f.r_code) as u16
}

/// The flags bitfield that unpacking a 16-bit word yields.
pub open spec fn parse_flag(w: u16) -> Flag {
    Flag {
        qr: (w >> 15) & 1,
        op_code: (w >> 11) & 0xF,
        aa: (w >> 10) & 1,
        tc: (w >> 9) & 1,
        rd: (w >> 8) & 1,
        ra: (w >> 7) & 1,
        z: (w >> 4) & 7,
        r_code: w & 0xF,
    }
}

impl Flag {
    /// Every subfield fits its declared bit width.
    pub open spec fn wf(&self) -> bool {
        self.qr <= 1 && self.op_code <= 15 && self.aa <= 1 && self.tc <= 1 && self.rd <= 1
            && self.ra <= 1 && self.z <= 7 && self.r_code <= 15
    }

    /// Pack the subfields into the 16-bit flags word.
    pub fn to_be_bytes(&self) -> (r: u16)
        requires
            self.wf(),
        ensures
            r == flag_word(*self),
    {
        self.qr << 15 | self.op_code << 11 | self.aa << 10 | self.tc << 9 | self.rd << 8 | self.ra
            << 7 | self.z << 4 | self.r_code
    }

    /// Unpack the 16-bit flags word from its two network-order octets.
    pub fn parse(flags: &[u8]) -> (r: Flag)
        requires
            flags@.len() >= 2,
        ensures
            r == parse_flag(be16(flags@[0], flags@[1])),
            r.wf(),
    {
        let w = to_u16(flags);
        proof {
            lemma_flag_roundtrip(w);
        }
        Flag {
            qr: (w >> 15) & 1,
            op_code: (w >> 11) & 0xF,
            aa: (w >> 10) & 1,
            tc: (w >> 9) & 1,
            rd: (w >> 8) & 1,
            ra: (w >> 7) & 1,
            z: (w >> 4) & 7,
            r_code: w & 0xF,
        }
    }
}

/// Law: packing the unpacked subfields of any 16-bit word restores the word,
/// and the unpacked subfields fit their bit widths.
pub proof fn lemma_flag_roundtrip(w: u16)
    ensures
        parse_flag(w).wf(),
        flag_word(parse_flag(w)) == w,
{
    assert((w >> 15) & 1 <= 1 && (w >> 11) & 0xF <= 15 && (w >> 10) & 1 <= 1 && (w >> 9) & 1 <= 1
        && (w >> 8) & 1 <= 1 && (w >> 7) & 1 <= 1 && (w >> 4) & 7 <= 7 && w & 0xF <= 15)
        by (bit_vector);
    assert((((w >> 15) & 1) << 15 | ((w >> 11) & 0xF) << 11 | ((w >> 10) & 1) << 10 | ((w >> 9) & 1)
        << 9 | ((w >> 8) & 1) << 8 | ((w >> 7) & 1) << 7 | ((w >> 4) & 7) << 4 | (w & 0xF)) == w)
        by (bit_vector);
}

/// Law: unpacking the packed word of any well-formed flags bitfield
/// restores the bitfield.
pub proof fn lemma_flag_pack_unpack(f: Flag)
    requires
        f.wf(),
    ensures
        parse_flag(flag_word(f)) == f,
{
    let qr = f.qr;
    let op = f.op_code;
    let aa = f.aa;
    let tc = f.tc;
    let rd = f.rd;
    let ra = f.ra;
    let z = f.z;
    let rc = f.r_code;
    let w = flag_word(f);
    assert(((w >> 15) & 1 == qr) && ((w >> 11) & 0xF == op) && ((w >> 10) & 1 == aa) && ((w >> 9)
        & 1 == tc) && ((w >> 8) & 1 == rd) && ((w >> 7) & 1 == ra) && ((w >> 4) & 7 == z) && (w
        & 0xF == rc)) by (bit_vector)
        requires
            qr <= 1,
            op <= 15,
            aa <= 1,
            tc <= 1,
            rd <= 1,
            ra <= 1,
            z <= 7,
            rc <= 15,
            w == (qr << 15 | op << 11 | aa << 10 | tc << 9 | rd << 8 | ra << 7 | z << 4 | rc),
    ;
}

/// The fixed message header: transaction id, flags, and the four section
/// counts, each a 16-bit big-endian field on the wire.
#[derive(Clone, Copy, Debug, PartialEq, Eq, Structural)]
pub struct Header {
    pub id: u16,
    pub flags: Flag,
    pub qd_cnt: u16,
    pub an_cnt: u16,
    pub ns_cnt: u16,
    pub ar_cnt: u16,
}

/// The 12 octets that a header encodes to.
pub open spec fn header_bytes(h: Header) -> Seq<u8> {
    be16_bytes(h.id) + be16_bytes(flag_word(h.flags)) + be16_bytes(h.qd_cnt) + be16_bytes(h.an_cnt)
        + be16_bytes(h.ns_cnt) + be16_bytes(h.ar_cnt)
}

/// The header whose fields the 12 octets at `start` spell.
pub open spec fn parse_header(msg: Seq<u8>, start: int) -> Header {
    Header {
        id: be16(msg[start], msg[start + 1]),
        flags: parse_flag(be16(msg[start + 2], msg[start + 3])),
        qd_cnt: be16(msg[start + 4], msg[start + 5]),
        an_cnt: be16(msg[start + 6], msg[start + 7]),
        ns_cnt: be16(msg[start + 8], msg[start + 9]),
        ar_cnt: be16(msg[start + 10], msg[start + 11]),
    }
}

/// Law: the 12 octets that a parsed header re-encodes to are the very
/// octets it was read from.
pub proof fn lemma_header_roundtrip(msg: Seq<u8>, start: int)
    requires
        0 <= start,
        start + 12 <= msg.len(),
    ensures
        header_bytes(parse_header(msg, start)) == msg.subrange(start, start + 12),
{
    lemma_be16_octets(msg[start], msg[start + 1]);
    lemma_flag_roundtrip(be16(msg[start + 2], msg[start + 3]));
    lemma_be16_octets(msg[start + 2], msg[start + 3]);
    lemma_be16_octets(msg[start + 4], msg[start + 5]);
    lemma_be16_octets(msg[start + 6], msg[start + 7]);
    lemma_be16_octets(msg[start + 8], msg[start + 9]);
    lemma_be16_octets(msg[start + 10], msg[start + 11]);
    assert(header_bytes(parse_header(msg, start)) =~= msg.subrange(start, start + 12));
}

impl Header {
    /// Serialize the header into its 12 network-order octets.
    pub fn to_be_bytes(&self) -> (r: Vec<u8>)
        requires
            self.flags.wf(),
        ensures
            r@ == header_bytes(*self),
            r@.len() == 12,
    {
        let mut header: Vec<u8> = Vec::new();
        push_u16(&mut header, self.id);
        push_u16(&mut header, self.flags.to_be_bytes());
        push_u16(&mut header, self.qd_cnt);
        push_u16(&mut header, self.an_cnt);
        push_u16(&mut header, self.ns_cnt);
        push_u16(&mut header, self.ar_cnt);
        proof {
            assert(header@ =~= header_bytes(*self));
        }
        header
    }

    /// Read the header at `start`; fails with TruncatedHeader when fewer
    /// than 12 octets remain. Returns the position just past the header.
    pub fn parse(message: &Vec<u8>, start: usize) -> (r: Result<(usize, Header), DnsError>)
        ensures
            r matches Ok(p) ==> {
                &&& start + 12 <= message@.len()
                &&& p.0 == start + 12
                &&& p.1 == parse_header(message@, start as int)
                &&& p.1.flags.wf()
            },
            r matches Err(e) ==> e == DnsError::TruncatedHeader && start + 12 > message@.len(),
    {
        if start > message.len() || message.len() - start < 12 {
            return Err(DnsError::TruncatedHeader);
        }
        let id = to_u16(slice_subrange(message.as_slice(), start, start + 2));
        let flags = Flag::parse(slice_subrange(message.as_slice(), start + 2, start + 4));
        let qd_cnt = to_u16(slice_subrange(message.as_slice(), start + 4, start + 6));
        let an_cnt = to_u16(slice_subrange(message.as_slice(), start + 6, start + 8));
        let ns_cnt = to_u16(slice_subrange(message.as_slice(), start + 8, start + 10));
        let ar_cnt = to_u16(slice_subrange(message.as_slice(), start + 10, start + 12));
        Ok((start + 12, Header { id, flags, qd_cnt, an_cnt, ns_cnt, ar_cnt }))
    }
}

} // verus!
