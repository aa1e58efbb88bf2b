//! The resource-record codec: a wire-encoded name (possibly compressed),
//! four fixed fields, and an opaque rdata of declared length.

use vstd::prelude::*;

use crate::name::{lemma_name_end_bounds, name_end, name_value};
use crate::utility::{be16, be16_bytes, be32, be32_bytes, lemma_be16_octets, lemma_be32_octets,
    push_u16, push_u32, subrange_to_vec, to_u16, to_u32};
use crate::DnsError;
use vstd::slice::slice_subrange;

verus! {

/// One resource record of the answer, authority or additional section.
#[derive(Debug)]
pub struct ResourceRecord {
    /// The name this record pertains to, in literal wire form.
    pub an_name: Vec<u8>,
    /// The record type; 1 marks an IPv4 address record.
    pub an_type: u16,
    /// The class of the data held in rdata.
    pub an_class: u16,
    /// Time to live, in seconds.
    pub an_ttl: u32,
    /// The declared length of rdata.
    pub an_rdlength: u16,
    /// The payload; four octets of an IPv4 address when the type says so.
    pub an_rdata: Vec<u8>,
}

/// The mathematical value of a resource record.
pub struct ResourceRecordView {
    pub an_name: Seq<u8>,
    pub an_type: u16,
    pub an_class: u16,
    pub an_ttl: u32,
    pub an_rdlength: u16,
    pub an_rdata: Seq<u8>,
}

impl View for ResourceRecord {
    type V = ResourceRecordView;

    open spec fn view(&self) -> ResourceRecordView {
        ResourceRecordView {
            an_name: self.an_name@,
            an_type: self.an_type,
            an_class: self.an_class,
            an_ttl: self.an_ttl,
            an_rdlength: self.an_rdlength,
            an_rdata: self.an_rdata@,
        }
    }
}

impl ResourceRecordView {
    /// The declared rdata length matches the rdata itself.
    pub open spec fn wf(self) -> bool {
        self.an_rdlength == self.an_rdata.len()
    }
}

/// The octets that a resource record encodes to: name, type, class, ttl,
/// rdata length, rdata.
pub open spec fn rr_bytes(r: ResourceRecordView) -> Seq<u8> {
    r.an_name + be16_bytes(r.an_type) + be16_bytes(r.an_class) + be32_bytes(r.an_ttl) + be16_bytes(
        r.an_rdlength,
    ) + r.an_rdata
}

/// The resource record read from `msg` at `start`, and the position just
/// past it. The name is kept in its literal wire form, pointers included,
/// but must resolve against the whole message. A record whose fixed fields
/// or rdata are cut off fails with RdataOverrun.
pub open spec fn parse_rr(msg: Seq<u8>, start: int) -> Result<(ResourceRecordView, int), DnsError> {
    if name_value(msg, start, msg.len()) is Err {
        Err(name_value(msg, start, msg.len())->Err_0)
    } else {
        let end = name_end(msg, start);
        if end + 10 > msg.len() {
            Err(DnsError::RdataOverrun)
        } else {
            let rdlength = be16(msg[end + 8], msg[end + 9]);
            if end + 10 + rdlength > msg.len() {
                Err(DnsError::RdataOverrun)
            } else {
                Ok(
                    (
                        ResourceRecordView {
                            an_name: msg.subrange(start, end),
                            an_type: be16(msg[end], msg[end + 1]),
                            an_class: be16(msg[end + 2], msg[end + 3]),
                            an_ttl: be32(msg[end + 4], msg[end + 5], msg[end + 6], msg[end + 7]),
                            an_rdlength: rdlength,
                            an_rdata: msg.subrange(end + 10, end + 10 + rdlength),
                        },
                        end + 10 + rdlength,
                    ),
                )
            }
        }
    }
}

/// Law: a parsed resource record re-encodes, octet for octet, to the very
/// octets it was read from, and its declared rdata length is truthful.
pub proof fn lemma_rr_roundtrip(msg: Seq<u8>, start: int)
    requires
        parse_rr(msg, start) is Ok,
    ensures
        ({
            let p = parse_rr(msg, start)->Ok_0;
            0 <= start < p.1 <= msg.len() && rr_bytes(p.0) == msg.subrange(start, p.1)
                && p.0.wf()
        }),
{
    assert(start >= 0);
    let end = name_end(msg, start);
    lemma_name_end_bounds(msg, start, msg.len() as nat);
    lemma_be16_octets(msg[end], msg[end + 1]);
    lemma_be16_octets(msg[end + 2], msg[end + 3]);
    lemma_be32_octets(msg[end + 4], msg[end + 5], msg[end + 6], msg[end + 7]);
    lemma_be16_octets(msg[end + 8], msg[end + 9]);
    let p = parse_rr(msg, start)->Ok_0;
    assert(rr_bytes(p.0) =~= msg.subrange(start, p.1));
}

impl ResourceRecord {
    /// Serialize the record: name octets, the four fixed fields in network
    /// order, then the rdata octets.
    pub fn to_be_bytes(&self) -> (r: Vec<u8>)
        ensures
            r@ == rr_bytes(self@),
    {
        let mut reply = subrange_to_vec(self.an_name.as_slice(), 0, self.an_name.len());
        push_u16(&mut reply, self.an_type);
        push_u16(&mut reply, self.an_class);
        push_u32(&mut reply, self.an_ttl);
        push_u16(&mut reply, self.an_rdlength);
        let mut rdata = subrange_to_vec(self.an_rdata.as_slice(), 0, self.an_rdata.len());
        reply.append(&mut rdata);
        proof {
            assert(reply@ =~= rr_bytes(self@));
        }
        reply
    }

    /// Read the resource record at `start`: its name (which may be
    /// compressed and must resolve), the four fixed fields, then exactly
    /// rdata-length octets of rdata.
    pub fn parse(message: &Vec<u8>, start: usize) -> (r: Result<(usize, ResourceRecord), DnsError>)
        ensures
            r matches Ok(p) ==> {
                &&& parse_rr(message@, start as int) == Ok::<
                    (ResourceRecordView, int),
                    DnsError,
                >((p.1@, p.0 as int))
                &&& start < p.0 <= message@.len()
                &&& p.1@.wf()
            },
            r matches Err(e) ==> parse_rr(message@, start as int) == Err::<
                (ResourceRecordView, int),
                DnsError,
            >(e),
    {
        let end = match crate::name::decode_name(message, start) {
            Ok(p) => p.1,
            Err(e) => {
                return Err(e);
            },
        };
        if message.len() - end < 10 {
            return Err(DnsError::RdataOverrun);
        }
        let an_rdlength = to_u16(slice_subrange(message.as_slice(), end + 8, end + 10));
        if message.len() - (end + 10) < an_rdlength as usize {
            return Err(DnsError::RdataOverrun);
        }
        let an_name = subrange_to_vec(message.as_slice(), start, end);
        let an_type = to_u16(slice_subrange(message.as_slice(), end, end + 2));
        let an_class = to_u16(slice_subrange(message.as_slice(), end + 2, end + 4));
        let an_ttl = to_u32(slice_subrange(message.as_slice(), end + 4, end + 8));
        let an_rdata = subrange_to_vec(
            message.as_slice(),
            end + 10,
            end + 10 + an_rdlength as usize,
        );
        Ok(
            (
                end + 10 + an_rdlength as usize,
                ResourceRecord { an_name, an_type, an_class, an_ttl, an_rdlength, an_rdata },
            ),
        )
    }
}

} // verus!
