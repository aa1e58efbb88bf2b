//! The message assembler and parser: header, exactly one question, then the
//! answer, authority and additional record lists, in section order.

use vstd::prelude::*;

use crate::header::{header_bytes, parse_header, Flag, Header};
use crate::name::{encode_from, encode_name, name_value};
use crate::question::{parse_question, question_bytes, Question, QuestionView};
use crate::rr::{parse_rr, rr_bytes, ResourceRecord, ResourceRecordView};
use crate::utility::bytes_to_string;
use crate::DnsError;
use vstd::string::StringSliceAdditionalSpecFns;
use vstd::utf8::{encode_utf8, valid_utf8};

verus! {

/// Relies on rand::random, seeded per thread: nothing is promised of the
/// value drawn.
pub assume_specification<T>[ rand::random::<T> ]() -> (r: T)
    where
        rand::distributions::Standard: rand::distributions::Distribution<T>,
;

/// A full message: header, one question, and the three record sections.
#[derive(Debug)]
pub struct DnsMessage {
    pub header: Header,
    pub question: Question,
    pub answers: Vec<ResourceRecord>,
    pub authorities: Vec<ResourceRecord>,
    pub additionals: Vec<ResourceRecord>,
}

/// The mathematical value of a full message.
pub struct DnsMessageView {
    pub header: Header,
    pub question: QuestionView,
    pub answers: Seq<ResourceRecordView>,
    pub authorities: Seq<ResourceRecordView>,
    pub additionals: Seq<ResourceRecordView>,
}

/// The values of a record list.
pub open spec fn rr_views(rs: Seq<ResourceRecord>) -> Seq<ResourceRecordView> {
    rs.map_values(|r: ResourceRecord| r@)
}

impl View for DnsMessage {
    type V = DnsMessageView;

    open spec fn view(&self) -> DnsMessageView {
        DnsMessageView {
            header: self.header,
            question: self.question@,
            answers: rr_views(self.answers@),
            authorities: rr_views(self.authorities@),
            additionals: rr_views(self.additionals@),
        }
    }
}

impl DnsMessageView {
    /// A message fit for transmission: well-formed flags, each section
    /// count equal to its list's length, exactly one question, and each
    /// record's declared rdata length truthful.
    pub open spec fn wf(self) -> bool {
        &&& self.header.flags.wf()
        &&& self.header.qd_cnt == 1
        &&& self.header.an_cnt == self.answers.len()
        &&& self.header.ns_cnt == self.authorities.len()
        &&& self.header.ar_cnt == self.additionals.len()
        &&& forall|i: int| 0 <= i < self.answers.len() ==> (#[trigger] self.answers[i]).wf()
        &&& forall|i: int|
            0 <= i < self.authorities.len() ==> (#[trigger] self.authorities[i]).wf()
        &&& forall|i: int|
            0 <= i < self.additionals.len() ==> (#[trigger] self.additionals[i]).wf()
    }
}

/// The octets of a record list, each record's encoding in list order.
pub open spec fn records_bytes(rs: Seq<ResourceRecordView>) -> Seq<u8>
    decreases rs.len(),
{
    if rs.len() == 0 {
        Seq::empty()
    } else {
        rr_bytes(rs[0]) + records_bytes(rs.drop_first())
    }
}

/// Appending one record to a list appends its octets to the list's.
pub proof fn lemma_records_bytes_push(rs: Seq<ResourceRecordView>, r: ResourceRecordView)
    ensures
        records_bytes(rs.push(r)) == records_bytes(rs) + rr_bytes(r),
    decreases rs.len(),
{
    if rs.len() == 0 {
        let s1 = rs.push(r);
        assert(s1.len() == 1);
        assert(s1[0] == r);
        assert(s1.drop_first() =~= Seq::<ResourceRecordView>::empty());
        assert(records_bytes(s1) == rr_bytes(r) + records_bytes(Seq::<ResourceRecordView>::empty()));
        assert(records_bytes(Seq::<ResourceRecordView>::empty()) == Seq::<u8>::empty());
        assert(records_bytes(rs) == Seq::<u8>::empty());
        assert(rr_bytes(r) + Seq::<u8>::empty() =~= Seq::<u8>::empty() + rr_bytes(r));
    } else {
        assert(rs.push(r)[0] == rs[0]);
        assert(rs.push(r).drop_first() =~= rs.drop_first().push(r));
        lemma_records_bytes_push(rs.drop_first(), r);
        assert(rr_bytes(rs[0]) + (records_bytes(rs.drop_first()) + rr_bytes(r)) =~= (rr_bytes(rs[0])
            + records_bytes(rs.drop_first())) + rr_bytes(r));
    }
}

/// The octets that a whole message encodes to, section after section.
pub open spec fn message_bytes(m: DnsMessageView) -> Seq<u8> {
    header_bytes(m.header) + question_bytes(m.question) + records_bytes(m.answers) + records_bytes(
        m.authorities,
    ) + records_bytes(m.additionals)
}

/// The value of a fresh query for the wire name `q_name` under transaction
/// id `id`: recursion desired, one question of type 1 (address record) and
/// class 1 (internet), no records.
pub open spec fn query_view(q_name: Seq<u8>, id: u16) -> DnsMessageView {
    DnsMessageView {
        header: Header {
            id: id,
            flags: Flag { qr: 0, op_code: 0, aa: 0, tc: 0, rd: 1, ra: 0, z: 0, r_code: 0 },
            qd_cnt: 1,
            an_cnt: 0,
            ns_cnt: 0,
            ar_cnt: 0,
        },
        question: QuestionView { q_name: q_name, q_type: 1, q_class: 1 },
        answers: Seq::empty(),
        authorities: Seq::empty(),
        additionals: Seq::empty(),
    }
}

/// Prefix the records of `rest`, when it succeeded, with `prefix`.
pub open spec fn chain_records(
    prefix: Seq<ResourceRecordView>,
    rest: Result<(Seq<ResourceRecordView>, int), DnsError>,
) -> Result<(Seq<ResourceRecordView>, int), DnsError> {
    match rest {
        Ok(p) => Ok((prefix + p.0, p.1)),
        Err(e) => Err(e),
    }
}

/// The `n` consecutive records read from `msg` at `pos`, and the position
/// just past them; the first failure aborts the whole read.
pub open spec fn parse_records(msg: Seq<u8>, pos: int, n: nat) -> Result<
    (Seq<ResourceRecordView>, int),
    DnsError,
>
    decreases n,
{
    if n == 0 {
        Ok((Seq::empty(), pos))
    } else {
        match parse_rr(msg, pos) {
            Err(e) => Err(e),
            Ok(p) => match parse_records(msg, p.1, (n - 1) as nat) {
                Err(e) => Err(e),
                Ok(q) => Ok((seq![p.0] + q.0, q.1)),
            },
        }
    }
}

/// The message read from `msg`: header, exactly one question, then the
/// three record sections as the header counts dictate, and the position
/// just past them. A count other than one question is rejected rather than
/// mis-parsed.
pub open spec fn parse_message(msg: Seq<u8>) -> Result<(DnsMessageView, int), DnsError> {
    if 12 > msg.len() {
        Err(DnsError::TruncatedHeader)
    } else {
        let h = parse_header(msg, 0);
        if h.qd_cnt != 1 {
            Err(DnsError::UnsupportedQuestionCount)
        } else {
            match parse_question(msg, 12) {
                Err(e) => Err(e),
                Ok(qp) => match parse_records(msg, qp.1, h.an_cnt as nat) {
                    Err(e) => Err(e),
                    Ok(ans) => match parse_records(msg, ans.1, h.ns_cnt as nat) {
                        Err(e) => Err(e),
                        Ok(auth) => match parse_records(msg, auth.1, h.ar_cnt as nat) {
                            Err(e) => Err(e),
                            Ok(addl) => Ok(
                                (
                                    DnsMessageView {
                                        header: h,
                                        question: qp.0,
                                        answers: ans.0,
                                        authorities: auth.0,
                                        additionals: addl.0,
                                    },
                                    addl.1,
                                ),
                            ),
                        },
                    },
                },
            }
        }
    }
}

proof fn lemma_records_roundtrip(msg: Seq<u8>, pos: int, n: nat)
    requires
        0 <= pos <= msg.len(),
        parse_records(msg, pos, n) is Ok,
    ensures
        ({
            let p = parse_records(msg, pos, n)->Ok_0;
            pos <= p.1 <= msg.len() && records_bytes(p.0) == msg.subrange(pos, p.1)
        }),
    decreases n,
{
    if n == 0 {
        assert(msg.subrange(pos, pos) =~= Seq::<u8>::empty());
    } else {
        let rp = parse_rr(msg, pos)->Ok_0;
        crate::rr::lemma_rr_roundtrip(msg, pos);
        lemma_records_roundtrip(msg, rp.1, (n - 1) as nat);
        let q = parse_records(msg, rp.1, (n - 1) as nat)->Ok_0;
        let full = seq![rp.0] + q.0;
        assert(full[0] == rp.0);
        assert(full.drop_first() =~= q.0);
        assert(records_bytes(full) == rr_bytes(rp.0) + records_bytes(q.0));
        assert(rr_bytes(rp.0) + records_bytes(q.0) =~= msg.subrange(pos, q.1));
    }
}

/// Law: a parsed message re-encodes, octet for octet, to the consumed
/// prefix of the datagram it was read from; in particular every semantic
/// field survives the round trip.
pub proof fn lemma_message_roundtrip(msg: Seq<u8>)
    requires
        parse_message(msg) is Ok,
    ensures
        ({
            let p = parse_message(msg)->Ok_0;
            0 <= p.1 <= msg.len() && message_bytes(p.0) == msg.subrange(0, p.1)
        }),
{
    let h = parse_header(msg, 0);
    crate::header::lemma_header_roundtrip(msg, 0);
    crate::question::lemma_question_roundtrip(msg, 12);
    let qp = parse_question(msg, 12)->Ok_0;
    lemma_records_roundtrip(msg, qp.1, h.an_cnt as nat);
    let ans = parse_records(msg, qp.1, h.an_cnt as nat)->Ok_0;
    lemma_records_roundtrip(msg, ans.1, h.ns_cnt as nat);
    let auth = parse_records(msg, ans.1, h.ns_cnt as nat)->Ok_0;
    lemma_records_roundtrip(msg, auth.1, h.ar_cnt as nat);
    let addl = parse_records(msg, auth.1, h.ar_cnt as nat)->Ok_0;
    assert(message_bytes(parse_message(msg)->Ok_0.0) =~= msg.subrange(0, addl.1));
}

fn parse_record_list(message: &Vec<u8>, start: usize, n: u16) -> (r: Result<
    (usize, Vec<ResourceRecord>),
    DnsError,
>)
    requires
        start <= message@.len(),
    ensures
        r matches Ok(p) ==> {
            &&& parse_records(message@, start as int, n as nat) == Ok::<
                (Seq<ResourceRecordView>, int),
                DnsError,
            >((rr_views(p.1@), p.0 as int))
            &&& p.0 <= message@.len()
            &&& p.1@.len() == n
            &&& forall|i: int| 0 <= i < p.1@.len() ==> (#[trigger] rr_views(p.1@)[i]).wf()
        },
        r matches Err(e) ==> parse_records(message@, start as int, n as nat) == Err::<
            (Seq<ResourceRecordView>, int),
            DnsError,
        >(e),
{
    let mut pos: usize = start;
    let mut out: Vec<ResourceRecord> = Vec::new();
    let mut i: u16 = 0;
    proof {
        assert(rr_views(out@) =~= Seq::<ResourceRecordView>::empty());
        let rest = parse_records(message@, start as int, n as nat);
        if rest is Ok {
            assert(Seq::<ResourceRecordView>::empty() + rest->Ok_0.0 =~= rest->Ok_0.0);
        }
    }
    while i < n
        invariant
            i <= n,
            pos <= message@.len(),
            out@.len() == i,
            forall|k: int| 0 <= k < out@.len() ==> (#[trigger] rr_views(out@)[k]).wf(),
            parse_records(message@, start as int, n as nat) == chain_records(
                rr_views(out@),
                parse_records(message@, pos as int, (n - i) as nat),
            ),
        decreases n - i,
    {
        match ResourceRecord::parse(message, pos) {
            Err(e) => {
                return Err(e);
            },
            Ok(p) => {
                let (p2, rr) = p;
                proof {
                    let s2 = parse_records(message@, p2 as int, (n - i - 1) as nat);
                    if s2 is Ok {
                        assert(rr_views(out@) + (seq![rr@] + s2->Ok_0.0) =~= rr_views(out@).push(
                            rr@,
                        ) + s2->Ok_0.0);
                    }
                    assert(rr_views(out@.push(rr)) =~= rr_views(out@).push(rr@));
                }
                out.push(rr);
                pos = p2;
                i = i + 1;
            },
        }
    }
    proof {
        let rest = parse_records(message@, pos as int, 0);
        assert(rest == Ok::<(Seq<ResourceRecordView>, int), DnsError>(
            (Seq::<ResourceRecordView>::empty(), pos as int),
        ));
        assert(rr_views(out@) + Seq::<ResourceRecordView>::empty() =~= rr_views(out@));
    }
    Ok((pos, out))
}

fn append_records(msg: &mut Vec<u8>, rrs: &Vec<ResourceRecord>)
    ensures
        final(msg)@ == old(msg)@ + records_bytes(rr_views(rrs@)),
{
    let ghost base = msg@;
    let mut i: usize = 0;
    proof {
        assert(rr_views(rrs@.take(0)) =~= Seq::<ResourceRecordView>::empty());
        assert(msg@ =~= base + records_bytes(rr_views(rrs@.take(0))));
    }
    while i < rrs.len()
        invariant
            i <= rrs@.len(),
            msg@ == base + records_bytes(rr_views(rrs@.take(i as int))),
        decreases rrs@.len() - i,
    {
        let mut bytes = rrs[i].to_be_bytes();
        msg.append(&mut bytes);
        proof {
            assert(rr_views(rrs@.take(i + 1)) =~= rr_views(rrs@.take(i as int)).push(rrs@[i as int]@));
            lemma_records_bytes_push(rr_views(rrs@.take(i as int)), rrs@[i as int]@);
            assert(msg@ =~= base + records_bytes(rr_views(rrs@.take(i + 1))));
        }
        i = i + 1;
    }
    proof {
        assert(rrs@.take(rrs@.len() as int) =~= rrs@);
    }
}

impl DnsMessage {
    /// Build a fresh query for `address`: a new random transaction id, the
    /// recursion-desired flag set, and one question of type 1, class 1.
    /// Fails with InvalidLabel when the hostname does not encode.
    pub fn new(address: &str) -> (r: Result<DnsMessage, DnsError>)
        ensures
            r matches Ok(m) ==> {
                &&& encode_from(address.spec_bytes(), 0) is Some
                &&& m@ == query_view(encode_from(address.spec_bytes(), 0)->Some_0, m.header.id)
                &&& m@.wf()
            },
            r matches Err(e) ==> e == DnsError::InvalidLabel && encode_from(
                address.spec_bytes(),
                0,
            ) is None,
    {
        let q_name = match encode_name(address.as_bytes(), 0) {
            Ok(v) => v,
            Err(e) => {
                return Err(e);
            },
        };
        let dns_flags = Flag { qr: 0, op_code: 0, aa: 0, tc: 0, rd: 1, ra: 0, z: 0, r_code: 0 };
        let dns_header = Header {
            id: rand::random::<u16>(),
            flags: dns_flags,
            qd_cnt: 1,
            an_cnt: 0,
            ns_cnt: 0,
            ar_cnt: 0,
        };
        let dns_question = Question { q_name, q_type: 1, q_class: 1 };
        let dns_msg = DnsMessage {
            header: dns_header,
            question: dns_question,
            answers: Vec::new(),
            authorities: Vec::new(),
            additionals: Vec::new(),
        };
        proof {
            assert(rr_views(Seq::<ResourceRecord>::empty()) =~= Seq::<
                ResourceRecordView,
            >::empty());
        }
        Ok(dns_msg)
    }

    /// Serialize the whole message, section after section. The header
    /// counts must match the lists, which is what well-formedness says.
    pub fn to_be_bytes(&self) -> (r: Vec<u8>)
        requires
            self@.wf(),
        ensures
            r@ == message_bytes(self@),
    {
        let mut msg = self.header.to_be_bytes();
        let mut bytes = self.question.to_be_bytes();
        msg.append(&mut bytes);
        append_records(&mut msg, &self.answers);
        append_records(&mut msg, &self.authorities);
        append_records(&mut msg, &self.additionals);
        proof {
            assert(msg@ =~= message_bytes(self@));
        }
        msg
    }

    /// Serialize into a fixed 128-octet datagram buffer, zero-padded.
    pub fn into_bytes(&self) -> (r: [u8; 128])
        requires
            self@.wf(),
            message_bytes(self@).len() <= 128,
        ensures
            forall|i: int|
                0 <= i < message_bytes(self@).len() ==> r@[i] == message_bytes(self@)[i],
            forall|i: int| message_bytes(self@).len() <= i < 128 ==> r@[i] == 0,
    {
        broadcast use vstd::array::group_array_axioms;

        let bytes = self.to_be_bytes();
        let mut buf = [0u8; 128];
        let mut i: usize = 0;
        while i < bytes.len()
            invariant
                i <= bytes@.len(),
                bytes@ == message_bytes(self@),
                bytes@.len() <= 128,
                forall|j: int| 0 <= j < i ==> buf@[j] == bytes@[j],
                forall|j: int| i <= j < 128 ==> buf@[j] == 0,
        decreases bytes@.len() - i,
        {
            buf[i] = bytes[i];
            i = i + 1;
        }
        buf
    }

    /// Parse a received datagram: the header, exactly one question, then
    /// the three record sections as the header counts dictate. The first
    /// codec failure aborts the whole parse with that failure's error; a
    /// question count other than one is rejected with
    /// UnsupportedQuestionCount.
    pub fn parse(message: &Vec<u8>) -> (r: Result<DnsMessage, DnsError>)
        ensures
            r matches Ok(m) ==> {
                &&& parse_message(message@) is Ok
                &&& parse_message(message@)->Ok_0.0 == m@
                &&& m@.wf()
            },
            r matches Err(e) ==> parse_message(message@) is Err && parse_message(
                message@,
            )->Err_0 == e,
    {
        let (p0, header) = match Header::parse(message, 0) {
            Ok(p) => p,
            Err(e) => {
                return Err(e);
            },
        };
        if header.qd_cnt != 1 {
            return Err(DnsError::UnsupportedQuestionCount);
        }
        let (p1, question) = match Question::parse(message, p0) {
            Ok(p) => p,
            Err(e) => {
                return Err(e);
            },
        };
        let (p2, answers) = match parse_record_list(message, p1, header.an_cnt) {
            Ok(p) => p,
            Err(e) => {
                return Err(e);
            },
        };
        let (p3, authorities) = match parse_record_list(message, p2, header.ns_cnt) {
            Ok(p) => p,
            Err(e) => {
                return Err(e);
            },
        };
        let (_p4, additionals) = match parse_record_list(message, p3, header.ar_cnt) {
            Ok(p) => p,
            Err(e) => {
                return Err(e);
            },
        };
        Ok(DnsMessage { header, question, answers, authorities, additionals })
    }

    /// Encode a dotted hostname into its wire-name octets: one
    /// length-prefixed label per nonempty dot-separated segment, then the
    /// zero terminator. Fails with InvalidLabel when a segment is longer
    /// than 63 octets.
    pub fn encode_address(address: &str) -> (r: Result<Vec<u8>, DnsError>)
        ensures
            r matches Ok(v) ==> encode_from(address.spec_bytes(), 0) == Some(v@),
            r matches Err(e) ==> e == DnsError::InvalidLabel && encode_from(
                address.spec_bytes(),
                0,
            ) is None,
    {
        encode_name(address.as_bytes(), 0)
    }

    /// Decode a standalone wire-name buffer into its dotted hostname text.
    /// Fails with the decode error, or with InvalidLabel when the decoded
    /// octets are not valid text.
    pub fn decode_address(bytes: &Vec<u8>) -> (r: Result<String, DnsError>)
        ensures
            r matches Ok(s) ==> {
                &&& name_value(bytes@, 0, bytes@.len() as nat) is Ok
                &&& encode_utf8(s@) == name_value(bytes@, 0, bytes@.len() as nat)->Ok_0
            },
            r matches Err(e) ==> (name_value(bytes@, 0, bytes@.len() as nat) == Err::<
                Seq<u8>,
                DnsError,
            >(e)) || (name_value(bytes@, 0, bytes@.len() as nat) is Ok && !valid_utf8(
                name_value(bytes@, 0, bytes@.len() as nat)->Ok_0,
            ) && e == DnsError::InvalidLabel),
    {
        let name = match crate::name::decode_name(bytes, 0) {
            Ok(p) => p.0,
            Err(e) => {
                return Err(e);
            },
        };
        match bytes_to_string(name) {
            Some(s) => Ok(s),
            None => Err(DnsError::InvalidLabel),
        }
    }
}

} // verus!
