//! The question codec: one question record, a wire-encoded name followed by
//! type and class as 16-bit big-endian fields.

use vstd::prelude::*;

use crate::name::{lemma_name_end_bounds, name_end, name_value};
use crate::utility::{be16, be16_bytes, lemma_be16_octets, push_u16, subrange_to_vec, to_u16};
use crate::DnsError;
use vstd::slice::slice_subrange;

verus! {

/// One question record: the queried name in wire encoding, its record type
/// and its class.
#[derive(Debug)]
pub struct Question {
    pub q_name: Vec<u8>,
    pub q_type: u16,
    pub q_class: u16,
}

/// The mathematical value of a question record.
pub struct QuestionView {
    pub q_name: Seq<u8>,
    pub q_type: u16,
    pub q_class: u16,
}

impl View for Question {
    type V = QuestionView;

    open spec fn view(&self) -> QuestionView {
        QuestionView { q_name: self.q_name@, q_type: self.q_type, q_class: self.q_class }
    }
}

/// The octets that a question encodes to: name, type, class.
pub open spec fn question_bytes(q: QuestionView) -> Seq<u8> {
    q.q_name + be16_bytes(q.q_type) + be16_bytes(q.q_class)
}

/// The question read from `msg` at `start`, and the position just past it.
/// The name is kept in its literal wire form, pointers included, but must
/// resolve against the whole message.
pub open spec fn parse_question(msg: Seq<u8>, start: int) -> Result<(QuestionView, int), DnsError> {
    if name_value(msg, start, msg.len()) is Err {
        Err(name_value(msg, start, msg.len())->Err_0)
    } else {
        let end = name_end(msg, start);
        if end + 4 > msg.len() {
            Err(DnsError::TruncatedQuestion)
        } else {
            Ok(
                (
                    QuestionView {
                        q_name: msg.subrange(start, end),
                        q_type: be16(msg[end], msg[end + 1]),
                        q_class: be16(msg[end + 2], msg[end + 3]),
                    },
                    end + 4,
                ),
            )
        }
    }
}

/// Law: a parsed question re-encodes, octet for octet, to the very octets
/// it was read from.
pub proof fn lemma_question_roundtrip(msg: Seq<u8>, start: int)
    requires
        parse_question(msg, start) is Ok,
    ensures
        ({
            let p = parse_question(msg, start)->Ok_0;
            0 <= start < p.1 <= msg.len() && question_bytes(p.0) == msg.subrange(start, p.1)
        }),
{
    assert(start >= 0);
    let end = name_end(msg, start);
    lemma_name_end_bounds(msg, start, msg.len() as nat);
    lemma_be16_octets(msg[end], msg[end + 1]);
    lemma_be16_octets(msg[end + 2], msg[end + 3]);
    let p = parse_question(msg, start)->Ok_0;
    assert(question_bytes(p.0) =~= msg.subrange(start, p.1));
}

impl Question {
    /// Serialize the question: name octets, then type and class in network
    /// order.
    pub fn to_be_bytes(&self) -> (r: Vec<u8>)
        ensures
            r@ == question_bytes(self@),
    {
        let mut question = subrange_to_vec(self.q_name.as_slice(), 0, self.q_name.len());
        push_u16(&mut question, self.q_type);
        push_u16(&mut question, self.q_class);
        proof {
            assert(question@ =~= question_bytes(self@));
        }
        question
    }

    /// Read the question at `start`: its name (which may be compressed and
    /// must resolve), then type and class. Fails with TruncatedQuestion
    /// when the fixed fields are cut off.
    pub fn parse(message: &Vec<u8>, start: usize) -> (r: Result<(usize, Question), DnsError>)
        ensures
            r matches Ok(p) ==> {
                &&& parse_question(message@, start as int) == Ok::<(QuestionView, int), DnsError>(
                    (p.1@, p.0 as int),
                )
                &&& start < p.0 <= message@.len()
            },
            r matches Err(e) ==> parse_question(message@, start as int) == Err::<
                (QuestionView, int),
                DnsError,
            >(e),
    {
        let end = match crate::name::decode_name(message, start) {
            Ok(p) => p.1,
            Err(e) => {
                return Err(e);
            },
        };
        if message.len() - end < 4 {
            return Err(DnsError::TruncatedQuestion);
        }
        let q_name = subrange_to_vec(message.as_slice(), start, end);
        let q_type = to_u16(slice_subrange(message.as_slice(), end, end + 2));
        let q_class = to_u16(slice_subrange(message.as_slice(), end + 2, end + 4));
        Ok((end + 4, Question { q_name, q_type, q_class }))
    }
}

} // verus!
