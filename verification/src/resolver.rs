//! The iterative resolver control loop, as a state machine from state and
//! event to next state. The caller owns the transport: it sends the built
//! query, waits for one reply datagram, and hands the outcome back as an
//! event. Every transport or parse failure costs one retry; a referral
//! through an additional address record costs none.

use vstd::prelude::*;

use crate::message::{
    message_bytes, parse_message, query_view, rr_views, DnsMessage,
};
use crate::name::encode_from;
use crate::rr::{ResourceRecord, ResourceRecordView};
use crate::utility::{bytes_to_string, lemma_ascii_bytes_valid_utf8};
use crate::DnsError;
use vstd::pervasive::unreached;
use vstd::string::StringSliceAdditionalSpecFns;
use vstd::utf8::encode_utf8;

verus! {

/// The port that queries are sent to.
pub const DNS_PORT: u16 = 53;

/// The record type that carries an IPv4 address.
pub const TYPE_A: u16 = 1;

/// The ASCII digits of a nonnegative number, most significant first.
pub open spec fn dec_digits(n: int) -> Seq<u8>
    decreases n,
{
    if n < 10 {
        seq![(48 + n) as u8]
    } else {
        dec_digits(n / 10).push((48 + n % 10) as u8)
    }
}

/// The dotted-decimal text of a byte sequence: each octet in decimal,
/// joined by dots. On four octets, the usual IPv4 address notation.
pub open spec fn dotted_decimal(bytes: Seq<u8>) -> Seq<u8>
    decreases bytes.len(),
{
    if bytes.len() == 0 {
        Seq::empty()
    } else if bytes.len() == 1 {
        dec_digits(bytes[0] as int)
    } else {
        dec_digits(bytes[0] as int) + seq![46u8] + dotted_decimal(bytes.drop_first())
    }
}

/// The dotted-decimal addresses of the records of the given type, in list
/// order.
pub open spec fn addresses_of(rrs: Seq<ResourceRecordView>, rr_type: u16) -> Seq<Seq<u8>>
    decreases rrs.len(),
{
    if rrs.len() == 0 {
        Seq::empty()
    } else if rrs[0].an_type == rr_type {
        seq![dotted_decimal(rrs[0].an_rdata)] + addresses_of(rrs.drop_first(), rr_type)
    } else {
        addresses_of(rrs.drop_first(), rr_type)
    }
}

/// The first record of the given type, in list order.
pub open spec fn first_of(rrs: Seq<ResourceRecordView>, rr_type: u16) -> Option<ResourceRecordView>
    decreases rrs.len(),
{
    if rrs.len() == 0 {
        None
    } else if rrs[0].an_type == rr_type {
        Some(rrs[0])
    } else {
        first_of(rrs.drop_first(), rr_type)
    }
}

/// The byte contents of a list of address strings.
pub open spec fn string_bytes(ss: Seq<String>) -> Seq<Seq<u8>> {
    ss.map_values(|s: String| encode_utf8(s@))
}

proof fn lemma_dec_digits_ascii(n: int)
    requires
        0 <= n,
    ensures
        forall|i: int| 0 <= i < dec_digits(n).len() ==> 48 <= #[trigger] dec_digits(n)[i] <= 57,
    decreases n,
{
    if n < 10 {
        assert(dec_digits(n)[0] == (48 + n) as u8);
    } else {
        lemma_dec_digits_ascii(n / 10);
        let pre = dec_digits(n / 10);
        let d = (48 + n % 10) as u8;
        assert forall|i: int| 0 <= i < dec_digits(n).len() implies 48 <= #[trigger] dec_digits(n)[i]
            <= 57 by {
            assert(dec_digits(n) == pre.push(d));
            if i < pre.len() {
                assert(dec_digits(n)[i] == pre[i]);
            } else {
                assert(dec_digits(n)[i] == d);
            }
        }
    }
}

proof fn lemma_dotted_decimal_ascii(bytes: Seq<u8>)
    ensures
        forall|i: int|
            0 <= i < dotted_decimal(bytes).len() ==> #[trigger] dotted_decimal(bytes)[i] < 128,
    decreases bytes.len(),
{
    if bytes.len() == 0 {
    } else if bytes.len() == 1 {
        lemma_dec_digits_ascii(bytes[0] as int);
        assert forall|i: int|
            0 <= i < dotted_decimal(bytes).len() implies #[trigger] dotted_decimal(bytes)[i]
            < 128 by {
            assert(dotted_decimal(bytes)[i] == dec_digits(bytes[0] as int)[i]);
        }
    } else {
        lemma_dec_digits_ascii(bytes[0] as int);
        lemma_dotted_decimal_ascii(bytes.drop_first());
        let head = dec_digits(bytes[0] as int);
        let rest = dotted_decimal(bytes.drop_first());
        assert forall|i: int|
            0 <= i < dotted_decimal(bytes).len() implies #[trigger] dotted_decimal(bytes)[i]
            < 128 by {
            assert(dotted_decimal(bytes) == head + seq![46u8] + rest);
            if i < head.len() {
                assert(dotted_decimal(bytes)[i] == head[i]);
            } else if i == head.len() {
                assert(dotted_decimal(bytes)[i] == 46u8);
            } else {
                assert(dotted_decimal(bytes)[i] == rest[i - head.len() - 1]);
            }
        }
    }
}

/// Appending one octet appends a dot (except at the front) and its digits.
proof fn lemma_dotted_decimal_push(bytes: Seq<u8>, b: u8)
    ensures
        dotted_decimal(bytes.push(b)) == if bytes.len() == 0 {
            dec_digits(b as int)
        } else {
            dotted_decimal(bytes) + seq![46u8] + dec_digits(b as int)
        },
    decreases bytes.len(),
{
    let s1 = bytes.push(b);
    if bytes.len() == 0 {
        assert(s1.len() == 1 && s1[0] == b);
    } else {
        assert(s1[0] == bytes[0]);
        assert(s1.drop_first() =~= bytes.drop_first().push(b));
        lemma_dotted_decimal_push(bytes.drop_first(), b);
        if bytes.len() == 1 {
            assert(bytes.drop_first().len() == 0);
            assert(dotted_decimal(s1) == dec_digits(bytes[0] as int) + seq![46u8] + dec_digits(
                b as int,
            ));
        } else {
            assert(dec_digits(bytes[0] as int) + seq![46u8] + (dotted_decimal(bytes.drop_first())
                + seq![46u8] + dec_digits(b as int)) =~= (dec_digits(bytes[0] as int) + seq![46u8]
                + dotted_decimal(bytes.drop_first())) + seq![46u8] + dec_digits(b as int));
        }
    }
}

/// Appending one record appends its address exactly when its type matches.
proof fn lemma_addresses_of_push(rrs: Seq<ResourceRecordView>, r: ResourceRecordView, rr_type: u16)
    ensures
        addresses_of(rrs.push(r), rr_type) == if r.an_type == rr_type {
            addresses_of(rrs, rr_type).push(dotted_decimal(r.an_rdata))
        } else {
            addresses_of(rrs, rr_type)
        },
    decreases rrs.len(),
{
    let s1 = rrs.push(r);
    if rrs.len() == 0 {
        assert(s1.len() == 1);
        assert(s1[0] == r);
        assert(s1.drop_first() =~= Seq::<ResourceRecordView>::empty());
        assert(addresses_of(s1.drop_first(), rr_type) == Seq::<Seq<u8>>::empty());
        assert(addresses_of(rrs, rr_type) == Seq::<Seq<u8>>::empty());
        if r.an_type == rr_type {
            assert(addresses_of(s1, rr_type) == seq![dotted_decimal(r.an_rdata)] + Seq::<
                Seq<u8>,
            >::empty());
            assert(seq![dotted_decimal(r.an_rdata)] + Seq::<Seq<u8>>::empty() =~= Seq::<
                Seq<u8>,
            >::empty().push(dotted_decimal(r.an_rdata)));
        } else {
            assert(addresses_of(s1, rr_type) == addresses_of(s1.drop_first(), rr_type));
        }
    } else {
        assert(s1[0] == rrs[0]);
        assert(s1.drop_first() =~= rrs.drop_first().push(r));
        lemma_addresses_of_push(rrs.drop_first(), r, rr_type);
        if r.an_type == rr_type && rrs[0].an_type == rr_type {
            assert(addresses_of(s1, rr_type) == seq![dotted_decimal(rrs[0].an_rdata)]
                + addresses_of(rrs.drop_first(), rr_type).push(dotted_decimal(r.an_rdata)));
            assert(seq![dotted_decimal(rrs[0].an_rdata)] + addresses_of(
                rrs.drop_first(),
                rr_type,
            ).push(dotted_decimal(r.an_rdata)) =~= (seq![dotted_decimal(rrs[0].an_rdata)]
                + addresses_of(rrs.drop_first(), rr_type)).push(dotted_decimal(r.an_rdata)));
        }
    }
}

/// The decimal digits of one octet, most significant first.
fn u8_decimal(n: u8) -> (v: Vec<u8>)
    ensures
        v@ == dec_digits(n as int),
{
    let mut v: Vec<u8> = Vec::new();
    if n >= 100 {
        v.push(48 + n / 100);
    }
    if n >= 10 {
        v.push(48 + (n / 10) % 10);
    }
    v.push(48 + n % 10);
    proof {
        reveal_with_fuel(dec_digits, 4);
        assert(v@ =~= dec_digits(n as int));
    }
    v
}

/// The dotted-decimal text of a record's rdata: on a type-A record, the
/// IPv4 address it carries.
pub fn get_ip_addr(rr: &ResourceRecord) -> (r: String)
    ensures
        encode_utf8(r@) == dotted_decimal(rr.an_rdata@),
{
    let mut buf: Vec<u8> = Vec::new();
    let mut i: usize = 0;
    proof {
        assert(rr.an_rdata@.take(0) =~= Seq::<u8>::empty());
    }
    while i < rr.an_rdata.len()
        invariant
            i <= rr.an_rdata@.len(),
            buf@ == dotted_decimal(rr.an_rdata@.take(i as int)),
        decreases rr.an_rdata@.len() - i,
    {
        if i > 0 {
            buf.push(46);
        }
        let mut digits = u8_decimal(rr.an_rdata[i]);
        buf.append(&mut digits);
        proof {
            lemma_dotted_decimal_push(rr.an_rdata@.take(i as int), rr.an_rdata@[i as int]);
            assert(rr.an_rdata@.take(i + 1) =~= rr.an_rdata@.take(i as int).push(
                rr.an_rdata@[i as int],
            ));
            assert(buf@ =~= dotted_decimal(rr.an_rdata@.take(i + 1)));
        }
        i = i + 1;
    }
    proof {
        assert(rr.an_rdata@.take(rr.an_rdata@.len() as int) =~= rr.an_rdata@);
        lemma_dotted_decimal_ascii(rr.an_rdata@);
        lemma_ascii_bytes_valid_utf8(dotted_decimal(rr.an_rdata@));
    }
    match bytes_to_string(buf) {
        Some(s) => s,
        None => unreached(),
    }
}

/// The dotted-decimal addresses of every record of the given type, in list
/// order.
pub fn collect_addresses(rr_type: u16, rrs: &Vec<ResourceRecord>) -> (r: Vec<String>)
    ensures
        string_bytes(r@) == addresses_of(rr_views(rrs@), rr_type),
{
    let mut out: Vec<String> = Vec::new();
    let mut i: usize = 0;
    proof {
        assert(rr_views(rrs@.take(0)) =~= Seq::<ResourceRecordView>::empty());
        assert(string_bytes(out@) =~= addresses_of(rr_views(rrs@.take(0)), rr_type));
    }
    while i < rrs.len()
        invariant
            i <= rrs@.len(),
            string_bytes(out@) == addresses_of(rr_views(rrs@.take(i as int)), rr_type),
        decreases rrs@.len() - i,
    {
        proof {
            assert(rr_views(rrs@.take(i + 1)) =~= rr_views(rrs@.take(i as int)).push(
                rrs@[i as int]@,
            ));
            lemma_addresses_of_push(rr_views(rrs@.take(i as int)), rrs@[i as int]@, rr_type);
        }
        if rrs[i].an_type == rr_type {
            let s = get_ip_addr(&rrs[i]);
            out.push(s);
            proof {
                assert(string_bytes(out@) =~= addresses_of(rr_views(rrs@.take(i + 1)), rr_type));
            }
        }
        i = i + 1;
    }
    proof {
        assert(rrs@.take(rrs@.len() as int) =~= rrs@);
    }
    out
}

/// Where one resolution session stands.
#[derive(Debug)]
pub enum ResolveState {
    /// Still asking; the session's current server is the target.
    Querying,
    /// Terminal success: the dotted addresses of every type-A answer.
    Answered(Vec<String>),
    /// Terminal failure: the retry budget is spent.
    Failed,
}

/// What the transport reports back for one attempt.
#[derive(Debug)]
pub enum ResolverEvent {
    /// The query datagram could not be sent.
    SendFailed,
    /// No reply datagram arrived.
    ReceiveFailed,
    /// A reply datagram arrived, as raw octets.
    Reply(Vec<u8>),
}

/// One resolution session: the hostname under query, the server currently
/// asked, the retry budget, the failures counted so far, and where the
/// session stands.
#[derive(Debug)]
pub struct Resolver {
    pub hostname: String,
    pub server: String,
    pub max_retries: u32,
    pub failures: u32,
    pub state: ResolveState,
}

impl Resolver {
    /// A session still querying has budget left, and its hostname encodes.
    pub open spec fn wf(self) -> bool {
        &&& (self.state is Querying ==> self.failures < self.max_retries)
        &&& encode_from(encode_utf8(self.hostname@), 0) is Some
    }
}

/// One failure was counted against the retry budget: the failure count
/// grows by one, the session fails exactly when the budget is now spent,
/// and everything else stands.
pub open spec fn counted_failure(pre: Resolver, post: Resolver) -> bool {
    &&& post.failures == pre.failures + 1
    &&& post.server@ == pre.server@
    &&& post.hostname@ == pre.hostname@
    &&& post.max_retries == pre.max_retries
    &&& (post.state is Failed <==> post.failures == pre.max_retries)
    &&& (post.state is Querying <==> post.failures < pre.max_retries)
}

/// The whole decision step, in the order the protocol asks for it: a
/// transport failure or an unparsable reply costs one retry; a reply with
/// answers ends the session with every type-A answer's address; otherwise
/// a reply with a type-A additional record redirects the session to that
/// address, costing nothing; any other reply costs one retry.
pub open spec fn step_spec(pre: Resolver, event: ResolverEvent, post: Resolver) -> bool {
    match event {
        ResolverEvent::SendFailed => counted_failure(pre, post),
        ResolverEvent::ReceiveFailed => counted_failure(pre, post),
        ResolverEvent::Reply(bytes) => {
            if parse_message(bytes@) is Err {
                counted_failure(pre, post)
            } else {
                let m = parse_message(bytes@)->Ok_0.0;
                if m.answers.len() > 0 {
                    &&& post.state is Answered
                    &&& string_bytes(post.state->Answered_0@) == addresses_of(m.answers, TYPE_A)
                    &&& post.failures == pre.failures
                    &&& post.server@ == pre.server@
                    &&& post.hostname@ == pre.hostname@
                    &&& post.max_retries == pre.max_retries
                } else if first_of(m.additionals, TYPE_A) is Some {
                    &&& post.state is Querying
                    &&& encode_utf8(post.server@) == dotted_decimal(
                        first_of(m.additionals, TYPE_A)->Some_0.an_rdata,
                    )
                    &&& post.failures == pre.failures
                    &&& post.hostname@ == pre.hostname@
                    &&& post.max_retries == pre.max_retries
                } else {
                    counted_failure(pre, post)
                }
            }
        },
    }
}

impl Resolver {
    /// Open a session for `hostname` against `seed_server` with a budget of
    /// `max_retries` counted failures. Fails with InvalidLabel exactly when
    /// the hostname does not encode; a zero budget starts already failed.
    pub fn new(hostname: &str, seed_server: &str, max_retries: u32) -> (r: Result<
        Resolver,
        DnsError,
    >)
        ensures
            r matches Ok(res) ==> {
                &&& encode_from(hostname.spec_bytes(), 0) is Some
                &&& res.hostname@ == hostname@
                &&& res.server@ == seed_server@
                &&& res.max_retries == max_retries
                &&& res.failures == 0
                &&& (res.state is Querying <==> max_retries > 0)
                &&& (res.state is Failed <==> max_retries == 0)
                &&& res.wf()
            },
            r matches Err(e) ==> e == DnsError::InvalidLabel && encode_from(
                hostname.spec_bytes(),
                0,
            ) is None,
    {
        match crate::name::encode_name(hostname.as_bytes(), 0) {
            Ok(_) => (),
            Err(e) => {
                return Err(e);
            },
        }
        let state = if max_retries > 0 {
            ResolveState::Querying
        } else {
            ResolveState::Failed
        };
        Ok(
            Resolver {
                hostname: hostname.to_owned(),
                server: seed_server.to_owned(),
                max_retries,
                failures: 0,
                state,
            },
        )
    }

    /// Build the next query datagram: a fresh message for the session's
    /// hostname under a new transaction id.
    pub fn build_query(&self) -> (r: Vec<u8>)
        requires
            self.wf(),
            self.state is Querying,
        ensures
            exists|id: u16|
                r@ == message_bytes(
                    query_view(encode_from(encode_utf8(self.hostname@), 0)->Some_0, id),
                ),
    {
        let msg = match DnsMessage::new(self.hostname.as_str()) {
            Ok(m) => m,
            Err(_) => unreached(),
        };
        let bytes = msg.to_be_bytes();
        proof {
            let w = encode_from(encode_utf8(self.hostname@), 0)->Some_0;
            assert(bytes@ == message_bytes(query_view(w, msg.header.id)));
        }
        bytes
    }

    fn count_failure(&mut self)
        requires
            old(self).wf(),
            old(self).state is Querying,
        ensures
            final(self).wf(),
            counted_failure(*old(self), *final(self)),
    {
        self.failures = self.failures + 1;
        if self.failures == self.max_retries {
            self.state = ResolveState::Failed;
        }
    }

    /// Advance the session by one transport outcome, in the decision order
    /// that `step_spec` states.
    pub fn step(&mut self, event: ResolverEvent)
        requires
            old(self).wf(),
            old(self).state is Querying,
        ensures
            final(self).wf(),
            step_spec(*old(self), event, *final(self)),
    {
        match event {
            ResolverEvent::SendFailed => self.count_failure(),
            ResolverEvent::ReceiveFailed => self.count_failure(),
            ResolverEvent::Reply(bytes) => {
                match DnsMessage::parse(&bytes) {
                    Err(_) => self.count_failure(),
                    Ok(m) => {
                        if m.answers.len() > 0 {
                            let addrs = collect_addresses(TYPE_A, &m.answers);
                            self.state = ResolveState::Answered(addrs);
                        } else {
                            match first_of_type(&m.additionals, TYPE_A) {
                                Some(i) => {
                                    self.server = get_ip_addr(&m.additionals[i]);
                                },
                                None => self.count_failure(),
                            }
                        }
                    },
                }
            },
        }
    }
}

fn first_of_type(rrs: &Vec<ResourceRecord>, rr_type: u16) -> (r: Option<usize>)
    ensures
        r matches Some(i) ==> {
            &&& i < rrs@.len()
            &&& first_of(rr_views(rrs@), rr_type) == Some(rrs@[i as int]@)
        },
        r is None ==> first_of(rr_views(rrs@), rr_type) is None,
{
    let mut i: usize = 0;
    proof {
        assert(rr_views(rrs@).skip(0) =~= rr_views(rrs@));
    }
    while i < rrs.len()
        invariant
            i <= rrs@.len(),
            first_of(rr_views(rrs@), rr_type) == first_of(rr_views(rrs@).skip(i as int), rr_type),
        decreases rrs@.len() - i,
    {
        if rrs[i].an_type == rr_type {
            proof {
                assert(rr_views(rrs@).skip(i as int)[0] == rrs@[i as int]@);
            }
            return Some(i);
        }
        proof {
            assert(rr_views(rrs@).skip(i as int).drop_first() =~= rr_views(rrs@).skip(i + 1));
            assert(rr_views(rrs@).skip(i as int)[0] == rrs@[i as int]@);
        }
        i = i + 1;
    }
    proof {
        assert(rr_views(rrs@).skip(rrs@.len() as int).len() == 0);
    }
    None
}

} // verus!
