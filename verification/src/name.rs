//! The name codec: a dotted hostname against the length-prefixed label
//! sequence used on the wire, including compression-pointer resolution.
//!
//! A wire-encoded name is a run of labels, each a length octet (1 to 63)
//! followed by that many raw octets, ended by a zero octet or by a
//! compression pointer: two octets whose top two bits are set, spelling a
//! 14-bit offset that must lie strictly before the pointer itself.

use vstd::prelude::*;

use crate::utility::subrange_to_vec;
use crate::DnsError;

verus! {

/// The octet that separates labels in a dotted name.
pub open spec fn dot() -> u8 {
    46
}

/// The least octet whose top two bits are set: the mark of a compression
/// pointer.
pub open spec fn pointer_mark() -> u8 {
    192
}

/// The position of the first dot at or after `i`, or the end of the name if
/// none follows: the end of the label that starts at `i`.
pub open spec fn seg_end(s: Seq<u8>, i: int) -> int
    decreases s.len() - i,
{
    if i < 0 || i >= s.len() || s[i] == dot() {
        i
    } else {
        seg_end(s, i + 1)
    }
}

/// The label end never lies before the label start and never past the
/// name, and when it lies inside the name it sits on a dot.
pub proof fn lemma_seg_end_bounds(s: Seq<u8>, i: int)
    requires
        0 <= i <= s.len(),
    ensures
        i <= seg_end(s, i) <= s.len(),
        seg_end(s, i) < s.len() ==> s[seg_end(s, i)] == dot(),
    decreases s.len() - i,
{
    if i < s.len() && s[i] != dot() {
        lemma_seg_end_bounds(s, i + 1);
    }
}

/// The octets that the dotted hostname `s`, read from position `i`, encodes
/// to: a length-prefixed label for each nonempty dot-separated segment, a
/// zero terminator last. `None` when some segment is longer than 63 octets.
pub open spec fn encode_from(s: Seq<u8>, i: int) -> Option<Seq<u8>>
    decreases s.len() - i,
    via encode_from_decreases
{
    if i < 0 || i >= s.len() {
        Some(seq![0u8])
    } else if s[i] == dot() {
        encode_from(s, i + 1)
    } else {
        let j = seg_end(s, i);
        if j - i > 63 {
            None
        } else {
            match encode_from(s, j) {
                None => None,
                Some(rest) => Some(seq![(j - i) as u8] + s.subrange(i, j) + rest),
            }
        }
    }
}

#[via_fn]
proof fn encode_from_decreases(s: Seq<u8>, i: int) {
    if 0 <= i < s.len() && s[i] != dot() {
        lemma_seg_end_bounds(s, i + 1);
    }
}

/// The dotted name that decoding yields from `msg` at `pos`, following at
/// most `fuel` compression-pointer hops, or the error that decoding stops
/// with. This is the meaning of a wire-encoded name inside a message.
pub open spec fn name_value(msg: Seq<u8>, pos: int, fuel: nat) -> Result<Seq<u8>, DnsError>
    decreases fuel, msg.len() - pos,
{
    if pos < 0 || pos >= msg.len() {
        Err(DnsError::MissingTerminator)
    } else if msg[pos] == 0 {
        Ok(Seq::empty())
    } else if msg[pos] >= pointer_mark() {
        if pos + 1 >= msg.len() {
            Err(DnsError::InvalidPointer)
        } else {
            let off = 256 * (msg[pos] - pointer_mark()) + msg[pos + 1];
            if off >= pos {
                Err(DnsError::InvalidPointer)
            } else if fuel == 0 {
                Err(DnsError::InvalidPointer)
            } else {
                name_value(msg, off, (fuel - 1) as nat)
            }
        }
    } else if msg[pos] > 63 {
        Err(DnsError::InvalidLabel)
    } else if pos + 1 + msg[pos] > msg.len() {
        Err(DnsError::MissingTerminator)
    } else {
        match name_value(msg, pos + 1 + msg[pos], fuel) {
            Err(e) => Err(e),
            Ok(rest) => Ok(
                if rest.len() == 0 {
                    msg.subrange(pos + 1, pos + 1 + msg[pos])
                } else {
                    msg.subrange(pos + 1, pos + 1 + msg[pos]) + seq![dot()] + rest
                },
            ),
        }
    }
}

/// The position just past the literal part of the name at `pos`: past its
/// zero terminator, or past the first pointer pair. Meaningful when
/// `name_value` succeeds; decoding consumes `name_end - pos` octets.
pub open spec fn name_end(msg: Seq<u8>, pos: int) -> int
    decreases msg.len() - pos,
{
    if pos < 0 || pos >= msg.len() {
        msg.len() as int
    } else if msg[pos] == 0 {
        pos + 1
    } else if msg[pos] >= pointer_mark() {
        pos + 2
    } else if pos + 1 + msg[pos] > msg.len() {
        msg.len() as int
    } else {
        name_end(msg, pos + 1 + msg[pos])
    }
}

/// A name that decodes successfully ends past its start and within the
/// message.
pub proof fn lemma_name_end_bounds(msg: Seq<u8>, pos: int, fuel: nat)
    requires
        0 <= pos,
        name_value(msg, pos, fuel) is Ok,
    ensures
        pos < name_end(msg, pos) <= msg.len(),
    decreases fuel, msg.len() - pos,
{
    if msg[pos] == 0 || msg[pos] >= pointer_mark() {
    } else {
        lemma_name_end_bounds(msg, pos + 1 + msg[pos], fuel);
    }
}

/// A hostname in canonical dotted form, read from position `i`: nonempty
/// labels separated by single dots, with no leading or trailing dot.
pub open spec fn dotted_wf(s: Seq<u8>, i: int) -> bool
    decreases s.len() - i,
    via dotted_wf_decreases
{
    if i < 0 {
        false
    } else if i >= s.len() {
        true
    } else if s[i] == dot() {
        false
    } else {
        let j = seg_end(s, i);
        j >= s.len() || (j + 1 < s.len() && dotted_wf(s, j + 1))
    }
}

#[via_fn]
proof fn dotted_wf_decreases(s: Seq<u8>, i: int) {
    if 0 <= i < s.len() && s[i] != dot() {
        lemma_seg_end_bounds(s, i + 1);
    }
}

/// A successful decode is insensitive to any extra pointer-hop budget.
pub proof fn lemma_name_value_fuel_mono(msg: Seq<u8>, pos: int, f1: nat, f2: nat)
    requires
        f1 <= f2,
        name_value(msg, pos, f1) is Ok,
    ensures
        name_value(msg, pos, f2) == name_value(msg, pos, f1),
    decreases f1, msg.len() - pos,
{
    if 0 <= pos < msg.len() {
        if msg[pos] == 0 {
        } else if msg[pos] >= pointer_mark() {
            let off = 256 * (msg[pos] - pointer_mark()) + msg[pos + 1];
            lemma_name_value_fuel_mono(msg, off, (f1 - 1) as nat, (f2 - 1) as nat);
        } else if msg[pos] <= 63 && pos + 1 + msg[pos] <= msg.len() {
            lemma_name_value_fuel_mono(msg, pos + 1 + msg[pos], f1, f2);
        }
    }
}

proof fn lemma_decode_encoded(s: Seq<u8>, i: int, msg: Seq<u8>, p: int, fuel: nat)
    requires
        0 <= i <= s.len(),
        dotted_wf(s, i),
        encode_from(s, i) is Some,
        0 <= p,
        msg.len() == p + encode_from(s, i)->Some_0.len(),
        msg.subrange(p, msg.len() as int) == encode_from(s, i)->Some_0,
    ensures
        name_value(msg, p, fuel) == Ok::<Seq<u8>, DnsError>(s.subrange(i, s.len() as int)),
    decreases s.len() - i,
{
    let e = encode_from(s, i)->Some_0;
    if i >= s.len() {
        assert(msg[p] == e[0]);
        assert(name_value(msg, p, fuel) == Ok::<Seq<u8>, DnsError>(Seq::<u8>::empty()));
        assert(s.subrange(i, s.len() as int) =~= Seq::<u8>::empty());
    } else {
        let j = seg_end(s, i);
        lemma_seg_end_bounds(s, i + 1);
        let rest = encode_from(s, j)->Some_0;
        let l = j - i;
        assert(e == seq![l as u8] + s.subrange(i, j) + rest);
        assert forall|m: int| p <= m < msg.len() implies msg[m] == e[m - p] by {
            assert(msg.subrange(p, msg.len() as int)[m - p] == e[m - p]);
        }
        assert(msg[p] == e[0] && e[0] == l);
        let q = p + 1 + l;
        assert forall|m: int| p + 1 <= m < q implies msg[m] == s[i + (m - p - 1)] by {
            assert(e[m - p] == s.subrange(i, j)[m - p - 1]);
        }
        assert forall|m: int| q <= m < msg.len() implies msg[m] == rest[m - q] by {
            assert(e[m - p] == rest[m - p - 1 - l]);
        }
        assert(msg.subrange(p + 1, q) =~= s.subrange(i, j));
        assert(msg.subrange(q, msg.len() as int) =~= rest);
        if j >= s.len() {
            lemma_decode_encoded(s, j, msg, q, fuel);
            assert(s.subrange(j, s.len() as int).len() == 0);
            assert(name_value(msg, p, fuel) == Ok::<Seq<u8>, DnsError>(msg.subrange(p + 1, q)));
            assert(msg.subrange(p + 1, q) =~= s.subrange(i, s.len() as int));
        } else {
            assert(s[j] == dot());
            assert(encode_from(s, j) == encode_from(s, j + 1));
            lemma_decode_encoded(s, j + 1, msg, q, fuel);
            let tail = s.subrange(j + 1, s.len() as int);
            assert(tail.len() > 0);
            assert(name_value(msg, p, fuel) == Ok::<Seq<u8>, DnsError>(
                msg.subrange(p + 1, q) + seq![dot()] + tail,
            ));
            assert(msg.subrange(p + 1, q) + seq![dot()] + tail =~= s.subrange(i, s.len() as int));
        }
    }
}

/// Law: decoding an encoded hostname yields the hostname again, for any
/// canonical dotted name whose labels encode at all (each at most 63
/// octets), under any pointer-hop budget.
pub proof fn lemma_encode_decode_roundtrip(s: Seq<u8>, fuel: nat)
    requires
        dotted_wf(s, 0),
        encode_from(s, 0) is Some,
    ensures
        name_value(encode_from(s, 0)->Some_0, 0, fuel) == Ok::<Seq<u8>, DnsError>(s),
{
    let w = encode_from(s, 0)->Some_0;
    assert(w.subrange(0, w.len() as int) =~= w);
    lemma_decode_encoded(s, 0, w, 0, fuel);
    assert(s.subrange(0, s.len() as int) =~= s);
}

/// Law: a compression pointer that is cut short, or whose offset does not
/// lie strictly before the pointer itself, is rejected with InvalidPointer.
pub proof fn lemma_forward_pointer_rejected(msg: Seq<u8>, pos: int, fuel: nat)
    requires
        0 <= pos < msg.len(),
        msg[pos] >= pointer_mark(),
        pos + 1 < msg.len() ==> 256 * (msg[pos] - pointer_mark()) + msg[pos + 1] >= pos,
    ensures
        name_value(msg, pos, fuel) == Err::<Seq<u8>, DnsError>(DnsError::InvalidPointer),
{
}

/// Law: the pointer pair 0xC0 0x0C, wherever it stands after offset 12,
/// decodes to the very name that is literally encoded at offset 12. A
/// literal name is one read without any pointer hop, which is what a hop
/// budget of zero expresses.
pub proof fn lemma_pointer_reuses_target(msg: Seq<u8>, pos: int, fuel: nat)
    requires
        12 < pos,
        pos + 1 < msg.len(),
        msg[pos] == 192,
        msg[pos + 1] == 12,
        fuel >= 1,
        name_value(msg, 12, 0) is Ok,
    ensures
        name_value(msg, pos, fuel) == name_value(msg, 12, 0),
{
    lemma_name_value_fuel_mono(msg, 12, 0, (fuel - 1) as nat);
}

/// Decode the wire-encoded name at `start` inside `message`, resolving
/// compression pointers against the whole message. Returns the dotted name
/// and the position just past the name's literal octets.
pub fn decode_name(message: &Vec<u8>, start: usize) -> (r: Result<(Vec<u8>, usize), DnsError>)
    ensures
        r matches Ok(p) ==> {
            &&& name_value(message@, start as int, message@.len() as nat) == Ok::<
                Seq<u8>,
                DnsError,
            >(p.0@)
            &&& p.1 == name_end(message@, start as int)
            &&& start < p.1 <= message@.len()
        },
        r matches Err(e) ==> name_value(message@, start as int, message@.len() as nat) == Err::<
            Seq<u8>,
            DnsError,
        >(e),
{
    decode_name_rec(message, start, message.len())
}

fn decode_name_rec(message: &Vec<u8>, pos: usize, fuel: usize) -> (r: Result<
    (Vec<u8>, usize),
    DnsError,
>)
    ensures
        r matches Ok(p) ==> {
            &&& name_value(message@, pos as int, fuel as nat) == Ok::<Seq<u8>, DnsError>(p.0@)
            &&& p.1 == name_end(message@, pos as int)
            &&& pos < p.1 <= message@.len()
        },
        r matches Err(e) ==> name_value(message@, pos as int, fuel as nat) == Err::<
            Seq<u8>,
            DnsError,
        >(e),
    decreases fuel, message@.len() - pos,
{
    if pos >= message.len() {
        return Err(DnsError::MissingTerminator);
    }
    let b = message[pos];
    if b == 0 {
        Ok((Vec::new(), pos + 1))
    } else if b >= 192 {
        if pos + 1 >= message.len() {
            Err(DnsError::InvalidPointer)
        } else {
            let off: usize = 256 * ((b - 192) as usize) + (message[pos + 1] as usize);
            if off >= pos || fuel == 0 {
                Err(DnsError::InvalidPointer)
            } else {
                match decode_name_rec(message, off, fuel - 1) {
                    Ok(p) => Ok((p.0, pos + 2)),
                    Err(e) => Err(e),
                }
            }
        }
    } else if b > 63 {
        Err(DnsError::InvalidLabel)
    } else {
        let l = b as usize;
        if message.len() - (pos + 1) < l {
            Err(DnsError::MissingTerminator)
        } else {
            match decode_name_rec(message, pos + 1 + l, fuel) {
                Err(e) => Err(e),
                Ok(p) => {
                    let mut name = subrange_to_vec(message.as_slice(), pos + 1, pos + 1 + l);
                    let (rest, end) = p;
                    if rest.len() > 0 {
                        name.push(46);
                        let mut tail = rest;
                        name.append(&mut tail);
                        proof {
                            assert(name@ =~= message@.subrange(
                                pos + 1,
                                pos + 1 + message@[pos as int],
                            ) + seq![dot()] + name_value(
                                message@,
                                pos + 1 + message@[pos as int],
                                fuel as nat,
                            )->Ok_0);
                        }
                    }
                    Ok((name, end))
                },
            }
        }
    }
}

/// Encode the dotted hostname octets `s` (from position `i` on) into the
/// wire form: length-prefixed labels, empty segments dropped, a zero
/// terminator last. Fails when a segment is longer than 63 octets.
pub fn encode_name(s: &[u8], i: usize) -> (r: Result<Vec<u8>, DnsError>)
    requires
        i <= s@.len(),
    ensures
        r matches Ok(v) ==> encode_from(s@, i as int) == Some(v@),
        r matches Err(e) ==> e == DnsError::InvalidLabel && encode_from(s@, i as int) is None,
    decreases s@.len() - i,
{
    if i >= s.len() {
        let mut v: Vec<u8> = Vec::new();
        v.push(0u8);
        proof {
            assert(v@ =~= seq![0u8]);
        }
        Ok(v)
    } else if s[i] == 46 {
        encode_name(s, i + 1)
    } else {
        let mut j: usize = i;
        while j < s.len() && s[j] != 46
            invariant
                i <= j <= s@.len(),
                seg_end(s@, i as int) == seg_end(s@, j as int),
            decreases s@.len() - j,
        {
            j = j + 1;
        }
        if j - i > 63 {
            Err(DnsError::InvalidLabel)
        } else {
            proof {
                lemma_seg_end_bounds(s@, i as int);
            }
            match encode_name(s, j) {
                Err(e) => Err(e),
                Ok(rest) => {
                    let mut v: Vec<u8> = Vec::new();
                    v.push((j - i) as u8);
                    let mut label = subrange_to_vec(s, i, j);
                    v.append(&mut label);
                    let mut tail = rest;
                    v.append(&mut tail);
                    proof {
                        assert(v@ =~= seq![(j - i) as u8] + s@.subrange(i as int, j as int)
                            + encode_from(s@, j as int)->Some_0);
                    }
                    Ok(v)
                },
            }
        }
    }
}

} // verus!
