//! The envelope carried inside every frame's payload: a recipient count,
//! the recipient channels, the sender channel, the message type, and the
//! schema-encoded body, all in big-endian layout.
//!
//! The router reads only the envelope; the body stays opaque bytes. A
//! malformed envelope is reported so the director can drop the message
//! with a diagnostic and keep routing for everyone else.

use vstd::prelude::*;
use crate::codec::be16;
use crate::codec::be64;
use crate::codec::from_be16;
use crate::codec::from_be64;
use crate::codec::from_be16_exec;
use crate::codec::from_be64_exec;
use crate::codec::lemma_be16_roundtrip;
use crate::codec::lemma_be64_roundtrip;
use crate::director::Message;
use crate::errors::ProtocolError;

verus! {

/// The recipient channels, eight big-endian bytes each.
pub open spec fn recips_bytes(rs: Seq<u64>) -> Seq<u8>
    decreases rs.len(),
{
    if rs.len() == 0 {
        Seq::empty()
    } else {
        be64(rs[0]) + recips_bytes(rs.subrange(1, rs.len() as int))
    }
}

/// Appending a recipient appends its eight bytes.
pub proof fn lemma_recips_bytes_snoc(rs: Seq<u64>, x: u64)
    ensures
        recips_bytes(rs.push(x)) == recips_bytes(rs) + be64(x),
    decreases rs.len(),
{
    let rp = rs.push(x);
    if rs.len() == 0 {
        reveal_with_fuel(recips_bytes, 3);
        assert(rp[0] == x);
        assert(rp.subrange(1, 1) =~= Seq::<u64>::empty());
        assert(recips_bytes(rp) =~= be64(x));
        assert(recips_bytes(rs) + be64(x) =~= be64(x));
    } else {
        let tail = rs.subrange(1, rs.len() as int);
        lemma_recips_bytes_snoc(tail, x);
        assert(rp.subrange(1, rp.len() as int) =~= tail.push(x));
        assert(rp[0] == rs[0]);
        assert(recips_bytes(rp) == be64(rs[0]) + recips_bytes(tail.push(x)));
        assert(be64(rs[0]) + (recips_bytes(tail) + be64(x)) =~= (be64(rs[0]) + recips_bytes(
            tail,
        )) + be64(x));
    }
}

/// Each recipient list is eight bytes per entry.
pub proof fn lemma_recips_bytes_len(rs: Seq<u64>)
    ensures
        recips_bytes(rs).len() == 8 * rs.len(),
    decreases rs.len(),
{
    if rs.len() > 0 {
        lemma_recips_bytes_len(rs.subrange(1, rs.len() as int));
    }
}

/// The whole envelope: count, recipients, sender, message type, body.
pub open spec fn envelope_bytes(m: (u64, Seq<u64>, u16, Seq<u8>)) -> Seq<u8> {
    seq![m.1.len() as u8] + recips_bytes(m.1) + be64(m.0) + be16(m.2) + m.3
}

/// Read `n` recipients off the front of `b`.
pub open spec fn parse_recips(n: int, b: Seq<u8>) -> Option<Seq<u64>>
    decreases n,
{
    if n <= 0 {
        Some(Seq::empty())
    } else if b.len() < 8 {
        None
    } else {
        match parse_recips(n - 1, b.subrange(8, b.len() as int)) {
            Some(rest) => Some(
                seq![from_be64(b[0], b[1], b[2], b[3], b[4], b[5], b[6], b[7])] + rest,
            ),
            None => None,
        }
    }
}

/// Read a whole envelope: the count byte, that many recipients, the
/// sender, the message type; whatever remains is the body.
pub open spec fn parse_envelope_spec(b: Seq<u8>) -> Option<(u64, Seq<u64>, u16, Seq<u8>)> {
    if b.len() < 1 {
        None
    } else {
        let n = b[0] as int;
        match parse_recips(n, b.subrange(1, b.len() as int)) {
            Some(rs) => {
                if b.len() >= 1 + 8 * n + 10 {
                    Some(
                        (
                            from_be64(
                                b[1 + 8 * n],
                                b[2 + 8 * n],
                                b[3 + 8 * n],
                                b[4 + 8 * n],
                                b[5 + 8 * n],
                                b[6 + 8 * n],
                                b[7 + 8 * n],
                                b[8 + 8 * n],
                            ),
                            rs,
                            from_be16(b[9 + 8 * n], b[10 + 8 * n]),
                            b.subrange(11 + 8 * n, b.len() as int),
                        ),
                    )
                } else {
                    None
                }
            },
            None => None,
        }
    }
}

/// Parsing an envelope's own bytes gives back exactly the envelope.
pub proof fn lemma_envelope_roundtrip(m: (u64, Seq<u64>, u16, Seq<u8>))
    requires
        m.1.len() <= 255,
    ensures
        parse_envelope_spec(envelope_bytes(m)) == Some(m),
{
    let b = envelope_bytes(m);
    lemma_recips_bytes_len(m.1);
    assert(b[0] == m.1.len() as u8);
    let n = m.1.len() as int;
    assert(b.len() == 1 + 8 * n + 10 + m.3.len());
    assert(b.subrange(1, b.len() as int) =~= recips_bytes(m.1) + (be64(m.0) + be16(m.2)
        + m.3));
    lemma_parse_recips_roundtrip(m.1, be64(m.0) + be16(m.2) + m.3);
    lemma_be64_roundtrip(m.0);
    lemma_be16_roundtrip(m.2);
    assert forall|k: int| 0 <= k < 8 implies b[1 + 8 * n + k] == be64(m.0)[k] by {}
    assert(b[9 + 8 * n] == be16(m.2)[0] && b[10 + 8 * n] == be16(m.2)[1]);
    assert(b.subrange(11 + 8 * n, b.len() as int) =~= m.3);
}

/// Reading back the concatenated eight-byte recipients, with any bytes
/// behind them, yields the recipients.
pub proof fn lemma_parse_recips_roundtrip(rs: Seq<u64>, rest: Seq<u8>)
    ensures
        parse_recips(rs.len() as int, recips_bytes(rs) + rest) == Some(rs),
    decreases rs.len(),
{
    if rs.len() == 0 {
        assert(recips_bytes(rs) + rest =~= rest);
        assert(Seq::<u64>::empty() =~= rs);
    } else {
        let tail = rs.subrange(1, rs.len() as int);
        let b = recips_bytes(rs) + rest;
        lemma_recips_bytes_len(rs);
        assert(recips_bytes(rs) == be64(rs[0]) + recips_bytes(tail));
        assert(b.subrange(8, b.len() as int) =~= recips_bytes(tail) + rest);
        lemma_parse_recips_roundtrip(tail, rest);
        lemma_be64_roundtrip(rs[0]);
        assert(b[0] == be64(rs[0])[0] && b[1] == be64(rs[0])[1] && b[2] == be64(rs[0])[2]
            && b[3] == be64(rs[0])[3] && b[4] == be64(rs[0])[4] && b[5] == be64(rs[0])[5]
            && b[6] == be64(rs[0])[6] && b[7] == be64(rs[0])[7]);
        assert(seq![rs[0]] + tail =~= rs);
    }
}

/// Lay a message out as envelope bytes. A recipient list longer than the
/// count byte can carry is refused.
#[verifier::loop_isolation(false)]
pub fn serialize_envelope(m: &Message) -> (r: Result<Vec<u8>, ProtocolError>)
    ensures
        m.recipients@.len() > 255 ==> r == Err::<Vec<u8>, ProtocolError>(
            ProtocolError::TooManyRecipients,
        ),
        m.recipients@.len() <= 255 ==> (r matches Ok(b) && b@ == envelope_bytes(m@)),
{
    proof {
        assert(m.recipients.len() == m.recipients@.len());
    }
    if m.recipients.len() > 255 {
        return Err(ProtocolError::TooManyRecipients);
    }
    let n = m.recipients.len() as u8;
    let mut b: Vec<u8> = Vec::new();
    b.push(n);
    let mut i: usize = 0;
    while i < m.recipients.len()
        invariant
            i <= m.recipients@.len(),
            b@ == seq![m.recipients@.len() as u8] + recips_bytes(m.recipients@.subrange(0, i as int)),
        decreases m.recipients@.len() - i,
    {
        let c = m.recipients[i];
        b.push((c >> 56) as u8);
        b.push((c >> 48) as u8);
        b.push((c >> 40) as u8);
        b.push((c >> 32) as u8);
        b.push((c >> 24) as u8);
        b.push((c >> 16) as u8);
        b.push((c >> 8) as u8);
        b.push(c as u8);
        proof {
            lemma_recips_bytes_snoc(m.recipients@.subrange(0, i as int), c);
            assert(m.recipients@.subrange(0, i + 1) =~= m.recipients@.subrange(0, i as int).push(
                c,
            ));
            assert(b@ =~= seq![m.recipients@.len() as u8] + recips_bytes(
                m.recipients@.subrange(0, i + 1),
            ));
        }
        i += 1;
    }
    proof {
        assert(m.recipients@.subrange(0, m.recipients@.len() as int) =~= m.recipients@);
    }
    let s = m.sender;
    b.push((s >> 56) as u8);
    b.push((s >> 48) as u8);
    b.push((s >> 40) as u8);
    b.push((s >> 32) as u8);
    b.push((s >> 24) as u8);
    b.push((s >> 16) as u8);
    b.push((s >> 8) as u8);
    b.push(s as u8);
    let t = m.message_type;
    b.push((t >> 8) as u8);
    b.push(t as u8);
    let mut j: usize = 0;
    let ghost head = seq![m.recipients@.len() as u8] + recips_bytes(m.recipients@) + be64(
        m.sender,
    ) + be16(m.message_type);
    proof {
        assert(b@ =~= head);
    }
    while j < m.payload.len()
        invariant
            j <= m.payload@.len(),
            b@ == head + m.payload@.subrange(0, j as int),
        decreases m.payload@.len() - j,
    {
        b.push(m.payload[j]);
        proof {
            assert(b@ =~= head + m.payload@.subrange(0, j + 1));
        }
        j += 1;
    }
    proof {
        assert(b@ =~= envelope_bytes(m@));
    }
    Ok(b)
}

/// Read a message out of envelope bytes; a buffer too short for its own
/// count is a malformed envelope.
#[verifier::loop_isolation(false)]
pub fn parse_envelope(b: &Vec<u8>) -> (r: Result<Message, ProtocolError>)
    ensures
        r matches Ok(m) ==> parse_envelope_spec(b@) == Some(m@),
        r is Ok <==> parse_envelope_spec(b@) is Some,
        r matches Err(e) ==> e == ProtocolError::MalformedEnvelope,
{
    proof {
        assert(b.len() == b@.len());
    }
    if b.len() < 1 {
        return Err(ProtocolError::MalformedEnvelope);
    }
    let n = b[0] as usize;
    if (b.len() - 1) / 8 < n {
        proof {
            lemma_parse_recips_short(n as int, b@.subrange(1, b@.len() as int));
        }
        return Err(ProtocolError::MalformedEnvelope);
    }
    if b.len() < 1 + 8 * n + 10 {
        return Err(ProtocolError::MalformedEnvelope);
    }
    let mut recipients: Vec<u64> = Vec::new();
    let mut i: usize = 0;
    while i < n
        invariant
            i <= n,
            1 + 8 * n + 10 <= b@.len(),
            recipients@.len() == i,
            n == b@[0] as int,
            ({
                let whole = parse_recips(n as int, b@.subrange(1, b@.len() as int));
                let rem = parse_recips(
                    n as int - i as int,
                    b@.subrange(1 + 8 * i, b@.len() as int),
                );
                &&& (whole is Some <==> rem is Some)
                &&& (rem matches Some(rest) ==> whole == Some(recipients@ + rest))
            }),
        decreases n - i,
    {
        let base = 1 + 8 * i;
        let c = from_be64_exec(
            b[base],
            b[base + 1],
            b[base + 2],
            b[base + 3],
            b[base + 4],
            b[base + 5],
            b[base + 6],
            b[base + 7],
        );
        let ghost pre = recipients@;
        recipients.push(c);
        proof {
            let scur = b@.subrange(1 + 8 * i, b@.len() as int);
            assert(scur.len() >= 8);
            assert(scur[0] == b@[1 + 8 * i] && scur[1] == b@[2 + 8 * i] && scur[2] == b@[3 + 8
                * i] && scur[3] == b@[4 + 8 * i] && scur[4] == b@[5 + 8 * i] && scur[5]
                == b@[6 + 8 * i] && scur[6] == b@[7 + 8 * i] && scur[7] == b@[8 + 8 * i]);
            assert(scur.subrange(8, scur.len() as int) =~= b@.subrange(
                1 + 8 * (i + 1),
                b@.len() as int,
            ));
            assert(parse_recips(n as int - i as int, scur) matches Some(w) ==> ({
                let rem2 = parse_recips(
                    n as int - i as int - 1,
                    b@.subrange(1 + 8 * (i + 1), b@.len() as int),
                );
                rem2 matches Some(rest2) ==> pre + (seq![c] + rest2) =~= recipients@ + rest2
            }));
        }
        i += 1;
    }
    proof {
        assert(parse_recips(0, b@.subrange(1 + 8 * n, b@.len() as int)) == Some(
            Seq::<u64>::empty(),
        ));
        assert(recipients@ + Seq::<u64>::empty() =~= recipients@);
    }
    let base = 1 + 8 * n;
    let sender = from_be64_exec(
        b[base],
        b[base + 1],
        b[base + 2],
        b[base + 3],
        b[base + 4],
        b[base + 5],
        b[base + 6],
        b[base + 7],
    );
    let message_type = from_be16_exec(b[base + 8], b[base + 9]);
    let mut payload: Vec<u8> = Vec::new();
    let mut j: usize = base + 10;
    while j < b.len()
        invariant
            base + 10 <= j <= b@.len(),
            payload@ == b@.subrange(1 + 8 * n + 10, j as int),
        decreases b@.len() - j,
    {
        payload.push(b[j]);
        proof {
            assert(payload@ =~= b@.subrange(1 + 8 * n + 10, j + 1));
        }
        j += 1;
    }
    let m = Message { sender, recipients, message_type, payload };
    proof {
        assert(b@.subrange(1, b@.len() as int)[0] == b@[1]);
        assert(m@.1 == m.recipients@ && m@.3 == m.payload@);
        assert(parse_envelope_spec(b@) == Some(m@));
    }
    Ok(m)
}

/// Fewer than eight bytes per announced recipient cannot parse.
proof fn lemma_parse_recips_short(n: int, b: Seq<u8>)
    requires
        8 * n > b.len(),
    ensures
        n > 0 ==> parse_recips(n, b) is None,
    decreases n,
{
    if n > 0 && b.len() >= 8 {
        lemma_parse_recips_short(n - 1, b.subrange(8, b.len() as int));
    }
}

} // verus!
