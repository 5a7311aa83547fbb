//! Stream-to-message framing: each message travels as a 4-byte big-endian
//! length prefix followed by the payload bytes.
//!
//! Partial reads are kept in a reassembly buffer until a whole frame is
//! present; a frame announcing more than the configured maximum tears the
//! connection down. An optional proxy preamble (carrying a client's true
//! source address behind a load balancer) is auto-detected and stripped
//! before frame parsing begins.

use vstd::prelude::*;
use crate::errors::ProtocolError;

verus! {

/// The four big-endian bytes of a 32-bit length.
pub open spec fn be32(n: u32) -> Seq<u8> {
    seq![(n >> 24) as u8, (n >> 16) as u8, (n >> 8) as u8, n as u8]
}

/// The 32-bit value carried by four big-endian bytes.
pub open spec fn from_be32(b0: u8, b1: u8, b2: u8, b3: u8) -> u32 {
    (((b0 as u32) << 24) | ((b1 as u32) << 16) | ((b2 as u32) << 8) | (b3 as u32)) as u32
}

/// Reading back the four big-endian bytes of `n` yields `n`.
pub proof fn lemma_be32_roundtrip(n: u32)
    ensures
        from_be32((n >> 24) as u8, (n >> 16) as u8, (n >> 8) as u8, n as u8) == n,
{
    assert(((((n >> 24) as u8) as u32) << 24 | (((n >> 16) as u8) as u32) << 16 | (((n >> 8)
        as u8) as u32) << 8 | ((n as u8) as u32)) == n) by (bit_vector);
}

/// Wrap a payload as one frame: its length as 4 big-endian bytes, then the
/// payload verbatim. A payload longer than `max_len` is refused.
#[verifier::loop_isolation(false)]
pub fn frame(payload: &Vec<u8>, max_len: u32) -> (r: Result<Vec<u8>, ProtocolError>)
    ensures
        payload@.len() > max_len ==> r == Err::<Vec<u8>, ProtocolError>(
            ProtocolError::FrameTooLarge,
        ),
        payload@.len() <= max_len ==> (r matches Ok(f) && f@ == be32(payload@.len() as u32)
            + payload@),
    {
        proof {
            assert(payload.len() == payload@.len());
        }
        if payload.len() as u64 > max_len as u64 {
            return Err(ProtocolError::FrameTooLarge);
        }
        let n = payload.len() as u32;
        let mut f: Vec<u8> = Vec::new();
        f.push((n >> 24) as u8);
        f.push((n >> 16) as u8);
        f.push((n >> 8) as u8);
        f.push(n as u8);
        let mut i: usize = 0;
        while i < payload.len()
            invariant
                i <= payload@.len(),
                f@ == be32(n) + payload@.subrange(0, i as int),
            decreases payload@.len() - i,
        {
            f.push(payload[i]);
            proof {
                assert(f@ =~= be32(n) + payload@.subrange(0, i + 1));
            }
            i += 1;
        }
        proof {
            assert(f@ =~= be32(payload@.len() as u32) + payload@);
        }
        Ok(f)
    }

/// Take one complete frame off the front of a reassembly buffer.
///
/// `Ok(None)` means the buffer does not yet hold a whole frame: keep it and
/// wait for more bytes. `Ok(Some((payload, used)))` hands the frame's
/// payload up as an opaque buffer together with how many bytes of the
/// buffer it consumed. A length prefix over `max_len` is an error: the
/// connection is closed rather than buffering without bound.
#[verifier::loop_isolation(false)]
pub fn deframe(buf: &Vec<u8>, max_len: u32) -> (r: Result<
    Option<(Vec<u8>, usize)>,
    ProtocolError,
>)
    ensures
        buf@.len() < 4 ==> r == Ok::<Option<(Vec<u8>, usize)>, ProtocolError>(None),
        buf@.len() >= 4 ==> ({
            let n = from_be32(buf@[0], buf@[1], buf@[2], buf@[3]);
            &&& n > max_len ==> r == Err::<Option<(Vec<u8>, usize)>, ProtocolError>(
                ProtocolError::FrameTooLarge,
            )
            &&& (n <= max_len && buf@.len() < 4 + n) ==> r == Ok::<
                Option<(Vec<u8>, usize)>,
                ProtocolError,
            >(None)
            &&& (n <= max_len && buf@.len() >= 4 + n) ==> (r matches Ok(Some((p, consumed)))
                && p@ == buf@.subrange(4, 4 + n as int) && consumed == 4 + n)
        }),
{
    proof {
        assert(buf.len() == buf@.len());
    }
    if buf.len() < 4 {
        return Ok(None);
    }
    let n = from_be32_exec(buf[0], buf[1], buf[2], buf[3]);
    if n > max_len {
        return Err(ProtocolError::FrameTooLarge);
    }
    if (buf.len() as u64) < 4u64 + (n as u64) {
        return Ok(None);
    }
    let used: usize = 4 + (n as usize);
    let mut p: Vec<u8> = Vec::new();
    let mut i: usize = 4;
    while i < used
        invariant
            4 <= i <= used,
            used == 4 + n,
            used <= buf@.len(),
            p@ == buf@.subrange(4, i as int),
        decreases used - i,
    {
        p.push(buf[i]);
        proof {
            assert(p@ =~= buf@.subrange(4, i + 1));
        }
        i += 1;
    }
    Ok(Some((p, used)))
}

/// The 32-bit value carried by four big-endian bytes.
pub fn from_be32_exec(b0: u8, b1: u8, b2: u8, b3: u8) -> (n: u32)
    ensures
        n == from_be32(b0, b1, b2, b3),
{
    ((b0 as u32) << 24) | ((b1 as u32) << 16) | ((b2 as u32) << 8) | (b3 as u32)
}

/// A frame built by `frame`, followed by whatever later bytes have arrived,
/// deframes to exactly the payload it wrapped, consuming exactly the frame.
pub proof fn lemma_frame_roundtrip(payload: Seq<u8>, rest: Seq<u8>, max_len: u32)
    requires
        payload.len() <= max_len,
    ensures
        ({
            let framed = be32(payload.len() as u32) + payload + rest;
            &&& framed.len() >= 4
            &&& from_be32(framed[0], framed[1], framed[2], framed[3]) == payload.len()
            &&& payload.len() <= max_len
            &&& framed.len() >= 4 + payload.len()
            &&& framed.subrange(4, 4 + payload.len() as int) == payload
        }),
{
    let n = payload.len() as u32;
    lemma_be32_roundtrip(n);
    let framed = be32(n) + payload + rest;
    assert(framed[0] == (n >> 24) as u8);
    assert(framed[1] == (n >> 16) as u8);
    assert(framed[2] == (n >> 8) as u8);
    assert(framed[3] == n as u8);
    assert(framed.subrange(4, 4 + payload.len() as int) =~= payload);
}

/// What the start of a reassembly buffer says about a proxy preamble.
#[derive(Debug, PartialEq, Eq, Structural)]
pub enum PreambleStatus {
    /// The stream does not begin with the preamble magic: parse frames
    /// from the first byte.
    Absent,
    /// The bytes so far are consistent with a preamble but its end has not
    /// arrived yet: wait for more.
    Incomplete,
    /// A whole preamble is present; frame parsing begins after this many
    /// bytes.
    Stripped(usize),
}

/// The six magic bytes that open a proxy preamble.
pub open spec fn proxy_magic() -> Seq<u8> {
    seq![0x50u8, 0x52u8, 0x4fu8, 0x58u8, 0x59u8, 0x20u8]
}

/// A carriage return and line feed stand at offset `i` of `b`.
pub open spec fn crlf_at(b: Seq<u8>, i: int) -> bool {
    &&& 0 <= i
    &&& i + 1 < b.len()
    &&& b[i] == 13u8
    &&& b[i + 1] == 10u8
}

/// One byte of the proxy preamble magic.
fn magic_byte(k: usize) -> (b: u8)
    requires
        k < 6,
    ensures
        b == proxy_magic()[k as int],
{
    if k == 0 {
        0x50
    } else if k == 1 {
        0x52
    } else if k == 2 {
        0x4f
    } else if k == 3 {
        0x58
    } else if k == 4 {
        0x59
    } else {
        0x20
    }
}

/// Auto-detect the optional proxy preamble at the start of a connection's
/// byte stream: absent when the first bytes differ from the magic,
/// stripped up to and including the first line ending when whole, and
/// incomplete while neither can be told yet.
#[verifier::loop_isolation(false)]
pub fn detect_proxy_preamble(buf: &Vec<u8>) -> (r: PreambleStatus)
    ensures
        (exists|k: int|
            0 <= k < buf@.len() && k < 6 && buf@[k] != proxy_magic()[k]) <==> r
            == PreambleStatus::Absent,
        r matches PreambleStatus::Stripped(consumed) ==> ({
            &&& buf@.len() >= 6
            &&& buf@.subrange(0, 6) =~= proxy_magic()
            &&& crlf_at(buf@, consumed - 2)
            &&& forall|i: int| 6 <= i < consumed - 2 ==> !crlf_at(buf@, i)
            &&& consumed >= 8
        }),
        r == PreambleStatus::Incomplete ==> (forall|i: int|
            6 <= i < buf@.len() ==> !crlf_at(buf@, i)),
{
    proof {
        assert(buf.len() == buf@.len());
    }
    let mut k: usize = 0;
    while k < 6 && k < buf.len()
        invariant
            k <= 6,
            forall|j: int| 0 <= j < k ==> buf@[j] == proxy_magic()[j],
        decreases 6 - k,
    {
        if buf[k] != magic_byte(k) {
            proof {
                assert(buf@[k as int] != proxy_magic()[k as int]);
            }
            return PreambleStatus::Absent;
        }
        proof {
            assert(buf@[k as int] == proxy_magic()[k as int]);
        }
        k += 1;
    }
    if buf.len() < 6 {
        proof {
            assert forall|k2: int|
                0 <= k2 < buf@.len() && k2 < 6 implies buf@[k2] == proxy_magic()[k2] by {}
        }
        return PreambleStatus::Incomplete;
    }
    let mut i: usize = 6;
    while i < buf.len() - 1
        invariant
            6 <= i,
            i <= buf@.len(),
            forall|j: int| 6 <= j < i ==> !crlf_at(buf@, j),
        decreases buf@.len() - i,
    {
        if buf[i] == 13 && buf[i + 1] == 10 {
            proof {
                assert(crlf_at(buf@, i as int));
            }
            return PreambleStatus::Stripped(i + 2);
        }
        proof {
            assert(!crlf_at(buf@, i as int));
        }
        i += 1;
    }
    PreambleStatus::Incomplete
}

} // verus!
