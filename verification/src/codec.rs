//! Binary encoding of `NetworkMessage` values and the length-prefixed
//! frame format they travel in.
//!
//! A payload is one tag byte followed by the variant's fields, each a
//! 32-bit big-endian value. A frame is a 4-byte big-endian length prefix
//! (counting only the payload) followed by the payload itself.

use vstd::prelude::*;

use crate::message::NetworkMessage;
use crate::message::Vec3Bits;

verus! {

/// Error returned when a byte slice does not hold exactly one recognized
/// message encoding: an unknown tag, a truncated field, or trailing bytes.
#[derive(Clone, Copy, Debug, PartialEq, Eq, Structural)]
pub enum DecodeError {
    Malformed,
}

/// The four big-endian bytes of a 32-bit value, most significant first.
pub open spec fn be32(x: u32) -> Seq<u8> {
    seq![
        ((x >> 24) & 0xff) as u8,
        ((x >> 16) & 0xff) as u8,
        ((x >> 8) & 0xff) as u8,
        (x & 0xff) as u8,
    ]
}

/// The value read back from four big-endian bytes.
pub open spec fn be32_val(s: Seq<u8>) -> u32
    recommends
        s.len() == 4,
{
    (((s[0] as u32) << 24) | ((s[1] as u32) << 16) | ((s[2] as u32) << 8) | (s[3] as u32))
}

pub proof fn lemma_be32_round_trip(x: u32)
    ensures
        be32(x).len() == 4,
        be32_val(be32(x)) == x,
{
    assert(((x >> 24) & 0xff) < 256 && ((x >> 16) & 0xff) < 256 && ((x >> 8) & 0xff) < 256 && (x
        & 0xff) < 256) by (bit_vector);
    assert((((x >> 24) & 0xff) << 24 | ((x >> 16) & 0xff) << 16 | ((x >> 8) & 0xff) << 8 | (
    x & 0xff)) == x) by (bit_vector);
}

pub proof fn lemma_be32_inverse(s: Seq<u8>)
    requires
        s.len() == 4,
    ensures
        be32(be32_val(s)) == s,
{
    let b0 = s[0] as u32;
    let b1 = s[1] as u32;
    let b2 = s[2] as u32;
    let b3 = s[3] as u32;
    let x = be32_val(s);
    assert(b0 < 256 && b1 < 256 && b2 < 256 && b3 < 256);
    assert((b0 < 256 && b1 < 256 && b2 < 256 && b3 < 256) ==> (((b0 << 24 | b1 << 16 | b2 << 8
        | b3) >> 24) & 0xff) == b0 && (((b0 << 24 | b1 << 16 | b2 << 8 | b3) >> 16) & 0xff) == b1
        && (((b0 << 24 | b1 << 16 | b2 << 8 | b3) >> 8) & 0xff) == b2 && ((b0 << 24 | b1 << 16
        | b2 << 8 | b3) & 0xff) == b3) by (bit_vector);
    assert(be32(x) =~= s);
}

/// The payload bytes of a message: one tag byte, then each field as a
/// 32-bit big-endian value.
pub open spec fn payload(m: NetworkMessage) -> Seq<u8> {
    match m {
        NetworkMessage::Noop => seq![0u8],
        NetworkMessage::Ping => seq![1u8],
        NetworkMessage::PingResult(latency) => seq![2u8] + be32(latency),
        NetworkMessage::Identify(id) => seq![3u8] + be32(id),
        NetworkMessage::RemoveEntity { uid } => seq![4u8] + be32(uid),
        NetworkMessage::SetPosition { uid, position, rotation } => seq![5u8] + be32(uid) + be32(
            position.x,
        ) + be32(position.y) + be32(position.z) + be32(rotation.x) + be32(rotation.y) + be32(
            rotation.z,
        ),
    }
}

/// The message a payload slice holds, if it holds exactly one.
pub open spec fn parse_payload(b: Seq<u8>) -> Option<NetworkMessage> {
    if b.len() == 0 {
        Option::None
    } else if b[0] == 0 {
        if b.len() == 1 {
            Option::Some(NetworkMessage::Noop)
        } else {
            Option::None
        }
    } else if b[0] == 1 {
        if b.len() == 1 {
            Option::Some(NetworkMessage::Ping)
        } else {
            Option::None
        }
    } else if b[0] == 2 {
        if b.len() == 5 {
            Option::Some(NetworkMessage::PingResult(be32_val(b.subrange(1, 5))))
        } else {
            Option::None
        }
    } else if b[0] == 3 {
        if b.len() == 5 {
            Option::Some(NetworkMessage::Identify(be32_val(b.subrange(1, 5))))
        } else {
            Option::None
        }
    } else if b[0] == 4 {
        if b.len() == 5 {
            Option::Some(NetworkMessage::RemoveEntity { uid: be32_val(b.subrange(1, 5)) })
        } else {
            Option::None
        }
    } else if b[0] == 5 {
        if b.len() == 29 {
            Option::Some(
                NetworkMessage::SetPosition {
                    uid: be32_val(b.subrange(1, 5)),
                    position: Vec3Bits {
                        x: be32_val(b.subrange(5, 9)),
                        y: be32_val(b.subrange(9, 13)),
                        z: be32_val(b.subrange(13, 17)),
                    },
                    rotation: Vec3Bits {
                        x: be32_val(b.subrange(17, 21)),
                        y: be32_val(b.subrange(21, 25)),
                        z: be32_val(b.subrange(25, 29)),
                    },
                },
            )
        } else {
            Option::None
        }
    } else {
        Option::None
    }
}

pub proof fn lemma_payload_len(m: NetworkMessage)
    ensures
        1 <= payload(m).len() <= 29,
{
}

/// Round-trip law: decoding the encoding of any constructible message
/// yields that message back.
pub proof fn lemma_round_trip(m: NetworkMessage)
    ensures
        parse_payload(payload(m)) == Option::Some(m),
{
    let b = payload(m);
    match m {
        NetworkMessage::Noop => {
            assert(b =~= seq![0u8]);
        },
        NetworkMessage::Ping => {
            assert(b =~= seq![1u8]);
        },
        NetworkMessage::PingResult(latency) => {
            lemma_be32_round_trip(latency);
            assert(b.subrange(1, 5) =~= be32(latency));
        },
        NetworkMessage::Identify(id) => {
            lemma_be32_round_trip(id);
            assert(b.subrange(1, 5) =~= be32(id));
        },
        NetworkMessage::RemoveEntity { uid } => {
            lemma_be32_round_trip(uid);
            assert(b.subrange(1, 5) =~= be32(uid));
        },
        NetworkMessage::SetPosition { uid, position, rotation } => {
            lemma_be32_round_trip(uid);
            lemma_be32_round_trip(position.x);
            lemma_be32_round_trip(position.y);
            lemma_be32_round_trip(position.z);
            lemma_be32_round_trip(rotation.x);
            lemma_be32_round_trip(rotation.y);
            lemma_be32_round_trip(rotation.z);
            assert(b.subrange(1, 5) =~= be32(uid));
            assert(b.subrange(5, 9) =~= be32(position.x));
            assert(b.subrange(9, 13) =~= be32(position.y));
            assert(b.subrange(13, 17) =~= be32(position.z));
            assert(b.subrange(17, 21) =~= be32(rotation.x));
            assert(b.subrange(21, 25) =~= be32(rotation.y));
            assert(b.subrange(25, 29) =~= be32(rotation.z));
        },
    }
}

/// A successful parse pins the input bytes down completely: the encoding
/// of the parsed message is the input. Together with the round-trip law
/// this makes the encoding injective and the parse unambiguous.
pub proof fn lemma_parse_exact(b: Seq<u8>)
    requires
        parse_payload(b) is Some,
    ensures
        payload(parse_payload(b)->Some_0) == b,
{
    let m = parse_payload(b)->Some_0;
    if b[0] == 0 || b[0] == 1 {
        assert(payload(m) =~= b);
    } else if b[0] == 2 || b[0] == 3 || b[0] == 4 {
        lemma_be32_inverse(b.subrange(1, 5));
        assert(payload(m) =~= b);
    } else {
        lemma_be32_inverse(b.subrange(1, 5));
        lemma_be32_inverse(b.subrange(5, 9));
        lemma_be32_inverse(b.subrange(9, 13));
        lemma_be32_inverse(b.subrange(13, 17));
        lemma_be32_inverse(b.subrange(17, 21));
        lemma_be32_inverse(b.subrange(21, 25));
        lemma_be32_inverse(b.subrange(25, 29));
        assert(payload(m) =~= b);
    }
}

/// No two distinct messages share an encoding.
pub proof fn lemma_encoding_injective(m1: NetworkMessage, m2: NetworkMessage)
    requires
        payload(m1) == payload(m2),
    ensures
        m1 == m2,
{
    lemma_round_trip(m1);
    lemma_round_trip(m2);
}

/// Appends the four big-endian bytes of `x` to `out`.
fn push_be32(out: &mut Vec<u8>, x: u32)
    ensures
        final(out)@ == old(out)@ + be32(x),
{
    proof {
        assert(((x >> 24) & 0xff) < 256 && ((x >> 16) & 0xff) < 256 && ((x >> 8) & 0xff) < 256 && (
        x & 0xff) < 256) by (bit_vector);
    }
    out.push(((x >> 24) & 0xff) as u8);
    out.push(((x >> 16) & 0xff) as u8);
    out.push(((x >> 8) & 0xff) as u8);
    out.push((x & 0xff) as u8);
    proof {
        assert(out@ =~= old(out)@ + be32(x));
    }
}

/// Reads a 32-bit big-endian value from four bytes of `b` starting at `at`.
pub(crate) fn read_be32(b: &[u8], at: usize) -> (r: u32)
    requires
        at + 4 <= b@.len(),
    ensures
        r == be32_val(b@.subrange(at as int, at + 4)),
{
    let r = ((b[at] as u32) << 24) | ((b[at + 1] as u32) << 16) | ((b[at + 2] as u32) << 8) | (b[at
        + 3] as u32);
    proof {
        let s = b@.subrange(at as int, at + 4);
        assert(s[0] == b@[at as int] && s[1] == b@[at + 1] && s[2] == b@[at + 2] && s[3] == b@[at
            + 3]);
    }
    r
}

/// Encodes a message into its payload bytes. Deterministic and total:
/// every constructible message encodes, to at most 29 bytes.
pub fn encode(m: &NetworkMessage) -> (r: Vec<u8>)
    ensures
        r@ == payload(*m),
        1 <= r@.len() <= 29,
{
    let mut out: Vec<u8> = Vec::new();
    match *m {
        NetworkMessage::Noop => {
            out.push(0);
        },
        NetworkMessage::Ping => {
            out.push(1);
        },
        NetworkMessage::PingResult(latency) => {
            out.push(2);
            push_be32(&mut out, latency);
        },
        NetworkMessage::Identify(id) => {
            out.push(3);
            push_be32(&mut out, id);
        },
        NetworkMessage::RemoveEntity { uid } => {
            out.push(4);
            push_be32(&mut out, uid);
        },
        NetworkMessage::SetPosition { uid, position, rotation } => {
            out.push(5);
            push_be32(&mut out, uid);
            push_be32(&mut out, position.x);
            push_be32(&mut out, position.y);
            push_be32(&mut out, position.z);
            push_be32(&mut out, rotation.x);
            push_be32(&mut out, rotation.y);
            push_be32(&mut out, rotation.z);
        },
    }
    proof {
        assert(out@ =~= payload(*m));
    }
    out
}

/// Decodes a payload slice. Fails unless the slice holds exactly one
/// recognized variant-and-fields encoding: an unknown tag, a truncated
/// field or trailing bytes are all rejected.
pub fn decode(b: &[u8]) -> (r: Result<NetworkMessage, DecodeError>)
    ensures
        r is Ok ==> parse_payload(b@) == Option::Some(r->Ok_0),
        r is Err <==> parse_payload(b@) is None,
{
    if b.len() == 0 {
        return Err(DecodeError::Malformed);
    }
    let t = b[0];
    if t == 0 {
        if b.len() == 1 {
            Ok(NetworkMessage::Noop)
        } else {
            Err(DecodeError::Malformed)
        }
    } else if t == 1 {
        if b.len() == 1 {
            Ok(NetworkMessage::Ping)
        } else {
            Err(DecodeError::Malformed)
        }
    } else if t == 2 {
        if b.len() == 5 {
            Ok(NetworkMessage::PingResult(read_be32(b, 1)))
        } else {
            Err(DecodeError::Malformed)
        }
    } else if t == 3 {
        if b.len() == 5 {
            Ok(NetworkMessage::Identify(read_be32(b, 1)))
        } else {
            Err(DecodeError::Malformed)
        }
    } else if t == 4 {
        if b.len() == 5 {
            Ok(NetworkMessage::RemoveEntity { uid: read_be32(b, 1) })
        } else {
            Err(DecodeError::Malformed)
        }
    } else if t == 5 {
        if b.len() == 29 {
            Ok(
                NetworkMessage::SetPosition {
                    uid: read_be32(b, 1),
                    position: Vec3Bits {
                        x: read_be32(b, 5),
                        y: read_be32(b, 9),
                        z: read_be32(b, 13),
                    },
                    rotation: Vec3Bits {
                        x: read_be32(b, 17),
                        y: read_be32(b, 21),
                        z: read_be32(b, 25),
                    },
                },
            )
        } else {
            Err(DecodeError::Malformed)
        }
    } else {
        Err(DecodeError::Malformed)
    }
}

/// One frame as it appears on the wire: a 4-byte big-endian length prefix
/// counting only the payload, then the payload.
pub open spec fn frame(m: NetworkMessage) -> Seq<u8> {
    be32(payload(m).len() as u32) + payload(m)
}

/// Encodes a message into a complete frame.
pub fn encode_frame(m: &NetworkMessage) -> (r: Vec<u8>)
    ensures
        r@ == frame(*m),
{
    let p = encode(m);
    let mut out: Vec<u8> = Vec::new();
    push_be32(&mut out, p.len() as u32);
    let mut i: usize = 0;
    while i < p.len()
        invariant
            i <= p@.len(),
            p@ == payload(*m),
            out@ == be32(p@.len() as u32) + p@.subrange(0, i as int),
        decreases p@.len() - i,
    {
        out.push(p[i]);
        proof {
            assert(out@ =~= be32(p@.len() as u32) + p@.subrange(0, i + 1));
        }
        i = i + 1;
    }
    proof {
        assert(p@.subrange(0, p@.len() as int) =~= p@);
    }
    out
}

} // verus!
