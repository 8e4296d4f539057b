//! Peer message routing: which peers a message is sent to, and the wire
//! framing that prefixes each message.

use vstd::prelude::*;

verus! {

/// How a message is routed among peers: to all of them, to the origin peer
/// only, or to every peer except the origin.
#[allow(non_camel_case_types)]
#[derive(Clone, Copy, Debug, PartialEq, Eq, Structural)]
pub enum Operation {
    BROADCAST,
    SINGLE,
    SUBTRACT,
}

/// A peer with identifier `id_card` receives a message of origin `origin`
/// exactly when the routing mode says so.
pub open spec fn spec_is_send(id_card: u32, origin: u32, operate: Operation) -> bool {
    ||| operate == Operation::BROADCAST
    ||| operate == Operation::SINGLE && id_card == origin
    ||| operate == Operation::SUBTRACT && origin != id_card
}

/// Decides whether the peer `id_card` is a recipient of a message that
/// originated at `origin` under the routing mode `operate`.
pub fn is_send(id_card: u32, origin: u32, operate: Operation) -> (r: bool)
    ensures
        r == spec_is_send(id_card, origin, operate),
{
    operate == Operation::BROADCAST || (operate == Operation::SINGLE && id_card == origin)
        || (operate == Operation::SUBTRACT && origin != id_card)
}

/// The 4-byte big-endian encoding of an unsigned 32-bit integer.
pub open spec fn be_u32(n: u32) -> Seq<u8> {
    seq![(n >> 24) as u8, (n >> 16) as u8, (n >> 8) as u8, n as u8]
}

/// The peer-wire tag word: the marker in the high 32 bits, the payload
/// length plus 4 in the low 32 bits.
pub open spec fn frame_tag(payload_len: int) -> u64 {
    (0xDEADBEEF00000000 + payload_len + 4) as u64
}

/// One framed peer message: the 8-byte tag, the 4-byte origin identifier,
/// then the payload.
pub open spec fn spec_frame(msg: Seq<u8>, id_card: u32) -> Seq<u8> {
    crate::codec::be_u64(frame_tag(msg.len() as int)) + be_u32(id_card) + msg
}

/// The 8-byte handshake frame: the tag word with a zero length field.
pub open spec fn spec_handshake() -> Seq<u8> {
    crate::codec::be_u64(0xDEADBEEF00000000u64)
}

/// Appends the 4-byte big-endian encoding of `n`.
fn write_u32(out: &mut Vec<u8>, n: u32)
    ensures
        final(out)@ == old(out)@ + be_u32(n),
{
    out.push((n >> 24) as u8);
    out.push((n >> 16) as u8);
    out.push((n >> 8) as u8);
    out.push(n as u8);
    proof {
        assert(out@ =~= old(out)@ + be_u32(n));
    }
}

/// Appends the 8-byte big-endian encoding of `n`.
fn write_u64(out: &mut Vec<u8>, n: u64)
    ensures
        final(out)@ == old(out)@ + crate::codec::be_u64(n),
{
    out.push((n >> 56) as u8);
    out.push((n >> 48) as u8);
    out.push((n >> 40) as u8);
    out.push((n >> 32) as u8);
    out.push((n >> 24) as u8);
    out.push((n >> 16) as u8);
    out.push((n >> 8) as u8);
    out.push(n as u8);
    proof {
        assert(out@ =~= old(out)@ + crate::codec::be_u64(n));
    }
}

/// Builds the framed form of a peer message: tag, origin identifier,
/// payload. The payload must leave its length-plus-4 within 32 bits, so
/// that the tag's marker half stays intact.
pub fn encode_frame(msg: &Vec<u8>, id_card: u32) -> (r: Vec<u8>)
    requires
        msg@.len() + 4 <= u32::MAX,
    ensures
        r@ == spec_frame(msg@, id_card),
{
    let mut out: Vec<u8> = Vec::new();
    let tag: u64 = 0xDEADBEEF00000000u64 + (msg.len() as u64) + 4u64;
    write_u64(&mut out, tag);
    write_u32(&mut out, id_card);
    let mut i: usize = 0;
    let ghost head = crate::codec::be_u64(frame_tag(msg@.len() as int)) + be_u32(id_card);
    proof {
        assert(out@ =~= head);
    }
    while i < msg.len()
        invariant
            i <= msg@.len(),
            out@ == head + msg@.subrange(0, i as int),
        decreases msg@.len() - i,
    {
        out.push(msg[i]);
        proof {
            assert(out@ =~= head + msg@.subrange(0, i + 1));
        }
        i += 1;
    }
    proof {
        assert(msg@.subrange(0, msg@.len() as int) =~= msg@);
        assert(out@ =~= spec_frame(msg@, id_card));
    }
    out
}

/// Builds the 8-byte handshake frame.
pub fn handshake_frame() -> (r: Vec<u8>)
    ensures
        r@ == spec_handshake(),
{
    let mut out: Vec<u8> = Vec::new();
    write_u64(&mut out, 0xDEADBEEF00000000u64);
    proof {
        assert(out@ =~= spec_handshake());
    }
    out
}

} // verus!
