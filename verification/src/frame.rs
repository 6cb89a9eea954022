//! The serial wire format: a frame is `magic(2) length(1) hwid(2, LE)
//! seq(2, LE) destination(1) payload`, where `length` counts every byte
//! after itself (the five header bytes plus the payload).

use vstd::prelude::*;

verus! {

/// First byte of the synchronisation pattern.
pub const MAGIC0: u8 = 0x22;
/// Second byte of the synchronisation pattern.
pub const MAGIC1: u8 = 0x69;
/// Bytes that follow the length byte before the payload: hwid, seq, destination.
pub const HEADER_LEN: usize = 5;
/// Destination tag of a local command reply.
pub const DESTINATION_LOCAL: u8 = 0x01;
/// Destination tag of an opaque relay payload.
pub const DESTINATION_RELAY: u8 = 0x11;
/// Whole-packet budget: magic and length byte included.
pub const MAX_PACKET_LEN: usize = 256;

/// A complete frame received from, or destined for, the serial link.
pub struct Frame {
    pub hwid: u16,
    pub seq: u16,
    pub destination: u8,
    pub payload: Vec<u8>,
}

/// Mathematical image of a [`Frame`].
pub struct FrameModel {
    pub hwid: u16,
    pub seq: u16,
    pub destination: u8,
    pub payload: Seq<u8>,
}

impl View for Frame {
    type V = FrameModel;

    open spec fn view(&self) -> FrameModel {
        FrameModel {
            hwid: self.hwid,
            seq: self.seq,
            destination: self.destination,
            payload: self.payload@,
        }
    }
}

/// Low byte of a 16-bit word as it stands on the wire.
pub open spec fn low_byte(x: u16) -> u8 {
    (x % 256) as u8
}

/// High byte of a 16-bit word as it stands on the wire.
pub open spec fn high_byte(x: u16) -> u8 {
    (x / 256) as u8
}

/// The frame body: everything the length byte counts.
pub open spec fn body_bytes(f: FrameModel) -> Seq<u8> {
    seq![
        low_byte(f.hwid),
        high_byte(f.hwid),
        low_byte(f.seq),
        high_byte(f.seq),
        f.destination,
    ] + f.payload
}

/// Reads a frame back out of a body of at least `HEADER_LEN` bytes.
pub open spec fn frame_of_body(body: Seq<u8>) -> FrameModel
    recommends
        body.len() >= HEADER_LEN,
{
    FrameModel {
        hwid: (body[0] + 256 * body[1]) as u16,
        seq: (body[2] + 256 * body[3]) as u16,
        destination: body[4],
        payload: body.skip(5),
    }
}

/// The complete wire image of a frame: magic, length byte, body.
pub open spec fn wire_bytes(f: FrameModel) -> Seq<u8>
    recommends
        f.payload.len() + HEADER_LEN <= 255,
{
    seq![MAGIC0, MAGIC1, (f.payload.len() + HEADER_LEN) as u8] + body_bytes(f)
}

/// Parsing a body undoes building one: the header fields and the payload
/// come back exactly.
pub proof fn lemma_frame_body_round_trip(f: FrameModel)
    ensures
        body_bytes(f).len() == HEADER_LEN + f.payload.len(),
        frame_of_body(body_bytes(f)) == f,
{
    let body = body_bytes(f);
    assert(body[0] + 256 * body[1] == f.hwid);
    assert(body[2] + 256 * body[3] == f.seq);
    assert(body.skip(5) =~= f.payload);
}

} // verus!
