//! Interpretation of completed frames: destination dispatch, the local
//! command replies, and the fixed-offset telemetry layout.
//!
//! A frame addressed `DESTINATION_LOCAL` begins with a command byte:
//! `0x10` ack, `0xFF` nack, `0x18` a telemetry reply whose fields sit at
//! fixed offsets of the following bytes. A frame addressed
//! `DESTINATION_RELAY` carries an opaque pass-through message.

use vstd::prelude::*;

use crate::frame::Frame;
use crate::frame::FrameModel;
use crate::frame::DESTINATION_LOCAL;
use crate::frame::DESTINATION_RELAY;

verus! {

/// How many bytes the telemetry layout needs.
pub const TELEMETRY_LEN: usize = 62;

/// A decoded telemetry reply. `packets_rejected_other` is the wrapping sum
/// of the two reserved four-byte counters at the end of the layout.
#[derive(Clone, Copy, PartialEq, Eq, Structural, Debug)]
pub struct LSTTelemetry {
    pub uptime: u32,
    pub rssi: i8,
    pub lqi: u8,
    pub packets_sent: u32,
    pub packets_good: u32,
    pub packets_rejected_checksum: u32,
    pub packets_rejected_other: u32,
}

/// A message carried by one frame, after destination dispatch.
#[derive(PartialEq, Eq, Debug)]
pub enum LSTMessage {
    /// Opaque pass-through payload of a relayed frame.
    Relay(Vec<u8>),
    /// A local telemetry reply.
    Telem(LSTTelemetry),
    Ack,
    Nack,
    /// An unrecognised command byte, or an unrecognised destination (then 0).
    Unknown(u8),
}

/// Mathematical image of an [`LSTMessage`].
pub enum LSTMessageModel {
    Relay(Seq<u8>),
    Telem(LSTTelemetry),
    Ack,
    Nack,
    Unknown(u8),
}

impl View for LSTMessage {
    type V = LSTMessageModel;

    open spec fn view(&self) -> LSTMessageModel {
        match self {
            LSTMessage::Relay(payload) => LSTMessageModel::Relay(payload@),
            LSTMessage::Telem(t) => LSTMessageModel::Telem(*t),
            LSTMessage::Ack => LSTMessageModel::Ack,
            LSTMessage::Nack => LSTMessageModel::Nack,
            LSTMessage::Unknown(b) => LSTMessageModel::Unknown(*b),
        }
    }
}

/// A protocol error, always local and recoverable: the caller resumes with
/// the next frame.
#[derive(Clone, Copy, PartialEq, Eq, Structural, Debug)]
pub enum ParseError {
    /// A telemetry reply had fewer than [`TELEMETRY_LEN`] bytes after its
    /// command byte.
    TelemetryTooShort,
    /// A local frame carried no command byte at all.
    EmptyCommand,
}

/// The little-endian 32-bit word at offset `off`.
pub open spec fn le32_at(msg: Seq<u8>, off: int) -> int
    recommends
        0 <= off,
        off + 4 <= msg.len(),
{
    msg[off] + 256 * msg[off + 1] + 65536 * msg[off + 2] + 16777216 * msg[off + 3]
}

/// The byte reinterpreted as a signed value.
pub open spec fn signed_of_byte(b: u8) -> int {
    if b < 128 {
        b as int
    } else {
        b - 256
    }
}

/// The telemetry fields of a buffer of at least [`TELEMETRY_LEN`] bytes.
pub open spec fn telemetry_of(msg: Seq<u8>) -> LSTTelemetry
    recommends
        msg.len() >= TELEMETRY_LEN,
{
    LSTTelemetry {
        uptime: le32_at(msg, 0) as u32,
        rssi: signed_of_byte(msg[35]) as i8,
        lqi: msg[36],
        packets_sent: le32_at(msg, 38) as u32,
        packets_good: le32_at(msg, 46) as u32,
        packets_rejected_checksum: le32_at(msg, 50) as u32,
        packets_rejected_other: ((le32_at(msg, 58) + le32_at(msg, 54)) % 0x1_0000_0000) as u32,
    }
}

/// What a local command payload means: the result of
/// [`parse_local_msg`] for every input.
pub open spec fn local_msg_of(payload: Seq<u8>) -> Result<LSTMessageModel, ParseError> {
    if payload.len() == 0 {
        Err(ParseError::EmptyCommand)
    } else if payload[0] == 0x10 {
        Ok(LSTMessageModel::Ack)
    } else if payload[0] == 0xFF {
        Ok(LSTMessageModel::Nack)
    } else if payload[0] == 0x18 {
        if payload.len() >= 1 + TELEMETRY_LEN {
            Ok(LSTMessageModel::Telem(telemetry_of(payload.skip(1))))
        } else {
            Err(ParseError::TelemetryTooShort)
        }
    } else {
        Ok(LSTMessageModel::Unknown(payload[0]))
    }
}

/// What a whole frame means: the result of [`dispatch_frame`] for every
/// frame.
pub open spec fn dispatch_of(f: FrameModel) -> Result<LSTMessageModel, ParseError> {
    if f.destination == DESTINATION_LOCAL {
        local_msg_of(f.payload)
    } else if f.destination == DESTINATION_RELAY {
        Ok(LSTMessageModel::Relay(f.payload))
    } else {
        Ok(LSTMessageModel::Unknown(0x00))
    }
}

fn le32(msg: &[u8], off: usize) -> (r: u32)
    requires
        off + 4 <= msg@.len(),
    ensures
        r == le32_at(msg@, off as int),
{
    (msg[off] as u32) + 256 * (msg[off + 1] as u32) + 65536 * (msg[off + 2] as u32) + 16777216
        * (msg[off + 3] as u32)
}

/// Decode a telemetry reply. Succeeds on exactly the buffers that hold the
/// whole [`TELEMETRY_LEN`]-byte layout; shorter ones are rejected, and the
/// caller resynchronises.
pub fn parse_telem(msg: &[u8]) -> (r: Result<LSTTelemetry, ParseError>)
    ensures
        msg@.len() >= TELEMETRY_LEN ==> r == Ok::<LSTTelemetry, ParseError>(telemetry_of(msg@)),
        msg@.len() < TELEMETRY_LEN ==> r == Err::<LSTTelemetry, ParseError>(
            ParseError::TelemetryTooShort,
        ),
{
    if msg.len() < TELEMETRY_LEN {
        return Err(ParseError::TelemetryTooShort);
    }
    let rssi_raw = msg[35];
    let rssi: i8 = if rssi_raw < 128 {
        rssi_raw as i8
    } else {
        ((rssi_raw as i16) - 256) as i8
    };
    let rejected_a = le32(msg, 58);
    let rejected_b = le32(msg, 54);
    let rejected_sum = (((rejected_a as u64) + (rejected_b as u64)) % 0x1_0000_0000) as u32;
    Ok(
        LSTTelemetry {
            uptime: le32(msg, 0),
            rssi,
            lqi: msg[36],
            packets_sent: le32(msg, 38),
            packets_good: le32(msg, 46),
            packets_rejected_checksum: le32(msg, 50),
            packets_rejected_other: rejected_sum,
        },
    )
}

/// Interpret the payload of a frame addressed to the local modem: the
/// first byte selects the command, `0x18` announces telemetry in the rest.
/// An empty payload and a short telemetry reply are the two protocol
/// errors; everything else decodes.
pub fn parse_local_msg(msg: &[u8]) -> (r: Result<LSTMessage, ParseError>)
    ensures
        (match r {
            Ok(m) => local_msg_of(msg@) == Ok::<LSTMessageModel, ParseError>(m@),
            Err(e) => local_msg_of(msg@) == Err::<LSTMessageModel, ParseError>(e),
        }),
{
    if msg.len() == 0 {
        return Err(ParseError::EmptyCommand);
    }
    match msg[0] {
        0x10 => Ok(LSTMessage::Ack),
        0xFF => Ok(LSTMessage::Nack),
        0x18 => {
            let rest = vstd::slice::slice_subrange(msg, 1, msg.len());
            proof {
                assert(rest@ =~= msg@.skip(1));
            }
            match parse_telem(rest) {
                Ok(t) => Ok(LSTMessage::Telem(t)),
                Err(e) => Err(e),
            }
        },
        other => Ok(LSTMessage::Unknown(other)),
    }
}

/// Destination dispatch of one completed frame: a local frame is parsed as
/// a command reply, a relay frame hands its payload through untouched, and
/// any other destination is reported unknown.
pub fn dispatch_frame(frame: Frame) -> (r: Result<LSTMessage, ParseError>)
    ensures
        (match r {
            Ok(m) => dispatch_of(frame@) == Ok::<LSTMessageModel, ParseError>(m@),
            Err(e) => dispatch_of(frame@) == Err::<LSTMessageModel, ParseError>(e),
        }),
{
    if frame.destination == DESTINATION_LOCAL {
        parse_local_msg(frame.payload.as_slice())
    } else if frame.destination == DESTINATION_RELAY {
        Ok(LSTMessage::Relay(frame.payload))
    } else {
        Ok(LSTMessage::Unknown(0x00))
    }
}

} // verus!
