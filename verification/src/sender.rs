//! Building outgoing packets: relay frames around a caller's payload and
//! single-byte local commands. The sixteen-bit sequence counter wraps
//! silently and is never reset; the caller writes the returned bytes to
//! the serial sink (looping on short writes) and flushes.

use vstd::prelude::*;

use crate::frame::FrameModel;
use crate::frame::wire_bytes;
use crate::frame::low_byte;
use crate::frame::high_byte;
use crate::frame::MAGIC0;
use crate::frame::MAGIC1;
use crate::frame::HEADER_LEN;
use crate::frame::MAX_PACKET_LEN;
use crate::frame::DESTINATION_LOCAL;
use crate::frame::DESTINATION_RELAY;

verus! {

/// The wire preamble of every packet: magic, length byte, header.
pub const WIRE_HEADER_LEN: usize = 8;

/// The longest payload a packet can carry: the whole packet, preamble
/// included, stays within [`MAX_PACKET_LEN`] bytes.
pub const MAX_PAYLOAD_LEN: usize = MAX_PACKET_LEN - WIRE_HEADER_LEN;

/// The single-byte commands the local modem understands.
#[derive(Clone, Copy, PartialEq, Eq, Structural, Debug)]
pub enum LSTCmd {
    Reboot,
    GetTelem,
}

impl LSTCmd {
    /// The byte that names this command on the wire.
    pub open spec fn code_spec(&self) -> u8 {
        match self {
            LSTCmd::Reboot => 0x12,
            LSTCmd::GetTelem => 0x17,
        }
    }

    pub fn code(&self) -> (r: u8)
        ensures
            r == self.code_spec(),
    {
        match self {
            LSTCmd::Reboot => 0x12,
            LSTCmd::GetTelem => 0x17,
        }
    }
}

/// Why a packet was not built.
#[derive(Clone, Copy, PartialEq, Eq, Structural, Debug)]
pub enum SenderError {
    /// The payload exceeds [`MAX_PAYLOAD_LEN`]; nothing was written.
    MessageTooLongError,
}

/// The sequence counter after one more packet.
pub open spec fn next_seq(s: u16) -> u16 {
    if s == 0xFFFF {
        0
    } else {
        (s + 1) as u16
    }
}

/// Builds outgoing packets under one hardware id, numbering them with a
/// wrapping sequence counter.
pub struct LSTSender {
    hwid: u16,
    seq_num: u16,
}

impl LSTSender {
    /// The hardware id every packet of this sender names.
    pub closed spec fn hwid(&self) -> u16 {
        self.hwid
    }

    /// The sequence number the next packet will carry.
    pub closed spec fn seq(&self) -> u16 {
        self.seq_num
    }

    pub fn new(hwid: u16) -> (r: Self)
        ensures
            r.hwid() == hwid,
            r.seq() == 0,
    {
        LSTSender { hwid, seq_num: 0 }
    }

    /// The eight preamble bytes of a packet whose payload has `msg_len`
    /// bytes, addressed to `dest`, and the step of the sequence counter.
    pub fn get_header(&mut self, msg_len: u8, dest: u8) -> (r: [u8; 8])
        requires
            msg_len <= 250,
        ensures
            r@ == seq![
                MAGIC0,
                MAGIC1,
                (msg_len + HEADER_LEN) as u8,
                low_byte(old(self).hwid()),
                high_byte(old(self).hwid()),
                low_byte(old(self).seq()),
                high_byte(old(self).seq()),
                dest,
            ],
            final(self).hwid() == old(self).hwid(),
            final(self).seq() == next_seq(old(self).seq()),
    {
        let header = [
            MAGIC0,
            MAGIC1,
            msg_len + 5,
            (self.hwid % 256) as u8,
            (self.hwid / 256) as u8,
            (self.seq_num % 256) as u8,
            (self.seq_num / 256) as u8,
            dest,
        ];
        self.seq_num = if self.seq_num == 0xFFFF {
            0
        } else {
            self.seq_num + 1
        };
        header
    }

    /// Build a relay packet around `msg`.
    ///
    /// Succeeds on exactly the payloads of up to [`MAX_PAYLOAD_LEN`] bytes
    /// and returns the full wire image of the frame `(hwid, seq,
    /// DESTINATION_RELAY, msg)`; a longer payload is rejected before
    /// anything is built, with the counter untouched.
    pub fn encode(&mut self, msg: &[u8]) -> (r: Result<Vec<u8>, SenderError>)
        ensures
            final(self).hwid() == old(self).hwid(),
            (match r {
                Ok(packet) => {
                    &&& msg@.len() <= MAX_PAYLOAD_LEN
                    &&& packet@ == wire_bytes(
                        FrameModel {
                            hwid: old(self).hwid(),
                            seq: old(self).seq(),
                            destination: DESTINATION_RELAY,
                            payload: msg@,
                        },
                    )
                    &&& final(self).seq() == next_seq(old(self).seq())
                },
                Err(e) => {
                    &&& msg@.len() > MAX_PAYLOAD_LEN
                    &&& e == SenderError::MessageTooLongError
                    &&& *final(self) == *old(self)
                },
            }),
    {
        if msg.len() > MAX_PAYLOAD_LEN {
            return Err(SenderError::MessageTooLongError);
        }
        let header = self.get_header(msg.len() as u8, DESTINATION_RELAY);
        let mut packet: Vec<u8> = Vec::new();
        let mut i: usize = 0;
        while i < 8
            invariant
                i <= 8,
                packet@ == header@.subrange(0, i as int),
            decreases 8 - i,
        {
            packet.push(header[i]);
            proof {
                assert(packet@ =~= header@.subrange(0, i + 1));
            }
            i += 1;
        }
        proof {
            assert(header@.subrange(0, 8) =~= header@);
        }
        let mut j: usize = 0;
        while j < msg.len()
            invariant
                j <= msg@.len(),
                packet@ == header@ + msg@.subrange(0, j as int),
            decreases msg@.len() - j,
        {
            packet.push(msg[j]);
            proof {
                assert(packet@ =~= header@ + msg@.subrange(0, j + 1));
            }
            j += 1;
        }
        proof {
            assert(header@ + msg@.subrange(0, msg@.len() as int) =~= header@ + msg@);
            let f = FrameModel {
                hwid: old(self).hwid(),
                seq: old(self).seq(),
                destination: DESTINATION_RELAY,
                payload: msg@,
            };
            assert(packet@ =~= wire_bytes(f));
        }
        Ok(packet)
    }

    /// Build a local command packet: the shared preamble addressed
    /// [`DESTINATION_LOCAL`], then the one command byte.
    pub fn encode_cmd(&mut self, cmd: LSTCmd) -> (r: Vec<u8>)
        ensures
            final(self).hwid() == old(self).hwid(),
            final(self).seq() == next_seq(old(self).seq()),
            r@ == wire_bytes(
                FrameModel {
                    hwid: old(self).hwid(),
                    seq: old(self).seq(),
                    destination: DESTINATION_LOCAL,
                    payload: seq![cmd.code_spec()],
                },
            ),
    {
        let header = self.get_header(1, DESTINATION_LOCAL);
        let mut packet: Vec<u8> = Vec::new();
        let mut i: usize = 0;
        while i < 8
            invariant
                i <= 8,
                packet@ == header@.subrange(0, i as int),
            decreases 8 - i,
        {
            packet.push(header[i]);
            proof {
                assert(packet@ =~= header@.subrange(0, i + 1));
            }
            i += 1;
        }
        packet.push(cmd.code());
        proof {
            let f = FrameModel {
                hwid: old(self).hwid(),
                seq: old(self).seq(),
                destination: DESTINATION_LOCAL,
                payload: seq![cmd.code_spec()],
            };
            assert(header@.subrange(0, 8) =~= header@);
            assert(packet@ =~= wire_bytes(f));
        }
        packet
    }
}

} // verus!
