use tmtc_link::frame::Frame;
use tmtc_link::framer::Framer;
use tmtc_link::framer::Resp;
use tmtc_link::ingest::Empty;
use tmtc_link::ingest::PushErr;
use tmtc_link::ingest::SerialRingbuffer;
use tmtc_link::sender::LSTCmd;
use tmtc_link::sender::LSTSender;
use tmtc_link::sender::SenderError;
use tmtc_link::telemetry::parse_local_msg;
use tmtc_link::telemetry::parse_telem;
use tmtc_link::telemetry::dispatch_frame;
use tmtc_link::telemetry::LSTMessage;
use tmtc_link::telemetry::ParseError;

fn feed(framer: &mut Framer, bytes: &[u8]) -> Vec<Frame> {
    let mut frames = Vec::new();
    for &b in bytes {
        match framer.push(b) {
            Some(Resp::Frame(f)) => frames.push(f),
            Some(Resp::Synced) => {}
            None => {}
        }
    }
    frames
}

fn telemetry_buffer() -> Vec<u8> {
    let mut buf = vec![0u8; 62];
    buf[0] = 16; // uptime = 16, little endian
    buf[35] = 216; // rssi = -40
    buf[36] = 200; // lqi
    buf[38] = 0xE8; // packets_sent = 1000
    buf[39] = 0x03;
    buf[46] = 0xDE; // packets_good = 990
    buf[47] = 0x03;
    buf[50] = 5; // packets_rejected_checksum = 5
    buf[54] = 2; // first reserved counter
    buf[58] = 3; // second reserved counter
    buf
}

#[test]
fn resync_on_short_length_byte() {
    let mut framer = Framer::new();
    for len_byte in 0u8..=5u8 {
        let frames = feed(&mut framer, &[0x22, 0x69, len_byte]);
        assert_eq!(frames.len(), 0);
    }
    // The deframer is searching again: a valid frame still decodes.
    let frames = feed(&mut framer, &[0x22, 0x69, 6, 0x01, 0x00, 0x07, 0x00, 0x11, 0xAB]);
    assert_eq!(frames.len(), 1);
    assert_eq!(frames[0].hwid, 1);
    assert_eq!(frames[0].seq, 7);
    assert_eq!(frames[0].destination, 0x11);
    assert_eq!(frames[0].payload, vec![0xAB]);
}

#[test]
fn round_trip_single_chunk() {
    let mut sender = LSTSender::new(0x2DEC);
    let payload = [10u8, 20, 30, 40];
    let packet = sender.encode(&payload).unwrap();
    let mut framer = Framer::new();
    let frames = feed(&mut framer, &packet);
    assert_eq!(frames.len(), 1);
    assert_eq!(frames[0].hwid, 0x2DEC);
    assert_eq!(frames[0].seq, 0);
    assert_eq!(frames[0].destination, 0x11);
    assert_eq!(frames[0].payload, payload.to_vec());
}

#[test]
fn round_trip_arbitrary_chunks() {
    let mut sender = LSTSender::new(0x0102);
    let payload: Vec<u8> = (0u8..100).collect();
    let packet = sender.encode(&payload).unwrap();
    // Split the packet at every boundary in turn: chunking cannot matter.
    for split in 0..packet.len() {
        let mut framer = Framer::new();
        let mut frames = feed(&mut framer, &packet[..split]);
        frames.extend(feed(&mut framer, &packet[split..]));
        assert_eq!(frames.len(), 1);
        assert_eq!(frames[0].hwid, 0x0102);
        assert_eq!(frames[0].seq, 0);
        assert_eq!(frames[0].destination, 0x11);
        assert_eq!(frames[0].payload, payload);
    }
}

#[test]
fn garbage_prefix_changes_nothing() {
    let mut sender = LSTSender::new(7);
    let payload = [1u8, 2, 3];
    let packet = sender.encode(&payload).unwrap();
    // No 0x22 0x69 pair anywhere, and not ending on 0x22.
    let garbage = [0x00u8, 0x69, 0x42, 0xFF, 0x69, 0x07];
    let mut bytes = garbage.to_vec();
    bytes.extend_from_slice(&packet);
    let mut framer = Framer::new();
    let frames = feed(&mut framer, &bytes);
    assert_eq!(frames.len(), 1);
    assert_eq!(frames[0].hwid, 7);
    assert_eq!(frames[0].seq, 0);
    assert_eq!(frames[0].destination, 0x11);
    assert_eq!(frames[0].payload, payload.to_vec());
}

#[test]
fn synced_is_reported_when_magic_completes() {
    let mut framer = Framer::new();
    assert!(framer.push(0x22).is_none());
    assert!(matches!(framer.push(0x69), Some(Resp::Synced)));
}

#[test]
fn reset_discards_partial_frame() {
    let mut framer = Framer::new();
    // A partially filled body is abandoned by reset.
    let frames = feed(&mut framer, &[0x22, 0x69, 10, 1, 2]);
    assert_eq!(frames.len(), 0);
    framer.reset();
    let frames = feed(&mut framer, &[0x22, 0x69, 6, 1, 0, 0, 0, 0x11, 9]);
    assert_eq!(frames.len(), 1);
    assert_eq!(frames[0].payload, vec![9]);
}

#[test]
fn encoder_builds_exact_packet() {
    let mut sender = LSTSender::new(0x2DEC);
    let packet = sender.encode(&[1, 2, 3]).unwrap();
    assert_eq!(packet, vec![0x22, 0x69, 8, 0xEC, 0x2D, 0x00, 0x00, 0x11, 1, 2, 3]);
    // The sequence counter stepped; the next command says so.
    let cmd = sender.encode_cmd(LSTCmd::GetTelem);
    assert_eq!(cmd, vec![0x22, 0x69, 6, 0xEC, 0x2D, 0x01, 0x00, 0x01, 0x17]);
    let cmd = sender.encode_cmd(LSTCmd::Reboot);
    assert_eq!(cmd, vec![0x22, 0x69, 6, 0xEC, 0x2D, 0x02, 0x00, 0x01, 0x12]);
}

#[test]
fn encoder_rejects_long_payload() {
    let mut sender = LSTSender::new(1);
    let long = vec![0u8; 249];
    assert_eq!(sender.encode(&long), Err(SenderError::MessageTooLongError));
    // The rejection left the counter untouched.
    let limit = vec![0u8; 248];
    let packet = sender.encode(&limit).unwrap();
    assert_eq!(packet.len(), 256);
    assert_eq!(packet[2], 253);
    assert_eq!(packet[5], 0); // seq low byte: still the first packet
}

#[test]
fn sequence_counter_wraps() {
    let mut sender = LSTSender::new(1);
    for _ in 0..65535u32 {
        sender.encode(&[0]).unwrap();
    }
    let packet = sender.encode(&[0]).unwrap();
    assert_eq!((packet[5], packet[6]), (0xFF, 0xFF));
    let packet = sender.encode(&[0]).unwrap();
    assert_eq!((packet[5], packet[6]), (0x00, 0x00));
}

#[test]
fn telemetry_decode_exact_fields() {
    let buf = telemetry_buffer();
    let t = parse_telem(&buf).unwrap();
    assert_eq!(t.uptime, 16);
    assert_eq!(t.rssi, -40);
    assert_eq!(t.lqi, 200);
    assert_eq!(t.packets_sent, 1000);
    assert_eq!(t.packets_good, 990);
    assert_eq!(t.packets_rejected_checksum, 5);
    assert_eq!(t.packets_rejected_other, 5); // 3 + 2
}

#[test]
fn back_to_back_frames_all_decode() {
    let mut sender = LSTSender::new(3);
    let mut bytes = Vec::new();
    bytes.extend_from_slice(&sender.encode(&[1]).unwrap());
    bytes.extend_from_slice(&sender.encode(&[2, 2]).unwrap());
    bytes.extend_from_slice(&sender.encode(&[3, 3, 3]).unwrap());
    let mut framer = Framer::new();
    let frames = feed(&mut framer, &bytes);
    assert_eq!(frames.len(), 3);
    assert_eq!(frames[0].payload, vec![1]);
    assert_eq!(frames[1].payload, vec![2, 2]);
    assert_eq!(frames[2].payload, vec![3, 3, 3]);
    assert_eq!(frames[0].seq, 0);
    assert_eq!(frames[1].seq, 1);
    assert_eq!(frames[2].seq, 2);
}

#[test]
fn telemetry_rejected_counters_sum_wraps() {
    let mut buf = vec![0u8; 62];
    // First reserved counter u32::MAX, second 1: the sum wraps to zero.
    buf[54] = 0xFF;
    buf[55] = 0xFF;
    buf[56] = 0xFF;
    buf[57] = 0xFF;
    buf[58] = 1;
    let t = parse_telem(&buf).unwrap();
    assert_eq!(t.packets_rejected_other, 0);
}

#[test]
fn telemetry_too_short_is_rejected() {
    let buf = vec![0u8; 61];
    assert_eq!(parse_telem(&buf), Err(ParseError::TelemetryTooShort));
}

#[test]
fn local_commands_decode() {
    assert!(matches!(parse_local_msg(&[0x10]), Ok(LSTMessage::Ack)));
    assert!(matches!(parse_local_msg(&[0xFF]), Ok(LSTMessage::Nack)));
    assert!(matches!(parse_local_msg(&[0x42]), Ok(LSTMessage::Unknown(0x42))));
    assert!(matches!(parse_local_msg(&[]), Err(ParseError::EmptyCommand)));
    let mut telem_payload = vec![0x18u8];
    telem_payload.extend_from_slice(&telemetry_buffer());
    match parse_local_msg(&telem_payload) {
        Ok(LSTMessage::Telem(t)) => assert_eq!(t.packets_rejected_other, 5),
        _ => panic!("expected a telemetry message"),
    }
    assert_eq!(parse_local_msg(&[0x18, 0, 0]), Err(ParseError::TelemetryTooShort));
}

#[test]
fn dispatch_selects_by_destination() {
    let relay = Frame { hwid: 1, seq: 0, destination: 0x11, payload: vec![9, 8, 7] };
    match dispatch_frame(relay) {
        Ok(LSTMessage::Relay(p)) => assert_eq!(p, vec![9, 8, 7]),
        _ => panic!("expected a relay message"),
    }
    let local = Frame { hwid: 1, seq: 0, destination: 0x01, payload: vec![0x10] };
    assert!(matches!(dispatch_frame(local), Ok(LSTMessage::Ack)));
    let other = Frame { hwid: 1, seq: 0, destination: 0x77, payload: vec![1] };
    assert!(matches!(dispatch_frame(other), Ok(LSTMessage::Unknown(0x00))));
}

#[test]
fn ringbuffer_delivers_in_order() {
    let mut buf: SerialRingbuffer<u8, 8, 4> = SerialRingbuffer::new(0);
    assert_eq!(buf.pop(), Err(Empty));
    buf.push_from_slice::<()>(&[1, 2]).unwrap();
    assert_eq!(buf.pop(), Ok(1));
    buf.push_from_slice::<()>(&[3, 4]).unwrap();
    assert_eq!(buf.pop(), Ok(2));
    assert_eq!(buf.pop(), Ok(3));
    assert_eq!(buf.pop(), Ok(4));
    buf.push_from_slice::<()>(&[5, 6, 7, 8]).unwrap();
    assert_eq!(buf.pop(), Ok(5));
    assert_eq!(buf.pop(), Ok(6));
    assert_eq!(buf.pop(), Ok(7));
    assert_eq!(buf.pop(), Ok(8));
    // The writer passed the midpoint: the next chunk lands in the lower
    // half and the virtual rewind brings the reader to it.
    buf.push_from_slice::<()>(&[9, 10]).unwrap();
    assert_eq!(buf.pop(), Ok(9));
    assert_eq!(buf.pop(), Ok(10));
}

#[test]
fn ringbuffer_overflow_leaves_storage_untouched() {
    let mut buf: SerialRingbuffer<u8, 8, 4> = SerialRingbuffer::new(0);
    assert!(buf.can_push());
    buf.push_from_slice::<()>(&[1, 2, 3, 4]).unwrap();
    buf.push_from_slice::<()>(&[5, 6, 7, 8]).unwrap();
    // A whole buffer-width is pending and nothing was drained: the next
    // push must fail without touching storage.
    assert!(!buf.can_push());
    assert_eq!(buf.push_from_slice::<()>(&[9, 10, 11, 12]), Err(PushErr::Overflow));
    for expected in 1u8..=8 {
        assert_eq!(buf.pop(), Ok(expected));
    }
}
