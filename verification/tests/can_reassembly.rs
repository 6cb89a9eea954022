use tmtc_link::reassembly::CanFrame;
use tmtc_link::reassembly::CanId;
use tmtc_link::reassembly::RodosCanDecodeError;
use tmtc_link::reassembly::RodosCanReceiveError;
use tmtc_link::reassembly::RodosCanReceiver;

const SOURCE: u32 = (0x1C << 24) | (4000 << 8) | 7;

fn fragment(raw: u32, seq_num: u8, seq_len: u8, payload: &[u8]) -> CanFrame {
    let mut data = vec![seq_num, 0, seq_len];
    data.extend_from_slice(payload);
    CanFrame { id: CanId::Extended(raw), data }
}

#[test]
fn in_order_fragments_reassemble() {
    let mut rx: RodosCanReceiver<4, 20> = RodosCanReceiver::new();
    let r = rx.accept(&fragment(SOURCE, 0, 2, &[1, 2, 3, 4, 5])).unwrap();
    assert!(r.is_none());
    let r = rx.accept(&fragment(SOURCE, 1, 2, &[6, 7, 8, 9, 10])).unwrap();
    assert!(r.is_none());
    let msg = rx.accept(&fragment(SOURCE, 2, 2, &[11, 12])).unwrap().unwrap();
    assert_eq!(msg.topic(), 4000);
    assert_eq!(msg.device(), 7);
    assert_eq!(msg.data(), &vec![1, 2, 3, 4, 5, 6, 7, 8, 9, 10, 11, 12]);
}

#[test]
fn single_fragment_message_completes_at_once() {
    let mut rx: RodosCanReceiver<4, 20> = RodosCanReceiver::new();
    let msg = rx.accept(&fragment(SOURCE, 0, 0, &[42, 43])).unwrap().unwrap();
    assert_eq!(msg.data(), &vec![42, 43]);
    // The entry was cleared: the next message reassembles afresh.
    let msg = rx.accept(&fragment(SOURCE, 0, 0, &[44])).unwrap().unwrap();
    assert_eq!(msg.data(), &vec![44]);
}

#[test]
fn duplicate_fragment_is_ignored() {
    let mut rx: RodosCanReceiver<4, 20> = RodosCanReceiver::new();
    rx.accept(&fragment(SOURCE, 0, 2, &[1, 2, 3, 4, 5])).unwrap();
    rx.accept(&fragment(SOURCE, 1, 2, &[6, 7, 8, 9, 10])).unwrap();
    // Redelivery of an accepted fragment: no error, no state change, even
    // with different bytes inside.
    let r = rx.accept(&fragment(SOURCE, 1, 2, &[99, 99, 99, 99, 99])).unwrap();
    assert!(r.is_none());
    let msg = rx.accept(&fragment(SOURCE, 2, 2, &[11, 12])).unwrap().unwrap();
    assert_eq!(msg.data(), &vec![1, 2, 3, 4, 5, 6, 7, 8, 9, 10, 11, 12]);
}

#[test]
fn gap_clears_entry_and_reports_drop() {
    let mut rx: RodosCanReceiver<4, 20> = RodosCanReceiver::new();
    rx.accept(&fragment(SOURCE, 0, 2, &[1, 2, 3, 4, 5])).unwrap();
    // Fragment 1 was lost; fragment 2 proves it.
    let r = rx.accept(&fragment(SOURCE, 2, 2, &[11, 12]));
    assert_eq!(r, Err(RodosCanReceiveError::FrameDropped));
    // A following fragment 0 starts a fresh assembly.
    let r = rx.accept(&fragment(SOURCE, 0, 2, &[21, 22, 23, 24, 25])).unwrap();
    assert!(r.is_none());
    rx.accept(&fragment(SOURCE, 1, 2, &[26, 27, 28, 29, 30])).unwrap();
    let msg = rx.accept(&fragment(SOURCE, 2, 2, &[31])).unwrap().unwrap();
    assert_eq!(msg.data(), &vec![21, 22, 23, 24, 25, 26, 27, 28, 29, 30, 31]);
}

#[test]
fn source_table_exhaustion() {
    let mut rx: RodosCanReceiver<4, 20> = RodosCanReceiver::new();
    for device in 0u32..4 {
        let raw = (0x1C << 24) | (4000 << 8) | device;
        let r = rx.accept(&fragment(raw, 0, 1, &[1, 2, 3, 4, 5])).unwrap();
        assert!(r.is_none());
    }
    // A fifth source finds the table full; nobody is evicted.
    let raw5 = (0x1C << 24) | (4000 << 8) | 9;
    let r = rx.accept(&fragment(raw5, 0, 1, &[1, 2, 3, 4, 5]));
    assert_eq!(r, Err(RodosCanReceiveError::SourceBufferFull));
    // The tracked sources still complete their messages.
    let msg = rx.accept(&fragment(0x1C << 24 | 4000 << 8, 1, 1, &[6])).unwrap().unwrap();
    assert_eq!(msg.data(), &vec![1, 2, 3, 4, 5, 6]);
    // Completion keeps the source's slot: the stranger is still rejected.
    let r = rx.accept(&fragment(raw5, 0, 1, &[1, 2, 3, 4, 5]));
    assert_eq!(r, Err(RodosCanReceiveError::SourceBufferFull));
}

#[test]
fn oversized_message_is_rejected_up_front() {
    let mut rx: RodosCanReceiver<4, 20> = RodosCanReceiver::new();
    // seq_len 5 announces up to 25 payload bytes: more than the buffer.
    let r = rx.accept(&fragment(SOURCE, 0, 5, &[1, 2, 3, 4, 5]));
    assert_eq!(r, Err(RodosCanReceiveError::MessageBufferFull));
    // Nothing was tracked for the source.
    let r = rx.accept(&fragment(SOURCE, 0, 0, &[1])).unwrap().unwrap();
    assert_eq!(r.data(), &vec![1]);
}

#[test]
fn frames_that_are_no_fragments_are_rejected() {
    let mut rx: RodosCanReceiver<4, 20> = RodosCanReceiver::new();
    let standard = CanFrame { id: CanId::Standard(123), data: vec![0, 0, 0, 1] };
    assert_eq!(
        rx.accept(&standard),
        Err(RodosCanReceiveError::CouldNotDecode(RodosCanDecodeError::WrongIDType))
    );
    let headers_only = CanFrame { id: CanId::Extended(SOURCE), data: vec![0, 0, 0] };
    assert_eq!(
        rx.accept(&headers_only),
        Err(RodosCanReceiveError::CouldNotDecode(RodosCanDecodeError::NoData))
    );
}
