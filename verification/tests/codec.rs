use swiboe::codec::{decode_frame, encode_frame, DecodeOutcome, MAX_FRAME_LEN};
use swiboe::connection::{Connection, ReadOutcome};
use swiboe::rpc::Frame;

#[test]
fn encode_prefixes_little_endian_length() {
    let payload: Vec<u8> = b"hello".to_vec();
    let wire = encode_frame(&payload);
    assert_eq!(wire, vec![5, 0, 0, 0, b'h', b'e', b'l', b'l', b'o']);
}

#[test]
fn decode_round_trips_with_trailing_bytes() {
    let payload: Vec<u8> = b"hello".to_vec();
    let mut wire = encode_frame(&payload);
    wire.extend_from_slice(&[1, 2, 3]);
    match decode_frame(&wire) {
        DecodeOutcome::Decoded { payload: p, consumed } => {
            assert_eq!(p, payload);
            assert_eq!(consumed, 9);
        }
        _ => panic!("expected a decoded frame"),
    }
}

#[test]
fn decode_empty_payload() {
    let wire = encode_frame(&Vec::new());
    match decode_frame(&wire) {
        DecodeOutcome::Decoded { payload, consumed } => {
            assert!(payload.is_empty());
            assert_eq!(consumed, 4);
        }
        _ => panic!("expected a decoded frame"),
    }
}

#[test]
fn decode_waits_for_missing_bytes() {
    assert!(matches!(decode_frame(&vec![]), DecodeOutcome::Incomplete));
    assert!(matches!(decode_frame(&vec![5, 0]), DecodeOutcome::Incomplete));
    // Length prefix complete, payload not yet.
    assert!(matches!(decode_frame(&vec![5, 0, 0, 0, b'h', b'e']), DecodeOutcome::Incomplete));
}

#[test]
fn decode_rejects_absurd_length() {
    // 255 * 2^24 far exceeds the configured maximum.
    assert!(matches!(decode_frame(&vec![0, 0, 0, 255]), DecodeOutcome::Malformed));
    assert!(MAX_FRAME_LEN < 255 * 16777216);
}

#[test]
fn connection_reassembles_split_frames() {
    // The socket may split one frame across reads: the buffer holds the
    // partial frame until the rest arrives.
    let mut conn = Connection::new(7);
    assert_eq!(conn.id(), 7);
    let wire = encode_frame(&b"hello".to_vec());
    conn.feed_bytes(&wire[..3]);
    assert!(matches!(conn.next_frame(), ReadOutcome::NeedMore));
    conn.feed_bytes(&wire[3..]);
    match conn.next_frame() {
        ReadOutcome::Payload(p) => assert_eq!(p, b"hello".to_vec()),
        _ => panic!("expected a payload"),
    }
    assert!(matches!(conn.next_frame(), ReadOutcome::NeedMore));
}

#[test]
fn connection_splits_coalesced_frames() {
    // The socket may coalesce several frames into one read: each is split
    // off in order, consuming exactly its own bytes.
    let mut conn = Connection::new(7);
    let mut wire = encode_frame(&b"one".to_vec());
    wire.extend(encode_frame(&b"two".to_vec()));
    conn.feed_bytes(&wire);
    match conn.next_frame() {
        ReadOutcome::Payload(p) => assert_eq!(p, b"one".to_vec()),
        _ => panic!("expected the first payload"),
    }
    match conn.next_frame() {
        ReadOutcome::Payload(p) => assert_eq!(p, b"two".to_vec()),
        _ => panic!("expected the second payload"),
    }
    assert!(matches!(conn.next_frame(), ReadOutcome::NeedMore));
}

#[test]
fn connection_queues_outbound_in_order() {
    let mut conn = Connection::new(7);
    conn.enqueue_outbound(Frame::Cancel { call_id: 1 });
    conn.enqueue_outbound(Frame::Cancel { call_id: 2 });
    let queued = conn.take_outbound();
    assert_eq!(queued, vec![Frame::Cancel { call_id: 1 }, Frame::Cancel { call_id: 2 }]);
    assert!(conn.take_outbound().is_empty());
}

#[test]
fn connection_reports_malformed_length() {
    let mut conn = Connection::new(7);
    conn.feed_bytes(&[0, 0, 0, 255, 9, 9]);
    assert!(matches!(conn.next_frame(), ReadOutcome::Malformed));
}
