use bytes::Bytes;
use netchannel::fragment_receiver::FragmentReceiver;
use netchannel::message::{ChannelError, FragmentData, SingleData, Timestamp, FRAGMENT_SIZE};
use netchannel::wrapping_id::MessageId;

/// Split a payload into fragments the way the sending side does: every
/// fragment but the last carries exactly FRAGMENT_SIZE bytes.
fn build_fragments(message_id: MessageId, payload: Bytes) -> Vec<FragmentData> {
    let chunks: Vec<&[u8]> = payload.as_ref().chunks(FRAGMENT_SIZE).collect();
    let num_fragments = chunks.len() as u16;
    let mut fragments = Vec::new();
    for (i, chunk) in chunks.iter().enumerate() {
        fragments.push(FragmentData {
            message_id,
            fragment_id: i as u16,
            num_fragments,
            bytes: Bytes::copy_from_slice(chunk),
        });
    }
    fragments
}

#[test]
fn test_receiver() {
    let mut receiver = FragmentReceiver::new();
    let num_bytes = (FRAGMENT_SIZE as f32 * 1.5) as usize;
    let message_bytes = Bytes::from(vec![1 as u8; num_bytes]);
    let fragments = build_fragments(MessageId(0), message_bytes.clone());

    assert_eq!(
        receiver.receive_fragment(fragments[0].clone(), None).unwrap(),
        None
    );
    assert_eq!(
        receiver.receive_fragment(fragments[1].clone(), None).unwrap(),
        Some(SingleData {
            id: Some(MessageId(0)),
            bytes: message_bytes.clone()
        })
    );
}

#[test]
fn two_fragment_reassembly_in_order() {
    let mut receiver = FragmentReceiver::new();
    let num_bytes = FRAGMENT_SIZE * 3 / 2;
    let message_bytes = Bytes::from(vec![0x01u8; num_bytes]);
    let fragments = build_fragments(MessageId(0), message_bytes.clone());
    assert_eq!(fragments.len(), 2);

    assert_eq!(
        receiver.receive_fragment(fragments[0].clone(), None).unwrap(),
        None
    );
    assert_eq!(
        receiver.receive_fragment(fragments[1].clone(), None).unwrap(),
        Some(SingleData {
            id: Some(MessageId(0)),
            bytes: message_bytes.clone()
        })
    );
    assert_eq!(receiver.num_in_flight(), 0);
}

#[test]
fn two_fragment_reassembly_reverse_order() {
    let mut receiver = FragmentReceiver::new();
    let num_bytes = FRAGMENT_SIZE * 3 / 2;
    let message_bytes = Bytes::from(vec![0x01u8; num_bytes]);
    let fragments = build_fragments(MessageId(0), message_bytes.clone());

    assert_eq!(
        receiver.receive_fragment(fragments[1].clone(), None).unwrap(),
        None
    );
    assert_eq!(
        receiver.receive_fragment(fragments[0].clone(), None).unwrap(),
        Some(SingleData {
            id: Some(MessageId(0)),
            bytes: message_bytes.clone()
        })
    );
    assert_eq!(receiver.num_in_flight(), 0);
}

#[test]
fn full_size_tail_reassembly() {
    // a payload of exactly two full fragments: the tail is FRAGMENT_SIZE
    let mut receiver = FragmentReceiver::new();
    let message_bytes = Bytes::from(vec![0xabu8; 2 * FRAGMENT_SIZE]);
    let fragments = build_fragments(MessageId(7), message_bytes.clone());

    assert_eq!(
        receiver.receive_fragment(fragments[0].clone(), None).unwrap(),
        None
    );
    let done = receiver
        .receive_fragment(fragments[1].clone(), None)
        .unwrap()
        .expect("second fragment completes the message");
    assert_eq!(done.id, Some(MessageId(7)));
    assert_eq!(done.bytes, message_bytes);
}

#[test]
fn duplicate_fragment_is_ignored() {
    let mut receiver = FragmentReceiver::new();
    let message_bytes = Bytes::from(vec![0x01u8; FRAGMENT_SIZE * 3 / 2]);
    let fragments = build_fragments(MessageId(0), message_bytes);

    assert_eq!(
        receiver.receive_fragment(fragments[0].clone(), None).unwrap(),
        None
    );
    assert_eq!(
        receiver.receive_fragment(fragments[0].clone(), None).unwrap(),
        None
    );
    assert_eq!(receiver.num_received_fragments(MessageId(0)), Some(1));
}

#[test]
fn cleanup_evicts_stale_partial() {
    let mut receiver = FragmentReceiver::new();
    let message_bytes = Bytes::from(vec![0x01u8; FRAGMENT_SIZE * 3 / 2]);
    let fragments = build_fragments(MessageId(0), message_bytes);

    assert_eq!(
        receiver
            .receive_fragment(fragments[0].clone(), Some(Timestamp(0)))
            .unwrap(),
        None
    );
    receiver.cleanup(Timestamp(1000));
    assert!(!receiver.is_in_flight(MessageId(0)));

    // a later fragment starts a fresh reassembly instead of completing
    // the evicted one
    assert_eq!(
        receiver
            .receive_fragment(fragments[1].clone(), Some(Timestamp(2000)))
            .unwrap(),
        None
    );
    assert_eq!(receiver.num_received_fragments(MessageId(0)), Some(1));
}

#[test]
fn cleanup_retains_untimestamped() {
    let mut receiver = FragmentReceiver::new();
    let message_bytes = Bytes::from(vec![0x01u8; FRAGMENT_SIZE * 3 / 2]);
    let fragments = build_fragments(MessageId(0), message_bytes);

    assert_eq!(
        receiver.receive_fragment(fragments[0].clone(), None).unwrap(),
        None
    );
    receiver.cleanup(Timestamp(1000));
    assert!(receiver.is_in_flight(MessageId(0)));
}

#[test]
fn bad_fragment_index_is_malformed() {
    let mut receiver = FragmentReceiver::new();
    let fragment = FragmentData {
        message_id: MessageId(0),
        fragment_id: 2,
        num_fragments: 2,
        bytes: Bytes::from(vec![0u8; FRAGMENT_SIZE]),
    };
    assert_eq!(
        receiver.receive_fragment(fragment, None),
        Err(ChannelError::MalformedFragment)
    );
    assert_eq!(receiver.num_in_flight(), 0);
}

#[test]
fn short_middle_fragment_is_malformed() {
    let mut receiver = FragmentReceiver::new();
    let fragment = FragmentData {
        message_id: MessageId(0),
        fragment_id: 0,
        num_fragments: 2,
        bytes: Bytes::from(vec![0u8; FRAGMENT_SIZE - 1]),
    };
    assert_eq!(
        receiver.receive_fragment(fragment, None),
        Err(ChannelError::MalformedFragment)
    );
}

#[test]
fn empty_or_oversized_tail_is_malformed() {
    let mut receiver = FragmentReceiver::new();
    let empty_tail = FragmentData {
        message_id: MessageId(0),
        fragment_id: 1,
        num_fragments: 2,
        bytes: Bytes::new(),
    };
    assert_eq!(
        receiver.receive_fragment(empty_tail, None),
        Err(ChannelError::MalformedFragment)
    );
    let oversized_tail = FragmentData {
        message_id: MessageId(0),
        fragment_id: 1,
        num_fragments: 2,
        bytes: Bytes::from(vec![0u8; FRAGMENT_SIZE + 1]),
    };
    assert_eq!(
        receiver.receive_fragment(oversized_tail, None),
        Err(ChannelError::MalformedFragment)
    );
}

#[test]
fn single_fragment_count_is_malformed() {
    let mut receiver = FragmentReceiver::new();
    let fragment = FragmentData {
        message_id: MessageId(0),
        fragment_id: 0,
        num_fragments: 1,
        bytes: Bytes::from(vec![0u8; 100]),
    };
    assert_eq!(
        receiver.receive_fragment(fragment, None),
        Err(ChannelError::MalformedFragment)
    );
}

#[test]
fn inconsistent_fragment_count_drops_entry() {
    let mut receiver = FragmentReceiver::new();
    let message_bytes = Bytes::from(vec![0x01u8; FRAGMENT_SIZE * 3 / 2]);
    let fragments = build_fragments(MessageId(0), message_bytes);
    assert_eq!(
        receiver.receive_fragment(fragments[0].clone(), None).unwrap(),
        None
    );
    assert!(receiver.is_in_flight(MessageId(0)));

    let liar = FragmentData {
        message_id: MessageId(0),
        fragment_id: 0,
        num_fragments: 3,
        bytes: Bytes::from(vec![0u8; FRAGMENT_SIZE]),
    };
    assert_eq!(
        receiver.receive_fragment(liar, None),
        Err(ChannelError::MalformedFragment)
    );
    assert!(!receiver.is_in_flight(MessageId(0)));
}

#[test]
fn three_fragment_permutation() {
    // feed a three-fragment message in a scrambled order; completion
    // comes exactly on the final fragment with the original payload
    let mut receiver = FragmentReceiver::new();
    let mut payload = Vec::new();
    for i in 0..(2 * FRAGMENT_SIZE + 100) {
        payload.push((i % 251) as u8);
    }
    let message_bytes = Bytes::from(payload);
    let fragments = build_fragments(MessageId(42), message_bytes.clone());
    assert_eq!(fragments.len(), 3);

    assert_eq!(
        receiver.receive_fragment(fragments[2].clone(), None).unwrap(),
        None
    );
    assert_eq!(
        receiver.receive_fragment(fragments[0].clone(), None).unwrap(),
        None
    );
    assert_eq!(
        receiver.receive_fragment(fragments[1].clone(), None).unwrap(),
        Some(SingleData {
            id: Some(MessageId(42)),
            bytes: message_bytes.clone()
        })
    );
    assert_eq!(receiver.num_in_flight(), 0);
}
