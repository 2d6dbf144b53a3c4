use bytes::Bytes;
use netchannel::message::Message;
use netchannel::ordered_reliable::OrderedReliableReceiver;
use netchannel::wrapping_id::MessageId;

#[test]
fn test_ordered_reliable_receiver_internals() {
    let mut receiver = OrderedReliableReceiver::new();

    let message1 = Message::new(Bytes::from("hello"));
    let message2 = Message::new(Bytes::from("world"));

    // receive an old message: it doesn't get added to the buffer
    receiver.buffer_recv(message2.clone(), MessageId(60000));
    assert_eq!(receiver.buffer_len(), 0);

    // receive message in the wrong order
    receiver.buffer_recv(message2.clone(), MessageId(1));

    // the message has been buffered, but we are not processing it yet
    // until we have received message 0
    assert_eq!(receiver.buffer_len(), 1);
    assert!(receiver.is_buffered(MessageId(1)));
    assert_eq!(receiver.read_message(), None);
    assert_eq!(receiver.pending_recv_message_id(), MessageId(0));

    // receive message 0
    receiver.buffer_recv(message1.clone(), MessageId(0));
    assert_eq!(receiver.buffer_len(), 2);

    // now we can read the messages in order
    assert_eq!(receiver.read_message(), Some(message1.clone()));
    assert_eq!(receiver.pending_recv_message_id(), MessageId(1));
    assert_eq!(receiver.read_message(), Some(message2.clone()));
}

#[test]
fn stale_id_is_ignored() {
    let mut receiver = OrderedReliableReceiver::new();
    let message = Message::new(Bytes::from("late"));
    receiver.buffer_recv(message, MessageId(60000));
    assert_eq!(receiver.buffer_len(), 0);
}

#[test]
fn reorder_and_drain() {
    let mut receiver = OrderedReliableReceiver::new();
    let message1 = Message::new(Bytes::from("first"));
    let message2 = Message::new(Bytes::from("second"));

    receiver.buffer_recv(message2.clone(), MessageId(1));
    assert_eq!(receiver.read_message(), None);
    receiver.buffer_recv(message1.clone(), MessageId(0));
    assert_eq!(receiver.read_message(), Some(message1));
    assert_eq!(receiver.read_message(), Some(message2));
    assert_eq!(receiver.read_message(), None);
    assert_eq!(receiver.pending_recv_message_id(), MessageId(2));
}

#[test]
fn duplicate_keeps_first_arrival() {
    let mut receiver = OrderedReliableReceiver::new();
    let first = Message::new(Bytes::from("first"));
    let second = Message::new(Bytes::from("second"));
    receiver.buffer_recv(first.clone(), MessageId(0));
    receiver.buffer_recv(second, MessageId(0));
    assert_eq!(receiver.buffer_len(), 1);
    assert_eq!(receiver.read_message(), Some(first));
}

#[test]
fn wrap_correctness() {
    // with a pending id of 0, an incoming id at the far end of the space
    // is stale and rejected
    let mut receiver = OrderedReliableReceiver::new();
    let message = Message::new(Bytes::from("wrapped"));
    receiver.buffer_recv(message.clone(), MessageId(65535));
    assert_eq!(receiver.buffer_len(), 0);

    // drain the receiver all the way to a pending id of 65535
    let filler = Message::new(Bytes::from("filler"));
    for i in 0..65535u32 {
        receiver.buffer_recv(filler.clone(), MessageId(i as u16));
        assert!(receiver.read_message().is_some());
    }
    assert_eq!(receiver.pending_recv_message_id(), MessageId(65535));

    // now id 0 is ahead of the cursor: accepted, and delivered right
    // after 65535
    let newer = Message::new(Bytes::from("newer"));
    receiver.buffer_recv(newer.clone(), MessageId(0));
    assert_eq!(receiver.buffer_len(), 1);
    assert_eq!(receiver.read_message(), None);
    receiver.buffer_recv(message.clone(), MessageId(65535));
    assert_eq!(receiver.read_message(), Some(message));
    assert_eq!(receiver.read_message(), Some(newer));
    assert_eq!(receiver.pending_recv_message_id(), MessageId(1));
}
