use solana_validator::bidirectional_channel_handler::{
    goes_on, time_left, BidirectionalChannelHandler, ReadOutcome, ReplyBuffer, PACKET_DATA_SIZE,
    QUIC_REPLY_MESSAGE_SIZE, REPLY_TIMEOUT_MS, SAVED_MESSAGES,
};

fn replies(n: usize) -> Vec<u8> {
    (0..n * QUIC_REPLY_MESSAGE_SIZE).map(|i| (i / 7 % 251) as u8).collect()
}

/// Feeds the bytes in chunks and passes every reply on.
fn feed(bytes: &[u8], chunk_size: usize) -> (Vec<(Vec<u8>, Vec<u8>)>, Vec<u8>) {
    let mut buffer = ReplyBuffer::new();
    let mut received = vec![];
    for chunk in bytes.chunks(chunk_size) {
        let replies = buffer.take_chunk(chunk);
        for reply in &replies {
            received.push((reply.signature.0.to_vec(), reply.message.to_vec()));
        }
        assert!(buffer.can_keep_after(replies.len()));
        buffer.passed_on(replies.len());
    }
    (received, buffer.bytes)
}

#[test]
fn replies_do_not_depend_on_chunks() {
    let mut bytes = replies(7);
    bytes.extend_from_slice(&[1, 2, 3]);
    let expected: Vec<(Vec<u8>, Vec<u8>)> = bytes
        .chunks_exact(QUIC_REPLY_MESSAGE_SIZE)
        .map(|reply| (reply[..64].to_vec(), reply[64..].to_vec()))
        .collect();
    for chunk_size in [1, 64, 191, 192, 193, 500, PACKET_DATA_SIZE, 100_000] {
        let (received, rest) = feed(&bytes, chunk_size);
        assert_eq!(received, expected);
        assert_eq!(rest, vec![1, 2, 3]);
    }
}

#[test]
fn replies_that_are_not_passed_on_stay() {
    let mut buffer = ReplyBuffer::new();
    let bytes = replies(3);
    assert_eq!(buffer.take_chunk(&bytes).len(), 3);
    assert!(!buffer.can_keep_after(1));
    assert!(buffer.can_keep_after(2));
    assert!(buffer.can_keep_after(3));
    buffer.passed_on(2);
    assert_eq!(buffer.bytes, bytes[2 * QUIC_REPLY_MESSAGE_SIZE..].to_vec());
    assert_eq!(buffer.take_chunk(&[]).len(), 1);
}

#[test]
fn one_stream_is_served_at_a_time() {
    let mut handler = BidirectionalChannelHandler::new();
    assert!(!handler.is_serving());
    assert!(handler.start_serving());
    assert!(handler.is_serving());
    assert!(!handler.start_serving());
    handler.stop_serving();
    assert!(!handler.is_serving());
}

#[test]
fn waiting_ends() {
    assert_eq!(PACKET_DATA_SIZE, 1232);
    assert_eq!(time_left(REPLY_TIMEOUT_MS, 1), 9_999);
    assert_eq!(time_left(5, 6), 0);
    assert!(goes_on(ReadOutcome::Chunk));
    assert!(!goes_on(ReadOutcome::Finished));
    assert!(!goes_on(ReadOutcome::Error));
    assert!(!goes_on(ReadOutcome::TimedOut));
}

#[test]
fn a_handler_saves_1024_replies() {
    let handler = BidirectionalChannelHandler::new();
    assert_eq!(SAVED_MESSAGES, 1024);
    assert_eq!(handler.capacity(), Some(1024));
    assert_eq!(handler.reciever.capacity(), Some(1024));
    assert!(handler.reciever.is_empty());
    let mut buffer = ReplyBuffer::new();
    let sent = buffer.take_chunk(&replies(1025));
    assert_eq!(sent.len(), 1025);
    for reply in &sent[..1024] {
        assert!(handler.sender.try_send(*reply).is_ok());
    }
    assert!(handler.sender.try_send(sent[1024]).is_err());
    for reply in &sent[..1024] {
        let received = handler.reciever.try_recv().unwrap();
        assert_eq!(received.signature.0, reply.signature.0);
        assert_eq!(received.message, reply.message);
    }
    assert!(handler.reciever.is_empty());
}
