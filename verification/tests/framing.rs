use belka_chain::framing::{encode_framed, FrameBuffer, ReadEvent};
use belka_chain::protocol::{DecodeError, Message};

fn wire_bytes(ms: &[Message]) -> Vec<u8> {
    let mut out = Vec::new();
    for m in ms {
        out.extend_from_slice(&encode_framed(m).expect("message fits in a frame"));
    }
    out
}

fn drain(buf: &mut FrameBuffer) -> Vec<Message> {
    let mut out = Vec::new();
    loop {
        match buf.next_event() {
            ReadEvent::NeedMoreBytes => return out,
            ReadEvent::Message(m) => out.push(m),
            ReadEvent::Corrupt(_) => panic!("unexpected corrupt frame"),
            ReadEvent::Desynchronized => panic!("unexpected desynchronization"),
        }
    }
}

fn messages_three() -> Vec<Message> {
    vec![
        Message::Ping,
        Message::Handshake { node_id: b"n1".to_vec(), version: 1, chain_height: 7 },
        Message::Blocks { blocks: vec![vec![1, 2], vec![3]] },
    ]
}

#[test]
fn one_read_with_several_frames() {
    let ms = messages_three();
    let mut buf = FrameBuffer::new();
    buf.push_chunk(&wire_bytes(&ms));
    assert_eq!(drain(&mut buf), ms);
    assert_eq!(buf.buffered_len(), 0);
}

#[test]
fn one_byte_at_a_time() {
    let ms = messages_three();
    let stream = wire_bytes(&ms);
    let mut buf = FrameBuffer::new();
    let mut got = Vec::new();
    for b in stream {
        buf.push_chunk(&[b]);
        got.extend(drain(&mut buf));
    }
    assert_eq!(got, ms);
    assert_eq!(buf.buffered_len(), 0);
}

#[test]
fn arbitrary_chunk_boundaries() {
    let ms = messages_three();
    let stream = wire_bytes(&ms);
    for chunk_len in [2usize, 3, 5, 7, 11, 64] {
        let mut buf = FrameBuffer::new();
        let mut got = Vec::new();
        for chunk in stream.chunks(chunk_len) {
            buf.push_chunk(chunk);
            got.extend(drain(&mut buf));
        }
        assert_eq!(got, ms, "chunk length {}", chunk_len);
        assert_eq!(buf.buffered_len(), 0);
    }
}

#[test]
fn partial_frame_waits_for_more_bytes() {
    let stream = wire_bytes(&[Message::GetBlocks { from_height: 1, to_height: 2 }]);
    let mut buf = FrameBuffer::new();
    buf.push_chunk(&stream[..stream.len() - 1]);
    assert!(matches!(buf.next_event(), ReadEvent::NeedMoreBytes));
    buf.push_chunk(&stream[stream.len() - 1..]);
    assert_eq!(drain(&mut buf), vec![Message::GetBlocks { from_height: 1, to_height: 2 }]);
}

#[test]
fn impossible_length_header_is_desynchronization() {
    let mut buf = FrameBuffer::new();
    buf.push_chunk(&[0xff, 0xff, 0xff, 0xff]);
    assert!(matches!(buf.next_event(), ReadEvent::Desynchronized));
}

#[test]
fn corrupt_frame_is_dropped_and_the_stream_continues() {
    let mut buf = FrameBuffer::new();
    // A well-framed payload with an unknown tag...
    buf.push_chunk(&[0, 0, 0, 1, 99]);
    // ...followed by a good frame.
    buf.push_chunk(&encode_framed(&Message::Pong).unwrap());
    assert!(matches!(buf.next_event(), ReadEvent::Corrupt(DecodeError::UnknownTag)));
    assert!(matches!(buf.next_event(), ReadEvent::Message(Message::Pong)));
    assert_eq!(buf.buffered_len(), 0);
}

#[test]
fn truncated_payload_in_a_frame_is_corrupt_not_fatal() {
    let mut buf = FrameBuffer::new();
    // Frame of 5 bytes: GetBlocks tag but only 4 of its 16 field bytes.
    buf.push_chunk(&[0, 0, 0, 5, 1, 0, 0, 0, 0]);
    assert!(matches!(buf.next_event(), ReadEvent::Corrupt(DecodeError::Malformed)));
    assert!(matches!(buf.next_event(), ReadEvent::NeedMoreBytes));
}
