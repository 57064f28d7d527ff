//! Connections without sockets.

use charlotte_kafka_broker::broker_runtime::{SessionId, SessionShardLayout};
use charlotte_kafka_broker::broker_wire::Error;
use charlotte_kafka_broker::front_end::acceptor::{
    accept_event, AcceptAction, AcceptEvent, Acceptor,
};
use charlotte_kafka_broker::front_end::connection::{Connection, Received};
use charlotte_kafka_broker::front_end::decimal_port;
use charlotte_kafka_broker::front_end::diagnostics::{
    Diagnostics, Heartbeat, STAGE_ACCEPTED, STAGE_CLOSED, STAGE_DISPATCHING, STAGE_ENGINE_ERROR,
    STAGE_RECEIVED, STAGE_RECEIVE_ERROR, STAGE_SENDING, STAGE_SEND_ERROR, STAGE_SENT,
};
use charlotte_kafka_broker::front_end::frames::{payload_len, FrameBuffer, Front};

fn frame(payload: &[u8]) -> Vec<u8> {
    let mut frame = (payload.len() as i32).to_be_bytes().to_vec();
    frame.extend_from_slice(payload);
    frame
}

#[test]
fn ports_are_decimal_numbers() {
    assert_eq!(decimal_port(b"19092"), 19092);
    assert_eq!(decimal_port(b"1"), 1);
    assert_eq!(decimal_port(b"65535"), 65535);
    assert_eq!(decimal_port(b"0080"), 80);
    for none in [b"".as_slice(), b"0", b"65536", b"99999999999999", b"80a", b"-1", b" 80"] {
        assert_eq!(decimal_port(none), 9092);
    }
}

#[test]
fn payload_lengths_are_positive_and_bounded() {
    assert_eq!(payload_len(&1i32.to_be_bytes()), Some(1));
    assert_eq!(payload_len(&1_048_576i32.to_be_bytes()), Some(1_048_576));
    assert_eq!(payload_len(&1_048_577i32.to_be_bytes()), None);
    assert_eq!(payload_len(&0i32.to_be_bytes()), None);
    assert_eq!(payload_len(&(-1i32).to_be_bytes()), None);
}

#[test]
fn frames_come_out_however_they_arrive() {
    let frames = [frame(b"a"), frame(b"second"), frame(&[0; 300])];
    let stream = frames.concat();
    for size in [1, 2, 5, 7, 64, stream.len()] {
        let mut buffer = FrameBuffer::new();
        let mut seen = Vec::new();
        for chunk in stream.chunks(size) {
            buffer.extend(chunk);
            loop {
                match buffer.next_frame() {
                    Front::Frame(frame) => seen.push(frame),
                    Front::Partial => break,
                    Front::Malformed => panic!("malformed"),
                }
            }
        }
        assert_eq!(seen, frames);
    }
}

#[test]
fn malformed_fronts_stay_malformed() {
    let mut buffer = FrameBuffer::new();
    buffer.extend(&[0, 0, 0]);
    assert_eq!(buffer.next_frame(), Front::Partial);
    buffer.extend(&[0]);
    assert_eq!(buffer.next_frame(), Front::Malformed);
    buffer.extend(b"more");
    assert_eq!(buffer.next_frame(), Front::Malformed);
}

#[test]
fn connections_count_what_they_do() {
    let mut diagnostics = Diagnostics::default();
    let mut connection = Connection::accept(&mut diagnostics);
    assert_eq!(connection.number(), 1);
    assert_eq!((diagnostics.accepted, diagnostics.active), (1, 1));
    assert_eq!(diagnostics.last_stage, STAGE_ACCEPTED);

    let request = frame(b"\0\x12\0\x03\0\0\x01\x02rest");
    assert!(connection.receive(Received::Chunk(request.clone()), &mut diagnostics));
    assert_eq!((diagnostics.chunks, diagnostics.last_stage), (1, STAGE_RECEIVED));
    assert_eq!(connection.next_frame(&mut diagnostics), Front::Frame(request));
    assert_eq!((diagnostics.frames, diagnostics.last_stage), (1, STAGE_DISPATCHING));
    assert_eq!(diagnostics.last_api_key, 0x12);
    assert_eq!(diagnostics.last_api_version, 3);
    assert_eq!(diagnostics.last_correlation, 0x102);
    assert_eq!(connection.next_frame(&mut diagnostics), Front::Partial);
    assert_eq!(diagnostics.frames, 1);

    let response = connection.answered(Ok(b"response".to_vec()), &mut diagnostics);
    assert_eq!(response, Some(b"response".to_vec()));
    assert_eq!((diagnostics.handled, diagnostics.last_stage), (1, STAGE_SENDING));
    assert!(connection.sent(true, &mut diagnostics));
    assert_eq!((diagnostics.sent, diagnostics.last_stage), (1, STAGE_SENT));
    assert_eq!(diagnostics.progress, 6);

    assert!(!connection.sent(false, &mut diagnostics));
    assert_eq!((diagnostics.send_errors, diagnostics.last_stage), (1, STAGE_SEND_ERROR));
    assert_eq!(connection.answered(Err(Error::Invalid), &mut diagnostics), None);
    assert_eq!((diagnostics.engine_errors, diagnostics.last_stage), (1, STAGE_ENGINE_ERROR));

    let before = diagnostics;
    assert!(connection.receive(Received::Idle, &mut diagnostics));
    assert!(!connection.receive(Received::Closed, &mut diagnostics));
    assert_eq!(diagnostics, before);
    assert!(!connection.receive(Received::Failed, &mut diagnostics));
    assert_eq!((diagnostics.receive_errors, diagnostics.last_stage), (1, STAGE_RECEIVE_ERROR));

    let second = Connection::accept(&mut diagnostics);
    assert_eq!(second.number(), 2);
    assert_eq!((diagnostics.accepted, diagnostics.active), (2, 2));
    connection.close(&mut diagnostics);
    assert_eq!((diagnostics.accepted, diagnostics.active), (2, 1));
    assert_eq!((diagnostics.last_connection, diagnostics.last_stage), (1, STAGE_CLOSED));
    second.close(&mut diagnostics);
    assert_eq!(diagnostics.active, 0);
}

#[test]
fn short_frames_leave_the_last_header() {
    let mut diagnostics = Diagnostics::new();
    diagnostics.mark_frame(4, &frame(b"seven!!"));
    assert_eq!(diagnostics.last_api_key, 0);
    assert_eq!((diagnostics.last_connection, diagnostics.last_stage), (4, STAGE_DISPATCHING));
}

#[test]
fn heartbeats_are_due_every_four_hundred_polls() {
    let mut heartbeat = Heartbeat::new();
    let due: Vec<usize> = (1..=1000).filter(|_| heartbeat.poll()).collect();
    assert_eq!(due, [400, 800]);
}

#[test]
fn listeners_serve_poll_and_give_up() {
    let mut diagnostics = Diagnostics::new();
    let layout = SessionShardLayout::new(5, 3);
    let mut acceptor = Acceptor::new(layout);
    assert_eq!(accept_event(0, -11), AcceptEvent::Accepted);
    assert_eq!(accept_event(-11, -11), AcceptEvent::WouldBlock);
    assert_eq!(accept_event(-5, -11), AcceptEvent::Failed);

    for number in 1..20 {
        match acceptor.step(AcceptEvent::Accepted, &mut diagnostics) {
            AcceptAction::Serve { connection, shard } => {
                assert_eq!(connection.number(), number);
                assert_eq!(shard, layout.shard_for(SessionId::new(number)));
            }
            other => panic!("unexpected action: {other:?}"),
        }
    }
    assert_eq!(diagnostics.accepted, 19);
    let before = diagnostics;
    for poll in 1..=400 {
        match acceptor.step(AcceptEvent::WouldBlock, &mut diagnostics) {
            AcceptAction::Poll { heartbeat } => assert_eq!(heartbeat, poll == 400),
            other => panic!("unexpected action: {other:?}"),
        }
    }
    let mut step = |event| acceptor.step(event, &mut diagnostics);
    assert!(matches!(step(AcceptEvent::ListenFailed), AcceptAction::Reopen));
    assert!(matches!(step(AcceptEvent::Failed), AcceptAction::Abort));
    assert_eq!(diagnostics, before);
}
