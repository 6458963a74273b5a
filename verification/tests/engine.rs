use amp_async::codecs::{Dec, Version};
use amp_async::error::{Error, RemoteError};
use amp_async::frame::{Frame, RawFrame};
use amp_async::server::{
    handle_request, remote_result, Builder, Dispatcher, LoopState, NoopDispatcher, ReadAction, ReadEvent, ReadLoop,
    ReadOutcome, ReplyTicket, State, WriteAction, WriteCmd, WriteLoop, QUEUE_DEPTH,
};
use bytes::BytesMut;

fn raw(pairs: &[(&str, &str)]) -> RawFrame {
    pairs.iter().map(|(k, v)| (k.as_bytes().to_vec(), v.as_bytes().to_vec())).collect()
}

fn decode(bytes: &[u8]) -> RawFrame {
    let mut buf = BytesMut::from(bytes);
    let frame = Dec::new().decode(&mut buf).unwrap().unwrap();
    assert_eq!(buf.len(), 0);
    frame
}

fn request(command: &str, fields: RawFrame, reply: bool) -> WriteCmd {
    WriteCmd::Request { command: command.into(), fields, reply }
}

fn emitted(action: WriteAction) -> (Option<u64>, Vec<u8>) {
    match action {
        WriteAction::Emit { expect, frame } => (expect, frame),
        other => panic!("not emitted: {:?}", other),
    }
}

#[test]
fn queues_hold_32_messages() {
    assert_eq!(QUEUE_DEPTH, 32);
}

#[test]
fn remote_error_defaults() {
    let e = RemoteError::new(Some("UNHANDLED"), None);
    assert_eq!(e.code, "UNHANDLED");
    assert_eq!(e.description, "");
    let e = RemoteError::new(None, Some("why"));
    assert_eq!(e.code, "UNKNOWN");
    assert_eq!(e.description, "why");
}

#[test]
fn noop_dispatcher_handles_nothing() {
    let d = NoopDispatcher;
    assert_eq!(d.dispatch("Sum", Vec::new()), Err(RemoteError::new(Some("UNHANDLED"), None)));
    d.dispatch_noreply("Sum", Vec::new());
}

struct Summing;

impl Dispatcher for Summing {
    fn dispatch(&self, command: &str, frame: RawFrame) -> Result<RawFrame, RemoteError> {
        if command != "Sum" {
            return Err(RemoteError::new(Some("UNHANDLED"), None));
        }
        let mut total: i64 = 0;
        for (_, value) in frame {
            let mut scope =
                amp_async::de::Deserializer::from_bytes(bytes::Bytes::from(value), Version::V1);
            total += scope
                .deserialize_i64()
                .map_err(|_| RemoteError::new(Some("BAD_NUMBER"), Some("not a number")))?;
        }
        let mut text = Vec::new();
        amp_async::number::push_integer(total, &mut text);
        Ok(vec![(b"total".to_vec(), text)])
    }

    fn dispatch_noreply(&self, _command: &str, _frame: RawFrame) {}
}

#[test]
fn requests_are_handled_and_answered() {
    let ticket = || Some(ReplyTicket { tag: b"23".to_vec(), version: Version::V1 });
    let frame = handle_request(&Summing, "Sum", raw(&[("a", "13"), ("b", "81")]), ticket())
        .unwrap()
        .unwrap();
    assert_eq!(
        Frame::try_from(decode(&frame)).unwrap(),
        Frame::OkResponse { tag: b"23".to_vec(), fields: raw(&[("total", "94")]) }
    );
    let frame = handle_request(&Summing, "Sum", raw(&[("a", "x")]), ticket()).unwrap().unwrap();
    assert_eq!(
        Frame::try_from(decode(&frame)).unwrap(),
        Frame::ErrorResponse {
            tag: b"23".to_vec(),
            code: b"BAD_NUMBER".to_vec(),
            description: b"not a number".to_vec(),
        }
    );
    let frame = handle_request(&NoopDispatcher, "Sum", Vec::new(), ticket()).unwrap().unwrap();
    assert_eq!(
        Frame::try_from(decode(&frame)).unwrap(),
        Frame::ErrorResponse { tag: b"23".to_vec(), code: b"UNHANDLED".to_vec(), description: vec![] }
    );
    assert_eq!(handle_request(&Summing, "Sum", raw(&[("a", "1")]), None).unwrap(), None);
}

#[test]
fn builder_carries_version_and_dispatcher() {
    let b = Builder::default();
    assert_eq!(b.version, Version::V1);
    let b = b.version2();
    assert_eq!(b.version, Version::V2);
    let b = b.dispatcher(7u8);
    assert_eq!(b.version, Version::V2);
    assert_eq!(b.dispatcher, 7);
}

#[test]
fn shutdown_closes_the_connection_step_by_step() {
    let mut loops = LoopState::new();
    let mut read: ReadLoop<u8> = ReadLoop::new(Version::V1);
    let mut write = WriteLoop::new(Version::V1);
    assert_eq!(loops.state(), State::Connected);
    // the read loop is told to shut down: it tells the write loop and ends
    assert!(matches!(read.on_event(ReadEvent::Shutdown), ReadOutcome::Finish));
    loops.read_finished();
    assert_eq!(loops.state(), State::Closing);
    assert!(matches!(write.step(WriteCmd::Exit), WriteAction::Stop));
    loops.write_finished();
    assert_eq!(loops.state(), State::Closed);
    loops.read_finished();
    assert_eq!(loops.state(), State::Closed);
}

#[test]
fn the_read_loop_reacts_to_its_events() {
    let mut read: ReadLoop<u8> = ReadLoop::new(Version::V1);
    assert!(matches!(read.on_event(ReadEvent::Expect { tag: 3, slot: 7 }), ReadOutcome::Confirm));
    assert!(read.awaits(3));
    assert!(matches!(read.on_event(ReadEvent::Handled(Ok(()))), ReadOutcome::Continue));
    assert!(matches!(
        read.on_event(ReadEvent::Frame(raw(&[("_answer", "3"), ("k", "v")]))),
        ReadOutcome::Act(ReadAction::Deliver { slot: 7, response: Ok(_) })
    ));
    assert!(matches!(
        read.on_event(ReadEvent::Frame(raw(&[("_command", "Sum")]))),
        ReadOutcome::Act(ReadAction::Dispatch { .. })
    ));
    assert!(matches!(
        read.on_event(ReadEvent::Frame(raw(&[("_answer", "3")]))),
        ReadOutcome::Abort(Error::UnmatchedReply)
    ));
    assert!(matches!(
        read.on_event(ReadEvent::Handled(Err(Error::SendError))),
        ReadOutcome::Abort(Error::SendError)
    ));
    assert!(matches!(read.on_event(ReadEvent::EndOfInput), ReadOutcome::Finish));
    assert!(matches!(read.on_event(ReadEvent::ExpectClosed), ReadOutcome::End));
}

#[test]
fn the_end_of_the_read_loop_lets_every_slot_go() {
    for event in [
        ReadEvent::Shutdown,
        ReadEvent::EndOfInput,
        ReadEvent::ExpectClosed,
        ReadEvent::Handled(Err(Error::SendError)),
        ReadEvent::Frame(raw(&[("x", "y")])),
    ] {
        let mut read: ReadLoop<u8> = ReadLoop::new(Version::V1);
        read.expect(1, 0);
        read.expect(2, 0);
        read.on_event(event);
        assert!(!read.awaits(1));
        assert!(!read.awaits(2));
    }
    let mut read: ReadLoop<u8> = ReadLoop::new(Version::V1);
    read.expect(1, 0);
    read.on_event(ReadEvent::Handled(Ok(())));
    assert!(read.awaits(1));
    read.release();
    assert!(!read.awaits(1));
}

#[test]
fn state_follows_the_loops() {
    let mut loops = LoopState::new();
    assert_eq!(loops.state(), State::Connected);
    loops.read_done = true;
    assert_eq!(loops.state(), State::Closing);
    loops.write_done = true;
    assert_eq!(loops.state(), State::Closed);
    let loops = LoopState { read_done: false, write_done: true };
    assert_eq!(loops.state(), State::Closing);
}

#[test]
fn sequential_requests_get_tags_one_to_n() {
    let mut write = WriteLoop::new(Version::V1);
    let mut tags = Vec::new();
    for i in 1..=20u64 {
        assert!(write.tags_left());
        let (expect, frame) = emitted(write.step(request("Sum", raw(&[("a", "1")]), true)));
        assert_eq!(expect, Some(i));
        match Frame::try_from(decode(&frame)).unwrap() {
            Frame::Request { command, tag, fields } => {
                assert_eq!(command, b"Sum".to_vec());
                assert_eq!(fields, raw(&[("a", "1")]));
                tags.push(tag.unwrap());
            }
            other => panic!("not a request: {:?}", other),
        }
    }
    let expected: Vec<Vec<u8>> = [
        "1", "2", "3", "4", "5", "6", "7", "8", "9", "a", "b", "c", "d", "e", "f", "10", "11",
        "12", "13", "14",
    ]
    .iter()
    .map(|t| t.as_bytes().to_vec())
    .collect();
    assert_eq!(tags, expected);
}

#[test]
fn fire_and_forget_has_no_tag() {
    let mut write = WriteLoop::new(Version::V1);
    let (expect, frame) = emitted(write.step(request("Log", raw(&[("m", "hi")]), false)));
    assert_eq!(expect, None);
    assert_eq!(frame, b"\x00\x08_command\x00\x03Log\x00\x01m\x00\x02hi\x00\x00".to_vec());
    // the counter did not move: the next tagged request is number one
    let (expect, _) = emitted(write.step(request("Sum", Vec::new(), true)));
    assert_eq!(expect, Some(1));
}

#[test]
fn replies_pass_through_and_exit_stops() {
    let mut write = WriteLoop::new(Version::V2);
    let (expect, frame) = emitted(write.step(WriteCmd::Reply(vec![1, 2, 3])));
    assert_eq!((expect, frame), (None, vec![1, 2, 3]));
    assert!(matches!(write.step(WriteCmd::Exit), WriteAction::Stop));
}

#[test]
fn a_request_that_cannot_be_framed_fails() {
    let mut write = WriteLoop::new(Version::V1);
    let action = write.step(request("Sum", vec![(Vec::new(), Vec::new())], true));
    assert!(matches!(
        action,
        WriteAction::Fail { expect: Some(1), error: Error::Serde(amp_async::types::Error::EmptyKey) }
    ));
    let action = write.step(request("Sum", vec![(b"v".to_vec(), vec![0u8; 65536])], false));
    assert!(matches!(
        action,
        WriteAction::Fail { expect: None, error: Error::Serde(amp_async::types::Error::ValueTooLong) }
    ));
}

#[test]
fn the_wire_keeps_the_order_of_the_commands() {
    let mut write = WriteLoop::new(Version::V1);
    let mut wire = Vec::new();
    wire.extend(emitted(write.step(request("First", Vec::new(), true))).1);
    wire.extend(emitted(write.step(request("Second", Vec::new(), true))).1);
    let mut buf = BytesMut::from(&wire[..]);
    let mut dec = Dec::new();
    let first = Frame::try_from(dec.decode(&mut buf).unwrap().unwrap()).unwrap();
    let second = Frame::try_from(dec.decode(&mut buf).unwrap().unwrap()).unwrap();
    assert_eq!(
        first,
        Frame::Request { command: b"First".to_vec(), tag: Some(b"1".to_vec()), fields: vec![] }
    );
    assert_eq!(
        second,
        Frame::Request { command: b"Second".to_vec(), tag: Some(b"2".to_vec()), fields: vec![] }
    );
}

#[test]
fn an_instant_reply_is_matched() {
    let mut write = WriteLoop::new(Version::V1);
    let mut read: ReadLoop<&str> = ReadLoop::new(Version::V1);
    for _ in 0..40 {
        let (expect, frame) = emitted(write.step(request("Sum", Vec::new(), true)));
        let tag = expect.unwrap();
        // the read loop installs the slot before the frame goes out
        read.expect(tag, "slot");
        assert!(read.awaits(tag));
        let sent = match Frame::try_from(decode(&frame)).unwrap() {
            Frame::Request { tag, .. } => tag.unwrap(),
            other => panic!("not a request: {:?}", other),
        };
        // the peer answers at once
        let reply = vec![(b"_answer".to_vec(), sent), (b"total".to_vec(), b"444".to_vec())];
        match read.dispatch_frame(reply).unwrap() {
            ReadAction::Deliver { slot, response } => {
                assert_eq!(slot, "slot");
                assert_eq!(response, Ok(raw(&[("total", "444")])));
            }
            other => panic!("not delivered: {:?}", other),
        }
        assert!(!read.awaits(tag));
    }
}

#[test]
fn a_reply_is_delivered_once() {
    let mut read: ReadLoop<u8> = ReadLoop::new(Version::V1);
    read.expect(0x1f, 9);
    assert!(matches!(
        read.dispatch_frame(raw(&[("_answer", "1e")])),
        Err(Error::UnmatchedReply)
    ));
    assert!(matches!(
        read.dispatch_frame(raw(&[("_answer", "zz")])),
        Err(Error::UnmatchedReply)
    ));
    assert!(read.awaits(0x1f));
    assert!(matches!(
        read.dispatch_frame(raw(&[("_answer", "1F")])),
        Ok(ReadAction::Deliver { slot: 9, response: Ok(_) })
    ));
    assert!(matches!(
        read.dispatch_frame(raw(&[("_answer", "1f")])),
        Err(Error::UnmatchedReply)
    ));
}

#[test]
fn end_to_end_sum() {
    let mut write = WriteLoop::new(Version::V1);
    let mut read: ReadLoop<u8> = ReadLoop::new(Version::V1);
    let (expect, frame) = emitted(write.step(request("Sum", raw(&[("a", "123"), ("b", "321")]), true)));
    read.expect(expect.unwrap(), 0);
    assert_eq!(
        frame,
        b"\x00\x04_ask\x00\x011\x00\x08_command\x00\x03Sum\x00\x01a\x00\x03123\x00\x01b\x00\x03321\x00\x00"
            .to_vec()
    );
    let reply = decode(b"\x00\x07_answer\x00\x011\x00\x05total\x00\x03444\x00\x00");
    let response = match read.dispatch_frame(reply).unwrap() {
        ReadAction::Deliver { response, .. } => response,
        other => panic!("not delivered: {:?}", other),
    };
    let fields = remote_result(response).unwrap();
    assert_eq!(fields, raw(&[("total", "444")]));
    let mut total = amp_async::de::Deserializer::from_bytes(
        bytes::Bytes::from(fields[0].1.clone()),
        Version::V1,
    );
    assert_eq!(total.deserialize_i64().unwrap(), 444);
}

#[test]
fn remote_errors_reach_the_caller() {
    let mut read: ReadLoop<u8> = ReadLoop::new(Version::V1);
    read.expect(1, 0);
    let reply =
        raw(&[("_error", "1"), ("_error_code", "OVERFLOW"), ("_error_description", "too big")]);
    let response = match read.dispatch_frame(reply).unwrap() {
        ReadAction::Deliver { response, .. } => response,
        other => panic!("not delivered: {:?}", other),
    };
    match remote_result(response) {
        Err(Error::Remote(e)) => {
            assert_eq!(e.code, "OVERFLOW");
            assert_eq!(e.description, "too big");
        }
        other => panic!("no remote error: {:?}", other),
    }
}

#[test]
fn inbound_requests_get_a_ticket_when_tagged() {
    let mut read: ReadLoop<u8> = ReadLoop::new(Version::V2);
    let frame = decode(&[
        0x00, 0x04, 0x5F, 0x61, 0x73, 0x6B, 0x00, 0x02, 0x32, 0x33, 0x00, 0x08, 0x5F, 0x63, 0x6F,
        0x6D, 0x6D, 0x61, 0x6E, 0x64, 0x00, 0x03, 0x53, 0x75, 0x6D, 0x00, 0x01, 0x61, 0x00, 0x02,
        0x31, 0x33, 0x00, 0x01, 0x62, 0x00, 0x02, 0x38, 0x31, 0x00, 0x00,
    ]);
    match read.dispatch_frame(frame).unwrap() {
        ReadAction::Dispatch { command, fields, ticket } => {
            assert_eq!(command, "Sum");
            assert_eq!(fields, raw(&[("a", "13"), ("b", "81")]));
            assert_eq!(ticket, Some(ReplyTicket { tag: b"23".to_vec(), version: Version::V2 }));
        }
        other => panic!("not dispatched: {:?}", other),
    }
    match read.dispatch_frame(raw(&[("_command", "Log")])).unwrap() {
        ReadAction::Dispatch { ticket, .. } => assert_eq!(ticket, None),
        other => panic!("not dispatched: {:?}", other),
    }
}

#[test]
fn invalid_text_is_fatal() {
    let mut read: ReadLoop<u8> = ReadLoop::new(Version::V1);
    let frame = vec![(b"_command".to_vec(), vec![0xff, 0xfe])];
    assert!(matches!(read.dispatch_frame(frame), Err(Error::InvalidUtf8(_))));
    read.expect(1, 0);
    let frame = vec![
        (b"_error".to_vec(), b"1".to_vec()),
        (b"_error_code".to_vec(), vec![0xff]),
        (b"_error_description".to_vec(), Vec::new()),
    ];
    assert!(matches!(read.dispatch_frame(frame), Err(Error::InvalidUtf8(_))));
    assert!(read.awaits(1));
    assert!(matches!(read.dispatch_frame(raw(&[("x", "y")])), Err(Error::ConfusedFrame)));
    assert!(matches!(
        read.dispatch_frame(raw(&[("_error", "1")])),
        Err(Error::IncompleteErrorFrame)
    ));
}

#[test]
fn a_dropped_ticket_answers_with_an_error() {
    let ticket = ReplyTicket { tag: b"23".to_vec(), version: Version::V1 };
    let frame = ticket.dropped().unwrap();
    assert_eq!(
        Frame::try_from(decode(&frame)).unwrap(),
        Frame::ErrorResponse {
            tag: b"23".to_vec(),
            code: b"UNKNOWN".to_vec(),
            description: b"Request dropped without reply".to_vec(),
        }
    );
}

#[test]
fn tickets_answer_once_with_what_they_are_given() {
    let ticket = ReplyTicket { tag: b"7".to_vec(), version: Version::V1 };
    let frame = ticket.ok(raw(&[("total", "94")])).unwrap();
    assert_eq!(frame, b"\x00\x07_answer\x00\x017\x00\x05total\x00\x0294\x00\x00".to_vec());

    let ticket = ReplyTicket { tag: b"7".to_vec(), version: Version::V1 };
    let frame = ticket.error(None, None).unwrap();
    assert_eq!(
        Frame::try_from(decode(&frame)).unwrap(),
        Frame::ErrorResponse { tag: b"7".to_vec(), code: b"UNKNOWN".to_vec(), description: vec![] }
    );

    let ticket = ReplyTicket { tag: b"7".to_vec(), version: Version::V1 };
    let frame = ticket.error(Some("UNHANDLED".into()), Some("no such command".into())).unwrap();
    assert_eq!(
        Frame::try_from(decode(&frame)).unwrap(),
        Frame::ErrorResponse {
            tag: b"7".to_vec(),
            code: b"UNHANDLED".to_vec(),
            description: b"no such command".to_vec(),
        }
    );

    let ticket = ReplyTicket { tag: b"7".to_vec(), version: Version::V1 };
    let frame = ticket.answer(NoopDispatcher.dispatch("Sum", Vec::new())).unwrap();
    assert_eq!(
        Frame::try_from(decode(&frame)).unwrap(),
        Frame::ErrorResponse { tag: b"7".to_vec(), code: b"UNHANDLED".to_vec(), description: vec![] }
    );
    let ticket = ReplyTicket { tag: b"7".to_vec(), version: Version::V1 };
    let frame = ticket.answer(Ok(raw(&[("k", "v")]))).unwrap();
    assert_eq!(
        Frame::try_from(decode(&frame)).unwrap(),
        Frame::OkResponse { tag: b"7".to_vec(), fields: raw(&[("k", "v")]) }
    );

    let ticket = ReplyTicket { tag: b"7".to_vec(), version: Version::V1 };
    assert!(matches!(
        ticket.ok(vec![(b"big".to_vec(), vec![0u8; 65536])]),
        Err(Error::Serde(amp_async::types::Error::ValueTooLong))
    ));
}
