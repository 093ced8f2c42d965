use chathub::codec::encode;
use chathub::envelope::{Envelope, Kind, Payload};
use chathub::session::{Frame, FrameOutcome, Server};

fn chars(s: &str) -> Vec<char> {
    s.chars().collect()
}

fn text(v: &[char]) -> String {
    v.iter().collect()
}

fn payload_str(p: &Payload) -> String {
    match p {
        Payload::Text(t) => text(t),
        Payload::Data(d) => text(d),
    }
}

fn wire(kind: Kind, sender: usize, content: &str) -> Frame {
    Frame::Text(encode(&Envelope { kind, sender, content: Payload::Text(chars(content)) }))
}

fn connect(server: &mut Server) -> (usize, Envelope) {
    let admitted = server.try_connect().expect("admitted");
    server.announce_count();
    admitted
}

fn drain(server: &mut Server, id: usize) -> Vec<Envelope> {
    let mut out = Vec::new();
    while let Some(e) = server.hub.pop_pending(id) {
        out.push(e);
    }
    out
}

#[test]
fn connect_assigns_ids_and_announces_counts() {
    let mut server = Server::new(3, 32);
    let (id1, ident1) = connect(&mut server);
    assert_eq!(id1, 1);
    assert_eq!(ident1.kind, Kind::Identity);
    assert_eq!(ident1.sender, 0);
    assert_eq!(payload_str(&ident1.content), "1");
    let (id2, ident2) = connect(&mut server);
    assert_eq!(id2, 2);
    assert_eq!(payload_str(&ident2.content), "2");
    assert_eq!(server.hub.get_user_count(), 2);
    // the first participant has both count announcements queued, in order
    let pending = drain(&mut server, 1);
    let counts: Vec<String> = pending.iter().map(|e| payload_str(&e.content)).collect();
    assert_eq!(counts, vec!["1".to_string(), "2".to_string()]);
    assert!(pending.iter().all(|e| e.kind == Kind::ParticipantCount && e.sender == 0));
    // the newcomer sees only the count from its own arrival
    let pending2 = drain(&mut server, 2);
    assert_eq!(pending2.len(), 1);
    assert_eq!(payload_str(&pending2[0].content), "2");
}

#[test]
fn chat_reaches_everyone_and_the_log() {
    let mut server = Server::new(3, 32);
    for _ in 0..3 {
        connect(&mut server);
    }
    drain(&mut server, 1);
    drain(&mut server, 2);
    drain(&mut server, 3);
    let before = server.log.len();
    let outcome = server.handle_frame(2, wire(Kind::Chat, 2, "hi"));
    assert!(matches!(outcome, FrameOutcome::Proceed));
    for id in [1, 2, 3] {
        let got = drain(&mut server, id);
        assert_eq!(got.len(), 1, "participant {id} got the message");
        assert_eq!(got[0].kind, Kind::Chat);
        assert_eq!(got[0].sender, 2);
        assert_eq!(payload_str(&got[0].content), "hi");
    }
    assert_eq!(server.log.len(), before + 1);
    let transcript = server.log.snapshot();
    assert_eq!(text(transcript.last().expect("one entry")), "hi");
}

#[test]
fn fourth_connection_is_rejected() {
    let mut server = Server::new(3, 32);
    for _ in 0..3 {
        connect(&mut server);
    }
    let err = server.try_connect().expect_err("over capacity");
    assert_eq!(err.kind, Kind::Error);
    assert_eq!(err.sender, 0);
    assert_eq!(payload_str(&err.content), "Maximum number of users reached: 3");
    assert_eq!(server.hub.get_user_count(), 3);
    assert_eq!(server.next_id, 4, "no id was consumed for the rejected peer");
}

#[test]
fn disconnect_decrements_and_announces() {
    let mut server = Server::new(3, 32);
    for _ in 0..3 {
        connect(&mut server);
    }
    drain(&mut server, 1);
    drain(&mut server, 2);
    drain(&mut server, 3);
    let announced = server.disconnect(2);
    assert_eq!(announced.kind, Kind::ParticipantCount);
    assert_eq!(payload_str(&announced.content), "2");
    assert_eq!(server.hub.get_user_count(), 2);
    assert!(!server.hub.contains(2));
    for id in [1, 3] {
        let got = drain(&mut server, id);
        assert_eq!(got.len(), 1);
        assert_eq!(got[0].kind, Kind::ParticipantCount);
        assert_eq!(payload_str(&got[0].content), "2");
    }
}

#[test]
fn disconnected_id_is_never_reused() {
    let mut server = Server::new(3, 32);
    let (id1, _) = connect(&mut server);
    server.disconnect(id1);
    let (id2, _) = connect(&mut server);
    assert_eq!(id1, 1);
    assert_eq!(id2, 2);
}

#[test]
fn echo_local_is_rewritten_to_sender() {
    let mut server = Server::new(3, 32);
    let (id, _) = connect(&mut server);
    let outcome = server.handle_frame(id, wire(Kind::EchoLocal, 0, "just me"));
    match outcome {
        FrameOutcome::Reply(e) => {
            assert_eq!(e.kind, Kind::EchoLocal);
            assert_eq!(e.sender, id);
            assert_eq!(payload_str(&e.content), "just me");
        },
        _ => panic!("expected a direct reply"),
    }
}

#[test]
fn info_is_ignored() {
    let mut server = Server::new(3, 32);
    let (id, _) = connect(&mut server);
    let before = server.log.len();
    let outcome = server.handle_frame(id, wire(Kind::Info, id, "fyi"));
    assert!(matches!(outcome, FrameOutcome::Proceed));
    assert_eq!(server.log.len(), before);
}

#[test]
fn protocol_violations_stop_the_connection() {
    let mut server = Server::new(3, 32);
    let (id, _) = connect(&mut server);
    assert!(matches!(server.handle_frame(id, Frame::Binary), FrameOutcome::Stop));
    assert!(matches!(server.handle_frame(id, Frame::Text(chars("not json"))), FrameOutcome::Stop));
    assert!(matches!(
        server.handle_frame(id, wire(Kind::ParticipantCount, 0, "9")),
        FrameOutcome::Stop
    ));
    assert!(matches!(server.handle_frame(id, Frame::Close), FrameOutcome::Stop));
    assert!(matches!(server.handle_frame(id, Frame::Control), FrameOutcome::Proceed));
}

#[test]
fn exhausted_id_space_rejects_like_capacity() {
    let mut server = Server::new(3, 32);
    server.next_id = usize::MAX;
    let err = server.try_connect().expect_err("no ids left");
    assert_eq!(err.kind, Kind::Error);
    assert_eq!(server.hub.get_user_count(), 0);
    assert_eq!(server.next_id, usize::MAX);
}

#[test]
fn empty_chat_content_is_delivered() {
    let mut server = Server::new(2, 32);
    connect(&mut server);
    connect(&mut server);
    drain(&mut server, 1);
    drain(&mut server, 2);
    let outcome = server.handle_frame(1, wire(Kind::Chat, 1, ""));
    assert!(matches!(outcome, FrameOutcome::Proceed));
    let got = drain(&mut server, 2);
    assert_eq!(got.len(), 1);
    assert_eq!(got[0].content, Payload::Text(Vec::<char>::new()));
    assert_eq!(server.log.len(), 1);
}

#[test]
fn full_queue_drops_silently_and_chat_is_still_logged() {
    let mut server = Server::new(2, 1);
    connect(&mut server);
    connect(&mut server);
    // participant 1 still has a count envelope queued, so its queue of
    // capacity one is full and the chat is dropped for it alone
    drain(&mut server, 2);
    let before = server.log.len();
    let outcome = server.handle_frame(2, wire(Kind::Chat, 2, "hi"));
    assert!(matches!(outcome, FrameOutcome::Proceed), "a drop is not an error");
    let kept = drain(&mut server, 1);
    assert_eq!(kept.len(), 1, "the older envelope is still queued");
    assert_eq!(kept[0].kind, Kind::ParticipantCount);
    let got = drain(&mut server, 2);
    assert_eq!(got.len(), 1, "the other participant still got the chat");
    assert_eq!(got[0].kind, Kind::Chat);
    assert_eq!(server.log.len(), before + 1, "the transcript gained the message");
    assert_eq!(text(server.log.snapshot().last().expect("entry")), "hi");
}

#[test]
fn chat_with_structured_content_is_a_violation() {
    let mut server = Server::new(2, 32);
    connect(&mut server);
    connect(&mut server);
    drain(&mut server, 1);
    drain(&mut server, 2);
    let before = server.log.len();
    let frame = Frame::Text(chars(r#"{"type":"message","id":1,"content":{"k":1}}"#));
    let outcome = server.handle_frame(1, frame);
    assert!(matches!(outcome, FrameOutcome::Stop));
    assert_eq!(server.log.len(), before);
    assert_eq!(drain(&mut server, 2).len(), 0, "nothing was broadcast");
}

#[test]
fn info_with_structured_content_is_ignored() {
    let mut server = Server::new(2, 32);
    let (id, _) = connect(&mut server);
    let frame = Frame::Text(chars(r#"{"type":"info","id":1,"content":[1,2,3]}"#));
    let outcome = server.handle_frame(id, frame);
    assert!(matches!(outcome, FrameOutcome::Proceed));
}
