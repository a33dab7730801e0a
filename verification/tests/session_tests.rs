use stablessh::pkt_buf::{to_ack_pkt, to_pkt, AckBuf, DataBuf};
use stablessh::queue::{Queue, QueueError};
use stablessh::session::{
    addr_allowed, close_reason, consume_acks, recv_frames, resume_frames, send_chunk,
    session_step, CloseReason, SessionError, SessionEvent, SessionState,
};

#[test]
fn test_send_chunk() {
    let mut q = Queue::new(8);
    let frame = send_chunk(&mut q, vec![0xaa, 0xbb]).unwrap();
    assert_eq!(frame, vec![0x00, 0x00, 0x00, 0x01, 0x00, 0x02, 0xaa, 0xbb]);
    assert_eq!(q.len(), 1);
    // The chunk stays queued until the peer acknowledges it.
    let listed = q.list(0).unwrap();
    assert_eq!(listed, vec![(1, vec![0xaa, 0xbb])]);
}

#[test]
fn test_send_chunk_queue_full() {
    let mut q = Queue::new(1);
    send_chunk(&mut q, vec![1]).unwrap();
    send_chunk(&mut q, vec![2]).unwrap();
    assert_eq!(send_chunk(&mut q, vec![3]), Err(QueueError::Full));
}

#[test]
fn test_recv_frames() {
    let mut buf = DataBuf::new();
    let mut bytes = to_pkt(1, vec![0x61]);
    bytes.extend(to_pkt(2, vec![0x62, 0x63]));
    bytes.extend(vec![0x00, 0x00]);
    let frames = recv_frames(&mut buf, bytes);
    assert_eq!(frames, vec![(1, vec![0x61]), (2, vec![0x62, 0x63])]);
    // The partial header stays buffered.
    assert_eq!(buf.buf, vec![0x00, 0x00]);
    let frames2 = recv_frames(&mut buf, vec![0x00, 0x03, 0x00, 0x00]);
    assert_eq!(frames2, vec![(3, vec![])]);
    assert_eq!(buf.buf.len(), 0);
}

#[test]
fn test_consume_acks() {
    let mut q = Queue::new(8);
    send_chunk(&mut q, vec![1]).unwrap();
    send_chunk(&mut q, vec![2]).unwrap();
    send_chunk(&mut q, vec![3]).unwrap();
    let mut abuf = AckBuf::new();
    let mut bytes = to_ack_pkt(1);
    bytes.extend(to_ack_pkt(2));
    assert_eq!(consume_acks(&mut q, &mut abuf, bytes), Ok(()));
    assert_eq!(q.len(), 1);
    assert_eq!(q.head(), 3);
}

#[test]
fn test_consume_acks_invalid() {
    // Acknowledging an identifier that is not live is a protocol
    // violation, fatal to the session.
    let mut q = Queue::new(8);
    send_chunk(&mut q, vec![1]).unwrap();
    let mut abuf = AckBuf::new();
    assert_eq!(
        consume_acks(&mut q, &mut abuf, to_ack_pkt(7)),
        Err(QueueError::InvalidAck)
    );
    // The queue is untouched by the refused acknowledgement.
    assert_eq!(q.len(), 1);
    assert_eq!(q.head(), 1);
}

#[test]
fn test_resume_frames() {
    // The server replays, in order, everything circularly after the
    // client's resume cursor.
    let mut q = Queue::new(8);
    send_chunk(&mut q, vec![0x61]).unwrap();
    send_chunk(&mut q, vec![0x62]).unwrap();
    send_chunk(&mut q, vec![0x63]).unwrap();
    let bytes = resume_frames(&q, 1).unwrap();
    let mut expected = to_pkt(2, vec![0x62]);
    expected.extend(to_pkt(3, vec![0x63]));
    assert_eq!(bytes, expected);
    // A cursor equal to the newest identifier yields nothing to replay.
    assert_eq!(resume_frames(&q, 3).unwrap(), Vec::<u8>::new());
    // A cursor outside the live range is a protocol violation.
    assert_eq!(resume_frames(&q, 7), Err(QueueError::InvalidCursor));
}

#[test]
fn test_resume_after_drop() {
    // The client pushed chunks a, b, c; the server delivered and
    // acknowledged a before the transport died.
    let mut q = Queue::new(32);
    send_chunk(&mut q, vec![0x61]).unwrap();
    send_chunk(&mut q, vec![0x62]).unwrap();
    send_chunk(&mut q, vec![0x63]).unwrap();
    consume_acks(&mut q, &mut AckBuf::new(), to_ack_pkt(1)).unwrap();

    // On reconnect the server sends resume cursor 1; the client replays
    // b and c from its queue.
    let replay = resume_frames(&q, 1).unwrap();
    let mut server_buf = DataBuf::new();
    let delivered = recv_frames(&mut server_buf, replay);
    assert_eq!(delivered, vec![(2, vec![0x62]), (3, vec![0x63])]);

    // The server delivers b and c and acknowledges 2, then 3; the client
    // queue drains.
    let mut acks = to_ack_pkt(2);
    acks.extend(to_ack_pkt(3));
    consume_acks(&mut q, &mut AckBuf::new(), acks).unwrap();
    assert_eq!(q.len(), 0);
    assert_eq!(q.head(), 4);
}

#[test]
fn test_close_reason() {
    assert_eq!(close_reason(&SessionError::ApplicationClosed), CloseReason::Done);
    assert_eq!(close_reason(&SessionError::TimedOut), CloseReason::Retry);
    assert_eq!(close_reason(&SessionError::ConnectionLost), CloseReason::Retry);
    assert_eq!(close_reason(&SessionError::Handshake), CloseReason::Retry);
    assert_eq!(close_reason(&SessionError::Resolve), CloseReason::Fatal);
    assert_eq!(close_reason(&SessionError::QueueFull), CloseReason::Fatal);
    assert_eq!(close_reason(&SessionError::InvalidAck), CloseReason::Fatal);
    assert_eq!(close_reason(&SessionError::InvalidCursor), CloseReason::Fatal);
    assert_eq!(close_reason(&SessionError::LocalIo), CloseReason::Fatal);
}

#[test]
fn test_session_step() {
    let s0 = SessionState::Dialing;
    let s1 = session_step(s0, SessionEvent::Connected);
    assert_eq!(s1, SessionState::QuicHandshake);
    let s2 = session_step(s1, SessionEvent::Established);
    assert_eq!(s2, SessionState::Handshake);
    let s3 = session_step(s2, SessionEvent::CursorsExchanged);
    assert_eq!(s3, SessionState::Streaming);
    assert_eq!(
        session_step(s3, SessionEvent::StreamsDone),
        SessionState::Closed(CloseReason::Done)
    );
    // A transport loss mid-stream closes the session for a retry.
    assert_eq!(
        session_step(s3, SessionEvent::Failed(SessionError::ConnectionLost)),
        SessionState::Closed(CloseReason::Retry)
    );
    // A closed session stays closed.
    assert_eq!(
        session_step(SessionState::Closed(CloseReason::Fatal), SessionEvent::Connected),
        SessionState::Closed(CloseReason::Fatal)
    );
    // An event that does not belong to the state changes nothing.
    assert_eq!(session_step(s0, SessionEvent::CursorsExchanged), s0);
}

#[test]
fn test_addr_allowed() {
    assert!(addr_allowed(false, false, true));
    assert!(addr_allowed(false, false, false));
    assert!(addr_allowed(true, false, true));
    assert!(!addr_allowed(true, false, false));
    assert!(!addr_allowed(false, true, true));
    assert!(addr_allowed(false, true, false));
    // When both restrictions are given, the v4 one wins.
    assert!(addr_allowed(true, true, true));
    assert!(!addr_allowed(true, true, false));
}
