//! Per-session decision logic.
//!
//! A session is one QUIC connection lifetime.  The asynchronous drivers
//! around the library read and write the actual streams; every decision
//! they take — what a read chunk becomes on the wire, what decoded frames
//! and acknowledgements do to the queue, what to replay on resume, and how
//! a session ends — is a function here, from plain values to plain values.

use vstd::prelude::*;
use crate::pkt_buf::{
    ack_rest,
    ack_ready,
    ack_id,
    data_frame_ready,
    frame_id,
    frame_payload,
    frame_rest,
    spec_data_frame,
    to_pkt,
    AckBuf,
    DataBuf,
};
use crate::queue::{check_seq, checks_ok, lemma_check_seq_push, Queue, QueueError, QueueView};

verus! {

/// Everything that can end a session, as the drivers report it.
#[derive(Debug, PartialEq, Eq, Structural, Clone, Copy)]
pub enum SessionError {
    /// Target name resolution failed at startup.
    Resolve,
    /// The TLS or ALPN handshake was refused.
    Handshake,
    /// The transport's idle timeout expired.
    TimedOut,
    /// The QUIC connection was lost mid-session.
    ConnectionLost,
    /// The peer closed the connection cleanly.
    ApplicationClosed,
    /// The local producer outran the acknowledgement window.
    QueueFull,
    /// The peer acknowledged an identifier that is not live.
    InvalidAck,
    /// The peer asked to resume from an impossible cursor.
    InvalidCursor,
    /// The local reader, writer or upstream socket failed.
    LocalIo,
}

/// How a session ends: cleanly, with a reconnect, or for good.
#[derive(Debug, PartialEq, Eq, Structural, Clone, Copy)]
pub enum CloseReason {
    /// Clean shutdown; the client returns success.
    Done,
    /// Transient transport loss; the client reconnects and resumes.
    Retry,
    /// Protocol violation or local failure; no retry.
    Fatal,
}

/// How each kind of session error is classified.
pub open spec fn spec_close_reason(e: SessionError) -> CloseReason {
    match e {
        SessionError::ApplicationClosed => CloseReason::Done,
        SessionError::TimedOut => CloseReason::Retry,
        SessionError::ConnectionLost => CloseReason::Retry,
        SessionError::Handshake => CloseReason::Retry,
        SessionError::Resolve => CloseReason::Fatal,
        SessionError::QueueFull => CloseReason::Fatal,
        SessionError::InvalidAck => CloseReason::Fatal,
        SessionError::InvalidCursor => CloseReason::Fatal,
        SessionError::LocalIo => CloseReason::Fatal,
    }
}

/// Classifies a session error: a clean peer close counts as success,
/// transport loss and refused handshakes are retried, and everything else
/// is fatal.
pub fn close_reason(e: &SessionError) -> (r: CloseReason)
    ensures
        r == spec_close_reason(*e),
{
    match e {
        SessionError::ApplicationClosed => CloseReason::Done,
        SessionError::TimedOut => CloseReason::Retry,
        SessionError::ConnectionLost => CloseReason::Retry,
        SessionError::Handshake => CloseReason::Retry,
        SessionError::Resolve => CloseReason::Fatal,
        SessionError::QueueFull => CloseReason::Fatal,
        SessionError::InvalidAck => CloseReason::Fatal,
        SessionError::InvalidCursor => CloseReason::Fatal,
        SessionError::LocalIo => CloseReason::Fatal,
    }
}

/// The states a session passes through.
#[derive(Debug, PartialEq, Eq, Structural, Clone, Copy)]
pub enum SessionState {
    /// Resolving and connecting to a target address.
    Dialing,
    /// Waiting for the QUIC and TLS handshake.
    QuicHandshake,
    /// Exchanging resume cursors on the two streams.
    Handshake,
    /// The pipes and the acknowledgement consumer are running.
    Streaming,
    /// The session is over, with the reason recorded.
    Closed(CloseReason),
}

/// What the drivers report back into the state machine.
#[derive(Debug, PartialEq, Eq, Structural, Clone, Copy)]
pub enum SessionEvent {
    /// A transport connection attempt succeeded.
    Connected,
    /// The QUIC and TLS handshake completed.
    Established,
    /// Both resume cursors were exchanged.
    CursorsExchanged,
    /// The streaming tasks finished cleanly (local end of stream).
    StreamsDone,
    /// Something ended the session.
    Failed(SessionError),
}

/// The session state machine: Dialing, QUIC handshake, cursor exchange,
/// streaming, closed.  Any failure closes the session with the error's
/// classification; a closed session stays closed; an event that does not
/// belong to the current state changes nothing.
pub open spec fn spec_session_step(s: SessionState, ev: SessionEvent) -> SessionState {
    match (s, ev) {
        (SessionState::Closed(r), _) => SessionState::Closed(r),
        (_, SessionEvent::Failed(e)) => SessionState::Closed(spec_close_reason(e)),
        (SessionState::Dialing, SessionEvent::Connected) => SessionState::QuicHandshake,
        (SessionState::QuicHandshake, SessionEvent::Established) => SessionState::Handshake,
        (SessionState::Handshake, SessionEvent::CursorsExchanged) => SessionState::Streaming,
        (SessionState::Streaming, SessionEvent::StreamsDone) => SessionState::Closed(
            CloseReason::Done,
        ),
        (other, _) => other,
    }
}

/// Advances the session state machine by one observed event.
pub fn session_step(s: SessionState, ev: SessionEvent) -> (r: SessionState)
    ensures
        r == spec_session_step(s, ev),
{
    match (s, ev) {
        (SessionState::Closed(r), _) => SessionState::Closed(r),
        (_, SessionEvent::Failed(e)) => SessionState::Closed(close_reason(&e)),
        (SessionState::Dialing, SessionEvent::Connected) => SessionState::QuicHandshake,
        (SessionState::QuicHandshake, SessionEvent::Established) => SessionState::Handshake,
        (SessionState::Handshake, SessionEvent::CursorsExchanged) => SessionState::Streaming,
        (SessionState::Streaming, SessionEvent::StreamsDone) => SessionState::Closed(
            CloseReason::Done,
        ),
        (other, _) => other,
    }
}

/// Which resolved addresses the dial loop keeps: with no restriction every
/// address, with a v4 restriction only v4 addresses, with only a v6
/// restriction only v6 addresses.
pub open spec fn spec_addr_allowed(only4: bool, only6: bool, is_v4: bool) -> bool {
    if !only4 && !only6 {
        true
    } else if only4 {
        is_v4
    } else {
        !is_v4
    }
}

/// Decides whether a resolved address passes the family restriction.
pub fn addr_allowed(only4: bool, only6: bool, is_v4: bool) -> (r: bool)
    ensures
        r == spec_addr_allowed(only4, only6, is_v4),
{
    if !only4 && !only6 {
        true
    } else if only4 {
        is_v4
    } else {
        !is_v4
    }
}

/// One step of the outgoing pipe: a chunk read from the local source is
/// enqueued for retransmission and returned as the DATA frame to write to
/// the wire.  Fails with `Full` when the window is exhausted, which is
/// fatal to the session.
pub fn send_chunk(q: &mut Queue, chunk: Vec<u8>) -> (r: Result<Vec<u8>, QueueError>)
    requires
        old(q).wf(),
        chunk@.len() <= 0xFFFF,
    ensures
        final(q).wf(),
        match r {
            Ok(frame) => {
                &&& old(q)@.push_ok()
                &&& final(q)@ == old(q)@.push_view(chunk@)
                &&& frame@ == spec_data_frame(old(q)@.push_id(), chunk@)
            },
            Err(e) => {
                &&& e == QueueError::Full
                &&& !old(q)@.push_ok()
                &&& final(q)@ == old(q)@
            },
        },
{
    let payload = chunk.clone();
    proof {
        assert(payload@ =~= chunk@);
    }
    match q.push(chunk) {
        Ok(id) => Ok(to_pkt(id, payload)),
        Err(e) => Err(e),
    }
}

/// The frames contained in a byte stream, in order, together with the
/// residue that awaits more input.
pub open spec fn decode_frames(b: Seq<u8>) -> (Seq<(u32, Seq<u8>)>, Seq<u8>)
    decreases b.len(),
{
    if data_frame_ready(b) {
        let tail = decode_frames(frame_rest(b));
        (seq![(frame_id(b) as u32, frame_payload(b))] + tail.0, tail.1)
    } else {
        (Seq::<(u32, Seq<u8>)>::empty(), b)
    }
}

/// One step of the incoming pipe: newly read bytes join the decoder's
/// buffer and every now-complete DATA frame is returned, in order.  The
/// caller writes each payload, flushes, and only then acknowledges the
/// identifier.
pub fn recv_frames(buf: &mut DataBuf, input: Vec<u8>) -> (r: Vec<(u32, Vec<u8>)>)
    ensures
        r.deep_view() == decode_frames(old(buf)@ + input@).0,
        final(buf)@ == decode_frames(old(buf)@ + input@).1,
{
    let ghost b0 = old(buf)@ + input@;
    let ghost frames = decode_frames(b0).0;
    buf.push(input);
    let mut out: Vec<(u32, Vec<u8>)> = Vec::new();
    loop
        invariant
            out@.len() <= frames.len(),
            forall|j: int|
                0 <= j < out@.len() ==> (#[trigger] out@[j]).0 == frames[j].0 && out@[j].1@
                    == frames[j].1,
            decode_frames(buf@).0 =~= frames.skip(out@.len() as int),
            decode_frames(buf@).1 == decode_frames(b0).1,
        ensures
            !data_frame_ready(buf@),
            out@.len() == frames.len(),
            forall|j: int|
                0 <= j < out@.len() ==> (#[trigger] out@[j]).0 == frames[j].0 && out@[j].1@
                    == frames[j].1,
            buf@ == decode_frames(b0).1,
        decreases buf@.len(),
    {
        let ghost before = buf@;
        let ghost n = out@.len() as int;
        match buf.next() {
            None => {
                proof {
                    assert(frames.skip(n).len() == 0);
                }
                break ;
            },
            Some((id, payload)) => {
                proof {
                    assert(data_frame_ready(before));
                    assert(decode_frames(before).0 == seq![
                        (frame_id(before) as u32, frame_payload(before)),
                    ] + decode_frames(frame_rest(before)).0);
                    assert(decode_frames(before).0.len() >= 1);
                    assert(n < frames.len());
                    assert(frames.skip(n)[0] == frames[n]);
                    assert(frames[n] == (frame_id(before) as u32, frame_payload(before)));
                    assert(frames[n].0 == id && frames[n].1 == payload@);
                    assert(decode_frames(buf@).0 =~= frames.skip(n).skip(1));
                    assert(frames.skip(n).skip(1) =~= frames.skip(n + 1));
                }
                out.push((id, payload));
            },
        }
    }
    proof {
        assert forall|j: int| 0 <= j < out@.len() implies out.deep_view()[j] == frames[j] by {
            assert(out@[j].1.deep_view() =~= out@[j].1@);
        }
        assert(out.deep_view() =~= frames);
    }
    out
}

/// The acknowledged identifiers contained in a byte stream, in order.
pub open spec fn decode_acks(b: Seq<u8>) -> Seq<u32>
    decreases b.len(),
{
    if ack_ready(b) {
        seq![ack_id(b) as u32] + decode_acks(ack_rest(b))
    } else {
        Seq::<u32>::empty()
    }
}

/// The bytes of a byte stream that no complete acknowledgement covers.
pub open spec fn acks_residue(b: Seq<u8>) -> Seq<u8>
    decreases b.len(),
{
    if ack_ready(b) {
        acks_residue(ack_rest(b))
    } else {
        b
    }
}

/// How many of the acknowledgements of `ids`, applied in order, are
/// accepted before the first invalid one (all of them when none is
/// invalid).
pub open spec fn acks_applied(v: QueueView, ids: Seq<u32>) -> int
    decreases ids.len(),
{
    if ids.len() == 0 {
        0
    } else if v.check_ok(ids[0]) {
        1 + acks_applied(v.check_view(ids[0]), ids.skip(1))
    } else {
        0
    }
}

/// One step of the acknowledgement consumer: newly read bytes join the
/// decoder's buffer and every complete acknowledgement is applied to the
/// queue, in order.  An acknowledgement of an identifier that is not live
/// is a protocol violation: the step stops there and reports `InvalidAck`,
/// which is fatal to the session.
pub fn consume_acks(q: &mut Queue, abuf: &mut AckBuf, input: Vec<u8>) -> (r: Result<
    (),
    QueueError,
>)
    requires
        old(q).wf(),
    ensures
        final(q).wf(),
        ({
            let b0 = old(abuf)@ + input@;
            let ids = decode_acks(b0);
            let k = acks_applied(old(q)@, ids);
            &&& final(q)@ == check_seq(old(q)@, ids.take(k))
            &&& checks_ok(old(q)@, ids.take(k))
            &&& match r {
                Ok(()) => {
                    &&& k == ids.len()
                    &&& final(abuf)@ == acks_residue(b0)
                },
                Err(e) => {
                    &&& e == QueueError::InvalidAck
                    &&& k < ids.len()
                    &&& final(abuf)@ == b0.skip(4 * (k + 1))
                },
            }
        }),
{
    let ghost b0 = old(abuf)@ + input@;
    let ghost ids = decode_acks(b0);
    let ghost v0 = old(q)@;
    abuf.push(input);
    let ghost mut j: int = 0;
    proof {
        assert(ids.take(0) =~= Seq::<u32>::empty());
        assert(ids.skip(0) =~= ids);
        assert(b0.skip(0) =~= b0);
    }
    loop
        invariant
            v0 == old(q)@,
            b0 == old(abuf)@ + input@,
            ids == decode_acks(b0),
            q.wf(),
            0 <= j <= ids.len(),
            0 <= 4 * j <= b0.len(),
            q@ == check_seq(v0, ids.take(j)),
            checks_ok(v0, ids.take(j)),
            abuf@ == b0.skip(4 * j),
            decode_acks(abuf@) =~= ids.skip(j),
            acks_residue(abuf@) == acks_residue(b0),
            acks_applied(v0, ids) == j + acks_applied(q@, ids.skip(j)),
        ensures
            q.wf(),
            j == ids.len(),
            acks_applied(v0, ids) == j,
            q@ == check_seq(v0, ids.take(j)),
            checks_ok(v0, ids.take(j)),
            abuf@ == acks_residue(b0),
        decreases abuf@.len(),
    {
        let ghost before = abuf@;
        match abuf.next() {
            None => {
                proof {
                    assert(ids.skip(j).len() == 0);
                    assert(acks_applied(q@, ids.skip(j)) == 0);
                }
                break ;
            },
            Some(id) => {
                proof {
                    assert(ack_ready(before));
                    assert(decode_acks(before) == seq![ack_id(before) as u32] + decode_acks(
                        ack_rest(before),
                    ));
                    assert(ids.skip(j).len() >= 1);
                    assert(j < ids.len());
                    assert(ids.skip(j)[0] == ack_id(before) as u32);
                    assert(ids[j] == id);
                    assert(abuf@ == before.skip(4));
                    assert(before.len() == b0.len() - 4 * j);
                    assert(4 * (j + 1) <= b0.len());
                    assert(before.skip(4) =~= b0.skip(4 * (j + 1)));
                    assert(decode_acks(abuf@) =~= ids.skip(j).skip(1));
                    assert(ids.skip(j).skip(1) =~= ids.skip(j + 1));
                }
                let ghost qv = q@;
                match q.check(id) {
                    Ok(()) => {
                        proof {
                            lemma_check_seq_push(v0, ids.take(j), id);
                            assert(ids.take(j).push(id) =~= ids.take(j + 1));
                            assert(acks_applied(qv, ids.skip(j)) == 1 + acks_applied(
                                q@,
                                ids.skip(j + 1),
                            ));
                            j = j + 1;
                        }
                    },
                    Err(e) => {
                        proof {
                            assert(acks_applied(qv, ids.skip(j)) == 0);
                            assert(acks_applied(v0, ids) == j);
                        }
                        return Err(e);
                    },
                }
            },
        }
    }
    Ok(())
}

/// The concatenated wire encoding of a run of identified chunks.
pub open spec fn frames_bytes(l: Seq<(u32, Seq<u8>)>) -> Seq<u8>
    decreases l.len(),
{
    if l.len() == 0 {
        Seq::<u8>::empty()
    } else {
        spec_data_frame(l[0].0, l[0].1) + frames_bytes(l.skip(1))
    }
}

/// Appending one chunk to a run appends its frame to the run's encoding.
proof fn lemma_frames_bytes_take_step(l: Seq<(u32, Seq<u8>)>, i: int)
    requires
        0 <= i < l.len(),
    ensures
        frames_bytes(l.take(i + 1)) =~= frames_bytes(l.take(i)) + spec_data_frame(
            l[i].0,
            l[i].1,
        ),
    decreases i,
{
    if i == 0 {
        assert(l.take(1) =~= seq![l[0]]);
        assert(l.take(1).skip(1) =~= Seq::<(u32, Seq<u8>)>::empty());
        assert(l.take(0) =~= Seq::<(u32, Seq<u8>)>::empty());
    } else {
        lemma_frames_bytes_take_step(l.skip(1), i - 1);
        assert(l.take(i + 1)[0] == l[0]);
        assert(l.take(i + 1).skip(1) =~= l.skip(1).take(i));
        assert(l.take(i).skip(1) =~= l.skip(1).take(i - 1));
        assert(l.skip(1)[i - 1] == l[i]);
        assert(frames_bytes(l.take(i + 1)) =~= spec_data_frame(l[0].0, l[0].1) + frames_bytes(
            l.skip(1).take(i),
        ));
        assert(frames_bytes(l.take(i)) =~= spec_data_frame(l[0].0, l[0].1) + frames_bytes(
            l.skip(1).take(i - 1),
        ));
    }
}

/// Round trip for a whole run of frames: the concatenated encoding of any
/// run of chunks, followed by any residue, decodes back to exactly that
/// run, in order, with the residue's own decode behind it.  Together with
/// `resume_frames`' contract this says that whatever one side replays on
/// resume, the other side's decoder hands its application exactly the
/// replayed chunks, with their identifiers, in order — no duplicates, no
/// gaps, however the transport split the bytes.
pub proof fn lemma_frames_round_trip(l: Seq<(u32, Seq<u8>)>, rest: Seq<u8>)
    requires
        forall|i: int| 0 <= i < l.len() ==> (#[trigger] l[i]).1.len() <= 0xFFFF,
    ensures
        decode_frames(frames_bytes(l) + rest).0 == l + decode_frames(rest).0,
        decode_frames(frames_bytes(l) + rest).1 == decode_frames(rest).1,
    decreases l.len(),
{
    if l.len() == 0 {
        assert(frames_bytes(l) + rest =~= rest);
        assert(l + decode_frames(rest).0 =~= decode_frames(rest).0);
    } else {
        let head_frame = spec_data_frame(l[0].0, l[0].1);
        let tail_bytes = frames_bytes(l.skip(1)) + rest;
        assert(frames_bytes(l) + rest =~= head_frame + tail_bytes);
        crate::pkt_buf::lemma_data_round_trip(l[0].0, l[0].1, tail_bytes);
        let b = head_frame + tail_bytes;
        assert(frame_id(b) == l[0].0 && frame_payload(b) == l[0].1);
        assert(frame_rest(b) == tail_bytes);
        assert forall|i: int| 0 <= i < l.skip(1).len() implies (#[trigger] l.skip(1)[i]).1.len()
            <= 0xFFFF by {
            assert(l.skip(1)[i] == l[i + 1]);
        }
        lemma_frames_round_trip(l.skip(1), rest);
        assert(decode_frames(b).0 == seq![(frame_id(b) as u32, frame_payload(b))] + decode_frames(
            tail_bytes,
        ).0);
        assert((frame_id(b) as u32, frame_payload(b)) == l[0]);
        assert(seq![l[0]] + (l.skip(1) + decode_frames(rest).0) =~= l + decode_frames(rest).0);
    }
}

/// The resume half of the handshake: the peer's cursor names the last
/// identifier it saw durably delivered, and everything circularly after it
/// is re-encoded, in order, for retransmission.  A cursor outside the live
/// range is a protocol violation and fails with `InvalidCursor`.
pub fn resume_frames(q: &Queue, cursor: u32) -> (r: Result<Vec<u8>, QueueError>)
    requires
        q.wf(),
    ensures
        match r {
            Ok(bytes) => {
                &&& q@.list_ok(cursor)
                &&& bytes@ == frames_bytes(q@.list_view(cursor))
            },
            Err(e) => {
                &&& e == QueueError::InvalidCursor
                &&& !q@.list_ok(cursor)
            },
        },
{
    let ghost lv = q@.list_view(cursor);
    match q.list(cursor) {
        Err(e) => Err(e),
        Ok(l) => {
            let mut out: Vec<u8> = Vec::new();
            let mut i: usize = 0;
            proof {
                assert(lv.take(0) =~= Seq::<(u32, Seq<u8>)>::empty());
            }
            while i < l.len()
                invariant
                    q.wf(),
                    q@.list_ok(cursor),
                    l.deep_view() == lv,
                    lv == q@.list_view(cursor),
                    l@.len() == lv.len(),
                    i <= l@.len(),
                    out@ == frames_bytes(lv.take(i as int)),
                decreases l@.len() - i as int,
            {
                proof {
                    assert(l.deep_view()[i as int] == lv[i as int]);
                    assert(l@[i as int].1.deep_view() =~= l@[i as int].1@);
                    assert(lv.len() == q@.entries.len() - q@.list_skip(cursor));
                    assert(lv[i as int].1 == q@.entries[q@.list_skip(cursor) + i]);
                    assert(q@.entries[q@.list_skip(cursor) + i].len() <= 0xFFFF);
                }
                let pair = &l[i];
                let id = pair.0;
                let payload = pair.1.clone();
                proof {
                    assert(payload@ =~= l@[i as int].1@);
                    assert(payload@.len() <= 0xFFFF);
                }
                let mut frame = to_pkt(id, payload);
                out.append(&mut frame);
                proof {
                    lemma_frames_bytes_take_step(lv, i as int);
                }
                i = i + 1;
            }
            proof {
                assert(lv.take(lv.len() as int) =~= lv);
            }
            Ok(out)
        },
    }
}

} // verus!
