//! The session orchestrator: every decision of a participant's lifecycle,
//! from the capacity check at arrival, through the handling of each
//! inbound frame, to the deregistration at departure.  The surrounding
//! process performs the transport work — reading frames, writing replies,
//! draining queues — and feeds the outcomes back in as plain values.

use vstd::prelude::*;
use crate::envelope::{
    Envelope,
    EnvelopeData,
    Kind,
    Payload,
    PayloadData,
    identity_data,
    count_data,
    capacity_error_data,
};
use crate::hub::{Hub, broadcast_map};
use crate::message_log::MessageLog;
use crate::codec::{decode, spec_decode};

verus! {

/// One inbound transport event, stripped to what the decisions need.
pub enum Frame {
    /// A text frame, as its characters.
    Text(Vec<char>),
    /// A binary frame: a protocol violation in this service.
    Binary,
    /// A close frame from the peer.
    Close,
    /// Any other control frame; ignored.
    Control,
}

/// What the caller must do after one frame is handled.
pub enum FrameOutcome {
    /// Keep reading.
    Proceed,
    /// Write this envelope back to this participant alone, then keep
    /// reading.
    Reply(Envelope),
    /// Stop reading and tear the connection down.
    Stop,
}

/// The whole service state: the hub of live participants, the message
/// log, the id for the next arrival, and the participant limit.
pub struct Server {
    pub hub: Hub,
    pub log: MessageLog,
    pub next_id: usize,
    pub max_participants: usize,
}

impl Server {
    /// Internal consistency: the parts are consistent and every
    /// registered id was assigned before `next_id`, so ids never repeat.
    pub open spec fn wf(self) -> bool {
        &&& self.hub.wf()
        &&& self.log.wf()
        &&& self.next_id >= 1
        &&& forall|id: usize| #[trigger] self.hub@.dom().contains(id) ==> id < self.next_id
    }

    /// A fresh server around a recovered message log.
    pub fn with_log(max_participants: usize, queue_capacity: usize, log: MessageLog) -> (r: Server)
        requires
            log.wf(),
        ensures
            r.wf(),
            r.hub@ == Map::<usize, Seq<EnvelopeData>>::empty(),
            r.hub.capacity() == queue_capacity,
            r.log == log,
            r.next_id == 1,
            r.max_participants == max_participants,
    {
        Server { hub: Hub::new(queue_capacity), log, next_id: 1, max_participants }
    }

    /// A fresh server with an empty transcript.
    pub fn new(max_participants: usize, queue_capacity: usize) -> (r: Server)
        ensures
            r.wf(),
            r.hub@ == Map::<usize, Seq<EnvelopeData>>::empty(),
            r.hub.capacity() == queue_capacity,
            r.log@ == Seq::<Seq<char>>::empty(),
            r.log.cursor() == 0,
            r.next_id == 1,
            r.max_participants == max_participants,
    {
        Server::with_log(max_participants, queue_capacity, MessageLog::new())
    }

    /// Admits a new participant, or rejects it.  At the limit — or with
    /// the id space exhausted — nothing changes and the rejected peer is
    /// owed the error envelope.  Otherwise the participant gets the next
    /// id and an empty queue and is owed the identity envelope, sent to
    /// it directly before `announce_count` tells everyone.
    pub fn try_connect(&mut self) -> (r: Result<(usize, Envelope), Envelope>)
        requires
            old(self).wf(),
        ensures
            final(self).wf(),
            final(self).max_participants == old(self).max_participants,
            final(self).hub.capacity() == old(self).hub.capacity(),
            final(self).log == old(self).log,
            match r {
                Err(e) => {
                    &&& old(self).hub@.dom().len() >= old(self).max_participants || old(
                        self,
                    ).next_id == usize::MAX
                    &&& e@ == capacity_error_data(old(self).max_participants as int)
                    &&& *final(self) == *old(self)
                },
                Ok(p) => {
                    &&& old(self).hub@.dom().len() < old(self).max_participants
                    &&& old(self).next_id < usize::MAX
                    &&& p.0 == old(self).next_id
                    &&& final(self).next_id == old(self).next_id + 1
                    &&& p.1@ == identity_data(p.0 as int)
                    &&& final(self).hub@ == old(self).hub@.insert(p.0, Seq::empty())
                },
            },
    {
        let count = self.hub.get_user_count();
        if count >= self.max_participants || self.next_id == usize::MAX {
            return Err(Envelope::capacity_error(self.max_participants));
        }
        let id = self.next_id;
        self.next_id = self.next_id + 1;
        proof {
            self.hub.lemma_dom_finite();
            if self.hub@.dom().contains(id) {
                assert(id < id);
            }
        }
        let registered = self.hub.register(id);
        proof {
            assert(registered);
            assert forall|x: usize| #[trigger] self.hub@.dom().contains(x) implies x
                < self.next_id by {
                if x != id {
                    assert(old(self).hub@.dom().contains(x));
                }
            }
        }
        let ident = Envelope::identity(id);
        Ok((id, ident))
    }

    /// Broadcasts the current participant count to every queue, and
    /// returns the envelope broadcast.
    pub fn announce_count(&mut self) -> (r: Envelope)
        requires
            old(self).wf(),
        ensures
            final(self).wf(),
            final(self).max_participants == old(self).max_participants,
            final(self).hub.capacity() == old(self).hub.capacity(),
            final(self).next_id == old(self).next_id,
            final(self).log == old(self).log,
            r@ == count_data(old(self).hub@.dom().len() as int),
            final(self).hub@ == broadcast_map(
                old(self).hub@,
                old(self).hub.capacity(),
                count_data(old(self).hub@.dom().len() as int),
            ),
    {
        let n = self.hub.get_user_count();
        let count_env = Envelope::participant_count(n);
        let _ = self.hub.broadcast(&count_env);
        proof {
            crate::hub::lemma_broadcast_map_dom(
                old(self).hub@,
                old(self).hub.capacity(),
                count_env@,
            );
            assert forall|x: usize| #[trigger] self.hub@.dom().contains(x) implies x
                < self.next_id by {
                assert(old(self).hub@.dom().contains(x));
            }
        }
        count_env
    }

    /// Handles one inbound frame from a registered participant.
    ///
    /// A text frame must decode to an envelope.  A chat envelope with a
    /// string payload is broadcast to every queue — a full queue drops it
    /// for that participant alone, silently — and its text is appended to
    /// the log.  An echo-local envelope is returned to the sender alone,
    /// rewritten with the sender's id.  An info envelope is ignored.
    /// Anything else — an undecodable text, a chat whose payload is not a
    /// string, a server-only kind, a binary frame — ends the connection,
    /// as does a close frame.
    pub fn handle_frame(&mut self, sender: usize, frame: Frame) -> (r: FrameOutcome)
        requires
            old(self).wf(),
        ensures
            final(self).wf(),
            final(self).max_participants == old(self).max_participants,
            final(self).hub.capacity() == old(self).hub.capacity(),
            final(self).next_id == old(self).next_id,
            final(self).log.cursor() == old(self).log.cursor(),
            match frame {
                Frame::Text(t) => match spec_decode(t@) {
                    Some(d) => {
                        &&& (d.kind == Kind::Chat ==> (match d.content {
                            PayloadData::Text(msg) => {
                                &&& final(self).hub@ == broadcast_map(
                                    old(self).hub@,
                                    old(self).hub.capacity(),
                                    d,
                                )
                                &&& final(self).log@ == old(self).log@.push(msg)
                                &&& r is Proceed
                            },
                            PayloadData::Data(raw) => *final(self) == *old(self) && r is Stop,
                        }))
                        &&& (d.kind == Kind::Info ==> *final(self) == *old(self) && r is Proceed)
                        &&& (d.kind == Kind::EchoLocal ==> *final(self) == *old(self) && (
                        r matches FrameOutcome::Reply(e) && e@ == (EnvelopeData {
                            kind: Kind::EchoLocal,
                            sender,
                            content: d.content,
                        })))
                        &&& ((d.kind == Kind::Identity || d.kind == Kind::Error || d.kind
                            == Kind::ParticipantCount) ==> *final(self) == *old(self) && r is Stop)
                    },
                    None => *final(self) == *old(self) && r is Stop,
                },
                Frame::Binary => *final(self) == *old(self) && r is Stop,
                Frame::Close => *final(self) == *old(self) && r is Stop,
                Frame::Control => *final(self) == *old(self) && r is Proceed,
            },
    {
        match frame {
            Frame::Text(t) => match decode(&t) {
                None => FrameOutcome::Stop,
                Some(env) => match env.kind {
                    Kind::Chat => {
                        if !env.content.is_text() {
                            // a chat message's payload must be a string
                            return FrameOutcome::Stop;
                        }
                        // best-effort fan-out: a full queue drops the
                        // envelope for that participant alone, and the
                        // transcript gains the message regardless
                        let _ = self.hub.broadcast(&env);
                        proof {
                            crate::hub::lemma_broadcast_map_dom(
                                old(self).hub@,
                                old(self).hub.capacity(),
                                env@,
                            );
                        }
                        match env.content {
                            Payload::Text(msg) => {
                                self.log.append(msg);
                            },
                            Payload::Data(_) => {
                                proof {
                                    assert(false);
                                }
                            },
                        }
                        FrameOutcome::Proceed
                    },
                    Kind::Info => FrameOutcome::Proceed,
                    Kind::EchoLocal => FrameOutcome::Reply(
                        Envelope { kind: Kind::EchoLocal, sender, content: env.content },
                    ),
                    _ => FrameOutcome::Stop,
                },
            },
            Frame::Binary => FrameOutcome::Stop,
            Frame::Close => FrameOutcome::Stop,
            Frame::Control => FrameOutcome::Proceed,
        }
    }

    /// Removes a departed participant — harmless if already removed — and
    /// broadcasts the updated count to everyone left.  The returned
    /// envelope is the one broadcast.
    pub fn disconnect(&mut self, id: usize) -> (r: Envelope)
        requires
            old(self).wf(),
        ensures
            final(self).wf(),
            final(self).max_participants == old(self).max_participants,
            final(self).hub.capacity() == old(self).hub.capacity(),
            final(self).next_id == old(self).next_id,
            final(self).log == old(self).log,
            r@ == count_data(old(self).hub@.remove(id).dom().len() as int),
            final(self).hub@ == broadcast_map(
                old(self).hub@.remove(id),
                old(self).hub.capacity(),
                count_data(old(self).hub@.remove(id).dom().len() as int),
            ),
    {
        self.hub.deregister(id);
        let n = self.hub.get_user_count();
        let count_env = Envelope::participant_count(n);
        let _ = self.hub.broadcast(&count_env);
        proof {
            crate::hub::lemma_broadcast_map_dom(
                old(self).hub@.remove(id),
                old(self).hub.capacity(),
                count_env@,
            );
            assert forall|x: usize| #[trigger] self.hub@.dom().contains(x) implies x
                < self.next_id by {
                assert(old(self).hub@.remove(id).dom().contains(x));
                assert(old(self).hub@.dom().contains(x));
            }
        }
        count_env
    }
}

} // verus!
