//! The envelope: the immutable unit exchanged over the wire and inside the
//! service, tagged by kind, carrying the sender's id and an untyped
//! payload — a string for the kinds the server reads, or any other JSON
//! value carried through verbatim.

use vstd::prelude::*;
use crate::decimal::{digits_of, spec_digits};
use crate::text::{clone_chars, chars_of_str};

verus! {

/// The kind tag of an envelope.
#[derive(Clone, Copy, PartialEq, Eq, Structural, Debug)]
pub enum Kind {
    /// Tells a newly connected participant its own id.
    Identity,
    /// Reports a failure to the receiving participant.
    Error,
    /// Echoed back, rewritten with the sender's id, to the sender alone.
    EchoLocal,
    /// A chat message: broadcast to everyone and appended to the log.
    Chat,
    /// Announces the current number of participants.
    ParticipantCount,
    /// Informational; ignored by the server.
    Info,
}

/// The mathematical value of an envelope's payload.
#[verifier::ext_equal]
pub ghost enum PayloadData {
    /// A string payload, as its text.
    Text(Seq<char>),
    /// Any other JSON value, as the text it was written with.
    Data(Seq<char>),
}

/// An envelope's payload: a string, or any other JSON value kept as the
/// text it arrived in and passed along verbatim.
#[derive(Debug, PartialEq, Eq)]
pub enum Payload {
    Text(Vec<char>),
    Data(Vec<char>),
}

impl View for Payload {
    type V = PayloadData;

    open spec fn view(&self) -> PayloadData {
        match self {
            Payload::Text(t) => PayloadData::Text(t@),
            Payload::Data(d) => PayloadData::Data(d@),
        }
    }
}

impl Payload {
    /// Whether this payload is a string.
    pub fn is_text(&self) -> (r: bool)
        ensures
            r == (self@ is Text),
    {
        match self {
            Payload::Text(_) => true,
            Payload::Data(_) => false,
        }
    }

    /// A copy, element for element.
    pub fn duplicate(&self) -> (r: Payload)
        ensures
            r@ == self@,
    {
        match self {
            Payload::Text(t) => Payload::Text(clone_chars(t)),
            Payload::Data(d) => Payload::Data(clone_chars(d)),
        }
    }
}

/// The mathematical value of an envelope.
#[verifier::ext_equal]
pub ghost struct EnvelopeData {
    pub kind: Kind,
    pub sender: usize,
    pub content: PayloadData,
}

/// One wire message: a kind, the sender's id (`0` is the server), and the
/// payload.
#[derive(Debug)]
pub struct Envelope {
    pub kind: Kind,
    pub sender: usize,
    pub content: Payload,
}

impl View for Envelope {
    type V = EnvelopeData;

    open spec fn view(&self) -> EnvelopeData {
        EnvelopeData { kind: self.kind, sender: self.sender, content: self.content@ }
    }
}

/// The identity envelope the server sends a participant on arrival: the
/// participant's id, rendered in decimal, from sender `0`.
pub open spec fn identity_data(id: int) -> EnvelopeData {
    EnvelopeData { kind: Kind::Identity, sender: 0, content: PayloadData::Text(spec_digits(id)) }
}

/// The participant-count envelope the server broadcasts: the count,
/// rendered in decimal, from sender `0`.
pub open spec fn count_data(n: int) -> EnvelopeData {
    EnvelopeData {
        kind: Kind::ParticipantCount,
        sender: 0,
        content: PayloadData::Text(spec_digits(n)),
    }
}

/// The error envelope sent to a connection rejected for capacity.
pub open spec fn capacity_error_data(max: int) -> EnvelopeData {
    EnvelopeData {
        kind: Kind::Error,
        sender: 0,
        content: PayloadData::Text("Maximum number of users reached: "@ + spec_digits(max)),
    }
}

impl Envelope {
    /// A field-for-field copy.
    pub fn duplicate(&self) -> (r: Envelope)
        ensures
            r@ == self@,
    {
        Envelope { kind: self.kind, sender: self.sender, content: self.content.duplicate() }
    }

    /// The identity envelope for a participant id.
    pub fn identity(id: usize) -> (r: Envelope)
        ensures
            r@ == identity_data(id as int),
    {
        Envelope { kind: Kind::Identity, sender: 0, content: Payload::Text(digits_of(id)) }
    }

    /// The participant-count envelope for a count.
    pub fn participant_count(n: usize) -> (r: Envelope)
        ensures
            r@ == count_data(n as int),
    {
        Envelope {
            kind: Kind::ParticipantCount,
            sender: 0,
            content: Payload::Text(digits_of(n)),
        }
    }

    /// The capacity-exceeded error envelope.
    pub fn capacity_error(max: usize) -> (r: Envelope)
        ensures
            r@ == capacity_error_data(max as int),
    {
        let mut content = chars_of_str("Maximum number of users reached: ");
        let mut digits = digits_of(max);
        content.append(&mut digits);
        Envelope { kind: Kind::Error, sender: 0, content: Payload::Text(content) }
    }
}

} // verus!
