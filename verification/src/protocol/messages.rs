//! Peer addresses, the three messages that peers exchange, and their
//! byte encoding.

use vstd::prelude::*;

verus! {

/// A transport endpoint, as plain numbers: the address family, the address
/// bits, the port, and the two extra fields of a version 6 endpoint (zero
/// for version 4).
#[derive(Debug, Clone, Copy, PartialEq, Eq, Structural, Hash)]
pub struct PeerAddr {
    pub v6: bool,
    pub ip: u128,
    pub port: u16,
    pub flowinfo: u32,
    pub scope_id: u32,
}

/// A protocol message.
#[derive(Debug, Clone, Copy, PartialEq, Eq, Structural)]
pub enum Message {
    /// Direct probe; the receiver answers with an `Ack` of the same `seq`.
    Ping { seq: u32, from: PeerAddr },
    /// Answer to a `Ping`; `from` is the node that answers.
    Ack { seq: u32, from: PeerAddr },
    /// Asks the receiver to probe `target` for `from`, keeping `seq`.
    PingReq { seq: u32, from: PeerAddr, target: PeerAddr },
}

/// Why bytes and messages could not be turned into each other.
#[derive(Debug, Clone, Copy, PartialEq, Eq, Structural)]
pub enum CodecError {
    /// The encoder gave up.
    Encode,
    /// The bytes do not hold a record of the expected shape.
    Decode,
    /// The bytes hold a record that is no message.
    Malformed,
}

/// The error type of the `postcard` crate.
#[verifier::external_type_specification]
#[verifier::external_body]
pub struct ExPostcardError(postcard::Error);

/// The tag of a `Ping` on the wire.
pub const KIND_PING: u8 = 0;

/// The tag of an `Ack` on the wire.
pub const KIND_ACK: u8 = 1;

/// The tag of a `PingReq` on the wire.
pub const KIND_PING_REQ: u8 = 2;

/// The bytes that `postcard::to_allocvec` writes for the record
/// `(kind, seq, from, target)`, or `None` where it gives up.
pub uninterp spec fn postcard_image(
    kind: u8,
    seq: u32,
    from: (bool, u128, u16, u32, u32),
    target: Option<(bool, u128, u16, u32, u32)>,
) -> Option<Seq<u8>>;

/// The record `(kind, seq, from, target)` that `postcard::from_bytes`
/// reads from the front of `bytes`, or `None` where it rejects them.
pub uninterp spec fn postcard_parse(bytes: Seq<u8>) -> Option<
    (u8, u32, (bool, u128, u16, u32, u32), Option<(bool, u128, u16, u32, u32)>),
>;

/// Calls `postcard::to_allocvec` on the record `(kind, seq, from, target)`.
/// The contract only names the outcome: the bytes written, or the refusal.
#[verifier::external_body]
fn postcard_write(
    kind: u8,
    seq: u32,
    from: (bool, u128, u16, u32, u32),
    target: Option<(bool, u128, u16, u32, u32)>,
) -> (r: Result<Vec<u8>, postcard::Error>)
    ensures
        match r {
            Ok(v) => postcard_image(kind, seq, from, target) == Some(v@),
            Err(_) => postcard_image(kind, seq, from, target) is None,
        },
{
    postcard::to_allocvec(&(kind, seq, from, target))
}

/// Calls `postcard::from_bytes` for a record `(kind, seq, from, target)`.
/// The contract only names the outcome: the record read, or the refusal.
#[verifier::external_body]
fn postcard_read(bytes: &[u8]) -> (r: Result<
    (u8, u32, (bool, u128, u16, u32, u32), Option<(bool, u128, u16, u32, u32)>),
    postcard::Error,
>)
    ensures
        match r {
            Ok(t) => postcard_parse(bytes@) == Some(t),
            Err(_) => postcard_parse(bytes@) is None,
        },
{
    postcard::from_bytes(bytes)
}

impl PeerAddr {
    /// A version 4 endpoint has 32 address bits and no extra fields.
    pub open spec fn valid(self) -> bool {
        self.v6 || (self.ip <= 0xFFFF_FFFF && self.flowinfo == 0 && self.scope_id == 0)
    }

    /// Whether the endpoint is valid.
    pub fn is_valid(&self) -> (r: bool)
        ensures
            r == self.valid(),
    {
        self.v6 || (self.ip <= 0xFFFF_FFFF && self.flowinfo == 0 && self.scope_id == 0)
    }

    /// The fields as they travel on the wire.
    pub open spec fn wire(self) -> (bool, u128, u16, u32, u32) {
        (self.v6, self.ip, self.port, self.flowinfo, self.scope_id)
    }

    /// The fields as they travel on the wire.
    pub fn to_wire(&self) -> (w: (bool, u128, u16, u32, u32))
        ensures
            w == self.wire(),
    {
        (self.v6, self.ip, self.port, self.flowinfo, self.scope_id)
    }
}

/// The endpoint with the fields `w`.
pub open spec fn addr_of(w: (bool, u128, u16, u32, u32)) -> PeerAddr {
    PeerAddr { v6: w.0, ip: w.1, port: w.2, flowinfo: w.3, scope_id: w.4 }
}

/// The message that a record stands for: the tag says which, a `PingReq`
/// and only a `PingReq` names a target, and every endpoint is valid.
pub open spec fn message_of(
    kind: u8,
    seq: u32,
    from: (bool, u128, u16, u32, u32),
    target: Option<(bool, u128, u16, u32, u32)>,
) -> Option<Message> {
    if !addr_of(from).valid() {
        None
    } else if kind == KIND_PING && target is None {
        Some(Message::Ping { seq, from: addr_of(from) })
    } else if kind == KIND_ACK && target is None {
        Some(Message::Ack { seq, from: addr_of(from) })
    } else if kind == KIND_PING_REQ && target is Some && addr_of(target->0).valid() {
        Some(Message::PingReq { seq, from: addr_of(from), target: addr_of(target->0) })
    } else {
        None
    }
}

/// What decoding returns for the outcome `parsed` of the parser.
pub open spec fn decoded(
    parsed: Option<(u8, u32, (bool, u128, u16, u32, u32), Option<(bool, u128, u16, u32, u32)>)>,
) -> Result<Message, CodecError> {
    match parsed {
        None => Err(CodecError::Decode),
        Some(t) => match message_of(t.0, t.1, t.2, t.3) {
            Some(m) => Ok(m),
            None => Err(CodecError::Malformed),
        },
    }
}

impl Message {
    /// The tag of the message on the wire.
    pub open spec fn kind(self) -> u8 {
        match self {
            Message::Ping { .. } => KIND_PING,
            Message::Ack { .. } => KIND_ACK,
            Message::PingReq { .. } => KIND_PING_REQ,
        }
    }

    /// The sequence number of the message.
    pub open spec fn seq(self) -> u32 {
        match self {
            Message::Ping { seq, .. } => seq,
            Message::Ack { seq, .. } => seq,
            Message::PingReq { seq, .. } => seq,
        }
    }

    /// The node that the message comes from.
    pub open spec fn sender(self) -> PeerAddr {
        match self {
            Message::Ping { from, .. } => from,
            Message::Ack { from, .. } => from,
            Message::PingReq { from, .. } => from,
        }
    }

    /// The endpoint that a `PingReq` asks to probe.
    pub open spec fn wire_target(self) -> Option<(bool, u128, u16, u32, u32)> {
        match self {
            Message::PingReq { target, .. } => Some(target.wire()),
            _ => None,
        }
    }

    /// Every endpoint in the message is valid.
    pub open spec fn valid(self) -> bool {
        match self {
            Message::PingReq { from, target, .. } => from.valid() && target.valid(),
            _ => self.sender().valid(),
        }
    }

    /// The bytes that the encoder writes for the record of the message,
    /// or `None` where it gives up.
    pub open spec fn encoded(self) -> Option<Seq<u8>> {
        postcard_image(self.kind(), self.seq(), self.sender().wire(), self.wire_target())
    }

    /// The bytes of the message: those that the encoder writes for its
    /// record, or `Encode` where the encoder gives up.
    pub fn to_bytes(&self) -> (r: Result<Vec<u8>, CodecError>)
        ensures
            match r {
                Ok(v) => self.encoded() == Some(v@),
                Err(e) => e == CodecError::Encode && self.encoded() is None,
            },
    {
        let written = match self {
            Message::Ping { seq, from } => postcard_write(KIND_PING, *seq, from.to_wire(), None),
            Message::Ack { seq, from } => postcard_write(KIND_ACK, *seq, from.to_wire(), None),
            Message::PingReq { seq, from, target } => postcard_write(
                KIND_PING_REQ,
                *seq,
                from.to_wire(),
                Some(target.to_wire()),
            ),
        };
        match written {
            Ok(v) => Ok(v),
            Err(_) => Err(CodecError::Encode),
        }
    }

    /// The message that the record `(kind, seq, from, target)` stands for,
    /// if it stands for one.
    pub fn from_wire(
        kind: u8,
        seq: u32,
        from: (bool, u128, u16, u32, u32),
        target: Option<(bool, u128, u16, u32, u32)>,
    ) -> (r: Option<Message>)
        ensures
            r == message_of(kind, seq, from, target),
    {
        let sender = PeerAddr { v6: from.0, ip: from.1, port: from.2, flowinfo: from.3, scope_id: from.4 };
        if !sender.is_valid() {
            return None;
        }
        match target {
            None => {
                if kind == KIND_PING {
                    Some(Message::Ping { seq, from: sender })
                } else if kind == KIND_ACK {
                    Some(Message::Ack { seq, from: sender })
                } else {
                    None
                }
            },
            Some(t) => {
                let probed = PeerAddr { v6: t.0, ip: t.1, port: t.2, flowinfo: t.3, scope_id: t.4 };
                if kind == KIND_PING_REQ && probed.is_valid() {
                    Some(Message::PingReq { seq, from: sender, target: probed })
                } else {
                    None
                }
            },
        }
    }

    /// The message in `bytes`: `Decode` where the parser rejects the
    /// bytes, `Malformed` where the record it reads is no message.
    pub fn from_bytes(bytes: &[u8]) -> (r: Result<Message, CodecError>)
        ensures
            r == decoded(postcard_parse(bytes@)),
    {
        match postcard_read(bytes) {
            Ok(t) => match Message::from_wire(t.0, t.1, t.2, t.3) {
                Some(m) => Ok(m),
                None => Err(CodecError::Malformed),
            },
            Err(_) => Err(CodecError::Decode),
        }
    }
}

/// The record of a valid message stands for that message and no other.
pub proof fn lemma_record_roundtrip(m: Message)
    requires
        m.valid(),
    ensures
        message_of(m.kind(), m.seq(), m.sender().wire(), m.wire_target()) == Some(m),
{
}

} // verus!
