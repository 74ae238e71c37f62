//! A session relay: clients open stream connections, join or create a named
//! session, and every message a session member sends is fanned out to the
//! other members of that session.
//!
//! The crate is organised around the data that the relay manipulates:
//! - [`NetworkMessage`] is the protocol vocabulary, with [`codec`] giving it a
//!   self-delimiting byte encoding and its inverse;
//! - [`session`] holds the session table: named groups of peers and their
//!   pending deliveries;
//! - [`registry`] is the connection registry: token bookkeeping, registration
//!   lifecycle, and the buffered inbound/outbound bytes of each connection;
//! - [`relay`] is the protocol state machine that interprets messages against
//!   the session table and drives deliveries.
//!
//! All socket and readiness-notification work stays outside this crate; the
//! functions here take the bytes that were read and hand back the bytes to
//! write.

use vstd::prelude::*;

pub mod codec;
pub mod registry;
pub mod relay;
pub mod session;

verus! {

/// Error kinds surfaced inside the protocol.
#[derive(Clone, Copy, Debug, PartialEq, Eq, Structural)]
pub enum NetworkError {
    ClientAlreadyConnected,
    Unknown,
}

/// The message vocabulary of the relay protocol. Exactly one variant is
/// active per instance.
#[derive(Clone, Debug)]
pub enum NetworkMessage {
    /// Idle / no-op.
    Null,
    /// Positive acknowledgment.
    Success,
    /// Session or connection termination notice.
    Shutdown,
    /// In-protocol error report.
    Error(NetworkError),
    /// Create the named session, or join it if it already exists.
    NewSession(String),
    /// Notice to a session's host that a peer joined.
    ClientConnected,
    /// Ask that every member of the sender's session be shut down.
    EndSession,
    /// Text payload relayed to the other session members.
    Data(String),
    /// Byte payload relayed to the other session members.
    RawData(Vec<u8>),
}

/// Mathematical model of a [`NetworkMessage`]: the same variants over
/// `Seq<char>` and `Seq<u8>` instead of `String` and `Vec<u8>`.
pub enum MsgView {
    Null,
    Success,
    Shutdown,
    Error(NetworkError),
    NewSession(Seq<char>),
    ClientConnected,
    EndSession,
    Data(Seq<char>),
    RawData(Seq<u8>),
}

impl View for NetworkMessage {
    type V = MsgView;

    open spec fn view(&self) -> MsgView {
        match self {
            NetworkMessage::Null => MsgView::Null,
            NetworkMessage::Success => MsgView::Success,
            NetworkMessage::Shutdown => MsgView::Shutdown,
            NetworkMessage::Error(e) => MsgView::Error(*e),
            NetworkMessage::NewSession(s) => MsgView::NewSession(s@),
            NetworkMessage::ClientConnected => MsgView::ClientConnected,
            NetworkMessage::EndSession => MsgView::EndSession,
            NetworkMessage::Data(s) => MsgView::Data(s@),
            NetworkMessage::RawData(b) => MsgView::RawData(b@),
        }
    }
}

impl vstd::std_specs::cmp::PartialEqSpecImpl for NetworkMessage {
    open spec fn obeys_eq_spec() -> bool {
        true
    }

    open spec fn eq_spec(&self, other: &NetworkMessage) -> bool {
        self@ == other@
    }
}

impl PartialEq for NetworkMessage {
    fn eq(&self, other: &NetworkMessage) -> (r: bool) {
        match (self, other) {
            (NetworkMessage::Null, NetworkMessage::Null) => true,
            (NetworkMessage::Success, NetworkMessage::Success) => true,
            (NetworkMessage::Shutdown, NetworkMessage::Shutdown) => true,
            (NetworkMessage::Error(a), NetworkMessage::Error(b)) => *a == *b,
            (NetworkMessage::NewSession(a), NetworkMessage::NewSession(b)) => *a == *b,
            (NetworkMessage::ClientConnected, NetworkMessage::ClientConnected) => true,
            (NetworkMessage::EndSession, NetworkMessage::EndSession) => true,
            (NetworkMessage::Data(a), NetworkMessage::Data(b)) => *a == *b,
            (NetworkMessage::RawData(a), NetworkMessage::RawData(b)) => {
                let r = *a == *b;
                proof {
                    if r {
                        assert(a@ =~= b@);
                    } else {
                        if a@ == b@ {
                            assert(forall|i: int| 0 <= i < a@.len() ==> a@[i] == b@[i]);
                        }
                    }
                }
                r
            },
            _ => false,
        }
    }
}

impl NetworkMessage {
    /// A copy of this message with the same view.
    pub fn duplicate(&self) -> (r: NetworkMessage)
        ensures
            r@ == self@,
    {
        match self {
            NetworkMessage::Null => NetworkMessage::Null,
            NetworkMessage::Success => NetworkMessage::Success,
            NetworkMessage::Shutdown => NetworkMessage::Shutdown,
            NetworkMessage::Error(e) => NetworkMessage::Error(*e),
            NetworkMessage::NewSession(s) => NetworkMessage::NewSession(s.clone()),
            NetworkMessage::ClientConnected => NetworkMessage::ClientConnected,
            NetworkMessage::EndSession => NetworkMessage::EndSession,
            NetworkMessage::Data(s) => NetworkMessage::Data(s.clone()),
            NetworkMessage::RawData(b) => NetworkMessage::RawData(
                vstd::slice::slice_to_vec(b.as_slice()),
            ),
        }
    }

    /// Encodes this message for the wire.
    pub fn serialise(&self) -> (r: Vec<u8>)
        ensures
            r@ == codec::encoding_of(self@),
            codec::wf_msg(self@),
    {
        codec::encode(self)
    }

    /// Decodes the message at the front of `serialised`, which must hold one;
    /// bytes beyond that message's frame are ignored.
    pub fn deserialise(serialised: &[u8]) -> (r: NetworkMessage)
        requires
            codec::spec_decode(serialised@) is Message,
        ensures
            codec::spec_decode(serialised@) matches codec::SpecDecoded::Message(mv, _n) && r@
                == mv,
    {
        match codec::decode_prefix(serialised) {
            codec::Decoded::Message(m, _) => m,
            codec::Decoded::NeedMore => vstd::pervasive::unreached(),
            codec::Decoded::Malformed => vstd::pervasive::unreached(),
        }
    }
}

/// One chunk of bytes received from a connection, tagged with the
/// connection's token.
pub struct NetworkData {
    token: usize,
    data: Vec<u8>,
}

impl View for NetworkData {
    type V = (usize, Seq<u8>);

    closed spec fn view(&self) -> (usize, Seq<u8>) {
        (self.token, self.data@)
    }
}

impl NetworkData {
    pub fn new(token: usize, data: &[u8]) -> (r: NetworkData)
        ensures
            r@ == (token, data@),
    {
        NetworkData { token, data: vstd::slice::slice_to_vec(data) }
    }

    /// The token of the connection the bytes arrived on.
    pub fn token(&self) -> (t: usize)
        ensures
            t == self@.0,
    {
        self.token
    }

    /// The received bytes.
    pub fn data(&self) -> (d: &Vec<u8>)
        ensures
            d@ == self@.1,
    {
        &self.data
    }
}

} // verus!
