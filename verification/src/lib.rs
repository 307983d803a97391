//! Core of a peer-to-peer file transfer running over a single reliable,
//! ordered data channel that carries text and binary frames.
//!
//! The library holds the pieces of the transfer that are pure logic:
//! re-framing byte streams into fixed-size chunks (`chunker`), the canonical
//! JSON of the three handshake messages (`wire` for the byte-level pieces,
//! `messages` for the messages themselves), the SDP compression codec of the
//! signaling handshake (`sdp`), the sender and receiver protocol state
//! machines (`sender`, `receiver`), lookup over the id-keyed tables the
//! handshake builds (`assoc`), and the take-once slots behind the
//! host-facing one-shot rendezvous (`slot`). Everything that talks to the
//! network, the peer connection or the host runtime lives outside and drives
//! these state machines with plain values.

use vstd::prelude::*;

pub mod assoc;
pub mod chunker;
pub mod receiver;
pub mod sender;
pub mod slot;
pub mod sdp;
pub mod messages;
pub mod wire;

verus! {

/// Session-level status reported to the host while a transfer runs.
pub enum RTCStatus {
    /// Received the remote SDP offer/answer. Ready to start the connection.
    SdpExchanged,

    /// Opened the data channel. Ready to send/receive data.
    Connected,

    /// A PIN is required to continue (reserved for a host-mediated
    /// authentication flow layered above the transfer core).
    PinRequired,

    /// Too many PIN attempts (reserved, as above).
    TooManyAttempts,

    /// The receiver declined the offered files.
    Declined,

    /// File bodies are being transmitted.
    Sending,

    /// The session ended normally. Connection is closed.
    Finished,

    /// An error occurred. Connection is closed.
    Error(String),
}

/// A per-file error. The session continues; the error only concerns the one
/// file named by `file_id` (the raw id bytes as they appeared on the wire).
#[derive(Debug)]
pub struct RTCFileError {
    pub file_id: Vec<u8>,
    pub error: String,
}

/// One data-channel frame: the channel carries text or binary payloads, and
/// the protocol reads that flag as its phase marker. An empty text frame is
/// the phase terminator.
#[derive(Debug)]
pub enum Frame {
    Text(Vec<u8>),
    Binary(Vec<u8>),
}

/// The mathematical shadow of a `Frame`.
pub ghost enum FrameV {
    Text(Seq<u8>),
    Binary(Seq<u8>),
}

impl View for Frame {
    type V = FrameV;

    open spec fn view(&self) -> FrameV {
        match self {
            Frame::Text(d) => FrameV::Text(d@),
            Frame::Binary(d) => FrameV::Binary(d@),
        }
    }
}

/// The payloads of a chunked message on the wire: one binary frame per chunk.
pub open spec fn binary_frames_of(chunks: Seq<Seq<u8>>) -> Seq<FrameV> {
    chunks.map_values(|c: Seq<u8>| FrameV::Binary(c))
}

} // verus!
