//! The receiver's protocol state machine.
//!
//! The machine is pure: the surrounding runtime feeds it the data channel's
//! frames and the host's selection, performs the frames it hands back, and
//! routes its outputs. Binary frames accumulate until the first text frame,
//! whose arrival makes the accumulated bytes the offer manifest; the host's
//! selection is answered with a token per selected id; and during the body
//! phase a binary frame is forwarded only while a validated header — id
//! selected, token equal to the one generated here — is current. A failed
//! header validation discards the body frames that follow it, up to the next
//! header.

use vstd::prelude::*;
use crate::RTCFileError;
use crate::Frame;
use crate::FrameV;
use crate::binary_frames_of;
use crate::assoc::{bytes_eq, copy_bytes, find_size, find_token, lookup, pair_size_views};
use crate::chunker::{chunk_all, chunks_of, concat_of};
use crate::messages::{FileDescriptor, FileMeta, encode_reply, header_of, manifest_of,
    pair_views, parse_header, parse_manifest, reply_json};
use vstd::string::StringExecFns;

verus! {

/// Where the receiver stands in the session.
#[derive(Clone, Copy)]
pub enum ReceiverPhase {
    /// Binary manifest frames are accumulating.
    AwaitingManifest,
    /// Manifest published; the host's selection is pending.
    AwaitingSelection,
    /// Reply sent; headers and bodies are flowing.
    Receiving,
    /// Terminator seen, or the offer declined.
    Done,
    /// A session-fatal fault: a handshake or header payload did not parse.
    Failed,
}

/// The mathematical shadow of a `ReceiverSm`.
#[verifier::ext_equal]
pub ghost struct ReceiverView {
    pub phase: ReceiverPhase,
    pub accum: Seq<u8>,
    pub sizes: Seq<(Seq<u8>, u64)>,
    pub reply: Seq<(Seq<u8>, Seq<u8>)>,
    pub current: Option<Seq<u8>>,
}

impl ReceiverView {
    /// A file is current only if the reply holds a token for it: the machine
    /// forwards bytes only under a header it has itself authorized.
    pub open spec fn inv(self) -> bool {
        self.current matches Some(id) ==> lookup(self.reply, id) is Some
    }
}

/// What one step of the machine asks the runtime to do.
pub enum ReceiverOutput {
    /// A handshake chunk was buffered; nothing to do.
    Accumulated,
    /// The offer manifest, to be published to the host.
    Files(Vec<FileDescriptor>),
    /// A session-fatal fault: report an error status and close.
    Fatal,
    /// A per-file error; the session continues.
    PerFileError(RTCFileError),
    /// A validated header: open a byte stream for this file id of this
    /// declared size and publish it to the host.
    OpenFile(Vec<u8>, u64),
    /// A body chunk for the current file's stream.
    Body(Vec<u8>),
    /// The session terminator: report Finished and close.
    SessionEnd,
    /// A frame that this phase ignores.
    Dropped,
}

pub struct ReceiverSm {
    phase: ReceiverPhase,
    accum: Vec<u8>,
    sizes: Vec<(Vec<u8>, u64)>,
    reply: Vec<(Vec<u8>, Vec<u8>)>,
    current: Option<Vec<u8>>,
}

impl View for ReceiverSm {
    type V = ReceiverView;

    closed spec fn view(&self) -> ReceiverView {
        ReceiverView {
            phase: self.phase,
            accum: self.accum@,
            sizes: self.sizes@.map_values(|p: (Vec<u8>, u64)| pair_size_views(p)),
            reply: self.reply@.map_values(|p: (Vec<u8>, Vec<u8>)| pair_views(p)),
            current: match self.current {
                Some(ref id) => Some(id@),
                None => None,
            },
        }
    }
}

/// Relies on uuid::Uuid::new_v4 and its hyphenated text form: a fresh random
/// identifier of 36 ASCII bytes. Nothing further can be promised of a random
/// value.
#[verifier::external_body]
fn fresh_token() -> (r: Vec<u8>)
    ensures
        r@.len() == 36,
{
    uuid::Uuid::new_v4().to_string().into_bytes()
}

pub open spec fn not_found_msg() -> Seq<char> {
    "File not found"@
}

pub open spec fn invalid_token_msg() -> Seq<char> {
    "Invalid token"@
}

pub open spec fn size_missing_msg() -> Seq<char> {
    "Expected size to be available"@
}

pub open spec fn no_header_msg() -> Seq<char> {
    "Received binary data without a header"@
}

/// The placeholder id of an error that no header precedes.
pub open spec fn unknown_file_id() -> Seq<u8> {
    seq![117, 110, 107, 110, 111, 119, 110]  // unknown
}

fn unknown_id_vec() -> (r: Vec<u8>)
    ensures
        r@ == unknown_file_id(),
{
    let mut v: Vec<u8> = Vec::new();
    v.push(117);
    v.push(110);
    v.push(107);
    v.push(110);
    v.push(111);
    v.push(119);
    v.push(110);
    proof {
        assert(v@ =~= unknown_file_id());
    }
    v
}

impl ReceiverSm {
    /// Where the machine stands, for the runtime that drives it.
    pub fn phase(&self) -> (p: ReceiverPhase)
        ensures
            p == self@.phase,
    {
        self.phase
    }

    /// A fresh machine, waiting for the first manifest chunk.
    pub fn new() -> (sm: ReceiverSm)
        ensures
            sm@.phase is AwaitingManifest,
            sm@.accum == Seq::<u8>::empty(),
            sm@.sizes == Seq::<(Seq<u8>, u64)>::empty(),
            sm@.reply == Seq::<(Seq<u8>, Seq<u8>)>::empty(),
            sm@.current is None,
            sm@.inv(),
    {
        let sm = ReceiverSm {
            phase: ReceiverPhase::AwaitingManifest,
            accum: Vec::new(),
            sizes: Vec::new(),
            reply: Vec::new(),
            current: None,
        };
        proof {
            assert(sm@.sizes =~= Seq::<(Seq<u8>, u64)>::empty());
            assert(sm@.reply =~= Seq::<(Seq<u8>, Seq<u8>)>::empty());
        }
        sm
    }

    /// One inbound data-channel frame.
    ///
    /// While the manifest is awaited, binary frames accumulate, and the
    /// first text frame makes the accumulated bytes the manifest: parsed, it
    /// is published whole; malformed, the session fails. During the body
    /// phase, an empty text frame ends the session; a non-empty one must be
    /// a file header naming a selected id with the very token generated for
    /// it and a declared size, else it draws a per-file error and clears the
    /// current file; and a binary frame is forwarded exactly when a current
    /// file stands.
    #[verifier::rlimit(100)]
    #[verifier::spinoff_prover]
    pub fn on_frame(&mut self, is_text: bool, data: Vec<u8>) -> (r: ReceiverOutput)
        requires
            old(self)@.inv(),
        ensures
            final(self)@.inv(),
            old(self)@.phase is AwaitingManifest && !is_text ==> {
                &&& final(self)@ =~= ReceiverView {
                    accum: old(self)@.accum + data@,
                    ..old(self)@
                }
                &&& r is Accumulated
            },
            old(self)@.phase is AwaitingManifest && is_text ==> (match manifest_of(
                old(self)@.accum,
            ) {
                Some(ms) => {
                    &&& final(self)@.phase is AwaitingSelection
                    &&& final(self)@.sizes == ms.map_values(|m: FileMeta| (m.id, m.size))
                    &&& final(self)@.reply == old(self)@.reply
                    &&& final(self)@.current is None
                    &&& (r matches ReceiverOutput::Files(fs) && fs@.map_values(|f: FileDescriptor| f@) == ms)
                },
                None => final(self)@.phase is Failed && r is Fatal,
            }),
            old(self)@.phase is Receiving && is_text && data@.len() == 0 ==> {
                &&& final(self)@.phase is Done
                &&& r is SessionEnd
            },
            old(self)@.phase is Receiving && is_text && data@.len() > 0 ==> (match header_of(
                data@,
            ) {
                None => final(self)@.phase is Failed && r is Fatal,
                Some((id, tok)) => {
                    &&& final(self)@.phase is Receiving
                    &&& final(self)@.reply == old(self)@.reply
                    &&& final(self)@.sizes == old(self)@.sizes
                    &&& match lookup(old(self)@.reply, id) {
                        None => final(self)@.current is None && (r matches ReceiverOutput::PerFileError(e)
                            && e.file_id@ == id && e.error@ == not_found_msg()),
                        Some(t) => if t != tok {
                            final(self)@.current is None && (r matches ReceiverOutput::PerFileError(e)
                                && e.file_id@ == id && e.error@ == invalid_token_msg())
                        } else {
                            match lookup(old(self)@.sizes, id) {
                                None => final(self)@.current is None && (r matches ReceiverOutput::PerFileError(e) && e.file_id@ == id && e.error@ == size_missing_msg()),
                                Some(sz) => final(self)@.current == Some(id) && (r matches
                                    ReceiverOutput::OpenFile(fid, s) && fid@ == id && s == sz),
                            }
                        },
                    }
                },
            }),
            old(self)@.phase is Receiving && !is_text ==> {
                &&& final(self)@ == old(self)@
                &&& match old(self)@.current {
                    Some(id) => r matches ReceiverOutput::Body(d) && d@ == data@,
                    None => r matches ReceiverOutput::PerFileError(e) && e.file_id@ == unknown_file_id()
                        && e.error@ == no_header_msg(),
                }
            },
            !(old(self)@.phase is AwaitingManifest) && !(old(self)@.phase is Receiving) ==> {
                &&& final(self)@ == old(self)@
                &&& r is Dropped
            },
    {
        match self.phase {
            ReceiverPhase::AwaitingManifest => {
                if !is_text {
                    let mut data = data;
                    self.accum.append(&mut data);
                    ReceiverOutput::Accumulated
                } else {
                    match parse_manifest(&self.accum) {
                        Some(fs) => {
                            let mut sizes: Vec<(Vec<u8>, u64)> = Vec::new();
                            let mut i: usize = 0;
                            while i < fs.len()
                                invariant
                                    i <= fs@.len(),
                                    sizes@.map_values(|p: (Vec<u8>, u64)| pair_size_views(p))
                                        =~= fs@.map_values(|f: FileDescriptor| f@).map_values(
                                        |m: FileMeta| (m.id, m.size),
                                    ).take(i as int),
                                decreases fs@.len() - i,
                            {
                                let ghost s0 = sizes@;
                                let id = copy_bytes(&fs[i].id);
                                let sz = fs[i].size;
                                sizes.push((id, sz));
                                proof {
                                    let full = fs@.map_values(|f: FileDescriptor| f@).map_values(
                                        |m: FileMeta| (m.id, m.size),
                                    );
                                    assert(sizes@.map_values(
                                        |p: (Vec<u8>, u64)| pair_size_views(p),
                                    ) =~= s0.map_values(|p: (Vec<u8>, u64)| pair_size_views(p)).push(
                                        (fs@[i as int].id@, fs@[i as int].size),
                                    ));
                                    assert(full.take(i + 1) =~= full.take(i as int).push(
                                        full[i as int],
                                    ));
                                    assert(full[i as int] == (fs@[i as int].id@, fs@[i as int].size));
                                }
                                i = i + 1;
                            }
                            proof {
                                let full = fs@.map_values(|f: FileDescriptor| f@).map_values(
                                    |m: FileMeta| (m.id, m.size),
                                );
                                assert(full.take(fs@.len() as int) =~= full);
                            }
                            self.sizes = sizes;
                            self.current = None;
                            self.phase = ReceiverPhase::AwaitingSelection;
                            ReceiverOutput::Files(fs)
                        },
                        None => {
                            self.phase = ReceiverPhase::Failed;
                            ReceiverOutput::Fatal
                        },
                    }
                }
            },
            ReceiverPhase::Receiving => {
                if is_text {
                    if data.len() == 0 {
                        self.phase = ReceiverPhase::Done;
                        self.current = None;
                        ReceiverOutput::SessionEnd
                    } else {
                        match parse_header(&data) {
                            None => {
                                self.phase = ReceiverPhase::Failed;
                                ReceiverOutput::Fatal
                            },
                            Some(h) => {
                                match find_token(&self.reply, &h.id) {
                                    None => {
                                        self.current = None;
                                        ReceiverOutput::PerFileError(
                                            RTCFileError {
                                                file_id: h.id,
                                                error: String::from_str("File not found"),
                                            },
                                        )
                                    },
                                    Some(i) => {
                                        if !bytes_eq(&self.reply[i].1, &h.token) {
                                            self.current = None;
                                            ReceiverOutput::PerFileError(
                                                RTCFileError {
                                                    file_id: h.id,
                                                    error: String::from_str("Invalid token"),
                                                },
                                            )
                                        } else {
                                            match find_size(&self.sizes, &h.id) {
                                                None => {
                                                    self.current = None;
                                                    ReceiverOutput::PerFileError(
                                                        RTCFileError {
                                                            file_id: h.id,
                                                            error: String::from_str(
                                                                "Expected size to be available",
                                                            ),
                                                        },
                                                    )
                                                },
                                                Some(sz) => {
                                                    self.current = Some(copy_bytes(&h.id));
                                                    ReceiverOutput::OpenFile(h.id, sz)
                                                },
                                            }
                                        }
                                    },
                                }
                            },
                        }
                    }
                } else {
                    match &self.current {
                        Some(_) => ReceiverOutput::Body(data),
                        None => ReceiverOutput::PerFileError(
                            RTCFileError {
                                file_id: unknown_id_vec(),
                                error: String::from_str(
                                    "Received binary data without a header",
                                ),
                            },
                        ),
                    }
                }
            },
            _ => ReceiverOutput::Dropped,
        }
    }

    /// The host selected these file ids: a fresh token is drawn for each,
    /// and the selection reply goes out as binary chunks closed by the empty
    /// text terminator. The reply lists exactly the selected ids, in order.
    pub fn on_selection(&mut self, selected: Vec<Vec<u8>>) -> (frames: Vec<Frame>)
        requires
            old(self)@.phase is AwaitingSelection,
            old(self)@.inv(),
        ensures
            final(self)@.inv(),
            final(self)@.phase is Receiving,
            final(self)@.current is None,
            final(self)@.sizes == old(self)@.sizes,
            final(self)@.reply.map_values(|p: (Seq<u8>, Seq<u8>)| p.0) == selected@.map_values(
                |id: Vec<u8>| id@,
            ),
            frames@.map_values(|f: Frame| f@) == binary_frames_of(
                chunks_of(reply_json(final(self)@.reply)),
            ) + seq![FrameV::Text(Seq::<u8>::empty())],
    {
        broadcast use Seq::lemma_flatten_singleton;

        let ghost sel = selected@;
        let mut selected = selected;
        let mut reply: Vec<(Vec<u8>, Vec<u8>)> = Vec::new();
        while selected.len() > 0
            invariant
                sel.map_values(|id: Vec<u8>| id@) =~= reply@.map_values(
                    |p: (Vec<u8>, Vec<u8>)| pair_views(p),
                ).map_values(|p: (Seq<u8>, Seq<u8>)| p.0) + selected@.map_values(
                    |id: Vec<u8>| id@,
                ),
            decreases selected@.len(),
        {
            let ghost r0 = reply@;
            let ghost s0 = selected@;
            let id = selected.remove(0);
            let tok = fresh_token();
            reply.push((id, tok));
            proof {
                assert(reply@.map_values(|p: (Vec<u8>, Vec<u8>)| pair_views(p)).map_values(
                    |p: (Seq<u8>, Seq<u8>)| p.0,
                ) =~= r0.map_values(|p: (Vec<u8>, Vec<u8>)| pair_views(p)).map_values(
                    |p: (Seq<u8>, Seq<u8>)| p.0,
                ).push(s0[0]@));
                assert(s0.map_values(|id: Vec<u8>| id@) =~= seq![s0[0]@] + selected@.map_values(
                    |id: Vec<u8>| id@,
                ));
            }
        }
        proof {
            assert(selected@.map_values(|id: Vec<u8>| id@) =~= Seq::<Seq<u8>>::empty());
            assert(sel.map_values(|id: Vec<u8>| id@) =~= reply@.map_values(
                |p: (Vec<u8>, Vec<u8>)| pair_views(p),
            ).map_values(|p: (Seq<u8>, Seq<u8>)| p.0));
        }
        self.reply = reply;
        self.current = None;
        self.phase = ReceiverPhase::Receiving;
        let encoded = encode_reply(&self.reply);
        let ghost rjson = encoded@;
        let mut inputs: Vec<Vec<u8>> = Vec::new();
        inputs.push(encoded);
        proof {
            assert(inputs@.map_values(|c: Vec<u8>| c@).len() == 1);
            assert(concat_of(inputs@) == inputs@.map_values(|c: Vec<u8>| c@)[0]);
            assert(concat_of(inputs@) == rjson);
        }
        let chunks = chunk_all(&inputs);
        let mut frames = crate::sender::frames_from_chunks(chunks);
        let ghost before_term = frames@;
        frames.push(Frame::Text(Vec::new()));
        proof {
            assert(frames@.map_values(|f: Frame| f@) =~= before_term.map_values(|f: Frame| f@)
                + seq![FrameV::Text(Seq::<u8>::empty())]);
        }
        frames
    }

    /// The host declined the offer: no reply is emitted at all, only the
    /// bare terminator, and the session ends cleanly. The peer is left with
    /// an empty accumulation, which it reads as an empty token table.
    pub fn decline(&mut self) -> (f: Frame)
        requires
            old(self)@.phase is AwaitingSelection,
            old(self)@.inv(),
        ensures
            final(self)@.inv(),
            final(self)@.phase is Done,
            final(self)@.reply == old(self)@.reply,
            f@ == FrameV::Text(Seq::<u8>::empty()),
    {
        self.phase = ReceiverPhase::Done;
        Frame::Text(Vec::new())
    }
}

} // verus!
