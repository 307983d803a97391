//! The sender's protocol state machine.
//!
//! The machine is pure: the surrounding runtime feeds it the data channel's
//! events and the host's file submissions, and performs the frames it hands
//! back. It opens the session with the chunked offer manifest, accumulates
//! the binary selection-reply frames until the first text frame, and then
//! sends one header and one chunked body per submitted file — but only for a
//! file the receiver selected: a header carries exactly the token the reply
//! assigned to its id, and a file without one is refused with a per-file
//! error and never reaches the wire.

use vstd::prelude::*;
use crate::RTCFileError;
use crate::Frame;
use crate::FrameV;
use crate::binary_frames_of;
use crate::assoc::{copy_bytes, find_token, lookup};
use crate::chunker::{CHUNK_SIZE, Chunker, chunk_all, chunks_of, concat_of};
use crate::messages::{FileDescriptor, encode_header, encode_manifest, header_json, manifest_json,
    pair_views, reply_of};
use vstd::string::StringExecFns;

verus! {

/// Where the sender stands in the session.
#[derive(Clone, Copy)]
pub enum SenderPhase {
    /// Manifest sent; binary reply frames are accumulating.
    AwaitingReply,
    /// Selection reply received; between files.
    Ready,
    /// A file header went out; body chunks are flowing.
    Streaming,
    /// Terminator sent; the session is over.
    Done,
}

/// The mathematical shadow of a `SenderSm`.
#[verifier::ext_equal]
pub ghost struct SenderView {
    pub phase: SenderPhase,
    pub accum: Seq<u8>,
    pub tokens: Seq<(Seq<u8>, Seq<u8>)>,
    pub body: Seq<u8>,
}

pub struct SenderSm {
    phase: SenderPhase,
    accum: Vec<u8>,
    tokens: Vec<(Vec<u8>, Vec<u8>)>,
    body: Chunker,
}

impl View for SenderSm {
    type V = SenderView;

    closed spec fn view(&self) -> SenderView {
        SenderView {
            phase: self.phase,
            accum: self.accum@,
            tokens: self.tokens@.map_values(|p: (Vec<u8>, Vec<u8>)| pair_views(p)),
            body: self.body@,
        }
    }
}

/// The payload a frame carries, text or binary.
pub open spec fn frame_bytes(f: FrameV) -> Seq<u8> {
    match f {
        FrameV::Text(d) => d,
        FrameV::Binary(d) => d,
    }
}

/// The payloads of a frame sequence, in order.
pub open spec fn payloads(fs: Seq<FrameV>) -> Seq<Seq<u8>> {
    fs.map_values(|f: FrameV| frame_bytes(f))
}

/// The error message for a file the receiver did not select.
pub open spec fn token_missing_msg() -> Seq<char> {
    "Failed to get file token"@
}

/// Turn chunks into binary frames, in order.
pub(crate) fn frames_from_chunks(chunks: Vec<Vec<u8>>) -> (r: Vec<Frame>)
    ensures
        r@.map_values(|f: Frame| f@) == binary_frames_of(
            chunks@.map_values(|c: Vec<u8>| c@),
        ),
{
    let ghost orig = chunks@;
    let mut chunks = chunks;
    let mut r: Vec<Frame> = Vec::new();
    while chunks.len() > 0
        invariant
            orig.map_values(|c: Vec<u8>| c@) =~= r@.map_values(|f: Frame| frame_seq_bytes(f))
                + chunks@.map_values(|c: Vec<u8>| c@),
            forall|i: int|
                0 <= i < r@.len() ==> (#[trigger] r@[i])@ == FrameV::Binary(
                    frame_seq_bytes(r@[i]),
                ),
        decreases chunks@.len(),
    {
        let ghost r0 = r@;
        let ghost cs0 = chunks@;
        let c = chunks.remove(0);
        r.push(Frame::Binary(c));
        proof {
            assert(r@.map_values(|f: Frame| frame_seq_bytes(f)) =~= r0.map_values(
                |f: Frame| frame_seq_bytes(f),
            ).push(c@));
            assert(cs0.map_values(|c: Vec<u8>| c@) =~= seq![c@] + chunks@.map_values(
                |c: Vec<u8>| c@,
            ));
        }
    }
    proof {
        assert(chunks@.map_values(|c: Vec<u8>| c@) =~= Seq::<Seq<u8>>::empty());
        assert(r@.map_values(|f: Frame| f@) =~= binary_frames_of(orig.map_values(|c: Vec<u8>| c@)));
    }
    r
}

/// The bytes an exec frame carries.
pub open spec fn frame_seq_bytes(f: Frame) -> Seq<u8> {
    frame_bytes(f@)
}

impl SenderSm {
    /// Where the machine stands, for the runtime that drives it.
    pub fn phase(&self) -> (p: SenderPhase)
        ensures
            p == self@.phase,
    {
        self.phase
    }

    /// Open the session: the machine in its initial phase, and the frames of
    /// the offer manifest — its JSON in binary chunks, closed by the empty
    /// text terminator.
    pub fn start(files: &Vec<FileDescriptor>) -> (r: (SenderSm, Vec<Frame>))
        ensures
            r.0@.phase is AwaitingReply,
            r.0@.accum == Seq::<u8>::empty(),
            r.0@.tokens == Seq::<(Seq<u8>, Seq<u8>)>::empty(),
            r.1@.map_values(|f: Frame| f@) == binary_frames_of(
                chunks_of(manifest_json(files@.map_values(|f: FileDescriptor| f@))),
            ) + seq![FrameV::Text(Seq::<u8>::empty())],
    {
        broadcast use Seq::lemma_flatten_singleton;

        let m = encode_manifest(files);
        let ghost mjson = m@;
        let mut inputs: Vec<Vec<u8>> = Vec::new();
        inputs.push(m);
        proof {
            assert(inputs@.map_values(|c: Vec<u8>| c@).len() == 1);
            assert(concat_of(inputs@) == inputs@.map_values(|c: Vec<u8>| c@)[0]);
            assert(concat_of(inputs@) == mjson);
        }
        let chunks = chunk_all(&inputs);
        let mut frames = frames_from_chunks(chunks);
        let ghost before_term = frames@;
        frames.push(Frame::Text(Vec::new()));
        proof {
            assert(frames@.map_values(|f: Frame| f@) =~= before_term.map_values(|f: Frame| f@)
                + seq![FrameV::Text(Seq::<u8>::empty())]);
        }
        let sm = SenderSm {
            phase: SenderPhase::AwaitingReply,
            accum: Vec::new(),
            tokens: Vec::new(),
            body: Chunker::new(),
        };
        proof {
            assert(sm@.tokens =~= Seq::<(Seq<u8>, Seq<u8>)>::empty());
        }
        (sm, frames)
    }

    /// One inbound data-channel frame. While the reply is awaited, binary
    /// frames accumulate; the first text frame closes the handshake: the
    /// accumulated bytes parse as the selection reply, or — malformed or
    /// empty — leave an empty token table, after which no file header can go
    /// out. The ids of the reply are handed back for the host (the selected
    /// files). A frame in any later phase is ignored.
    pub fn on_frame(&mut self, is_text: bool, data: Vec<u8>) -> (r: Option<Vec<Vec<u8>>>)
        ensures
            old(self)@.phase is AwaitingReply && !is_text ==> {
                &&& final(self)@ =~= SenderView { accum: old(self)@.accum + data@, ..old(self)@ }
                &&& r is None
            },
            old(self)@.phase is AwaitingReply && is_text ==> {
                &&& final(self)@.phase is Ready
                &&& final(self)@.tokens == (match reply_of(old(self)@.accum) {
                    Some(ps) => ps,
                    None => Seq::<(Seq<u8>, Seq<u8>)>::empty(),
                })
                &&& (r matches Some(ids) && ids@.map_values(|id: Vec<u8>| id@)
                    == final(self)@.tokens.map_values(|p: (Seq<u8>, Seq<u8>)| p.0))
            },
            !(old(self)@.phase is AwaitingReply) ==> final(self)@ == old(self)@ && r is None,
    {
        match self.phase {
            SenderPhase::AwaitingReply => {
                if !is_text {
                    let mut data = data;
                    self.accum.append(&mut data);
                    None
                } else {
                    match crate::messages::parse_reply(&self.accum) {
                        Some(ps) => {
                            self.tokens = ps;
                        },
                        None => {
                            self.tokens = Vec::new();
                            proof {
                                assert(self@.tokens =~= Seq::<(Seq<u8>, Seq<u8>)>::empty());
                            }
                        },
                    }
                    self.phase = SenderPhase::Ready;
                    let mut ids: Vec<Vec<u8>> = Vec::new();
                    let mut i: usize = 0;
                    while i < self.tokens.len()
                        invariant
                            i <= self.tokens@.len(),
                            ids@.map_values(|id: Vec<u8>| id@) =~= self.tokens@.map_values(
                                |p: (Vec<u8>, Vec<u8>)| pair_views(p),
                            ).map_values(|p: (Seq<u8>, Seq<u8>)| p.0).take(i as int),
                        decreases self.tokens@.len() - i,
                    {
                        let ghost ids0 = ids@;
                        ids.push(copy_bytes(&self.tokens[i].0));
                        proof {
                            assert(ids@.map_values(|id: Vec<u8>| id@) =~= ids0.map_values(
                                |id: Vec<u8>| id@,
                            ).push(self.tokens@[i as int].0@));
                            assert(self.tokens@.map_values(
                                |p: (Vec<u8>, Vec<u8>)| pair_views(p),
                            ).map_values(|p: (Seq<u8>, Seq<u8>)| p.0).take(i + 1)
                                =~= self.tokens@.map_values(
                                |p: (Vec<u8>, Vec<u8>)| pair_views(p),
                            ).map_values(|p: (Seq<u8>, Seq<u8>)| p.0).take(i as int).push(
                                self.tokens@[i as int].0@,
                            ));
                        }
                        i = i + 1;
                    }
                    proof {
                        let all = self.tokens@.map_values(
                            |p: (Vec<u8>, Vec<u8>)| pair_views(p),
                        ).map_values(|p: (Seq<u8>, Seq<u8>)| p.0);
                        assert(all.take(self.tokens@.len() as int) =~= all);
                    }
                    Some(ids)
                }
            },
            _ => None,
        }
    }

    /// Begin one file. The header frame goes out exactly when the receiver's
    /// reply holds a token for this id, and it carries that token; otherwise
    /// the file is refused with a per-file error and nothing reaches the
    /// wire, so every header the sender ever emits names a selected file.
    pub fn file_header(&mut self, file_id: &Vec<u8>) -> (r: Result<Frame, RTCFileError>)
        requires
            old(self)@.phase is Ready,
        ensures
            final(self)@.accum == old(self)@.accum,
            final(self)@.tokens == old(self)@.tokens,
            match lookup(old(self)@.tokens, file_id@) {
                Some(tok) => {
                    &&& r matches Ok(f) && f@ == FrameV::Text(header_json(file_id@, tok))
                    &&& final(self)@.phase is Streaming
                    &&& final(self)@.body == Seq::<u8>::empty()
                },
                None => {
                    &&& r matches Err(e) && e.file_id@ == file_id@ && e.error@
                        == token_missing_msg()
                    &&& final(self)@.phase is Ready
                },
            },
    {
        match find_token(&self.tokens, file_id) {
            Some(i) => {
                let frame = Frame::Text(encode_header(file_id, &self.tokens[i].1));
                self.phase = SenderPhase::Streaming;
                self.body = Chunker::new();
                Ok(frame)
            },
            None => Err(
                RTCFileError {
                    file_id: copy_bytes(file_id),
                    error: String::from_str("Failed to get file token"),
                },
            ),
        }
    }

    /// One chunk of the current file's bytes: every full chunk now available
    /// leaves as one binary frame; the remainder stays buffered.
    pub fn file_chunk(&mut self, data: &Vec<u8>) -> (frames: Vec<Frame>)
        requires
            old(self)@.phase is Streaming,
        ensures
            final(self)@.phase is Streaming,
            final(self)@.accum == old(self)@.accum,
            final(self)@.tokens == old(self)@.tokens,
            old(self)@.body + data@ == payloads(frames@.map_values(|f: Frame| f@)).flatten()
                + final(self)@.body,
            forall|i: int|
                0 <= i < frames@.len() ==> ((#[trigger] frames@[i])@ matches FrameV::Binary(b)
                    && b.len() == CHUNK_SIZE),
            final(self)@.body.len() < CHUNK_SIZE,
    {
        let chunks = self.body.push(data);
        let ghost chunks_snap = chunks@;
        let ghost cs = chunks@.map_values(|c: Vec<u8>| c@);
        let frames = frames_from_chunks(chunks);
        proof {
            assert(payloads(binary_frames_of(cs)) =~= cs);
            assert forall|i: int|
                0 <= i < frames@.len() implies ((#[trigger] frames@[i])@ matches FrameV::Binary(b)
                && b.len() == CHUNK_SIZE) by {
                assert(frames@.map_values(|f: Frame| f@)[i] == frames@[i]@);
                assert(binary_frames_of(cs)[i] == FrameV::Binary(cs[i]));
                assert(cs[i] == chunks_snap[i]@);
            }
        }
        frames
    }

    /// The current file is exhausted: flush the buffered remainder as a last
    /// short binary frame, if it is non-empty, and stand ready for the next
    /// file.
    pub fn file_end(&mut self) -> (r: Option<Frame>)
        requires
            old(self)@.phase is Streaming,
        ensures
            final(self)@.phase is Ready,
            final(self)@.accum == old(self)@.accum,
            final(self)@.tokens == old(self)@.tokens,
            final(self)@.body == Seq::<u8>::empty(),
            match r {
                Some(f) => f@ == FrameV::Binary(old(self)@.body) && old(self)@.body.len() > 0,
                None => old(self)@.body.len() == 0,
            },
    {
        let tail = self.body.finish();
        self.phase = SenderPhase::Ready;
        match tail {
            Some(t) => Some(Frame::Binary(t)),
            None => None,
        }
    }

    /// No more files: the empty text terminator closes the session.
    pub fn finish(&mut self) -> (f: Frame)
        requires
            old(self)@.phase is Ready,
        ensures
            final(self)@.phase is Done,
            final(self)@.accum == old(self)@.accum,
            final(self)@.tokens == old(self)@.tokens,
            f@ == FrameV::Text(Seq::<u8>::empty()),
    {
        self.phase = SenderPhase::Done;
        Frame::Text(Vec::new())
    }
}

/// A declined or empty selection leaves the sender without tokens, and
/// without a token no id can resolve: the sender then emits no file header
/// at all, whatever the host submits.
pub proof fn lemma_no_tokens_no_header(id: Seq<u8>)
    ensures
        reply_of(Seq::<u8>::empty()) is None,
        lookup(Seq::<(Seq<u8>, Seq<u8>)>::empty(), id) is None,
{
    assert(crate::messages::lit_files_obj().len() == 10);
}

} // verus!
