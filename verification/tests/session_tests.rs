//! Whole sessions run in memory: the sender's frames are fed straight into
//! the receiver and the receiver's frames straight back.

use rtc_core::chunker::CHUNK_SIZE;
use rtc_core::messages::{encode_header, parse_header, parse_reply, FileDescriptor};
use rtc_core::receiver::{ReceiverOutput, ReceiverSm};
use rtc_core::sender::SenderSm;
use rtc_core::Frame;

fn b(s: &str) -> Vec<u8> {
    s.as_bytes().to_vec()
}

fn descriptor(id: &str, size: u64) -> FileDescriptor {
    FileDescriptor {
        id: b(id),
        file_name: b(id),
        size,
        file_type: b("application/octet-stream"),
        sha256: None,
        preview: None,
        metadata: None,
    }
}

/// Feed one frame into the receiver, as the data channel would.
fn feed_receiver(rx: &mut ReceiverSm, frame: Frame) -> ReceiverOutput {
    match frame {
        Frame::Text(d) => rx.on_frame(true, d),
        Frame::Binary(d) => rx.on_frame(false, d),
    }
}

/// Feed one frame into the sender's handshake side.
fn feed_sender(tx: &mut SenderSm, frame: Frame) -> Option<Vec<Vec<u8>>> {
    match frame {
        Frame::Text(d) => tx.on_frame(true, d),
        Frame::Binary(d) => tx.on_frame(false, d),
    }
}

/// Run the handshake: manifest over, selection made, reply back. Returns the
/// published files and the ids the sender learned.
fn handshake(
    files: Vec<FileDescriptor>,
    selection: Vec<Vec<u8>>,
    tx: &mut Option<SenderSm>,
    rx: &mut ReceiverSm,
) -> (Vec<FileDescriptor>, Vec<Vec<u8>>) {
    let (sender, manifest_frames) = SenderSm::start(&files);
    *tx = Some(sender);
    let sender = tx.as_mut().unwrap();

    let mut published = None;
    for frame in manifest_frames {
        match feed_receiver(rx, frame) {
            ReceiverOutput::Accumulated => {}
            ReceiverOutput::Files(fs) => published = Some(fs),
            other => panic!("unexpected receiver output during handshake: {}", name(&other)),
        }
    }
    let published = published.expect("the terminator must publish the manifest");

    let reply_frames = rx.on_selection(selection);
    let mut selected = None;
    for frame in reply_frames {
        if let Some(ids) = feed_sender(sender, frame) {
            selected = Some(ids);
        }
    }
    (published, selected.expect("the terminator must resolve the selection"))
}

fn name(out: &ReceiverOutput) -> &'static str {
    match out {
        ReceiverOutput::Accumulated => "Accumulated",
        ReceiverOutput::Files(_) => "Files",
        ReceiverOutput::Fatal => "Fatal",
        ReceiverOutput::PerFileError(_) => "PerFileError",
        ReceiverOutput::OpenFile(_, _) => "OpenFile",
        ReceiverOutput::Body(_) => "Body",
        ReceiverOutput::SessionEnd => "SessionEnd",
        ReceiverOutput::Dropped => "Dropped",
    }
}

/// Send one whole file body through sender and receiver; returns the bytes
/// the receiver forwarded for it.
fn stream_file(tx: &mut SenderSm, rx: &mut ReceiverSm, id: &str, body: &[u8]) -> Vec<u8> {
    let header = tx.file_header(&b(id)).expect("the id must be selected");
    match feed_receiver(rx, header) {
        ReceiverOutput::OpenFile(fid, _) => assert_eq!(fid, b(id)),
        other => panic!("header must open the file, got {}", name(&other)),
    }
    let mut received = Vec::new();
    let mut frames = tx.file_chunk(&body.to_vec());
    if let Some(tail) = tx.file_end() {
        frames.push(tail);
    }
    for frame in frames {
        match feed_receiver(rx, frame) {
            ReceiverOutput::Body(d) => received.extend_from_slice(&d),
            other => panic!("body frames must be forwarded, got {}", name(&other)),
        }
    }
    received
}

#[test]
fn single_small_file_arrives_whole() {
    let mut tx = None;
    let mut rx = ReceiverSm::new();
    let (published, selected) =
        handshake(vec![descriptor("A", 5)], vec![b("A")], &mut tx, &mut rx);
    assert_eq!(published.len(), 1);
    assert_eq!(published[0].id, b("A"));
    assert_eq!(published[0].size, 5);
    assert_eq!(selected, vec![b("A")]);

    let tx = tx.as_mut().unwrap();
    let received = stream_file(tx, &mut rx, "A", b"hello");
    assert_eq!(received, b"hello");

    let terminator = tx.finish();
    match feed_receiver(&mut rx, terminator) {
        ReceiverOutput::SessionEnd => {}
        other => panic!("expected the session end, got {}", name(&other)),
    }
}

#[test]
fn chunk_boundary_splits_into_two_frames() {
    let mut tx = None;
    let mut rx = ReceiverSm::new();
    let body: Vec<u8> = (0..CHUNK_SIZE + 1).map(|i| (i % 251) as u8).collect();
    assert_eq!(body.len(), 16385);
    handshake(vec![descriptor("A", 16385)], vec![b("A")], &mut tx, &mut rx);
    let tx = tx.as_mut().unwrap();

    let header = tx.file_header(&b("A")).expect("selected");
    feed_receiver(&mut rx, header);
    let frames = tx.file_chunk(&body);
    assert_eq!(frames.len(), 1);
    let tail = tx.file_end().expect("one byte must remain");
    let sizes: Vec<usize> = frames
        .iter()
        .chain(std::iter::once(&tail))
        .map(|f| match f {
            Frame::Binary(d) => d.len(),
            Frame::Text(_) => panic!("a body frame must be binary"),
        })
        .collect();
    assert_eq!(sizes, vec![16384, 1]);

    let mut received = Vec::new();
    for frame in frames.into_iter().chain(std::iter::once(tail)) {
        match feed_receiver(&mut rx, frame) {
            ReceiverOutput::Body(d) => received.extend_from_slice(&d),
            other => panic!("body frames must be forwarded, got {}", name(&other)),
        }
    }
    assert_eq!(received, body);
}

#[test]
fn two_files_keep_wire_order() {
    // collect the whole wire, sender to receiver, and check its shape:
    // manifest chunks, "", then (after the reply) header A, body A,
    // header B, body B, ""
    let files = vec![descriptor("A", 10), descriptor("B", 20)];
    let (mut tx, manifest_frames) = SenderSm::start(&files);
    let mut rx = ReceiverSm::new();

    let mut wire: Vec<(bool, Vec<u8>)> = Vec::new();
    for frame in manifest_frames {
        let (is_text, data) = match frame {
            Frame::Text(d) => (true, d),
            Frame::Binary(d) => (false, d),
        };
        wire.push((is_text, data.clone()));
        rx.on_frame(is_text, data);
    }
    assert!(wire.len() >= 2);
    assert!(wire[..wire.len() - 1].iter().all(|(t, _)| !*t));
    assert_eq!(wire.last().unwrap(), &(true, Vec::new()));

    for frame in rx.on_selection(vec![b("A"), b("B")]) {
        feed_sender(&mut tx, frame);
    }

    let mut wire2: Vec<(bool, Vec<u8>)> = Vec::new();
    let mut put = |f: Frame| match f {
        Frame::Text(d) => wire2.push((true, d)),
        Frame::Binary(d) => wire2.push((false, d)),
    };
    put(tx.file_header(&b("A")).expect("A selected"));
    for f in tx.file_chunk(&vec![1u8; 10]) {
        put(f);
    }
    if let Some(f) = tx.file_end() {
        put(f);
    }
    put(tx.file_header(&b("B")).expect("B selected"));
    for f in tx.file_chunk(&vec![2u8; 20]) {
        put(f);
    }
    if let Some(f) = tx.file_end() {
        put(f);
    }
    put(tx.finish());

    assert_eq!(wire2.len(), 5);
    assert!(wire2[0].0 && !wire2[1].0 && wire2[2].0 && !wire2[3].0 && wire2[4].0);
    let h0 = parse_header(&wire2[0].1).expect("header A");
    assert_eq!(h0.id, b("A"));
    assert_eq!(wire2[1].1, vec![1u8; 10]);
    let h2 = parse_header(&wire2[2].1).expect("header B");
    assert_eq!(h2.id, b("B"));
    assert_eq!(wire2[3].1, vec![2u8; 20]);
    assert_eq!(wire2[4].1, Vec::<u8>::new());
}

#[test]
fn decline_ends_both_sides_without_binary_frames() {
    let files = vec![descriptor("A", 10)];
    let (mut tx, manifest_frames) = SenderSm::start(&files);
    let mut rx = ReceiverSm::new();
    for frame in manifest_frames {
        feed_receiver(&mut rx, frame);
    }

    let terminator = rx.decline();
    match &terminator {
        Frame::Text(d) => assert!(d.is_empty()),
        Frame::Binary(_) => panic!("declining must emit the bare terminator"),
    }
    let selected = feed_sender(&mut tx, terminator).expect("the terminator resolves");
    assert!(selected.is_empty());

    // with an empty token table the sender refuses every file
    let err = tx.file_header(&b("A")).expect_err("nothing was selected");
    assert_eq!(err.file_id, b("A"));
    assert_eq!(err.error, "Failed to get file token");

    // and still closes the session cleanly, with zero binary frames sent
    match tx.finish() {
        Frame::Text(d) => assert!(d.is_empty()),
        Frame::Binary(_) => panic!("the terminator is a text frame"),
    }
}

#[test]
fn bad_token_is_refused_and_bodies_are_discarded() {
    let mut tx = None;
    let mut rx = ReceiverSm::new();
    handshake(vec![descriptor("A", 5)], vec![b("A")], &mut tx, &mut rx);

    // a malicious sender invents its own token
    let forged = encode_header(&b("A"), &b("not-the-right-token"));
    match rx.on_frame(true, forged) {
        ReceiverOutput::PerFileError(e) => {
            assert_eq!(e.file_id, b("A"));
            assert_eq!(e.error, "Invalid token");
        }
        other => panic!("a forged token must draw an error, got {}", name(&other)),
    }
    // the binary frames that follow are discarded, not forwarded
    match rx.on_frame(false, b"stolen bytes".to_vec()) {
        ReceiverOutput::PerFileError(e) => {
            assert_eq!(e.file_id, b("unknown"));
            assert_eq!(e.error, "Received binary data without a header");
        }
        other => panic!("a body without a header must be dropped, got {}", name(&other)),
    }
    // a proper header afterwards opens the file again
    let tx = tx.as_mut().unwrap();
    let header = tx.file_header(&b("A")).expect("A is selected");
    match feed_receiver(&mut rx, header) {
        ReceiverOutput::OpenFile(fid, size) => {
            assert_eq!(fid, b("A"));
            assert_eq!(size, 5);
        }
        other => panic!("the genuine header must open the file, got {}", name(&other)),
    }
}

#[test]
fn unknown_id_and_missing_size_draw_per_file_errors() {
    // the host may select an id the manifest never offered: the receiver
    // then generates a token for it, but no size is on record
    let files = vec![descriptor("A", 5)];
    let (_tx, manifest_frames) = SenderSm::start(&files);
    let mut rx = ReceiverSm::new();
    for frame in manifest_frames {
        feed_receiver(&mut rx, frame);
    }
    let reply_frames = rx.on_selection(vec![b("Z")]);
    let mut reply_payload = Vec::new();
    for frame in &reply_frames {
        if let Frame::Binary(d) = frame {
            reply_payload.extend_from_slice(d);
        }
    }
    let pairs = parse_reply(&reply_payload).expect("the reply must parse");
    assert_eq!(pairs.len(), 1);
    assert_eq!(pairs[0].0, b("Z"));
    let token_z = pairs[0].1.clone();

    // an id the receiver never put in its reply
    match rx.on_frame(true, encode_header(&b("A"), &b("whatever"))) {
        ReceiverOutput::PerFileError(e) => {
            assert_eq!(e.file_id, b("A"));
            assert_eq!(e.error, "File not found");
        }
        other => panic!("an unselected id must be refused, got {}", name(&other)),
    }
    // the right token for Z, but the manifest declared no size for it
    match rx.on_frame(true, encode_header(&b("Z"), &token_z)) {
        ReceiverOutput::PerFileError(e) => {
            assert_eq!(e.file_id, b("Z"));
            assert_eq!(e.error, "Expected size to be available");
        }
        other => panic!("a missing size must be refused, got {}", name(&other)),
    }
}

#[test]
fn malformed_header_is_session_fatal() {
    let mut tx = None;
    let mut rx = ReceiverSm::new();
    handshake(vec![descriptor("A", 5)], vec![b("A")], &mut tx, &mut rx);
    match rx.on_frame(true, b"this is no header".to_vec()) {
        ReceiverOutput::Fatal => {}
        other => panic!("a malformed header must be fatal, got {}", name(&other)),
    }
}

#[test]
fn generated_tokens_are_fresh_identifiers() {
    let files = vec![descriptor("A", 5)];
    let (_tx, manifest_frames) = SenderSm::start(&files);
    let mut rx = ReceiverSm::new();
    for frame in manifest_frames {
        feed_receiver(&mut rx, frame);
    }
    let mut payload = Vec::new();
    for frame in &rx.on_selection(vec![b("A")]) {
        if let Frame::Binary(d) = frame {
            payload.extend_from_slice(d);
        }
    }
    let pairs = parse_reply(&payload).expect("the reply must parse");
    assert_eq!(pairs[0].1.len(), 36);

    // a second session draws a different token for the same id
    let (_tx2, manifest_frames2) = SenderSm::start(&files);
    let mut rx2 = ReceiverSm::new();
    for frame in manifest_frames2 {
        feed_receiver(&mut rx2, frame);
    }
    let mut payload2 = Vec::new();
    for frame in &rx2.on_selection(vec![b("A")]) {
        if let Frame::Binary(d) = frame {
            payload2.extend_from_slice(d);
        }
    }
    let pairs2 = parse_reply(&payload2).expect("the reply must parse");
    assert_ne!(pairs[0].1, pairs2[0].1);
}

#[test]
fn malformed_manifest_is_session_fatal() {
    let mut rx = ReceiverSm::new();
    rx.on_frame(false, b"this is not json".to_vec());
    match rx.on_frame(true, Vec::new()) {
        ReceiverOutput::Fatal => {}
        other => panic!("a malformed manifest must be fatal, got {}", name(&other)),
    }
}

#[test]
fn malformed_reply_leaves_sender_with_no_tokens() {
    let (mut tx, _frames) = SenderSm::start(&vec![descriptor("A", 5)]);
    tx.on_frame(false, b"not a reply".to_vec());
    let selected = tx.on_frame(true, Vec::new()).expect("the text frame resolves");
    assert!(selected.is_empty());
    let err = tx.file_header(&b("A")).expect_err("no token was learned");
    assert_eq!(err.error, "Failed to get file token");
}

#[test]
fn handshake_accumulation_reassembles_split_frames() {
    // the manifest arrives as one binary frame per byte; the receiver must
    // still parse the concatenation
    let files = vec![descriptor("split", 3)];
    let (_tx, manifest_frames) = SenderSm::start(&files);
    let mut rx = ReceiverSm::new();
    for frame in manifest_frames {
        match frame {
            Frame::Binary(d) => {
                for byte in d {
                    rx.on_frame(false, vec![byte]);
                }
            }
            Frame::Text(d) => match rx.on_frame(true, d) {
                ReceiverOutput::Files(fs) => {
                    assert_eq!(fs.len(), 1);
                    assert_eq!(fs[0].id, b("split"));
                }
                other => panic!("the prefix must parse as the manifest, got {}", name(&other)),
            },
        }
    }
}
