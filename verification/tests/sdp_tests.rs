use rtc_core::sdp::{decode_sdp, encode_sdp, SdpError};

const SDP_SAMPLE: &str = "v=0\r\no=- 4611731400430051336 2 IN IP4 127.0.0.1\r\ns=-\r\nt=0 0\r\na=group:BUNDLE 0\r\nm=application 9 UDP/DTLS/SCTP webrtc-datachannel\r\na=fingerprint:sha-256 19:E2:1C:3B:4B:9F:81:E6:B8:5C:F4:A5:A8:D8:73:04\r\na=setup:actpass\r\na=mid:0\r\na=sctp-port:5000\r\n";

#[test]
fn sdp_round_trip() {
    let encoded = encode_sdp(SDP_SAMPLE);
    let decoded = decode_sdp(&encoded).expect("decoding its own encoding must succeed");
    assert_eq!(decoded, SDP_SAMPLE);
}

#[test]
fn sdp_encoding_is_base64url_without_padding() {
    // the input holds spaces, colons, '=' signs and CRLFs; none may survive
    let encoded = encode_sdp(SDP_SAMPLE);
    assert!(!encoded.is_empty());
    assert!(encoded.chars().all(|c| {
        c.is_ascii_alphanumeric() || c == '-' || c == '_'
    }));
    assert!(!encoded.contains('='));
    assert_ne!(encoded, SDP_SAMPLE);
}

#[test]
fn sdp_encoding_compresses_repetitive_text() {
    // Brotli at quality 11 must shrink a long repetitive text; base64 then
    // expands by 4/3, so the result staying far below the input shows the
    // compressor really ran.
    let long: String = "a=candidate:1 1 UDP 2122252543 192.168.1.1 49152 typ host\r\n".repeat(200);
    let encoded = encode_sdp(&long);
    assert!(encoded.len() < long.len() / 4);
    let decoded = decode_sdp(&encoded).expect("round trip");
    assert_eq!(decoded, long);
}

#[test]
fn sdp_round_trip_survives_unicode() {
    let text = "v=0\r\ns=Sitzungsbeschreibung \u{00fc}ber \u{1f980}\r\n";
    let decoded = decode_sdp(&encode_sdp(text)).expect("round trip");
    assert_eq!(decoded, text);
}

#[test]
fn sdp_decode_rejects_bad_base64() {
    match decode_sdp("!!!not base64url!!!") {
        Err(SdpError::InvalidBase64) => {}
        _ => panic!("expected a base64 error"),
    }
}

#[test]
fn sdp_decode_rejects_non_brotli_payload() {
    // valid base64url ("AAAA" decodes to three zero bytes), but no Brotli
    // stream of UTF-8 text
    match decode_sdp("A") {
        Err(_) => {}
        Ok(decoded) => {
            // a one-letter base64 string cannot decode at all, but keep the
            // variant check honest if the engine ever accepted it
            panic!("expected an error, got {decoded:?}");
        }
    }
    match decode_sdp("_____w") {
        Err(SdpError::InvalidPayload) => {}
        Err(SdpError::InvalidBase64) => panic!("that input is valid base64url"),
        Ok(_) => panic!("0xff bytes are no Brotli stream"),
    }
}
