use bertlib::channel::{prepare_request, response_token_count, ChannelState};
use bertlib::wire::{decode_response, encode_request, format_decimal, ProtocolError};
use bertlib::{ping, EMBEDDING_LENGTH};

#[test]
fn request_framing_exact_bytes() {
    let sentences = vec![b"Rust".to_vec(), b"apple".to_vec()];
    let bytes = encode_request(&sentences);
    assert_eq!(bytes, b"2\0Rust\0apple\0".to_vec());
}

#[test]
fn request_framing_empty_batch() {
    let sentences: Vec<Vec<u8>> = Vec::new();
    let bytes = encode_request(&sentences);
    assert_eq!(bytes, b"0\0".to_vec());
}

#[test]
fn request_framing_empty_sentence() {
    let sentences = vec![Vec::new(), b"x".to_vec()];
    let bytes = encode_request(&sentences);
    assert_eq!(bytes, b"2\0\0x\0".to_vec());
}

#[test]
fn decimal_header_digits() {
    assert_eq!(format_decimal(0), b"0".to_vec());
    assert_eq!(format_decimal(7), b"7".to_vec());
    assert_eq!(format_decimal(10), b"10".to_vec());
    assert_eq!(format_decimal(384), b"384".to_vec());
    assert_eq!(format_decimal(4294967295), b"4294967295".to_vec());
}

#[test]
fn encode_before_initialize_fails() {
    let empty: Vec<Vec<u8>> = Vec::new();
    let r = prepare_request(&ChannelState::Uninitialized, &empty);
    assert_eq!(r, Err(ProtocolError::Uninitialized));

    let two = vec![b"a".to_vec(), b"b".to_vec()];
    let r = prepare_request(&ChannelState::Uninitialized, &two);
    assert_eq!(r, Err(ProtocolError::Uninitialized));
}

#[test]
fn initialize_then_encode_succeeds() {
    let state = ChannelState::Uninitialized.after_initialize();
    assert!(state.is_running());
    let sentences = vec![b"Rust".to_vec(), b"apple".to_vec()];
    let r = prepare_request(&state, &sentences);
    assert_eq!(r, Ok(b"2\0Rust\0apple\0".to_vec()));
}

#[test]
fn reinitialize_keeps_running() {
    let state = ChannelState::Running.after_initialize();
    assert!(state.is_running());
    assert!(!ChannelState::Uninitialized.is_running());
}

#[test]
fn encode_request_is_deterministic() {
    let sentences = vec![b"same".to_vec(), b"batch".to_vec()];
    let first = encode_request(&sentences);
    let second = encode_request(&sentences);
    assert_eq!(first, second);
}

#[test]
fn decode_full_synthetic_response() {
    // A synthetic worker answering a 2-sentence batch with "1.5" everywhere.
    let count = response_token_count(2);
    assert_eq!(count, 2 * EMBEDDING_LENGTH);
    let mut data: Vec<u8> = Vec::new();
    for _ in 0..count {
        data.extend_from_slice(b"1.5\0");
    }
    let tokens = decode_response(&data, count).unwrap();
    assert_eq!(tokens.len(), 768);
    for token in &tokens {
        assert_eq!(token, &b"1.5".to_vec());
        let value: f32 = std::str::from_utf8(token).unwrap().parse().unwrap();
        assert_eq!(value, 1.5);
    }
}

#[test]
fn decode_keeps_stream_order() {
    let data = b"a\0bc\0def\0".to_vec();
    let tokens = decode_response(&data, 3).unwrap();
    assert_eq!(
        tokens,
        vec![b"a".to_vec(), b"bc".to_vec(), b"def".to_vec()]
    );
}

#[test]
fn decode_is_deterministic() {
    let data = b"0.25\0-1.5\0".to_vec();
    let first = decode_response(&data, 2).unwrap();
    let second = decode_response(&data, 2).unwrap();
    assert_eq!(first, second);
}

#[test]
fn decode_allows_empty_tokens() {
    let data = b"\0\0".to_vec();
    let tokens = decode_response(&data, 2).unwrap();
    assert_eq!(tokens, vec![Vec::new(), Vec::new()]);
}

#[test]
fn decode_leaves_later_bytes_unread() {
    let data = b"1\02\0rest".to_vec();
    let tokens = decode_response(&data, 2).unwrap();
    assert_eq!(tokens, vec![b"1".to_vec(), b"2".to_vec()]);
}

#[test]
fn short_read_is_an_error() {
    // A worker that closed its stream one token early.
    let mut data: Vec<u8> = Vec::new();
    for _ in 0..767 {
        data.extend_from_slice(b"1.5\0");
    }
    assert_eq!(decode_response(&data, 768), Err(ProtocolError::ShortRead));
}

#[test]
fn truncated_final_token_is_an_error() {
    // The last token never got its terminator before the stream closed.
    let data = b"1.5\01.5".to_vec();
    assert_eq!(decode_response(&data, 2), Err(ProtocolError::ShortRead));
}

#[test]
fn empty_stream_short_reads_unless_nothing_expected() {
    let data: Vec<u8> = Vec::new();
    assert_eq!(decode_response(&data, 1), Err(ProtocolError::ShortRead));
    assert_eq!(decode_response(&data, 0), Ok(Vec::new()));
}

#[test]
fn ping_doubles() {
    assert_eq!(ping(0), 0);
    assert_eq!(ping(21), 42);
    assert_eq!(ping(-5), -10);
}
