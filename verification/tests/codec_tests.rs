use smtpbis::codec::{CodecMode, Decoded, LineCodec, LineError};

#[test]
fn command_mode_emits_whole_lines() {
    let mut c = LineCodec::new();
    assert_eq!(c.decode(b"EHLO x\r\n"), Decoded::Line { len: 8 });
    assert_eq!(c.decode(b"EHLO x\r\nMAIL"), Decoded::Line { len: 8 });
}

#[test]
fn command_mode_waits_for_more() {
    let mut c = LineCodec::new();
    assert_eq!(c.decode(b""), Decoded::Incomplete);
    assert_eq!(c.decode(b"EHLO x"), Decoded::Incomplete);
    assert_eq!(c.decode(b"EHLO x\r"), Decoded::Incomplete);
}

#[test]
fn command_mode_rejects_bare_line_feed() {
    let mut c = LineCodec::new();
    assert_eq!(c.decode(b"bad\nline\r\n"), Decoded::Bad);
}

#[test]
fn command_mode_rejects_bare_carriage_return() {
    let mut c = LineCodec::new();
    assert_eq!(c.decode(b"bad\rline\r\n"), Decoded::Bad);
}

#[test]
fn command_mode_line_length_boundary() {
    let mut c = LineCodec::new();
    // 998 bytes of text and CRLF: exactly the longest legal line
    let mut ok = vec![b'a'; 998];
    ok.extend_from_slice(b"\r\n");
    assert_eq!(c.decode(&ok), Decoded::Line { len: 1000 });
    // one more byte of text pushes it over
    let mut long = vec![b'a'; 999];
    long.extend_from_slice(b"\r\n");
    assert_eq!(c.decode(&long), Decoded::TooLong);
    // 999 clean bytes with nothing after can never finish in time
    let clean = vec![b'a'; 999];
    assert_eq!(c.decode(&clean), Decoded::TooLong);
    // 998 clean bytes might still become a 1000-byte line
    let clean = vec![b'a'; 998];
    assert_eq!(c.decode(&clean), Decoded::Incomplete);
}

#[test]
fn chunking_mode_counts_down_and_reverts() {
    let mut c = LineCodec::new();
    c.set_chunking(5);
    assert_eq!(c.decode(b"hel"), Decoded::Chunk { len: 3 });
    // 2 bytes still owed; a bigger buffer only yields those
    assert_eq!(c.decode(b"lo next cmd"), Decoded::Chunk { len: 2 });
    // the chunk is done; the codec reverts to command mode by itself
    assert_eq!(c.decode(b" next cmd"), Decoded::ChunkDone);
    assert_eq!(c.decode(b"QUIT\r\n"), Decoded::Line { len: 6 });
}

#[test]
fn chunking_mode_zero_size_is_done_at_once() {
    let mut c = LineCodec::new();
    c.set_chunking(0);
    assert_eq!(c.decode(b"whatever"), Decoded::ChunkDone);
    assert_eq!(c.decode(b"NOOP\r\n"), Decoded::Line { len: 6 });
}

#[test]
fn chunking_mode_waits_on_empty_buffer() {
    let mut c = LineCodec::new();
    c.set_chunking(4);
    assert_eq!(c.decode(b""), Decoded::Incomplete);
    assert_eq!(c.decode(b"abcd"), Decoded::Chunk { len: 4 });
    assert_eq!(c.decode(b""), Decoded::ChunkDone);
}

#[test]
fn chunk_frames_concatenate_to_the_declared_size() {
    // the BDAT accounting: frames cut from arriving buffers add up to
    // exactly the declared chunk, in order
    let mut c = LineCodec::new();
    c.set_chunking(10);
    let arrivals: [&[u8]; 4] = [b"abc", b"de", b"fghij", b"leftover"];
    let mut got: Vec<u8> = Vec::new();
    for buf in arrivals.iter() {
        match c.decode(buf) {
            Decoded::Chunk { len } => got.extend_from_slice(&buf[..len]),
            Decoded::ChunkDone => break,
            other => panic!("unexpected frame: {:?}", other),
        }
    }
    assert_eq!(got, b"abcdefghij".to_vec());
}

#[test]
fn line_error_variants_exist() {
    // the signalling value is not a fault of its own kind
    assert_ne!(LineError::ChunkingDone, LineError::Framing);
    assert_ne!(LineError::LineTooLong, LineError::Framing);
    let m = CodecMode::Chunking { remaining: 3 };
    assert_ne!(m, CodecMode::Command);
}
