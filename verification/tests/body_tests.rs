use smtpbis::body::{data_frame, is_terminator, stuff_line, DataFrame};

#[test]
fn dot_stuffed_line_is_unstuffed() {
    // a body line `..foo` reaches the handler as `.foo`
    match data_frame(b"..foo\r\n".to_vec()) {
        DataFrame::Body(b) => assert_eq!(b, b".foo\r\n".to_vec()),
        DataFrame::Terminator => panic!("not the terminator"),
    }
}

#[test]
fn plain_lines_pass_unchanged() {
    match data_frame(b"hello\r\n".to_vec()) {
        DataFrame::Body(b) => assert_eq!(b, b"hello\r\n".to_vec()),
        DataFrame::Terminator => panic!("not the terminator"),
    }
}

#[test]
fn terminator_ends_the_stream() {
    assert!(matches!(data_frame(b".\r\n".to_vec()), DataFrame::Terminator));
    assert!(is_terminator(b".\r\n"));
    assert!(!is_terminator(b"..\r\n"));
    assert!(!is_terminator(b".\r"));
}

#[test]
fn a_lone_dot_with_payload_is_a_body_line() {
    // `.x` unstuffs to `x`
    match data_frame(b".x\r\n".to_vec()) {
        DataFrame::Body(b) => assert_eq!(b, b"x\r\n".to_vec()),
        DataFrame::Terminator => panic!("not the terminator"),
    }
}

#[test]
fn stuffing_escapes_leading_dots_only() {
    assert_eq!(stuff_line(b".foo\r\n"), b"..foo\r\n".to_vec());
    assert_eq!(stuff_line(b"foo.\r\n"), b"foo.\r\n".to_vec());
    assert_eq!(stuff_line(b"plain\r\n"), b"plain\r\n".to_vec());
    assert_eq!(stuff_line(b".\r\n"), b"..\r\n".to_vec());
}

#[test]
fn stuff_then_unstuff_round_trips() {
    let payload_lines: [&[u8]; 4] = [b"hi\r\n", b".\r\n", b"..x\r\n", b"\r\n"];
    for line in payload_lines.iter() {
        let stuffed = stuff_line(line);
        // a stuffed line is never the terminator, so the body cannot
        // end early
        assert!(!is_terminator(&stuffed));
        match data_frame(stuffed) {
            DataFrame::Body(b) => assert_eq!(&b[..], *line),
            DataFrame::Terminator => panic!("stuffed lines never terminate"),
        }
    }
}
