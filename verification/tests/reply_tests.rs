use smtpbis::reply::{EnhancedCode, Reply};

#[test]
fn new_checked_accepts_valid_replies() {
    let r = Reply::new_checked(250, None, "OK");
    assert!(r.is_some());
    let r = Reply::new_checked(200, None, "");
    assert!(r.is_some());
    let r = Reply::new_checked(599, None, "almost out of range");
    assert!(r.is_some());
}

#[test]
fn new_checked_rejects_bad_codes() {
    assert!(Reply::new_checked(199, None, "too low").is_none());
    assert!(Reply::new_checked(600, None, "too high").is_none());
    assert!(Reply::new_checked(0, None, "way off").is_none());
}

#[test]
fn new_checked_rejects_carriage_returns() {
    assert!(Reply::new_checked(250, None, "bad\rtext").is_none());
    assert!(Reply::new_checked(250, None, "bad\r\ntext").is_none());
    assert!(Reply::new_checked(250, None, "trailing\r").is_none());
}

#[test]
fn render_single_line() {
    let r = Reply::new(250, None, "OK");
    assert_eq!(r.render(), b"250 OK\r\n".to_vec());
}

#[test]
fn render_multi_line_uses_dashes_then_space() {
    let r = Reply::new(250, None, "first\nsecond\nthird");
    assert_eq!(
        r.render(),
        b"250-first\r\n250-second\r\n250 third\r\n".to_vec()
    );
}

#[test]
fn render_trailing_newline_opens_no_extra_line() {
    let r = Reply::new(250, None, "only\n");
    assert_eq!(r.render(), b"250 only\r\n".to_vec());
}

#[test]
fn render_empty_text_renders_nothing() {
    let r = Reply::new(250, None, "");
    assert_eq!(r.render(), b"".to_vec());
}

#[test]
fn render_enhanced_code_on_every_line() {
    let r = Reply::new(250, Some(EnhancedCode(2, 1, 5)), "ok");
    assert_eq!(r.render(), b"250 2.1.5 ok\r\n".to_vec());
    let r = Reply::new(550, Some(EnhancedCode(5, 7, 1)), "no\nway");
    assert_eq!(r.render(), b"550-5.7.1 no\r\n550 5.7.1 way\r\n".to_vec());
}

#[test]
fn render_output_has_no_bare_cr_or_lf() {
    let r = Reply::new(451, None, "try\nagain\nlater");
    let out = r.render();
    for (i, &b) in out.iter().enumerate() {
        if b == 13 {
            assert_eq!(out[i + 1], 10);
        }
        if b == 10 {
            assert_eq!(out[i - 1], 13);
        }
    }
    assert_eq!(&out[out.len() - 2..], b"\r\n");
}

#[test]
fn stock_replies() {
    assert_eq!(Reply::ok().render(), b"250 OK\r\n".to_vec());
    assert_eq!(
        Reply::bad_sequence().render(),
        b"503 Bad sequence of commands\r\n".to_vec()
    );
    assert_eq!(
        Reply::no_mail_transaction().render(),
        b"503 No mail transaction in progress\r\n".to_vec()
    );
    assert_eq!(
        Reply::no_valid_recipients().render(),
        b"554 No valid recipients\r\n".to_vec()
    );
    assert_eq!(Reply::syntax_error().render(), b"500 Syntax error\r\n".to_vec());
    assert_eq!(
        Reply::not_implemented().render(),
        b"502 Command not implemented\r\n".to_vec()
    );
}

#[test]
fn from_bytes_builds_the_same_reply() {
    let r = Reply::from_bytes(354, None, b"send data".to_vec());
    assert_eq!(r.render(), b"354 send data\r\n".to_vec());
    assert_eq!(r.code(), 354);
}

#[test]
fn render_multi_digit_enhanced_code() {
    let r = Reply::new(250, Some(EnhancedCode(5, 999, 65535)), "x");
    assert_eq!(r.render(), b"250 5.999.65535 x\r\n".to_vec());
}

#[test]
fn render_boundary_codes() {
    assert_eq!(Reply::new(200, None, "lowest").render(), b"200 lowest\r\n".to_vec());
    assert_eq!(Reply::new(599, None, "highest").render(), b"599 highest\r\n".to_vec());
}
