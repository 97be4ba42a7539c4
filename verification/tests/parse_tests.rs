use smtpbis::parse::{parse_bdat, parse_command, parse_starttls, ClientCommand};

#[test]
fn bdat_plain_chunk() {
    assert_eq!(parse_bdat(b"BDAT 5\r\n"), Some((5, false)));
    assert_eq!(parse_bdat(b"BDAT 73400320\r\n"), Some((73400320, false)));
}

#[test]
fn bdat_last_chunk() {
    assert_eq!(parse_bdat(b"BDAT 0 LAST\r\n"), Some((0, true)));
    assert_eq!(parse_bdat(b"BDAT 12 LAST\r\n"), Some((12, true)));
}

#[test]
fn bdat_is_case_insensitive() {
    assert_eq!(parse_bdat(b"bdat 7\r\n"), Some((7, false)));
    assert_eq!(parse_bdat(b"BdAt 7 lAsT\r\n"), Some((7, true)));
}

#[test]
fn bdat_largest_size() {
    assert_eq!(
        parse_bdat(b"BDAT 18446744073709551615\r\n"),
        Some((18446744073709551615, false))
    );
    // one more does not fit a 64-bit size
    assert_eq!(parse_bdat(b"BDAT 18446744073709551616\r\n"), None);
}

#[test]
fn bdat_malformed_lines() {
    assert_eq!(parse_bdat(b"BDAT \r\n"), None);
    assert_eq!(parse_bdat(b"BDAT x\r\n"), None);
    assert_eq!(parse_bdat(b"BDAT 5"), None);
    assert_eq!(parse_bdat(b"BDAT 5 LAST extra\r\n"), None);
    assert_eq!(parse_bdat(b"BDAT 123456789012345678901\r\n"), None);
    assert_eq!(parse_bdat(b"BDAT 5 FIRST\r\n"), None);
    assert_eq!(parse_bdat(b"XDAT 5\r\n"), None);
}

#[test]
fn starttls_line_matching() {
    assert!(parse_starttls(b"STARTTLS\r\n"));
    assert!(parse_starttls(b"starttls\r\n"));
    assert!(parse_starttls(b"StArTtLs\r\n"));
    assert!(!parse_starttls(b"STARTTLS\r"));
    assert!(!parse_starttls(b"STARTTLS \r\n"));
    assert!(!parse_starttls(b"STARTSSL\r\n"));
}

#[test]
fn parse_command_extension_commands() {
    assert!(matches!(
        parse_command(b"BDAT 5 LAST\r\n", true),
        Some(ClientCommand::Bdat(5, true))
    ));
    assert!(matches!(
        parse_command(b"STARTTLS\r\n", true),
        Some(ClientCommand::Starttls)
    ));
}

#[test]
fn parse_command_base_commands() {
    assert!(matches!(
        parse_command(b"EHLO example.org\r\n", true),
        Some(ClientCommand::Ehlo(_))
    ));
    assert!(matches!(
        parse_command(b"HELO example.org\r\n", true),
        Some(ClientCommand::Helo(_))
    ));
    assert!(matches!(
        parse_command(b"MAIL FROM:<a@b.example>\r\n", true),
        Some(ClientCommand::Mail(_, _))
    ));
    assert!(matches!(
        parse_command(b"RCPT TO:<c@d.example>\r\n", true),
        Some(ClientCommand::Rcpt(_, _))
    ));
    assert!(matches!(parse_command(b"DATA\r\n", true), Some(ClientCommand::Data)));
    assert!(matches!(parse_command(b"RSET\r\n", true), Some(ClientCommand::Rset)));
    assert!(matches!(parse_command(b"QUIT\r\n", true), Some(ClientCommand::Quit)));
    assert!(matches!(parse_command(b"NOOP\r\n", true), Some(ClientCommand::Noop(_))));
}

#[test]
fn parse_command_legacy_mode_still_parses_ascii() {
    assert!(matches!(
        parse_command(b"EHLO example.org\r\n", false),
        Some(ClientCommand::Ehlo(_))
    ));
}

#[test]
fn parse_command_rejects_garbage() {
    assert!(parse_command(b"FROBNICATE\r\n", true).is_none());
    assert!(parse_command(b"\r\n", true).is_none());
    assert!(parse_command(b"MAIL FROM:<not closed\r\n", true).is_none());
}
