use smtpbis::body::{data_frame, DataFrame};
use smtpbis::codec::{Decoded, LineCodec, LineError};
use smtpbis::parse::parse_command;
use smtpbis::reply::Reply;
use smtpbis::session::{
    bdat_finish_step, data_finish_step, data_start_step, ehlo_next, ehlo_reply, helo_step,
    initial_keywords, interpret_line, mail_step, rcpt_step, route_command, rset_step,
    line_triage, shutdown_check, starttls_handoff, tls_offer_step, BodyVerdict, Config,
    LineVerdict, Route, ServerError, State,
};

fn cmd(line: &[u8]) -> smtpbis::parse::ClientCommand {
    match parse_command(line, true) {
        Some(c) => c,
        None => panic!("line should parse"),
    }
}

#[test]
fn happy_path_data_transaction() {
    let cfg = Config::default();
    let mut state = State::Initial;

    // EHLO: routed to the handler in every state, resets on success
    let route = route_command(&state, &cfg, &cmd(b"EHLO x\r\n"));
    assert!(matches!(route, Route::Ehlo));
    let kws = initial_keywords(&cfg);
    let rep = ehlo_reply("hello x", &kws);
    assert_eq!(rep.code(), 250);
    // greeting first, then the keywords in ascending key order
    let out = String::from_utf8(rep.render()).unwrap();
    assert_eq!(
        out,
        "250-hello x\r\n250-CHUNKING\r\n250-ENHANCEDSTATUSCODES\r\n250-PIPELINING\r\n\
         250-SMTPUTF8\r\n250 STARTTLS\r\n"
    );
    state = ehlo_next(&state, true);
    assert_eq!(state, State::Initial);

    // MAIL FROM
    let route = route_command(&state, &cfg, &cmd(b"MAIL FROM:<a@b.example>\r\n"));
    assert!(matches!(route, Route::Mail));
    let (rep, ns) = mail_step(&state, Ok(None));
    assert_eq!(rep.render(), b"250 OK\r\n".to_vec());
    state = ns;
    assert_eq!(state, State::Mail);

    // RCPT TO
    let route = route_command(&state, &cfg, &cmd(b"RCPT TO:<c@d.example>\r\n"));
    assert!(matches!(route, Route::Rcpt));
    let (rep, ns) = rcpt_step(&state, Ok(None));
    assert_eq!(rep.render(), b"250 OK\r\n".to_vec());
    state = ns;
    assert_eq!(state, State::Rcpt);

    // DATA: go-ahead, dot-framed body, completion
    let route = route_command(&state, &cfg, &cmd(b"DATA\r\n"));
    assert!(matches!(route, Route::Data));
    let (go, proceed) = data_start_step(Ok(None));
    assert!(proceed);
    assert_eq!(go.render(), b"354 send data\r\n".to_vec());
    assert!(matches!(data_frame(b"hi\r\n".to_vec()), DataFrame::Body(_)));
    assert!(matches!(data_frame(b".\r\n".to_vec()), DataFrame::Terminator));
    match data_finish_step(&state, Ok(None), true) {
        BodyVerdict::Complete { reply, next } => {
            assert_eq!(reply.render(), b"250 OK\r\n".to_vec());
            state = next;
        }
        _ => panic!("a drained DATA body completes"),
    }
    assert_eq!(state, State::Initial);
}

#[test]
fn handler_replies_pass_through() {
    let custom = Reply::new(251, None, "forwarded");
    let (rep, ns) = helo_step(&State::Rcpt, Ok(Some(custom)));
    assert_eq!(rep.render(), b"251 forwarded\r\n".to_vec());
    assert_eq!(ns, State::Initial);

    // a refusal neither advances the state nor loses the reply
    let refusal = Reply::new(452, None, "too many");
    let (rep, ns) = rcpt_step(&State::Rcpt, Err(Some(refusal)));
    assert_eq!(rep.code(), 452);
    assert_eq!(ns, State::Rcpt);

    // default refusals
    let (rep, ns) = mail_step(&State::Initial, Err(None));
    assert_eq!(rep.render(), b"550 mail transaction refused\r\n".to_vec());
    assert_eq!(ns, State::Initial);
    let (rep, _) = helo_step(&State::Initial, Err(None));
    assert_eq!(rep.render(), b"550 refused\r\n".to_vec());
}

#[test]
fn bad_sequence_rcpt_in_initial() {
    let cfg = Config::default();
    let state = State::Initial;
    match route_command(&state, &cfg, &cmd(b"RCPT TO:<c@d.example>\r\n")) {
        Route::Reject(rep) => {
            assert_eq!(rep.render(), b"503 Bad sequence of commands\r\n".to_vec());
        }
        _ => panic!("RCPT in Initial must be refused without the handler"),
    }
    // the state is unchanged by a refusal: nothing ever moved it
    assert_eq!(state, State::Initial);
}

#[test]
fn data_refusals_by_state() {
    let cfg = Config::default();
    match route_command(&State::Initial, &cfg, &cmd(b"DATA\r\n")) {
        Route::Reject(rep) => assert_eq!(
            rep.render(),
            b"503 No mail transaction in progress\r\n".to_vec()
        ),
        _ => panic!("DATA in Initial must be refused"),
    }
    match route_command(&State::Mail, &cfg, &cmd(b"DATA\r\n")) {
        Route::Reject(rep) => {
            assert_eq!(rep.render(), b"554 No valid recipients\r\n".to_vec())
        }
        _ => panic!("DATA without recipients must be refused"),
    }
}

#[test]
fn bdat_mixing_rules() {
    let cfg = Config::default();
    let mut state = State::Rcpt;

    // BDAT 5: a middle chunk leaves the session in Bdat
    let route = route_command(&state, &cfg, &cmd(b"BDAT 5\r\n"));
    assert!(matches!(route, Route::Bdat(5, false)));
    match bdat_finish_step(false, true, Ok(None)) {
        BodyVerdict::Complete { reply, next } => {
            assert_eq!(reply.render(), b"250 OK\r\n".to_vec());
            state = next;
        }
        _ => panic!("a drained middle chunk completes"),
    }
    assert_eq!(state, State::Bdat);

    // DATA while a chunked body is open: the mixing refusal
    match route_command(&state, &cfg, &cmd(b"DATA\r\n")) {
        Route::Reject(rep) => assert_eq!(
            rep.render(),
            b"503 BDAT may not be mixed with DATA\r\n".to_vec()
        ),
        _ => panic!("DATA during BDAT must be refused"),
    }

    // BDAT 0 LAST closes the transaction
    let route = route_command(&state, &cfg, &cmd(b"BDAT 0 LAST\r\n"));
    assert!(matches!(route, Route::Bdat(0, true)));
    match bdat_finish_step(true, true, Ok(None)) {
        BodyVerdict::Complete { next, .. } => state = next,
        _ => panic!("a drained final chunk completes"),
    }
    assert_eq!(state, State::Initial);

    // a subsequent DATA in Initial: no transaction
    match route_command(&state, &cfg, &cmd(b"DATA\r\n")) {
        Route::Reject(rep) => assert_eq!(
            rep.render(),
            b"503 No mail transaction in progress\r\n".to_vec()
        ),
        _ => panic!("DATA in Initial must be refused"),
    }
}

fn io_error() -> ServerError {
    ServerError::IO(std::io::Error::from(std::io::ErrorKind::BrokenPipe))
}

#[test]
fn bdat_failure_poisons_the_transaction() {
    match bdat_finish_step(false, true, Err(io_error())) {
        BodyVerdict::Fatal { error, next } => {
            assert!(matches!(error, ServerError::IO(_)));
            assert_eq!(next, State::BdatFail);
        }
        _ => panic!("a failing handler is fatal"),
    }
    // an undrained chunk stream likewise
    match bdat_finish_step(true, false, Ok(None)) {
        BodyVerdict::Abort { reply, next } => {
            assert_eq!(reply.render(), b"550 data abort\r\n".to_vec());
            assert_eq!(next, State::BdatFail);
        }
        _ => panic!("an undrained chunk aborts"),
    }
    // from BdatFail, BDAT has no transaction and DATA is mixing
    let cfg = Config::default();
    match route_command(&State::BdatFail, &cfg, &cmd(b"BDAT 3\r\n")) {
        Route::Reject(rep) => assert_eq!(
            rep.render(),
            b"503 No mail transaction in progress\r\n".to_vec()
        ),
        _ => panic!("BDAT in BdatFail must be refused"),
    }
    // MAIL clears BdatFail
    assert!(matches!(
        route_command(&State::BdatFail, &cfg, &cmd(b"MAIL FROM:<a@b.example>\r\n")),
        Route::Mail
    ));
}

#[test]
fn rset_is_idempotent() {
    for s in [State::Initial, State::Mail, State::Rcpt, State::Bdat, State::BdatFail] {
        let (rep, ns) = rset_step(&s);
        assert_eq!(rep.render(), b"250 OK\r\n".to_vec());
        assert_eq!(ns, State::Initial);
        // a second RSET is a no-op: same reply, same state
        let (rep2, ns2) = rset_step(&ns);
        assert_eq!(rep2.render(), b"250 OK\r\n".to_vec());
        assert_eq!(ns2, State::Initial);
    }
}

#[test]
fn starttls_pipelining_defence() {
    let cfg = Config::default();
    // the client pipelines "STARTTLS\r\nRSET\r\n" in one write
    let wire = b"STARTTLS\r\nRSET\r\n";
    let mut codec = LineCodec::new();
    let line_len = match codec.decode(wire) {
        Decoded::Line { len } => len,
        _ => panic!("the first line is complete"),
    };
    let line = wire[..line_len].to_vec();
    let cmd = match interpret_line(line, true) {
        Ok(c) => c,
        Err(_) => panic!("STARTTLS parses"),
    };
    assert!(matches!(
        route_command(&State::Initial, &cfg, &cmd),
        Route::Starttls
    ));
    // after the flush, the read buffer still holds the pipelined RSET:
    // the upgrade must die with Pipelining before any RSET is processed
    let leftover = wire.len() - line_len;
    assert_eq!(leftover, 6);
    match starttls_handoff(leftover) {
        Err(ServerError::Pipelining) => {}
        _ => panic!("pipelined bytes past STARTTLS are fatal"),
    }
    // with an empty buffer the upgrade proceeds and only then do the
    // 220 bytes exist to be written
    match starttls_handoff(0) {
        Ok(banner) => assert_eq!(banner, b"220 starting TLS\r\n".to_vec()),
        Err(_) => panic!("an empty buffer lets the upgrade through"),
    }
}

#[test]
fn tls_offer_decides_upgrade_or_refusal() {
    // the handler offered a configuration: the upgrade goes ahead
    match tls_offer_step(Some(42u32)) {
        Ok(cfg) => assert_eq!(cfg, 42),
        Err(_) => panic!("an offer must be taken"),
    }
    // no offer: 502, session goes on
    match tls_offer_step::<u32>(None) {
        Ok(_) => panic!("no offer must be refused"),
        Err(rep) => assert_eq!(rep.render(), b"502 Command not implemented\r\n".to_vec()),
    }
}

#[test]
fn starttls_disabled_is_not_implemented() {
    let cfg = Config {
        enable_smtputf8: true,
        enable_chunking: false,
        enable_starttls: false,
    };
    match route_command(&State::Initial, &cfg, &cmd(b"STARTTLS\r\n")) {
        Route::Reject(rep) => {
            assert_eq!(rep.render(), b"502 Command not implemented\r\n".to_vec())
        }
        _ => panic!("STARTTLS must be refused when disabled"),
    }
    match route_command(&State::Rcpt, &cfg, &cmd(b"BDAT 5\r\n")) {
        Route::Reject(rep) => {
            assert_eq!(rep.render(), b"502 Command not implemented\r\n".to_vec())
        }
        _ => panic!("BDAT must be refused when chunking is disabled"),
    }
}

#[test]
fn graceful_shutdown_waits_for_idle() {
    // mid-transaction the signal does not interrupt
    assert!(!shutdown_check(true, &State::Mail));
    assert!(!shutdown_check(true, &State::Rcpt));
    assert!(!shutdown_check(true, &State::Bdat));
    // at a quiescent boundary it ends the session with 421
    assert!(shutdown_check(true, &State::Initial));
    assert!(shutdown_check(true, &State::BdatFail));
    assert!(!shutdown_check(false, &State::Initial));
    assert_eq!(
        smtpbis::session::shutting_down_reply().render(),
        b"421 Shutting down\r\n".to_vec()
    );
}

#[test]
fn syntax_errors_keep_the_line() {
    match interpret_line(b"FROBNICATE\r\n".to_vec(), true) {
        Err(ServerError::SyntaxError(l)) => assert_eq!(l, b"FROBNICATE\r\n".to_vec()),
        _ => panic!("garbage is a syntax error"),
    }
    assert_eq!(
        smtpbis::reply::Reply::syntax_error().render(),
        b"500 Syntax error\r\n".to_vec()
    );
}

#[test]
fn ehlo_keywords_follow_config() {
    let kws = initial_keywords(&Config {
        enable_smtputf8: false,
        enable_chunking: true,
        enable_starttls: false,
    });
    let names: Vec<&str> = kws.iter().map(|p| p.0.as_str()).collect();
    assert_eq!(names, vec!["PIPELINING", "ENHANCEDSTATUSCODES", "CHUNKING"]);
}

#[test]
fn ehlo_reply_renders_keyword_values() {
    // keywords go out sorted by key, whatever order the handler used
    let kws = vec![
        ("SIZE".to_string(), Some("73400320".to_string())),
        ("8BITMIME".to_string(), None),
    ];
    let rep = ehlo_reply("server at your service", &kws);
    assert_eq!(
        rep.render(),
        b"250-server at your service\r\n250-8BITMIME\r\n250 SIZE 73400320\r\n".to_vec()
    );
}

#[test]
fn ehlo_keywords_sorted_ascending() {
    let kws = vec![
        ("DSN".to_string(), None),
        ("8BITMIME".to_string(), None),
        ("CHUNKING".to_string(), None),
    ];
    let rep = ehlo_reply("g", &kws);
    assert_eq!(
        rep.render(),
        b"250-g\r\n250-8BITMIME\r\n250-CHUNKING\r\n250 DSN\r\n".to_vec()
    );
}

#[test]
fn session_banners() {
    assert_eq!(
        smtpbis::session::banner_reply().render(),
        b"220 localhost ESMTP smtpbis 0.1.0\r\n".to_vec()
    );
    assert_eq!(
        smtpbis::session::starting_tls_reply().render(),
        b"220 starting TLS\r\n".to_vec()
    );
    assert_eq!(
        smtpbis::session::bye_reply().render(),
        b"221 bye\r\n".to_vec()
    );
}

#[test]
fn undrained_data_stream_aborts_the_session() {
    // the handler returned before the terminator was seen: the engine
    // answers 550 and the session must die with DataAbort
    match data_finish_step(&State::Rcpt, Ok(None), false) {
        BodyVerdict::Abort { reply, next } => {
            assert_eq!(reply.render(), b"550 data abort\r\n".to_vec());
            assert_eq!(next, State::Rcpt);
        }
        _ => panic!("an undrained DATA body aborts"),
    }
    // a handler reply, if any, still goes out first
    let custom = Reply::new(554, None, "too big");
    match data_finish_step(&State::Rcpt, Ok(Some(custom)), false) {
        BodyVerdict::Abort { reply, .. } => assert_eq!(reply.code(), 554),
        _ => panic!("an undrained DATA body aborts"),
    }
}

#[test]
fn data_handler_failure_is_fatal_without_reply() {
    match data_finish_step(&State::Rcpt, Err(io_error()), false) {
        BodyVerdict::Fatal { error, next } => {
            assert!(matches!(error, ServerError::IO(_)));
            assert_eq!(next, State::Rcpt);
        }
        _ => panic!("a failing DATA handler is fatal"),
    }
}

#[test]
fn ehlo_duplicate_keywords_are_overridden() {
    // a handler that adds a keyword the list already has overrides it:
    // the last entry for a key wins and appears exactly once
    let kws = vec![
        ("SIZE".to_string(), Some("1000".to_string())),
        ("8BITMIME".to_string(), None),
        ("SIZE".to_string(), Some("73400320".to_string())),
    ];
    let rep = ehlo_reply("greetings", &kws);
    assert_eq!(
        rep.render(),
        b"250-greetings\r\n250-8BITMIME\r\n250 SIZE 73400320\r\n".to_vec()
    );
}

#[test]
fn line_triage_maps_framing_faults() {
    assert!(matches!(line_triage(Decoded::Line { len: 8 }), LineVerdict::Take(8)));
    assert!(matches!(line_triage(Decoded::Incomplete), LineVerdict::Wait));
    match line_triage(Decoded::TooLong) {
        LineVerdict::Fail(ServerError::Framing(e)) => assert_eq!(e, LineError::LineTooLong),
        _ => panic!("an over-long line is a framing fault"),
    }
    match line_triage(Decoded::Bad) {
        LineVerdict::Fail(ServerError::Framing(e)) => assert_eq!(e, LineError::Framing),
        _ => panic!("a bare CR or LF is a framing fault"),
    }
}

#[test]
fn whole_chunked_transfer_is_byte_exact() {
    // two BDAT commands carry one body: the bytes delivered across the
    // chunks concatenate exactly to the chunk payloads, and the state
    // stands in Bdat between them and in Initial after the last
    let cfg = Config::default();
    let mut state = State::Rcpt;
    let mut codec = LineCodec::new();
    let mut delivered: Vec<u8> = Vec::new();

    // BDAT 3, payload "abc" arriving split across reads
    assert!(matches!(
        route_command(&state, &cfg, &cmd(b"BDAT 3\r\n")),
        Route::Bdat(3, false)
    ));
    codec.set_chunking(3);
    for buf in [&b"a"[..], &b"bc"[..], &b""[..]] {
        match codec.decode(buf) {
            Decoded::Chunk { len } => delivered.extend_from_slice(&buf[..len]),
            Decoded::ChunkDone => break,
            other => panic!("unexpected frame: {:?}", other),
        }
    }
    match bdat_finish_step(false, true, Ok(None)) {
        BodyVerdict::Complete { next, .. } => state = next,
        _ => panic!("a drained chunk completes"),
    }
    assert_eq!(state, State::Bdat);

    // BDAT 4 LAST, payload "defg" with the next command behind it
    assert!(matches!(
        route_command(&state, &cfg, &cmd(b"BDAT 4 LAST\r\n")),
        Route::Bdat(4, true)
    ));
    codec.set_chunking(4);
    for buf in [&b"defgQUIT\r\n"[..], &b"QUIT\r\n"[..]] {
        match codec.decode(buf) {
            Decoded::Chunk { len } => delivered.extend_from_slice(&buf[..len]),
            Decoded::ChunkDone => break,
            other => panic!("unexpected frame: {:?}", other),
        }
    }
    match bdat_finish_step(true, true, Ok(None)) {
        BodyVerdict::Complete { next, .. } => state = next,
        _ => panic!("a drained final chunk completes"),
    }
    assert_eq!(state, State::Initial);
    assert_eq!(delivered, b"abcdefg".to_vec());
}
