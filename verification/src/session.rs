//! The session state machine and dispatcher.
//!
//! One SMTP session is a loop: read a command line, parse it, route it
//! against the current state, let the application handler speak, then
//! reply and move to the next state.  The asynchronous reading, writing
//! and handler calls live in the embedding program; every decision —
//! which commands a state admits, which reply a refusal gets, where a
//! successful command leads, when shutdown may interrupt — is taken by
//! the verified functions here.

use vstd::prelude::*;
use crate::codec::{Decoded, LineError};
use crate::parse::ClientCommand;
use crate::parse::{is_bdat_line, is_starttls_line};
use crate::reply::{
    bad_sequence_view,
    no_mail_transaction_view,
    no_valid_recipients_view,
    not_implemented_view,
    ok_view,
    lemma_ascii_text_valid,
    valid_text,
    Reply,
    ReplyView,
};
use vstd::string::StringSliceAdditionalSpecFns;
use vstd::string::{StrSliceExecFns, StringExecFns};

verus! {

/// The session state: where in a mail transaction the client stands.
#[derive(Clone, Copy, PartialEq, Eq, Structural, Debug)]
pub enum State {
    /// No transaction in progress; also the start state.
    Initial,
    /// MAIL accepted, awaiting the first RCPT.
    Mail,
    /// At least one RCPT accepted; DATA or BDAT may follow.
    Rcpt,
    /// A chunked body is in progress and its final chunk is still owed.
    Bdat,
    /// A chunked transaction failed; the client must clear it.
    BdatFail,
}

/// Which extensions the server offers.
#[derive(Clone, Copy, Debug)]
pub struct Config {
    /// Advertise and accept SMTPUTF8.
    pub enable_smtputf8: bool,
    /// Advertise and accept BDAT chunking.
    pub enable_chunking: bool,
    /// Advertise and accept STARTTLS.
    pub enable_starttls: bool,
}

impl Default for Config {
    /// All extensions on.
    fn default() -> (c: Config)
        ensures
            c.enable_smtputf8 && c.enable_chunking && c.enable_starttls,
    {
        Config { enable_smtputf8: true, enable_chunking: true, enable_starttls: true }
    }
}

/// The standard library's stream error, carried through opaquely.
#[verifier::external_type_specification]
#[verifier::external_body]
pub struct ExIoError(std::io::Error);

/// Why a session ends, or what stops it from going on.
#[derive(Debug)]
pub enum ServerError {
    /// The peer closed the stream before QUIT.
    EOF,
    /// The codec refused the byte stream's framing.
    Framing(LineError),
    /// A line no command grammar accepts; the line is kept.
    SyntaxError(Vec<u8>),
    /// The underlying stream failed.
    IO(std::io::Error),
    /// Bytes stood buffered past a STARTTLS command.
    Pipelining,
    /// The handler returned before draining a body stream.
    DataAbort,
    /// Cooperative shutdown at an idle command boundary.
    Shutdown,
}

impl From<LineError> for ServerError {
    /// Every codec fault is a framing fault of the session.
    fn from(e: LineError) -> (r: ServerError) {
        ServerError::Framing(e)
    }
}

impl vstd::std_specs::convert::FromSpecImpl<LineError> for ServerError {
    open spec fn obeys_from_spec() -> bool {
        true
    }

    open spec fn from_spec(e: LineError) -> Self {
        ServerError::Framing(e)
    }
}

impl From<std::io::Error> for ServerError {
    /// A failing stream fails the session.
    fn from(e: std::io::Error) -> (r: ServerError) {
        ServerError::IO(e)
    }
}

impl vstd::std_specs::convert::FromSpecImpl<std::io::Error> for ServerError {
    open spec fn obeys_from_spec() -> bool {
        true
    }

    open spec fn from_spec(e: std::io::Error) -> Self {
        ServerError::IO(e)
    }
}

/// How one session leg ends when it does not fail: the client quit, or
/// asked to upgrade to TLS with this configuration.
pub enum LoopExit<T> {
    /// The session is over.
    Done,
    /// Upgrade to TLS, then run a second leg.
    STARTTLS(T),
}

/// What the handler answered: an optional reply on success, an optional
/// reply on refusal.
pub type HandlerResult = Result<Option<Reply>, Option<Reply>>;

/// The model of the `503 BDAT may not be mixed with DATA` reply.
pub open spec fn bdat_mix_view() -> ReplyView {
    ReplyView { code: 503, ecode: None, text: "BDAT may not be mixed with DATA".spec_bytes() }
}

/// The model of the default `550 refused` reply for HELO.
pub open spec fn helo_refused_view() -> ReplyView {
    ReplyView { code: 550, ecode: None, text: "refused".spec_bytes() }
}

/// The model of the default `550 mail transaction refused` reply.
pub open spec fn mail_refused_view() -> ReplyView {
    ReplyView { code: 550, ecode: None, text: "mail transaction refused".spec_bytes() }
}

/// The model of the default `550 recipient not accepted` reply.
pub open spec fn rcpt_refused_view() -> ReplyView {
    ReplyView { code: 550, ecode: None, text: "recipient not accepted".spec_bytes() }
}

/// The model of the default `550 data not accepted` reply.
pub open spec fn data_refused_view() -> ReplyView {
    ReplyView { code: 550, ecode: None, text: "data not accepted".spec_bytes() }
}

/// The model of the `354 send data` go-ahead.
pub open spec fn send_data_view() -> ReplyView {
    ReplyView { code: 354, ecode: None, text: "send data".spec_bytes() }
}

/// The model of the `550 data abort` reply.
pub open spec fn data_abort_view() -> ReplyView {
    ReplyView { code: 550, ecode: None, text: "data abort".spec_bytes() }
}

/// The model of the `221 bye` reply to QUIT.
pub open spec fn bye_view() -> ReplyView {
    ReplyView { code: 221, ecode: None, text: "bye".spec_bytes() }
}

/// The model of the `421 Shutting down` reply.
pub open spec fn shutting_down_view() -> ReplyView {
    ReplyView { code: 421, ecode: None, text: "Shutting down".spec_bytes() }
}

/// The model of the greeting banner.
pub open spec fn banner_view() -> ReplyView {
    ReplyView { code: 220, ecode: None, text: "localhost ESMTP smtpbis 0.1.0".spec_bytes() }
}

/// The model of the `220 starting TLS` reply.
pub open spec fn starting_tls_view() -> ReplyView {
    ReplyView { code: 220, ecode: None, text: "starting TLS".spec_bytes() }
}

/// The `503 BDAT may not be mixed with DATA` reply.
pub fn bdat_mix_reply() -> (r: Reply)
    ensures
        r@ == bdat_mix_view(),
        r@.wf(),
{
    proof {
        reveal_strlit("BDAT may not be mixed with DATA");
        lemma_ascii_text_valid("BDAT may not be mixed with DATA");
    }
    Reply::new(503, None, "BDAT may not be mixed with DATA")
}

/// The `221 bye` reply.
pub fn bye_reply() -> (r: Reply)
    ensures
        r@ == bye_view(),
        r@.wf(),
{
    proof {
        reveal_strlit("bye");
        lemma_ascii_text_valid("bye");
    }
    Reply::new(221, None, "bye")
}

/// The `421 Shutting down` reply.
pub fn shutting_down_reply() -> (r: Reply)
    ensures
        r@ == shutting_down_view(),
        r@.wf(),
{
    proof {
        reveal_strlit("Shutting down");
        lemma_ascii_text_valid("Shutting down");
    }
    Reply::new(421, None, "Shutting down")
}

/// The greeting banner sent when a session opens.
pub fn banner_reply() -> (r: Reply)
    ensures
        r@ == banner_view(),
        r@.wf(),
{
    proof {
        reveal_strlit("localhost ESMTP smtpbis 0.1.0");
        lemma_ascii_text_valid("localhost ESMTP smtpbis 0.1.0");
    }
    Reply::new(220, None, "localhost ESMTP smtpbis 0.1.0")
}

/// The `220 starting TLS` reply, written straight to the raw stream on
/// a STARTTLS upgrade.
pub fn starting_tls_reply() -> (r: Reply)
    ensures
        r@ == starting_tls_view(),
        r@.wf(),
{
    proof {
        reveal_strlit("starting TLS");
        lemma_ascii_text_valid("starting TLS");
    }
    Reply::new(220, None, "starting TLS")
}

/// Where the dispatcher sends one command: straight to a refusal reply,
/// or to one of the handler callbacks.
pub enum Route {
    /// Answer with this reply; the handler is not consulted and the
    /// state does not move.
    Reject(Reply),
    /// Call the EHLO callback.
    Ehlo,
    /// Call the HELO callback.
    Helo,
    /// Call the MAIL callback.
    Mail,
    /// Call the RCPT callback.
    Rcpt,
    /// Call the DATA-start callback, then stream the dot-framed body.
    Data,
    /// Stream one chunk of this size to the BDAT callback.
    Bdat(u64, bool),
    /// Reset the transaction.
    Rset,
    /// Say goodbye and close.
    Quit,
    /// Ask the handler for a TLS configuration.
    Starttls,
}

/// The mathematical model of a routing decision.
pub enum RouteModel {
    /// Answer with this reply, leaving the state alone.
    Reject(ReplyView),
    /// Call the EHLO callback.
    Ehlo,
    /// Call the HELO callback.
    Helo,
    /// Call the MAIL callback.
    Mail,
    /// Call the RCPT callback.
    Rcpt,
    /// Call the DATA-start callback.
    Data,
    /// Stream one chunk to the BDAT callback.
    Bdat(u64, bool),
    /// Reset the transaction.
    Rset,
    /// Say goodbye and close.
    Quit,
    /// Ask the handler for a TLS configuration.
    Starttls,
}

impl View for Route {
    type V = RouteModel;

    open spec fn view(&self) -> RouteModel {
        match self {
            Route::Reject(rep) => RouteModel::Reject(rep@),
            Route::Ehlo => RouteModel::Ehlo,
            Route::Helo => RouteModel::Helo,
            Route::Mail => RouteModel::Mail,
            Route::Rcpt => RouteModel::Rcpt,
            Route::Data => RouteModel::Data,
            Route::Bdat(sz, la) => RouteModel::Bdat(*sz, *la),
            Route::Rset => RouteModel::Rset,
            Route::Quit => RouteModel::Quit,
            Route::Starttls => RouteModel::Starttls,
        }
    }
}

/// The routing table: which commands each state admits, and the reply a
/// refused command earns.  A command forbidden in the current state is
/// answered without consulting the handler.
pub open spec fn spec_route(s: State, config: Config, cmd: ClientCommand) -> RouteModel {
    match cmd {
        ClientCommand::Ehlo(_) => RouteModel::Ehlo,
        ClientCommand::Helo(_) => RouteModel::Helo,
        ClientCommand::Mail(_, _) => if s is Initial || s is BdatFail {
            RouteModel::Mail
        } else {
            RouteModel::Reject(bad_sequence_view())
        },
        ClientCommand::Rcpt(_, _) => if s is Mail || s is Rcpt {
            RouteModel::Rcpt
        } else {
            RouteModel::Reject(bad_sequence_view())
        },
        ClientCommand::Data => match s {
            State::Rcpt => RouteModel::Data,
            State::Initial => RouteModel::Reject(no_mail_transaction_view()),
            State::Mail => RouteModel::Reject(no_valid_recipients_view()),
            State::Bdat => RouteModel::Reject(bdat_mix_view()),
            State::BdatFail => RouteModel::Reject(bdat_mix_view()),
        },
        ClientCommand::Bdat(sz, la) => if !config.enable_chunking {
            RouteModel::Reject(not_implemented_view())
        } else {
            match s {
                State::Rcpt => RouteModel::Bdat(sz, la),
                State::Bdat => RouteModel::Bdat(sz, la),
                State::Mail => RouteModel::Reject(no_valid_recipients_view()),
                State::Initial => RouteModel::Reject(no_mail_transaction_view()),
                State::BdatFail => RouteModel::Reject(no_mail_transaction_view()),
            }
        },
        ClientCommand::Rset => RouteModel::Rset,
        ClientCommand::Quit => RouteModel::Quit,
        ClientCommand::Starttls => if config.enable_starttls {
            RouteModel::Starttls
        } else {
            RouteModel::Reject(not_implemented_view())
        },
        ClientCommand::Noop(_) => RouteModel::Reject(not_implemented_view()),
        ClientCommand::Vrfy(_) => RouteModel::Reject(not_implemented_view()),
        ClientCommand::Expn(_) => RouteModel::Reject(not_implemented_view()),
        ClientCommand::Help(_) => RouteModel::Reject(not_implemented_view()),
    }
}

/// Route one parsed command against the current state and configuration.
pub fn route_command(s: &State, config: &Config, cmd: &ClientCommand) -> (r: Route)
    ensures
        r@ == spec_route(*s, *config, *cmd),
        r matches Route::Reject(rep) ==> rep@.wf(),
{
    match cmd {
        ClientCommand::Ehlo(_) => Route::Ehlo,
        ClientCommand::Helo(_) => Route::Helo,
        ClientCommand::Mail(_, _) => {
            match s {
                State::Initial => Route::Mail,
                State::BdatFail => Route::Mail,
                _ => Route::Reject(Reply::bad_sequence()),
            }
        },
        ClientCommand::Rcpt(_, _) => {
            match s {
                State::Mail => Route::Rcpt,
                State::Rcpt => Route::Rcpt,
                _ => Route::Reject(Reply::bad_sequence()),
            }
        },
        ClientCommand::Data => {
            match s {
                State::Rcpt => Route::Data,
                State::Initial => Route::Reject(Reply::no_mail_transaction()),
                State::Mail => Route::Reject(Reply::no_valid_recipients()),
                State::Bdat => Route::Reject(bdat_mix_reply()),
                State::BdatFail => Route::Reject(bdat_mix_reply()),
            }
        },
        ClientCommand::Bdat(sz, la) => {
            if !config.enable_chunking {
                Route::Reject(Reply::not_implemented())
            } else {
                match s {
                    State::Rcpt => Route::Bdat(*sz, *la),
                    State::Bdat => Route::Bdat(*sz, *la),
                    State::Mail => Route::Reject(Reply::no_valid_recipients()),
                    State::Initial => Route::Reject(Reply::no_mail_transaction()),
                    State::BdatFail => Route::Reject(Reply::no_mail_transaction()),
                }
            }
        },
        ClientCommand::Rset => Route::Rset,
        ClientCommand::Quit => Route::Quit,
        ClientCommand::Starttls => {
            if config.enable_starttls {
                Route::Starttls
            } else {
                Route::Reject(Reply::not_implemented())
            }
        },
        ClientCommand::Noop(_) => Route::Reject(Reply::not_implemented()),
        ClientCommand::Vrfy(_) => Route::Reject(Reply::not_implemented()),
        ClientCommand::Expn(_) => Route::Reject(Reply::not_implemented()),
        ClientCommand::Help(_) => Route::Reject(Reply::not_implemented()),
    }
}

/// Whether the session stands at a point where cooperative shutdown may
/// take it: no transaction is open.
pub open spec fn quiescent(s: State) -> bool {
    s is Initial || s is BdatFail
}

/// Shutdown check on entry to every command read: once the shutdown
/// signal has fired, the first quiescent command boundary ends the
/// session.
pub fn shutdown_check(shutdown_on_idle: bool, s: &State) -> (stop: bool)
    ensures
        stop == (shutdown_on_idle && quiescent(*s)),
{
    shutdown_on_idle && (matches!(s, State::Initial) || matches!(s, State::BdatFail))
}

/// What to do with one command-mode decode verdict.
pub enum LineVerdict {
    /// A complete line of this many bytes stands at the buffer's front.
    Take(usize),
    /// Nothing complete yet; read more bytes.
    Wait,
    /// The framing is broken; the session fails with this error.
    Fail(ServerError),
}

/// Map one command-mode decode outcome to an action: take the complete
/// line, wait for more bytes, or fail the session with the matching
/// framing error.
pub fn line_triage(d: Decoded) -> (r: LineVerdict)
    ensures
        d matches Decoded::Line { len } ==> r == LineVerdict::Take(len),
        d is Incomplete ==> r is Wait,
        d is TooLong ==> (r matches LineVerdict::Fail(e) && e == ServerError::Framing(
            LineError::LineTooLong,
        )),
        d is Bad ==> (r matches LineVerdict::Fail(e) && e == ServerError::Framing(
            LineError::Framing,
        )),
        d is Chunk || d is ChunkDone ==> (r matches LineVerdict::Fail(e) && e is Framing),
{
    match d {
        Decoded::Line { len } => LineVerdict::Take(len),
        Decoded::Incomplete => LineVerdict::Wait,
        Decoded::TooLong => LineVerdict::Fail(ServerError::Framing(LineError::LineTooLong)),
        Decoded::Bad => LineVerdict::Fail(ServerError::Framing(LineError::Framing)),
        Decoded::Chunk { .. } => LineVerdict::Fail(ServerError::Framing(LineError::Framing)),
        Decoded::ChunkDone => LineVerdict::Fail(ServerError::Framing(LineError::Framing)),
    }
}

/// Conclude a STARTTLS request: an offered TLS configuration goes on to
/// the handoff, and no offer earns `502 Command not implemented`.
pub fn tls_offer_step<T>(offer: Option<T>) -> (r: Result<T, Reply>)
    ensures
        offer matches Some(c) ==> (r matches Ok(c2) && c2 == c),
        offer is None ==> (r matches Err(rep) && rep@ == not_implemented_view()),
{
    match offer {
        Some(c) => Ok(c),
        None => Err(Reply::not_implemented()),
    }
}

/// The STARTTLS handoff gate: the `220 starting TLS` bytes exist only
/// when the read buffer is empty; any byte buffered past the STARTTLS
/// command would reappear as TLS plaintext, so it kills the session
/// instead, before anything is written.
pub fn starttls_handoff(read_buf_len: usize) -> (r: Result<Vec<u8>, ServerError>)
    ensures
        read_buf_len == 0 ==> (r matches Ok(b) && b@ == crate::reply::spec_render(
            starting_tls_view(),
        )),
        read_buf_len != 0 ==> (r matches Err(e) && e is Pipelining),
{
    if read_buf_len == 0 {
        Ok(starting_tls_reply().render())
    } else {
        Err(ServerError::Pipelining)
    }
}

/// The default reply constructors the step functions fall back on.
fn helo_refused_reply() -> (r: Reply)
    ensures
        r@ == helo_refused_view(),
        r@.wf(),
{
    proof {
        reveal_strlit("refused");
        lemma_ascii_text_valid("refused");
    }
    Reply::new(550, None, "refused")
}

/// The default `550 mail transaction refused` reply.
fn mail_refused_reply() -> (r: Reply)
    ensures
        r@ == mail_refused_view(),
        r@.wf(),
{
    proof {
        reveal_strlit("mail transaction refused");
        lemma_ascii_text_valid("mail transaction refused");
    }
    Reply::new(550, None, "mail transaction refused")
}

/// The default `550 recipient not accepted` reply.
fn rcpt_refused_reply() -> (r: Reply)
    ensures
        r@ == rcpt_refused_view(),
        r@.wf(),
{
    proof {
        reveal_strlit("recipient not accepted");
        lemma_ascii_text_valid("recipient not accepted");
    }
    Reply::new(550, None, "recipient not accepted")
}

/// The default `550 data not accepted` reply.
fn data_refused_reply() -> (r: Reply)
    ensures
        r@ == data_refused_view(),
        r@.wf(),
{
    proof {
        reveal_strlit("data not accepted");
        lemma_ascii_text_valid("data not accepted");
    }
    Reply::new(550, None, "data not accepted")
}

/// The `354 send data` go-ahead.
fn send_data_reply() -> (r: Reply)
    ensures
        r@ == send_data_view(),
        r@.wf(),
{
    proof {
        reveal_strlit("send data");
        lemma_ascii_text_valid("send data");
    }
    Reply::new(354, None, "send data")
}

/// The `550 data abort` reply.
fn data_abort_reply() -> (r: Reply)
    ensures
        r@ == data_abort_view(),
        r@.wf(),
{
    proof {
        reveal_strlit("data abort");
        lemma_ascii_text_valid("data abort");
    }
    Reply::new(550, None, "data abort")
}

/// Conclude HELO: on success the state resets to Initial and the handler
/// reply (or `250 OK`) goes out; on refusal the state stands and the
/// handler reply (or `550 refused`) goes out.
pub fn helo_step(s: &State, res: HandlerResult) -> (out: (Reply, State))
    ensures
        res matches Ok(rep) ==> out.1 is Initial && (match rep {
            Some(r) => out.0 == r,
            None => out.0@ == ok_view(),
        }),
        res matches Err(rep) ==> out.1 == *s && (match rep {
            Some(r) => out.0 == r,
            None => out.0@ == helo_refused_view(),
        }),
{
    match res {
        Ok(Some(r)) => (r, State::Initial),
        Ok(None) => (Reply::ok(), State::Initial),
        Err(Some(r)) => (r, *s),
        Err(None) => (helo_refused_reply(), *s),
    }
}

/// Conclude EHLO's state move: success resets to Initial, as an implicit
/// RSET; refusal leaves the state alone.
pub fn ehlo_next(s: &State, accepted: bool) -> (ns: State)
    ensures
        accepted ==> ns is Initial,
        !accepted ==> ns == *s,
{
    if accepted {
        State::Initial
    } else {
        *s
    }
}

/// Conclude MAIL: only routed from a state without an open transaction;
/// success opens one.
pub fn mail_step(s: &State, res: HandlerResult) -> (out: (Reply, State))
    requires
        *s is Initial || *s is BdatFail,
    ensures
        res matches Ok(rep) ==> out.1 is Mail && (match rep {
            Some(r) => out.0 == r,
            None => out.0@ == ok_view(),
        }),
        res matches Err(rep) ==> out.1 == *s && (match rep {
            Some(r) => out.0 == r,
            None => out.0@ == mail_refused_view(),
        }),
{
    match res {
        Ok(Some(r)) => (r, State::Mail),
        Ok(None) => (Reply::ok(), State::Mail),
        Err(Some(r)) => (r, *s),
        Err(None) => (mail_refused_reply(), *s),
    }
}

/// Conclude RCPT: only routed with an open transaction; success means at
/// least one recipient stands.
pub fn rcpt_step(s: &State, res: HandlerResult) -> (out: (Reply, State))
    requires
        *s is Mail || *s is Rcpt,
    ensures
        res matches Ok(rep) ==> out.1 is Rcpt && (match rep {
            Some(r) => out.0 == r,
            None => out.0@ == ok_view(),
        }),
        res matches Err(rep) ==> out.1 == *s && (match rep {
            Some(r) => out.0 == r,
            None => out.0@ == rcpt_refused_view(),
        }),
{
    match res {
        Ok(Some(r)) => (r, State::Rcpt),
        Ok(None) => (Reply::ok(), State::Rcpt),
        Err(Some(r)) => (r, *s),
        Err(None) => (rcpt_refused_reply(), *s),
    }
}

/// RSET: from every state back to Initial, answered `250 OK`.
pub fn rset_step(s: &State) -> (out: (Reply, State))
    ensures
        out.0@ == ok_view(),
        out.1 is Initial,
{
    (Reply::ok(), State::Initial)
}

/// Conclude the DATA-start callback: on success the go-ahead (the
/// handler's reply, or `354 send data`) goes out and the body follows;
/// on refusal the handler's reply (or `550 data not accepted`) goes out
/// and the state stands.
pub fn data_start_step(res: HandlerResult) -> (out: (Reply, bool))
    ensures
        res matches Ok(rep) ==> out.1 && (match rep {
            Some(r) => out.0 == r,
            None => out.0@ == send_data_view(),
        }),
        res matches Err(rep) ==> !out.1 && (match rep {
            Some(r) => out.0 == r,
            None => out.0@ == data_refused_view(),
        }),
{
    match res {
        Ok(Some(r)) => (r, true),
        Ok(None) => (send_data_reply(), true),
        Err(Some(r)) => (r, false),
        Err(None) => (data_refused_reply(), false),
    }
}

/// How a body hand-off ends.
pub enum BodyVerdict {
    /// The stream was drained: send the reply and move to the next state.
    Complete {
        /// What to answer.
        reply: Reply,
        /// Where the session goes.
        next: State,
    },
    /// The handler returned with the stream undrained: send the reply,
    /// then fail the session, since further framing is ambiguous.
    Abort {
        /// What to answer before closing.
        reply: Reply,
        /// Where the state stands when the session dies.
        next: State,
    },
    /// The handler failed outright: no reply, fail the session.
    Fatal {
        /// The handler's error.
        error: ServerError,
        /// Where the state stands when the session dies.
        next: State,
    },
}

/// Conclude a DATA body hand-off: a failing handler fails the session
/// with no reply and the state where it stood; completion of the
/// dot-framed stream ends the transaction; an undrained stream aborts
/// the session.
pub fn data_finish_step(s: &State, res: Result<Option<Reply>, ServerError>, drained: bool) -> (v:
    BodyVerdict)
    ensures
        res matches Err(e) ==> (v matches BodyVerdict::Fatal { error, next } && error == e && next
            == *s),
        res matches Ok(rep) ==> (drained ==> (v matches BodyVerdict::Complete { reply, next }
            && next is Initial && (match rep {
            Some(r) => reply == r,
            None => reply@ == ok_view(),
        }))),
        res matches Ok(rep) ==> (!drained ==> (v matches BodyVerdict::Abort { reply, next } && next
            == *s && (match rep {
            Some(r) => reply == r,
            None => reply@ == data_abort_view(),
        }))),
{
    match res {
        Err(e) => BodyVerdict::Fatal { error: e, next: *s },
        Ok(rep) => {
            if drained {
                match rep {
                    Some(r) => BodyVerdict::Complete { reply: r, next: State::Initial },
                    None => BodyVerdict::Complete { reply: Reply::ok(), next: State::Initial },
                }
            } else {
                match rep {
                    Some(r) => BodyVerdict::Abort { reply: r, next: *s },
                    None => BodyVerdict::Abort { reply: data_abort_reply(), next: *s },
                }
            }
        },
    }
}

/// Where one accepted, drained BDAT chunk leaves the session: the final
/// chunk closes the transaction, any other awaits more chunks.
pub open spec fn bdat_next(last: bool) -> State {
    if last {
        State::Initial
    } else {
        State::Bdat
    }
}

/// The state thread of a whole chunked transfer, one BDAT command per
/// chunk, each accepted and drained: after every chunk but the last the
/// session stands in Bdat, and the final chunk returns it to Initial.
pub proof fn lemma_bdat_chunk_chain(flags: Seq<bool>)
    requires
        flags.len() > 0,
        forall|i: int| 0 <= i < flags.len() - 1 ==> !flags[i],
        flags.last(),
    ensures
        forall|i: int| 0 <= i < flags.len() - 1 ==> bdat_next(flags[i]) is Bdat,
        bdat_next(flags.last()) is Initial,
{
}

/// Conclude a BDAT chunk hand-off: a failing handler or an undrained
/// chunk poisons the transaction (BdatFail); a drained final chunk ends
/// it, a drained middle chunk stays in Bdat.
pub fn bdat_finish_step(last: bool, drained: bool, res: Result<Option<Reply>, ServerError>) -> (v:
    BodyVerdict)
    ensures
        res matches Err(e) ==> (v matches BodyVerdict::Fatal { error, next } && error == e && next
            is BdatFail),
        res matches Ok(rep) ==> (!drained ==> (v matches BodyVerdict::Abort { reply, next }
            && next is BdatFail && (match rep {
            Some(r) => reply == r,
            None => reply@ == data_abort_view(),
        }))),
        res matches Ok(rep) ==> (drained ==> (v matches BodyVerdict::Complete { reply, next }
            && next == bdat_next(last) && (match rep {
            Some(r) => reply == r,
            None => reply@ == ok_view(),
        }))),
{
    match res {
        Err(e) => BodyVerdict::Fatal { error: e, next: State::BdatFail },
        Ok(rep) => {
            if !drained {
                match rep {
                    Some(r) => BodyVerdict::Abort { reply: r, next: State::BdatFail },
                    None => BodyVerdict::Abort {
                        reply: data_abort_reply(),
                        next: State::BdatFail,
                    },
                }
            } else {
                let next = if last {
                    State::Initial
                } else {
                    State::Bdat
                };
                match rep {
                    Some(r) => BodyVerdict::Complete { reply: r, next },
                    None => BodyVerdict::Complete { reply: Reply::ok(), next },
                }
            }
        },
    }
}

/// Turn one complete command line into a command, or the syntax error
/// that keeps the line for the record.
pub fn interpret_line(line: Vec<u8>, intl: bool) -> (r: Result<ClientCommand, ServerError>)
    ensures
        forall|sz: u64, la: bool|
            is_bdat_line(line@, sz, la) ==> r == Ok::<ClientCommand, ServerError>(
                ClientCommand::Bdat(sz, la),
            ),
        is_starttls_line(line@) ==> r == Ok::<ClientCommand, ServerError>(ClientCommand::Starttls),
        r matches Ok(ClientCommand::Bdat(sz, la)) ==> is_bdat_line(line@, sz, la),
        r matches Ok(ClientCommand::Starttls) ==> is_starttls_line(line@),
        (forall|sz: u64, la: bool| !is_bdat_line(line@, sz, la)) && !is_starttls_line(line@) ==> (
        r is Ok <==> crate::parse::base_parse_ok(line@, intl)),
        r matches Err(e) ==> (e matches ServerError::SyntaxError(l) && l@ == line@),
{
    match crate::parse::parse_command(line.as_slice(), intl) {
        Some(cmd) => Ok(cmd),
        None => Err(ServerError::SyntaxError(line)),
    }
}

/// Post-state of a command that the handler accepted and whose body, if
/// it had one, was drained; commands that never move the state map to it
/// unchanged.
pub open spec fn accepted_next(s: State, cmd: ClientCommand) -> State {
    match cmd {
        ClientCommand::Ehlo(_) => State::Initial,
        ClientCommand::Helo(_) => State::Initial,
        ClientCommand::Mail(_, _) => State::Mail,
        ClientCommand::Rcpt(_, _) => State::Rcpt,
        ClientCommand::Data => State::Initial,
        ClientCommand::Bdat(_, la) => if la {
            State::Initial
        } else {
            State::Bdat
        },
        ClientCommand::Rset => State::Initial,
        _ => s,
    }
}

/// The transition table: which commands each state admits (everything
/// else is refused without touching the handler or the state), the reply
/// each refusal earns, and where an accepted command leads.
pub proof fn lemma_transition_table(s: State, config: Config, cmd: ClientCommand)
    requires
        config.enable_chunking,
    ensures
        (spec_route(s, config, cmd) is Mail) <==> (cmd is Mail && (s is Initial || s is BdatFail)),
        (spec_route(s, config, cmd) is Rcpt) <==> (cmd is Rcpt && (s is Mail || s is Rcpt)),
        (spec_route(s, config, cmd) is Data) <==> (cmd is Data && s is Rcpt),
        (spec_route(s, config, cmd) is Bdat) <==> (cmd is Bdat && (s is Rcpt || s is Bdat)),
        cmd is Ehlo ==> spec_route(s, config, cmd) is Ehlo,
        cmd is Helo ==> spec_route(s, config, cmd) is Helo,
        cmd is Rset ==> spec_route(s, config, cmd) is Rset,
        cmd is Quit ==> spec_route(s, config, cmd) is Quit,
        cmd is Mail && !(s is Initial || s is BdatFail) ==> spec_route(s, config, cmd)
            == RouteModel::Reject(bad_sequence_view()),
        cmd is Rcpt && !(s is Mail || s is Rcpt) ==> spec_route(s, config, cmd)
            == RouteModel::Reject(bad_sequence_view()),
        cmd is Data && s is Initial ==> spec_route(s, config, cmd) == RouteModel::Reject(
            no_mail_transaction_view(),
        ),
        cmd is Data && s is Mail ==> spec_route(s, config, cmd) == RouteModel::Reject(
            no_valid_recipients_view(),
        ),
        cmd is Data && (s is Bdat || s is BdatFail) ==> spec_route(s, config, cmd)
            == RouteModel::Reject(bdat_mix_view()),
        cmd is Bdat && s is Mail ==> spec_route(s, config, cmd) == RouteModel::Reject(
            no_valid_recipients_view(),
        ),
        cmd is Bdat && (s is Initial || s is BdatFail) ==> spec_route(s, config, cmd)
            == RouteModel::Reject(no_mail_transaction_view()),
        cmd is Ehlo || cmd is Helo || cmd is Rset || cmd is Data ==> accepted_next(s, cmd)
            is Initial,
        cmd is Mail ==> accepted_next(s, cmd) is Mail,
        cmd is Rcpt ==> accepted_next(s, cmd) is Rcpt,
        forall|sz: u64| accepted_next(s, ClientCommand::Bdat(sz, false)) is Bdat,
        forall|sz: u64| accepted_next(s, ClientCommand::Bdat(sz, true)) is Initial,
{
}

/// RSET is idempotent: from every state it leads to Initial, and from
/// Initial — so in particular right after another RSET — it leads to
/// Initial again, with the same `250 OK` reply both times.
pub proof fn lemma_rset_idempotent(s: State, cmd: ClientCommand)
    requires
        cmd is Rset,
    ensures
        accepted_next(s, cmd) is Initial,
        accepted_next(accepted_next(s, cmd), cmd) == accepted_next(s, cmd),
{
}

/// The UTF-8 bytes of a character sequence.
pub open spec fn bytes_of(s: Seq<char>) -> Seq<u8> {
    vstd::utf8::encode_utf8(s)
}

/// One EHLO keyword line: the keyword, and its value after a space if it
/// has one.
pub open spec fn kw_line(kw: Seq<u8>, v: Option<Seq<u8>>) -> Seq<u8> {
    match v {
        None => kw,
        Some(val) => kw + seq![32u8] + val,
    }
}

/// The text of a multi-line EHLO reply: the greeting, then one line per
/// keyword, every line closed by a line feed.
pub open spec fn ehlo_text(greet: Seq<u8>, kws: Seq<(Seq<u8>, Option<Seq<u8>>)>) -> Seq<u8>
    decreases kws.len(),
{
    if kws.len() == 0 {
        greet + seq![crate::reply::LF]
    } else {
        ehlo_text(greet, kws.drop_last()) + kw_line(kws.last().0, kws.last().1) + seq![
            crate::reply::LF,
        ]
    }
}

/// The byte form of a keyword list.
pub open spec fn kws_bytes(kws: Seq<(String, Option<String>)>) -> Seq<(Seq<u8>, Option<Seq<u8>>)> {
    kws.map(
        |i: int, p: (String, Option<String>)|
            (
                bytes_of(p.0@),
                match p.1 {
                    Some(v) => Some(bytes_of(v@)),
                    None => None::<Seq<u8>>,
                },
            ),
    )
}

/// A keyword list whose entries are free of carriage returns.
pub open spec fn kws_valid(kb: Seq<(Seq<u8>, Option<Seq<u8>>)>) -> bool {
    forall|i: int|
        0 <= i < kb.len() ==> valid_text(#[trigger] kb[i].0) && (kb[i].1 matches Some(v)
            ==> valid_text(v))
}

/// EHLO text built from clean parts carries no carriage return.
proof fn lemma_ehlo_text_valid(greet: Seq<u8>, kb: Seq<(Seq<u8>, Option<Seq<u8>>)>)
    requires
        valid_text(greet),
        kws_valid(kb),
    ensures
        valid_text(ehlo_text(greet, kb)),
    decreases kb.len(),
{
    if kb.len() == 0 {
        assert forall|i: int|
            0 <= i < ehlo_text(greet, kb).len() implies ehlo_text(greet, kb)[i]
            != crate::reply::CR by {
            if i < greet.len() {
                assert(ehlo_text(greet, kb)[i] == greet[i]);
            }
        }
    } else {
        assert(kws_valid(kb.drop_last()));
        lemma_ehlo_text_valid(greet, kb.drop_last());
        let prefix = ehlo_text(greet, kb.drop_last());
        let line = kw_line(kb.last().0, kb.last().1);
        assert(valid_text(line)) by {
            assert(valid_text(kb[kb.len() - 1].0));
            match kb.last().1 {
                Some(v) => {
                    assert(valid_text(v));
                    assert forall|i: int| 0 <= i < line.len() implies line[i] != crate::reply::CR
                        by {
                        if i < kb.last().0.len() {
                        } else if i == kb.last().0.len() {
                        } else {
                            assert(line[i] == v[i - kb.last().0.len() - 1]);
                        }
                    }
                },
                None => {},
            }
        }
        assert forall|i: int|
            0 <= i < ehlo_text(greet, kb).len() implies ehlo_text(greet, kb)[i]
            != crate::reply::CR by {
            if i < prefix.len() {
                assert(ehlo_text(greet, kb)[i] == prefix[i]);
            } else if i < prefix.len() + line.len() {
                assert(ehlo_text(greet, kb)[i] == line[i - prefix.len()]);
            }
        }
    }
}

/// The base keyword set offered in EHLO: pipelining and enhanced status
/// codes always, the optional extensions as configured.
pub open spec fn spec_initial_keywords(config: Config) -> Seq<(Seq<char>, Option<Seq<char>>)> {
    let base = seq![
        ("PIPELINING"@, None::<Seq<char>>),
        ("ENHANCEDSTATUSCODES"@, None::<Seq<char>>),
    ];
    let s1 = if config.enable_smtputf8 {
        base.push(("SMTPUTF8"@, None::<Seq<char>>))
    } else {
        base
    };
    let s2 = if config.enable_chunking {
        s1.push(("CHUNKING"@, None::<Seq<char>>))
    } else {
        s1
    };
    if config.enable_starttls {
        s2.push(("STARTTLS"@, None::<Seq<char>>))
    } else {
        s2
    }
}

/// The character view of a keyword list.
pub open spec fn kws_chars(kws: Seq<(String, Option<String>)>) -> Seq<(Seq<char>, Option<
    Seq<char>,
>)> {
    kws.map(
        |i: int, p: (String, Option<String>)|
            (
                p.0@,
                match p.1 {
                    Some(v) => Some(v@),
                    None => None::<Seq<char>>,
                },
            ),
    )
}

/// Whether some entry of the list carries this key.
pub open spec fn contains_key(kws: Seq<(String, Option<String>)>, k: Seq<u8>) -> bool {
    exists|i: int| 0 <= i < kws.len() && key_of(#[trigger] kws[i]) == k
}

/// The keyword list with duplicate keys resolved as a map would resolve
/// them: of entries sharing a key only the last survives, so a handler
/// that adds a keyword the base set already has overrides it.
pub open spec fn dedup_keywords(kws: Seq<(String, Option<String>)>) -> Seq<
    (String, Option<String>),
>
    decreases kws.len(),
{
    if kws.len() == 0 {
        Seq::empty()
    } else if contains_key(kws.skip(1), key_of(kws[0])) {
        dedup_keywords(kws.skip(1))
    } else {
        seq![kws[0]] + dedup_keywords(kws.skip(1))
    }
}

/// Every entry of the deduplicated list is an entry of the list.
proof fn lemma_dedup_membership(kws: Seq<(String, Option<String>)>)
    ensures
        forall|i: int|
            0 <= i < dedup_keywords(kws).len() ==> exists|j: int|
                0 <= j < kws.len() && #[trigger] dedup_keywords(kws)[i] == kws[j],
    decreases kws.len(),
{
    if kws.len() > 0 {
        lemma_dedup_membership(kws.skip(1));
        let d = dedup_keywords(kws);
        let dt = dedup_keywords(kws.skip(1));
        assert forall|i: int| 0 <= i < d.len() implies exists|j: int|
            0 <= j < kws.len() && #[trigger] d[i] == kws[j] by {
            if contains_key(kws.skip(1), key_of(kws[0])) {
                assert(d[i] == dt[i]);
                let j = choose|j: int| 0 <= j < kws.skip(1).len() && dt[i] == kws.skip(1)[j];
                assert(d[i] == kws[j + 1]);
            } else {
                if i == 0 {
                    assert(d[0] == kws[0]);
                } else {
                    assert(d[i] == dt[i - 1]);
                    let j = choose|j: int|
                        0 <= j < kws.skip(1).len() && dt[i - 1] == kws.skip(1)[j];
                    assert(d[i] == kws[j + 1]);
                }
            }
        }
    }
}

/// No two entries of the list share a key.
pub open spec fn keys_unique(s: Seq<(String, Option<String>)>) -> bool {
    forall|i: int, j: int|
        0 <= i < j < s.len() ==> key_of(#[trigger] s[i]) != key_of(#[trigger] s[j])
}

/// After deduplication no two entries share a key.
pub proof fn lemma_dedup_keys_unique(kws: Seq<(String, Option<String>)>)
    ensures
        keys_unique(dedup_keywords(kws)),
    decreases kws.len(),
{
    if kws.len() > 0 {
        lemma_dedup_keys_unique(kws.skip(1));
        lemma_dedup_membership(kws.skip(1));
        let d = dedup_keywords(kws);
        let dt = dedup_keywords(kws.skip(1));
        assert forall|i: int, j: int| 0 <= i < j < d.len() implies key_of(#[trigger] d[i])
            != key_of(#[trigger] d[j]) by {
            if contains_key(kws.skip(1), key_of(kws[0])) {
                assert(d[i] == dt[i] && d[j] == dt[j]);
            } else {
                if i == 0 {
                    // the head's key occurs nowhere later, and the later
                    // entry is an entry of the tail
                    assert(d[j] == dt[j - 1]);
                    let m = choose|m: int|
                        0 <= m < kws.skip(1).len() && dt[j - 1] == kws.skip(1)[m];
                    assert(key_of(kws.skip(1)[m]) != key_of(kws[0]));
                } else {
                    assert(d[i] == dt[i - 1] && d[j] == dt[j - 1]);
                }
            }
        }
    }
}

/// Whether two keywords are the same key: their bytes are equal.
fn keys_eq(a: &String, b: &String) -> (r: bool)
    ensures
        r == (bytes_of(a@) == bytes_of(b@)),
{
    let av = a.as_str().as_bytes_vec();
    let bv = b.as_str().as_bytes_vec();
    if av.len() != bv.len() {
        return false;
    }
    let mut i: usize = 0;
    while i < av.len()
        invariant
            0 <= i <= av@.len(),
            av@.len() == bv@.len(),
            av@ == bytes_of(a@),
            bv@ == bytes_of(b@),
            forall|j: int| 0 <= j < i ==> av@[j] == bv@[j],
        decreases av@.len() - i,
    {
        if av[i] != bv[i] {
            return false;
        }
        i += 1;
    }
    proof {
        assert(av@ =~= bv@);
    }
    true
}

/// Resolve duplicate keyword keys, keeping of each key the last entry.
fn dedup_keys(kws: &Vec<(String, Option<String>)>) -> (out: Vec<(String, Option<String>)>)
    ensures
        out@ == dedup_keywords(kws@),
{
    let mut out: Vec<(String, Option<String>)> = Vec::new();
    let n = kws.len();
    proof {
        assert(kws@.skip(0) =~= kws@);
        assert(out@ + dedup_keywords(kws@) =~= dedup_keywords(kws@));
    }
    let mut i: usize = 0;
    while i < n
        invariant
            0 <= i <= n,
            n == kws@.len(),
            dedup_keywords(kws@) == out@ + dedup_keywords(kws@.skip(i as int)),
        decreases n - i,
    {
        let mut dup = false;
        let mut j = i + 1;
        while j < n
            invariant
                i < j <= n,
                i < n,
                n == kws@.len(),
                dup == exists|m: int|
                    i < m < j && key_of(#[trigger] kws@[m]) == key_of(kws@[i as int]),
            decreases n - j,
        {
            if keys_eq(&kws[j].0, &kws[i].0) {
                dup = true;
            }
            proof {
                if dup && !(exists|m: int|
                    i < m < j && key_of(#[trigger] kws@[m]) == key_of(kws@[i as int])) {
                    assert(key_of(kws@[j as int]) == key_of(kws@[i as int]));
                }
            }
            j += 1;
        }
        proof {
            let tail = kws@.skip(i + 1);
            assert(dup == contains_key(tail, key_of(kws@[i as int]))) by {
                if dup {
                    let m = choose|m: int|
                        i < m < n && key_of(#[trigger] kws@[m]) == key_of(kws@[i as int]);
                    assert(key_of(tail[m - i - 1]) == key_of(kws@[i as int]));
                }
                if contains_key(tail, key_of(kws@[i as int])) {
                    let m = choose|m: int|
                        0 <= m < tail.len() && key_of(#[trigger] tail[m]) == key_of(
                            kws@[i as int],
                        );
                    assert(key_of(kws@[m + i + 1]) == key_of(kws@[i as int]));
                }
            }
            let s = kws@.skip(i as int);
            assert(s[0] == kws@[i as int]);
            assert(s.skip(1) =~= tail);
        }
        if !dup {
            let key = kws[i].0.clone();
            let value = match &kws[i].1 {
                Some(v) => Some(v.clone()),
                None => None,
            };
            let ghost before = out@;
            out.push((key, value));
            proof {
                assert(out@[out@.len() - 1] == kws@[i as int]);
                assert(out@ =~= before + seq![kws@[i as int]]);
                assert(before + (seq![kws@[i as int]] + dedup_keywords(kws@.skip(i + 1))) =~= (
                before + seq![kws@[i as int]]) + dedup_keywords(kws@.skip(i + 1)));
            }
        }
        i += 1;
    }
    proof {
        assert(kws@.skip(n as int) =~= Seq::<(String, Option<String>)>::empty());
        assert(out@ + dedup_keywords(kws@.skip(n as int)) =~= out@);
    }
    out
}

/// Byte-wise lexicographic order, the order `str` itself compares by.
pub open spec fn bytes_le(a: Seq<u8>, b: Seq<u8>) -> bool
    decreases a.len(),
{
    if a.len() == 0 {
        true
    } else if b.len() == 0 {
        false
    } else if a[0] != b[0] {
        a[0] < b[0]
    } else {
        bytes_le(a.skip(1), b.skip(1))
    }
}

/// The key order is total.
proof fn lemma_bytes_le_total(a: Seq<u8>, b: Seq<u8>)
    ensures
        bytes_le(a, b) || bytes_le(b, a),
    decreases a.len(),
{
    if a.len() > 0 && b.len() > 0 && a[0] == b[0] {
        lemma_bytes_le_total(a.skip(1), b.skip(1));
    }
}

/// The key order is transitive.
proof fn lemma_bytes_le_trans(a: Seq<u8>, b: Seq<u8>, c: Seq<u8>)
    requires
        bytes_le(a, b),
        bytes_le(b, c),
    ensures
        bytes_le(a, c),
    decreases a.len(),
{
    if a.len() > 0 && b.len() > 0 && c.len() > 0 && a[0] == b[0] && b[0] == c[0] {
        lemma_bytes_le_trans(a.skip(1), b.skip(1), c.skip(1));
    }
}

/// The key of a keyword entry, as the bytes `str` orders by.
pub open spec fn key_of(p: (String, Option<String>)) -> Seq<u8> {
    bytes_of(p.0@)
}

/// A keyword entry inserted into a list at its ordered place.
pub open spec fn insert_keyword(
    kw: (String, Option<String>),
    s: Seq<(String, Option<String>)>,
) -> Seq<(String, Option<String>)>
    decreases s.len(),
{
    if s.len() == 0 {
        seq![kw]
    } else if bytes_le(key_of(kw), key_of(s[0])) {
        seq![kw] + s
    } else {
        seq![s[0]] + insert_keyword(kw, s.skip(1))
    }
}

/// The keyword list in ascending key order, as a map keyed by the
/// keyword would hold it.
pub open spec fn sort_keywords(s: Seq<(String, Option<String>)>) -> Seq<(String, Option<String>)>
    decreases s.len(),
{
    if s.len() == 0 {
        Seq::empty()
    } else {
        insert_keyword(s[0], sort_keywords(s.skip(1)))
    }
}

/// Keys ascend along the list.
pub open spec fn keys_sorted(s: Seq<(String, Option<String>)>) -> bool {
    forall|i: int, j: int| 0 <= i < j < s.len() ==> bytes_le(key_of(#[trigger] s[i]), key_of(#[trigger] s[j]))
}

/// Every entry of an ordered insertion is the inserted entry or one of
/// the list's.
proof fn lemma_insert_membership(kw: (String, Option<String>), s: Seq<(String, Option<String>)>)
    ensures
        insert_keyword(kw, s).len() == s.len() + 1,
        forall|i: int|
            0 <= i < insert_keyword(kw, s).len() ==> #[trigger] insert_keyword(kw, s)[i] == kw || exists|j: int|
                0 <= j < s.len() && insert_keyword(kw, s)[i] == s[j],
    decreases s.len(),
{
    if s.len() > 0 && !bytes_le(key_of(kw), key_of(s[0])) {
        lemma_insert_membership(kw, s.skip(1));
        let r = insert_keyword(kw, s);
        let rt = insert_keyword(kw, s.skip(1));
        assert forall|i: int| 0 <= i < r.len() implies #[trigger] r[i] == kw || exists|j: int|
            0 <= j < s.len() && r[i] == s[j] by {
            if i == 0 {
                assert(r[0] == s[0]);
            } else {
                assert(r[i] == rt[i - 1]);
                if rt[i - 1] != kw {
                    let j = choose|j: int| 0 <= j < s.skip(1).len() && rt[i - 1] == s.skip(1)[j];
                    assert(r[i] == s[j + 1]);
                }
            }
        }
    }
}

/// Every entry of the sorted list is an entry of the list.
proof fn lemma_sort_membership(s: Seq<(String, Option<String>)>)
    ensures
        sort_keywords(s).len() == s.len(),
        forall|i: int|
            0 <= i < sort_keywords(s).len() ==> exists|j: int|
                0 <= j < s.len() && #[trigger] sort_keywords(s)[i] == s[j],
    decreases s.len(),
{
    if s.len() > 0 {
        lemma_sort_membership(s.skip(1));
        lemma_insert_membership(s[0], sort_keywords(s.skip(1)));
        let r = sort_keywords(s);
        let st = sort_keywords(s.skip(1));
        assert forall|i: int| 0 <= i < r.len() implies exists|j: int|
            0 <= j < s.len() && #[trigger] r[i] == s[j] by {
            if r[i] == s[0] {
            } else {
                let m = choose|m: int| 0 <= m < st.len() && r[i] == st[m];
                let j = choose|j: int| 0 <= j < s.skip(1).len() && st[m] == s.skip(1)[j];
                assert(r[i] == s[j + 1]);
            }
        }
    }
}

/// Ordered insertion into a sorted list keeps it sorted.
proof fn lemma_insert_sorted(kw: (String, Option<String>), s: Seq<(String, Option<String>)>)
    requires
        keys_sorted(s),
    ensures
        keys_sorted(insert_keyword(kw, s)),
    decreases s.len(),
{
    let r = insert_keyword(kw, s);
    if s.len() == 0 {
    } else if bytes_le(key_of(kw), key_of(s[0])) {
        assert forall|i: int, j: int| 0 <= i < j < r.len() implies bytes_le(
            key_of(#[trigger] r[i]),
            key_of(#[trigger] r[j]),
        ) by {
            if i == 0 {
                if j >= 2 {
                    assert(bytes_le(key_of(s[0]), key_of(s[j - 1])));
                    lemma_bytes_le_trans(key_of(kw), key_of(s[0]), key_of(s[j - 1]));
                }
            } else {
                assert(r[i] == s[i - 1] && r[j] == s[j - 1]);
            }
        }
    } else {
        assert(keys_sorted(s.skip(1))) by {
            assert(forall|i: int, j: int|
                0 <= i < j < s.skip(1).len() ==> bytes_le(
                    key_of(#[trigger] s.skip(1)[i]),
                    key_of(#[trigger] s.skip(1)[j]),
                ));
        }
        lemma_insert_sorted(kw, s.skip(1));
        lemma_insert_membership(kw, s.skip(1));
        lemma_bytes_le_total(key_of(kw), key_of(s[0]));
        let rt = insert_keyword(kw, s.skip(1));
        assert forall|i: int, j: int| 0 <= i < j < r.len() implies bytes_le(
            key_of(#[trigger] r[i]),
            key_of(#[trigger] r[j]),
        ) by {
            if i == 0 {
                assert(r[0] == s[0]);
                assert(r[j] == rt[j - 1]);
                if rt[j - 1] == kw {
                    assert(bytes_le(key_of(s[0]), key_of(kw)));
                } else {
                    let m = choose|m: int|
                        0 <= m < s.skip(1).len() && rt[j - 1] == s.skip(1)[m];
                    assert(bytes_le(key_of(s[0]), key_of(s[m + 1])));
                }
            } else {
                assert(r[i] == rt[i - 1] && r[j] == rt[j - 1]);
                assert(bytes_le(key_of(rt[i - 1]), key_of(rt[j - 1])));
            }
        }
    }
}

/// Sorting orders the keys ascending.
pub proof fn lemma_sort_keywords_sorted(s: Seq<(String, Option<String>)>)
    ensures
        keys_sorted(sort_keywords(s)),
    decreases s.len(),
{
    if s.len() > 0 {
        lemma_sort_keywords_sorted(s.skip(1));
        lemma_insert_sorted(s[0], sort_keywords(s.skip(1)));
    }
}

/// Ordered insertion of a fresh key keeps the keys distinct.
proof fn lemma_insert_unique(kw: (String, Option<String>), s: Seq<(String, Option<String>)>)
    requires
        keys_unique(s),
        !contains_key(s, key_of(kw)),
    ensures
        keys_unique(insert_keyword(kw, s)),
    decreases s.len(),
{
    let r = insert_keyword(kw, s);
    if s.len() == 0 {
    } else if bytes_le(key_of(kw), key_of(s[0])) {
        assert forall|i: int, j: int| 0 <= i < j < r.len() implies key_of(#[trigger] r[i])
            != key_of(#[trigger] r[j]) by {
            if i == 0 {
                assert(r[j] == s[j - 1]);
                assert(key_of(s[j - 1]) != key_of(kw));
            } else {
                assert(r[i] == s[i - 1] && r[j] == s[j - 1]);
            }
        }
    } else {
        assert(keys_unique(s.skip(1)));
        assert(!contains_key(s.skip(1), key_of(kw))) by {
            if contains_key(s.skip(1), key_of(kw)) {
                let m = choose|m: int|
                    0 <= m < s.skip(1).len() && key_of(#[trigger] s.skip(1)[m]) == key_of(kw);
                assert(key_of(s[m + 1]) == key_of(kw));
            }
        }
        lemma_insert_unique(kw, s.skip(1));
        lemma_insert_membership(kw, s.skip(1));
        let rt = insert_keyword(kw, s.skip(1));
        assert forall|i: int, j: int| 0 <= i < j < r.len() implies key_of(#[trigger] r[i])
            != key_of(#[trigger] r[j]) by {
            if i == 0 {
                assert(r[0] == s[0]);
                assert(r[j] == rt[j - 1]);
                if rt[j - 1] == kw {
                    assert(key_of(s[0]) != key_of(kw));
                } else {
                    let m = choose|m: int|
                        0 <= m < s.skip(1).len() && rt[j - 1] == s.skip(1)[m];
                    assert(key_of(s[0]) != key_of(s[m + 1]));
                }
            } else {
                assert(r[i] == rt[i - 1] && r[j] == rt[j - 1]);
            }
        }
    }
}

/// Sorting a key-distinct list keeps the keys distinct.
pub proof fn lemma_sort_keys_unique(s: Seq<(String, Option<String>)>)
    requires
        keys_unique(s),
    ensures
        keys_unique(sort_keywords(s)),
    decreases s.len(),
{
    if s.len() > 0 {
        assert(keys_unique(s.skip(1)));
        lemma_sort_keys_unique(s.skip(1));
        lemma_sort_membership(s.skip(1));
        assert(!contains_key(sort_keywords(s.skip(1)), key_of(s[0]))) by {
            if contains_key(sort_keywords(s.skip(1)), key_of(s[0])) {
                let m = choose|m: int|
                    0 <= m < sort_keywords(s.skip(1)).len() && key_of(
                        #[trigger] sort_keywords(s.skip(1))[m],
                    ) == key_of(s[0]);
                let j = choose|j: int|
                    0 <= j < s.skip(1).len() && sort_keywords(s.skip(1))[m] == s.skip(1)[j];
                assert(key_of(s[j + 1]) == key_of(s[0]));
            }
        }
        lemma_insert_unique(s[0], sort_keywords(s.skip(1)));
    }
}

/// The keyword list EHLO renders — the handler's list deduplicated and
/// sorted — carries each key exactly once, in ascending key order.
pub proof fn lemma_ehlo_keywords_canonical(kws: Seq<(String, Option<String>)>)
    ensures
        keys_sorted(sort_keywords(dedup_keywords(kws))),
        keys_unique(sort_keywords(dedup_keywords(kws))),
{
    lemma_dedup_keys_unique(kws);
    lemma_sort_keywords_sorted(dedup_keywords(kws));
    lemma_sort_keys_unique(dedup_keywords(kws));
}

/// Insert one keyword into a key-ordered list at its place.
fn insert_sorted(
    kw: (String, Option<String>),
    v: Vec<(String, Option<String>)>,
) -> (out: Vec<(String, Option<String>)>)
    ensures
        out@ == insert_keyword(kw, v@),
    decreases v@.len(),
{
    let ghost orig = v@;
    if v.len() == 0 {
        let mut out: Vec<(String, Option<String>)> = Vec::new();
        out.push(kw);
        proof {
            assert(out@ =~= insert_keyword(kw, orig));
        }
        out
    } else {
        let le = {
            let kb = kw.0.as_str().as_bytes_vec();
            let hb = v[0].0.as_str().as_bytes_vec();
            bytes_le_exec(&kb, &hb)
        };
        if le {
            let mut out: Vec<(String, Option<String>)> = Vec::new();
            out.push(kw);
            let mut v = v;
            out.append(&mut v);
            proof {
                assert(out@ =~= insert_keyword(kw, orig));
            }
            out
        } else {
            let mut v = v;
            let head = v.remove(0);
            proof {
                assert(v@ =~= orig.skip(1));
            }
            let rest = insert_sorted(kw, v);
            let mut out: Vec<(String, Option<String>)> = Vec::new();
            out.push(head);
            let mut rest = rest;
            out.append(&mut rest);
            proof {
                assert(out@ =~= insert_keyword(kw, orig));
            }
            out
        }
    }
}

/// Sort the keyword list by key, ascending.
fn sort_keys(v: Vec<(String, Option<String>)>) -> (out: Vec<(String, Option<String>)>)
    ensures
        out@ == sort_keywords(v@),
    decreases v@.len(),
{
    let ghost orig = v@;
    if v.len() == 0 {
        let out: Vec<(String, Option<String>)> = Vec::new();
        proof {
            assert(out@ =~= sort_keywords(orig));
        }
        out
    } else {
        let mut v = v;
        let head = v.remove(0);
        proof {
            assert(v@ =~= orig.skip(1));
        }
        let rest = sort_keys(v);
        insert_sorted(head, rest)
    }
}

/// Byte-wise lexicographic comparison, executable form.
fn bytes_le_exec(a: &Vec<u8>, b: &Vec<u8>) -> (r: bool)
    ensures
        r == bytes_le(a@, b@),
{
    let mut i: usize = 0;
    proof {
        assert(a@.skip(0) =~= a@);
        assert(b@.skip(0) =~= b@);
    }
    loop
        invariant
            0 <= i <= a@.len(),
            i <= b@.len(),
            forall|j: int| 0 <= j < i ==> a@[j] == b@[j],
            bytes_le(a@, b@) == bytes_le(a@.skip(i as int), b@.skip(i as int)),
        ensures
            bytes_le(a@, b@) == bytes_le(a@.skip(i as int), b@.skip(i as int)),
            i <= a@.len() && i <= b@.len(),
            i == a@.len() || (i < b@.len() && a@[i as int] != b@[i as int]) || i == b@.len(),
        decreases a@.len() - i,
    {
        if i == a.len() {
            break ;
        }
        if i == b.len() {
            break ;
        }
        if a[i] != b[i] {
            break ;
        }
        proof {
            assert(a@.skip(i as int).skip(1) =~= a@.skip(i + 1));
            assert(b@.skip(i as int).skip(1) =~= b@.skip(i + 1));
        }
        i += 1;
    }
    if i == a.len() {
        proof {
            assert(a@.skip(i as int).len() == 0);
        }
        true
    } else if i == b.len() {
        proof {
            assert(b@.skip(i as int).len() == 0);
            assert(a@.skip(i as int).len() > 0);
        }
        false
    } else {
        proof {
            assert(a@.skip(i as int)[0] == a@[i as int]);
            assert(b@.skip(i as int)[0] == b@[i as int]);
        }
        a[i] < b[i]
    }
}

/// Build the base keyword set the EHLO callback starts from.
pub fn initial_keywords(config: &Config) -> (kws: Vec<(String, Option<String>)>)
    ensures
        kws_chars(kws@) == spec_initial_keywords(*config),
{
    let mut kws: Vec<(String, Option<String>)> = Vec::new();
    kws.push((String::from_str("PIPELINING"), None));
    kws.push((String::from_str("ENHANCEDSTATUSCODES"), None));
    if config.enable_smtputf8 {
        kws.push((String::from_str("SMTPUTF8"), None));
    }
    if config.enable_chunking {
        kws.push((String::from_str("CHUNKING"), None));
    }
    if config.enable_starttls {
        kws.push((String::from_str("STARTTLS"), None));
    }
    proof {
        assert(kws_chars(kws@) =~= spec_initial_keywords(*config));
    }
    kws
}

/// Compose the multi-line 250 reply to EHLO from the handler's greeting
/// and keyword list: the greeting first, then one line per keyword, in
/// ascending key order, with duplicate keys resolved as a map would
/// resolve them (the last entry for a key wins), so each keyword stands
/// exactly once — see `lemma_ehlo_keywords_canonical`.
pub fn ehlo_reply(greeting: &str, kws: &Vec<(String, Option<String>)>) -> (r: Reply)
    requires
        valid_text(greeting.spec_bytes()),
        forall|i: int|
            0 <= i < greeting.spec_bytes().len() ==> greeting.spec_bytes()[i]
                != crate::reply::LF,
        kws_valid(kws_bytes(kws@)),
    ensures
        r@.code == 250,
        r@.ecode is None,
        r@.text == ehlo_text(greeting.spec_bytes(), kws_bytes(sort_keywords(dedup_keywords(kws@)))),
        r@.wf(),
{
    let kws_d = dedup_keys(kws);
    let kws_s = sort_keys(kws_d);
    proof {
        lemma_dedup_membership(kws@);
        lemma_sort_membership(dedup_keywords(kws@));
        assert forall|i: int|
            0 <= i < kws_bytes(kws_s@).len() implies valid_text(
            #[trigger] kws_bytes(kws_s@)[i].0,
        ) && (kws_bytes(kws_s@)[i].1 matches Some(v) ==> valid_text(v)) by {
            let m = choose|m: int|
                0 <= m < dedup_keywords(kws@).len() && sort_keywords(dedup_keywords(kws@))[i]
                    == dedup_keywords(kws@)[m];
            let j = choose|j: int| 0 <= j < kws@.len() && dedup_keywords(kws@)[m] == kws@[j];
            assert(kws_bytes(kws_s@)[i] == kws_bytes(kws@)[j]);
            assert(valid_text(kws_bytes(kws@)[j].0));
        }
    }
    let ghost g = greeting.spec_bytes();
    let ghost kb = kws_bytes(kws_s@);
    let mut text = greeting.as_bytes_vec();
    text.push(crate::reply::LF);
    proof {
        assert(kb.take(0) =~= Seq::<(Seq<u8>, Option<Seq<u8>>)>::empty());
        assert(text@ =~= ehlo_text(g, kb.take(0)));
    }
    let mut k: usize = 0;
    while k < kws_s.len()
        invariant
            0 <= k <= kws_s@.len(),
            kb == kws_bytes(kws_s@),
            kb.len() == kws_s@.len(),
            g == greeting.spec_bytes(),
            text@ == ehlo_text(g, kb.take(k as int)),
        decreases kws_s@.len() - k,
    {
        let pair = &kws_s[k];
        let mut kwb = pair.0.as_str().as_bytes_vec();
        text.append(&mut kwb);
        match &pair.1 {
            Some(v) => {
                text.push(32);
                let mut vb = v.as_str().as_bytes_vec();
                text.append(&mut vb);
            },
            None => {},
        }
        text.push(crate::reply::LF);
        proof {
            assert(kb.take(k + 1).drop_last() =~= kb.take(k as int));
            assert(kb.take(k + 1).last() == kb[k as int]);
            assert(kb[k as int].0 == bytes_of(kws_s@[k as int].0@));
            assert(text@ =~= ehlo_text(g, kb.take(k + 1)));
        }
        k += 1;
    }
    proof {
        assert(kb.take(kws_s@.len() as int) =~= kb);
        lemma_ehlo_text_valid(g, kb);
    }
    Reply::from_bytes(250, None, text)
}

} // verus!
