//! Session-layer core of an extensible ESMTP submission/relay server.
//!
//! The crate provides the verified building blocks of one SMTP session:
//! structured replies and their wire serialisation, the CRLF line / chunking
//! codec, the DATA and BDAT body framing rules, and the session state
//! machine with its per-command routing and reply selection.  An embedding
//! program supplies the byte stream, the asynchronous plumbing and the
//! application handler, and drives the session by calling the step
//! functions defined here.

pub mod body;
pub mod codec;
pub mod parse;
pub mod reply;
pub mod session;
