//! The line codec: framing of the raw byte stream.
//!
//! In command mode the codec emits one frame per CRLF-terminated line,
//! refusing over-long lines and bare carriage returns or line feeds.  In
//! chunking mode it emits raw byte frames until the declared chunk size
//! is exhausted, then signals the end of the chunk and reverts to command
//! mode.  The codec itself is a pure state machine over the read buffer;
//! the embedding program owns the buffer and the byte stream.

use vstd::prelude::*;
use crate::reply::{CR, LF};

verus! {

/// A framing fault, or the in-band end-of-chunk signal.
#[derive(Clone, Copy, PartialEq, Eq, Structural, Debug)]
pub enum LineError {
    /// A command line ran past the permitted length.
    LineTooLong,
    /// A bare carriage return or line feed stood outside a CRLF pair.
    Framing,
    /// The current BDAT chunk is complete (a signal, not a fault).
    ChunkingDone,
}

/// The codec's framing state.
#[derive(Clone, Copy, PartialEq, Eq, Structural, Debug)]
pub enum CodecMode {
    /// CRLF-delimited command lines.
    Command,
    /// A BDAT chunk with this many bytes still owed.
    Chunking { remaining: u64 },
}

/// What one decode step found at the front of the read buffer.
#[derive(Clone, Copy, PartialEq, Eq, Structural, Debug)]
pub enum Decoded {
    /// Nothing complete yet; read more bytes.
    Incomplete,
    /// A command line of this many bytes, its CRLF included.
    Line { len: usize },
    /// The next `len` buffered bytes belong to the current chunk.
    Chunk { len: usize },
    /// The current chunk is complete; the codec is back in command mode.
    ChunkDone,
    /// The line exceeded the permitted length.
    TooLong,
    /// A bare carriage return or line feed.
    Bad,
}

/// The longest permitted command line, CRLF included (RFC 5321).
pub const MAX_LINE: usize = 1000;

/// No carriage return or line feed stands before position `k`.
pub open spec fn clean_prefix(b: Seq<u8>, k: int) -> bool {
    forall|i: int| 0 <= i < k ==> b[i] != CR && b[i] != LF
}

/// The position of the first carriage return or line feed, or the length
/// if there is none.
pub open spec fn first_delim(b: Seq<u8>) -> int
    decreases b.len(),
{
    if b.len() == 0 {
        0
    } else if b[0] == CR || b[0] == LF {
        0
    } else {
        1 + first_delim(b.skip(1))
    }
}

/// What decoding in command mode yields on a given buffer.
pub open spec fn spec_decode_command(b: Seq<u8>) -> Decoded {
    let i = first_delim(b);
    if i >= MAX_LINE - 1 {
        Decoded::TooLong
    } else if i == b.len() {
        Decoded::Incomplete
    } else if b[i] == LF {
        Decoded::Bad
    } else if i == b.len() - 1 {
        Decoded::Incomplete
    } else if b[i + 1] == LF {
        Decoded::Line { len: (i + 2) as usize }
    } else {
        Decoded::Bad
    }
}

/// What decoding in chunking mode yields on a given buffer.
pub open spec fn spec_decode_chunk(remaining: u64, b: Seq<u8>) -> Decoded {
    if remaining == 0 {
        Decoded::ChunkDone
    } else if b.len() == 0 {
        Decoded::Incomplete
    } else if remaining <= b.len() {
        Decoded::Chunk { len: remaining as usize }
    } else {
        Decoded::Chunk { len: b.len() as usize }
    }
}

/// The codec's state after one decode step.
pub open spec fn spec_next_mode(mode: CodecMode, b: Seq<u8>) -> CodecMode {
    match mode {
        CodecMode::Command => CodecMode::Command,
        CodecMode::Chunking { remaining } => {
            if remaining == 0 {
                CodecMode::Command
            } else if b.len() == 0 {
                CodecMode::Chunking { remaining }
            } else if remaining <= b.len() {
                CodecMode::Chunking { remaining: 0 }
            } else {
                CodecMode::Chunking { remaining: (remaining - b.len()) as u64 }
            }
        },
    }
}

/// The first delimiter lies within the buffer.
pub proof fn lemma_first_delim_bounds(b: Seq<u8>)
    ensures
        0 <= first_delim(b) <= b.len(),
    decreases b.len(),
{
    if b.len() > 0 && b[0] != CR && b[0] != LF {
        lemma_first_delim_bounds(b.skip(1));
    }
}

/// Position and cleanliness pin the first delimiter down.
pub proof fn lemma_first_delim(b: Seq<u8>, i: int)
    requires
        0 <= i <= b.len(),
        clean_prefix(b, i),
    ensures
        first_delim(b) >= i,
        i < b.len() && (b[i] == CR || b[i] == LF) ==> first_delim(b) == i,
    decreases i,
{
    lemma_first_delim_bounds(b);
    if i > 0 {
        assert(b[0] != CR && b[0] != LF);
        let t = b.skip(1);
        assert(clean_prefix(t, i - 1)) by {
            assert(forall|j: int| 0 <= j < i - 1 ==> t[j] == b[j + 1]);
        }
        lemma_first_delim(t, i - 1);
        if i < b.len() && (b[i] == CR || b[i] == LF) {
            assert(t[i - 1] == b[i]);
        }
    }
}

/// The CRLF line / chunking codec.
pub struct LineCodec {
    mode: CodecMode,
}

impl View for LineCodec {
    type V = CodecMode;

    closed spec fn view(&self) -> CodecMode {
        self.mode
    }
}

impl LineCodec {
    /// A fresh codec in command mode.
    pub fn new() -> (c: LineCodec)
        ensures
            c@ == CodecMode::Command,
    {
        LineCodec { mode: CodecMode::Command }
    }

    /// Enter chunking mode for a chunk of the given declared size.
    pub fn set_chunking(&mut self, size: u64)
        ensures
            final(self)@ == (CodecMode::Chunking { remaining: size }),
    {
        self.mode = CodecMode::Chunking { remaining: size };
    }

    /// One decode step over the front of the read buffer.  The caller
    /// removes the reported number of bytes (a line with its CRLF, or a
    /// chunk's worth) from the buffer before the next step.
    pub fn decode(&mut self, buf: &[u8]) -> (r: Decoded)
        ensures
            old(self)@ is Command ==> r == spec_decode_command(buf@),
            old(self)@ matches CodecMode::Chunking { remaining } ==> r == spec_decode_chunk(
                remaining,
                buf@,
            ),
            final(self)@ == spec_next_mode(old(self)@, buf@),
    {
        match self.mode {
            CodecMode::Command => {
                let n = buf.len();
                let mut i: usize = 0;
                while i < n && i < MAX_LINE - 1 && buf[i] != CR && buf[i] != LF
                    invariant
                        0 <= i <= n,
                        n == buf@.len(),
                        clean_prefix(buf@, i as int),
                    decreases n - i,
                {
                    i += 1;
                }
                proof {
                    lemma_first_delim_bounds(buf@);
                    lemma_first_delim(buf@, i as int);
                }
                if i >= MAX_LINE - 1 {
                    return Decoded::TooLong;
                }
                if i == n {
                    return Decoded::Incomplete;
                }
                if buf[i] == LF {
                    return Decoded::Bad;
                }
                if i == n - 1 {
                    return Decoded::Incomplete;
                }
                if buf[i + 1] == LF {
                    return Decoded::Line { len: i + 2 };
                }
                Decoded::Bad
            },
            CodecMode::Chunking { remaining } => {
                if remaining == 0 {
                    self.mode = CodecMode::Command;
                    return Decoded::ChunkDone;
                }
                if buf.len() == 0 {
                    return Decoded::Incomplete;
                }
                if remaining <= buf.len() as u64 {
                    self.mode = CodecMode::Chunking { remaining: 0 };
                    Decoded::Chunk { len: remaining as usize }
                } else {
                    self.mode = CodecMode::Chunking { remaining: remaining - buf.len() as u64 };
                    Decoded::Chunk { len: buf.len() }
                }
            },
        }
    }
}

} // verus!
