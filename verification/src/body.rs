//! Body framing: the dot-framed DATA stream and the chunked BDAT stream.
//!
//! A DATA body arrives as CRLF lines; the line `.CRLF` ends it and every
//! other line loses one leading dot (dot-unstuffing) before it reaches
//! the handler.  A BDAT body arrives as raw frames cut by the codec's
//! chunking mode; their bytes concatenate to exactly the declared chunk.

use vstd::prelude::*;
use vstd::seq_lib::*;
use crate::reply::{CR, LF};

verus! {

/// The line that ends a DATA body: a dot alone.
pub open spec fn terminator() -> Seq<u8> {
    seq![46u8, CR, LF]
}

/// Dot-unstuffing: a line that begins with a dot loses it.
pub open spec fn spec_unstuff(l: Seq<u8>) -> Seq<u8> {
    if l.len() > 0 && l[0] == 46 {
        l.skip(1)
    } else {
        l
    }
}

/// Dot-stuffing, the sender's escape: a line that begins with a dot
/// gains one more.
pub open spec fn spec_stuff(l: Seq<u8>) -> Seq<u8> {
    if l.len() > 0 && l[0] == 46 {
        seq![46u8] + l
    } else {
        l
    }
}

/// One frame of a DATA body stream.
pub enum DataFrame {
    /// The terminating dot line; the body is complete.
    Terminator,
    /// One body line, dot-unstuffed, its CRLF kept.
    Body(Vec<u8>),
}

/// Whether a line is the DATA terminator.
pub fn is_terminator(line: &[u8]) -> (r: bool)
    ensures
        r == (line@ == terminator()),
{
    let r = line.len() == 3 && line[0] == 46 && line[1] == CR && line[2] == LF;
    proof {
        if r {
            assert(line@ =~= terminator());
        }
    }
    r
}

/// Classify one line of a DATA body: the terminator ends the stream,
/// anything else is a body line with its leading dot stripped.
pub fn data_frame(line: Vec<u8>) -> (f: DataFrame)
    ensures
        line@ == terminator() ==> f is Terminator,
        line@ != terminator() ==> (f matches DataFrame::Body(b) && b@ == spec_unstuff(line@)),
{
    if is_terminator(line.as_slice()) {
        DataFrame::Terminator
    } else {
        if line.len() > 0 && line[0] == 46 {
            let ghost orig = line@;
            let mut line = line;
            line.remove(0);
            proof {
                assert(line@ =~= spec_unstuff(orig));
            }
            DataFrame::Body(line)
        } else {
            DataFrame::Body(line)
        }
    }
}

/// Dot-stuff one line for sending.
pub fn stuff_line(line: &[u8]) -> (r: Vec<u8>)
    ensures
        r@ == spec_stuff(line@),
{
    let mut out: Vec<u8> = Vec::new();
    if line.len() > 0 && line[0] == 46 {
        out.push(46);
    }
    let mut i: usize = 0;
    while i < line.len()
        invariant
            0 <= i <= line@.len(),
            out@ == (if line@.len() > 0 && line@[0] == 46 {
                seq![46u8]
            } else {
                Seq::<u8>::empty()
            }) + line@.take(i as int),
        decreases line@.len() - i,
    {
        out.push(line[i]);
        proof {
            assert(line@.take(i + 1) =~= line@.take(i as int).push(line@[i as int]));
        }
        i += 1;
    }
    proof {
        assert(line@.take(line@.len() as int) =~= line@);
        assert(out@ =~= spec_stuff(line@));
    }
    out
}

/// What a DATA stream hands the handler, given the lines that arrive:
/// each line before the first terminator, dot-unstuffed.
pub open spec fn data_deliver(lines: Seq<Seq<u8>>) -> Seq<Seq<u8>>
    decreases lines.len(),
{
    if lines.len() == 0 {
        Seq::empty()
    } else if lines[0] == terminator() {
        Seq::empty()
    } else {
        seq![spec_unstuff(lines[0])] + data_deliver(lines.skip(1))
    }
}

/// Unstuffing undoes stuffing.
pub proof fn lemma_stuff_roundtrip(l: Seq<u8>)
    ensures
        spec_unstuff(spec_stuff(l)) == l,
{
    if l.len() > 0 && l[0] == 46 {
        assert((seq![46u8] + l).skip(1) =~= l);
    }
}

/// A stuffed line is never the terminator, so a sent body cannot end
/// early.
pub proof fn lemma_stuff_not_terminator(l: Seq<u8>)
    ensures
        spec_stuff(l) != terminator(),
{
    if l.len() > 0 && l[0] == 46 {
        if spec_stuff(l) == terminator() {
            assert(l.len() == 2);
            assert((seq![46u8] + l)[1] == l[0]);
            assert(terminator()[1] == CR);
        }
    } else {
        if spec_stuff(l) == terminator() {
            assert(l[0] == terminator()[0]);
        }
    }
}

/// Round trip: stuffing any sequence of lines, sending them through a
/// DATA stream closed by the terminator, and unstuffing on arrival gives
/// back exactly the lines that were sent.
pub proof fn lemma_data_roundtrip(lines: Seq<Seq<u8>>)
    ensures
        data_deliver(lines.map(|i: int, l: Seq<u8>| spec_stuff(l)).push(terminator())) == lines,
    decreases lines.len(),
{
    let sent = lines.map(|i: int, l: Seq<u8>| spec_stuff(l)).push(terminator());
    if lines.len() == 0 {
        assert(sent[0] == terminator());
        assert(data_deliver(sent) =~= lines);
    } else {
        assert(sent[0] == spec_stuff(lines[0]));
        lemma_stuff_not_terminator(lines[0]);
        lemma_stuff_roundtrip(lines[0]);
        let tail = lines.skip(1);
        lemma_data_roundtrip(tail);
        assert(sent.skip(1) =~= tail.map(|i: int, l: Seq<u8>| spec_stuff(l)).push(terminator()))
            by {
            assert forall|j: int| 0 <= j < sent.len() - 1 implies sent.skip(1)[j] == tail.map(
                |i: int, l: Seq<u8>| spec_stuff(l),
            ).push(terminator())[j] by {
                if j < lines.len() - 1 {
                    assert(sent.skip(1)[j] == spec_stuff(lines[j + 1]));
                    assert(tail.map(|i: int, l: Seq<u8>| spec_stuff(l))[j] == spec_stuff(tail[j]));
                }
            }
        }
        assert(data_deliver(sent) =~= lines);
    }
}

/// What the codec's chunking mode hands the handler for one chunk, given
/// the buffer states that arrive and the bytes still owed: from each
/// buffer, the owed prefix.
pub open spec fn bdat_deliver(bufs: Seq<Seq<u8>>, remaining: nat) -> Seq<u8>
    decreases bufs.len(),
{
    if bufs.len() == 0 || remaining == 0 {
        Seq::empty()
    } else {
        let take = if remaining <= bufs[0].len() {
            remaining as int
        } else {
            bufs[0].len() as int
        };
        bufs[0].take(take) + bdat_deliver(bufs.skip(1), (remaining - take) as nat)
    }
}

/// The bytes a chunk delivers concatenate to exactly the first
/// `remaining` bytes that arrive: nothing is lost, reordered or
/// duplicated.
pub proof fn lemma_bdat_exact(bufs: Seq<Seq<u8>>, n: nat)
    requires
        bufs.flatten().len() >= n,
    ensures
        bdat_deliver(bufs, n) == bufs.flatten().take(n as int),
    decreases bufs.len(),
{
    if bufs.len() == 0 {
        assert(bufs.flatten() =~= Seq::<u8>::empty());
        assert(bdat_deliver(bufs, n) =~= bufs.flatten().take(n as int));
    } else {
        let head = bufs[0];
        let tail = bufs.skip(1);
        assert(bufs.flatten() == head + tail.flatten()) by {
            assert(bufs.drop_first() == tail);
        }
        if n == 0 {
            assert(bdat_deliver(bufs, n) =~= bufs.flatten().take(0));
        } else if n <= head.len() {
            assert(bdat_deliver(bufs, n) == head.take(n as int) + bdat_deliver(tail, 0));
            assert(bdat_deliver(tail, 0) =~= Seq::<u8>::empty());
            assert(head.take(n as int) + Seq::<u8>::empty() =~= (head + tail.flatten()).take(
                n as int,
            ));
        } else {
            let rest = (n - head.len()) as nat;
            lemma_bdat_exact(tail, rest);
            assert(bdat_deliver(bufs, n) == head + bdat_deliver(tail, rest));
            assert(head + tail.flatten().take(rest as int) =~= (head + tail.flatten()).take(
                n as int,
            ));
        }
    }
}

/// A whole chunked transfer at once: with one BDAT command per chunk,
/// each declared size covered by the bytes that arrive for it, every
/// chunk delivers exactly its declared prefix, and the deliveries
/// concatenate to the concatenation of the chunk payloads — nothing
/// lost, reordered or duplicated across the calls.
pub proof fn lemma_bdat_transfer(bufs: Seq<Seq<Seq<u8>>>, sizes: Seq<nat>)
    requires
        bufs.len() == sizes.len(),
        forall|i: int| 0 <= i < bufs.len() ==> (#[trigger] bufs[i]).flatten().len() >= sizes[i],
    ensures
        forall|i: int|
            0 <= i < bufs.len() ==> bdat_deliver(#[trigger] bufs[i], sizes[i]) == bufs[i].flatten().take(
                sizes[i] as int,
            ),
        Seq::new(bufs.len(), |i: int| bdat_deliver(bufs[i], sizes[i])).flatten() == Seq::new(
            bufs.len(),
            |i: int| bufs[i].flatten().take(sizes[i] as int),
        ).flatten(),
{
    assert forall|i: int|
        0 <= i < bufs.len() implies bdat_deliver(#[trigger] bufs[i], sizes[i])
        == bufs[i].flatten().take(sizes[i] as int) by {
        lemma_bdat_exact(bufs[i], sizes[i]);
    }
    assert(Seq::new(bufs.len(), |i: int| bdat_deliver(bufs[i], sizes[i])) =~= Seq::new(
        bufs.len(),
        |i: int| bufs[i].flatten().take(sizes[i] as int),
    ));
}

} // verus!
