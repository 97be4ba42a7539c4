//! Structured SMTP replies and their wire serialisation.
//!
//! A reply is a three-digit code, an optional enhanced status code and a
//! text that may span several logical lines (separated by line feeds).  The
//! serialisation emits one physical line per logical line; every physical
//! line ends in CRLF, and exactly the last one separates the code from the
//! text with a space instead of a dash.

use vstd::prelude::*;
use vstd::string::StrSliceExecFns;
use vstd::string::StringSliceAdditionalSpecFns;

verus! {

/// Carriage return.
pub const CR: u8 = 13;

/// Line feed.
pub const LF: u8 = 10;

/// An enhanced status code as in RFC 3463: `class.subject.detail`.
#[derive(Clone, Copy, PartialEq, Eq, Structural, Debug)]
pub struct EnhancedCode(pub u8, pub u16, pub u16);

/// A structured SMTP reply.
#[derive(Clone, Debug)]
pub struct Reply {
    code: u16,
    ecode: Option<EnhancedCode>,
    text: Vec<u8>,
}

/// Mathematical model of a reply.
pub struct ReplyView {
    pub code: u16,
    pub ecode: Option<EnhancedCode>,
    pub text: Seq<u8>,
}

impl View for Reply {
    type V = ReplyView;

    closed spec fn view(&self) -> ReplyView {
        ReplyView { code: self.code, ecode: self.ecode, text: self.text@ }
    }
}

/// A reply code must be a three-digit code from 200 to 599.
pub open spec fn valid_code(code: u16) -> bool {
    200 <= code < 600
}

/// Reply text must not contain a carriage return.
pub open spec fn valid_text(t: Seq<u8>) -> bool {
    forall|i: int| 0 <= i < t.len() ==> t[i] != CR
}

impl ReplyView {
    /// Well-formedness: what every constructed reply satisfies.
    pub open spec fn wf(self) -> bool {
        valid_code(self.code) && valid_text(self.text)
    }
}

impl Reply {
    /// The reply code.
    pub fn code(&self) -> (c: u16)
        ensures
            c == self@.code,
    {
        self.code
    }

    /// Build a reply, refusing an out-of-range code or text that
    /// contains a carriage return.
    pub fn new_checked(code: u16, ecode: Option<EnhancedCode>, text: &str) -> (r: Option<Reply>)
        ensures
            (r is Some) <==> (valid_code(code) && valid_text(text.spec_bytes())),
            r is Some ==> r->0@ == (ReplyView {
                code,
                ecode,
                text: text.spec_bytes(),
            }),
            r is Some ==> r->0@.wf(),
    {
        let bytes = text.as_bytes_vec();
        if code < 200 || code >= 600 {
            return None;
        }
        let mut i: usize = 0;
        while i < bytes.len()
            invariant
                0 <= i <= bytes@.len(),
                bytes@ == text.spec_bytes(),
                valid_code(code),
                forall|j: int| 0 <= j < i ==> bytes@[j] != CR,
            decreases bytes@.len() - i,
        {
            if bytes[i] == CR {
                proof {
                    assert(!valid_text(bytes@)) by {
                        assert(bytes@[i as int] == CR);
                    }
                }
                return None;
            }
            i += 1;
        }
        Some(Reply { code, ecode, text: bytes })
    }

    /// Build a reply whose text is already in byte form.
    pub fn from_bytes(code: u16, ecode: Option<EnhancedCode>, text: Vec<u8>) -> (r: Reply)
        requires
            valid_code(code),
            valid_text(text@),
        ensures
            r@ == (ReplyView { code, ecode, text: text@ }),
            r@.wf(),
    {
        Reply { code, ecode, text }
    }

    /// Build a reply from inputs already known to be valid.
    pub fn new(code: u16, ecode: Option<EnhancedCode>, text: &str) -> (r: Reply)
        requires
            valid_code(code),
            valid_text(text.spec_bytes()),
        ensures
            r@ == (ReplyView { code, ecode, text: text.spec_bytes() }),
            r@.wf(),
    {
        let bytes = text.as_bytes_vec();
        Reply { code, ecode, text: bytes }
    }
}

/// Decimal representation of a number, most significant digit first.
pub open spec fn dec_rep(n: nat) -> Seq<u8>
    decreases n,
{
    if n < 10 {
        seq![(48 + n) as u8]
    } else {
        dec_rep(n / 10).push((48 + n % 10) as u8)
    }
}

/// The serialised form of an enhanced status code: `class.subject.detail`.
pub open spec fn ecode_bytes(e: EnhancedCode) -> Seq<u8> {
    dec_rep(e.0 as nat) + seq![46u8] + dec_rep(e.1 as nat) + seq![46u8] + dec_rep(e.2 as nat)
}

/// What stands between the separator and the text of each physical line:
/// the enhanced code followed by a space, or nothing.
pub open spec fn ecode_part(e: Option<EnhancedCode>) -> Seq<u8> {
    match e {
        Some(e) => ecode_bytes(e) + seq![32u8],
        None => Seq::empty(),
    }
}

/// Split a byte sequence on line feeds.  The result always has at least
/// one (possibly empty) piece; no piece contains a line feed.
pub open spec fn split_on_lf(t: Seq<u8>) -> Seq<Seq<u8>>
    decreases t.len(),
{
    if t.len() == 0 {
        seq![Seq::<u8>::empty()]
    } else if t[0] == LF {
        seq![Seq::<u8>::empty()] + split_on_lf(t.skip(1))
    } else {
        let rest = split_on_lf(t.skip(1));
        seq![seq![t[0]] + rest[0]] + rest.skip(1)
    }
}

/// The logical lines of a reply text, with the semantics of line
/// iteration used by the serialiser: a trailing line feed does not open
/// a further empty line, and an empty text has no lines at all.
pub open spec fn split_lines(t: Seq<u8>) -> Seq<Seq<u8>> {
    if t.len() == 0 {
        Seq::empty()
    } else if t.last() == LF {
        split_on_lf(t.drop_last())
    } else {
        split_on_lf(t)
    }
}

/// One physical line of the serialised reply: the code, a dash (or, on
/// the last line, a space), the optional enhanced code, the text line,
/// and CRLF.
pub open spec fn render_unit(code: u16, e: Option<EnhancedCode>, line: Seq<u8>, last: bool) -> Seq<
    u8,
> {
    dec_rep(code as nat) + seq![if last {
        32u8
    } else {
        45u8
    }] + ecode_part(e) + line + seq![CR, LF]
}

/// The serialisation of a sequence of logical lines.
pub open spec fn render_units(code: u16, e: Option<EnhancedCode>, lines: Seq<Seq<u8>>) -> Seq<u8>
    decreases lines.len(),
{
    if lines.len() == 0 {
        Seq::empty()
    } else if lines.len() == 1 {
        render_unit(code, e, lines[0], true)
    } else {
        render_unit(code, e, lines[0], false) + render_units(code, e, lines.skip(1))
    }
}

/// The full wire form of a reply.
pub open spec fn spec_render(v: ReplyView) -> Seq<u8> {
    render_units(v.code, v.ecode, split_lines(v.text))
}

/// Splitting always yields at least one piece.
pub proof fn lemma_split_on_lf_len(t: Seq<u8>)
    ensures
        split_on_lf(t).len() >= 1,
    decreases t.len(),
{
    if t.len() == 0 {
    } else if t[0] == LF {
    } else {
        lemma_split_on_lf_len(t.skip(1));
    }
}

/// Splitting a sequence without line feeds yields that sequence alone.
pub proof fn lemma_split_no_lf(t: Seq<u8>)
    requires
        forall|j: int| 0 <= j < t.len() ==> t[j] != LF,
    ensures
        split_on_lf(t) == seq![t],
    decreases t.len(),
{
    if t.len() == 0 {
        assert(t =~= Seq::<u8>::empty());
        assert(split_on_lf(t) =~= seq![t]);
    } else {
        assert(t[0] != LF);
        lemma_split_no_lf(t.skip(1));
        let rest = split_on_lf(t.skip(1));
        assert(rest == seq![t.skip(1)]);
        assert(seq![t[0]] + t.skip(1) =~= t);
        assert(rest.skip(1) =~= Seq::<Seq<u8>>::empty());
        assert(split_on_lf(t) =~= seq![t]);
    }
}

/// Splitting at the first line feed takes everything before it as the
/// first piece and splits the remainder.
pub proof fn lemma_split_at_first_lf(t: Seq<u8>, i: int)
    requires
        0 <= i < t.len(),
        t[i] == LF,
        forall|j: int| 0 <= j < i ==> t[j] != LF,
    ensures
        split_on_lf(t) == seq![t.take(i)] + split_on_lf(t.skip(i + 1)),
    decreases i,
{
    if i == 0 {
        assert(t.take(0) =~= Seq::<u8>::empty());
        assert(split_on_lf(t) =~= seq![t.take(0)] + split_on_lf(t.skip(1)));
    } else {
        let s = t.skip(1);
        assert(s[i - 1] == LF);
        assert(forall|j: int| 0 <= j < i - 1 ==> s[j] != LF);
        lemma_split_at_first_lf(s, i - 1);
        let rest = split_on_lf(s);
        assert(rest == seq![s.take(i - 1)] + split_on_lf(s.skip(i)));
        assert(rest[0] == s.take(i - 1));
        assert(seq![t[0]] + s.take(i - 1) =~= t.take(i));
        assert(rest.skip(1) =~= split_on_lf(s.skip(i)));
        assert(s.skip(i) =~= t.skip(i + 1));
        assert(split_on_lf(t) =~= seq![t.take(i)] + split_on_lf(t.skip(i + 1)));
    }
}

/// Peeling the unit of line `k` off the rendering of the suffix of the
/// logical lines from `k` on.
pub proof fn lemma_render_units_step(
    code: u16,
    e: Option<EnhancedCode>,
    lines: Seq<Seq<u8>>,
    k: int,
)
    requires
        0 <= k < lines.len(),
    ensures
        render_units(code, e, lines.skip(k)) == render_unit(code, e, lines[k], k == lines.len() - 1)
            + render_units(code, e, lines.skip(k + 1)),
{
    let s = lines.skip(k);
    assert(s.len() == lines.len() - k);
    assert(s[0] == lines[k]);
    if k == lines.len() - 1 {
        assert(s.len() == 1);
        assert(lines.skip(k + 1) =~= Seq::<Seq<u8>>::empty());
        assert(render_units(code, e, s) =~= render_unit(code, e, lines[k], true) + render_units(
            code,
            e,
            lines.skip(k + 1),
        ));
    } else {
        assert(s.len() >= 2);
        assert(s.skip(1) =~= lines.skip(k + 1));
        assert(render_units(code, e, s) == render_unit(code, e, s[0], false) + render_units(
            code,
            e,
            s.skip(1),
        ));
    }
}

/// Append the decimal representation of `n`.
fn push_dec(out: &mut Vec<u8>, n: u16)
    ensures
        final(out)@ == old(out)@ + dec_rep(n as nat),
    decreases n,
{
    if n < 10 {
        out.push(48 + (n as u8));
        assert(out@ =~= old(out)@ + dec_rep(n as nat));
    } else {
        push_dec(out, n / 10);
        out.push(48 + ((n % 10) as u8));
        assert(out@ =~= old(out)@ + dec_rep(n as nat));
    }
}

impl Reply {
    /// Serialise the reply to its wire form: one CRLF-terminated physical
    /// line per logical line of the text, a dash after the code on every
    /// line but the last, a space on the last.
    #[verifier::rlimit(60)]
    pub fn render(&self) -> (out: Vec<u8>)
        ensures
            out@ == spec_render(self@),
    {
        let mut out: Vec<u8> = Vec::new();
        let n = self.text.len();
        if n == 0 {
            return out;
        }
        let body_len: usize = if self.text[n - 1] == LF {
            n - 1
        } else {
            n
        };
        let ghost body: Seq<u8> = self@.text.take(body_len as int);
        let ghost lines = split_lines(self@.text);
        proof {
            if self@.text.last() == LF {
                assert(body =~= self@.text.drop_last());
            } else {
                assert(body =~= self@.text);
            }
            assert(lines == split_on_lf(body));
            assert(body.skip(0) =~= body);
            assert(lines.skip(0) =~= lines);
        }
        let mut start: usize = 0;
        let ghost mut k: int = 0;
        loop
            invariant_except_break
                out@ + render_units(self@.code, self@.ecode, lines.skip(k)) == render_units(
                    self@.code,
                    self@.ecode,
                    lines,
                ),
            invariant
                n == self.text@.len(),
                0 <= start <= body_len <= n,
                body == self@.text.take(body_len as int),
                lines == split_lines(self@.text),
                0 <= k < lines.len(),
                split_on_lf(body.skip(start as int)) == lines.skip(k),
            ensures
                out@ == render_units(self@.code, self@.ecode, lines),
            decreases body_len - start,
        {
            proof {
                lemma_split_on_lf_len(body.skip(start as int));
            }
            let mut j: usize = start;
            while j < body_len && self.text[j] != LF
                invariant
                    start <= j <= body_len <= n,
                    n == self.text@.len(),
                    forall|p: int| start <= p < j ==> self.text@[p] != LF,
                decreases body_len - j,
            {
                j += 1;
            }
            let is_last = j == body_len;
            let end = j;
            let ghost piece = self@.text.subrange(start as int, end as int);
            proof {
                let suffix = body.skip(start as int);
                assert(forall|p: int|
                    0 <= p < (end - start) ==> suffix[p] == self.text@[start + p] && suffix[p]
                        != LF);
                if is_last {
                    assert(forall|p: int| 0 <= p < suffix.len() ==> suffix[p] != LF);
                    lemma_split_no_lf(suffix);
                    assert(suffix =~= piece);
                    assert(lines.skip(k) == seq![piece]);
                    assert(lines.skip(k).len() == 1);
                    assert(k == lines.len() - 1);
                    assert(lines[k] == piece);
                } else {
                    assert(suffix[end - start] == self.text@[end as int]);
                    assert(suffix[end - start] == LF);
                    lemma_split_at_first_lf(suffix, end - start);
                    assert(suffix.take(end - start) =~= piece);
                    assert(suffix.skip(end - start + 1) =~= body.skip(end + 1));
                    assert(lines.skip(k) == seq![piece] + split_on_lf(body.skip(end + 1)));
                    assert(lines[k] == piece);
                    lemma_split_on_lf_len(body.skip(end + 1));
                    assert(lines.skip(k).len() >= 2);
                    assert(k < lines.len() - 1);
                    assert(lines.skip(k).skip(1) =~= lines.skip(k + 1));
                    assert(split_on_lf(body.skip(end + 1)) =~= lines.skip(k).skip(1));
                }
                lemma_render_units_step(self@.code, self@.ecode, lines, k);
            }
            let ghost pre = out@;
            push_dec(&mut out, self.code);
            out.push(
                if is_last {
                    32
                } else {
                    45
                },
            );
            if let Some(e) = &self.ecode {
                push_dec(&mut out, e.0 as u16);
                out.push(46);
                push_dec(&mut out, e.1);
                out.push(46);
                push_dec(&mut out, e.2);
                out.push(32);
            }
            let ghost mid = out@;
            proof {
                assert(mid =~= pre + dec_rep(self@.code as nat) + seq![if is_last {
                    32u8
                } else {
                    45u8
                }] + ecode_part(self@.ecode));
            }
            let mut p = start;
            while p < end
                invariant
                    start <= p <= end <= n,
                    n == self.text@.len(),
                    out@ == mid + self.text@.subrange(start as int, p as int),
                decreases end - p,
            {
                proof {
                    assert(self.text@.subrange(start as int, p as int).push(self.text@[p as int])
                        =~= self.text@.subrange(start as int, p + 1));
                }
                out.push(self.text[p]);
                p += 1;
            }
            out.push(CR);
            out.push(LF);
            proof {
                assert(out@ =~= pre + render_unit(
                    self@.code,
                    self@.ecode,
                    piece,
                    k == lines.len() - 1,
                ));
            }
            if is_last {
                proof {
                    let c = self@.code;
                    let e = self@.ecode;
                    let unit = render_unit(c, e, piece, true);
                    assert(lines.skip(k + 1) =~= Seq::<Seq<u8>>::empty());
                    assert(render_units(c, e, lines.skip(k)) =~= unit + render_units(
                        c,
                        e,
                        lines.skip(k + 1),
                    ));
                    assert(unit + render_units(c, e, lines.skip(k + 1)) =~= unit);
                    assert(out@ =~= pre + render_units(c, e, lines.skip(k)));
                }
                break ;
            } else {
                start = end + 1;
                proof {
                    let c = self@.code;
                    let e = self@.ecode;
                    let unit = render_unit(c, e, piece, false);
                    assert(render_units(c, e, lines.skip(k)) == unit + render_units(
                        c,
                        e,
                        lines.skip(k + 1),
                    ));
                    assert(out@ =~= pre + unit);
                    k = k + 1;
                    assert(out@ + render_units(c, e, lines.skip(k)) =~= (pre + unit)
                        + render_units(c, e, lines.skip(k)));
                    assert((pre + unit) + render_units(c, e, lines.skip(k)) =~= pre + (unit
                        + render_units(c, e, lines.skip(k))));
                    assert(pre + (unit + render_units(c, e, lines.skip(k))) =~= render_units(
                        c,
                        e,
                        lines,
                    ));
                }
            }
        }
        out
    }
}

/// Decimal representations are never empty and hold only digit bytes.
pub proof fn lemma_dec_rep_digits(n: nat)
    ensures
        dec_rep(n).len() >= 1,
        forall|i: int| 0 <= i < dec_rep(n).len() ==> 48 <= #[trigger] dec_rep(n)[i] <= 57,
    decreases n,
{
    if n >= 10 {
        lemma_dec_rep_digits(n / 10);
    }
}

/// The optional enhanced-code part holds neither CR nor LF.
pub proof fn lemma_ecode_part_clean(e: Option<EnhancedCode>)
    ensures
        forall|i: int|
            0 <= i < ecode_part(e).len() ==> #[trigger] ecode_part(e)[i] != CR && ecode_part(e)[i]
                != LF,
{
    match e {
        Some(c) => {
            lemma_dec_rep_digits(c.0 as nat);
            lemma_dec_rep_digits(c.1 as nat);
            lemma_dec_rep_digits(c.2 as nat);
        },
        None => {},
    }
}

/// No piece produced by splitting contains a line feed, and none
/// contains a carriage return if the split text contained none.
pub proof fn lemma_split_pieces_clean(t: Seq<u8>)
    ensures
        forall|p: int, i: int|
            0 <= p < split_on_lf(t).len() && 0 <= i < split_on_lf(t)[p].len() ==> (#[trigger] split_on_lf(
                t,
            )[p][i] != LF && (valid_text(t) ==> split_on_lf(t)[p][i] != CR)),
    decreases t.len(),
{
    if t.len() == 0 {
    } else if t[0] == LF {
        lemma_split_pieces_clean(t.skip(1));
        assert(valid_text(t) ==> valid_text(t.skip(1)));
        let s = split_on_lf(t);
        let r = split_on_lf(t.skip(1));
        assert(s == seq![Seq::<u8>::empty()] + r);
        assert forall|p: int, i: int| 0 <= p < s.len() && 0 <= i < s[p].len() implies #[trigger] s[p][i]
            != LF && (valid_text(t) ==> s[p][i] != CR) by {
            if p >= 1 {
                assert(s[p] == r[p - 1]);
                assert(r[p - 1][i] != LF && (valid_text(t.skip(1)) ==> r[p - 1][i] != CR));
            }
        }
    } else {
        lemma_split_pieces_clean(t.skip(1));
        assert(valid_text(t) ==> valid_text(t.skip(1)));
        lemma_split_on_lf_len(t.skip(1));
        let s = split_on_lf(t);
        let r = split_on_lf(t.skip(1));
        assert(s == seq![seq![t[0]] + r[0]] + r.skip(1));
        assert forall|p: int, i: int| 0 <= p < s.len() && 0 <= i < s[p].len() implies #[trigger] s[p][i]
            != LF && (valid_text(t) ==> s[p][i] != CR) by {
            if p == 0 {
                assert(s[0] == seq![t[0]] + r[0]);
                if i == 0 {
                    assert(s[0][0] == t[0]);
                    assert(valid_text(t) ==> t[0] != CR);
                } else {
                    assert(s[0][i] == r[0][i - 1]);
                    assert(r[0][i - 1] != LF && (valid_text(t.skip(1)) ==> r[0][i - 1] != CR));
                }
            } else {
                assert(s[p] == r.skip(1)[p - 1]);
                assert(s[p] == r[p]);
                assert(r[p][i] != LF && (valid_text(t.skip(1)) ==> r[p][i] != CR));
            }
        }
    }
}

/// In one physical line, CR appears exactly once, next to last, and LF
/// exactly once, last.
pub proof fn lemma_render_unit_clean(code: u16, e: Option<EnhancedCode>, line: Seq<u8>, last: bool)
    requires
        forall|i: int| 0 <= i < line.len() ==> line[i] != CR && line[i] != LF,
    ensures
        ({
            let u = render_unit(code, e, line, last);
            &&& u.len() >= 2
            &&& forall|i: int| 0 <= i < u.len() ==> ((#[trigger] u[i] == CR) <==> i == u.len() - 2)
            &&& forall|i: int| 0 <= i < u.len() ==> ((#[trigger] u[i] == LF) <==> i == u.len() - 1)
        }),
{
    lemma_dec_rep_digits(code as nat);
    lemma_ecode_part_clean(e);
}

/// P1, CRLF discipline over a whole multi-line rendering: every CR is
/// immediately followed by an LF, every LF immediately preceded by a CR,
/// and a non-empty rendering ends in CRLF.
proof fn lemma_render_units_crlf(code: u16, e: Option<EnhancedCode>, lines: Seq<Seq<u8>>)
    requires
        forall|p: int, i: int|
            0 <= p < lines.len() && 0 <= i < lines[p].len() ==> #[trigger] lines[p][i] != CR
                && lines[p][i] != LF,
    ensures
        ({
            let out = render_units(code, e, lines);
            &&& forall|i: int|
                0 <= i < out.len() && #[trigger] out[i] == CR ==> i + 1 < out.len() && out[i + 1]
                    == LF
            &&& forall|i: int| 0 <= i < out.len() && #[trigger] out[i] == LF ==> 0 < i && out[i - 1] == CR
            &&& out.len() > 0 ==> out.len() >= 2 && out[out.len() - 2] == CR && out[out.len() - 1]
                == LF
        }),
    decreases lines.len(),
{
    let out = render_units(code, e, lines);
    if lines.len() == 0 {
    } else if lines.len() == 1 {
        assert(forall|i: int| 0 <= i < lines[0].len() ==> lines[0][i] != CR && lines[0][i] != LF);
        lemma_render_unit_clean(code, e, lines[0], true);
    } else {
        let u = render_unit(code, e, lines[0], false);
        let rest = render_units(code, e, lines.skip(1));
        assert(forall|i: int| 0 <= i < lines[0].len() ==> lines[0][i] != CR && lines[0][i] != LF);
        lemma_render_unit_clean(code, e, lines[0], false);
        assert(forall|p: int, i: int|
            0 <= p < lines.skip(1).len() && 0 <= i < lines.skip(1)[p].len() ==> #[trigger] lines.skip(
                1,
            )[p][i] != CR && lines.skip(1)[p][i] != LF);
        lemma_render_units_crlf(code, e, lines.skip(1));
        assert(lines.skip(1).len() >= 1);
        assert(rest.len() > 0) by {
            lemma_dec_rep_digits(code as nat);
        }
        assert(out == u + rest);
        assert forall|i: int| 0 <= i < out.len() && #[trigger] out[i] == CR implies i + 1
            < out.len() && out[i + 1] == LF by {
            if i < u.len() {
                assert(u[i] == CR);
                assert(i == u.len() - 2);
                assert(out[i + 1] == u[i + 1]);
            } else {
                assert(rest[i - u.len()] == CR);
            }
        }
        assert forall|i: int| 0 <= i < out.len() && #[trigger] out[i] == LF implies 0 < i && out[i
            - 1] == CR by {
            if i < u.len() {
                assert(u[i] == LF);
                assert(i == u.len() - 1);
            } else {
                let j = i - u.len();
                assert(rest[j] == LF);
                assert(0 < j && rest[j - 1] == CR);
            }
        }
        assert(out[out.len() - 2] == rest[rest.len() - 2]);
        assert(out[out.len() - 1] == rest[rest.len() - 1]);
    }
}

/// P1 for every well-formed reply: in the serialised output no carriage
/// return stands without a following line feed, no line feed without a
/// preceding carriage return, and the output, when there is any, ends in
/// CRLF.
pub proof fn lemma_render_crlf_discipline(v: ReplyView)
    requires
        v.wf(),
    ensures
        ({
            let out = spec_render(v);
            &&& forall|i: int|
                0 <= i < out.len() && #[trigger] out[i] == CR ==> i + 1 < out.len() && out[i + 1]
                    == LF
            &&& forall|i: int| 0 <= i < out.len() && #[trigger] out[i] == LF ==> 0 < i && out[i - 1] == CR
            &&& out.len() > 0 ==> out.len() >= 2 && out[out.len() - 2] == CR && out[out.len() - 1]
                == LF
        }),
{
    let lines = split_lines(v.text);
    if v.text.len() == 0 {
    } else if v.text.last() == LF {
        assert(valid_text(v.text.drop_last()));
        lemma_split_pieces_clean(v.text.drop_last());
        lemma_render_units_crlf(v.code, v.ecode, lines);
    } else {
        lemma_split_pieces_clean(v.text);
        lemma_render_units_crlf(v.code, v.ecode, lines);
    }
}

/// Where the physical line for logical line `k` begins in the rendering.
pub open spec fn unit_offset(code: u16, e: Option<EnhancedCode>, lines: Seq<Seq<u8>>, k: int) -> int
    decreases k,
{
    if k <= 0 {
        0
    } else {
        unit_offset(code, e, lines, k - 1) + render_unit(
            code,
            e,
            lines[k - 1],
            k - 1 == lines.len() - 1,
        ).len()
    }
}

/// What remains of the rendering from the start of physical line `k` on
/// is the rendering of the logical lines from `k` on.
pub proof fn lemma_render_suffix(code: u16, e: Option<EnhancedCode>, lines: Seq<Seq<u8>>, k: int)
    requires
        0 <= k <= lines.len(),
    ensures
        0 <= unit_offset(code, e, lines, k) <= render_units(code, e, lines).len(),
        render_units(code, e, lines).skip(unit_offset(code, e, lines, k)) == render_units(
            code,
            e,
            lines.skip(k),
        ),
    decreases k,
{
    let whole = render_units(code, e, lines);
    if k == 0 {
        assert(whole.skip(0) =~= whole);
        assert(lines.skip(0) =~= lines);
    } else {
        lemma_render_suffix(code, e, lines, k - 1);
        lemma_render_units_step(code, e, lines, k - 1);
        let off0 = unit_offset(code, e, lines, k - 1);
        let off = unit_offset(code, e, lines, k);
        let unit = render_unit(code, e, lines[k - 1], k - 1 == lines.len() - 1);
        assert(whole.skip(off0) == unit + render_units(code, e, lines.skip(k)));
        assert(off == off0 + unit.len());
        assert(whole.skip(off) =~= whole.skip(off0).skip(unit.len() as int));
        assert(whole.skip(off0).skip(unit.len() as int) =~= render_units(code, e, lines.skip(k)));
    }
}

/// P1, separator discipline: each physical line opens with the decimal
/// code, and the byte after the code is a space on the last physical
/// line and a dash on every other.
pub proof fn lemma_render_separators(v: ReplyView)
    requires
        v.wf(),
    ensures
        ({
            let lines = split_lines(v.text);
            let out = spec_render(v);
            let d = dec_rep(v.code as nat).len() as int;
            forall|k: int|
                0 <= k < lines.len() ==> {
                    let off = #[trigger] unit_offset(v.code, v.ecode, lines, k);
                    &&& 0 <= off && off + d < out.len()
                    &&& out.subrange(off, off + d) == dec_rep(v.code as nat)
                    &&& (out[off + d] == 32 <==> k == lines.len() - 1)
                    &&& (out[off + d] == 45 <==> k != lines.len() - 1)
                }
        }),
{
    let lines = split_lines(v.text);
    let out = spec_render(v);
    let d = dec_rep(v.code as nat).len() as int;
    assert forall|k: int| 0 <= k < lines.len() implies {
        let off = #[trigger] unit_offset(v.code, v.ecode, lines, k);
        &&& 0 <= off && off + d < out.len()
        &&& out.subrange(off, off + d) == dec_rep(v.code as nat)
        &&& (out[off + d] == 32 <==> k == lines.len() - 1)
        &&& (out[off + d] == 45 <==> k != lines.len() - 1)
    } by {
        let off = unit_offset(v.code, v.ecode, lines, k);
        lemma_render_suffix(v.code, v.ecode, lines, k);
        lemma_render_units_step(v.code, v.ecode, lines, k);
        let unit = render_unit(v.code, v.ecode, lines[k], k == lines.len() - 1);
        let tail = out.skip(off);
        assert(tail == unit + render_units(v.code, v.ecode, lines.skip(k + 1)));
        lemma_dec_rep_digits(v.code as nat);
        assert(unit.len() > d);
        assert(out.len() - off == tail.len());
        assert(forall|i: int| 0 <= i < tail.len() ==> tail[i] == out[off + i]);
        assert(out.subrange(off, off + d) =~= dec_rep(v.code as nat));
        assert(tail[d] == unit[d]);
        assert(unit[d] == (if k == lines.len() - 1 {
            32u8
        } else {
            45u8
        }));
    }
}

/// The bytes of an ASCII text without carriage returns are its characters.
pub proof fn lemma_ascii_text_valid(s: &str)
    requires
        vstd::string::is_ascii(s),
        forall|i: int| 0 <= i < s@.len() ==> s@[i] != '\r',
    ensures
        valid_text(s.spec_bytes()),
        s.spec_bytes().len() == s@.len(),
{
    vstd::string::is_ascii_spec_bytes(s);
    assert forall|i: int| 0 <= i < s.spec_bytes().len() implies s.spec_bytes()[i] != CR by {
        assert(s.spec_bytes()[i] == s@[i] as u8);
        assert('\0' <= s@[i] <= '\u{7f}');
        if s@[i] as u8 == 13 {
            assert(s@[i] == '\r');
        }
    }
}

/// The model of the stock `250 OK` reply.
pub open spec fn ok_view() -> ReplyView {
    ReplyView { code: 250, ecode: None, text: "OK".spec_bytes() }
}

/// The model of the stock `503 Bad sequence of commands` reply.
pub open spec fn bad_sequence_view() -> ReplyView {
    ReplyView { code: 503, ecode: None, text: "Bad sequence of commands".spec_bytes() }
}

/// The model of the stock `503 No mail transaction in progress` reply.
pub open spec fn no_mail_transaction_view() -> ReplyView {
    ReplyView { code: 503, ecode: None, text: "No mail transaction in progress".spec_bytes() }
}

/// The model of the stock `554 No valid recipients` reply.
pub open spec fn no_valid_recipients_view() -> ReplyView {
    ReplyView { code: 554, ecode: None, text: "No valid recipients".spec_bytes() }
}

/// The model of the stock `500 Syntax error` reply.
pub open spec fn syntax_error_view() -> ReplyView {
    ReplyView { code: 500, ecode: None, text: "Syntax error".spec_bytes() }
}

/// The model of the stock `502 Command not implemented` reply.
pub open spec fn not_implemented_view() -> ReplyView {
    ReplyView { code: 502, ecode: None, text: "Command not implemented".spec_bytes() }
}

impl Reply {
    /// The stock `250 OK` reply.
    pub fn ok() -> (r: Reply)
        ensures
            r@ == ok_view(),
            r@.wf(),
    {
        proof {
            reveal_strlit("OK");
            lemma_ascii_text_valid("OK");
        }
        Reply::new(250, None, "OK")
    }

    /// The stock `503 Bad sequence of commands` reply.
    pub fn bad_sequence() -> (r: Reply)
        ensures
            r@ == bad_sequence_view(),
            r@.wf(),
    {
        proof {
            reveal_strlit("Bad sequence of commands");
            lemma_ascii_text_valid("Bad sequence of commands");
        }
        Reply::new(503, None, "Bad sequence of commands")
    }

    /// The stock `503 No mail transaction in progress` reply.
    pub fn no_mail_transaction() -> (r: Reply)
        ensures
            r@ == no_mail_transaction_view(),
            r@.wf(),
    {
        proof {
            reveal_strlit("No mail transaction in progress");
            lemma_ascii_text_valid("No mail transaction in progress");
        }
        Reply::new(503, None, "No mail transaction in progress")
    }

    /// The stock `554 No valid recipients` reply.
    pub fn no_valid_recipients() -> (r: Reply)
        ensures
            r@ == no_valid_recipients_view(),
            r@.wf(),
    {
        proof {
            reveal_strlit("No valid recipients");
            lemma_ascii_text_valid("No valid recipients");
        }
        Reply::new(554, None, "No valid recipients")
    }

    /// The stock `500 Syntax error` reply.
    pub fn syntax_error() -> (r: Reply)
        ensures
            r@ == syntax_error_view(),
            r@.wf(),
    {
        proof {
            reveal_strlit("Syntax error");
            lemma_ascii_text_valid("Syntax error");
        }
        Reply::new(500, None, "Syntax error")
    }

    /// The stock `502 Command not implemented` reply.
    pub fn not_implemented() -> (r: Reply)
        ensures
            r@ == not_implemented_view(),
            r@.wf(),
    {
        proof {
            reveal_strlit("Command not implemented");
            lemma_ascii_text_valid("Command not implemented");
        }
        Reply::new(502, None, "Command not implemented")
    }
}

} // verus!
