//! Command parsing.
//!
//! The base SMTP command grammar (RFC 5321) is parsed by the `rustyknife`
//! crate behind trusted wrappers; the two extension commands the session
//! engine understands, STARTTLS (RFC 3207) and BDAT (RFC 3030), have such
//! small grammars that they are parsed here, verified against an exact
//! statement of their syntax.

use vstd::prelude::*;
use crate::reply::{CR, LF};

verus! {

/// A mail domain, from the `rustyknife` parser.
#[verifier::external_type_specification]
#[verifier::external_body]
pub struct ExDomain(rustyknife::types::Domain);

/// A domain or address literal, from the `rustyknife` parser.
#[verifier::external_type_specification]
#[verifier::external_body]
pub struct ExDomainPart(rustyknife::types::DomainPart);

/// The reverse path of a MAIL command, from the `rustyknife` parser.
#[verifier::external_type_specification]
#[verifier::external_body]
pub struct ExReversePath(rustyknife::rfc5321::ReversePath);

/// The forward path of a RCPT command, from the `rustyknife` parser.
#[verifier::external_type_specification]
#[verifier::external_body]
pub struct ExForwardPath(rustyknife::rfc5321::ForwardPath);

/// An ESMTP parameter, from the `rustyknife` parser.
#[verifier::external_type_specification]
#[verifier::external_body]
pub struct ExParam(rustyknife::rfc5321::Param);

/// A quotable SMTP string, from the `rustyknife` parser.
#[verifier::external_type_specification]
#[verifier::external_body]
pub struct ExSMTPString(rustyknife::rfc5321::SMTPString);

/// The base command set of the `rustyknife` parser.
#[verifier::external_type_specification]
#[verifier::external_body]
pub struct ExBaseCommand(rustyknife::rfc5321::Command);

/// One parsed SMTP command: the base set of RFC 5321 and the two
/// extension commands the engine understands.
pub enum ClientCommand {
    /// EHLO with its domain or address literal.
    Ehlo(rustyknife::types::DomainPart),
    /// HELO with its domain.
    Helo(rustyknife::types::Domain),
    /// MAIL FROM with reverse path and parameters.
    Mail(rustyknife::rfc5321::ReversePath, Vec<rustyknife::rfc5321::Param>),
    /// RCPT TO with forward path and parameters.
    Rcpt(rustyknife::rfc5321::ForwardPath, Vec<rustyknife::rfc5321::Param>),
    /// DATA.
    Data,
    /// RSET.
    Rset,
    /// NOOP with its optional argument.
    Noop(Option<rustyknife::rfc5321::SMTPString>),
    /// QUIT.
    Quit,
    /// VRFY with its argument.
    Vrfy(rustyknife::rfc5321::SMTPString),
    /// EXPN with its argument.
    Expn(rustyknife::rfc5321::SMTPString),
    /// HELP with its optional argument.
    Help(Option<rustyknife::rfc5321::SMTPString>),
    /// STARTTLS.
    Starttls,
    /// BDAT with declared chunk size and LAST flag.
    Bdat(u64, bool),
}

/// Whether rustyknife::rfc5321::command accepts the line and consumes
/// all of it — the parser is a function of the line and the UTF-8 policy
/// alone, so its verdict can be named even though the grammar cannot be
/// written down here.
pub uninterp spec fn base_parse_ok(line: Seq<u8>, intl: bool) -> bool;

/// Relies on rustyknife::rfc5321::command: parses one base SMTP command
/// from a line, returning the command and how many input bytes were left
/// over.  The remainder of a successful nom parse is a suffix of the
/// input, so its length never exceeds the input's; the parse succeeds
/// with an empty remainder exactly on the lines the grammar accepts
/// whole, which is what `base_parse_ok` names.
#[verifier::external_body]
fn parse_base(line: &[u8], intl: bool) -> (r: Option<(usize, rustyknife::rfc5321::Command)>)
    ensures
        r matches Some(p) ==> p.0 <= line@.len(),
        r matches Some(p) ==> (p.0 == 0 <==> base_parse_ok(line@, intl)),
        r is None ==> !base_parse_ok(line@, intl),
{
    let res = if intl {
        rustyknife::rfc5321::command::<rustyknife::behaviour::Intl>(line)
    } else {
        rustyknife::rfc5321::command::<rustyknife::behaviour::Legacy>(line)
    };
    match res {
        Ok((rem, cmd)) => Some((rem.len(), cmd)),
        Err(_) => None,
    }
}

/// Relies on rustyknife::rfc5321::Command, whose variants this maps one
/// for one onto the base variants of [`ClientCommand`], moving the payloads.
#[verifier::external_body]
fn convert_base(cmd: rustyknife::rfc5321::Command) -> (r: ClientCommand)
    ensures
        !(r is Starttls),
        !(r is Bdat),
{
    match cmd {
        rustyknife::rfc5321::Command::EHLO(d) => ClientCommand::Ehlo(d),
        rustyknife::rfc5321::Command::HELO(d) => ClientCommand::Helo(d),
        rustyknife::rfc5321::Command::MAIL(p, params) => ClientCommand::Mail(p, params),
        rustyknife::rfc5321::Command::RCPT(p, params) => ClientCommand::Rcpt(p, params),
        rustyknife::rfc5321::Command::DATA => ClientCommand::Data,
        rustyknife::rfc5321::Command::RSET => ClientCommand::Rset,
        rustyknife::rfc5321::Command::NOOP(s) => ClientCommand::Noop(s),
        rustyknife::rfc5321::Command::QUIT => ClientCommand::Quit,
        rustyknife::rfc5321::Command::VRFY(s) => ClientCommand::Vrfy(s),
        rustyknife::rfc5321::Command::EXPN(s) => ClientCommand::Expn(s),
        rustyknife::rfc5321::Command::HELP(s) => ClientCommand::Help(s),
    }
}

/// ASCII upper-casing of one byte.
pub open spec fn upper(b: u8) -> u8 {
    if 97 <= b <= 122 {
        (b - 32) as u8
    } else {
        b
    }
}

/// The bytes of `STARTTLS` followed by CRLF.
pub open spec fn starttls_line() -> Seq<u8> {
    seq![83u8, 84u8, 65u8, 82u8, 84u8, 84u8, 76u8, 83u8, CR, LF]
}

/// Whether a line is exactly the STARTTLS command (RFC 3207), letters
/// compared without regard to case.
pub open spec fn is_starttls_line(l: Seq<u8>) -> bool {
    l.len() == 10 && forall|i: int| 0 <= i < 10 ==> upper(l[i]) == starttls_line()[i]
}

/// The byte the STARTTLS command line holds at position `i`.
fn starttls_expect(i: usize) -> (b: u8)
    requires
        i < 10,
    ensures
        b == starttls_line()[i as int],
{
    match i {
        0 => 83,
        1 => 84,
        2 => 65,
        3 => 82,
        4 => 84,
        5 => 84,
        6 => 76,
        7 => 83,
        8 => CR,
        _ => LF,
    }
}

/// Whether a line is recognised as a STARTTLS command.
pub fn parse_starttls(line: &[u8]) -> (r: bool)
    ensures
        r == is_starttls_line(line@),
{
    if line.len() != 10 {
        return false;
    }
    let mut i: usize = 0;
    while i < 10
        invariant
            0 <= i <= 10,
            line@.len() == 10,
            forall|j: int| 0 <= j < i ==> upper(line@[j]) == starttls_line()[j],
        decreases 10 - i,
    {
        let b = line[i];
        let u = if 97 <= b && b <= 122 {
            b - 32
        } else {
            b
        };
        if u != starttls_expect(i) {
            proof {
                assert(upper(line@[i as int]) != starttls_line()[i as int]);
            }
            return false;
        }
        i += 1;
    }
    true
}

/// An ASCII decimal digit.
pub open spec fn is_digit(b: u8) -> bool {
    48 <= b <= 57
}

/// The value of a run of decimal digit bytes.
pub open spec fn dec_value(ds: Seq<u8>) -> nat
    decreases ds.len(),
{
    if ds.len() == 0 {
        0
    } else {
        dec_value(ds.drop_last()) * 10 + (ds.last() - 48) as nat
    }
}

/// Ten to the given power.
pub open spec fn pow10(n: nat) -> nat
    decreases n,
{
    if n == 0 {
        1
    } else {
        10 * pow10((n - 1) as nat)
    }
}

/// A digit run's value stays below ten to its length.
pub proof fn lemma_dec_value_bound(ds: Seq<u8>)
    requires
        forall|i: int| 0 <= i < ds.len() ==> is_digit(ds[i]),
    ensures
        dec_value(ds) < pow10(ds.len()),
    decreases ds.len(),
{
    if ds.len() > 0 {
        lemma_dec_value_bound(ds.drop_last());
    }
}

/// The grammar of a BDAT command line (RFC 3030): `BDAT`, one space, one
/// to twenty decimal digits giving the chunk size, optionally ` LAST`,
/// then CRLF; letters are compared without regard to case.
pub open spec fn is_bdat_line(l: Seq<u8>, size: u64, last: bool) -> bool {
    let nd = l.len() - 7 - (if last {
        5int
    } else {
        0int
    });
    &&& 1 <= nd <= 20
    &&& upper(l[0]) == 66 && upper(l[1]) == 68 && upper(l[2]) == 65 && upper(l[3]) == 84 && l[4]
        == 32
    &&& forall|i: int| 0 <= i < nd ==> is_digit(#[trigger] l[5 + i])
    &&& dec_value(l.subrange(5, 5 + nd)) == size as nat
    &&& (last ==> upper(l[l.len() - 7]) == 32 && upper(l[l.len() - 6]) == 76 && upper(l[l.len()
        - 5]) == 65 && upper(l[l.len() - 4]) == 83 && upper(l[l.len() - 3]) == 84)
    &&& l[l.len() - 2] == CR
    &&& l[l.len() - 1] == LF
}

/// ASCII upper-casing of one byte, executable form.
fn upper_byte(b: u8) -> (r: u8)
    ensures
        r == upper(b),
{
    if 97 <= b && b <= 122 {
        b - 32
    } else {
        b
    }
}

/// Parse a BDAT command line: its chunk size and LAST flag exactly when
/// the line meets the BDAT grammar, and nothing otherwise.
pub fn parse_bdat(line: &[u8]) -> (r: Option<(u64, bool)>)
    ensures
        r matches Some(p) ==> is_bdat_line(line@, p.0, p.1),
        r is None ==> forall|s: u64, la: bool| !is_bdat_line(line@, s, la),
{
    let n = line.len();
    if n < 8 {
        return None;
    }
    let prefix_ok = upper_byte(line[0]) == 66 && upper_byte(line[1]) == 68 && upper_byte(line[2])
        == 65 && upper_byte(line[3]) == 84 && line[4] == 32;
    if !prefix_ok {
        return None;
    }
    // scan the digit run
    let mut j: usize = 5;
    while j < n && 48 <= line[j] && line[j] <= 57
        invariant
            5 <= j <= n,
            n == line@.len(),
            forall|p: int| 5 <= p < j ==> is_digit(line@[p]),
        decreases n - j,
    {
        j += 1;
    }
    let nd = j - 5;
    let ghost digits = line@.subrange(5, j as int);
    if nd < 1 || nd > 20 {
        proof {
            assert forall|s: u64, la: bool| !is_bdat_line(line@, s, la) by {
                lemma_bdat_digit_run(line@, j as int, s, la);
            }
        }
        return None;
    }
    // value of the digit run
    let mut val: u128 = 0;
    let mut p: usize = 5;
    while p < j
        invariant
            5 <= p <= j <= n,
            n == line@.len(),
            j - 5 <= 20,
            forall|q: int| 5 <= q < j ==> is_digit(line@[q]),
            val as nat == dec_value(line@.subrange(5, p as int)),
            (val as nat) < pow10(((p - 5) as nat)),
        decreases j - p,
    {
        proof {
            lemma_pow10_le(((p - 5) as nat), 20);
            reveal_with_fuel(pow10, 22);
            assert(pow10(20) == 100000000000000000000);
            assert(line@.subrange(5, p + 1).drop_last() =~= line@.subrange(5, p as int));
        }
        let d = line[p];
        val = val * 10 + ((d - 48) as u128);
        p += 1;
    }
    proof {
        assert(digits =~= line@.subrange(5, j as int));
    }
    if val > 18446744073709551615u128 {
        proof {
            assert forall|s: u64, la: bool| !is_bdat_line(line@, s, la) by {
                lemma_bdat_digit_run(line@, j as int, s, la);
                if is_bdat_line(line@, s, la) {
                    assert(dec_value(digits) == s as nat);
                }
            }
        }
        return None;
    }
    let size = val as u64;
    // what follows the digits: CRLF, or ` LAST` and CRLF
    if n - j == 2 {
        if line[j] == CR && line[j + 1] == LF {
            return Some((size, false));
        }
        proof {
            assert forall|s: u64, la: bool| !is_bdat_line(line@, s, la) by {
                lemma_bdat_digit_run(line@, j as int, s, la);
            }
        }
        return None;
    }
    if n - j == 7 {
        let last_ok = line[j] == 32 && upper_byte(line[j + 1]) == 76 && upper_byte(line[j + 2])
            == 65 && upper_byte(line[j + 3]) == 83 && upper_byte(line[j + 4]) == 84 && line[n - 2]
            == CR && line[n - 1] == LF;
        if last_ok {
            return Some((size, true));
        }
        proof {
            assert forall|s: u64, la: bool| !is_bdat_line(line@, s, la) by {
                lemma_bdat_digit_run(line@, j as int, s, la);
            }
        }
        return None;
    }
    proof {
        assert forall|s: u64, la: bool| !is_bdat_line(line@, s, la) by {
            lemma_bdat_digit_run(line@, j as int, s, la);
        }
    }
    None
}

/// Smaller powers of ten divide into larger ones.
proof fn lemma_pow10_le(a: nat, b: nat)
    requires
        a <= b,
    ensures
        pow10(a) <= pow10(b),
    decreases b,
{
    if a < b {
        lemma_pow10_le(a, (b - 1) as nat);
        assert(pow10(b) == 10 * pow10((b - 1) as nat));
    }
}

/// In any reading of a line as a BDAT command, the declared digit field
/// is exactly the maximal digit run after the prefix.
proof fn lemma_bdat_digit_run(l: Seq<u8>, j: int, s: u64, la: bool)
    requires
        5 <= j <= l.len(),
        forall|p: int| 5 <= p < j ==> is_digit(l[p]),
        j < l.len() ==> !is_digit(l[j]),
    ensures
        is_bdat_line(l, s, la) ==> {
            let nd = l.len() - 7 - (if la {
                5int
            } else {
                0int
            });
            5 + nd == j && dec_value(l.subrange(5, j)) == s as nat
        },
{
    if is_bdat_line(l, s, la) {
        let nd = l.len() - 7 - (if la {
            5int
        } else {
            0int
        });
        assert(1 <= nd);
        if 5 + nd < j {
            // the byte after the declared digits is a digit, but the
            // grammar puts a space or carriage return there
            assert(is_digit(l[5 + nd]));
            if la {
                assert(upper(l[l.len() - 7]) == 32);
                assert(l.len() - 7 == 5 + nd);
                assert(upper(l[5 + nd]) == l[5 + nd]);
            } else {
                assert(l[l.len() - 2] == CR);
                assert(5 + nd == l.len() - 2);
            }
            assert(false);
        }
        if 5 + nd > j {
            assert(j < l.len());
            assert(is_digit(l[5 + (j - 5)]));
            assert(false);
        }
    }
}

/// A line reads as a BDAT command in at most one way.
pub proof fn lemma_bdat_unique(l: Seq<u8>, s1: u64, la1: bool, s2: u64, la2: bool)
    requires
        is_bdat_line(l, s1, la1),
        is_bdat_line(l, s2, la2),
    ensures
        s1 == s2,
        la1 == la2,
{
    let len = l.len() as int;
    if la1 != la2 {
        // under the LAST reading a space stands where the other reading
        // still has digits
        let ndt = len - 12;
        let ndf = len - 7;
        assert(1 <= ndt);
        assert(is_digit(l[5 + ndt]));
        assert(upper(l[len - 7]) == 32);
        assert(upper(l[5 + ndt]) == l[5 + ndt]);
        assert(false);
    }
    let nd = len - 7 - (if la1 {
        5int
    } else {
        0int
    });
    assert(dec_value(l.subrange(5, 5 + nd)) == s1 as nat);
    assert(dec_value(l.subrange(5, 5 + nd)) == s2 as nat);
}

/// Parse one command line: the two extension commands by their exact
/// grammars, and anything else through the base-command parser, which
/// must consume the whole line.
pub fn parse_command(line: &[u8], intl: bool) -> (r: Option<ClientCommand>)
    ensures
        forall|sz: u64, la: bool|
            is_bdat_line(line@, sz, la) ==> r == Some(ClientCommand::Bdat(sz, la)),
        is_starttls_line(line@) ==> r == Some(ClientCommand::Starttls),
        r matches Some(ClientCommand::Bdat(sz, la)) ==> is_bdat_line(line@, sz, la),
        r matches Some(ClientCommand::Starttls) ==> is_starttls_line(line@),
        (forall|sz: u64, la: bool| !is_bdat_line(line@, sz, la)) && !is_starttls_line(line@)
            ==> (r is Some <==> base_parse_ok(line@, intl)),
{
    match parse_bdat(line) {
        Some((sz, la)) => {
            proof {
                assert forall|sz2: u64, la2: bool| is_bdat_line(line@, sz2, la2) implies Some(
                    ClientCommand::Bdat(sz, la),
                ) == Some(ClientCommand::Bdat(sz2, la2)) by {
                    lemma_bdat_unique(line@, sz, la, sz2, la2);
                }
                assert(!is_starttls_line(line@)) by {
                    if is_starttls_line(line@) {
                        assert(upper(line@[0]) == starttls_line()[0]);
                    }
                }
            }
            Some(ClientCommand::Bdat(sz, la))
        },
        None => {
            if parse_starttls(line) {
                return Some(ClientCommand::Starttls);
            }
            match parse_base(line, intl) {
                Some((rem, cmd)) => {
                    if rem == 0 {
                        Some(convert_base(cmd))
                    } else {
                        None
                    }
                },
                None => None,
            }
        },
    }
}

} // verus!
