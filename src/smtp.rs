//! SMTP/LMTP command line parsing.

use vstd::prelude::*;
use vstd::string::StringSliceAdditionalSpecFns;

use crate::text::{captures_of, decimal_u64, group, group_text, groups_view, parse_u64, regex_captures};

verus! {

/// One SMTP or LMTP command.
#[derive(Clone, Debug, PartialEq, Eq)]
pub enum Command {
    /// (HELO|EHLO|LHLO) origin-host ignored...
    Helo(String, String),
    /// AUTH mechanism [base64]
    Auth(String, Option<String>),
    /// MAIL FROM:<return-path> [SIZE=sz] [BODY=encoding]
    MailFrom(String, Option<u64>),
    /// RCPT TO:<ignored...:email>
    Recipient(String),
    /// DATA
    Data,
    /// BDAT length [LAST]
    BinaryData(u64, bool),
    /// RSET
    Reset,
    /// VRFY ignored...
    Verify,
    /// EXPN ignored...
    Expand,
    /// HELP ignored...
    Help,
    /// NOOP
    Noop,
    /// QUIT
    Quit,
    /// STARTTLS
    StartTls,
}

pub const RX_HELO: &'static str = "^(?i)(HELO|EHLO|LHLO) ([^ ]*)";
pub const RX_MAIL: &'static str = "^(?i)MAIL FROM:<([^>]*)>(?: BODY=(?:7BIT|8BITMIME|BINARYMIME)| SIZE=([0-9]+))*$";
pub const RX_RCPT: &'static str = "^(?i)RCPT TO:<(?:@[^:]+:)?([^>]+)>$";
pub const RX_BDAT: &'static str = "^(?i)BDAT ([0-9]+)( LAST)?$";
pub const RX_AUTH: &'static str = "^(?i)AUTH ([A-Z0-9-]+)(?: ([0-9A-Za-z+/=]+))?$";
pub const RX_KNOWN_COMMANDS: &'static str = "^(?i)(DATA|RSET|VRFY|EXPN|HELP|NOOP|QUIT|STARTTLS|LHLO|MAIL|RCPT|BDAT|HELO|EHLO|AUTH)( .*)?$";

/// Whether two bytes are equal once ASCII letters are lower-cased.
pub open spec fn ascii_ci_byte_eq(a: u8, b: u8) -> bool {
    a == b || (65 <= a <= 90 && b == a + 32) || (65 <= b <= 90 && a == b + 32)
}

/// Whether `line` starts with `prefix`, ignoring ASCII case, and is no
/// longer unless `trailing` allows it.
pub open spec fn simple_match(line: Seq<u8>, prefix: Seq<u8>, trailing: bool) -> bool {
    &&& line.len() >= prefix.len()
    &&& (trailing || line.len() == prefix.len())
    &&& forall|i: int| 0 <= i < prefix.len() ==> ascii_ci_byte_eq(#[trigger] line[i], prefix[i])
}

pub open spec fn data_word() -> Seq<u8> { seq![68u8, 65, 84, 65] }
pub open spec fn rset_word() -> Seq<u8> { seq![82u8, 83, 69, 84] }
pub open spec fn vrfy_word() -> Seq<u8> { seq![86u8, 82, 70, 89, 32] }
pub open spec fn expn_word() -> Seq<u8> { seq![69u8, 88, 80, 78, 32] }
pub open spec fn help_word() -> Seq<u8> { seq![72u8, 69, 76, 80] }
pub open spec fn noop_word() -> Seq<u8> { seq![78u8, 79, 79, 80] }
pub open spec fn quit_word() -> Seq<u8> { seq![81u8, 85, 73, 84] }
pub open spec fn starttls_word() -> Seq<u8> { seq![83u8, 84, 65, 82, 84, 84, 76, 83] }

/// The command a line is, where it is one of the commands without
/// arguments (or with ignored ones), tried in this order.
pub open spec fn simple_command(line: Seq<u8>) -> Option<Command> {
    if simple_match(line, data_word(), false) {
        Some(Command::Data)
    } else if simple_match(line, rset_word(), false) {
        Some(Command::Reset)
    } else if simple_match(line, vrfy_word(), true) {
        Some(Command::Verify)
    } else if simple_match(line, expn_word(), true) {
        Some(Command::Expand)
    } else if simple_match(line, help_word(), true) {
        Some(Command::Help)
    } else if simple_match(line, noop_word(), false) {
        Some(Command::Noop)
    } else if simple_match(line, quit_word(), false) {
        Some(Command::Quit)
    } else if simple_match(line, starttls_word(), false) {
        Some(Command::StartTls)
    } else {
        None
    }
}

pub open spec fn opt_view(o: Option<String>) -> Option<Seq<char>> {
    match o {
        Some(s) => Some(s@),
        None => None,
    }
}

/// Whether `r` is what parsing `line` gives: a simple command first, then
/// the first of the HELO, MAIL, RCPT, BDAT and AUTH patterns that matches.
/// A numeric field that does not fit a `u64` makes the line an error.
pub open spec fn command_result(line: &str, r: Result<Command, ()>) -> bool {
    match simple_command(line.spec_bytes()) {
        Some(c) => r == Ok::<Command, ()>(c),
        None => match captures_of(RX_HELO@, line@) {
            Some(c) => match r {
                Ok(Command::Helo(a, b)) => group(c, 1) == Some(a@) && group(c, 2) == Some(b@),
                _ => (group(c, 1).is_none() || group(c, 2).is_none()) && r == Err::<Command, ()>(()),
            },
            None => match captures_of(RX_MAIL@, line@) {
                Some(c) => match (group(c, 1), group(c, 2)) {
                    (Some(from), None) => match r {
                        Ok(Command::MailFrom(a, None)) => a@ == from,
                        _ => false,
                    },
                    (Some(from), Some(size)) => match decimal_u64(size) {
                        None => r == Err::<Command, ()>(()),
                        Some(v) => match r {
                            Ok(Command::MailFrom(a, Some(w))) => a@ == from && w == v,
                            _ => false,
                        },
                    },
                    (None, _) => r == Err::<Command, ()>(()),
                },
                None => match captures_of(RX_RCPT@, line@) {
                    Some(c) => match group(c, 1) {
                        Some(to) => match r {
                            Ok(Command::Recipient(a)) => a@ == to,
                            _ => false,
                        },
                        None => r == Err::<Command, ()>(()),
                    },
                    None => match captures_of(RX_BDAT@, line@) {
                        Some(c) => match group(c, 1) {
                            Some(len) => match decimal_u64(len) {
                                Some(v) => r == Ok::<Command, ()>(Command::BinaryData(v, group(c, 2).is_some())),
                                None => r == Err::<Command, ()>(()),
                            },
                            None => r == Err::<Command, ()>(()),
                        },
                        None => match captures_of(RX_AUTH@, line@) {
                            Some(c) => match group(c, 1) {
                                Some(mech) => match r {
                                    Ok(Command::Auth(m, d)) => m@ == mech && opt_view(d) == group(c, 2),
                                    _ => false,
                                },
                                None => r == Err::<Command, ()>(()),
                            },
                            None => r == Err::<Command, ()>(()),
                        },
                    },
                },
            },
        },
    }
}

/// Whether `line` starts with `prefix`, ignoring ASCII case, and is no
/// longer unless `trailing` allows it.
fn simple_match_exec(line: &[u8], prefix: &[u8], trailing: bool) -> (r: bool)
    ensures
        r == simple_match(line@, prefix@, trailing),
{
    if line.len() < prefix.len() || (!trailing && line.len() != prefix.len()) {
        return false;
    }
    let mut i: usize = 0;
    while i < prefix.len()
        invariant
            0 <= i <= prefix@.len(),
            prefix@.len() <= line@.len(),
            forall|j: int| 0 <= j < i ==> ascii_ci_byte_eq(#[trigger] line@[j], prefix@[j]),
        decreases prefix@.len() - i,
    {
        let a = line[i];
        let b = prefix[i];
        if !(a == b || (65 <= a && a <= 90 && b as u16 == a as u16 + 32) || (65 <= b && b <= 90
            && a as u16 == b as u16 + 32)) {
            return false;
        }
        i = i + 1;
    }
    true
}

fn simple_command_exec(line: &str) -> (r: Option<Command>)
    ensures
        r == simple_command(line.spec_bytes()),
{
    let b = line.as_bytes();
    let data: [u8; 4] = [68u8, 65, 84, 65];
    let rset: [u8; 4] = [82u8, 83, 69, 84];
    let vrfy: [u8; 5] = [86u8, 82, 70, 89, 32];
    let expn: [u8; 5] = [69u8, 88, 80, 78, 32];
    let help: [u8; 4] = [72u8, 69, 76, 80];
    let noop: [u8; 4] = [78u8, 79, 79, 80];
    let quit: [u8; 4] = [81u8, 85, 73, 84];
    let starttls: [u8; 8] = [83u8, 84, 65, 82, 84, 84, 76, 83];
    assert(data@ == data_word());
    assert(rset@ == rset_word());
    assert(vrfy@ == vrfy_word());
    assert(expn@ == expn_word());
    assert(help@ == help_word());
    assert(noop@ == noop_word());
    assert(quit@ == quit_word());
    assert(starttls@ == starttls_word());
    if simple_match_exec(b, data.as_slice(), false) {
        Some(Command::Data)
    } else if simple_match_exec(b, rset.as_slice(), false) {
        Some(Command::Reset)
    } else if simple_match_exec(b, vrfy.as_slice(), true) {
        Some(Command::Verify)
    } else if simple_match_exec(b, expn.as_slice(), true) {
        Some(Command::Expand)
    } else if simple_match_exec(b, help.as_slice(), true) {
        Some(Command::Help)
    } else if simple_match_exec(b, noop.as_slice(), false) {
        Some(Command::Noop)
    } else if simple_match_exec(b, quit.as_slice(), false) {
        Some(Command::Quit)
    } else if simple_match_exec(b, starttls.as_slice(), false) {
        Some(Command::StartTls)
    } else {
        None
    }
}

/// Parses one command line (without its line ending).
pub fn parse_command(line: &str) -> (r: Result<Command, ()>)
    ensures
        command_result(line, r),
{
    if let Some(c) = simple_command_exec(line) {
        return Ok(c);
    }
    if let Some(c) = regex_captures(RX_HELO, line) {
        return match (group_text(&c, 1), group_text(&c, 2)) {
            (Some(a), Some(b)) => Ok(Command::Helo(a, b)),
            _ => Err(()),
        };
    }
    if let Some(c) = regex_captures(RX_MAIL, line) {
        return match group_text(&c, 1) {
            None => Err(()),
            Some(from) => match group_text(&c, 2) {
                None => Ok(Command::MailFrom(from, None)),
                Some(size) => match parse_u64(size.as_str()) {
                    None => Err(()),
                    Some(v) => Ok(Command::MailFrom(from, Some(v))),
                },
            },
        };
    }
    if let Some(c) = regex_captures(RX_RCPT, line) {
        return match group_text(&c, 1) {
            Some(to) => Ok(Command::Recipient(to)),
            None => Err(()),
        };
    }
    if let Some(c) = regex_captures(RX_BDAT, line) {
        return match group_text(&c, 1) {
            None => Err(()),
            Some(len) => match parse_u64(len.as_str()) {
                None => Err(()),
                Some(v) => Ok(Command::BinaryData(v, group_text(&c, 2).is_some())),
            },
        };
    }
    if let Some(c) = regex_captures(RX_AUTH, line) {
        return match group_text(&c, 1) {
            None => Err(()),
            Some(mech) => Ok(Command::Auth(mech, group_text(&c, 2))),
        };
    }
    Err(())
}

impl std::str::FromStr for Command {
    type Err = ();

    fn from_str(s: &str) -> Result<Command, ()> {
        parse_command(s)
    }
}

/// Whether `line` starts with a command word this server knows, followed by
/// a space or the end of the line.
pub fn looks_like_known_command(line: &str) -> (r: bool)
    ensures
        r == captures_of(RX_KNOWN_COMMANDS@, line@).is_some(),
{
    regex_captures(RX_KNOWN_COMMANDS, line).is_some()
}

} // verus!
