//! A small line-oriented IMAP client: it frames what a server sends into
//! logical lines (following literals) and tagged response groups, and sends
//! tagged commands and APPEND requests.

use vstd::prelude::*;

use crate::text::{
    byte_captures_of, byte_groups_view, decimal_digits, decimal_u32_bytes, parse_u32_bytes,
    push_decimal, regex_byte_captures,
};

verus! {

#[verifier::external_type_specification]
#[verifier::external_body]
pub struct ExIoError(std::io::Error);

/// The errors of the client.
#[derive(Debug)]
pub enum Error {
    Io(std::io::Error),
    /// The server refused an APPEND; its response, as text.
    AppendRejected(String),
}

/// A client over a buffered reader and a writer.
pub struct Client<R, W> {
    read: R,
    write: W,
    trace_stderr: Option<&'static str>,
    next_tag: u64,
}

/// A literal announcement at the end of a line: `{n}` or `~{n}`, then CRLF.
pub const LITERAL_AT_EOL: &'static str = "~?\\{([0-9]+)?\\}\\r\\n$";

/// `new` is `old` with `n` bytes appended.
pub open spec fn appended(old: Seq<u8>, new: Seq<u8>, n: int) -> bool {
    &&& old.is_prefix_of(new)
    &&& new.len() == old.len() + n
}

/// No line feed among the bytes of `s` from `from` on, but the last.
pub open spec fn no_inner_lf(s: Seq<u8>, from: int) -> bool {
    forall|i: int| from <= i < s.len() - 1 ==> #[trigger] s[i] != 10
}

pub open spec fn ends_with_crlf(s: Seq<u8>) -> bool {
    s.len() >= 2 && s[s.len() - 2] == 13 && s[s.len() - 1] == 10
}

pub open spec fn crlf() -> Seq<u8> {
    seq![13u8, 10]
}

/// The length a line announces as a literal to follow, if it does.
pub open spec fn literal_at_eol(line: Seq<u8>) -> Option<u32> {
    match byte_captures_of(LITERAL_AT_EOL@, line) {
        Some(c) => if c.len() > 1 && c[1].is_some() {
            decimal_u32_bytes(c[1].unwrap())
        } else {
            None
        },
        None => None,
    }
}

/// The lines, each followed by CRLF.
pub open spec fn joined(lines: Seq<Seq<u8>>) -> Seq<u8>
    decreases lines.len(),
{
    if lines.len() == 0 {
        Seq::empty()
    } else {
        joined(lines.drop_last()) + lines.last() + crlf()
    }
}

pub open spec fn lines_view(lines: Seq<Vec<u8>>) -> Seq<Seq<u8>> {
    lines.map_values(|l: Vec<u8>| l@)
}

/// Whether a response line is untagged (starts with `*`).
pub open spec fn untagged(line: Seq<u8>) -> bool {
    line.len() > 0 && line[0] == 42
}

/// A group of response lines as the server ends it: untagged lines, then
/// one line that is not.
pub open spec fn response_group(lines: Seq<Seq<u8>>) -> bool {
    &&& lines.len() >= 1
    &&& forall|i: int| 0 <= i < lines.len() - 1 ==> untagged(#[trigger] lines[i])
    &&& !untagged(lines.last())
}

/// The command line for `command` under `tag`: the tag in decimal, a
/// space, the command, CRLF.
pub open spec fn command_line_spec(tag: u64, command: Seq<u8>) -> Seq<u8> {
    decimal_digits(tag as nat) + seq![32u8] + command + crlf()
}

/// The request that opens a literal of `len` bytes after `prefix`.
pub open spec fn literal_request_spec(prefix: Seq<u8>, len: u64) -> Seq<u8> {
    prefix + seq![123u8] + decimal_digits(len as nat) + seq![125u8] + crlf()
}

/// Text decoded from UTF-8 with each invalid sequence replaced by U+FFFD.
pub uninterp spec fn utf8_lossy(b: Seq<u8>) -> Seq<char>;

/// Relies on `String::from_utf8_lossy`: the bytes decoded as UTF-8 with
/// invalid sequences replaced.
#[verifier::external_body]
fn lossy_text(b: &[u8]) -> (r: String)
    ensures
        r@ == utf8_lossy(b@),
{
    String::from_utf8_lossy(b).into_owned()
}

/// Relies on `std::io::BufRead::read_until` with `\n`: the bytes up to and
/// including the next line feed, or to the end of input, are appended and
/// counted; on an error the bytes read so far stay appended.
#[verifier::external_body]
fn read_until_lf<R: std::io::BufRead>(r: &mut R, dst: &mut Vec<u8>) -> (res: Result<usize, std::io::Error>)
    ensures
        old(dst)@.is_prefix_of(final(dst)@),
        res.is_ok() ==> appended(old(dst)@, final(dst)@, res.unwrap() as int),
        res.is_ok() ==> no_inner_lf(final(dst)@, old(dst)@.len() as int),
{
    r.read_until(b'\n', dst)
}

/// Relies on `std::io::Read::take` and `std::io::Read::read_to_end`: at most
/// `n` bytes, fewer only at the end of input, are appended and counted; on
/// an error the bytes read so far stay appended.
#[verifier::external_body]
fn read_at_most<R: std::io::Read>(r: &mut R, dst: &mut Vec<u8>, n: u64) -> (res: Result<usize, std::io::Error>)
    ensures
        old(dst)@.is_prefix_of(final(dst)@),
        res.is_ok() ==> appended(old(dst)@, final(dst)@, res.unwrap() as int) && res.unwrap() <= n,
{
    std::io::Read::read_to_end(&mut std::io::Read::take(&mut *r, n), dst)
}

/// Relies on `std::io::Write::write_all`.
#[verifier::external_body]
fn write_all_to<W: std::io::Write>(w: &mut W, bytes: &[u8]) -> Result<(), std::io::Error> {
    w.write_all(bytes)
}

/// Relies on `std::io::Write::flush`.
#[verifier::external_body]
fn flush_to<W: std::io::Write>(w: &mut W) -> Result<(), std::io::Error> {
    w.flush()
}

/// Relies on `std::io::Error::new`: an `UnexpectedEof` error with `msg`.
#[verifier::external_body]
fn eof_error(msg: &str) -> std::io::Error {
    std::io::Error::new(std::io::ErrorKind::UnexpectedEof, msg.to_owned())
}

/// A copy of `v[from..to]`.
fn copy_range(v: &[u8], from: usize, to: usize) -> (r: Vec<u8>)
    requires
        from <= to <= v@.len(),
    ensures
        r@ == v@.subrange(from as int, to as int),
{
    let mut r: Vec<u8> = Vec::new();
    let mut i: usize = from;
    while i < to
        invariant
            from <= i <= to,
            to <= v@.len(),
            r@ == v@.subrange(from as int, i as int),
        decreases to - i,
    {
        r.push(v[i]);
        i = i + 1;
    }
    r
}

/// Appends each byte of `b` to `out`.
fn push_all(out: &mut Vec<u8>, b: &[u8])
    ensures
        final(out)@ == old(out)@ + b@,
{
    let mut i: usize = 0;
    while i < b.len()
        invariant
            0 <= i <= b@.len(),
            out@ == old(out)@ + b@.subrange(0, i as int),
        decreases b@.len() - i,
    {
        out.push(b[i]);
        i = i + 1;
    }
    assert(b@.subrange(0, b@.len() as int) == b@);
}

/// The length a line announces as a literal to follow, if it does.
pub fn literal_length(line: &[u8]) -> (r: Option<u32>)
    ensures
        r == literal_at_eol(line@),
{
    match regex_byte_captures(LITERAL_AT_EOL, line) {
        None => None,
        Some(c) => {
            proof {
                assert(byte_groups_view(c@).len() == c@.len());
            }
            if c.len() > 1 {
                match &c[1] {
                    Some(digits) => parse_u32_bytes(digits.as_slice()),
                    None => None,
                }
            } else {
                None
            }
        },
    }
}

/// The command line for `command` under `tag`.
pub fn command_line(tag: u64, command: &[u8]) -> (r: Vec<u8>)
    ensures
        r@ == command_line_spec(tag, command@),
{
    let mut r: Vec<u8> = Vec::new();
    push_decimal(&mut r, tag);
    r.push(32u8);
    push_all(&mut r, command);
    r.push(13u8);
    r.push(10u8);
    assert(r@ =~= command_line_spec(tag, command@));
    r
}

/// The request that opens a literal of `len` bytes after `prefix`.
pub fn literal_request(prefix: &[u8], len: u64) -> (r: Vec<u8>)
    ensures
        r@ == literal_request_spec(prefix@, len),
{
    let mut r: Vec<u8> = Vec::new();
    push_all(&mut r, prefix);
    r.push(123u8);
    push_decimal(&mut r, len);
    r.push(125u8);
    r.push(13u8);
    r.push(10u8);
    assert(r@ =~= literal_request_spec(prefix@, len));
    r
}

impl<R, W> Client<R, W> {
    pub closed spec fn spec_next_tag(&self) -> u64 {
        self.next_tag
    }

    pub closed spec fn spec_trace(&self) -> Option<&'static str> {
        self.trace_stderr
    }
}

impl<R: std::io::BufRead, W: std::io::Write> Client<R, W> {
    pub fn new(read: R, write: W, trace_stderr: Option<&'static str>) -> (r: Self)
        ensures
            r.spec_next_tag() == 0,
            r.spec_trace() == trace_stderr,
    {
        Client { read, write, trace_stderr, next_tag: 0 }
    }

    /// A client that carries on where another stopped: the next command
    /// gets `next_tag`.
    pub fn resume(read: R, write: W, trace_stderr: Option<&'static str>, next_tag: u64) -> (r: Self)
        ensures
            r.spec_next_tag() == next_tag,
            r.spec_trace() == trace_stderr,
    {
        Client { read, write, trace_stderr, next_tag }
    }

    /// The reader, the writer, the trace prefix and the next tag.
    pub fn into_parts(self) -> (r: (R, W, Option<&'static str>, u64))
        ensures
            r.2 == self.spec_trace(),
            r.3 == self.spec_next_tag(),
    {
        (self.read, self.write, self.trace_stderr, self.next_tag)
    }

    /// The prefix of wire traces, where tracing was asked for.
    pub fn trace_prefix(&self) -> (r: Option<&'static str>)
        ensures
            r == self.spec_trace(),
    {
        self.trace_stderr
    }

    /// The tag the next command gets.
    pub fn next_tag(&self) -> (r: u64)
        ensures
            r == self.spec_next_tag(),
    {
        self.next_tag
    }

    /// Sends `bytes` as they are, and flushes.
    pub fn write_raw(&mut self, bytes: &[u8]) -> (r: Result<(), Error>)
        ensures
            final(self).spec_next_tag() == old(self).spec_next_tag(),
            r.is_err() ==> r->Err_0 is Io,
    {
        if let Err(e) = write_all_to(&mut self.write, bytes) {
            return Err(Error::Io(e));
        }
        if let Err(e) = flush_to(&mut self.write) {
            return Err(Error::Io(e));
        }
        Ok(())
    }

    /// Reads through the next line feed (or to the end of input) into
    /// `dst`; returns how many bytes were read.
    pub fn read_line_raw(&mut self, dst: &mut Vec<u8>) -> (r: Result<usize, Error>)
        ensures
            final(self).spec_next_tag() == old(self).spec_next_tag(),
            old(dst)@.is_prefix_of(final(dst)@),
            r.is_ok() ==> appended(old(dst)@, final(dst)@, r.unwrap() as int),
            r.is_ok() ==> no_inner_lf(final(dst)@, old(dst)@.len() as int),
            r.is_err() ==> r->Err_0 is Io,
    {
        match read_until_lf(&mut self.read, dst) {
            Ok(n) => Ok(n),
            Err(e) => Err(Error::Io(e)),
        }
    }

    /// Reads exactly `n` bytes into `dst`; the end of input before that is
    /// an error.
    pub fn read_data_raw(&mut self, dst: &mut Vec<u8>, n: u32) -> (r: Result<usize, Error>)
        ensures
            final(self).spec_next_tag() == old(self).spec_next_tag(),
            old(dst)@.is_prefix_of(final(dst)@),
            r.is_ok() ==> r.unwrap() == n && appended(old(dst)@, final(dst)@, n as int),
            r.is_err() ==> r->Err_0 is Io,
    {
        match read_at_most(&mut self.read, dst, n as u64) {
            Err(e) => Err(Error::Io(e)),
            Ok(nread) => {
                if nread < n as usize {
                    Err(Error::Io(eof_error("Hit EOF before end of literal")))
                } else {
                    Ok(nread)
                }
            },
        }
    }

    /// Reads one logical line into `dst`: a line ending in CRLF, together
    /// with each literal it announces at its end and the lines that follow
    /// those literals.
    pub fn read_logical_line(&mut self, dst: &mut Vec<u8>) -> (r: Result<(), Error>)
        ensures
            final(self).spec_next_tag() == old(self).spec_next_tag(),
            old(dst)@.is_prefix_of(final(dst)@),
            r.is_ok() ==> final(dst)@.len() >= old(dst)@.len() + 2 && ends_with_crlf(final(dst)@),
            r.is_err() ==> r->Err_0 is Io,
    {
        loop
            invariant
                self.next_tag == old(self).next_tag,
                old(dst)@.is_prefix_of(dst@),
            decreases usize::MAX - dst@.len(),
        {
            let before = dst.len();
            let nread = match self.read_line_raw(dst) {
                Ok(n) => n,
                Err(e) => return Err(e),
            };
            let len = dst.len();
            if nread < 2 || dst[len - 2] != 13u8 || dst[len - 1] != 10u8 {
                return Err(Error::Io(eof_error("Line didn't end with CRLF")));
            }
            let line = copy_range(dst.as_slice(), len - nread, len);
            match literal_length(line.as_slice()) {
                None => return Ok(()),
                Some(literal_len) => {
                    if let Err(e) = self.read_data_raw(dst, literal_len) {
                        return Err(e);
                    }
                },
            }
            let after = dst.len();
            assert(after > before);
        }
    }

    /// Reads one logical line and returns it without its final CRLF.
    pub fn read_one_response(&mut self, dst: &mut Vec<u8>) -> (r: Result<Vec<u8>, Error>)
        ensures
            final(self).spec_next_tag() == old(self).spec_next_tag(),
            old(dst)@.is_prefix_of(final(dst)@),
            r.is_ok() ==> final(dst)@ == old(dst)@ + r.unwrap()@ + crlf(),
            r.is_err() ==> r->Err_0 is Io,
    {
        let start = dst.len();
        if let Err(e) = self.read_logical_line(dst) {
            return Err(e);
        }
        let line = copy_range(dst.as_slice(), start, dst.len() - 2);
        proof {
            assert(dst@ =~= old(dst)@ + line@ + crlf());
        }
        Ok(line)
    }

    /// Reads logical lines up to and including the first that is not
    /// untagged, and returns them without their CRLF.
    pub fn read_responses_until_tagged(&mut self, dst: &mut Vec<u8>) -> (r: Result<Vec<Vec<u8>>, Error>)
        ensures
            final(self).spec_next_tag() == old(self).spec_next_tag(),
            old(dst)@.is_prefix_of(final(dst)@),
            r.is_ok() ==> final(dst)@ == old(dst)@ + joined(lines_view(r.unwrap()@)),
            r.is_ok() ==> response_group(lines_view(r.unwrap()@)),
            r.is_err() ==> r->Err_0 is Io,
    {
        let mut lines: Vec<Vec<u8>> = Vec::new();
        loop
            invariant
                self.next_tag == old(self).next_tag,
                dst@ == old(dst)@ + joined(lines_view(lines@)),
                forall|i: int| 0 <= i < lines@.len() ==> untagged(#[trigger] lines@[i]@),
            decreases usize::MAX - dst@.len(),
        {
            let ghost prev = dst@;
            let line = match self.read_one_response(dst) {
                Ok(line) => line,
                Err(e) => return Err(e),
            };
            let is_untagged = line.len() > 0 && line[0] == 42u8;
            let _len = dst.len();
            let ghost lines0 = lines@;
            lines.push(line);
            proof {
                assert(lines_view(lines@).drop_last() =~= lines_view(lines0));
                assert(lines_view(lines@).last() == lines@[lines@.len() - 1]@);
                assert(dst@ =~= old(dst)@ + joined(lines_view(lines@)));
            }
            if !is_untagged {
                proof {
                    assert forall|i: int| 0 <= i < lines_view(lines@).len() - 1 implies untagged(#[trigger] lines_view(lines@)[i]) by {
                        assert(lines@[i] == lines0[i]);
                    }
                }
                return Ok(lines);
            }
        }
    }

    /// Sends `command` (serialised, without tag or line ending) under the
    /// next tag, and reads the responses up to the tagged one into
    /// `response_buffer`, which is cleared first.
    pub fn command(&mut self, command: &[u8], response_buffer: &mut Vec<u8>) -> (r: Result<Vec<Vec<u8>>, Error>)
        ensures
            final(self).spec_next_tag() == (old(self).spec_next_tag() + 1) as u64 || (old(self).spec_next_tag() == u64::MAX && final(self).spec_next_tag() == 0),
            r.is_ok() ==> final(response_buffer)@ == joined(lines_view(r.unwrap()@)),
            r.is_ok() ==> response_group(lines_view(r.unwrap()@)),
            r.is_err() ==> r->Err_0 is Io,
    {
        response_buffer.clear();
        let tag = self.next_tag;
        self.next_tag = self.next_tag.wrapping_add(1);
        let line = command_line(tag, command);
        if let Err(e) = write_all_to(&mut self.write, line.as_slice()) {
            return Err(Error::Io(e));
        }
        if let Err(e) = flush_to(&mut self.write) {
            return Err(Error::Io(e));
        }
        let r = self.read_responses_until_tagged(response_buffer);
        proof {
            if r.is_ok() {
                assert(response_buffer@ =~= joined(lines_view(r.unwrap()@)));
            }
        }
        r
    }

    /// Sends `request` with the literal `data`, once the server invites it;
    /// a `)` follows where `utf8` asks for it.
    fn send_literal(&mut self, request: &[u8], utf8: bool, data: &[u8]) -> (r: Result<(), Error>)
        ensures
            final(self).spec_next_tag() == old(self).spec_next_tag(),
            r.is_err() && r->Err_0 is AppendRejected ==> exists|resp: Seq<u8>|
                !(resp.len() >= 2 && resp[0] == 43 && resp[1] == 32)
                && r->Err_0->AppendRejected_0@ == utf8_lossy(resp),
    {
        if let Err(e) = write_all_to(&mut self.write, request) {
            return Err(Error::Io(e));
        }
        let mut response: Vec<u8> = Vec::new();
        if let Err(e) = self.read_logical_line(&mut response) {
            return Err(e);
        }
        if !(response.len() >= 2 && response[0] == 43u8 && response[1] == 32u8) {
            return Err(Error::AppendRejected(lossy_text(response.as_slice())));
        }
        if let Err(e) = write_all_to(&mut self.write, data) {
            return Err(Error::Io(e));
        }
        if utf8 {
            let close: [u8; 1] = [41u8];
            if let Err(e) = write_all_to(&mut self.write, close.as_slice()) {
                return Err(Error::Io(e));
            }
        }
        if let Err(e) = flush_to(&mut self.write) {
            return Err(Error::Io(e));
        }
        Ok(())
    }

    /// Starts an APPEND under the next tag: `command` is the serialised
    /// `APPEND` command up to its first message literal, which is `data`.
    /// The server must invite the literal with `+ `; otherwise its response
    /// is returned as `AppendRejected`.
    pub fn start_append(&mut self, command: &[u8], utf8: bool, data: &[u8]) -> (r: Result<(), Error>)
        ensures
            final(self).spec_next_tag() == (old(self).spec_next_tag() + 1) as u64 || (old(self).spec_next_tag() == u64::MAX && final(self).spec_next_tag() == 0),
            r.is_err() && r->Err_0 is AppendRejected ==> exists|resp: Seq<u8>|
                !(resp.len() >= 2 && resp[0] == 43 && resp[1] == 32)
                && r->Err_0->AppendRejected_0@ == utf8_lossy(resp),
    {
        let tag = self.next_tag;
        self.next_tag = self.next_tag.wrapping_add(1);
        let mut head: Vec<u8> = Vec::new();
        push_decimal(&mut head, tag);
        head.push(32u8);
        push_all(&mut head, command);
        let request = literal_request(head.as_slice(), data.len() as u64);
        self.send_literal(request.as_slice(), utf8, data)
    }

    /// Adds one more message to an APPEND in progress: `fragment` is the
    /// serialised part before its literal, which is `data`.
    pub fn append_item(&mut self, fragment: &[u8], utf8: bool, data: &[u8]) -> (r: Result<(), Error>)
        ensures
            final(self).spec_next_tag() == old(self).spec_next_tag(),
            r.is_err() && r->Err_0 is AppendRejected ==> exists|resp: Seq<u8>|
                !(resp.len() >= 2 && resp[0] == 43 && resp[1] == 32)
                && r->Err_0->AppendRejected_0@ == utf8_lossy(resp),
    {
        let request = literal_request(fragment, data.len() as u64);
        self.send_literal(request.as_slice(), utf8, data)
    }

    /// Ends an APPEND, and reads the responses up to the tagged one into
    /// `response_buffer`.
    pub fn finish_append(&mut self, response_buffer: &mut Vec<u8>) -> (r: Result<Vec<Vec<u8>>, Error>)
        ensures
            final(self).spec_next_tag() == old(self).spec_next_tag(),
            old(response_buffer)@.is_prefix_of(final(response_buffer)@),
            r.is_ok() ==> final(response_buffer)@ == old(response_buffer)@ + joined(lines_view(r.unwrap()@)),
            r.is_ok() ==> response_group(lines_view(r.unwrap()@)),
            r.is_err() ==> r->Err_0 is Io,
    {
        let end: [u8; 2] = [13u8, 10];
        if let Err(e) = write_all_to(&mut self.write, end.as_slice()) {
            return Err(Error::Io(e));
        }
        if let Err(e) = flush_to(&mut self.write) {
            return Err(Error::Io(e));
        }
        self.read_responses_until_tagged(response_buffer)
    }
}

} // verus!
