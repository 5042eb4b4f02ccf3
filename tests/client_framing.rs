use std::io::Cursor;

use crymap_engine::client::{command_line, literal_length, literal_request, Client, Error};
use crymap_engine::envelope::{push_group, to_envelope_address, DecodedMailbox, EnvelopeAddress};

fn client(input: &str) -> Client<Cursor<Vec<u8>>, Vec<u8>> {
    Client::new(Cursor::new(input.as_bytes().to_vec()), Vec::new(), None)
}

#[test]
fn logical_line_follows_literals() {
    let mut c = client("* 1 FETCH (BODY[] {5}\r\nhello)\r\nA0 OK\r\n");
    let mut dst = Vec::new();
    c.read_logical_line(&mut dst).unwrap();
    assert_eq!(b"* 1 FETCH (BODY[] {5}\r\nhello)\r\n".to_vec(), dst);
}

#[test]
fn logical_line_without_crlf_is_eof() {
    let mut c = client("* OK no line ending\n");
    let mut dst = Vec::new();
    assert!(matches!(c.read_logical_line(&mut dst), Err(Error::Io(_))));
    let mut c = client("");
    assert!(matches!(c.read_logical_line(&mut Vec::new()), Err(Error::Io(_))));
}

#[test]
fn short_literal_is_eof() {
    let mut c = client("abc");
    let mut dst = Vec::new();
    assert!(matches!(c.read_data_raw(&mut dst, 5), Err(Error::Io(_))));
    assert_eq!(b"abc".to_vec(), dst);
    let mut c = client("abcdef");
    let mut dst = Vec::new();
    assert_eq!(4, c.read_data_raw(&mut dst, 4).unwrap());
    assert_eq!(b"abcd".to_vec(), dst);
}

#[test]
fn read_line_raw_stops_at_line_feed() {
    let mut c = client("ab\ncd");
    let mut dst = b"x".to_vec();
    assert_eq!(3, c.read_line_raw(&mut dst).unwrap());
    assert_eq!(b"xab\n".to_vec(), dst);
    assert_eq!(2, c.read_line_raw(&mut dst).unwrap());
    assert_eq!(0, c.read_line_raw(&mut dst).unwrap());
}

#[test]
fn responses_until_tagged() {
    let mut c = client("* 3 EXISTS\r\n* OK [UIDNEXT 4]\r\nA0 OK done\r\nleftover\r\n");
    let mut buf = Vec::new();
    let lines = c.read_responses_until_tagged(&mut buf).unwrap();
    assert_eq!(
        vec![
            b"* 3 EXISTS".to_vec(),
            b"* OK [UIDNEXT 4]".to_vec(),
            b"A0 OK done".to_vec()
        ],
        lines
    );
    let one = c.read_one_response(&mut buf).unwrap();
    assert_eq!(b"leftover".to_vec(), one);
}

#[test]
fn command_is_tagged_and_framed() {
    let mut c = client("* BYE\r\n0 OK\r\n1 NO\r\n");
    let mut buf = b"stale".to_vec();
    let lines = c.command(b"NOOP", &mut buf).unwrap();
    assert_eq!(vec![b"* BYE".to_vec(), b"0 OK".to_vec()], lines);
    assert_eq!(b"* BYE\r\n0 OK\r\n".to_vec(), buf);
    assert_eq!(1, c.next_tag());
    let lines = c.command(b"LOGOUT", &mut buf).unwrap();
    assert_eq!(vec![b"1 NO".to_vec()], lines);
    assert_eq!(2, c.next_tag());
}

#[test]
fn command_line_format() {
    assert_eq!(b"42 NOOP\r\n".to_vec(), command_line(42, b"NOOP"));
    assert_eq!(b"0 X\r\n".to_vec(), command_line(0, b"X"));
    assert_eq!(b"APPEND x {10}\r\n".to_vec(), literal_request(b"APPEND x ", 10));
}

#[test]
fn literal_length_detection() {
    assert_eq!(Some(12), literal_length(b"* 1 FETCH (BODY[] {12}\r\n"));
    assert_eq!(Some(3), literal_length(b"A1 APPEND x ~{3}\r\n"));
    assert_eq!(None, literal_length(b"A1 APPEND x {}\r\n"));
    assert_eq!(None, literal_length(b"* OK {3} trailing\r\n"));
    assert_eq!(None, literal_length(b"* 1 {99999999999}\r\n"));
}

#[test]
fn append_rejected_without_invitation() {
    let mut c = client("A0 NO [TRYCREATE] no such mailbox\r\n");
    match c.start_append(b"APPEND nx ", false, b"foo") {
        Err(Error::AppendRejected(text)) => {
            assert_eq!("A0 NO [TRYCREATE] no such mailbox\r\n", text)
        }
        other => panic!("unexpected: {:?}", other),
    }
    assert_eq!(1, c.next_tag());
}

#[test]
fn append_accepted_and_finished() {
    let mut c = client("+ go ahead\r\n+ more\r\n0 OK appended\r\n");
    c.start_append(b"APPEND INBOX ", false, b"foo").unwrap();
    c.append_item(b" ", true, b"bar").unwrap();
    let mut buf = Vec::new();
    let lines = c.finish_append(&mut buf).unwrap();
    assert_eq!(vec![b"0 OK appended".to_vec()], lines);
}

#[test]
fn write_raw_sends_bytes() {
    let mut c = client("");
    c.write_raw(b"hello").unwrap();
    assert_eq!(0, c.next_tag());
}

fn mbox(name: &str, routing: &str, local: &str, domain: &str) -> DecodedMailbox {
    DecodedMailbox {
        name: name.to_owned(),
        routing: routing.to_owned(),
        local: local.to_owned(),
        domain: domain.to_owned(),
    }
}

#[test]
fn envelope_address_mapping() {
    assert_eq!(
        EnvelopeAddress {
            name: Some("Mary Smith".to_owned()),
            routing: Some("@some.tld,@another.tld".to_owned()),
            local: Some("mary".to_owned()),
            domain: Some("example.net".to_owned()),
        },
        to_envelope_address(mbox("Mary Smith", "@some.tld,@another.tld", "mary", "example.net"))
    );
    assert_eq!(
        EnvelopeAddress {
            name: None,
            routing: None,
            local: Some("jdoe".to_owned()),
            domain: Some("one.test".to_owned()),
        },
        to_envelope_address(mbox("", "", "jdoe", "one.test"))
    );
}

#[test]
fn envelope_group_entries() {
    let mut field = Vec::new();
    push_group(
        &mut field,
        "A Group".to_owned(),
        &vec![mbox("Ed Jones", "", "c", "a.test"), mbox("", "", "joe", "where.test")],
    );
    assert_eq!(4, field.len());
    assert_eq!(Some("A Group".to_owned()), field[0].local);
    assert_eq!(None, field[0].domain);
    assert_eq!(Some("Ed Jones".to_owned()), field[1].name);
    assert_eq!(Some("where.test".to_owned()), field[2].domain);
    assert_eq!(EnvelopeAddress::default(), field[3]);
}
