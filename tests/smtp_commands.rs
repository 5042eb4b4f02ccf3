use crymap_engine::smtp::{looks_like_known_command, parse_command, Command};

#[test]
fn command_parsing() {
    assert_eq!(
        Ok(Command::Helo(
            "LHLO".to_owned(),
            "foo.example.com".to_owned()
        )),
        "LHLO foo.example.com".parse()
    );
    assert_eq!(
        Ok(Command::Helo(
            "lhlo".to_owned(),
            "foo.example.com".to_owned()
        )),
        "lhlo foo.example.com some client implementation".parse()
    );

    assert_eq!(
        Ok(Command::Helo(
            "HELO".to_owned(),
            "foo.example.com".to_owned()
        )),
        "HELO foo.example.com".parse()
    );
    assert_eq!(
        Ok(Command::Helo(
            "helo".to_owned(),
            "foo.example.com".to_owned()
        )),
        "helo foo.example.com some client implementation".parse()
    );

    assert_eq!(
        Ok(Command::Helo(
            "EHLO".to_owned(),
            "foo.example.com".to_owned()
        )),
        "EHLO foo.example.com".parse()
    );
    assert_eq!(
        Ok(Command::Helo(
            "ehlo".to_owned(),
            "foo.example.com".to_owned()
        )),
        "ehlo foo.example.com some client implementation".parse()
    );

    assert_eq!(
        Ok(Command::MailFrom("foo@bar.com".to_owned(), None)),
        "MAIL FROM:<foo@bar.com>".parse()
    );
    assert_eq!(
        Ok(Command::MailFrom("foo@bar.com".to_owned(), None)),
        "MAIL FROM:<foo@bar.com> BODY=BiNaRyMiMe".parse()
    );
    assert_eq!(
        Ok(Command::MailFrom("foo@bar.com".to_owned(), None)),
        "MAIL FROM:<foo@bar.com> body=8bitmime".parse()
    );
    assert_eq!(
        Ok(Command::MailFrom("foo@bar.com".to_owned(), None)),
        "MAIL FROM:<foo@bar.com> body=7bit".parse()
    );
    assert_eq!(
        Ok(Command::MailFrom("foo@bar.com".to_owned(), Some(42))),
        "MAIL FROM:<foo@bar.com> SIZE=42".parse()
    );
    assert_eq!(
        Ok(Command::MailFrom("foo@bar.com".to_owned(), Some(42))),
        "MAIL FROM:<foo@bar.com> body=7bit size=42".parse()
    );
    assert_eq!(
        Ok(Command::MailFrom("foo@bar.com".to_owned(), Some(42))),
        "MAIL FROM:<foo@bar.com> size=42 body=7bit".parse()
    );
    assert_eq!(
        Ok(Command::MailFrom(String::new(), None)),
        "mail from:<>".parse()
    );
    assert_eq!(
        Err(()),
        "MAIL FROM:<foo@bar.com> size=-1".parse::<Command>()
    );

    assert_eq!(
        Ok(Command::Recipient("userc@d.bar.org".to_owned())),
        "RCPT TO:<userc@d.bar.org>".parse()
    );
    assert_eq!(
        Ok(Command::Recipient("userc@d.bar.org".to_owned())),
        "rcpt to:<@hosta.int,@jkl.org:userc@d.bar.org>".parse()
    );

    assert_eq!(Ok(Command::Data), "DATA".parse());
    assert_eq!(Ok(Command::Data), "data".parse());
    assert_eq!(Err(()), "DATA DATA".parse::<Command>());
    assert_eq!(Err(()), "DATABASE".parse::<Command>());

    assert_eq!(Ok(Command::BinaryData(42, false)), "BDAT 42".parse());
    assert_eq!(
        Ok(Command::BinaryData(1000, true)),
        "BDAT 1000 LAST".parse()
    );
    assert_eq!(Ok(Command::BinaryData(1, true)), "bdat 1 last".parse());

    assert_eq!(Ok(Command::Reset), "RSET".parse());
    assert_eq!(Err(()), "RSET FOO".parse::<Command>());

    assert_eq!(Ok(Command::Verify), "VRFY Smith".parse());
    assert_eq!(Ok(Command::Verify), "vrfy <foo@bar.com>".parse());
    assert_eq!(Err(()), "VRFY".parse::<Command>());

    assert_eq!(Ok(Command::Expand), "EXPN Smith".parse());
    assert_eq!(Ok(Command::Expand), "EXPN <foo@bar.com>".parse());
    assert_eq!(Err(()), "EXPN".parse::<Command>());

    assert_eq!(Ok(Command::Help), "HELP".parse());
    assert_eq!(Ok(Command::Help), "help me".parse());

    assert_eq!(Ok(Command::Noop), "NOOP".parse());
    assert_eq!(Err(()), "NOOP NOP".parse::<Command>());

    assert_eq!(Ok(Command::Quit), "QUIT".parse());
    assert_eq!(Err(()), "QUIT NOW".parse::<Command>());

    assert_eq!(Ok(Command::StartTls), "STARTTLS".parse());
    assert_eq!(Err(()), "STARTTLS 1.3".parse::<Command>());

    assert_eq!(
        Ok(Command::Auth(
            "PLAIN".to_owned(),
            Some("AGF6dXJlAGh1bnRlcjI+//=".to_owned()),
        )),
        "AUTH PLAIN AGF6dXJlAGh1bnRlcjI+//=".parse::<Command>(),
    );
    assert_eq!(
        Ok(Command::Auth("NTLM".to_owned(), None)),
        "auth NTLM".parse::<Command>(),
    );
}

#[test]
fn known_command_detection() {
    assert!(looks_like_known_command("MAIL FROM:<x@y.z>"));
    assert!(looks_like_known_command("data"));
    assert!(looks_like_known_command("StartTLS now"));
    assert!(!looks_like_known_command("DATABASE"));
    assert!(!looks_like_known_command("GET / HTTP/1.1"));
    assert!(!looks_like_known_command(""));
}

#[test]
fn numeric_overflow_is_an_error() {
    assert_eq!(Err(()), parse_command("BDAT 18446744073709551616"));
    assert_eq!(
        Ok(Command::BinaryData(18446744073709551615, false)),
        parse_command("BDAT 18446744073709551615")
    );
    assert_eq!(
        Err(()),
        parse_command("MAIL FROM:<a@b.c> SIZE=99999999999999999999")
    );
}

#[test]
fn unknown_lines_are_errors() {
    assert_eq!(Err(()), parse_command(""));
    assert_eq!(Err(()), parse_command("HELLO there"));
    assert_eq!(Err(()), parse_command("RCPT TO:<>"));
    assert_eq!(Err(()), parse_command("AUTH"));
}
