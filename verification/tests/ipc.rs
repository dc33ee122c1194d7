use sgraffito::app::Command;
use sgraffito::ipc::{
    client_reply, interpret, invocation, socket_in, CommandReader, Invocation, Progress, Served,
};

#[test]
fn parses_known_commands() {
    assert_eq!(Command::parse("toggle"), Ok(Command::Toggle));
    assert_eq!(Command::parse("edit"), Ok(Command::Edit));
    assert_eq!(Command::parse("lock"), Ok(Command::Lock));
    assert_eq!(Command::parse("clear"), Ok(Command::Clear));
}

#[test]
fn tolerates_trailing_newline_and_spaces() {
    assert_eq!(Command::parse("toggle\n"), Ok(Command::Toggle));
    assert_eq!(Command::parse("  lock  "), Ok(Command::Lock));
}

#[test]
fn rejects_empty_and_unknown() {
    assert!(Command::parse("").is_err());
    assert!(Command::parse("  ").is_err());
    let err = Command::parse("frobnicate").unwrap_err();
    assert!(err.contains("frobnicate"), "{err}");
    // An error must never look like a success response
    assert!(!err.starts_with("ok"));
}

#[test]
fn is_case_sensitive() {
    assert!(Command::parse("Toggle").is_err());
}

#[test]
fn complaints_say_what_is_wrong() {
    assert_eq!(Command::parse(" \u{3000} "), Err("empty command".to_string()));
    assert_eq!(
        Command::parse("  toggle it "),
        Err("unknown command 'toggle it'".to_string())
    );
}

#[test]
fn every_command_is_sent_for_its_word() {
    for c in [Command::Toggle, Command::Edit, Command::Lock, Command::Clear] {
        assert_eq!(Command::parse(c.word()), Ok(c));
        assert_eq!(invocation(Some(c.word())), Invocation::Send(c));
    }
    assert_eq!(invocation(Some("daemon")), Invocation::Daemon);
    assert_eq!(invocation(Some("Daemon")), Invocation::Unknown);
    assert_eq!(invocation(Some("toggle ")), Invocation::Unknown);
    assert_eq!(invocation(None), Invocation::Usage);
}

#[test]
fn the_socket_is_in_the_runtime_directory() {
    assert_eq!(
        socket_in(Some("/run/user/1000")),
        Some("/run/user/1000/sgraffito.sock".to_string())
    );
    assert_eq!(socket_in(Some("/run/")), Some("/run/sgraffito.sock".to_string()));
    assert_eq!(socket_in(None), None);
}

fn read(chunks: &[&[u8]]) -> Progress {
    let mut reader = CommandReader::new();
    for chunk in chunks {
        match reader.feed(chunk) {
            Progress::More => {}
            done => return done,
        }
    }
    Progress::More
}

fn command(s: &str) -> Progress {
    Progress::Command(s.to_string())
}

fn failed(s: &str) -> Progress {
    Progress::Failed(s.to_string())
}

#[test]
fn a_command_line_may_arrive_in_pieces() {
    assert_eq!(read(&[b"toggle\n"]), command("toggle"));
    assert_eq!(read(&[b"tog", b"gle", b"\n"]), command("toggle"));
    assert_eq!(read(&[b"t", b"oggle \t\r\nedit\n"]), command("toggle"));
    assert_eq!(read(&[b"toggle"]), Progress::More);
    assert_eq!(read(&[" 买".as_bytes(), b"\n"]), command(" 买"));
}

#[test]
fn a_command_line_that_does_not_end_is_an_error() {
    assert_eq!(read(&[b"toggle", b""]), failed("command ended before newline"));
    assert_eq!(read(&[b""]), failed("command ended before newline"));
}

#[test]
fn a_command_line_may_not_be_too_long() {
    let longest = [vec![b'x'; 4095], vec![b'\n']].concat();
    assert_eq!(read(&[&longest]), command(&"x".repeat(4095)));
    let longer = [vec![b'x'; 4096], vec![b'\n']].concat();
    assert_eq!(read(&[&longer]), failed("command line is too long"));
    assert_eq!(
        read(&[&longer[..1000], &longer[1000..]]),
        failed("command line is too long")
    );
    assert_eq!(read(&[&[b'x'; 4097]]), failed("command line is too long"));
    assert_eq!(read(&[&[b'x'; 4096]]), Progress::More);
}

#[test]
fn a_command_line_has_to_be_text() {
    let bytes = vec![b'a', 0xff, b'\n'];
    let complaint = String::from_utf8(bytes.clone()).unwrap_err().to_string();
    assert_eq!(read(&[&bytes]), failed(&complaint));
}

#[test]
fn replies_mean_what_they_say() {
    assert_eq!(interpret("toggle", "ok\n"), Ok("ok".to_string()));
    assert_eq!(
        interpret("clear", "error: disk full\n"),
        Err("clear failed: disk full".to_string())
    );
    assert_eq!(
        interpret("edit", "what?\r\n"),
        Err("edit got an unexpected response 'what?'".to_string())
    );
    assert_eq!(
        interpret("edit", ""),
        Err("edit got an unexpected response ''".to_string())
    );
    assert_eq!(interpret("edit", "error:"), Err("edit failed:".to_string()));
}

#[test]
fn clients_that_are_not_served_see_an_error() {
    let cases = [
        (
            Served::Unreadable("timed out".to_string()),
            "error: failed to read the command: timed out",
        ),
        (Served::ShuttingDown, "error: daemon is shutting down"),
        (Served::NoResponse, "error: daemon did not respond"),
    ];
    for (served, reply) in cases {
        let line = client_reply(served);
        assert_eq!(line, reply);
        assert!(interpret("toggle", &line).is_err());
    }
    assert_eq!(client_reply(Served::Replied("ok".to_string())), "ok");
}

#[test]
fn white_space_is_unicode_white_space() {
    for u in 0..=0x10ffffu32 {
        if let Some(c) = char::from_u32(u) {
            assert_eq!(sgraffito::text::white_space(c), c.is_whitespace(), "{u:x}");
        }
    }
    for s in ["", " ", "a", " a ", "\u{a0}x\u{2003}y\u{3000}", "\n\t"] {
        assert_eq!(sgraffito::text::trim(s), s.trim());
        assert_eq!(sgraffito::text::trim_end(s), s.trim_end());
    }
}
