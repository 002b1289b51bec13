use agni::protocol::{handle_frame, on_read, respond, Action, Command, ReadOutcome, Response};

fn unknown_word(c: &Command) -> Option<String> {
    match c {
        Command::Unknown(w) => Some(w.clone()),
        Command::Ping => None,
    }
}

#[test]
fn ping_is_read_in_any_case() {
    assert!(matches!(Command::from_bytes(b"PING"), Command::Ping));
    assert!(matches!(Command::from_bytes(b"ping"), Command::Ping));
    assert!(matches!(Command::from_bytes(b"PiNg"), Command::Ping));
}

#[test]
fn only_the_first_word_counts() {
    assert!(matches!(Command::from_bytes(b"  \t ping extra args\n"), Command::Ping));
    assert!(matches!(Command::from_bytes("ping\u{3000}x".as_bytes()), Command::Ping));
}

#[test]
fn unknown_word_is_upper_cased() {
    let c = Command::from_bytes(b"get key:1");
    assert_eq!(unknown_word(&c), Some("GET".to_string()));
}

#[test]
fn empty_and_blank_frames_read_as_empty_unknown() {
    assert_eq!(unknown_word(&Command::from_bytes(b"")), Some(String::new()));
    assert_eq!(unknown_word(&Command::from_bytes(b" \r\n\t ")), Some(String::new()));
}

#[test]
fn pingx_is_not_ping() {
    assert_eq!(unknown_word(&Command::from_bytes(b"pingx")), Some("PINGX".to_string()));
    assert_eq!(unknown_word(&Command::from_bytes(b"pin g")), Some("PIN".to_string()));
}

#[test]
fn invalid_utf8_is_replaced() {
    let c = Command::from_bytes(&[0xff, b'a']);
    assert_eq!(unknown_word(&c), Some("\u{FFFD}A".to_string()));
}

#[test]
fn unicode_whitespace_separates_and_unicode_case_maps() {
    let c = Command::from_bytes("\u{00A0}stra\u{00DF}e\u{2003}x".as_bytes());
    assert_eq!(unknown_word(&c), Some("STRASSE".to_string()));
}

#[test]
fn from_word_reads_exactly_ping() {
    assert!(matches!(Command::from_word("PING".to_string()), Command::Ping));
    assert_eq!(unknown_word(&Command::from_word("ping".to_string())), Some("ping".to_string()));
}

#[test]
fn pong_bytes() {
    assert_eq!(Response::Pong.to_bytes(), b"PONG".to_vec());
}

#[test]
fn error_bytes() {
    assert_eq!(Response::Error("boom".to_string()).to_bytes(), b"ERR boom".to_vec());
    assert_eq!(Response::Error(String::new()).to_bytes(), b"ERR ".to_vec());
    assert_eq!(
        Response::Error("\u{e9}".to_string()).to_bytes(),
        vec![b'E', b'R', b'R', b' ', 0xc3, 0xa9]
    );
}

#[test]
fn respond_to_commands() {
    assert!(matches!(respond(&Command::Ping), Response::Pong));
    match respond(&Command::Unknown("GET".to_string())) {
        Response::Error(m) => assert_eq!(m, "unknown command 'GET'"),
        Response::Pong => panic!("expected an error"),
    }
}

#[test]
fn handle_frame_end_to_end() {
    assert_eq!(handle_frame(b"ping"), b"PONG".to_vec());
    assert_eq!(handle_frame(b"  PING  now"), b"PONG".to_vec());
    assert_eq!(handle_frame(b"set a b"), b"ERR unknown command 'SET'".to_vec());
    assert_eq!(handle_frame(b""), b"ERR unknown command ''".to_vec());
}

#[test]
fn case_of_ascii_letters_does_not_change_the_word() {
    for (a, b) in [(&b"PiNg x"[..], &b"pInG Y"[..]), (b"Get key", b"gET KEY"), (b" sEt", b" SeT")] {
        assert_eq!(unknown_word(&Command::from_bytes(a)), unknown_word(&Command::from_bytes(b)));
        assert_eq!(handle_frame(a), handle_frame(b));
    }
}

#[test]
fn only_the_first_word_decides_over_bytes() {
    assert_eq!(handle_frame(b" \t get\r\nfoo bar"), handle_frame(b"get"));
    assert_eq!(unknown_word(&Command::from_bytes(b"del\n\n\nx y z")), Some("DEL".to_string()));
}

#[test]
fn case_changes_in_non_ascii_frames_do_not_matter() {
    let a = "Stra\u{df}e x".as_bytes().to_vec();
    let b = "sTRA\u{df}E X".as_bytes().to_vec();
    assert_eq!(unknown_word(&Command::from_bytes(&a)), Some("STRASSE".to_string()));
    assert_eq!(unknown_word(&Command::from_bytes(&a)), unknown_word(&Command::from_bytes(&b)));
    let c = vec![0xff, b'p', b'i', b'N', b'g'];
    let d = vec![0xff, b'P', b'I', b'n', b'G'];
    assert_eq!(handle_frame(&c), handle_frame(&d));
    assert_eq!(handle_frame(&c.to_ascii_lowercase()), handle_frame(&c.to_ascii_uppercase()));
}

#[test]
fn first_word_decides_for_any_bytes() {
    let word = vec![0xe2, 0x82, 0xac, 0xff, b'x'];
    let mut frame = word.clone();
    frame.extend_from_slice(b" \t\r\n");
    frame.extend_from_slice(&[0xc3, 0x28, b'y', 0x80]);
    assert_eq!(handle_frame(&frame), handle_frame(&word));
    assert_eq!(
        unknown_word(&Command::from_bytes(&frame)),
        Some("\u{20ac}\u{FFFD}X".to_string())
    );
}

#[test]
fn on_read_answers_frames_and_stops_otherwise() {

    match on_read(ReadOutcome::Frame(b"ping".to_vec())) {
        Action::Send(r) => assert_eq!(r, b"PONG".to_vec()),
        Action::Stop => panic!("expected a reply"),
    }
    assert!(matches!(on_read(ReadOutcome::Failed), Action::Stop));
    assert!(matches!(on_read(ReadOutcome::Closed), Action::Stop));
}
