use hitch::error::ErrorKind;
use hitch::protocol::PacketAction;
use hitch::muxi::{
    check_not_inside, exit_message, fixed_packet_action, info_lines, select_session, session_banner, state_dir,
    capture_tail, decode_fixed_packet, encode_fixed_packet, is_detach_key, listing_lines,
    no_sessions_line, payload_chunks, pushed_bytes, remove_carriage_returns, session_command,
    socket_attached, strip_ansi, tail_lines, MuxiStyle, SessionListing, TitleStateFilter,
};

#[test]
fn muxi_title_filter_drops_titles() {
    let mut f = TitleStateFilter::new();
    assert_eq!(f.filter(b"a\x1b]2;t\x07b"), b"ab".to_vec());
    assert_eq!(f.filter(b"\x1b[1mc"), b"\x1b[1mc".to_vec());
    assert_eq!(f.filter(b"\x1b]x"), b"\x1b]x".to_vec());
    assert_eq!(f.filter(b"\x1b]2x"), b"\x1b]x".to_vec());
    assert_eq!(f.filter(b"\x1b]0;t"), Vec::<u8>::new());
    assert_eq!(f.filter(b"\x1b\\d"), b"d".to_vec());
}

#[test]
fn ansi_sequences_are_stripped() {
    assert_eq!(strip_ansi("\x1b[31mred\x1b[0m"), "red");
    assert_eq!(strip_ansi("a\x1b]0;title\x07b"), "ab");
    assert_eq!(strip_ansi("a\x1b]0;t\x1b\\\x07b"), "ab");
    assert_eq!(strip_ansi("x\x07y\tz\n"), "xy\tz\n");
    assert_eq!(strip_ansi("end\x1b"), "end");
    assert_eq!(remove_carriage_returns("a\r\nb\r"), "a\nb");
}

#[test]
fn stripped_text_has_no_controls() {
    let out = strip_ansi("\x01a\x1b[2Jb\x1b]2;t\x07c\x1bXd\r\te\n\x7f");
    assert!(out.chars().all(|c| c >= ' ' || c == '\n' || c == '\t'));
    assert_eq!(out, "abc\te\n\x7f");
}

#[test]
fn muxi_tails() {
    let text = "one\r\n\x1b[1mtwo\x1b[0m\r\n\r\n  \nthree\n";
    assert_eq!(tail_lines(text, 2, false), vec!["two".to_string(), "three".to_string()]);
    assert_eq!(capture_tail(text, 2, false), vec!["  ".to_string(), "three".to_string()]);
    assert_eq!(tail_lines("a\nb\n", 5, true), vec!["a".to_string(), "b".to_string()]);
}

#[test]
fn fixed_packets() {
    let raw = encode_fixed_packet(3, b"0123456789");
    assert_eq!(raw, [3, 8, b'0', b'1', b'2', b'3', b'4', b'5', b'6', b'7']);
    let short = encode_fixed_packet(0, b"hi");
    assert_eq!(short, [0, 2, b'h', b'i', 0, 0, 0, 0, 0, 0]);
    let p = decode_fixed_packet(&short);
    assert_eq!(p.typ, 0);
    assert_eq!(pushed_bytes(&p), b"hi".to_vec());
    assert_eq!(
        payload_chunks(b"0123456789"),
        vec![b"01234567".to_vec(), b"89".to_vec()]
    );
    assert!(payload_chunks(b"").is_empty());
    assert!(is_detach_key(0x04));
    assert!(is_detach_key(0x1c));
    assert!(!is_detach_key(b'a'));
}

#[test]
fn listing_of_a_session() {
    assert!(socket_attached(0o755));
    assert!(!socket_attached(0o644));
    assert_eq!(session_command(None, "/bin/zsh"), "/bin/zsh");
    assert_eq!(session_command(Some("vim".to_string()), "/bin/zsh"), "vim");
    let style = MuxiStyle { enabled: false };
    let listing = SessionListing {
        id: "1".to_string(),
        cwd: "/w".to_string(),
        command: "zsh".to_string(),
        attached: true,
        tail: vec!["ok".to_string()],
    };
    let rule = "\u{2500}".repeat(32);
    assert_eq!(
        listing_lines(style, &listing),
        vec![
            format!("session 1 {rule}"),
            "dir /w".to_string(),
            "cmd zsh".to_string(),
            "status running".to_string(),
            "attached yes".to_string(),
            String::new(),
            "output tail (1 lines)".to_string(),
            "  ok".to_string(),
            String::new(),
        ]
    );
    assert_eq!(no_sessions_line(style), "muxi no matching sessions");
    let colored = MuxiStyle { enabled: true };
    assert_eq!(colored.brand(), "\x1b[32mmuxi\x1b[0m");
}

#[test]
fn muxi_sessions_and_messages() {
    assert_eq!(state_dir(None, Some("/h")), "/h/.local/state/muxi");
    assert_eq!(state_dir(Some("/x"), None), "/x/muxi");
    let ids = vec!["1".to_string(), "12".to_string()];
    assert_eq!(select_session(Some("12"), &ids).unwrap(), 1);
    assert_eq!(select_session(Some("1"), &ids).unwrap_err().to_string(), "ambiguous muxi session: 1");
    let missing = select_session(Some("3"), &ids).unwrap_err();
    assert_eq!(missing.kind(), ErrorKind::NotFound);
    assert_eq!(missing.to_string(), "no such muxi session: 3");
    assert_eq!(select_session(None, &ids).unwrap_err().to_string(), "missing session");
    assert_eq!(check_not_inside(Some("2")).unwrap_err().to_string(), "already inside muxi session 2");
    let style = MuxiStyle { enabled: false };
    assert_eq!(session_banner(style, "joined", "2"), "muxi joined session 2 (Ctrl-\\ to exit)");
    assert_eq!(exit_message(style, "2"), "[muxi exited session 2]");
    assert_eq!(
        info_lines(style, Some("2"), Some("/s"), true).unwrap(),
        vec!["currently in the session 2".to_string(), "socket /s".to_string()]
    );
    assert_eq!(info_lines(style, None, None, false).unwrap_err().kind(), ErrorKind::NotFound);
    assert_eq!(fixed_packet_action(3), PacketAction::Resize);
    assert_eq!(fixed_packet_action(7), PacketAction::Ignore);
}
