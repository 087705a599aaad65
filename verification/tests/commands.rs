use hitch::commands::{
    attach_history, capture_mode, capture_raw, check_not_sharing, context_dir_filter,
    context_limits, drop_partial_line, error_is_quiet, kill_targets, new_session_record,
    not_sharing_line, session_shell, sharing_banner, status_lines, stopped_message, tail_start,
    top_level_help, top_level_help_requested, top_level_skill_requested,
    top_level_version_requested, usable_winsize, version_line, CaptureMode, DirFilter,
};
use hitch::error::ErrorKind;
use hitch::style::Style;

fn args(v: &[Option<&str>]) -> Vec<Option<String>> {
    v.iter().map(|a| a.map(|s| s.to_string())).collect()
}

#[test]
fn bare_flags_are_recognised_alone() {
    assert!(top_level_skill_requested(&args(&[Some("--skill")])));
    assert!(!top_level_skill_requested(&args(&[Some("--skill"), Some("x")])));
    assert!(!top_level_skill_requested(&args(&[None])));
    assert!(top_level_help_requested(&args(&[Some("help")])));
    assert!(top_level_help_requested(&args(&[Some("-h")])));
    assert!(!top_level_help_requested(&args(&[])));
    assert!(top_level_version_requested(&args(&[Some("-V")])));
    assert!(!top_level_version_requested(&args(&[Some("--v")])));
    assert_eq!(version_line("0.2.1"), "hitch 0.2.1");
    assert!(top_level_help().starts_with("Usage: hitch [COMMAND]\n"));
}

#[test]
fn status_and_banners() {
    let plain = Style::plain();
    assert_eq!(not_sharing_line(plain), "not sharing this terminal, run `hitch`");
    assert_eq!(
        status_lines(plain, Some("3"), Some("/s.sock"), true),
        vec!["sharing this terminal as 3".to_string(), "socket /s.sock".to_string()]
    );
    assert_eq!(status_lines(plain, Some("3"), Some("/s.sock"), false).len(), 1);
    assert_eq!(sharing_banner(plain, "3"), "hitch sharing terminal 3 (Ctrl-\\ to stop)");
    assert_eq!(stopped_message(plain, "3"), "[hitch stopped sharing 3]");
    assert_eq!(
        stopped_message(Style::colored(true), "3"),
        "\x1b[2m[hitch stopped sharing 3]\x1b[0m"
    );
}

#[test]
fn starting_a_session() {
    assert!(check_not_sharing(None).is_ok());
    let err = check_not_sharing(Some("4")).unwrap_err();
    assert_eq!(err.kind(), ErrorKind::AlreadyExists);
    assert_eq!(err.to_string(), "already sharing terminal 4");
    assert_eq!(session_shell(None), "/bin/zsh");
    assert_eq!(session_shell(Some("/bin/bash")), "/bin/bash");
    let r = new_session_record("2", "/w", "/s/sessions/2", 1700000000, "/bin/zsh");
    assert_eq!(r.socket, "/s/sessions/2/session.sock");
    assert_eq!(r.log, "/s/sessions/2/output.log");
    assert_eq!(r.pid_file, "/s/sessions/2/child.pid");
    assert_eq!(r.master_pid_file, "/s/sessions/2/master.pid");
    assert_eq!(r.created_at, "1700000000");
}

#[test]
fn reading_the_end_of_a_log() {
    assert_eq!(tail_start(100, 30), 70);
    assert_eq!(tail_start(10, 30), 0);
    assert_eq!(drop_partial_line(b"tial\nnext\n".to_vec(), true), b"next\n".to_vec());
    assert_eq!(drop_partial_line(b"tial\nnext\n".to_vec(), false), b"tial\nnext\n".to_vec());
    assert_eq!(drop_partial_line(b"no newline".to_vec(), true), b"no newline".to_vec());
    assert_eq!(attach_history(b"x"), b"x\r\n".to_vec());
    assert_eq!(attach_history(b"x\n"), b"x\n".to_vec());
    assert_eq!(attach_history(b""), Vec::<u8>::new());
    assert!(usable_winsize(24, 80));
    assert!(!usable_winsize(0, 80));
}

#[test]
fn context_and_capture_defaults() {
    assert_eq!(context_limits(true, None, None), (10, 80));
    assert_eq!(context_limits(false, None, None), (5, 20));
    assert_eq!(context_limits(false, Some(1), Some(2)), (1, 2));
    assert_eq!(context_dir_filter(true, true), DirFilter::Given);
    assert_eq!(context_dir_filter(false, true), DirFilter::All);
    assert_eq!(context_dir_filter(false, false), DirFilter::WorkingDir);
    assert_eq!(capture_mode(Some(-5), None, Some(3)), CaptureMode::Range { start: -5, end: None });
    assert_eq!(capture_mode(None, Some(2), Some(3)), CaptureMode::Tail(3));
    assert_eq!(capture_mode(None, None, None), CaptureMode::Whole);
    assert!(capture_raw(false, true));
    assert!(!capture_raw(false, false));
    assert_eq!(kill_targets(Some(10), Some(11)), vec![10, 11]);
    assert_eq!(kill_targets(None, Some(11)), vec![11]);
    assert!(error_is_quiet(ErrorKind::WouldBlock));
    assert!(!error_is_quiet(ErrorKind::NotFound));
}
