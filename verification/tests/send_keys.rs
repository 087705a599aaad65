use hitch::error::ErrorKind;
use hitch::send_keys::{
    control_only_keys, format_duration, guard_send_keys, idle_interrupt_note, key_to_bytes,
    output_limit, parse_duration, parse_wait_mode, send_keys_payload, send_keys_report,
    split_duration, starts_with_interrupt, validate_send_keys_args, wait_timeout_message,
    Duration, SendKeysArgs, WaitMode, WaitOutcome, WaitPoll, WaitState,
};

fn args(keys: &[&str]) -> SendKeysArgs {
    SendKeysArgs {
        target: "1".to_string(),
        wait: None,
        timeout: None,
        tail: None,
        force: false,
        keys: keys.iter().map(|key| key.to_string()).collect(),
    }
}

#[test]
fn key_to_bytes_maps_named_keys_and_control_keys() {
    assert_eq!(key_to_bytes("Enter"), b"\n");
    assert_eq!(key_to_bytes("Tab"), b"\t");
    assert_eq!(key_to_bytes("Escape"), &[0x1b]);
    assert_eq!(key_to_bytes("Backspace"), &[0x7f]);
    assert_eq!(key_to_bytes("C-c"), &[0x03]);
    assert_eq!(key_to_bytes("hello"), b"hello");
}

#[test]
fn detects_control_only_sequences() {
    assert!(control_only_keys(&["C-c".to_string(), "C-l".to_string()]));
    assert!(!control_only_keys(&[]));
    assert!(!control_only_keys(&[
        "C-c".to_string(),
        "Enter".to_string()
    ]));
}

#[test]
fn validates_options_come_before_key_arguments() {
    assert!(validate_send_keys_args(&args(&["echo", "ok"])).is_ok());

    let err = validate_send_keys_args(&args(&["echo", "--wait=finish"]))
        .expect_err("late option should be rejected");
    assert_eq!(err.kind(), ErrorKind::InvalidInput);
    assert_eq!(
        err.to_string(),
        "send-keys options must come before key arguments"
    );
}

#[test]
fn parses_wait_modes() {
    assert!(matches!(
        parse_wait_mode("output").unwrap(),
        WaitMode::Output
    ));
    assert!(matches!(
        parse_wait_mode("finish").unwrap(),
        WaitMode::Finish
    ));
    assert!(matches!(
        parse_wait_mode("quiet:250ms").unwrap(),
        WaitMode::Quiet(duration) if duration == Duration::from_millis(250)
    ));
    assert!(matches!(
        parse_wait_mode("time:2s").unwrap(),
        WaitMode::Time(duration) if duration == Duration::from_secs(2)
    ));
}

#[test]
fn rejects_invalid_wait_modes_and_durations() {
    assert_eq!(
        parse_wait_mode("quiet:abc").unwrap_err().kind(),
        ErrorKind::InvalidInput
    );
    assert_eq!(
        parse_wait_mode("later").unwrap_err().to_string(),
        "wait must be output, finish, quiet:<duration>, or time:<duration>"
    );
    assert_eq!(
        parse_duration("10").unwrap_err().to_string(),
        "duration must end with ms, s, or m"
    );
}

#[test]
fn formats_durations_for_user_messages() {
    assert_eq!(format_duration(Duration::from_millis(250)), "250ms");
    assert_eq!(format_duration(Duration::from_secs(2)), "2s");
    assert_eq!(format_duration(Duration::from_secs(120)), "2m");
    assert_eq!(format_duration(Duration::from_millis(1500)), "1500ms");
}

#[test]
fn wait_timeout_messages_include_mode_context() {
    assert_eq!(
        wait_timeout_message(&WaitMode::Output, Duration::from_secs(5)),
        "timed out after 5s waiting for output"
    );
    assert_eq!(
        wait_timeout_message(
            &WaitMode::Quiet(Duration::from_secs(1)),
            Duration::from_secs(5)
        ),
        "timed out after 5s waiting for output to become quiet"
    );
    assert_eq!(
        wait_timeout_message(
            &WaitMode::Time(Duration::from_secs(2)),
            Duration::from_secs(5)
        ),
        "timed out after 5s waiting for 2s"
    );
    assert_eq!(
        wait_timeout_message(&WaitMode::Finish, Duration::from_secs(5)),
        "timed out after 5s waiting for command to finish"
    );
}

#[test]
fn other_named_keys_and_multibyte_control_text() {
    assert_eq!(key_to_bytes("C-m"), b"\n");
    assert_eq!(key_to_bytes("Esc"), &[0x1b]);
    assert_eq!(key_to_bytes("Space"), b" ");
    assert_eq!(key_to_bytes("BSpace"), &[0x7f]);
    assert_eq!(key_to_bytes("C-L"), &[0x0c]);
    assert_eq!(key_to_bytes("C-é"), "C-é".as_bytes());
}

#[test]
fn payload_joins_all_keys() {
    let keys = vec!["ls".to_string(), "Enter".to_string(), "C-c".to_string()];
    assert_eq!(send_keys_payload(&keys), b"ls\n\x03".to_vec());
    assert!(send_keys_payload(&[]).is_empty());
}

#[test]
fn each_late_option_spelling_is_refused() {
    for key in ["--wait", "--timeout", "--tail", "--force", "--tail=3", "--timeout=1s"] {
        let err = validate_send_keys_args(&args(&["x", key])).unwrap_err();
        assert_eq!(err.kind(), ErrorKind::InvalidInput);
    }
    assert!(validate_send_keys_args(&args(&["--forced"])).is_ok());
}

#[test]
fn duration_units_and_errors() {
    assert_eq!(parse_duration("3m").unwrap(), Duration::from_secs(180));
    assert_eq!(parse_duration("+7ms").unwrap(), Duration::from_millis(7));
    assert_eq!(
        parse_duration("ms").unwrap_err().to_string(),
        "duration must start with a positive integer"
    );
    assert_eq!(
        parse_duration("s").unwrap_err().to_string(),
        "duration must end with ms, s, or m"
    );
    assert_eq!(
        split_duration("10ms"),
        Some(("10".to_string(), "ms".to_string()))
    );
    assert_eq!(split_duration("ms"), Some(("m".to_string(), "s".to_string())));
    assert_eq!(split_duration("10"), None);
}

#[test]
fn interrupt_detection_and_guard() {
    assert!(starts_with_interrupt(&["C-c".to_string(), "x".to_string()]));
    assert!(!starts_with_interrupt(&[]));
    let typing = args(&["echo", "hi"]);
    let err = guard_send_keys(&typing, true).unwrap_err();
    assert_eq!(err.kind(), ErrorKind::WouldBlock);
    assert_eq!(err.to_string(), "send-keys refused while process is running");
    assert!(guard_send_keys(&typing, false).is_ok());
    assert!(guard_send_keys(&args(&["C-c", "q"]), true).is_ok());
    assert!(guard_send_keys(&args(&["C-d"]), true).is_ok());
    let mut forced = args(&["echo"]);
    forced.force = true;
    assert!(guard_send_keys(&forced, true).is_ok());
}

#[test]
fn idle_interrupt_note_wording() {
    let lone = args(&["C-c"]);
    assert_eq!(idle_interrupt_note(&lone, false), None);
    assert_eq!(idle_interrupt_note(&lone, true), None);
    let mut waiting = args(&["C-c"]);
    waiting.tail = Some(5);
    assert_eq!(
        idle_interrupt_note(&waiting, false),
        Some("note: no running process to interrupt".to_string())
    );
    assert_eq!(idle_interrupt_note(&waiting, true), None);
    let mut quiet_wait = args(&["C-c"]);
    quiet_wait.wait = Some("quiet:1s".to_string());
    assert_eq!(
        idle_interrupt_note(&quiet_wait, false),
        Some("note: no running process to interrupt".to_string())
    );
    assert_eq!(idle_interrupt_note(&args(&["C-c", "x"]), false), None);
}

#[test]
fn output_limit_defaults_when_waiting() {
    assert_eq!(output_limit(Some(3), true), Some(3));
    assert_eq!(output_limit(None, true), Some(40));
    assert_eq!(output_limit(None, false), None);
}

#[test]
fn report_lists_new_output() {
    let lines = vec!["a".to_string(), "b".to_string()];
    assert_eq!(
        send_keys_report("2", Some("timed out"), &lines),
        vec![
            "terminal: 2".to_string(),
            "note: timed out".to_string(),
            String::new(),
            "--- new output (2 lines) ---".to_string(),
            "a".to_string(),
            "b".to_string(),
        ]
    );
    assert_eq!(
        send_keys_report("2", None, &Vec::new()),
        vec!["terminal: 2".to_string(), "no new output".to_string()]
    );
}

fn poll(now_ms: u64, len: u64, running: bool, new_lines: usize) -> WaitPoll {
    WaitPoll { now_ms, len, command_running: running, new_lines }
}

#[test]
fn wait_times_out() {
    let mut s = WaitState::new(10, 10, 0);
    let timeout = Duration::from_secs(1);
    assert_eq!(s.step(&WaitMode::Finish, timeout, &poll(500, 10, false, 0)), None);
    assert_eq!(
        s.step(&WaitMode::Finish, timeout, &poll(1000, 10, false, 0)),
        Some(WaitOutcome::TimedOut)
    );
}

#[test]
fn wait_for_time_and_quiet() {
    let timeout = Duration::from_secs(30);
    let mut s = WaitState::new(0, 0, 0);
    let mode = WaitMode::Time(Duration::from_secs(2));
    assert_eq!(s.step(&mode, timeout, &poll(1900, 0, false, 0)), None);
    assert_eq!(s.step(&mode, timeout, &poll(2000, 0, false, 0)), Some(WaitOutcome::Satisfied));

    let mut q = WaitState::new(0, 0, 0);
    let quiet = WaitMode::Quiet(Duration::from_millis(300));
    assert_eq!(q.step(&quiet, timeout, &poll(200, 5, false, 0)), None);
    assert_eq!(q.step(&quiet, timeout, &poll(400, 5, false, 0)), None);
    assert_eq!(q.step(&quiet, timeout, &poll(500, 5, false, 0)), Some(WaitOutcome::Satisfied));
}

#[test]
fn wait_for_output_ignores_echo() {
    let timeout = Duration::from_secs(30);
    let mode = WaitMode::Output;
    let mut s = WaitState::new(100, 100, 0);
    assert_eq!(s.step(&mode, timeout, &poll(100, 120, false, 1)), None);
    assert_eq!(s.output_baseline, Some(u64::MAX));
    assert_eq!(s.step(&mode, timeout, &poll(300, 120, false, 1)), None);
    assert_eq!(s.output_baseline, Some(120));
    assert_eq!(s.step(&mode, timeout, &poll(400, 130, false, 1)), Some(WaitOutcome::Satisfied));
    let mut t = WaitState::new(0, 0, 0);
    assert_eq!(t.step(&mode, timeout, &poll(300, 50, false, 2)), Some(WaitOutcome::Satisfied));
}

#[test]
fn wait_for_finish_after_command_ends() {
    let timeout = Duration::from_secs(30);
    let mode = WaitMode::Finish;
    let mut s = WaitState::new(0, 0, 0);
    assert_eq!(s.step(&mode, timeout, &poll(100, 10, true, 0)), None);
    assert!(s.saw_running);
    assert_eq!(s.step(&mode, timeout, &poll(200, 10, false, 0)), None);
    assert_eq!(s.idle_since_ms, Some(200));
    assert_eq!(s.step(&mode, timeout, &poll(400, 10, false, 0)), Some(WaitOutcome::Satisfied));
}

#[test]
fn formatted_durations_parse_back() {
    for millis in [0u128, 7, 999, 1000, 1500, 45000, 60000, 61000, 180000, 3_600_000] {
        let d = Duration { millis };
        assert_eq!(parse_duration(&format_duration(d)).unwrap(), d);
    }
}
