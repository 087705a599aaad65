use hitch::output::{
    contains_line_sequence, context_session_lines, first_lines, head_visible_lines, last_lines,
    line_index, lines_range, normalize_list_lines, raw_tail_lines, tail_visible_lines,
    tail_window_next, text_lines, trim_visual_empty_edges, truncate_context_line,
    visible_lines, with_final_newline, CONTEXT_LINE_MAX_CHARS,
};
use hitch::session::SessionState;

fn strings(lines: &[&str]) -> Vec<String> {
    lines.iter().map(|l| l.to_string()).collect()
}

#[test]
fn context_lines_at_limit_are_unchanged() {
    let line = "a".repeat(CONTEXT_LINE_MAX_CHARS);

    assert_eq!(truncate_context_line(&line), line.as_str());
}

#[test]
fn context_lines_are_truncated_by_characters() {
    let line = format!("{}é漢", "a".repeat(CONTEXT_LINE_MAX_CHARS));
    let expected = format!(
        "{}... [truncated 2 chars]",
        "a".repeat(CONTEXT_LINE_MAX_CHARS)
    );

    assert_eq!(truncate_context_line(&line), expected);
}

#[test]
fn blank_edges_are_trimmed_and_blank_lines_dropped() {
    let lines = strings(&["", "  ", "one", "", "two", "\t", ""]);
    assert_eq!(trim_visual_empty_edges(lines.clone()), strings(&["one", "", "two"]));
    assert_eq!(normalize_list_lines(lines), strings(&["one", "two"]));
    assert_eq!(trim_visual_empty_edges(strings(&["", " "])), Vec::<String>::new());
}

#[test]
fn line_sequences_are_found_as_runs() {
    let lines = strings(&["a", "b", "c", "d"]);
    assert!(contains_line_sequence(&lines, &strings(&["b", "c"])));
    assert!(!contains_line_sequence(&lines, &strings(&["b", "d"])));
    assert!(contains_line_sequence(&lines, &[]));
    assert!(!contains_line_sequence(&strings(&["a"]), &strings(&["a", "b"])));
}

#[test]
fn line_positions_count_from_either_end() {
    assert_eq!(line_index(10, 3), 3);
    assert_eq!(line_index(10, 30), 10);
    assert_eq!(line_index(10, -3), 7);
    assert_eq!(line_index(10, -30), 0);
    assert_eq!(line_index(10, isize::MIN), 0);
}

#[test]
fn ranges_of_lines() {
    let text = "l0\nl1\nl2\nl3\n";
    assert_eq!(lines_range(text, 1, Some(2)), strings(&["l1", "l2"]));
    assert_eq!(lines_range(text, -2, None), strings(&["l2", "l3"]));
    assert_eq!(lines_range(text, 0, Some(-1)), strings(&["l0", "l1", "l2", "l3"]));
    assert_eq!(lines_range(text, 3, Some(1)), Vec::<String>::new());
}

#[test]
fn tails_and_heads() {
    assert_eq!(last_lines(strings(&["a", "b", "c"]), 2), strings(&["b", "c"]));
    assert_eq!(last_lines(strings(&["a"]), 5), strings(&["a"]));
    assert_eq!(first_lines(strings(&["a", "b", "c"]), 2), strings(&["a", "b"]));
    assert_eq!(text_lines("x\r\ny\n"), strings(&["x", "y"]));
}

#[test]
fn visible_lines_of_a_rendered_log() {
    let log = b"$ make\r\n\x1b[32mok\x1b[0m\r\n\r\n\x1b]2;title\x07done\n";
    assert_eq!(visible_lines(log), strings(&["$ make", "ok", "done"]));
    assert_eq!(tail_visible_lines(log, 2), strings(&["ok", "done"]));
    assert_eq!(head_visible_lines(log, 1), strings(&["$ make"]));
}

#[test]
fn raw_tail_keeps_escape_bytes() {
    let log = b"a\n\x1b[1mb\xff\n";
    assert_eq!(raw_tail_lines(log, 1), vec!["\u{1b}[1mb\u{fffd}".to_string()]);
}

#[test]
fn tail_window_doubles_until_enough() {
    assert_eq!(tail_window_next(65536, 10_000_000, 3, 20), Some(131072));
    assert_eq!(tail_window_next(65536, 10_000_000, 20, 20), None);
    assert_eq!(tail_window_next(65536, 1000, 3, 20), None);
    assert_eq!(tail_window_next(786432, 10_000_000, 3, 20), Some(1048576));
    assert_eq!(tail_window_next(1048576, 10_000_000, 3, 20), None);
}

#[test]
fn transcripts_end_with_newline() {
    assert_eq!(with_final_newline("a"), "a\n");
    assert_eq!(with_final_newline("a\n"), "a\n");
    assert_eq!(with_final_newline(""), "");
}

fn state(running: bool, last: Option<u64>, started: Option<u64>) -> SessionState {
    SessionState {
        active_command: None,
        command_running: running,
        command_started_at: started,
        command_finished_at: None,
        last_activity_at: last,
        foreground_pgrp: None,
        current_dir: None,
    }
}

#[test]
fn context_report_of_idle_session() {
    let tail = strings(&["$ ls", "file"]);
    let lines = context_session_lines(
        "/home/u/app",
        Some("/home/u"),
        &state(false, Some(990), None),
        1000,
        false,
        &Vec::new(),
        &tail,
    );
    assert_eq!(
        lines,
        strings(&[
            "current dir: ~/app",
            "last input was 10s ago",
            "no actively running commands",
            "",
            "--- recent output (2 lines) ---",
            "$ ls",
            "file",
        ])
    );
}

#[test]
fn context_report_of_running_session() {
    let head = strings(&["starting", "ready"]);
    let tail = strings(&["request 1"]);
    let lines = context_session_lines(
        "/srv",
        None,
        &state(true, None, Some(1000 - 125)),
        1000,
        false,
        &head,
        &tail,
    );
    assert_eq!(
        lines,
        strings(&[
            "current dir: /srv",
            "last input was unknown",
            "process is running for 2m 5s",
            "",
            "--- active output head (2 lines) ---",
            "starting",
            "ready",
            "",
            "--- recent output (1 lines) ---",
            "request 1",
        ])
    );
    let quiet = context_session_lines("/srv", None, &state(true, None, None), 1000, false, &Vec::new(), &Vec::new());
    assert_eq!(quiet.last().unwrap(), "no visible output yet");
    assert_eq!(quiet[2], "process is running for unknown time");
    let brief = context_session_lines("/srv", None, &state(false, None, None), 1000, true, &head, &tail);
    assert_eq!(brief.len(), 3);
}

#[test]
fn trimming_twice_is_trimming_once() {
    let lines = strings(&[" ", "a", "", "b", "\t", ""]);
    let once = trim_visual_empty_edges(lines);
    assert_eq!(once, strings(&["a", "", "b"]));
    assert_eq!(trim_visual_empty_edges(once.clone()), once);
}
