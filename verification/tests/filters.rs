use hitch::filters::{is_shell_idle_title, AltScreenLogFilter, AltScreenTracker, PtyOutputFilters, TitleFilter};

#[test]
fn filters_recognizes_shell_idle_titles() {
    assert!(is_shell_idle_title("maxktz@Maxs-MacBook-Pro:~/dev/testapp"));
    assert!(is_shell_idle_title("max.ktz@host.local:/tmp/app"));

    assert!(!is_shell_idle_title("build ready @ 12:30"));
    assert!(!is_shell_idle_title("server@example.com: listening"));
    assert!(!is_shell_idle_title("maxktz@:~/dev/testapp"));
    assert!(!is_shell_idle_title("maxktz@Maxs-MacBook-Pro"));
}

#[test]
fn filters_rewrites_idle_title_to_current_dir() {
    let mut filter = TitleFilter::rewrite("3");
    filter.set_cwd(Some("/tmp/testapp".to_string()));

    let output = filter.filter(b"\x1b]2;maxktz@Maxs-MacBook-Pro:~/dev/testapp\x07");

    assert_eq!(output, b"\x1b]2;#3 /tmp/testapp\x07");
}

#[test]
fn filters_preserves_non_idle_titles() {
    let mut filter = TitleFilter::rewrite("3");
    filter.set_cwd(Some("/tmp/testapp".to_string()));

    let output = filter.filter(b"\x1b]2;server@example.com: listening\x07");

    assert_eq!(output, b"\x1b]2;#3 server@example.com: listening\x07");
}

#[test]
fn main_recognizes_shell_idle_titles() {
    assert!(is_shell_idle_title("maxktz@Maxs-MacBook-Pro:~/dev/testapp"));
    assert!(is_shell_idle_title("max.ktz@host.local:/tmp/app"));

    assert!(!is_shell_idle_title("build ready @ 12:30"));
    assert!(!is_shell_idle_title("server@example.com: listening"));
    assert!(!is_shell_idle_title("maxktz@:~/dev/testapp"));
    assert!(!is_shell_idle_title("maxktz@Maxs-MacBook-Pro"));
}

#[test]
fn main_rewrites_idle_title_to_current_dir() {
    let mut filter = TitleFilter::rewrite("3");
    filter.set_cwd(Some("/tmp/testapp".to_string()));

    let output = filter.filter(b"\x1b]2;maxktz@Maxs-MacBook-Pro:~/dev/testapp\x07");

    assert_eq!(output, b"\x1b]2;#3 /tmp/testapp\x07");
}

#[test]
fn main_preserves_non_idle_titles() {
    let mut filter = TitleFilter::rewrite("3");
    filter.set_cwd(Some("/tmp/testapp".to_string()));

    let output = filter.filter(b"\x1b]2;server@example.com: listening\x07");

    assert_eq!(output, b"\x1b]2;#3 server@example.com: listening\x07");
}

#[test]
fn title_filter_gives_same_output_when_fed_in_pieces() {
    let input: &[u8] = b"a\x1b]2;maxktz@host:~/x\x07b\x1b]0;vim\x1b\\c";
    let mut whole = TitleFilter::rewrite("7");
    whole.set_cwd(Some("/work".to_string()));
    let all = whole.filter(input);
    let mut pieces = TitleFilter::rewrite("7");
    pieces.set_cwd(Some("/work".to_string()));
    let mut out = Vec::new();
    for chunk in input.chunks(3) {
        out.extend(pieces.filter(chunk));
    }
    assert_eq!(out, all);
    assert_eq!(all, b"a\x1b]2;#7 /work\x07b\x1b]0;#7 vim\x1b\\c".to_vec());
}

#[test]
fn strip_filter_removes_titles_and_keeps_text() {
    let mut filter = TitleFilter::strip();
    assert_eq!(filter.filter(b"ab\x1b]2;title\x07cd"), b"abcd".to_vec());
    assert_eq!(filter.filter(b"plain text"), b"plain text".to_vec());
}

#[test]
fn idle_title_uses_home_shorthand() {
    let mut filter = TitleFilter::rewrite("1");
    filter.set_cwd(Some("/home/me/src".to_string()));
    filter.set_home(Some("/home/me".to_string()));
    assert_eq!(filter.filter(b"\x1b]2;me@box:~/src\x07"), b"\x1b]2;#1 ~/src\x07".to_vec());
}

#[test]
fn alt_screen_log_filter_drops_full_screen_output() {
    let mut filter = AltScreenLogFilter::new();
    let out = filter.filter(b"before\x1b[?1049hfull screen\x1b[?1049lafter");
    assert_eq!(out, b"beforeafter".to_vec());
    assert!(!filter.alt_screen());
}

#[test]
fn alt_screen_tracker_follows_switches() {
    let mut tracker = AltScreenTracker::new();
    tracker.observe(b"x\x1b[?1049h");
    assert!(tracker.alt_screen());
    tracker.observe(b"\x1b[?1049ly");
    assert!(!tracker.alt_screen());
}

#[test]
fn pty_filters_split_client_and_log_output() {
    let mut filters = PtyOutputFilters::new("2");
    let (shown, logged) = filters.process(b"hi\x1b]2;title\x07!");
    assert_eq!(shown, b"hi\x1b]2;#2 title\x07!".to_vec());
    assert_eq!(logged, b"hi!".to_vec());
    let (shown, logged) = filters.process(b"\x1b[?1049h");
    assert_eq!(shown, b"\x1b[?1049h".to_vec());
    assert!(logged.is_empty());
    let (shown, logged) = filters.process(b"screen");
    assert_eq!(shown, b"screen".to_vec());
    assert!(logged.is_empty());
}

#[test]
fn tracker_flag_follows_last_sequence() {
    let mut tracker = AltScreenTracker::new();
    tracker.observe(b"\x1b[?1049hdrawing");
    assert!(tracker.alt_screen());
    tracker.observe(b"\x1b[?1049h");
    assert!(tracker.alt_screen());
    tracker.observe(b"\x1b[?47lplain text");
    assert!(!tracker.alt_screen());
    tracker.observe(b"\x1b[?1047h\x1b[1m");
    assert!(tracker.alt_screen());
}

#[test]
fn only_completed_switches_move_the_flag() {
    let mut tracker = AltScreenTracker::new();
    let mut log = AltScreenLogFilter::new();
    let x = b"\x1b[\x1b[?47h";
    tracker.observe(x);
    log.filter(x);
    assert!(!tracker.alt_screen());
    assert_eq!(tracker.alt_screen(), log.alt_screen());
    let y = b"\x1b[?1049h\x1b[?47lz\x1b[?1047h";
    tracker.observe(y);
    log.filter(y);
    assert!(tracker.alt_screen());
    assert_eq!(tracker.alt_screen(), log.alt_screen());
}
