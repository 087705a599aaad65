use hitch::error::ErrorKind;
use hitch::session::{
    cache_dir, context_header, current_dir_for_session, lsof_cwd, next_session_id, parse_pid,
    parse_u32, ps_command, running_for, select_session, session_file, session_in_dir,
    session_order, session_path, sessions_dir, state_dir, time_ago, update_cache_path,
    SessionState,
};

fn strings(v: &[&str]) -> Vec<String> {
    v.iter().map(|s| s.to_string()).collect()
}

#[test]
fn new_session_ids_fill_the_first_gap() {
    assert_eq!(next_session_id(&[]), "1");
    assert_eq!(next_session_id(&strings(&["1", "2", "4"])), "3");
    assert_eq!(next_session_id(&strings(&["2", "x", "3"])), "1");
    assert_eq!(next_session_id(&strings(&["1", "1", "2"])), "3");
    assert_eq!(next_session_id(&strings(&["0", "+1", "2"])), "3");
}

#[test]
fn sessions_are_picked_by_prefix() {
    let ids = strings(&["12", "13", "2"]);
    assert_eq!(select_session(Some("2"), &ids).unwrap(), 2);
    let err = select_session(Some("1"), &ids).unwrap_err();
    assert_eq!(err.kind(), ErrorKind::InvalidInput);
    assert_eq!(err.to_string(), "ambiguous hitch terminal: 1");
    let err = select_session(Some("9"), &ids).unwrap_err();
    assert_eq!(err.kind(), ErrorKind::NotFound);
    assert_eq!(err.to_string(), "terminal 9 does not exist");
    let err = select_session(None, &ids).unwrap_err();
    assert_eq!(err.to_string(), "missing terminal");
}

#[test]
fn sessions_are_listed_by_number() {
    let ids = strings(&["10", "b", "2", "a", "1"]);
    assert_eq!(session_order(&ids), vec![4, 2, 0, 1, 3]);
    assert!(session_order(&[]).is_empty());
}

#[test]
fn ages_and_running_times() {
    assert_eq!(time_ago(100, 130), "30s ago");
    assert_eq!(time_ago(0, 7200), "2h ago");
    assert_eq!(time_ago(0, 3 * 86400 + 5), "3d ago");
    assert_eq!(time_ago(200, 100), "0s ago");
    assert_eq!(running_for(0, 59), "59s");
    assert_eq!(running_for(0, 3600 + 5 * 60), "1h 05m");
    assert_eq!(running_for(0, 86400 + 2 * 3600), "1d 2h");
}

#[test]
fn state_and_cache_locations() {
    assert_eq!(state_dir(Some("/x"), Some("/h")), "/x/hitch");
    assert_eq!(state_dir(None, Some("/h")), "/h/.local/state/hitch");
    assert_eq!(state_dir(None, None), "./.local/state/hitch");
    assert_eq!(cache_dir(None, Some("/h")), "/h/.cache/hitch");
    assert_eq!(update_cache_path("/c"), "/c/update.json");
    assert_eq!(sessions_dir("/s"), "/s/sessions");
    assert_eq!(session_path("/s", "3"), "/s/sessions/3");
    assert_eq!(session_file("/s", "3", "state.json"), "/s/sessions/3/state.json");
}

#[test]
fn pid_files_and_process_output() {
    assert_eq!(parse_pid(" 1234\n"), Some(1234));
    assert_eq!(parse_pid("-5"), Some(-5));
    assert_eq!(parse_pid("x"), None);
    assert_eq!(parse_pid("2147483648"), None);
    assert_eq!(parse_pid("-2147483648"), Some(i32::MIN));
    assert_eq!(parse_u32("4294967295"), Some(u32::MAX));
    assert_eq!(lsof_cwd(b"p123\nfcwd\nn/home/u/app\n"), Some("/home/u/app".to_string()));
    assert_eq!(lsof_cwd(b"p1\nn\nn/other\n"), None);
    assert_eq!(ps_command(b"  vim notes.txt\n"), Some("vim notes.txt".to_string()));
    assert_eq!(ps_command(b"\n"), None);
}

#[test]
fn current_dir_prefers_foreground_process() {
    assert_eq!(current_dir_for_session("/start", Some("/shell"), Some("/fg")), "/fg");
    assert_eq!(current_dir_for_session("/start", Some("/shell"), None), "/shell");
    assert_eq!(current_dir_for_session("/start", None, None), "/start");
    let s = SessionState::default();
    assert!(!s.command_running);
}

#[test]
fn directory_filter_and_header() {
    assert!(session_in_dir("/p/app/sub", "/elsewhere", "/p/app"));
    assert!(session_in_dir("/elsewhere", "/p/app", "/p/app"));
    assert!(!session_in_dir("/p/apple", "/q", "/p/app"));
    assert_eq!(context_header(true, 2, 5), "terminals: 5 total");
    assert_eq!(context_header(false, 2, 5), "terminals: 2 project, 5 total");
}
