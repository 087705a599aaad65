use hitch::protocol::{
    attach_exit_status, attach_input_action, attach_watch, cwd_broadcast, decode_header, decode_packet, encode_packet, hangup_status,
    is_detach_key, osc7_cwd, packet_action, percent_encode_path, AttachAction, CommandTracker, PacketAction,
    MSG_ATTACH, MSG_DETACH, MSG_DETACH_SESSION, MSG_PUSH, MSG_WINCH,
};
use hitch::session::SessionState;

#[test]
fn packets_round_trip() {
    let bytes = encode_packet(MSG_PUSH, b"ls\n").unwrap();
    assert_eq!(bytes, vec![0, 0, 0, 0, 3, b'l', b's', b'\n']);
    let mut stream = bytes.clone();
    stream.extend_from_slice(b"rest");
    let (packet, used) = decode_packet(&stream).unwrap();
    assert_eq!(packet.typ, MSG_PUSH);
    assert_eq!(packet.payload, b"ls\n".to_vec());
    assert_eq!(used, 8);
    assert!(decode_packet(&bytes[..6]).is_none());
    assert_eq!(decode_header(&[4, 0, 0, 1, 2]), (4, 258));
    assert_eq!(decode_header(&[4, 0, 1, 0, 2]), (4, 65538));
}

#[test]
fn packet_actions() {
    assert_eq!(packet_action(MSG_PUSH, 3), PacketAction::WriteInput);
    assert_eq!(packet_action(MSG_ATTACH, 0), PacketAction::Attach);
    assert_eq!(packet_action(MSG_DETACH, 0), PacketAction::Detach);
    assert_eq!(packet_action(MSG_WINCH, 8), PacketAction::Resize);
    assert_eq!(packet_action(MSG_WINCH, 7), PacketAction::Ignore);
    assert_eq!(packet_action(MSG_DETACH_SESSION, 0), PacketAction::StopSession);
    assert_eq!(packet_action(9, 0), PacketAction::Ignore);
}

#[test]
fn detach_key_and_attach_watch() {
    assert!(is_detach_key(0x1c));
    assert!(!is_detach_key(0x04));
    assert_eq!(attach_watch(true, false), (true, false));
    assert_eq!(attach_watch(false, false), (false, false));
    assert_eq!(attach_watch(false, true), (true, true));
    assert_eq!(hangup_status(true, false), 0);
    assert_eq!(hangup_status(false, true), 0);
    assert_eq!(hangup_status(false, false), 42);
}

#[test]
fn working_directory_is_announced_with_osc7() {
    assert_eq!(percent_encode_path("/tmp/my dir/é"), "/tmp/my%20dir/%C3%A9");
    assert_eq!(osc7_cwd("/a b"), b"\x1b]7;file://localhost/a%20b\x07".to_vec());
    let mut last = None;
    let first = cwd_broadcast(&Some("/x".to_string()), &mut last);
    assert_eq!(first, Some(b"\x1b]7;file://localhost/x\x07".to_vec()));
    assert_eq!(last, Some("/x".to_string()));
    assert_eq!(cwd_broadcast(&Some("/x".to_string()), &mut last), None);
    assert_eq!(cwd_broadcast(&None, &mut last), None);
    assert_eq!(last, None);
}

#[test]
fn command_tracker_follows_foreground_group() {
    let mut t = CommandTracker::new(SessionState::default(), 100);
    assert!(!t.command_needed(Some(100)));
    assert!(t.command_needed(Some(200)));
    let clear = t.refresh(Some(200), Some("/w".to_string()), Some("vim".to_string()), 50);
    assert!(clear);
    assert!(t.state.command_running);
    assert_eq!(t.state.active_command, Some("vim".to_string()));
    assert_eq!(t.state.command_started_at, Some(50));
    assert_eq!(t.state.current_dir, Some("/w".to_string()));
    assert!(!t.command_needed(Some(200)));
    assert!(!t.refresh(Some(200), None, None, 60));
    assert_eq!(t.state.command_started_at, Some(50));
    assert!(!t.refresh(Some(100), None, None, 70));
    assert!(!t.state.command_running);
    assert_eq!(t.state.command_finished_at, Some(70));
    assert_eq!(t.state.active_command, None);
    t.note_input(80);
    assert_eq!(t.state.last_activity_at, Some(80));
    assert!(!t.captures_output());
}

#[test]
fn attach_input_decisions() {
    assert_eq!(attach_input_action(b""), AttachAction::InputClosed);
    assert_eq!(attach_input_action(b"\x1crest"), AttachAction::Detach);
    assert_eq!(attach_input_action(b"ls\r"), AttachAction::Forward);
    assert_eq!(attach_input_action(b"\x04"), AttachAction::Forward);
    assert_eq!(attach_exit_status(AttachAction::InputClosed), Some(1));
    assert_eq!(attach_exit_status(AttachAction::Detach), Some(0));
    assert_eq!(attach_exit_status(AttachAction::Forward), None);
}
