use hitch::render::{apply_escape, parse_csi_params, render_terminal_text, skip_osc, TextTerminal};

#[test]
fn carriage_return_overwrites_current_line() {
    assert_eq!(
        render_terminal_text(b"progress 10%\rprogress 20%"),
        "progress 20%"
    );
}

#[test]
fn backspace_replaces_previous_character() {
    assert_eq!(render_terminal_text(b"abc\x08d"), "abd");
}

#[test]
fn skips_osc_title_sequences() {
    assert_eq!(
        render_terminal_text(b"before\x1b]2;ignored title\x07after"),
        "beforeafter"
    );
}

#[test]
fn handles_csi_cursor_movement_and_line_clear() {
    assert_eq!(render_terminal_text(b"hello\x1b[2DXY\x1b[K"), "helXY");
}

#[test]
fn keeps_multibyte_characters_intact() {
    assert_eq!(render_terminal_text("hi é漢".as_bytes()), "hi é漢");
}

#[test]
fn plain_text_renders_as_itself() {
    assert_eq!(render_terminal_text(b"one\ntwo\n"), "one\ntwo\n");
}

#[test]
fn clear_screen_drops_rows_below_cursor() {
    assert_eq!(render_terminal_text(b"a\nb\nc\x1b[2A\x1b[J"), "a");
}

#[test]
fn csi_params_parse_numbers_and_skip_question_marks() {
    assert_eq!(parse_csi_params(b"?1049"), vec![1049u16]);
    assert_eq!(parse_csi_params(b"12;5"), vec![12u16, 5u16]);
    assert_eq!(parse_csi_params(b""), Vec::<u16>::new());
}

#[test]
fn osc_skip_stops_after_terminator() {
    let bytes = b"\x1b]2;t\x07x";
    assert_eq!(skip_osc(bytes, 2), 6);
    let st = b"\x1b]0;t\x1b\\y";
    assert_eq!(skip_osc(st, 2), 7);
}

#[test]
fn valid_character_stays_intact_before_a_bad_byte() {
    assert_eq!(render_terminal_text(b"\xc3\xa9\xff"), "\u{e9}\u{ff}");
    assert!(render_terminal_text(b"hi \xc3\xa9 \xe6\xbc\xa2\x80").starts_with("hi \u{e9} \u{6f22}"));
}

#[test]
fn escapes_always_move_on() {
    assert_eq!(render_terminal_text(b"a\x1b"), "a");
    assert_eq!(render_terminal_text(b"a\x1b[5Ab"), "ab");
    assert_eq!(render_terminal_text(b"x\x1b[3Bz"), "x\n\n\n z");
    assert_eq!(render_terminal_text(b"top\x1b[1;1H\x1b[J"), "");
}

#[test]
fn escape_step_consumes_and_keeps_the_row() {
    let mut t = TextTerminal::new();
    assert_eq!(apply_escape(b"\x1b[2B", 0, &mut t), 4);
    assert_eq!(apply_escape(b"\x1b", 0, &mut t), 1);
    assert_eq!(apply_escape(b"\x1b]0;t\x07x", 0, &mut t), 6);
    assert_eq!(apply_escape(b"\x1b[5A", 0, &mut t), 4);
    assert_eq!(t.finish(), "\n\n");
}
