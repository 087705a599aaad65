use hitch::style::{color_enabled, Style};

#[test]
fn plain_style_adds_nothing() {
    let s = Style::plain();
    assert_eq!(s.brand(), "hitch");
    assert_eq!(s.id("3"), "3");
    assert_eq!(s.session_id("3"), "#3");
    assert_eq!(s.muted("m"), "m");
    assert_eq!(s.error("e"), "e");
}

#[test]
fn colored_style_wraps_in_codes() {
    let s = Style::colored(true);
    assert_eq!(s.brand(), "\x1b[32mhitch\x1b[0m");
    assert_eq!(s.session_id("3"), "\x1b[32m#3\x1b[0m");
    assert_eq!(s.error("bad"), "\x1b[31m\x1b[1mbad\x1b[0m");
    assert_eq!(s.logo("L"), "\x1b[33mL\x1b[0m");
    assert_eq!(s.light_yellow("1."), "\x1b[93m1.\x1b[0m");
    assert_eq!(s.success("ok"), "\x1b[32mok\x1b[0m");
    assert_eq!(s.path("/p"), "/p");
    assert_eq!(s.command("ls"), "ls");
}

#[test]
fn colors_need_a_terminal_and_no_no_color() {
    assert!(color_enabled(false, true));
    assert!(!color_enabled(true, true));
    assert!(!color_enabled(false, false));
}
