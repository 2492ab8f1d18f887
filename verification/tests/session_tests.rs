use codex_context_tree::session::SessionState;
use codex_context_tree::text::str_lines;

#[test]
fn session_keeps_the_latest_rate_limits() {
    let mut s: SessionState<&str, u32> = SessionState::new("config");
    assert_eq!(s.rate_limits(), None);
    s.set_rate_limits(5);
    s.set_rate_limits(7);
    assert_eq!(s.rate_limits(), Some(7));
    assert_eq!(s.session_configuration, "config");
}

#[test]
fn lines_drop_their_endings() {
    assert_eq!(str_lines("a\nb\r\nc"), vec!["a", "b", "c"]);
    assert_eq!(str_lines("a\n"), vec!["a"]);
    assert_eq!(str_lines(""), Vec::<String>::new());
    assert_eq!(str_lines("\n\n"), vec!["", ""]);
    assert_eq!(str_lines("x\r"), vec!["x\r"]);
}
