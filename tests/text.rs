use launchd_core::text::tail_lines;

#[test]
fn tail_of_log_text() {
    let text = "one\r\ntwo\nthree\n";
    assert_eq!(tail_lines(text, Some(2)), "two\nthree");
    assert_eq!(tail_lines(text, Some(10)), "one\ntwo\nthree");
    assert_eq!(tail_lines(text, Some(0)), "");
    assert_eq!(tail_lines(text, None), text);
    assert_eq!(tail_lines("a\n\nb\r", Some(2)), "\nb\r");
    assert_eq!(tail_lines("", Some(3)), "");
}
