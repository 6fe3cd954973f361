use rust_test::download::completion_message;
use rust_test::stats::{stats_report, text_stats};

#[test]
fn stats_report_two_lines() {
    assert_eq!(stats_report("Hello\nWorld\n"), "Characters: 10\nLines: 2\n");
}

#[test]
fn stats_report_empty() {
    assert_eq!(stats_report(""), "Characters: 0\nLines: 0\n");
}

#[test]
fn text_stats_last_line_without_newline() {
    assert_eq!(text_stats("ab\ncd"), (4, 2));
    assert_eq!(text_stats("\n\n"), (0, 2));
    assert_eq!(text_stats("x"), (1, 1));
    assert_eq!(text_stats("a\r\nb"), (3, 2));
}

#[test]
fn completion_message_appends_marker() {
    assert_eq!(completion_message("http://example.com"), "http://example.com + 下载完成");
    assert_eq!(completion_message(""), " + 下载完成");
}
