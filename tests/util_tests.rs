use nb2nl::util::{get_line_starts, indent, join_strings, split_lines, Punctuated};

#[test]
fn test_line_starts() {
    assert_eq!(get_line_starts("hello world\nthis\n\nis\r\n\r\n\r\ndog\n"), &[0, 12, 17, 18, 22, 24, 26, 30]);
    assert_eq!(get_line_starts("hello world\nthis\n\nis\r\n\r\n\r\ndog"), &[0, 12, 17, 18, 22, 24, 26]);
    assert_eq!(get_line_starts("\nhello world\nthis\n\nis\r\n\r\n\r\ndog"), &[0, 1, 13, 18, 19, 23, 25, 27]);
}

#[test]
fn line_starts_of_empty_text() {
    assert_eq!(get_line_starts(""), vec![0]);
}

#[test]
fn line_starts_count_bytes_not_chars() {
    assert_eq!(get_line_starts("é\nx"), vec![0, 3]);
}

#[test]
fn split_lines_drops_cr_and_final_empty_line() {
    assert_eq!(split_lines("a\r\nb\n\nc\n"), vec!["a", "b", "", "c"]);
    assert_eq!(split_lines("a\rb"), vec!["a\rb"]);
    assert_eq!(split_lines("x\r"), vec!["x\r"]);
    assert!(split_lines("").is_empty());
}

#[test]
fn indent_prefixes_every_line() {
    assert_eq!(indent("to go\n  fd 1\nend\n"), "    to go\n      fd 1\n    end");
    assert_eq!(indent("a\r\n\nb"), "    a\n    \n    b");
    assert_eq!(indent(""), "");
}

#[test]
fn join_puts_separator_between_items() {
    let items = vec!["1".to_string(), "2".to_string(), "3".to_string()];
    assert_eq!(join_strings(&items, ", "), "1, 2, 3");
    assert_eq!(Punctuated(items, "-").render(), "1-2-3");
    assert_eq!(Punctuated(vec!["x".to_string()], ", ").render(), "x");
    assert_eq!(Punctuated(vec![], ", ").render(), "");
}
