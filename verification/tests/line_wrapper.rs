use poet::line_wrapper::{starts_unsafe_line, LineWrapper};

fn wrapped(indent: &str, limit: i32, pieces: &[(&str, Option<i32>, Option<&str>)]) -> String {
    let mut out = String::new();
    let mut wrapper = LineWrapper::new(&mut out, String::from(indent), limit);
    for (text, level, prefix) in pieces {
        wrapper.append(String::from(*text), *level, prefix.map(String::from));
    }
    wrapper.close();
    out
}

#[test]
fn wrap() {
    let mut out = String::new();
    let mut wrapper = LineWrapper::new(&mut out, String::from("  "), 10);
    wrapper.append(String::from("abcde fghij"), Some(2), None);
    wrapper.close();

    assert_eq!("abcde\n    fghij", out);
}

#[test]
fn nowrap() {
    let mut out = String::new();
    let mut wrapper = LineWrapper::new(&mut out, String::from("  "), 10);
    wrapper.append(String::from("abcde fghi"), Some(2), None);
    wrapper.close();

    assert_eq!("abcde fghi", out);
}

#[test]
fn multiple_write() {
    let mut out = String::new();
    let mut wrapper = LineWrapper::new(&mut out, String::from("  "), 10);
    wrapper.append(String::from("ab cd ef gh ij kl mn op qr"), Some(1), None);
    wrapper.close();

    assert_eq!("ab cd ef\n  gh ij kl\n  mn op qr", out);
}

#[test]
fn fencepost() {
    let mut out = String::new();
    let mut wrapper = LineWrapper::new(&mut out, String::from("  "), 10);
    wrapper.append(String::from("abcde"), Some(2), None);
    wrapper.append(String::from("fghij k"), Some(2), None);
    wrapper.append(String::from("lmnop"), Some(2), None);
    wrapper.close();

    assert_eq!("abcdefghij\n    klmnop", out);
}

#[test]
fn overly_long_lines_without_leading_space() {
    let mut out = String::new();
    let mut wrapper = LineWrapper::new(&mut out, String::from("  "), 10);
    wrapper.append(String::from("abcdefghijkl"), Some(2), None);
    wrapper.close();

    assert_eq!("abcdefghijkl", out);
}

#[test]
fn overly_long_lines_with_leading_space() {
    let mut out = String::new();
    let mut wrapper = LineWrapper::new(&mut out, String::from("  "), 10);
    wrapper.append(String::from(" abcdefghijkl"), Some(2), None);
    wrapper.close();

    assert_eq!("\n    abcdefghijkl", out);
}

#[test]
fn no_wrap_embedded_newlines() {
    let mut out = String::new();
    let mut wrapper = LineWrapper::new(&mut out, String::from("  "), 10);
    wrapper.append(String::from("abcde fghi\njklmn"), Some(2), None);
    wrapper.append(String::from("opqrstuvwxy"), Some(2), None);
    wrapper.close();

    assert_eq!("abcde fghi\njklmnopqrstuvwxy", out);
}

#[test]
fn wrap_embedded_newlines() {
    let mut out = String::new();
    let mut wrapper = LineWrapper::new(&mut out, String::from("  "), 10);
    wrapper.append(String::from("abcde fghij\nklmn"), Some(2), None);
    wrapper.append(String::from("opqrstuvwxy"), Some(2), None);
    wrapper.close();

    assert_eq!("abcde\n    fghij\nklmnopqrstuvwxy", out);
}

#[test]
fn no_wrap_multiple_newlines() {
    let mut out = String::new();
    let mut wrapper = LineWrapper::new(&mut out, String::from("  "), 10);
    wrapper.append(
        String::from("abcde fghi\nklmnopq\nr stuvwxyz"),
        Some(2),
        None,
    );
    wrapper.close();

    assert_eq!("abcde fghi\nklmnopq\nr stuvwxyz", out);
}

#[test]
fn wrap_multiple_newlines() {
    let mut out = String::new();
    let mut wrapper = LineWrapper::new(&mut out, String::from("  "), 10);
    wrapper.append(
        String::from("abcde fghi\nklmnopq\nrs tuvwxyz1"),
        Some(2),
        None,
    );
    wrapper.close();

    assert_eq!("abcde fghi\nklmnopq\nrs\n    tuvwxyz1", out);
}

#[test]
fn no_wrap_preceding_unary_plus() {
    let mut out = String::new();
    let mut wrapper = LineWrapper::new(&mut out, String::from("  "), 10);
    wrapper.append(String::from("a - b       - c"), Some(2), None);
    wrapper.close();

    assert_eq!("a - b     \n     - c", out);
}

#[test]
fn append_non_wrapping() {
    let mut out = String::new();
    let mut wrapper = LineWrapper::new(&mut out, String::from("  "), 10);
    wrapper.append(String::from("ab cd ef"), Some(2), None);
    wrapper.append_non_wrapping(String::from("gh ij kl mn"));
    wrapper.close();

    assert_eq!("ab cd\n    efgh ij kl mn", out);
}

#[test]
fn append_non_wrapping_space() {
    let mut out = String::new();
    let mut wrapper = LineWrapper::new(&mut out, String::from("  "), 10);
    wrapper.append(String::from("ab cd ef"), Some(2), None);
    wrapper.append(String::from("gh·ij·kl·mn"), Some(2), None);
    wrapper.close();

    assert_eq!("ab cd\n    efgh ij kl mn", out);
}

#[test]
fn lone_unsafe_unary_operator() {
    let mut out = String::new();
    let mut wrapper = LineWrapper::new(&mut out, String::from("  "), 10);
    wrapper.append(String::from(" -1"), Some(2), None);
    wrapper.close();

    assert_eq!(" -1", out);
}

#[test]
fn line_prefix() {
    let mut out = String::new();
    let mut wrapper = LineWrapper::new(&mut out, String::from("  "), 10);
    wrapper.append(String::from("/**\n"), None, None);
    wrapper.append(String::from(" * "), None, None);
    wrapper.append(
        String::from("a b c d e f g h i j k l m n\n"),
        None,
        Some(String::from(" * ")),
    );
    wrapper.append(String::from(" */"), None, None);
    wrapper.close();

    assert_eq!("/**\n * a b c d\n * e f g h i j\n * k l m n\n */", out);
}

#[test]
fn should_get_pending_segments() {
    let mut out = String::new();
    let mut wrapper = LineWrapper::new(&mut out, String::from(""), 0);
    assert_eq!(false, wrapper.has_pending_segments());

    wrapper.append("hello ".to_string(), None, None);
    assert_eq!(true, wrapper.has_pending_segments());
    wrapper.new_line();
    assert_eq!(false, wrapper.has_pending_segments());
    wrapper.close();

    assert_eq!("hello\n\n", out);
}

#[test]
fn unsafe_line_starts() {
    assert!(starts_unsafe_line("-1"));
    assert!(starts_unsafe_line("+x"));
    assert!(starts_unsafe_line("--"));
    assert!(!starts_unsafe_line("-"));
    assert!(!starts_unsafe_line("+"));
    assert!(!starts_unsafe_line(""));
    assert!(!starts_unsafe_line("a-1"));
    assert!(!starts_unsafe_line("- 1"));
    assert!(!starts_unsafe_line(" -1"));
}

#[test]
fn unsafe_start_is_folded_before_the_width_is_counted() {
    // "-fghi" may not open a line: it stays with "abcde", and the pair is
    // wider than the limit, so nothing is wrapped before it.
    assert_eq!("abcde -fghi", wrapped("  ", 10, &[("abcde -fghi", Some(2), None)]));
    // Without the sign the same widths wrap.
    assert_eq!("abcde\n    xfghi", wrapped("  ", 10, &[("abcde xfghi", Some(2), None)]));
    // The folded pair is one segment for the segments behind it.
    assert_eq!(
        "ab\n  cd -ef\n  gh",
        wrapped("  ", 6, &[("ab cd -ef gh", Some(1), None)])
    );
}

#[test]
fn first_segment_is_never_folded() {
    assert_eq!("-a b", wrapped("  ", 10, &[("-a b", Some(1), None)]));
    assert_eq!("-ab\n  cd", wrapped("  ", 3, &[("-ab cd", Some(1), None)]));
    assert_eq!("-ab +cd", wrapped("  ", 3, &[("-ab +cd", Some(1), None)]));
}

#[test]
fn emit_segment_range_writes_a_run() {
    let mut out = String::new();
    let mut wrapper = LineWrapper::new(&mut out, String::from("  "), 10);
    wrapper.segments = vec![String::from("a"), String::from("b"), String::from("c")];
    wrapper.indent_level = 2;
    wrapper.line_prefix = String::from("# ");
    wrapper.emit_segment_range(0, 2);
    wrapper.emit_segment_range(2, 3);
    wrapper.emit_segment_range(1, 1);
    drop(wrapper);
    assert_eq!("a b\n    # c\n    # b", out);
}

#[test]
fn negative_indent_level_shortens_the_restart_width() {
    // With no indent level the continuation width starts one unit below zero.
    assert_eq!(
        "a b c d e\nf g h i j k\nl",
        wrapped("  ", 9, &[("a b c d e f g h i j k l", None, None)])
    );
}

#[test]
fn close_marks_the_wrapper_closed() {
    let mut out = String::new();
    let mut wrapper = LineWrapper::new(&mut out, String::from("  "), 10);
    assert!(!wrapper.closed);
    wrapper.append(String::from("a b"), Some(1), None);
    wrapper.close();
    assert!(wrapper.closed);
    assert_eq!(vec![String::new()], wrapper.segments);
    assert_eq!("a b", out);
}
