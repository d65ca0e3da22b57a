use buran::router::access_log::{dropped_notice, escape, escape_text, format_clf_time, log_line, Exchange};

#[test]
fn escape_passes_plain_text_through() {
    assert_eq!(escape(b"Mozilla/5.0 (X11; Linux)"), "Mozilla/5.0 (X11; Linux)");
    // Valid multi-byte UTF-8 survives.
    assert_eq!(escape("Firefox/Café".as_bytes()), "Firefox/Café");
}

#[test]
fn escape_neutralizes_crlf_injection() {
    // A forged log line smuggled through a header value must not break out
    // of its quoted field.
    let evil = b"ua\r\n1.2.3.4 - - [x] \"GET /admin\" 200 0";
    let escaped = escape(evil);
    assert!(!escaped.contains('\r'));
    assert!(!escaped.contains('\n'));
    assert!(escaped.starts_with("ua\\x0d\\x0a"));
}

#[test]
fn escape_quotes_and_backslashes() {
    // The `"` delimiters and `\` (the escape char itself) are escaped so
    // the field stays unambiguous.
    assert_eq!(escape(br#"a"b\c"#), "a\\\"b\\\\c");
}

#[test]
fn escape_control_bytes_become_hex() {
    assert_eq!(escape(b"\x00\x1f\x7f"), "\\x00\\x1f\\x7f");
}

#[test]
fn line_has_the_combined_form() {
    let e = Exchange {
        remote: "10.0.0.1",
        method: b"GET",
        target: b"/a?b=\"c\"",
        status: 200,
        bytes: 5,
        referer: None,
        user_agent: Some(b"curl\n"),
    };
    assert_eq!(
        log_line(784_111_777, &e),
        "10.0.0.1 - - [06/Nov/1994:08:49:37 +0000] \"GET /a?b=\\\"c\\\" HTTP/1.1\" 200 5 \"\" \"curl\\x0a\"\n"
    );
}

#[test]
fn times_are_written_in_utc() {
    assert_eq!(format_clf_time(0), "01/Jan/1970:00:00:00 +0000");
}

#[test]
fn lost_lines_are_counted() {
    assert_eq!(
        dropped_notice(12),
        "#buran: dropped 12 access log line(s) under backpressure\n"
    );
}

#[test]
fn invalid_utf8_is_replaced_before_escaping() {
    assert_eq!(escape(b"a\xffb"), "a\u{fffd}b");
    assert_eq!(escape_text("x\u{85}"), "x\\xc2\\x85");
}

#[test]
fn escaped_texts_can_be_told_apart() {
    // Texts that look like the escaped forms of others.
    let texts = ["a\nb", "a\\x0ab", "a\\nb", "a\u{85}b", "a\\xc2\\x85b", "a\"b", "a\\\"b", "a", ""];
    for (i, a) in texts.iter().enumerate() {
        for b in &texts[i + 1..] {
            assert_ne!(escape(a.as_bytes()), escape(b.as_bytes()));
        }
    }
    assert_eq!(escape("a\u{85}b".as_bytes()), "a\\xc2\\x85b");
}

#[test]
fn quotes_are_always_escaped() {
    for text in ["\"", "\\\"", "\\\\\"", "a\"b\\\\\"", "\n\""] {
        let escaped: Vec<char> = escape_text(text).chars().collect();
        for (i, _) in escaped.iter().enumerate().filter(|(_, c)| **c == '"') {
            let run = escaped[..i].iter().rev().take_while(|c| **c == '\\').count();
            assert_eq!(run % 2, 1, "{text}");
        }
    }
}
