use buran::router::uri::{civil_from_days, http_date, normalize_path, percent_decode};

fn norm(p: &str) -> String {
    String::from_utf8(normalize_path(p.as_bytes())).unwrap()
}

#[test]
fn normalize_keeps_plain_paths() {
    assert_eq!(norm("/a/b/c"), "/a/b/c");
    assert_eq!(norm("/"), "/");
}

#[test]
fn normalize_collapses_dot_segments() {
    assert_eq!(norm("/a/./b"), "/a/b");
    assert_eq!(norm("/a//b"), "/a/b");
    // Trailing slash follows the original input, not the popped segment.
    assert_eq!(norm("/a/b/.."), "/a");
    assert_eq!(norm("/a/b/../"), "/a/");
    assert_eq!(norm("/a/b/../c"), "/a/c");
}

#[test]
fn normalize_cannot_escape_root() {
    // `..` popping past the root is absorbed, never climbs above `/`.
    assert_eq!(norm("/../../etc/passwd"), "/etc/passwd");
    assert_eq!(norm("/a/../../b"), "/b");
}

#[test]
fn normalize_preserves_trailing_slash() {
    assert_eq!(norm("/a/b/"), "/a/b/");
    assert_eq!(norm("/a/"), "/a/");
}

#[test]
fn normalize_decodes_before_resolving() {
    // %2e%2e is `..` after decode and must still be resolved on the stack.
    assert_eq!(norm("/a/%2e%2e/b"), "/b");
    assert_eq!(norm("/foo%2Fbar"), "/foo/bar");
}

#[test]
fn normalize_surfaces_decoded_control_bytes() {
    // Load-bearing for the http1 layer's control-byte reject (response-
    // splitting defence): percent-encoded CR/LF/NUL in the raw target — which
    // the head parser accepts as valid target bytes — decode to real control bytes
    // here, so the caller must reject them before they reach a header/$_SERVER.
    let split = normalize_path(b"/foo%0d%0aSet-Cookie:%20x");
    assert!(split.contains(&b'\r') && split.contains(&b'\n'));
    assert!(normalize_path(b"/a%00b").contains(&0));
    // A clean path carries no controls, so the reject never fires on it.
    assert!(!normalize_path(b"/a/b/c").iter().any(|&b| b < 0x20 || b == 0x7f));
}

#[test]
fn percent_decode_valid_and_invalid() {
    assert_eq!(percent_decode(b"a%20b"), b"a b");
    assert_eq!(percent_decode(b"%41%42"), b"AB");
    // Invalid hex is left verbatim.
    assert_eq!(percent_decode(b"%zz"), b"%zz");
    // Truncated escape at end of input.
    assert_eq!(percent_decode(b"abc%2"), b"abc%2");
    assert_eq!(percent_decode(b"%"), b"%");
}

#[test]
fn http_date_matches_rfc_example() {
    // RFC 9110 sample: 784111777 == Sun, 06 Nov 1994 08:49:37 GMT.
    assert_eq!(http_date(784_111_777), "Sun, 06 Nov 1994 08:49:37 GMT");
    // Epoch itself.
    assert_eq!(http_date(0), "Thu, 01 Jan 1970 00:00:00 GMT");
}

#[test]
fn civil_from_days_known_points() {
    assert_eq!(civil_from_days(0), (1970, 1, 1));
    // 2000-03-01 is 11017 days after the epoch.
    assert_eq!(civil_from_days(11_017), (2000, 3, 1));
    // Leap day.
    assert_eq!(civil_from_days(11_016), (2000, 2, 29));
}

#[test]
fn normalizing_twice_changes_nothing_without_escapes() {
    for p in ["/a/../b/./c//d/", "/..", "/a/b/../../", "/x"] {
        assert_eq!(norm(&norm(p)), norm(p));
    }
}

#[test]
fn civil_dates_before_the_epoch() {
    assert_eq!(civil_from_days(-1), (1969, 12, 31));
    assert_eq!(civil_from_days(-719_468), (0, 3, 1));
}
