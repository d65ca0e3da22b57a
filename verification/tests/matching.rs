use buran::router::addr::{parse_addr, Addr};
use buran::router::matching::{CidrSet, MatchError, PatternSet};

fn set(patterns: &[&str], ci: bool) -> PatternSet {
    PatternSet::compile(patterns, ci).unwrap()
}

#[test]
fn exact_match() {
    let s = set(&["GET"], false);
    assert!(s.matches(b"GET", false));
    assert!(!s.matches(b"POST", false));
}

#[test]
fn wildcard_shapes() {
    assert!(set(&["*.php"], false).matches(b"index.php", false)); // suffix
    assert!(!set(&["*.php"], false).matches(b"index.html", false));
    assert!(set(&["/api/*"], false).matches(b"/api/users", false)); // prefix
    assert!(set(&["a*z"], false).matches(b"abcz", false)); // circumfix
    assert!(!set(&["a*z"], false).matches(b"abc", false));
    assert!(set(&["*"], false).matches(b"anything", false)); // any
}

#[test]
fn circumfix_needs_room_for_both_ends() {
    // `pre*suf` must not double-count overlapping bytes.
    assert!(!set(&["ab*bc"], false).matches(b"abc", false));
    assert!(set(&["ab*bc"], false).matches(b"abXbc", false));
}

#[test]
fn multi_wildcard_degrades_to_regex() {
    let s = set(&["/a/*/b/*"], false);
    assert!(s.matches(b"/a/x/b/y", false));
    assert!(!s.matches(b"/a/x/c/y", false));
}

#[test]
fn regex_pattern() {
    let s = set(&["~^/user/[0-9]+$"], false);
    assert!(s.matches(b"/user/42", false));
    assert!(!s.matches(b"/user/abc", false));
}

#[test]
fn negation_excludes() {
    let s = set(&["!*.php"], false);
    assert!(s.matches(b"index.html", false)); // only-negative set matches by default
    assert!(!s.matches(b"index.php", false));
}

#[test]
fn positive_and_negative_combined() {
    let s = set(&["/api/*", "!/api/private*"], false);
    assert!(s.matches(b"/api/users", false));
    assert!(!s.matches(b"/api/private/keys", false));
    assert!(!s.matches(b"/other", false)); // no positive hit
}

#[test]
fn empty_positive_set_matches_all() {
    let s = set(&[], false);
    assert!(s.matches(b"whatever", false));
}

#[test]
fn case_insensitive_matching() {
    // Pattern is lowercased at compile time; the caller lowercases the
    // value by passing the same case_insensitive flag.
    let s = set(&["Example.TEST"], true);
    assert!(s.matches(b"EXAMPLE.test", true));
    assert!(s.matches(b"example.test", true));
    // Case-sensitive set keeps the original casing and won't cross-match.
    let cs = set(&["Example"], false);
    assert!(!cs.matches(b"example", false));
}

fn cidr(entries: &[&str]) -> CidrSet {
    CidrSet::compile(entries).unwrap()
}

fn ip(s: &str) -> Addr {
    parse_addr(s.as_bytes()).unwrap()
}

#[test]
fn cidr_exact_and_block_v4() {
    assert!(cidr(&["10.0.0.1"]).matches(&ip("10.0.0.1")));
    assert!(!cidr(&["10.0.0.1"]).matches(&ip("10.0.0.2")));
    let block = cidr(&["10.0.0.0/24"]);
    assert!(block.matches(&ip("10.0.0.200")));
    assert!(!block.matches(&ip("10.0.1.1")));
}

#[test]
fn cidr_non_byte_aligned_prefix() {
    let block = cidr(&["192.168.0.0/20"]);
    assert!(block.matches(&ip("192.168.15.1")));
    assert!(!block.matches(&ip("192.168.16.1")));
}

#[test]
fn cidr_v6_block() {
    let block = cidr(&["2001:db8::/32"]);
    assert!(block.matches(&ip("2001:db8::1")));
    assert!(!block.matches(&ip("2001:db9::1")));
}

#[test]
fn cidr_family_mismatch_never_matches() {
    assert!(!cidr(&["10.0.0.0/8"]).matches(&ip("::1")));
}

#[test]
fn cidr_negation_and_empty() {
    assert!(cidr(&[]).matches(&ip("1.2.3.4"))); // empty = allow all
    let s = cidr(&["10.0.0.0/8", "!10.0.0.1"]);
    assert!(s.matches(&ip("10.1.1.1")));
    assert!(!s.matches(&ip("10.0.0.1")));
}

#[test]
fn cidr_rejects_bad_input() {
    assert!(CidrSet::compile(&["notanip"]).is_err());
    assert!(CidrSet::compile(&["10.0.0.0/40"]).is_err());
}

#[test]
fn errors_name_the_entry() {
    assert_eq!(PatternSet::compile(&["ok", "~("], false).err(), Some(MatchError::BadRegex(1)));
    assert_eq!(CidrSet::compile(&["10.0.0.1", "x/8"]).err(), Some(MatchError::BadAddress(1)));
    assert_eq!(CidrSet::compile(&["10.0.0.0/x"]).err(), Some(MatchError::BadPrefix(0)));
}

#[test]
fn wildcards_escape_what_regexes_treat_specially() {
    let s = set(&["/a.b/*/c+*"], false);
    assert!(s.matches(b"/a.b/x/c+1", false));
    assert!(!s.matches(b"/aXb/x/c+1", false));
    assert!(!s.matches(b"/a.b/x/cc1", false));
}

#[test]
fn addresses_parse_as_documented() {
    assert_eq!(ip("1.2.3.4"), Addr::V4([1, 2, 3, 4]));
    assert_eq!(ip("::1"), Addr::V6([0, 0, 0, 0, 0, 0, 0, 0, 0, 0, 0, 0, 0, 0, 0, 1]));
    assert_eq!(
        ip("::ffff:1.2.3.4"),
        Addr::V6([0, 0, 0, 0, 0, 0, 0, 0, 0, 0, 255, 255, 1, 2, 3, 4])
    );
    assert_eq!(parse_addr(b"1.2.3"), None);
    assert_eq!(parse_addr(b"01.2.3.4"), None);
    assert_eq!(parse_addr(b"1::2::3"), None);
}
