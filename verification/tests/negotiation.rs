use minimonitor::{match_str, negotiate, Representation};

#[test]
fn match_str_finds_a_pattern_anywhere() {
    assert!(match_str(b"text/html,application/xhtml+xml", "text/html"));
    assert!(match_str(b"application/xhtml+xml,text/html", "text/html"));
    assert!(match_str(b"a,text/html;q=0.9,b", "text/html"));
    assert!(match_str(b"text/html", "text/html"));
}

#[test]
fn match_str_wants_the_pattern_in_one_piece() {
    assert!(!match_str(b"text/htm", "text/html"));
    assert!(!match_str(b"text/ html", "text/html"));
    assert!(!match_str(b"TEXT/HTML", "text/html"));
    assert!(!match_str(b"", "text/html"));
}

#[test]
fn match_str_finds_the_empty_pattern_everywhere() {
    assert!(match_str(b"anything", ""));
    assert!(match_str(b"", ""));
}

#[test]
fn match_str_takes_bad_utf8_for_the_empty_text() {
    assert!(!match_str(b"text/html\xff", "text/html"));
    assert!(!match_str(b"\xc3(text/html", "text/html"));
    assert!(match_str(b"\xff", ""));
}

#[test]
fn match_str_reads_characters_of_more_than_one_byte() {
    let header = "caf\u{e9} text/html \u{1f980}".as_bytes();
    assert!(match_str(header, "text/html"));
    assert!(match_str(header, "\u{e9} t"));
    assert!(match_str(header, "\u{1f980}"));
    assert!(!match_str(header, "\u{e8}"));
}

#[test]
fn negotiate_reads_the_accept_header() {
    assert_eq!(Representation::Html, negotiate(Some(b"text/html")));
    assert_eq!(Representation::Json, negotiate(Some(b"application/json")));
    assert_eq!(
        Representation::Html,
        negotiate(Some(b"text/html,application/xhtml+xml,*/*;q=0.8"))
    );
}

#[test]
fn negotiate_prefers_html_where_both_are_named() {
    assert_eq!(
        Representation::Html,
        negotiate(Some(b"application/json, text/html"))
    );
}

#[test]
fn negotiate_turns_everything_else_down() {
    assert_eq!(Representation::Unsupported, negotiate(None));
    assert_eq!(Representation::Unsupported, negotiate(Some(b"")));
    assert_eq!(Representation::Unsupported, negotiate(Some(b"*/*")));
    assert_eq!(Representation::Unsupported, negotiate(Some(b"text/plain")));
    assert_eq!(
        Representation::Unsupported,
        negotiate(Some(b"application/json\xff"))
    );
}
