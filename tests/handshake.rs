use sidecar_supervisor::handshake::{
    contains_marker, discover_port, is_space_char, last_token, parse_port, scan_line, Discovery,
    Handshake, LineVerdict, ScanState, MARKER,
};

fn lines(text: &[&str]) -> Vec<String> {
    text.iter().map(|l| l.to_string()).collect()
}

#[test]
fn parse_port_reads_plain_decimal() {
    assert_eq!(parse_port("4455"), Some(4455));
    assert_eq!(parse_port("0"), Some(0));
    assert_eq!(parse_port("65535"), Some(65535));
    assert_eq!(parse_port("007"), Some(7));
}

#[test]
fn parse_port_accepts_one_plus_sign() {
    assert_eq!(parse_port("+80"), Some(80));
    assert_eq!(parse_port("++80"), None);
    assert_eq!(parse_port("+"), None);
}

#[test]
fn parse_port_rejects_non_ports() {
    assert_eq!(parse_port(""), None);
    assert_eq!(parse_port("-1"), None);
    assert_eq!(parse_port("12a"), None);
    assert_eq!(parse_port("abc"), None);
    assert_eq!(parse_port("65536"), None);
    assert_eq!(parse_port("99999999999999999999"), None);
    assert_eq!(parse_port("70000x"), None);
    assert_eq!(parse_port(" 80"), None);
}

#[test]
fn parse_port_agrees_with_std() {
    for t in ["1", "+1", "-1", "", "+", "65535", "65536", "0065535", "1_0", "５"] {
        assert_eq!(parse_port(t), t.parse::<u16>().ok(), "token {:?}", t);
    }
}

#[test]
fn last_token_takes_last_run() {
    assert_eq!(last_token("a b  c  "), Some("c"));
    assert_eq!(last_token("Server starting on port 5173"), Some("5173"));
    assert_eq!(last_token("x\tyz\n"), Some("yz"));
    assert_eq!(last_token("single"), Some("single"));
}

#[test]
fn last_token_of_blank_line_is_none() {
    assert_eq!(last_token(""), None);
    assert_eq!(last_token("  \t "), None);
}

#[test]
fn last_token_splits_on_unicode_space() {
    assert_eq!(last_token("port\u{3000}5173"), Some("5173"));
    assert_eq!(last_token("port\u{a0}5173\u{2029}"), Some("5173"));
    for line in ["a\u{85}b", "a\u{200b}b", "é ü", "x\u{1680}y z\u{202f}"] {
        assert_eq!(last_token(line), line.split_whitespace().last(), "line {:?}", line);
    }
}

#[test]
fn is_space_char_matches_std() {
    for c in ['\t', '\n', '\u{b}', '\r', ' ', '\u{85}', '\u{a0}', '\u{2000}', '\u{200a}',
        '\u{200b}', '\u{3000}', 'a', '0', '\u{180e}', '\u{feff}'] {
        assert_eq!(is_space_char(c), c.is_whitespace(), "char {:?}", c);
    }
}

#[test]
fn marker_is_found_anywhere_in_line() {
    assert!(contains_marker("Server starting on port 1"));
    assert!(contains_marker("[INFO] Server starting on port"));
    assert!(contains_marker(MARKER));
    assert!(!contains_marker("Server starting on"));
    assert!(!contains_marker("server starting on port 1"));
    assert!(!contains_marker(""));
}

#[test]
fn scan_line_verdicts() {
    assert_eq!(scan_line("INFO Server starting on port 5173"), LineVerdict::Ready(Some(5173)));
    assert_eq!(scan_line("Server starting on port abc"), LineVerdict::Ready(None));
    assert_eq!(scan_line("Server starting on port"), LineVerdict::Ready(None));
    assert_eq!(scan_line("Server starting on port 70000"), LineVerdict::Ready(None));
    assert_eq!(scan_line("Initializing..."), LineVerdict::Unrelated);
}

#[test]
fn readiness_line_with_any_prefix_gives_its_port() {
    for (prefix, port) in [("", 0u16), ("2024-01-01 INFO", 5173), ("x", 65535), ("é", 1)] {
        let line = format!("{} Server starting on port {}", prefix, port);
        assert_eq!(scan_line(&line), LineVerdict::Ready(Some(port)));
        let d = discover_port(&lines(&["booting", &line]));
        assert_eq!(d, Discovery { port: Some(port), lines_read: 2 });
    }
}

#[test]
fn closed_stream_without_marker_discovers_nothing() {
    let d = discover_port(&lines(&["Initializing...", "loading models", ""]));
    assert_eq!(d, Discovery { port: None, lines_read: 3 });
    let empty = discover_port(&Vec::new());
    assert_eq!(empty, Discovery { port: None, lines_read: 0 });
}

#[test]
fn malformed_port_stops_the_scan() {
    let d = discover_port(&lines(&[
        "Initializing...",
        "Server starting on port eighty",
        "Server starting on port 4455",
    ]));
    assert_eq!(d, Discovery { port: None, lines_read: 2 });
}

#[test]
fn only_first_readiness_line_counts() {
    let d = discover_port(&lines(&[
        "Server starting on port 4455",
        "Server starting on port 5000",
    ]));
    assert_eq!(d, Discovery { port: Some(4455), lines_read: 1 });
}

#[test]
fn handshake_stops_asking_after_readiness() {
    let mut h = Handshake::new();
    assert_eq!(h.state(), ScanState::Scanning);
    assert!(h.feed("Initializing..."));
    assert!(!h.is_done());
    assert_eq!(h.port(), None);
    assert!(!h.feed("Server starting on port 4455"));
    assert!(h.is_done());
    assert_eq!(h.port(), Some(4455));
    assert!(!h.feed("Server starting on port 9999"));
    assert_eq!(h.state(), ScanState::Ready(Some(4455)));
}

#[test]
fn handshake_with_malformed_port_ends_empty() {
    let mut h = Handshake::new();
    assert!(!h.feed("Server starting on port ???"));
    assert_eq!(h.state(), ScanState::Ready(None));
    assert_eq!(h.port(), None);
}
