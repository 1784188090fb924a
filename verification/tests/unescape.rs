use dataflow::string_literals::{unesacpe_string, SourceMap, StringLiteral};

#[test]
fn unescape_newline() {
    assert_eq!(unesacpe_string("a\\nb"), "a\nb");
}

#[test]
fn unescape_tab_and_quote() {
    assert_eq!(unesacpe_string("x\\ty"), "x\ty");
    assert_eq!(unesacpe_string("say \\\"hi\\\""), "say \"hi\"");
}

#[test]
fn unescape_backslash() {
    // two raw backslashes collapse to one
    assert_eq!(unesacpe_string("a\\\\b"), "a\\b");
}

#[test]
fn unescape_backslash_before_n_is_taken_first() {
    // the newline pass runs before the backslash pass, so the raw text
    // backslash-backslash-n comes out as a lone newline
    assert_eq!(unesacpe_string("\\\\n"), "\n");
}

#[test]
fn unescape_line_continuations() {
    assert_eq!(unesacpe_string("a\\\nb"), "a\nb");
    assert_eq!(unesacpe_string("a\\\r\nb"), "a\r\nb");
}

#[test]
fn unescape_empty_and_plain() {
    assert_eq!(unesacpe_string(""), "");
    assert_eq!(unesacpe_string("plain"), "plain");
}

#[test]
fn literals_round_trip_through_the_source_map() {
    let mut sm = SourceMap::new();
    let a = sm.intern(String::from("first\\nline"));
    let b = sm.intern(String::from("second"));
    assert_eq!(StringLiteral::global_count(&sm), 2);
    assert_eq!(a.raw_contents(&sm), "first\\nline");
    assert_eq!(b.raw_contents(&sm), "second");
    assert_eq!(a.unescaped_contents(&sm), "first\nline");
    let n = a.with_raw_contents(&sm, |s: &str| s.len());
    assert_eq!(n, 11);
}
