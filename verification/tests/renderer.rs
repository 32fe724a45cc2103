use sentinel::matcher::classifier::{MatchResult, PatternDatabase, PatternDef, Severity};
use sentinel::renderer::ansi::{bell, color_code, reset, should_beep};
use sentinel::renderer::Renderer;
use sentinel::runtime::passthrough::Passthrough;

fn db() -> PatternDatabase {
    PatternDatabase::from_defs(&[
        PatternDef { pattern: "error".to_string(), severity: Severity::Error },
        PatternDef { pattern: "ready".to_string(), severity: Severity::Info },
        PatternDef { pattern: "warn".to_string(), severity: Severity::Warn },
        PatternDef { pattern: "fatal".to_string(), severity: Severity::Critical },
    ])
}

#[test]
fn colour_codes_per_severity() {
    assert_eq!(color_code(Severity::Info), b"\x1b[1;96m".to_vec());
    assert_eq!(color_code(Severity::Warn), b"\x1b[1;93m".to_vec());
    assert_eq!(color_code(Severity::Error), b"\x1b[1;97;41m".to_vec());
    assert_eq!(color_code(Severity::Critical), b"\x1b[1;93;41m".to_vec());
    assert_eq!(reset(), b"\x1b[0m".to_vec());
    assert_eq!(bell(), b"\x07".to_vec());
}

#[test]
fn only_error_and_critical_beep() {
    assert!(!should_beep(Severity::Info));
    assert!(!should_beep(Severity::Warn));
    assert!(should_beep(Severity::Error));
    assert!(should_beep(Severity::Critical));
}

#[test]
fn unmatched_line_passes_through() {
    let mut r = Renderer::new();
    r.write_line(b"\x1b[32mplain\x1b[0m", None, &db());
    assert_eq!(r.flush(), b"\x1b[32mplain\x1b[0m\n".to_vec());
    assert!(r.flush().is_empty());
}

#[test]
fn matched_error_line_beeps_and_highlights() {
    let mut r = Renderer::new();
    r.write_line(b"\x1b[31mError\x1b[0m: x", Some(MatchResult { pattern_id: 0, offset: 0 }), &db());
    assert_eq!(r.flush(), b"\x07\x1b[1;97;41mError: x\x1b[0m\n".to_vec());
}

#[test]
fn matched_info_line_does_not_beep() {
    let mut r = Renderer::new();
    r.write_line(b"server ready", Some(MatchResult { pattern_id: 1, offset: 7 }), &db());
    assert_eq!(r.flush(), b"\x1b[1;96mserver ready\x1b[0m\n".to_vec());
}

#[test]
fn matched_critical_line() {
    let mut r = Renderer::new();
    r.write_line(b"Fatal", Some(MatchResult { pattern_id: 3, offset: 0 }), &db());
    assert_eq!(r.flush(), b"\x07\x1b[1;93;41mFatal\x1b[0m\n".to_vec());
}

#[test]
fn raw_writes_are_kept_in_order() {
    let mut r = Renderer::new();
    r.write_raw(b"ab");
    r.write_raw(b"");
    r.write_raw(b"c");
    assert_eq!(r.flush(), b"abc".to_vec());
}

#[test]
fn passthrough_collects_unchanged() {
    let mut p = Passthrough::new();
    p.write_all(b"\x1b[1mhi\n");
    p.write_all(b"there");
    assert_eq!(p.flush(), b"\x1b[1mhi\nthere".to_vec());
    assert!(p.flush().is_empty());
}
