use sentinel::matcher::aho::{AhoMatcher, MatcherError};
use sentinel::matcher::classifier::{MatchResult, PatternDatabase, PatternDef, Severity};
use sentinel::matcher::simple::SimpleMatcher;
use sentinel::matcher::threshold::Threshold;
use sentinel::matcher::Matcher;

fn db(patterns: &[(&str, Severity)]) -> PatternDatabase {
    let defs: Vec<PatternDef> = patterns
        .iter()
        .map(|(p, s)| PatternDef { pattern: p.to_string(), severity: *s })
        .collect();
    PatternDatabase::from_defs(&defs)
}

#[test]
fn database_assigns_consecutive_ids() {
    let d = db(&[("panic", Severity::Critical), ("warn", Severity::Warn), ("ready", Severity::Info)]);
    assert_eq!(d.len(), 3);
    assert!(!d.is_empty());
    assert_eq!(d.pattern(0), "panic");
    assert_eq!(d.pattern(2), "ready");
    assert_eq!(d.severity(0), Severity::Critical);
    assert_eq!(d.severity(1), Severity::Warn);
    assert_eq!(d.severity(2), Severity::Info);
}

#[test]
fn database_empty() {
    let d = db(&[]);
    assert!(d.is_empty());
    assert_eq!(d.len(), 0);
}

#[test]
fn simple_matcher_finds_leftmost() {
    let m = SimpleMatcher::new("err", 7);
    assert_eq!(m.check(b"no err here, err"), Some(MatchResult { pattern_id: 7, offset: 3 }));
    assert_eq!(m.check(b"nothing"), None);
    assert_eq!(m.check(b""), None);
}

#[test]
fn simple_matcher_empty_pattern_matches_at_zero() {
    let m = SimpleMatcher::new("", 1);
    assert_eq!(m.check(b"abc"), Some(MatchResult { pattern_id: 1, offset: 0 }));
}

#[test]
fn aho_matcher_maps_ids() {
    let pats = vec!["foo".to_string(), "bar".to_string()];
    let m = AhoMatcher::new(&pats, &[10, 20]).unwrap();
    assert_eq!(m.check(b"xxx bar xxx"), Some(MatchResult { pattern_id: 20, offset: 4 }));
    assert_eq!(m.check(b"foo"), Some(MatchResult { pattern_id: 10, offset: 0 }));
    assert_eq!(m.check(b"quux"), None);
}

#[test]
fn aho_matcher_standard_semantics() {
    let pats = vec!["b".to_string(), "abc".to_string(), "abcd".to_string()];
    let m = AhoMatcher::new(&pats, &[0, 1, 2]).unwrap();
    assert_eq!(m.check(b"abcd"), Some(MatchResult { pattern_id: 0, offset: 1 }));
}

#[test]
fn matcher_from_empty_db_never_matches() {
    let m = Matcher::from_db(&db(&[])).unwrap();
    assert!(matches!(m, Matcher::Noop));
    assert_eq!(m.check(b"error"), None);
}

#[test]
fn matcher_lone_empty_pattern_never_matches() {
    let m = Matcher::from_db(&db(&[("", Severity::Error)])).unwrap();
    assert!(matches!(m, Matcher::Noop));
    assert_eq!(m.check(b"anything"), None);
}

#[test]
fn matcher_single_byte_pattern() {
    let m = Matcher::from_db(&db(&[("!", Severity::Warn)])).unwrap();
    assert!(matches!(m, Matcher::SingleByte { byte: b'!', pattern_id: 0 }));
    assert_eq!(m.check(b"hey!!"), Some(MatchResult { pattern_id: 0, offset: 3 }));
    assert_eq!(m.check(b"hey"), None);
}

#[test]
fn matcher_single_pattern_is_simple() {
    let m = Matcher::from_db(&db(&[("payment_failed", Severity::Critical)])).unwrap();
    assert!(matches!(m, Matcher::Simple(_)));
    assert_eq!(
        m.check(b"order 7: payment_failed"),
        Some(MatchResult { pattern_id: 0, offset: 9 })
    );
    assert_eq!(m.check(b"order 7: ok"), None);
}

#[test]
fn matcher_many_patterns_use_automaton() {
    let m = Matcher::from_db(&db(&[
        ("error", Severity::Error),
        ("warn", Severity::Warn),
        ("", Severity::Info),
    ]))
    .unwrap();
    assert!(matches!(m, Matcher::Aho(_)));
    // The empty pattern occurs everywhere once it is one of several.
    assert_eq!(m.check(b"ok").map(|r| r.pattern_id), Some(2));
}

#[test]
fn matcher_many_patterns_reports_an_occurrence() {
    let m = Matcher::from_db(&db(&[("error", Severity::Error), ("warn", Severity::Warn)])).unwrap();
    assert_eq!(m.check(b"a warning"), Some(MatchResult { pattern_id: 1, offset: 2 }));
    assert_eq!(m.check(b"all good"), None);
}

#[test]
fn matcher_error_variant_is_comparable() {
    let e = MatcherError::AutomatonBuild;
    assert_eq!(e, MatcherError::AutomatonBuild);
}

#[test]
fn threshold_counts_up_to_limit() {
    let mut t = Threshold::new(3);
    assert_eq!(t.current, 0);
    assert!(!t.bump());
    assert!(!t.bump());
    assert!(t.bump());
    assert!(t.bump());
    assert_eq!(t.current, 4);
    t.reset();
    assert_eq!(t.current, 0);
    assert_eq!(t.limit, 3);
    assert!(!t.bump());
}

#[test]
fn threshold_zero_limit_reached_at_once() {
    let mut t = Threshold::new(0);
    assert!(t.bump());
}
