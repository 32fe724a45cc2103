use sentinel::config::defaults::default_config;
use sentinel::config::loader::{parse_config, read_config, select_config, ConfigError, TomlTable, TomlValue};
use sentinel::config::schema::Config;
use sentinel::matcher::classifier::Severity;

fn text(s: &str) -> TomlValue {
    TomlValue::Text(s.to_string())
}

fn table(entries: Vec<(&str, TomlValue)>) -> TomlValue {
    TomlValue::Table(TomlTable {
        entries: entries.into_iter().map(|(k, v)| (k.to_string(), v)).collect(),
    })
}

fn doc(entries: Vec<(&str, TomlValue)>) -> TomlTable {
    TomlTable {
        entries: entries.into_iter().map(|(k, v)| (k.to_string(), v)).collect(),
    }
}

fn filters(c: &Config) -> Vec<(String, Severity)> {
    c.filters.iter().map(|f| (f.pattern.clone(), f.severity)).collect()
}

#[test]
fn defaults_are_lowercase_and_ordered() {
    let c = default_config();
    assert_eq!(c.filters.len(), 43);
    assert_eq!(c.filters[0].pattern, "panic");
    assert_eq!(c.filters[0].severity, Severity::Critical);
    assert_eq!(c.filters[10].pattern, "error");
    assert_eq!(c.filters[10].severity, Severity::Error);
    assert_eq!(c.filters[28].pattern, "warn");
    assert_eq!(c.filters[28].severity, Severity::Warn);
    assert_eq!(c.filters[42].pattern, "built");
    assert_eq!(c.filters[42].severity, Severity::Info);
    for f in &c.filters {
        assert!(!f.pattern.is_empty());
        assert_eq!(f.pattern, f.pattern.to_ascii_lowercase());
    }
}

#[test]
fn default_config_trait_is_empty() {
    let c = Config::default();
    assert!(c.filters.is_empty());
}

#[test]
fn pattern_defs_follow_filters() {
    let c = default_config();
    let defs = c.to_pattern_defs();
    assert_eq!(defs.len(), c.filters.len());
    for (d, f) in defs.iter().zip(c.filters.iter()) {
        assert_eq!(d.pattern, f.pattern);
        assert_eq!(d.severity, f.severity);
    }
}

#[test]
fn parse_readme_example() {
    let d = doc(vec![(
        "filters",
        table(vec![
            ("error", table(vec![("pattern", text("error")), ("severity", text("error"))])),
            ("my_alert", table(vec![("pattern", text("PAYMENT_FAILED")), ("severity", text("critical"))])),
            ("slow_query", table(vec![("pattern", text("slow query")), ("severity", text("warn"))])),
        ]),
    )]);
    let c = parse_config(&d).ok().unwrap();
    assert_eq!(
        filters(&c),
        vec![
            ("error".to_string(), Severity::Error),
            ("payment_failed".to_string(), Severity::Critical),
            ("slow query".to_string(), Severity::Warn),
        ]
    );
}

#[test]
fn parse_severity_defaults_to_warn() {
    let d = doc(vec![(
        "filters",
        table(vec![
            ("a", table(vec![("pattern", text("x"))])),
            ("b", table(vec![("pattern", text("y")), ("severity", TomlValue::Other)])),
        ]),
    )]);
    let c = parse_config(&d).ok().unwrap();
    assert_eq!(filters(&c), vec![("x".to_string(), Severity::Warn), ("y".to_string(), Severity::Warn)]);
}

#[test]
fn parse_severity_names_any_case() {
    let d = doc(vec![(
        "filters",
        table(vec![
            ("a", table(vec![("pattern", text("a")), ("severity", text("INFO"))])),
            ("b", table(vec![("pattern", text("b")), ("severity", text("Warning"))])),
            ("c", table(vec![("pattern", text("c")), ("severity", text("Error"))])),
            ("d", table(vec![("pattern", text("d")), ("severity", text("FATAL"))])),
            ("e", table(vec![("pattern", text("e")), ("severity", text("critical"))])),
        ]),
    )]);
    let c = parse_config(&d).ok().unwrap();
    let sev: Vec<Severity> = c.filters.iter().map(|f| f.severity).collect();
    assert_eq!(
        sev,
        vec![Severity::Info, Severity::Warn, Severity::Error, Severity::Critical, Severity::Critical]
    );
}

#[test]
fn parse_empty_filters_table() {
    let d = doc(vec![("filters", table(vec![]))]);
    assert!(parse_config(&d).ok().unwrap().filters.is_empty());
}

#[test]
fn parse_missing_filters() {
    let d = doc(vec![("other", table(vec![]))]);
    assert!(matches!(parse_config(&d), Err(ConfigError::MissingFilters)));
}

#[test]
fn parse_filters_not_a_table() {
    let d = doc(vec![("filters", text("error"))]);
    assert!(matches!(parse_config(&d), Err(ConfigError::FiltersNotTable)));
}

#[test]
fn parse_filter_not_a_table() {
    let d = doc(vec![("filters", table(vec![("a", text("error"))]))]);
    assert!(matches!(parse_config(&d), Err(ConfigError::FilterNotTable)));
}

#[test]
fn parse_missing_pattern() {
    let d = doc(vec![(
        "filters",
        table(vec![("a", table(vec![("severity", text("error"))]))]),
    )]);
    assert!(matches!(parse_config(&d), Err(ConfigError::MissingPattern)));
    let d2 = doc(vec![(
        "filters",
        table(vec![("a", table(vec![("pattern", TomlValue::Other)]))]),
    )]);
    assert!(matches!(parse_config(&d2), Err(ConfigError::MissingPattern)));
}

#[test]
fn parse_unknown_severity_is_reported_lowercase() {
    let d = doc(vec![(
        "filters",
        table(vec![
            ("a", table(vec![("pattern", text("a")), ("severity", text("error"))])),
            ("b", table(vec![("pattern", text("b")), ("severity", text("LOUD"))])),
            ("c", table(vec![("pattern", text("c")), ("severity", text("nope"))])),
        ]),
    )]);
    match parse_config(&d) {
        Err(ConfigError::UnknownSeverity(s)) => assert_eq!(s, "loud"),
        _ => panic!("expected an unknown severity"),
    }
}

#[test]
fn read_config_parses_toml_text() {
    let text = "[filters.db]\npattern = \"Connection REFUSED\"\nseverity = \"Fatal\"\n\n[filters.slow]\npattern = \"slow query\"\n";
    let c = read_config(text).unwrap();
    // Entries come in the table's key order.
    assert_eq!(
        filters(&c),
        vec![
            ("connection refused".to_string(), Severity::Critical),
            ("slow query".to_string(), Severity::Warn),
        ]
    );
}

#[test]
fn read_config_rejects_invalid_toml() {
    match read_config("[filters\npattern = ") {
        Err(ConfigError::Toml(msg)) => assert!(!msg.is_empty()),
        _ => panic!("expected a TOML error"),
    }
}

#[test]
fn read_config_reports_document_errors() {
    assert!(matches!(read_config("title = \"x\"\n"), Err(ConfigError::MissingFilters)));
    assert!(matches!(read_config("filters = 3\n"), Err(ConfigError::FiltersNotTable)));
    assert!(matches!(read_config("[filters]\na = 1\n"), Err(ConfigError::FilterNotTable)));
    assert!(matches!(
        read_config("[filters.a]\nseverity = \"info\"\n"),
        Err(ConfigError::MissingPattern)
    ));
    match read_config("[filters.a]\npattern = \"x\"\nseverity = \"LOUD\"\n") {
        Err(e) => assert_eq!(e.message(), "unknown severity 'loud'"),
        Ok(_) => panic!("expected an unknown severity"),
    }
}

#[test]
fn error_messages() {
    assert_eq!(ConfigError::MissingFilters.message(), "missing [filters] section");
    assert_eq!(ConfigError::FiltersNotTable.message(), "[filters] must be a TOML table");
    assert_eq!(ConfigError::FilterNotTable.message(), "each filter entry must be a TOML table");
    assert_eq!(
        ConfigError::MissingPattern.message(),
        "'pattern' key is required and must be a string"
    );
    assert_eq!(ConfigError::Toml("bad".to_string()).message(), "bad");
}

#[test]
fn select_config_takes_first_valid_source() {
    let sources = vec![
        "not toml [".to_string(),
        "[other]\n".to_string(),
        "[filters.x]\npattern = \"Boom\"\nseverity = \"error\"\n".to_string(),
        "[filters.y]\npattern = \"never\"\n".to_string(),
    ];
    let (c, errors) = select_config(&sources);
    assert_eq!(filters(&c), vec![("boom".to_string(), Severity::Error)]);
    assert_eq!(errors.len(), 2);
    assert!(matches!(errors[0], ConfigError::Toml(_)));
    assert!(matches!(errors[1], ConfigError::MissingFilters));
}

#[test]
fn select_config_falls_back_to_defaults() {
    let (c, errors) = select_config(&[]);
    assert_eq!(filters(&c), filters(&default_config()));
    assert!(errors.is_empty());
    let (c, errors) = select_config(&["x = ".to_string()]);
    assert_eq!(filters(&c), filters(&default_config()));
    assert_eq!(errors.len(), 1);
}
