//! Reading the filter configuration out of a parsed TOML document.
use vstd::prelude::*;
use super::schema::{Config, Filter, config_view};
use super::defaults::{default_config, default_filter_table};
use crate::matcher::classifier::Severity;
use crate::scan::{no_ascii_upper, str_bytes};

verus! {

/// A TOML value as far as the configuration reads it.
pub enum TomlValue {
    /// A string.
    Text(String),
    /// A table.
    Table(TomlTable),
    /// Any other kind of value.
    Other,
}

/// A TOML table: its entries in iteration order, keys distinct.
pub struct TomlTable {
    pub entries: Vec<(String, TomlValue)>,
}

/// Why a configuration document was rejected.
#[derive(Debug)]
pub enum ConfigError {
    /// No `[filters]` section.
    MissingFilters,
    /// `filters` is not a table.
    FiltersNotTable,
    /// An entry of `[filters]` is not a table.
    FilterNotTable,
    /// A filter has no `pattern` string.
    MissingPattern,
    /// A filter's `severity`, lowercased, is none of the known names.
    UnknownSeverity(String),
    /// The text is not a TOML document; the parser's message.
    Toml(String),
}

/// The value of a [`ConfigError`].
pub enum ConfigErrorSpec {
    MissingFilters,
    FiltersNotTable,
    FilterNotTable,
    MissingPattern,
    UnknownSeverity(Seq<char>),
    Toml(Seq<char>),
}

impl View for ConfigError {
    type V = ConfigErrorSpec;

    open spec fn view(&self) -> ConfigErrorSpec {
        match self {
            ConfigError::MissingFilters => ConfigErrorSpec::MissingFilters,
            ConfigError::FiltersNotTable => ConfigErrorSpec::FiltersNotTable,
            ConfigError::FilterNotTable => ConfigErrorSpec::FilterNotTable,
            ConfigError::MissingPattern => ConfigErrorSpec::MissingPattern,
            ConfigError::UnknownSeverity(s) => ConfigErrorSpec::UnknownSeverity(s@),
            ConfigError::Toml(m) => ConfigErrorSpec::Toml(m@),
        }
    }
}

/// ASCII lower-casing of one character: `A`..=`Z` map to `a`..=`z`.
pub open spec fn lower_char(c: char) -> char {
    if 'A' <= c <= 'Z' {
        ((c as u32) + 32) as char
    } else {
        c
    }
}

/// ASCII lower-casing of a text.
pub open spec fn lower_chars(s: Seq<char>) -> Seq<char> {
    Seq::new(s.len(), |i: int| lower_char(s[i]))
}

/// `i` is the first entry with key `key`.
pub open spec fn is_key_index(entries: Seq<(String, TomlValue)>, key: Seq<char>, i: int) -> bool {
    &&& 0 <= i < entries.len()
    &&& entries[i].0@ == key
    &&& forall|j: int| 0 <= j < i ==> entries[j].0@ != key
}

/// The value stored under `key`, if any.
pub open spec fn table_get(entries: Seq<(String, TomlValue)>, key: Seq<char>) -> Option<TomlValue> {
    if exists|i: int| is_key_index(entries, key, i) {
        Some(entries[choose|i: int| is_key_index(entries, key, i)].1)
    } else {
        None
    }
}

/// The severity a (lowercased) severity name stands for.
pub open spec fn severity_named(name: Seq<char>) -> Option<Severity> {
    if name == "info"@ {
        Some(Severity::Info)
    } else if name == "warn"@ || name == "warning"@ {
        Some(Severity::Warn)
    } else if name == "error"@ {
        Some(Severity::Error)
    } else if name == "critical"@ || name == "fatal"@ {
        Some(Severity::Critical)
    } else {
        None
    }
}

/// One filter entry: a table with a string `pattern` and an optional string
/// `severity` (default `warn`), both matched case-insensitively; the
/// pattern is stored lowercase.
pub open spec fn parse_filter(v: TomlValue) -> Result<(Seq<char>, Severity), ConfigErrorSpec> {
    match v {
        TomlValue::Table(t) => match table_get(t.entries@, "pattern"@) {
            Some(TomlValue::Text(p)) => {
                let name = match table_get(t.entries@, "severity"@) {
                    Some(TomlValue::Text(s)) => s@,
                    _ => "warn"@,
                };
                match severity_named(lower_chars(name)) {
                    Some(sev) => Ok((lower_chars(p@), sev)),
                    None => Err(ConfigErrorSpec::UnknownSeverity(lower_chars(name))),
                }
            },
            _ => Err(ConfigErrorSpec::MissingPattern),
        },
        _ => Err(ConfigErrorSpec::FilterNotTable),
    }
}

/// All filter entries in order, or the error of the first bad one.
pub open spec fn parse_filters(entries: Seq<(String, TomlValue)>) -> Result<
    Seq<(Seq<char>, Severity)>,
    ConfigErrorSpec,
>
    decreases entries.len(),
{
    if entries.len() == 0 {
        Ok(Seq::empty())
    } else {
        match parse_filters(entries.drop_last()) {
            Ok(fs) => match parse_filter(entries.last().1) {
                Ok(f) => Ok(fs.push(f)),
                Err(e) => Err(e),
            },
            Err(e) => Err(e),
        }
    }
}

/// The configuration a document describes: the entries of its `[filters]`
/// table.
pub open spec fn parse_config_spec(doc: TomlTable) -> Result<Seq<(Seq<char>, Severity)>, ConfigErrorSpec> {
    match table_get(doc.entries@, "filters"@) {
        Some(TomlValue::Table(t)) => parse_filters(t.entries@),
        Some(_) => Err(ConfigErrorSpec::FiltersNotTable),
        None => Err(ConfigErrorSpec::MissingFilters),
    }
}

/// ASCII lower-casing of a string (`str::to_ascii_lowercase`).
///
/// The contract restates the documentation of `str::to_ascii_lowercase`:
/// `A`..=`Z` become `a`..=`z`, every other character is kept.
#[verifier::external_body]
fn to_ascii_lowercase(s: &str) -> (r: String)
    ensures
        r@ == lower_chars(s@),
{
    s.to_ascii_lowercase()
}

/// The value stored under `key`.
fn lookup<'a>(entries: &'a Vec<(String, TomlValue)>, key: &String) -> (r: Option<&'a TomlValue>)
    ensures
        match r {
            Some(v) => table_get(entries@, key@) == Some(*v),
            None => table_get(entries@, key@) is None,
        },
{
    let mut i: usize = 0;
    while i < entries.len()
        invariant
            i <= entries@.len(),
            forall|j: int| 0 <= j < i ==> entries@[j].0@ != key@,
        decreases entries.len() - i,
    {
        if entries[i].0 == *key {
            proof {
                assert(is_key_index(entries@, key@, i as int));
                let c = choose|c: int| is_key_index(entries@, key@, c);
                if c < i {
                    assert(entries@[c].0@ != key@);
                } else if i < c {
                    assert(entries@[i as int].0@ != key@);
                }
            }
            return Some(&entries[i].1);
        }
        i += 1;
    }
    None
}

/// The severity a (lowercased) severity name stands for.
fn severity_from_name(name: &String) -> (r: Option<Severity>)
    ensures
        r == severity_named(name@),
{
    if *name == "info".to_owned() {
        Some(Severity::Info)
    } else if *name == "warn".to_owned() || *name == "warning".to_owned() {
        Some(Severity::Warn)
    } else if *name == "error".to_owned() {
        Some(Severity::Error)
    } else if *name == "critical".to_owned() || *name == "fatal".to_owned() {
        Some(Severity::Critical)
    } else {
        None
    }
}

/// Reads the filters out of a parsed configuration document.
///
/// Every entry of the `[filters]` table must be a table with a string
/// `pattern`; `severity` is optional (default `warn`) and is one of
/// `info`, `warn`/`warning`, `error`, `critical`/`fatal` in any case.
/// Patterns are stored lowercase, since the processor lowercases each line
/// before matching.
pub fn parse_config(doc: &TomlTable) -> (res: Result<Config, ConfigError>)
    ensures
        match parse_config_spec(*doc) {
            Ok(fs) => res matches Ok(c) && config_view(c) == fs,
            Err(e) => res matches Err(err) && err@ == e,
        },
{
    let filters_key = "filters".to_owned();
    let filters_table = match lookup(&doc.entries, &filters_key) {
        Some(TomlValue::Table(t)) => t,
        Some(_) => {
            return Err(ConfigError::FiltersNotTable);
        },
        None => {
            return Err(ConfigError::MissingFilters);
        },
    };
    let pattern_key = "pattern".to_owned();
    let severity_key = "severity".to_owned();
    let mut filter_list: Vec<Filter> = Vec::new();
    let mut i: usize = 0;
    proof {
        assert(filters_table.entries@.take(0) =~= Seq::<(String, TomlValue)>::empty());
        assert(filter_list@.map_values(|f: Filter| super::schema::filter_view(f)) =~= Seq::<
            (Seq<char>, Severity),
        >::empty());
    }
    while i < filters_table.entries.len()
        invariant
            i <= filters_table.entries@.len(),
            parse_config_spec(*doc) == parse_filters(filters_table.entries@),
            parse_filters(filters_table.entries@.take(i as int)) == Ok::<
                Seq<(Seq<char>, Severity)>,
                ConfigErrorSpec,
            >(filter_list@.map_values(|f: Filter| super::schema::filter_view(f))),
            pattern_key@ == "pattern"@,
            severity_key@ == "severity"@,
        decreases filters_table.entries.len() - i,
    {
        let ghost entries = filters_table.entries@;
        proof {
            assert(entries.take(i + 1).drop_last() =~= entries.take(i as int));
            assert(entries.take(i + 1).last() == entries[i as int]);
        }
        let filter_val = &filters_table.entries[i].1;
        let filter = match filter_val {
            TomlValue::Table(t) => t,
            _ => {
                proof {
                    lemma_first_error(entries, i as int);
                }
                return Err(ConfigError::FilterNotTable);
            },
        };
        let pattern = match lookup(&filter.entries, &pattern_key) {
            Some(TomlValue::Text(s)) => s,
            _ => {
                proof {
                    lemma_first_error(entries, i as int);
                }
                return Err(ConfigError::MissingPattern);
            },
        };
        let severity_str: &str = match lookup(&filter.entries, &severity_key) {
            Some(TomlValue::Text(s)) => s.as_str(),
            _ => "warn",
        };
        let lowered = to_ascii_lowercase(severity_str);
        let severity = match severity_from_name(&lowered) {
            Some(s) => s,
            None => {
                proof {
                    lemma_first_error(entries, i as int);
                }
                return Err(ConfigError::UnknownSeverity(lowered));
            },
        };
        // Store patterns lowercase: the processor also lowercases each line
        // before matching, so patterns always match case-insensitively.
        let ghost prev = filter_list@;
        let new_filter = Filter { pattern: to_ascii_lowercase(pattern.as_str()), severity };
        filter_list.push(new_filter);
        i += 1;
        proof {
            assert(filter_list@.map_values(|f: Filter| super::schema::filter_view(f)) =~= prev.map_values(
                |f: Filter| super::schema::filter_view(f),
            ).push(super::schema::filter_view(new_filter)));
        }
    }
    proof {
        assert(filters_table.entries@.take(filters_table.entries@.len() as int)
            =~= filters_table.entries@);
    }
    Ok(Config { filters: filter_list })
}

/// No character of `s` is an ASCII upper-case letter.
pub open spec fn is_lowercase_text(s: Seq<char>) -> bool {
    forall|k: int| 0 <= k < s.len() ==> !('A' <= #[trigger] s[k] <= 'Z')
}

/// Lower-casing leaves no upper-case ASCII letter.
pub proof fn lemma_lower_chars_lowercase(s: Seq<char>)
    ensures
        is_lowercase_text(lower_chars(s)),
{
    assert forall|k: int| 0 <= k < lower_chars(s).len() implies !('A' <= #[trigger] lower_chars(
        s,
    )[k] <= 'Z') by {
        let c = s[k];
        if 'A' <= c <= 'Z' {
            let u = (c as u32) + 32;
            assert(97 <= u <= 122);
            assert(((u as char) as u32) == u);
        }
    }
}

/// The UTF-8 encoding of a character that is not an ASCII upper-case
/// letter holds no ASCII upper-case byte.
proof fn lemma_char_bytes_lowercase(c: char)
    requires
        !('A' <= c <= 'Z'),
    ensures
        no_ascii_upper(vstd::utf8::encode_scalar(c as u32)),
{
    let v = c as u32;
    if vstd::utf8::has_width_1_encoding(v) {
        assert(v <= 0x7F ==> ((v & 0x7F) as u8) as u32 == v) by (bit_vector);
        assert(!(0x41 <= v <= 0x5A));
    } else {
        assert(0xC0u8 | (((v >> 6) & 0x1F) as u8) >= 0x80) by (bit_vector);
        assert(0xE0u8 | (((v >> 12) & 0x0F) as u8) >= 0x80) by (bit_vector);
        assert(0xF0u8 | (((v >> 18) & 0x7) as u8) >= 0x80) by (bit_vector);
        assert(0x80u8 | ((v & 0x3F) as u8) >= 0x80) by (bit_vector);
        assert(0x80u8 | (((v >> 6) & 0x3F) as u8) >= 0x80) by (bit_vector);
        assert(0x80u8 | (((v >> 12) & 0x3F) as u8) >= 0x80) by (bit_vector);
    }
}

/// Law: lowercase text has lowercase UTF-8 bytes, so a lowercase pattern
/// is searched for as bytes with no upper-case ASCII letter.
pub proof fn lemma_lowercase_text_bytes(s: Seq<char>)
    requires
        is_lowercase_text(s),
    ensures
        no_ascii_upper(str_bytes(s)),
    decreases s.len(),
{
    if s.len() > 0 {
        let rest = s.drop_first();
        assert forall|k: int| 0 <= k < rest.len() implies !('A' <= #[trigger] rest[k] <= 'Z') by {
            assert(rest[k] == s[k + 1]);
        }
        lemma_lowercase_text_bytes(rest);
        assert(!('A' <= s[0] <= 'Z'));
        lemma_char_bytes_lowercase(s[0]);
        let head = vstd::utf8::encode_scalar(s[0] as u32);
        assert(str_bytes(s) == head + str_bytes(rest));
        assert forall|k: int| 0 <= k < str_bytes(s).len() implies !(0x41 <= #[trigger] str_bytes(
            s,
        )[k] <= 0x5A) by {
            if k < head.len() {
                assert(str_bytes(s)[k] == head[k]);
            } else {
                assert(str_bytes(s)[k] == str_bytes(rest)[k - head.len()]);
            }
        }
    }
}

/// Law: every pattern a configuration document yields is lowercase, so that
/// it matches the lowercased lines whatever their case.
pub proof fn lemma_parsed_patterns_lowercase(entries: Seq<(String, TomlValue)>)
    ensures
        parse_filters(entries) matches Ok(fs) ==> forall|i: int|
            0 <= i < fs.len() ==> is_lowercase_text(#[trigger] fs[i].0),
    decreases entries.len(),
{
    if entries.len() > 0 {
        lemma_parsed_patterns_lowercase(entries.drop_last());
        if let TomlValue::Table(t) = entries.last().1 {
            if let Some(TomlValue::Text(p)) = table_get(t.entries@, "pattern"@) {
                lemma_lower_chars_lowercase(p@);
            }
        }
    }
}

/// When the entries before `i` parse and entry `i` does not, the whole
/// table fails with entry `i`'s error.
proof fn lemma_first_error(entries: Seq<(String, TomlValue)>, i: int)
    requires
        0 <= i < entries.len(),
        parse_filters(entries.take(i)) is Ok,
        parse_filter(entries[i].1) is Err,
    ensures
        parse_filters(entries) == Err::<Seq<(Seq<char>, Severity)>, ConfigErrorSpec>(
            parse_filter(entries[i].1)->Err_0,
        ),
    decreases entries.len() - i,
{
    assert(entries.take(i + 1).drop_last() =~= entries.take(i));
    assert(entries.take(i + 1).last() == entries[i]);
    if i + 1 < entries.len() {
        lemma_error_persists(entries, i + 1);
    } else {
        assert(entries.take(i + 1) =~= entries);
    }
}

/// An error in a prefix is the error of every longer prefix.
proof fn lemma_error_persists(entries: Seq<(String, TomlValue)>, n: int)
    requires
        0 < n <= entries.len(),
        parse_filters(entries.take(n)) is Err,
    ensures
        parse_filters(entries) == parse_filters(entries.take(n)),
    decreases entries.len() - n,
{
    if n < entries.len() {
        assert(entries.take(n + 1).drop_last() =~= entries.take(n));
        lemma_error_persists(entries, n + 1);
    } else {
        assert(entries.take(n) =~= entries);
    }
}

/// The message for a rejected configuration source.
pub open spec fn error_message(e: ConfigErrorSpec) -> Seq<char> {
    match e {
        ConfigErrorSpec::MissingFilters => "missing [filters] section"@,
        ConfigErrorSpec::FiltersNotTable => "[filters] must be a TOML table"@,
        ConfigErrorSpec::FilterNotTable => "each filter entry must be a TOML table"@,
        ConfigErrorSpec::MissingPattern => "'pattern' key is required and must be a string"@,
        ConfigErrorSpec::UnknownSeverity(name) => "unknown severity '"@ + name + "'"@,
        ConfigErrorSpec::Toml(m) => m,
    }
}

impl ConfigError {
    /// The message shown for this error.
    pub fn message(&self) -> (m: String)
        ensures
            m@ == error_message(self@),
    {
        match self {
            ConfigError::MissingFilters => String::from_str("missing [filters] section"),
            ConfigError::FiltersNotTable => String::from_str("[filters] must be a TOML table"),
            ConfigError::FilterNotTable => String::from_str(
                "each filter entry must be a TOML table",
            ),
            ConfigError::MissingPattern => String::from_str(
                "'pattern' key is required and must be a string",
            ),
            ConfigError::UnknownSeverity(name) => {
                let m = String::from_str("unknown severity '");
                let m = m.concat(name.as_str());
                m.concat("'")
            },
            ConfigError::Toml(m) => m.clone(),
        }
    }
}

/// What the `toml` crate makes of `text` read as a TOML document: the
/// document's table, entries in the table's iteration order, or the
/// parser's error message.
pub uninterp spec fn toml_parse(text: Seq<char>) -> Result<TomlTable, Seq<char>>;

#[verifier::external_type_specification]
#[verifier::external_body]
pub struct ExTomlValue(toml::Value);

/// One `toml::Value` in the library's form, variant by variant: a string
/// stays a string, a table keeps its entries in iteration order, anything
/// else is `Other`. It is the conversion half of `parse_toml`.
#[verifier::external_body]
fn toml_value(v: toml::Value) -> TomlValue {
    match v {
        toml::Value::String(s) => TomlValue::Text(s),
        toml::Value::Table(t) => {
            let mut entries = Vec::new();
            for (k, x) in t {
                entries.push((k, toml_value(x)));
            }
            TomlValue::Table(TomlTable { entries })
        },
        _ => TomlValue::Other,
    }
}

/// Parses `text` as a TOML document with `toml::from_str::<toml::Table>`.
///
/// Trusted: the contract says that the table, or the error's message, is
/// `toml_parse` of the text. Which texts are valid TOML, and what the
/// messages say, is left to the `toml` crate and not stated here.
#[verifier::external_body]
fn parse_toml(text: &str) -> (r: Result<TomlTable, String>)
    ensures
        match r {
            Ok(t) => toml_parse(text@) == Ok::<TomlTable, Seq<char>>(t),
            Err(m) => toml_parse(text@) == Err::<TomlTable, Seq<char>>(m@),
        },
{
    match toml::from_str::<toml::Table>(text) {
        Ok(doc) => {
            let mut entries = Vec::new();
            for (k, v) in doc {
                entries.push((k, toml_value(v)));
            }
            Ok(TomlTable { entries })
        },
        Err(e) => Err(e.to_string()),
    }
}

/// The configuration a TOML text describes, or why it is rejected.
pub open spec fn read_config_spec(text: Seq<char>) -> Result<
    Seq<(Seq<char>, Severity)>,
    ConfigErrorSpec,
> {
    match toml_parse(text) {
        Ok(doc) => parse_config_spec(doc),
        Err(m) => Err(ConfigErrorSpec::Toml(m)),
    }
}

/// Parses a TOML text and reads the filters out of it: a text that is not
/// TOML gives the parser's message, a TOML document is read by
/// [`parse_config`].
pub fn read_config(text: &str) -> (res: Result<Config, ConfigError>)
    ensures
        match read_config_spec(text@) {
            Ok(fs) => res matches Ok(c) && config_view(c) == fs,
            Err(e) => res matches Err(err) && err@ == e,
        },
{
    match parse_toml(text) {
        Ok(doc) => parse_config(&doc),
        Err(m) => Err(ConfigError::Toml(m)),
    }
}

/// The configuration chosen from candidate texts, in search order: the
/// first text that is a valid configuration wins, and the built-in table
/// is used when none is; with it, the errors of the texts tried before, in
/// order.
pub open spec fn select_spec(texts: Seq<Seq<char>>) -> (
    Seq<(Seq<char>, Severity)>,
    Seq<ConfigErrorSpec>,
)
    decreases texts.len(),
{
    if texts.len() == 0 {
        (default_filter_table(), Seq::empty())
    } else {
        match read_config_spec(texts[0]) {
            Ok(fs) => (fs, Seq::empty()),
            Err(e) => {
                let rest = select_spec(texts.drop_first());
                (rest.0, seq![e] + rest.1)
            },
        }
    }
}

/// Picks the configuration from the texts of the sources found, in search
/// order: the first that parses is used, otherwise the built-in defaults.
/// Also returns, in order, why each source tried before it was rejected.
pub fn select_config(sources: &[String]) -> (res: (Config, Vec<ConfigError>))
    ensures
        config_view(res.0) == select_spec(sources@.map_values(|s: String| s@)).0,
        res.1@.map_values(|e: ConfigError| e@) == select_spec(
            sources@.map_values(|s: String| s@),
        ).1,
{
    let ghost texts = sources@.map_values(|s: String| s@);
    let mut errors: Vec<ConfigError> = Vec::new();
    let mut i: usize = 0;
    proof {
        assert(texts.skip(0) =~= texts);
        assert(errors@.map_values(|e: ConfigError| e@) =~= Seq::<ConfigErrorSpec>::empty());
    }
    while i < sources.len()
        invariant
            i <= sources@.len(),
            texts == sources@.map_values(|s: String| s@),
            select_spec(texts) == (
                select_spec(texts.skip(i as int)).0,
                errors@.map_values(|e: ConfigError| e@) + select_spec(texts.skip(i as int)).1,
            ),
        decreases sources.len() - i,
    {
        let ghost tail = texts.skip(i as int);
        proof {
            assert(tail[0] == sources@[i as int]@);
            assert(tail.drop_first() =~= texts.skip(i + 1));
        }
        match read_config(sources[i].as_str()) {
            Ok(c) => {
                proof {
                    assert(errors@.map_values(|e: ConfigError| e@) + Seq::<ConfigErrorSpec>::empty()
                        =~= errors@.map_values(|e: ConfigError| e@));
                }
                return (c, errors);
            },
            Err(e) => {
                let ghost prev = errors@.map_values(|e: ConfigError| e@);
                let ghost ev = e@;
                errors.push(e);
                i += 1;
                proof {
                    assert(errors@.map_values(|e: ConfigError| e@) =~= prev.push(ev));
                    assert(prev + (seq![ev] + select_spec(texts.skip(i as int)).1) =~= prev.push(
                        ev,
                    ) + select_spec(texts.skip(i as int)).1);
                }
            },
        }
    }
    proof {
        assert(texts.skip(i as int) =~= Seq::<Seq<char>>::empty());
        assert(errors@.map_values(|e: ConfigError| e@) + Seq::<ConfigErrorSpec>::empty()
            =~= errors@.map_values(|e: ConfigError| e@));
    }
    (default_config(), errors)
}

} // verus!
