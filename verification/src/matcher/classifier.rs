//! Severities, match results and the pattern database.
use vstd::prelude::*;

verus! {

/// Severity levels for danger signals.
#[derive(Debug, Clone, Copy, PartialEq, Eq, Structural, PartialOrd, Ord)]
pub enum Severity {
    Info,
    Warn,
    Error,
    Critical,
}

/// A compact result of a match.
///
/// `pattern_id` is used immediately to look up severity for highlighting.
/// `offset` records where in the line the match occurred; it is retained for
/// future use (e.g. per-word inline highlighting) rather than full-line
/// background colour.
#[derive(Debug, Clone, Copy, PartialEq, Eq, Structural)]
pub struct MatchResult {
    pub pattern_id: u32,
    /// Byte offset of the first matching byte within the line.
    pub offset: usize,
}

/// A single pattern definition.
#[derive(Debug, Clone)]
pub struct PatternDef {
    pub pattern: String,
    pub severity: Severity,
}

/// The value of a pattern definition: its text and severity.
pub open spec fn def_view(d: PatternDef) -> (Seq<char>, Severity) {
    (d.pattern@, d.severity)
}

/// Owns all pattern metadata and assigns stable IDs.
#[derive(Debug, Clone)]
pub struct PatternDatabase {
    entries: Vec<PatternEntry>,
}

#[derive(Debug, Clone)]
struct PatternEntry {
    pattern: String,
    severity: Severity,
}

impl View for PatternDatabase {
    type V = Seq<(Seq<char>, Severity)>;

    /// Entry `id` holds the pattern text and severity of pattern ID `id`.
    closed spec fn view(&self) -> Seq<(Seq<char>, Severity)> {
        self.entries@.map_values(|e: PatternEntry| (e.pattern@, e.severity))
    }
}

impl PatternDatabase {
    /// Build a database from a slice of definitions.
    /// Pattern IDs are assigned consecutively, starting at 0.
    pub fn from_defs(defs: &[PatternDef]) -> (db: Self)
        ensures
            db@ == defs@.map_values(|d: PatternDef| def_view(d)),
    {
        let mut entries: Vec<PatternEntry> = Vec::new();
        let mut i: usize = 0;
        while i < defs.len()
            invariant
                i <= defs@.len(),
                entries@.len() == i,
                forall|j: int|
                    0 <= j < i ==> (#[trigger] entries@[j]).pattern@ == defs@[j].pattern@
                        && entries@[j].severity == defs@[j].severity,
            decreases defs.len() - i,
        {
            let d = &defs[i];
            entries.push(PatternEntry { pattern: d.pattern.clone(), severity: d.severity });
            i += 1;
        }
        proof {
            assert(entries@.map_values(|e: PatternEntry| (e.pattern@, e.severity)) =~= defs@.map_values(
                |d: PatternDef| def_view(d),
            ));
        }
        PatternDatabase { entries }
    }

    /// Returns `true` if no patterns are loaded.
    pub fn is_empty(&self) -> (b: bool)
        ensures
            b == (self@.len() == 0),
    {
        self.entries.len() == 0
    }

    /// Number of patterns stored.
    pub fn len(&self) -> (n: usize)
        ensures
            n == self@.len(),
    {
        self.entries.len()
    }

    /// Retrieve the severity for a pattern ID.
    pub fn severity(&self, id: u32) -> (s: Severity)
        requires
            id < self@.len(),
        ensures
            s == self@[id as int].1,
    {
        self.entries[id as usize].severity
    }

    /// Retrieve the pattern string for a pattern ID.
    pub fn pattern(&self, id: u32) -> (p: &str)
        requires
            id < self@.len(),
        ensures
            p@ == self@[id as int].0,
    {
        self.entries[id as usize].pattern.as_str()
    }
}

} // verus!
