//! Configuration data.
use vstd::prelude::*;
use crate::matcher::classifier::{PatternDef, Severity, def_view};

verus! {

/// A single filter definition.
#[derive(Debug, Clone)]
pub struct Filter {
    pub pattern: String,
    pub severity: Severity,
}

/// The value of a filter: its pattern text and severity.
pub open spec fn filter_view(f: Filter) -> (Seq<char>, Severity) {
    (f.pattern@, f.severity)
}

/// Top‑level configuration.
#[derive(Debug, Clone)]
pub struct Config {
    pub filters: Vec<Filter>,
}

/// The filters of a configuration, in order.
pub open spec fn config_view(c: Config) -> Seq<(Seq<char>, Severity)> {
    c.filters@.map_values(|f: Filter| filter_view(f))
}

impl Default for Config {
    fn default() -> (c: Self)
        ensures
            c.filters@.len() == 0,
    {
        Config { filters: Vec::new() }
    }
}

impl Config {
    /// Convert the filter list into a vector of `PatternDef` for the matcher engine.
    pub fn to_pattern_defs(&self) -> (defs: Vec<PatternDef>)
        ensures
            defs@.map_values(|d: PatternDef| def_view(d)) == config_view(*self),
    {
        let mut defs: Vec<PatternDef> = Vec::new();
        let mut i: usize = 0;
        while i < self.filters.len()
            invariant
                i <= self.filters@.len(),
                defs@.len() == i,
                forall|j: int|
                    0 <= j < i ==> (#[trigger] defs@[j]).pattern@ == self.filters@[j].pattern@
                        && defs@[j].severity == self.filters@[j].severity,
            decreases self.filters.len() - i,
        {
            let f = &self.filters[i];
            defs.push(PatternDef { pattern: f.pattern.clone(), severity: f.severity });
            i += 1;
        }
        proof {
            assert(defs@.map_values(|d: PatternDef| def_view(d)) =~= config_view(*self));
        }
        defs
    }
}

} // verus!
