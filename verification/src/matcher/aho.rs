//! Multi-pattern matcher built on an Aho-Corasick automaton.
use vstd::prelude::*;
use aho_corasick::{AhoCorasick, BuildError};
use crate::scan::{str_bytes, occurs_at, contains_subseq};
use super::classifier::MatchResult;

verus! {

/// `aho_corasick::AhoCorasick`, an automaton; opaque here, its patterns are
/// named by `aho_patterns`.
#[verifier::external_type_specification]
#[verifier::external_body]
pub struct ExAhoCorasick(AhoCorasick);

/// `aho_corasick::BuildError`, why an automaton could not be built; opaque.
#[verifier::external_type_specification]
#[verifier::external_body]
pub struct ExBuildError(BuildError);

/// The patterns an automaton searches for, in the order they were given,
/// as bytes.
pub uninterp spec fn aho_patterns(ac: AhoCorasick) -> Seq<Seq<u8>>;

/// Whether `AhoCorasick::new` builds an automaton for these patterns (it
/// fails only when the automaton would exceed its size limits).
pub uninterp spec fn aho_build_ok(patterns: Seq<Seq<u8>>) -> bool;

/// The match `AhoCorasick::find` reports for these patterns in `haystack`
/// under the default (standard) match semantics: the index of the pattern
/// and the start of the match.
pub uninterp spec fn aho_first_match(patterns: Seq<Seq<u8>>, haystack: Seq<u8>) -> Option<(usize, usize)>;

/// Things the library can get wrong while building a matcher.
#[derive(Debug, Clone, Copy, PartialEq, Eq, Structural)]
pub enum MatcherError {
    /// The Aho-Corasick automaton for the patterns could not be built.
    AutomatonBuild,
}

/// The UTF-8 bytes of each pattern.
pub open spec fn patterns_bytes(patterns: Seq<String>) -> Seq<Seq<u8>> {
    patterns.map_values(|p: String| str_bytes(p@))
}

/// Builds an automaton with `AhoCorasick::new` (default configuration).
///
/// Claims of the outside code: the build succeeds exactly when
/// `aho_build_ok` holds of the patterns, and the automaton searches for
/// those patterns, in the order given.
#[verifier::external_body]
fn build_automaton(patterns: &[String]) -> (res: Result<AhoCorasick, BuildError>)
    ensures
        res is Ok <==> aho_build_ok(patterns_bytes(patterns@)),
        res matches Ok(ac) ==> aho_patterns(ac) == patterns_bytes(patterns@),
{
    AhoCorasick::new(patterns)
}

/// Runs `AhoCorasick::find` on `haystack`.
///
/// Claims of the outside code: the result is `aho_first_match` of the
/// automaton's patterns and the haystack; a reported match is an occurrence
/// of the reported pattern at the reported start; no match is reported only
/// when no pattern occurs. Which of several occurring patterns is reported
/// is left to the name.
#[verifier::external_body]
fn automaton_find(ac: &AhoCorasick, haystack: &[u8]) -> (res: Option<(usize, usize)>)
    ensures
        res == aho_first_match(aho_patterns(*ac), haystack@),
        match res {
            Some(m) => m.0 < aho_patterns(*ac).len() && occurs_at(
                haystack@,
                aho_patterns(*ac)[m.0 as int],
                m.1 as int,
            ),
            None => forall|p: int|
                0 <= p < aho_patterns(*ac).len() ==> !contains_subseq(
                    haystack@,
                    #[trigger] aho_patterns(*ac)[p],
                ),
        },
{
    match ac.find(haystack) {
        Some(m) => Some((m.pattern().as_usize(), m.start())),
        None => None,
    }
}

/// The match an automaton over `patterns` reports, with the automaton's
/// pattern index mapped to its external ID through `ids`.
pub open spec fn aho_match(patterns: Seq<Seq<u8>>, ids: Seq<u32>, line: Seq<u8>) -> Option<MatchResult> {
    match aho_first_match(patterns, line) {
        Some(m) => Some(MatchResult { pattern_id: ids[m.0 as int], offset: m.1 }),
        None => None,
    }
}

pub struct AhoMatcher {
    ac: AhoCorasick,
    pattern_ids: Vec<u32>,  // map automaton pattern index → external pattern ID
}

impl AhoMatcher {
    /// The patterns searched for, as bytes, in automaton order.
    pub closed spec fn patterns(&self) -> Seq<Seq<u8>> {
        aho_patterns(self.ac)
    }

    /// External ID of each automaton pattern index.
    pub closed spec fn ids(&self) -> Seq<u32> {
        self.pattern_ids@
    }

    /// Every pattern index has an external ID.
    pub open spec fn wf(&self) -> bool {
        self.patterns().len() <= self.ids().len()
    }

    /// Builds the automaton for `patterns`; `ids[i]` is the external ID of
    /// `patterns[i]`. Searching needs an ID for every pattern.
    pub fn new(patterns: &[String], ids: &[u32]) -> (res: Result<Self, MatcherError>)
        ensures
            res is Ok <==> aho_build_ok(patterns_bytes(patterns@)),
            res matches Ok(m) ==> {
                &&& (m.wf() <==> patterns@.len() <= ids@.len())
                &&& m.patterns() == patterns_bytes(patterns@)
                &&& m.ids() == ids@
            },
    {
        match build_automaton(patterns) {
            Ok(ac) => {
                let mut pattern_ids: Vec<u32> = Vec::new();
                let mut i: usize = 0;
                while i < ids.len()
                    invariant
                        i <= ids@.len(),
                        pattern_ids@ == ids@.subrange(0, i as int),
                    decreases ids.len() - i,
                {
                    pattern_ids.push(ids[i]);
                    i += 1;
                    proof {
                        assert(pattern_ids@ =~= ids@.subrange(0, i as int));
                    }
                }
                proof {
                    assert(ids@.subrange(0, ids@.len() as int) =~= ids@);
                }
                Ok(AhoMatcher { ac, pattern_ids })
            },
            Err(_) => Err(MatcherError::AutomatonBuild),
        }
    }

    /// Returns the first match found. Needs an ID for every pattern.
    pub fn check(&self, line: &[u8]) -> (res: Option<MatchResult>)
        requires
            self.wf(),
        ensures
            res == aho_match(self.patterns(), self.ids(), line@),
            res matches Some(m) ==> exists|i: int|
                0 <= i < self.patterns().len() && self.ids()[i] == m.pattern_id && occurs_at(
                    line@,
                    self.patterns()[i],
                    m.offset as int,
                ),
            res is None <==> forall|i: int|
                0 <= i < self.patterns().len() ==> !contains_subseq(
                    line@,
                    #[trigger] self.patterns()[i],
                ),
    {
        match automaton_find(&self.ac, line) {
            Some(m) => {
                let internal_idx = m.0;
                let external_id = self.pattern_ids[internal_idx];
                proof {
                    assert(occurs_at(line@, self.patterns()[internal_idx as int], m.1 as int));
                    if forall|i: int|
                        0 <= i < self.patterns().len() ==> !contains_subseq(
                            line@,
                            #[trigger] self.patterns()[i],
                        ) {
                        assert(!contains_subseq(line@, self.patterns()[internal_idx as int]));
                    }
                }
                Some(MatchResult { pattern_id: external_id, offset: m.1 })
            },
            None => None,
        }
    }
}

} // verus!
