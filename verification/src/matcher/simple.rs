//! Single-pattern substring matcher.
use vstd::prelude::*;
use crate::scan::{str_bytes, first_occurrence, find_subslice, lemma_first_occurrence_is,
    lemma_first_occurrence_exists};
use super::classifier::MatchResult;

verus! {

/// Searches for one byte pattern with `memchr::memmem`.
pub struct SimpleMatcher {
    pattern: Vec<u8>,  // byte pattern
    pattern_id: u32,
}

/// The match of `needle` in `line` under pattern ID `id`: its leftmost
/// occurrence.
pub open spec fn leftmost_match(line: Seq<u8>, needle: Seq<u8>, id: u32) -> Option<MatchResult> {
    match first_occurrence(line, needle) {
        Some(p) => Some(MatchResult { pattern_id: id, offset: p as usize }),
        None => None,
    }
}

impl SimpleMatcher {
    /// The bytes searched for.
    pub closed spec fn pattern(&self) -> Seq<u8> {
        self.pattern@
    }

    /// The ID reported on a match.
    pub closed spec fn pattern_id(&self) -> u32 {
        self.pattern_id
    }

    pub fn new(pattern_str: &str, id: u32) -> (m: Self)
        ensures
            m.pattern() == str_bytes(pattern_str@),
            m.pattern_id() == id,
    {
        let bytes = pattern_str.as_bytes();
        let mut pattern: Vec<u8> = Vec::new();
        crate::scan::append_all(&mut pattern, bytes);
        SimpleMatcher { pattern, pattern_id: id }
    }

    /// The leftmost occurrence of the pattern in `line`.
    pub fn check(&self, line: &[u8]) -> (res: Option<MatchResult>)
        ensures
            res == leftmost_match(line@, self.pattern(), self.pattern_id()),
    {
        match find_subslice(line, self.pattern.as_slice()) {
            Some(offset) => {
                proof {
                    lemma_first_occurrence_is(line@, self.pattern@, offset as int);
                }
                Some(MatchResult { pattern_id: self.pattern_id, offset })
            },
            None => {
                proof {
                    if exists|p: int| crate::scan::is_first_occurrence(line@, self.pattern@, p) {
                        let p = choose|p: int| crate::scan::is_first_occurrence(line@, self.pattern@, p);
                        assert(crate::scan::occurs_at(line@, self.pattern@, p));
                    }
                }
                None
            },
        }
    }
}

} // verus!
