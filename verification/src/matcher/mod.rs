pub mod simple;
pub mod aho;
pub mod classifier;
pub mod threshold;

use vstd::prelude::*;
use crate::scan::{str_bytes, occurs_at, contains_subseq, first_index, first_occurrence, find_byte,
    is_first_index, lemma_first_index_is, is_first_occurrence, lemma_first_occurrence_is,
    lemma_first_occurrence_exists};
use self::classifier::{MatchResult, Severity};
pub use self::classifier::PatternDatabase;
use self::simple::{SimpleMatcher, leftmost_match};
use self::aho::{AhoMatcher, MatcherError, aho_build_ok, aho_match, patterns_bytes};

verus! {

/// The matcher chosen for a pattern set: nothing to search, one pattern,
/// one single-byte pattern, or an automaton for several patterns.
pub enum Matcher {
    Noop,
    Simple(SimpleMatcher),
    SingleByte { byte: u8, pattern_id: u32 },
    Aho(AhoMatcher),
}

/// How many pattern IDs a database gives out: IDs are `u32`, taken from
/// `0..len as u32`.
pub open spec fn id_count(db: Seq<(Seq<char>, Severity)>) -> nat {
    ((db.len() as usize) as u32) as nat
}

/// A database is searched with the automaton unless it is empty or gives
/// out a single ID.
pub open spec fn uses_automaton(db: Seq<(Seq<char>, Severity)>) -> bool {
    db.len() != 0 && id_count(db) != 1
}

/// The UTF-8 bytes of the patterns that get an ID, in ID order.
pub open spec fn db_patterns(db: Seq<(Seq<char>, Severity)>) -> Seq<Seq<u8>> {
    Seq::new(id_count(db), |i: int| str_bytes(db[i].0))
}

/// What a matcher built from `db` searches for: every pattern under its ID,
/// except that a lone empty pattern is not searched for at all.
pub open spec fn db_targets(db: Seq<(Seq<char>, Severity)>) -> Seq<(u32, Seq<u8>)> {
    if db.len() == 0 || (id_count(db) == 1 && str_bytes(db[0].0).len() == 0) {
        Seq::empty()
    } else {
        Seq::new(id_count(db), |i: int| (i as u32, str_bytes(db[i].0)))
    }
}

/// What `Matcher::from_db` builds from `db`: a well-formed matcher whose
/// targets are `db_targets(db)`, each ID naming a pattern of `db`, and whose
/// variant follows the patterns: `Noop` for no pattern or a lone empty one,
/// `SingleByte` for a lone one-byte pattern, `Simple` for a lone longer one,
/// and the automaton otherwise.
pub open spec fn built_from(m: Matcher, db: Seq<(Seq<char>, Severity)>) -> bool {
    &&& m.wf()
    &&& m.targets() == db_targets(db)
    &&& forall|i: int| 0 <= i < m.targets().len() ==> (#[trigger] m.targets()[i]).0 < db.len()
    &&& (db.len() == 0 || (id_count(db) == 1 && str_bytes(db[0].0).len() == 0)) ==> m is Noop
    &&& (id_count(db) == 1 && str_bytes(db[0].0).len() == 1) ==> m == Matcher::SingleByte {
        byte: str_bytes(db[0].0)[0],
        pattern_id: 0,
    }
    &&& (id_count(db) == 1 && str_bytes(db[0].0).len() > 1) ==> m is Simple
    &&& (m is Aho <==> uses_automaton(db))
}

/// IDs stay below the number of patterns.
pub proof fn lemma_id_count_bound(db: Seq<(Seq<char>, Severity)>)
    requires
        db.len() <= usize::MAX,
    ensures
        id_count(db) <= db.len(),
{
    let n = db.len() as usize;
    assert((n as u32) as usize <= n) by (bit_vector);
}

/// Law: a matcher that searches for a single target reports the leftmost
/// occurrence of that target.
pub proof fn lemma_single_target_leftmost(m: Matcher, line: Seq<u8>)
    requires
        !(m is Aho),
        m.targets().len() == 1,
    ensures
        m.first_match(line) == leftmost_match(line, m.targets()[0].1, m.targets()[0].0),
{
    if let Matcher::SingleByte { byte, pattern_id } = m {
        let needle = seq![byte];
        assert(m.targets()[0].1 == needle);
        if exists|k: int| is_first_index(line, byte, k) {
            let k = choose|k: int| is_first_index(line, byte, k);
            assert(line.subrange(k, k + 1) =~= needle);
            assert forall|q: int| 0 <= q < k implies !occurs_at(line, needle, q) by {
                if occurs_at(line, needle, q) {
                    assert(line.subrange(q, q + 1)[0] == line[q]);
                }
            }
            lemma_first_occurrence_is(line, needle, k);
        } else {
            if exists|p: int| is_first_occurrence(line, needle, p) {
                let p = choose|p: int| is_first_occurrence(line, needle, p);
                assert(line.subrange(p, p + 1)[0] == line[p]);
                crate::scan::lemma_first_index_exists(line, byte, p);
            }
        }
    }
}

/// The match `m` reports for `key` is decided by its targets: there is a
/// match exactly when some target occurs in `key`, and a reported match is
/// an occurrence of a target with the reported ID at the reported offset.
pub open spec fn decided_by_targets(m: Matcher, key: Seq<u8>) -> bool {
    &&& (m.first_match(key) is None <==> forall|i: int|
        0 <= i < m.targets().len() ==> !contains_subseq(key, (#[trigger] m.targets()[i]).1))
    &&& (m.first_match(key) matches Some(r) ==> exists|i: int|
        0 <= i < m.targets().len() && (#[trigger] m.targets()[i]).0 == r.pattern_id && occurs_at(
            key,
            m.targets()[i].1,
            r.offset as int,
        ))
}

impl Matcher {
    /// The (ID, bytes) pairs searched for.
    pub open spec fn targets(&self) -> Seq<(u32, Seq<u8>)> {
        match self {
            Matcher::Noop => Seq::empty(),
            Matcher::Simple(s) => seq![(s.pattern_id(), s.pattern())],
            Matcher::SingleByte { byte, pattern_id } => seq![(*pattern_id, seq![*byte])],
            Matcher::Aho(a) => Seq::new(
                a.patterns().len(),
                |i: int| (a.ids()[i], a.patterns()[i]),
            ),
        }
    }

    pub open spec fn wf(&self) -> bool {
        match self {
            Matcher::Aho(a) => a.wf(),
            _ => true,
        }
    }

    /// The match `check` reports for `line`: none for `Noop`, the leftmost
    /// occurrence for one pattern, the automaton's match for several.
    pub open spec fn first_match(&self, line: Seq<u8>) -> Option<MatchResult> {
        match self {
            Matcher::Noop => None,
            Matcher::Simple(s) => leftmost_match(line, s.pattern(), s.pattern_id()),
            Matcher::SingleByte { byte, pattern_id } => match first_index(line, *byte) {
                Some(k) => Some(MatchResult { pattern_id: *pattern_id, offset: k as usize }),
                None => None,
            },
            Matcher::Aho(a) => aho_match(a.patterns(), a.ids(), line),
        }
    }

    pub fn from_db(db: &PatternDatabase) -> (res: Result<Self, MatcherError>)
        ensures
            res is Err <==> uses_automaton(db@) && !aho_build_ok(db_patterns(db@)),
            res matches Ok(m) ==> built_from(m, db@),
    {
        if db.is_empty() {
            let m = Matcher::Noop;
            assert(m.targets() =~= db_targets(db@));
            return Ok(m);
        }
        let len = db.len();
        proof {
            lemma_id_count_bound(db@);
        }
        #[verifier::truncate]
        let n = len as u32;
        assert(n == id_count(db@));
        if n == 1 {
            let pattern = db.pattern(0);
            let bytes = pattern.as_bytes();
            if bytes.len() == 0 {
                let m = Matcher::Noop;
                assert(m.targets() =~= db_targets(db@));
                return Ok(m);
            }
            if bytes.len() == 1 {
                let m = Matcher::SingleByte { byte: bytes[0], pattern_id: 0 };
                assert(seq![bytes@[0]] =~= bytes@);
                assert(bytes@ == str_bytes(db@[0].0));
                assert(m.targets() =~= db_targets(db@));
                return Ok(m);
            }
            let m = Matcher::Simple(SimpleMatcher::new(pattern, 0));
            assert(m.targets() =~= db_targets(db@));
            return Ok(m);
        }
        let mut patterns: Vec<String> = Vec::new();
        let mut ids: Vec<u32> = Vec::new();
        let mut id: u32 = 0;
        while id < n
            invariant
                n == id_count(db@) <= db@.len(),
                id <= n,
                patterns@.len() == id,
                ids@.len() == id,
                forall|j: int|
                    0 <= j < id ==> (#[trigger] patterns@[j])@ == db@[j].0 && ids@[j] == j as u32,
            decreases n - id,
        {
            patterns.push(db.pattern(id).to_owned());
            ids.push(id);
            id += 1;
        }
        proof {
            assert(patterns_bytes(patterns@) =~= db_patterns(db@));
        }
        match AhoMatcher::new(patterns.as_slice(), ids.as_slice()) {
            Ok(a) => {
                let m = Matcher::Aho(a);
                assert(m.targets() =~= db_targets(db@));
                Ok(m)
            },
            Err(e) => Err(e),
        }
    }

    /// The match for `line`, if any: a reported match is an occurrence of a
    /// target at the reported offset, and no match is reported only when no
    /// target occurs in `line`.
    pub fn check(&self, line: &[u8]) -> (res: Option<MatchResult>)
        requires
            self.wf(),
        ensures
            res == self.first_match(line@),
            decided_by_targets(*self, line@),
            res matches Some(m) ==> exists|i: int|
                0 <= i < self.targets().len() && (#[trigger] self.targets()[i]).0 == m.pattern_id
                    && occurs_at(line@, self.targets()[i].1, m.offset as int),
            res is None <==> forall|i: int|
                0 <= i < self.targets().len() ==> !contains_subseq(
                    line@,
                    (#[trigger] self.targets()[i]).1,
                ),
    {
        match self {
            Matcher::Noop => {
                let r: Option<MatchResult> = None;
                assert(self.targets().len() == 0);
                assert(forall|i: int|
                    0 <= i < self.targets().len() ==> !contains_subseq(
                        line@,
                        (#[trigger] self.targets()[i]).1,
                    ));
                r
            },
            Matcher::Simple(s) => {
                let r = s.check(line);
                proof {
                    let t = self.targets()[0];
                    match r {
                        Some(m) => {
                            assert(exists|p: int| is_first_occurrence(line@, s.pattern(), p));
                            let p = choose|p: int| is_first_occurrence(line@, s.pattern(), p);
                            assert(first_occurrence(line@, s.pattern()) == Some(p));
                            assert(line@.len() == line.len());
                            assert(m.offset as int == p);
                            assert(occurs_at(line@, t.1, m.offset as int));
                        },
                        None => {
                            if contains_subseq(line@, t.1) {
                                let q = choose|q: int| occurs_at(line@, t.1, q);
                                lemma_first_occurrence_exists(line@, t.1, q);
                            }
                        },
                    }
                }
                proof {
                    assert((r is None) <==> forall|i: int|
                        0 <= i < self.targets().len() ==> !contains_subseq(
                            line@,
                            (#[trigger] self.targets()[i]).1,
                        ));
                }
                r
            },
            Matcher::SingleByte { byte, pattern_id } => {
                let r = match find_byte(*byte, line) {
                    Some(offset) => {
                        proof {
                            lemma_first_index_is(line@, *byte, offset as int);
                            assert(line@.subrange(offset as int, offset + 1) =~= seq![*byte]);
                            assert(occurs_at(line@, seq![*byte], offset as int));
                            assert(contains_subseq(line@, seq![*byte]));
                        }
                        Some(MatchResult { pattern_id: *pattern_id, offset })
                    },
                    None => {
                        proof {
                            if exists|k: int| is_first_index(line@, *byte, k) {
                                let k = choose|k: int| is_first_index(line@, *byte, k);
                                assert(line@[k] == *byte);
                            }
                            if contains_subseq(line@, seq![*byte]) {
                                let q = choose|q: int| occurs_at(line@, seq![*byte], q);
                                assert(line@.subrange(q, q + 1)[0] == line@[q]);
                                assert(line@[q] == *byte);
                            }
                        }
                        None
                    },
                };
                proof {
                    assert(self.targets()[0].1 == seq![*byte]);
                }
                proof {
                    assert((r is None) <==> forall|i: int|
                        0 <= i < self.targets().len() ==> !contains_subseq(
                            line@,
                            (#[trigger] self.targets()[i]).1,
                        ));
                }
                r
            },
            Matcher::Aho(a) => {
                let r = a.check(line);
                proof {
                    if let Some(m) = r {
                        let i = choose|i: int|
                            0 <= i < a.patterns().len() && a.ids()[i] == m.pattern_id && occurs_at(
                                line@,
                                a.patterns()[i],
                                m.offset as int,
                            );
                        assert(self.targets()[i].0 == m.pattern_id);
                    }
                    assert(forall|i: int|
                        0 <= i < self.targets().len() ==> (#[trigger] self.targets()[i]).1
                            == a.patterns()[i]);
                }
                proof {
                    assert((r is None) <==> forall|i: int|
                        0 <= i < self.targets().len() ==> !contains_subseq(
                            line@,
                            (#[trigger] self.targets()[i]).1,
                        ));
                }
                r
            },
        }
    }
}

} // verus!
