//! Turns chunks of a byte stream into terminal output: lines are assembled,
//! matched and rendered.
use vstd::prelude::*;
use crate::scan::{lower_bytes, ascii_lower, occurs_at, str_bytes, contains_subseq,
    lemma_case_insensitive_occurrence};
use crate::config::loader::{is_lowercase_text, lemma_lowercase_text_bytes};
use crate::matcher::{Matcher, built_from, db_targets, db_patterns, uses_automaton, decided_by_targets};
use crate::matcher::aho::{MatcherError, aho_build_ok};
use crate::matcher::classifier::{MatchResult, PatternDatabase, Severity};
use crate::renderer::{Renderer, strip_ansi, strip_ansi_spec, highlight, line_output};
use crate::renderer::ansi;
use crate::config::defaults::default_config;
use super::events::{LineEvent, EventSpec, events_view};
use super::line_assembler::{LineAssembler, push_outcome, max_push_len, lemma_push_lossless};

verus! {

/// The bytes a line is matched on: its text without escape sequences,
/// ASCII-lowercased.
pub open spec fn match_key(line: Seq<u8>) -> Seq<u8> {
    lower_bytes(strip_ansi_spec(line))
}

/// Output for one event: a line is rendered (highlighted when its key
/// matches), an overflow passes through raw, a partial line is left to the
/// final flush.
pub open spec fn event_output(e: EventSpec, m: Matcher, db: Seq<(Seq<char>, Severity)>) -> Seq<u8> {
    match e {
        EventSpec::Line(l) => line_output(l, m.first_match(match_key(l)), db),
        EventSpec::Overflow(o) => o,
        EventSpec::Partial(_) => Seq::empty(),
    }
}

/// Output for a sequence of events, in order.
pub open spec fn events_output(evs: Seq<EventSpec>, m: Matcher, db: Seq<(Seq<char>, Severity)>) -> Seq<u8>
    decreases evs.len(),
{
    if evs.len() == 0 {
        Seq::empty()
    } else {
        events_output(evs.drop_last(), m, db) + event_output(evs.last(), m, db)
    }
}

/// Output for the unterminated rest at end of input: highlighted inline
/// (without a newline) when it matches, raw otherwise.
pub open spec fn partial_output(
    data: Seq<u8>,
    res: Option<MatchResult>,
    db: Seq<(Seq<char>, Severity)>,
) -> Seq<u8> {
    match res {
        Some(m) => highlight(data, db[m.pattern_id as int].1),
        None => data,
    }
}

/// Output of the final flush when `pending` is held.
pub open spec fn flush_output(pending: Seq<u8>, m: Matcher, db: Seq<(Seq<char>, Severity)>) -> Seq<u8> {
    if pending.len() == 0 {
        Seq::empty()
    } else {
        partial_output(pending, m.first_match(match_key(pending)), db)
    }
}

/// Law: when no line matches, the output is the input. Lines come back
/// with their newline, overflowing data unchanged; nothing is added.
pub proof fn lemma_unmatched_passthrough(
    evs: Seq<EventSpec>,
    m: Matcher,
    db: Seq<(Seq<char>, Severity)>,
)
    requires
        forall|i: int| 0 <= i < evs.len() ==> !(#[trigger] evs[i] is Partial),
        forall|i: int|
            0 <= i < evs.len() ==> (#[trigger] evs[i] matches EventSpec::Line(l) ==> m.first_match(
                match_key(l),
            ) is None),
    ensures
        events_output(evs, m, db) == crate::runtime::events::events_bytes(evs),
    decreases evs.len(),
{
    if evs.len() > 0 {
        let last = evs.last();
        assert(last == evs[evs.len() - 1]);
        lemma_unmatched_passthrough(evs.drop_last(), m, db);
    }
}

/// What the terminal receives when chunk after chunk is processed and the
/// stream is then flushed, with `pending` held at first: the output of each
/// chunk's events, in order, then the output of the final flush.
pub open spec fn stream_output(
    pending: Seq<u8>,
    chunks: Seq<Seq<u8>>,
    m: Matcher,
    db: Seq<(Seq<char>, Severity)>,
) -> Seq<u8>
    decreases chunks.len(),
{
    if chunks.len() == 0 {
        flush_output(pending, m, db)
    } else {
        let first = push_outcome(pending, chunks[0]);
        events_output(first.0, m, db) + stream_output(first.1, chunks.drop_first(), m, db)
    }
}

/// Law: with no patterns nothing is highlighted, and every byte of every
/// chunk, newlines and escape sequences included, reaches the terminal
/// unchanged and in order.
pub proof fn lemma_no_patterns_passthrough(
    pending: Seq<u8>,
    chunks: Seq<Seq<u8>>,
    m: Matcher,
    db: Seq<(Seq<char>, Severity)>,
)
    requires
        built_from(m, db),
        db.len() == 0,
    ensures
        stream_output(pending, chunks, m, db) == pending + chunks.flatten(),
    decreases chunks.len(),
{
    assert(m is Noop);
    if chunks.len() == 0 {
        assert(pending + Seq::<u8>::empty() =~= pending);
    } else {
        let first = push_outcome(pending, chunks[0]);
        let tail = chunks.drop_first();
        lemma_no_patterns_passthrough(first.1, tail, m, db);
        let split = super::line_assembler::split_lines(pending + chunks[0]);
        assert forall|i: int| 0 <= i < first.0.len() implies !(#[trigger] first.0[i] is Partial) by {
            if i < split.0.len() {
                assert(first.0[i] == EventSpec::Line(split.0[i]));
            }
        }
        lemma_unmatched_passthrough(first.0, m, db);
        lemma_push_lossless(pending, chunks[0]);
        assert(chunks.flatten() == chunks[0] + tail.flatten());
        let eb = crate::runtime::events::events_bytes(first.0);
        assert(eb + first.1 == pending + chunks[0]);
        assert(eb + (first.1 + tail.flatten()) =~= (eb + first.1) + tail.flatten());
        assert(pending + (chunks[0] + tail.flatten()) =~= (pending + chunks[0]) + tail.flatten());
    }
}

/// Law: the unterminated last line is rendered as it would be with a
/// newline, without that newline: highlighted (bell for Error and Critical
/// included) when it matches, unchanged otherwise.
pub proof fn lemma_flush_renders_as_line(pending: Seq<u8>, m: Matcher, db: Seq<(Seq<char>, Severity)>)
    requires
        pending.len() > 0,
    ensures
        flush_output(pending, m, db) + seq![0x0Au8] == event_output(EventSpec::Line(pending), m, db),
{
    match m.first_match(match_key(pending)) {
        Some(r) => {
            assert(highlight(pending, db[r.pattern_id as int].1).push(crate::scan::NEWLINE)
                =~= highlight(pending, db[r.pattern_id as int].1) + seq![0x0Au8]);
        },
        None => {
            assert(pending.push(crate::scan::NEWLINE) =~= pending + seq![0x0Au8]);
        },
    }
}

/// Law: a matching unterminated last line is written as the bell (for
/// Error and Critical only), the severity's colour, its text with escape
/// sequences removed and `ESC [0m`, with no newline.
pub proof fn lemma_flush_highlight(pending: Seq<u8>, m: Matcher, db: Seq<(Seq<char>, Severity)>)
    requires
        pending.len() > 0,
        m.first_match(match_key(pending)) matches Some(r) && r.pattern_id < db.len(),
    ensures
        ({
            let severity = db[m.first_match(match_key(pending))->Some_0.pattern_id as int].1;
            flush_output(pending, m, db) == (if severity == Severity::Error || severity
                == Severity::Critical {
                seq![0x07u8]
            } else {
                Seq::<u8>::empty()
            }) + ansi::color_bytes(severity) + strip_ansi_spec(pending) + seq![
                0x1Bu8,
                0x5Bu8,
                0x30u8,
                0x6Du8,
            ]
        }),
{
    let r = m.first_match(match_key(pending))->Some_0;
    lemma_flush_renders_as_line(pending, m, db);
    crate::renderer::lemma_rendered_line(pending, Some(r), db);
    let out = flush_output(pending, m, db);
    let severity = db[r.pattern_id as int].1;
    let b = if severity == Severity::Error || severity == Severity::Critical {
        seq![0x07u8]
    } else {
        Seq::<u8>::empty()
    };
    let lhs = b + ansi::color_bytes(severity) + strip_ansi_spec(pending) + seq![
        0x1Bu8,
        0x5Bu8,
        0x30u8,
        0x6Du8,
    ];
    assert(out + seq![0x0Au8] == lhs + seq![0x0Au8]);
    assert(out =~= (out + seq![0x0Au8]).drop_last());
    assert(lhs =~= (lhs + seq![0x0Au8]).drop_last());
}

/// Law: with lowercase patterns, matching ignores case. A target occurs in
/// a line's match key exactly where the line's text, escape sequences
/// removed, equals the pattern ignoring ASCII case.
pub proof fn lemma_match_key_ignores_case(
    db: Seq<(Seq<char>, Severity)>,
    line: Seq<u8>,
    i: int,
    pos: int,
)
    requires
        forall|j: int| 0 <= j < db.len() ==> is_lowercase_text(#[trigger] db[j].0),
        0 <= i < db_targets(db).len(),
    ensures
        occurs_at(match_key(line), db_targets(db)[i].1, pos) <==> {
            let text = strip_ansi_spec(line);
            let t = db_targets(db)[i].1;
            &&& 0 <= pos
            &&& pos + t.len() <= text.len()
            &&& lower_bytes(text.subrange(pos, pos + t.len())) == lower_bytes(t)
        },
{
    let t = db_targets(db)[i].1;
    assert(t == str_bytes(db[i].0));
    lemma_lowercase_text_bytes(db[i].0);
    lemma_case_insensitive_occurrence(strip_ansi_spec(line), t, pos);
}

/// `t` occurs in `text` at `pos` when ASCII case is ignored.
pub open spec fn occurs_ignoring_case(text: Seq<u8>, t: Seq<u8>, pos: int) -> bool {
    &&& 0 <= pos
    &&& pos + t.len() <= text.len()
    &&& lower_bytes(text.subrange(pos, pos + t.len())) == lower_bytes(t)
}

/// Law: with lowercase patterns, a line is highlighted exactly when one of
/// the database's patterns occurs in the line's text, escape sequences
/// removed, ignoring ASCII case (the matcher's verdict on the line, as
/// `process_chunk` and `flush` guarantee it, is decided by its targets).
pub proof fn lemma_highlight_iff_pattern_in_line(
    db: Seq<(Seq<char>, Severity)>,
    m: Matcher,
    line: Seq<u8>,
)
    requires
        forall|j: int| 0 <= j < db.len() ==> is_lowercase_text(#[trigger] db[j].0),
        m.targets() == db_targets(db),
        decided_by_targets(m, match_key(line)),
    ensures
        m.first_match(match_key(line)) is Some <==> exists|i: int, pos: int|
            0 <= i < db_targets(db).len() && #[trigger] occurs_ignoring_case(
                strip_ansi_spec(line),
                db_targets(db)[i].1,
                pos,
            ),
{
    let key = match_key(line);
    let targets = db_targets(db);
    if m.first_match(key) is Some {
        let i = choose|i: int| 0 <= i < m.targets().len() && contains_subseq(key, #[trigger] m.targets()[i].1);
        let pos = choose|pos: int| occurs_at(key, targets[i].1, pos);
        lemma_match_key_ignores_case(db, line, i, pos);
        assert(occurs_ignoring_case(strip_ansi_spec(line), targets[i].1, pos));
    } else {
        assert forall|i: int, pos: int|
            0 <= i < targets.len() implies !#[trigger] occurs_ignoring_case(
                strip_ansi_spec(line),
                targets[i].1,
                pos,
            ) by {
            lemma_match_key_ignores_case(db, line, i, pos);
            assert(!contains_subseq(key, m.targets()[i].1));
        }
    }
}

pub struct Processor {
    renderer: Renderer,
    assembler: LineAssembler,
    db: PatternDatabase,
    matcher: Matcher,
}

impl Processor {
    /// Bytes received and not yet assembled into a line.
    pub closed spec fn pending(&self) -> Seq<u8> {
        self.assembler@
    }

    /// The pattern database.
    pub closed spec fn database(&self) -> Seq<(Seq<char>, Severity)> {
        self.db@
    }

    /// The matcher built from the database.
    pub closed spec fn matcher(&self) -> Matcher {
        self.matcher
    }

    /// Output produced and not yet handed over.
    pub closed spec fn written(&self) -> Seq<u8> {
        self.renderer@
    }

    pub closed spec fn wf(&self) -> bool {
        &&& self.assembler.wf()
        &&& self.matcher.wf()
        &&& self.matcher.targets() == db_targets(self.db@)
        &&& forall|i: int|
            0 <= i < self.matcher.targets().len() ==> (#[trigger] self.matcher.targets()[i]).0
                < self.db@.len()
    }

    pub fn new(renderer: Renderer, db: PatternDatabase) -> (res: Result<Self, MatcherError>)
        ensures
            res is Err <==> uses_automaton(db@) && !aho_build_ok(db_patterns(db@)),
            res matches Ok(p) ==> {
                &&& p.wf()
                &&& p.pending() == Seq::<u8>::empty()
                &&& p.written() == renderer@
                &&& p.database() == db@
                &&& built_from(p.matcher(), db@)
            },
    {
        match Matcher::from_db(&db) {
            Ok(matcher) => Ok(Processor { renderer, assembler: LineAssembler::new(), db, matcher }),
            Err(e) => Err(e),
        }
    }

    /// A processor over the built-in patterns.
    pub fn with_defaults(renderer: Renderer) -> (res: Result<Self, MatcherError>)
        ensures
            res is Err <==> !aho_build_ok(
                crate::matcher::db_patterns(crate::config::defaults::default_filter_table()),
            ),
            res matches Ok(p) ==> {
                &&& p.wf()
                &&& p.pending() == Seq::<u8>::empty()
                &&& p.written() == renderer@
                &&& p.database() == crate::config::defaults::default_filter_table()
                &&& p.matcher() is Aho
                &&& p.matcher().targets() == db_targets(
                    crate::config::defaults::default_filter_table(),
                )
            },
    {
        let config = default_config();
        let defs = config.to_pattern_defs();
        let db = PatternDatabase::from_defs(defs.as_slice());
        proof {
            assert(db@ =~= crate::config::defaults::default_filter_table());
        }
        Self::new(renderer, db)
    }

    /// Process an incoming byte chunk; returns the bytes for the terminal.
    ///
    /// Each complete line is matched on its text without escape sequences,
    /// ASCII-lowercased, and written highlighted or unchanged; a line that
    /// exceeded the line limit is passed through without matching.
    pub fn process_chunk(&mut self, chunk: &[u8]) -> (out: Vec<u8>)
        requires
            old(self).wf(),
            chunk@.len() <= max_push_len(),
        ensures
            final(self).wf(),
            out@ == old(self).written() + events_output(
                push_outcome(old(self).pending(), chunk@).0,
                old(self).matcher(),
                old(self).database(),
            ),
            final(self).pending() == push_outcome(old(self).pending(), chunk@).1,
            forall|j: int|
                0 <= j < push_outcome(old(self).pending(), chunk@).0.len() ==> (#[trigger] push_outcome(
                    old(self).pending(),
                    chunk@,
                ).0[j] matches EventSpec::Line(l) ==> decided_by_targets(
                    old(self).matcher(),
                    match_key(l),
                )),
            final(self).written() == Seq::<u8>::empty(),
            final(self).database() == old(self).database(),
            final(self).matcher() == old(self).matcher(),
    {
        let events = self.assembler.push(chunk);
        let ghost evs = events_view(events@);
        let ghost start = self.renderer@;
        let ghost assembled = self.assembler;
        let mut i: usize = 0;
        while i < events.len()
            invariant
                self.wf(),
                self.db == old(self).db,
                self.matcher == old(self).matcher,
                self.assembler == assembled,
                i <= events@.len(),
                evs == events_view(events@),
                self.renderer@ == start + events_output(evs.take(i as int), self.matcher, self.db@),
                forall|j: int|
                    0 <= j < i ==> (#[trigger] evs[j] matches EventSpec::Line(l) ==> decided_by_targets(
                        self.matcher,
                        match_key(l),
                    )),
            decreases events.len() - i,
        {
            proof {
                assert(evs.take(i + 1).drop_last() =~= evs.take(i as int));
                assert(evs.take(i + 1).last() == evs[i as int]);
            }
            match &events[i] {
                LineEvent::Line(line) => {
                    // Strip ANSI codes so the matcher never sees colour sequences,
                    // then ASCII-lowercase so "error" also matches "ERROR".
                    let key = ascii_lowercase_bytes(strip_ansi(line.as_slice()).as_slice());
                    let maybe_match = self.matcher.check(key.as_slice());
                    proof {
                        self.lemma_match_in_db(key@, maybe_match);
                    }
                    self.renderer.write_line(line.as_slice(), maybe_match, &self.db);
                },
                LineEvent::Overflow(data) => {
                    // Line exceeded the line limit – pass through without matching.
                    self.renderer.write_raw(data.as_slice());
                },
                LineEvent::Partial(_data) => {
                    // Handled in flush().
                },
            }
            i += 1;
        }
        proof {
            assert(evs.take(evs.len() as int) =~= evs);
        }
        self.renderer.flush()
    }

    /// Finishes the stream: the unterminated rest is written (highlighted
    /// inline when it matches, raw otherwise); returns the bytes for the
    /// terminal.
    pub fn flush(&mut self) -> (out: Vec<u8>)
        requires
            old(self).wf(),
        ensures
            final(self).wf(),
            out@ == old(self).written() + flush_output(
                old(self).pending(),
                old(self).matcher(),
                old(self).database(),
            ),
            old(self).pending().len() > 0 ==> decided_by_targets(
                old(self).matcher(),
                match_key(old(self).pending()),
            ),
            final(self).pending() == Seq::<u8>::empty(),
            final(self).written() == Seq::<u8>::empty(),
            final(self).database() == old(self).database(),
            final(self).matcher() == old(self).matcher(),
    {
        let ghost pending = self.assembler@;
        let events = self.assembler.flush();
        proof {
            assert(events_view(events@).len() == events@.len());
        }
        if events.len() > 0 {
            proof {
                assert(events_view(events@)[0] == events@[0]@);
            }
            if let LineEvent::Partial(data) = &events[0] {
                // Best-effort match on trailing partial line.
                let key = ascii_lowercase_bytes(strip_ansi(data.as_slice()).as_slice());
                let maybe_match = self.matcher.check(key.as_slice());
                proof {
                    self.lemma_match_in_db(key@, maybe_match);
                }
                // Partial lines are written without a newline; a match is
                // wrapped inline.
                if let Some(m) = maybe_match {
                    let severity = self.db.severity(m.pattern_id);
                    if ansi::should_beep(severity) {
                        self.renderer.write_raw(ansi::bell().as_slice());
                    }
                    let clean = strip_ansi(data.as_slice());
                    self.renderer.write_raw(ansi::color_code(severity).as_slice());
                    self.renderer.write_raw(clean.as_slice());
                    self.renderer.write_raw(ansi::reset().as_slice());
                    proof {
                        assert(self.renderer@ =~= old(self).renderer@ + highlight(pending, severity));
                    }
                } else {
                    self.renderer.write_raw(data.as_slice());
                }
            }
        }
        proof {
            assert(self.renderer@ =~= old(self).renderer@ + flush_output(
                pending,
                self.matcher,
                self.db@,
            ));
        }
        self.renderer.flush()
    }

    /// A match reported by the matcher names a pattern of the database.
    proof fn lemma_match_in_db(&self, key: Seq<u8>, res: Option<MatchResult>)
        requires
            self.wf(),
            res matches Some(m) ==> exists|i: int|
                0 <= i < self.matcher.targets().len() && (#[trigger] self.matcher.targets()[i]).0
                    == m.pattern_id,
        ensures
            res matches Some(m) ==> m.pattern_id < self.db@.len(),
    {
        if let Some(m) = res {
            let i = choose|i: int|
                0 <= i < self.matcher.targets().len() && (#[trigger] self.matcher.targets()[i]).0
                    == m.pattern_id;
        }
    }
}

/// ASCII-only lowercase: A–Z → a–z, all other bytes unchanged.
fn ascii_lowercase_bytes(bytes: &[u8]) -> (out: Vec<u8>)
    ensures
        out@ == lower_bytes(bytes@),
{
    let mut out: Vec<u8> = Vec::with_capacity(bytes.len());
    let mut i: usize = 0;
    while i < bytes.len()
        invariant
            i <= bytes@.len(),
            out@ =~= lower_bytes(bytes@.subrange(0, i as int)),
        decreases bytes.len() - i,
    {
        out.push(ascii_lower(bytes[i]));
        i += 1;
    }
    proof {
        assert(bytes@.subrange(0, bytes@.len() as int) =~= bytes@);
    }
    out
}

} // verus!
