pub mod ansi;

use vstd::prelude::*;
use crate::scan::{NEWLINE, append_all, append_range};
use crate::parser::ansi_fsm::{ESC, BEL, escape_len, lemma_escape_len_bounds, lemma_escape_len_extend,
    is_csi_stop, is_osc_stop};
use crate::parser::tokenizer::{TokenKind, Tokenizer};
use crate::matcher::classifier::{MatchResult, PatternDatabase, Severity};
use self::ansi::{beeps, bell_bytes, color_bytes, reset_bytes};

verus! {

/// `s` with every complete ANSI / VT100 escape sequence removed. Bytes
/// that are not ESC are kept; at an ESC the sequence there is dropped, or,
/// when it is not complete, the rest of `s` is kept as it is.
pub open spec fn strip_ansi_spec(s: Seq<u8>) -> Seq<u8>
    decreases s.len(),
{
    if s.len() == 0 {
        s
    } else if s[0] != ESC {
        seq![s[0]] + strip_ansi_spec(s.drop_first())
    } else if escape_len(s) == 0 {
        s
    } else {
        strip_ansi_spec(s.skip(escape_len(s) as int))
    }
}

/// A highlighted piece of text: the bell for Error and Critical, the
/// severity's colour, the text with its own escape sequences removed, and
/// the reset sequence.
pub open spec fn highlight(text: Seq<u8>, severity: Severity) -> Seq<u8> {
    (if beeps(severity) {
        bell_bytes()
    } else {
        Seq::empty()
    }) + color_bytes(severity) + strip_ansi_spec(text) + reset_bytes()
}

/// What `write_line` writes for `line`: the highlighted line when it
/// matched, the line unchanged otherwise; a newline in both cases.
pub open spec fn line_output(
    line: Seq<u8>,
    m: Option<MatchResult>,
    db: Seq<(Seq<char>, Severity)>,
) -> Seq<u8> {
    match m {
        Some(m) => highlight(line, db[m.pattern_id as int].1).push(NEWLINE),
        None => line.push(NEWLINE),
    }
}

/// Collects the bytes destined for the terminal.
///
/// **Matched line**: bell for Error / Critical, the severity colour, the
/// line with its own escape sequences removed (so the highlight is not
/// interrupted), the reset sequence, a newline.
/// **Unmatched line**: raw bytes pass through unchanged, plus a newline.
pub struct Renderer {
    out: Vec<u8>,
}

impl View for Renderer {
    type V = Seq<u8>;

    /// The bytes written and not yet flushed.
    closed spec fn view(&self) -> Seq<u8> {
        self.out@
    }
}

impl Renderer {
    pub fn new() -> (r: Self)
        ensures
            r@ == Seq::<u8>::empty(),
    {
        Renderer { out: Vec::new() }
    }

    /// Write a complete logical line.
    pub fn write_line(&mut self, line: &[u8], match_result: Option<MatchResult>, db: &PatternDatabase)
        requires
            match_result matches Some(m) ==> m.pattern_id < db@.len(),
        ensures
            final(self)@ == old(self)@ + line_output(line@, match_result, db@),
    {
        if let Some(m) = match_result {
            let severity = db.severity(m.pattern_id);
            // Audible alert: one byte.
            if ansi::should_beep(severity) {
                append_all(&mut self.out, ansi::bell().as_slice());
            }
            let ghost before_color = self.out@;
            let clean = strip_ansi(line);
            append_all(&mut self.out, ansi::color_code(severity).as_slice());
            append_all(&mut self.out, clean.as_slice());
            append_all(&mut self.out, ansi::reset().as_slice());
            proof {
                assert(self.out@ =~= old(self)@ + highlight(line@, severity));
            }
        } else {
            // Passthrough: preserve every byte including existing ANSI codes.
            append_all(&mut self.out, line);
        }
        // Newline ends the line.
        self.out.push(NEWLINE);
        proof {
            assert(self.out@ =~= old(self)@ + line_output(line@, match_result, db@));
        }
    }

    /// Write raw bytes directly (used for partial / overflow data).
    pub fn write_raw(&mut self, data: &[u8])
        ensures
            final(self)@ == old(self)@ + data@,
    {
        append_all(&mut self.out, data);
    }

    /// Hands over everything written so far; nothing is left pending.
    pub fn flush(&mut self) -> (bytes: Vec<u8>)
        ensures
            bytes@ == old(self)@,
            final(self)@ == Seq::<u8>::empty(),
    {
        let mut bytes: Vec<u8> = Vec::new();
        std::mem::swap(&mut bytes, &mut self.out);
        bytes
    }
}

/// Remove all ANSI / VT100 escape sequences from `data`.
///
/// Uses `parser::tokenizer::Tokenizer` which drives `parser::ansi_fsm` for
/// correct sequence boundary detection.  Only `TokenKind::Text` segments are
/// kept; `TokenKind::Escape` segments are dropped.
pub fn strip_ansi(data: &[u8]) -> (out: Vec<u8>)
    ensures
        out@ == strip_ansi_spec(data@),
{
    let mut out: Vec<u8> = Vec::with_capacity(data.len());
    let mut tokens = Tokenizer::new(data);
    proof {
        assert(data@.skip(0) =~= data@);
    }
    loop
        invariant
            tokens.data() == data@,
            tokens.pos() <= data@.len(),
            out@ + strip_ansi_spec(data@.skip(tokens.pos() as int)) == strip_ansi_spec(data@),
            data@.len() <= usize::MAX,
        ensures
            out@ == strip_ansi_spec(data@),
        decreases data@.len() - tokens.pos(),
    {
        let ghost pos = tokens.pos() as int;
        match tokens.next() {
            None => {
                proof {
                    assert(data@.skip(pos) =~= Seq::<u8>::empty());
                    assert(strip_ansi_spec(data@.skip(pos)) == Seq::<u8>::empty());
                    assert(out@ + Seq::<u8>::empty() =~= out@);
                }
                break;
            },
            Some(token) => {
                proof {
                    lemma_strip_token(data@, pos);
                }
                if token.kind == TokenKind::Text {
                    append_range(&mut out, data, token.start, token.end);
                }
            },
        }
    }
    out
}

/// Law: text without ESC bytes passes through stripping unchanged.
pub proof fn lemma_strip_plain(s: Seq<u8>)
    requires
        forall|k: int| 0 <= k < s.len() ==> s[k] != ESC,
    ensures
        strip_ansi_spec(s) == s,
{
    lemma_strip_text_run(s, 0, s.len() as int);
    assert(s.skip(0) =~= s);
    assert(s.skip(s.len() as int) =~= Seq::<u8>::empty());
    assert(strip_ansi_spec(Seq::<u8>::empty()) == Seq::<u8>::empty());
    assert(s.subrange(0, s.len() as int) + Seq::<u8>::empty() =~= s);
}

/// Law: stripping never adds bytes.
pub proof fn lemma_strip_shorter(s: Seq<u8>)
    ensures
        strip_ansi_spec(s).len() <= s.len(),
    decreases s.len(),
{
    if s.len() == 0 {
    } else if s[0] != ESC {
        lemma_strip_shorter(s.drop_first());
    } else if escape_len(s) == 0 {
    } else {
        lemma_escape_len_bounds(s);
        lemma_strip_shorter(s.skip(escape_len(s) as int));
    }
}

/// Law: stripping twice is stripping once.
pub proof fn lemma_strip_idempotent(s: Seq<u8>)
    ensures
        strip_ansi_spec(strip_ansi_spec(s)) == strip_ansi_spec(s),
    decreases s.len(),
{
    if s.len() == 0 {
    } else if s[0] != ESC {
        let t = s.drop_first();
        lemma_strip_idempotent(t);
        let r = seq![s[0]] + strip_ansi_spec(t);
        assert(r[0] == s[0]);
        assert(r.drop_first() =~= strip_ansi_spec(t));
    } else if escape_len(s) == 0 {
    } else {
        lemma_escape_len_bounds(s);
        lemma_strip_idempotent(s.skip(escape_len(s) as int));
    }
}

/// A run of bytes without ESC is kept as it is.
proof fn lemma_strip_text_run(s: Seq<u8>, p: int, e: int)
    requires
        0 <= p <= e <= s.len(),
        forall|k: int| p <= k < e ==> s[k] != ESC,
    ensures
        strip_ansi_spec(s.skip(p)) == s.subrange(p, e) + strip_ansi_spec(s.skip(e)),
    decreases e - p,
{
    if p < e {
        lemma_strip_text_run(s, p + 1, e);
        assert(s.skip(p).drop_first() =~= s.skip(p + 1));
        assert(s.skip(p)[0] == s[p]);
        assert(s.subrange(p, e) =~= seq![s[p]] + s.subrange(p + 1, e));
    } else {
        assert(s.subrange(p, e) =~= Seq::<u8>::empty());
    }
}

/// Stripping from the start of a token: a text token is kept, an escape
/// token is dropped.
proof fn lemma_strip_token(data: Seq<u8>, pos: int)
    requires
        0 <= pos < data.len() <= usize::MAX,
    ensures
        ({
            let t = crate::parser::tokenizer::token_at(data, pos).unwrap();
            if t.kind == TokenKind::Text {
                strip_ansi_spec(data.skip(pos)) == data.subrange(pos, t.end as int)
                    + strip_ansi_spec(data.skip(t.end as int))
            } else {
                strip_ansi_spec(data.skip(pos)) == strip_ansi_spec(data.skip(t.end as int))
            }
        }),
{
    let rest = data.subrange(pos, data.len() as int);
    assert(rest =~= data.skip(pos));
    let t = crate::parser::tokenizer::token_at(data, pos).unwrap();
    if exists|k: int| crate::scan::is_first_index(rest, ESC, k) {
        let k = choose|k: int| crate::scan::is_first_index(rest, ESC, k);
        if k > 0 {
            assert forall|j: int| pos <= j < pos + k implies data[j] != ESC by {
                assert(rest[j - pos] == data[j]);
            }
            lemma_strip_text_run(data, pos, pos + k);
            assert(t.kind == TokenKind::Text && t.end == pos + k);
        } else if escape_len(rest) == 0 {
            assert(rest[0] == ESC);
            assert(strip_ansi_spec(rest) == rest);
            assert(data.skip(data.len() as int) =~= Seq::<u8>::empty());
            assert(strip_ansi_spec(data.skip(data.len() as int)) == Seq::<u8>::empty());
            assert(data.subrange(pos, data.len() as int) + Seq::<u8>::empty() =~= rest);
            assert(t.kind == TokenKind::Text && t.end == data.len());
        } else {
            lemma_escape_len_bounds(rest);
            assert(rest[0] == ESC);
            assert(strip_ansi_spec(rest) == strip_ansi_spec(rest.skip(escape_len(rest) as int)));
            assert(rest.skip(escape_len(rest) as int) =~= data.skip(pos + escape_len(rest)));
            assert(t.kind == TokenKind::Escape && t.end == pos + escape_len(rest));
        }
    } else {
        assert forall|j: int| pos <= j < data.len() implies data[j] != ESC by {
            assert(rest[j - pos] == data[j]);
            if data[j] == ESC {
                crate::scan::lemma_first_index_exists(rest, ESC, j - pos);
            }
        }
        lemma_strip_text_run(data, pos, data.len() as int);
        assert(data.skip(data.len() as int) =~= Seq::<u8>::empty());
        assert(t.kind == TokenKind::Text && t.end == data.len());
    }
}

/// No escape sequence in `t` is complete: every ESC that is left starts
/// an unfinished one.
pub open spec fn no_complete_escape(t: Seq<u8>) -> bool {
    forall|k: int| 0 <= k < t.len() && t[k] == ESC ==> escape_len(#[trigger] t.skip(k)) == 0
}

/// After `ESC [` with no CSI stop, every byte is a parameter or
/// intermediate byte, so none is an ESC.
proof fn lemma_no_csi_stop(s: Seq<u8>, j: int)
    requires
        2 <= j < s.len(),
        !exists|i: int| is_csi_stop(s, i),
    ensures
        forall|m: int| 2 <= m <= j ==> 0x20 <= #[trigger] s[m] <= 0x3F,
    decreases j,
{
    if j > 2 {
        lemma_no_csi_stop(s, j - 1);
    }
    if !(0x20 <= s[j] <= 0x3F) {
        assert(is_csi_stop(s, j));
    }
}

/// After `ESC ]` with no OSC stop, no byte is BEL or ESC.
proof fn lemma_no_osc_stop(s: Seq<u8>, j: int)
    requires
        2 <= j < s.len(),
        !exists|i: int| is_osc_stop(s, i),
    ensures
        forall|m: int| 2 <= m <= j ==> #[trigger] s[m] != ESC && s[m] != BEL,
    decreases j,
{
    if j > 2 {
        lemma_no_osc_stop(s, j - 1);
    }
    if s[j] == ESC || s[j] == BEL {
        assert(is_osc_stop(s, j));
    }
}

/// An unfinished sequence holds no complete one.
proof fn lemma_unfinished_has_no_sequence(s: Seq<u8>)
    requires
        s.len() > 0,
        s[0] == ESC,
        escape_len(s) == 0,
    ensures
        no_complete_escape(s),
{
    assert forall|k: int| 0 <= k < s.len() && s[k] == ESC implies escape_len(
        #[trigger] s.skip(k),
    ) == 0 by {
        if k == 0 {
            assert(s.skip(0) =~= s);
        } else {
            assert(s.len() >= 2);
            if s[1] == 0x5B {
                if exists|i: int| is_csi_stop(s, i) {
                    let i = choose|i: int| is_csi_stop(s, i);
                    assert(!(0x40 <= s[i] <= 0x7E));
                } else {
                    if k >= 2 {
                        lemma_no_csi_stop(s, k);
                    }
                }
            } else if s[1] == 0x5D {
                if exists|i: int| is_osc_stop(s, i) {
                    let i = choose|i: int| is_osc_stop(s, i);
                    assert(s[i] == ESC && i + 1 >= s.len());
                    if k < i {
                        if k >= 2 {
                            assert(s[k] != ESC);
                        }
                    } else {
                        assert(k == i);
                        assert(s.skip(k).len() == 1);
                    }
                } else {
                    if k >= 2 {
                        lemma_no_osc_stop(s, k);
                    }
                }
            }
        }
    }
}

/// Law: stripping leaves no complete escape sequence behind; the only ESC
/// bytes that survive start the unfinished sequence that ends the input.
pub proof fn lemma_strip_leaves_no_sequence(s: Seq<u8>)
    ensures
        no_complete_escape(strip_ansi_spec(s)),
    decreases s.len(),
{
    if s.len() == 0 {
    } else if s[0] != ESC {
        let r = s.drop_first();
        lemma_strip_leaves_no_sequence(r);
        let t = strip_ansi_spec(s);
        assert(t == seq![s[0]] + strip_ansi_spec(r));
        assert forall|k: int| 0 <= k < t.len() && t[k] == ESC implies escape_len(
            #[trigger] t.skip(k),
        ) == 0 by {
            assert(k > 0);
            assert(t.skip(k) =~= strip_ansi_spec(r).skip(k - 1));
            assert(strip_ansi_spec(r)[k - 1] == t[k]);
        }
    } else if escape_len(s) == 0 {
        lemma_unfinished_has_no_sequence(s);
    } else {
        lemma_escape_len_bounds(s);
        lemma_strip_leaves_no_sequence(s.skip(escape_len(s) as int));
    }
}

/// Law: a complete escape sequence is dropped from where it stands: text
/// without ESC, then a complete sequence, then anything, strips to the text
/// followed by the stripped rest.
pub proof fn lemma_strip_drops_sequence(text: Seq<u8>, esc: Seq<u8>, rest: Seq<u8>)
    requires
        forall|k: int| 0 <= k < text.len() ==> text[k] != ESC,
        escape_len(esc) == esc.len() > 0,
    ensures
        strip_ansi_spec(text + esc + rest) == text + strip_ansi_spec(rest),
{
    let s = text + esc + rest;
    assert forall|k: int| 0 <= k < text.len() implies s[k] != ESC by {
        assert(s[k] == text[k]);
    }
    lemma_strip_text_run(s, 0, text.len() as int);
    assert(s.skip(0) =~= s);
    let tail = s.skip(text.len() as int);
    assert(tail =~= esc + rest);
    lemma_escape_len_extend(esc, rest);
    lemma_escape_len_bounds(esc);
    assert(tail[0] == esc[0]);
    assert(tail.skip(esc.len() as int) =~= rest);
    assert(s.subrange(0, text.len() as int) =~= text);
}

/// Law: a matched line of any severity is written as the bell (for Error
/// and Critical only), the severity's colour, the line's text with its
/// escape sequences removed (so none of them survives to end the
/// highlight early), `ESC [0m` and a newline; an unmatched line is written
/// unchanged, followed by a newline.
pub proof fn lemma_rendered_line(line: Seq<u8>, m: Option<MatchResult>, db: Seq<(Seq<char>, Severity)>)
    requires
        m matches Some(r) ==> r.pattern_id < db.len(),
    ensures
        m matches Some(r) ==> {
            let severity = db[r.pattern_id as int].1;
            &&& line_output(line, m, db) == (if severity == Severity::Error || severity
                == Severity::Critical {
                seq![0x07u8]
            } else {
                Seq::<u8>::empty()
            }) + color_bytes(severity) + strip_ansi_spec(line) + seq![
                0x1Bu8,
                0x5Bu8,
                0x30u8,
                0x6Du8,
                0x0Au8,
            ]
            &&& no_complete_escape(strip_ansi_spec(line))
        },
        m is None ==> line_output(line, m, db) == line + seq![0x0Au8],
{
    lemma_strip_leaves_no_sequence(line);
    if let Some(r) = m {
        let severity = db[r.pattern_id as int].1;
        let b = if severity == Severity::Error || severity == Severity::Critical {
            seq![0x07u8]
        } else {
            Seq::<u8>::empty()
        };
        assert(line_output(line, m, db) =~= b + color_bytes(severity) + strip_ansi_spec(line)
            + seq![0x1Bu8, 0x5Bu8, 0x30u8, 0x6Du8, 0x0Au8]);
    } else {
        assert(line_output(line, m, db) =~= line + seq![0x0Au8]);
    }
}

} // verus!
