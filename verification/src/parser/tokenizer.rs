//! Splits bytes into text and escape-sequence tokens.
use vstd::prelude::*;
use crate::scan::{is_first_index, find_byte, lemma_first_index_unique};
use super::ansi_fsm::{ESC, escape_len, parse_escape_sequence, lemma_escape_len_bounds};

verus! {

/// The kind of a token produced by `Tokenizer`.
#[derive(Debug, Clone, Copy, PartialEq, Eq, Structural)]
pub enum TokenKind {
    /// Visible text bytes (no ANSI codes).
    Text,
    /// A complete ANSI / VT100 escape sequence.
    Escape,
}

/// A byte-range token referencing the tokenized slice.
///
/// `start` and `end` are byte indices into the slice passed to `Tokenizer::new`.
#[derive(Debug, Clone, Copy)]
pub struct Token {
    pub kind: TokenKind,
    pub start: usize,
    pub end: usize,  // exclusive
}

/// The token that starts at `pos` in `data`:
/// - text up to the next ESC, when there is text before it;
/// - at an ESC, the complete escape sequence there, or, when it is not
///   complete, all remaining bytes as text;
/// - all remaining bytes as text when no ESC follows.
pub open spec fn token_at(data: Seq<u8>, pos: int) -> Option<Token> {
    if pos < 0 || pos >= data.len() {
        None
    } else {
        let rest = data.subrange(pos, data.len() as int);
        if exists|k: int| is_first_index(rest, ESC, k) {
            let k = choose|k: int| is_first_index(rest, ESC, k);
            if k > 0 {
                Some(Token { kind: TokenKind::Text, start: pos as usize, end: (pos + k) as usize })
            } else if escape_len(rest) == 0 {
                Some(
                    Token {
                        kind: TokenKind::Text,
                        start: pos as usize,
                        end: data.len() as usize,
                    },
                )
            } else {
                Some(
                    Token {
                        kind: TokenKind::Escape,
                        start: pos as usize,
                        end: (pos + escape_len(rest)) as usize,
                    },
                )
            }
        } else {
            Some(Token { kind: TokenKind::Text, start: pos as usize, end: data.len() as usize })
        }
    }
}

/// The tokens handed out from `pos` on, in order, until the data is used up.
pub open spec fn tokens_from(data: Seq<u8>, pos: int) -> Seq<Token>
    decreases data.len() - pos,
{
    if pos < 0 || pos >= data.len() {
        Seq::empty()
    } else {
        let t = token_at(data, pos)->Some_0;
        if pos < t.end <= data.len() {
            seq![t] + tokens_from(data, t.end as int)
        } else {
            seq![t]
        }
    }
}

/// What a token stands for in `data`: an `Escape` token is exactly one
/// complete escape sequence; a `Text` token holds no ESC, or is the
/// incomplete sequence that ends the data.
pub open spec fn token_fits(data: Seq<u8>, t: Token) -> bool {
    let rest = data.subrange(t.start as int, data.len() as int);
    match t.kind {
        TokenKind::Escape => data[t.start as int] == ESC && escape_len(rest) == t.end - t.start,
        TokenKind::Text => (forall|k: int| t.start <= k < t.end ==> data[k] != ESC) || (t.end
            == data.len() && data[t.start as int] == ESC && escape_len(rest) == 0),
    }
}

/// The tokens of `data`: non-empty, each starting where the previous one
/// ended, the first at 0 and the last ending at the end of the data, each
/// fitting its kind; none at all for empty data.
pub open spec fn tokens_tile(data: Seq<u8>, toks: Seq<Token>) -> bool {
    &&& (toks.len() == 0 <==> data.len() == 0)
    &&& toks.len() <= data.len()
    &&& toks.len() > 0 ==> toks[0].start == 0 && toks.last().end == data.len()
    &&& forall|i: int| 0 <= i < toks.len() ==> (#[trigger] toks[i]).start < toks[i].end
    &&& forall|i: int, j: int|
        #![trigger toks[i], toks[j]]
        0 <= i && j == i + 1 && j < toks.len() ==> toks[i].end == toks[j].start
    &&& forall|i: int| 0 <= i < toks.len() ==> token_fits(data, #[trigger] toks[i])
}

/// The token at `pos` starts there, is not empty, stays inside the data
/// and fits its kind.
proof fn lemma_token_at(data: Seq<u8>, pos: int)
    requires
        0 <= pos < data.len() <= usize::MAX,
    ensures
        token_at(data, pos) is Some,
        token_at(data, pos)->Some_0.start == pos,
        pos < token_at(data, pos)->Some_0.end <= data.len(),
        token_fits(data, token_at(data, pos)->Some_0),
{
    let rest = data.subrange(pos, data.len() as int);
    lemma_escape_len_bounds(rest);
    assert(rest[0] == data[pos]);
    if exists|k: int| is_first_index(rest, ESC, k) {
        let k = choose|k: int| is_first_index(rest, ESC, k);
        assert(rest[k] == data[pos + k]);
        if k > 0 {
            let t = Token { kind: TokenKind::Text, start: pos as usize, end: (pos + k) as usize };
            assert(token_at(data, pos) == Some(t));
            assert forall|j: int| t.start <= j < t.end implies data[j] != ESC by {
                assert(rest[j - pos] == data[j]);
            }
        } else if escape_len(rest) == 0 {
            let t = Token { kind: TokenKind::Text, start: pos as usize, end: data.len() as usize };
            assert(token_at(data, pos) == Some(t));
        } else {
            let t = Token {
                kind: TokenKind::Escape,
                start: pos as usize,
                end: (pos + escape_len(rest)) as usize,
            };
            assert(token_at(data, pos) == Some(t));
        }
    } else {
        let t = Token { kind: TokenKind::Text, start: pos as usize, end: data.len() as usize };
        assert(token_at(data, pos) == Some(t));
        assert forall|j: int| t.start <= j < t.end implies data[j] != ESC by {
            assert(rest[j - pos] == data[j]);
            if data[j] == ESC {
                crate::scan::lemma_first_index_exists(rest, ESC, j - pos);
            }
        }
    }
}

/// The tokens from `pos` on tile the rest of the data.
proof fn lemma_tokens_from(data: Seq<u8>, pos: int)
    requires
        0 <= pos <= data.len() <= usize::MAX,
    ensures
        ({
            let toks = tokens_from(data, pos);
            &&& (toks.len() == 0 <==> pos == data.len())
            &&& toks.len() <= data.len() - pos
            &&& toks.len() > 0 ==> toks[0].start == pos && toks.last().end == data.len()
            &&& forall|i: int| 0 <= i < toks.len() ==> (#[trigger] toks[i]).start < toks[i].end
            &&& forall|i: int, j: int|
                #![trigger toks[i], toks[j]]
                0 <= i && j == i + 1 && j < toks.len() ==> toks[i].end == toks[j].start
            &&& forall|i: int| 0 <= i < toks.len() ==> token_fits(data, #[trigger] toks[i])
        }),
    decreases data.len() - pos,
{
    if pos < data.len() {
        lemma_token_at(data, pos);
        let t = token_at(data, pos)->Some_0;
        let next = t.end as int;
        lemma_tokens_from(data, next);
        let rest = tokens_from(data, next);
        let toks = tokens_from(data, pos);
        assert(toks == seq![t] + rest);
        assert forall|i: int| 0 <= i < toks.len() implies (#[trigger] toks[i]).start < toks[i].end
            && token_fits(data, toks[i]) by {
            if i > 0 {
                assert(toks[i] == rest[i - 1]);
            }
        }
        assert forall|i: int, j: int|
            #![trigger toks[i], toks[j]]
            0 <= i && j == i + 1 && j < toks.len() implies toks[i].end == toks[j].start by {
            assert(toks[j] == rest[i]);
            if i > 0 {
                assert(toks[i] == rest[i - 1]);
            }
        }
        if rest.len() > 0 {
            assert(toks.last() == rest.last());
        }
    }
}

/// Law: the tokenizer splits its data into contiguous, non-empty tokens
/// that cover it from the first byte to the last; each `Escape` token is
/// exactly one complete escape sequence, and each `Text` token holds no ESC
/// unless it is the incomplete sequence at the end of the data.
pub proof fn lemma_tokens_tile(data: Seq<u8>)
    requires
        data.len() <= usize::MAX,
    ensures
        tokens_tile(data, tokens_from(data, 0)),
{
    lemma_tokens_from(data, 0);
}

/// Splits a byte slice into alternating `Text` and `Escape` tokens.
///
/// Used by `renderer::strip_ansi` to remove escape sequences before applying
/// highlight colours, so that background colours are not broken by existing
/// ANSI codes (e.g. Docker Compose service-name colours).
pub struct Tokenizer<'a> {
    data: &'a [u8],
    pos: usize,
}

impl<'a> Tokenizer<'a> {
    /// The bytes being split.
    pub closed spec fn data(&self) -> Seq<u8> {
        self.data@
    }

    /// Where the next token starts.
    pub closed spec fn pos(&self) -> nat {
        self.pos as nat
    }

    pub fn new(data: &'a [u8]) -> (t: Self)
        ensures
            t.data() == data@,
            t.pos() == 0,
    {
        Tokenizer { data, pos: 0 }
    }

    /// The next token, or `None` once every byte has been handed out.
    ///
    /// Each token starts where the previous one ended, is never empty and
    /// never runs past the data.
    pub fn next(&mut self) -> (tok: Option<Token>)
        ensures
            tok == token_at(old(self).data(), old(self).pos() as int),
            final(self).data() == old(self).data(),
            match tok {
                Some(t) => {
                    &&& t.start == old(self).pos()
                    &&& t.start < t.end <= old(self).data().len()
                    &&& final(self).pos() == t.end
                },
                None => {
                    &&& old(self).pos() >= old(self).data().len()
                    &&& final(self).pos() == old(self).pos()
                },
            },
    {
        proof {
                }
        if self.pos >= self.data.len() {
            return None;
        }
        let ghost data = self.data@;
        let ghost pos = self.pos as int;
        let remaining = &self.data[self.pos..self.data.len()];
        let ghost rest = remaining@;
        proof {
            assert(rest == data.subrange(pos, data.len() as int));
        }
        if let Some(esc_rel) = find_byte(0x1B, remaining) {
            let esc_abs = self.pos + esc_rel;
            proof {
                let k = choose|k: int| is_first_index(rest, ESC, k);
                lemma_first_index_unique(rest, ESC, k, esc_rel as int);
            }
            // Emit a Text token for bytes before the ESC.
            if esc_abs > self.pos {
                let token = Token { kind: TokenKind::Text, start: self.pos, end: esc_abs };
                self.pos = esc_abs;
                return Some(token);
            }
            // We are exactly at an ESC; parse the escape sequence.

            let len = parse_escape_sequence(remaining);
            if len == 0 {
                // Incomplete sequence at end of data – emit as Text.
                let token = Token { kind: TokenKind::Text, start: self.pos, end: self.data.len() };
                self.pos = self.data.len();
                return Some(token);
            }
            let token = Token { kind: TokenKind::Escape, start: self.pos, end: self.pos + len };
            self.pos = self.pos + len;
            Some(token)
        } else {
            // No more ESC bytes – emit remaining bytes as Text.
            let token = Token { kind: TokenKind::Text, start: self.pos, end: self.data.len() };
            self.pos = self.data.len();
            Some(token)
        }
    }

    /// All the tokens still to come, in order: what calling `next` until it
    /// returns `None` hands out.
    pub fn tokens(self) -> (toks: Vec<Token>)
        ensures
            toks@ == tokens_from(self.data(), self.pos() as int),
    {
        let ghost data = self.data@;
        let ghost start = self.pos as int;
        let mut it = self;
        let len = it.data.len();
        let mut toks: Vec<Token> = Vec::new();
        proof {
            assert(toks@ + tokens_from(data, start) =~= tokens_from(data, start));
        }
        loop
            invariant
                it.data@ == data,
                data == self.data(),
                start == self.pos() as int,
                data.len() == len,
                toks@ + tokens_from(data, it.pos as int) == tokens_from(data, start),
            decreases len - it.pos,
        {
            let ghost pos = it.pos as int;
            match it.next() {
                Some(t) => {
                    proof {
                        assert(tokens_from(data, pos) == seq![t] + tokens_from(data, t.end as int));
                        assert(toks@.push(t) + tokens_from(data, t.end as int) =~= toks@
                            + tokens_from(data, pos));
                    }
                    toks.push(t);
                },
                None => {
                    proof {
                        assert(toks@ + tokens_from(data, pos) =~= toks@);
                    }
                    return toks;
                },
            }
        }
    }
}

} // verus!
