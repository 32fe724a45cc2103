//! Length of one ANSI / VT100 escape sequence.
use vstd::prelude::*;

verus! {

/// The escape byte that starts every sequence.
pub const ESC: u8 = 0x1B;

/// The bell byte; it also ends an OSC sequence.
pub const BEL: u8 = 0x07;

/// Second bytes of the single-character sequences: `7 8 D M E H c = >`.
pub open spec fn is_single_char_final(c: u8) -> bool {
    c == 0x37 || c == 0x38 || c == 0x44 || c == 0x4D || c == 0x45 || c == 0x48 || c == 0x63 || c
        == 0x3D || c == 0x3E
}

/// Parameter and intermediate bytes of a CSI sequence (0x20–0x3F).
pub open spec fn is_csi_body(c: u8) -> bool {
    0x20 <= c <= 0x3F
}

/// Final bytes of a CSI sequence (0x40–0x7E).
pub open spec fn is_csi_final(c: u8) -> bool {
    0x40 <= c <= 0x7E
}

/// `i` is the first position after `ESC [` that is not a CSI body byte.
pub open spec fn is_csi_stop(s: Seq<u8>, i: int) -> bool {
    &&& 2 <= i < s.len()
    &&& !is_csi_body(s[i])
    &&& forall|j: int| 2 <= j < i ==> is_csi_body(s[j])
}

/// `i` is the first position after `ESC ]` that holds BEL or ESC.
pub open spec fn is_osc_stop(s: Seq<u8>, i: int) -> bool {
    &&& 2 <= i < s.len()
    &&& (s[i] == BEL || s[i] == ESC)
    &&& forall|j: int| 2 <= j < i ==> s[j] != BEL && s[j] != ESC
}

/// Length of the escape sequence at the start of `s`, or 0 when `s` does not
/// start with ESC or the sequence is not complete yet.
///
/// - `ESC` plus one of `7 8 D M E H c = >`: 2 bytes.
/// - CSI, `ESC [` params/intermediates final: up to and including the
///   final byte; a byte that is neither ends a malformed sequence after the
///   ESC alone (1).
/// - OSC, `ESC ]` data, ended by BEL, or by `ESC \` (both bytes); an ESC
///   followed by another byte ends it at that ESC; an ESC that is the last
///   byte may still be followed by `\`, so the sequence is not complete.
/// - `ESC` plus any other byte: 2 bytes.
pub open spec fn escape_len(s: Seq<u8>) -> nat {
    if s.len() < 2 || s[0] != ESC {
        0
    } else if is_single_char_final(s[1]) {
        2
    } else if s[1] == 0x5B {
        if exists|i: int| is_csi_stop(s, i) {
            let i = choose|i: int| is_csi_stop(s, i);
            if is_csi_final(s[i]) {
                (i + 1) as nat
            } else {
                1
            }
        } else {
            0
        }
    } else if s[1] == 0x5D {
        if exists|i: int| is_osc_stop(s, i) {
            let i = choose|i: int| is_osc_stop(s, i);
            if s[i] == BEL {
                (i + 1) as nat
            } else if i + 1 >= s.len() {
                0
            } else if s[i + 1] == 0x5C {
                (i + 2) as nat
            } else {
                (i + 1) as nat
            }
        } else {
            0
        }
    } else {
        2
    }
}

/// A complete sequence is at least the ESC and at most the whole input.
pub proof fn lemma_escape_len_bounds(s: Seq<u8>)
    ensures
        escape_len(s) <= s.len(),
        escape_len(s) > 0 ==> s[0] == ESC,
{
}

/// Law: a complete sequence stays complete, with the same length, whatever
/// bytes follow it.
pub proof fn lemma_escape_len_extend(s: Seq<u8>, t: Seq<u8>)
    requires
        escape_len(s) > 0,
    ensures
        escape_len(s + t) == escape_len(s),
{
    let st = s + t;
    assert(st[0] == s[0] && st[1] == s[1]);
    if s[1] == 0x5B && !is_single_char_final(s[1]) {
        let i = choose|i: int| is_csi_stop(s, i);
        assert forall|j: int| 2 <= j < i implies is_csi_body(st[j]) by {
            assert(st[j] == s[j]);
        }
        assert(st[i] == s[i]);
        assert(is_csi_stop(st, i));
        lemma_csi_stop_at(st, i);
        lemma_csi_stop_at(s, i);
    } else if s[1] == 0x5D && !is_single_char_final(s[1]) {
        let i = choose|i: int| is_osc_stop(s, i);
        assert forall|j: int| 2 <= j < i implies st[j] != BEL && st[j] != ESC by {
            assert(st[j] == s[j]);
        }
        assert(st[i] == s[i]);
        assert(is_osc_stop(st, i));
        lemma_osc_stop_at(st, i);
        lemma_osc_stop_at(s, i);
        if i + 1 < s.len() {
            assert(st[i + 1] == s[i + 1]);
        }
    }
}

/// Given a byte slice starting at an ESC byte (0x1B), returns the total length
/// of the escape sequence (including the ESC itself).
///
/// Returns `0` if the sequence is incomplete or the input does not start with
/// ESC.  This sentinel value tells the `Tokenizer` not to consume any bytes.
pub fn parse_escape_sequence(bytes: &[u8]) -> (n: usize)
    ensures
        n == escape_len(bytes@),
        n <= bytes@.len(),
{
    if bytes.len() == 0 || bytes[0] != 0x1B {
        return 0;
    }
    if bytes.len() == 1 {
        return 0;  // incomplete
    }
    let second = bytes[1];
    if second == 0x37 || second == 0x38 || second == 0x44 || second == 0x4D || second == 0x45
        || second == 0x48 || second == 0x63 || second == 0x3D || second == 0x3E {
        // Single-character sequences (ESC + 1 byte).
        2
    } else if second == 0x5B {
        // CSI: ESC [ <params/intermediates> <final 0x40–0x7E>
        let mut i: usize = 2;
        while i < bytes.len()
            invariant
                2 <= i <= bytes@.len(),
                bytes@.len() >= 2,
                bytes@[0] == ESC,
                bytes@[1] == 0x5B,
                forall|j: int| 2 <= j < i ==> is_csi_body(bytes@[j]),
            decreases bytes.len() - i,
        {
            let ch = bytes[i];
            if 0x40 <= ch && ch <= 0x7E {
                proof {
                    lemma_csi_stop_at(bytes@, i as int);
                    assert(exists|k: int| is_csi_stop(bytes@, k));
                }
                return i + 1;
            }
            if !(0x20 <= ch && ch <= 0x3F) {
                // Malformed; treat just the ESC as consumed.
                proof {
                    lemma_csi_stop_at(bytes@, i as int);
                    assert(exists|k: int| is_csi_stop(bytes@, k));
                }
                return 1;
            }
            i += 1;
        }
        proof {
            assert(!exists|k: int| is_csi_stop(bytes@, k));
        }
        0  // incomplete

    } else if second == 0x5D {
        // OSC: ESC ] <data> BEL  |  ESC ] <data> ESC \
        let mut i: usize = 2;
        while i < bytes.len()
            invariant
                2 <= i <= bytes@.len(),
                bytes@.len() >= 2,
                bytes@[0] == ESC,
                bytes@[1] == 0x5D,
                forall|j: int| 2 <= j < i ==> bytes@[j] != BEL && bytes@[j] != ESC,
            decreases bytes.len() - i,
        {
            let b = bytes[i];
            if b == 0x07 {
                // BEL terminator
                proof {
                    lemma_osc_stop_at(bytes@, i as int);
                    assert(exists|k: int| is_osc_stop(bytes@, k));
                }
                return i + 1;
            }
            if b == 0x1B {
                // ST = ESC \
                proof {
                    lemma_osc_stop_at(bytes@, i as int);
                    assert(exists|k: int| is_osc_stop(bytes@, k));
                }
                if i + 1 == bytes.len() {
                    return 0;  // incomplete: a `\` may still follow
                }
                if bytes[i + 1] == 0x5C {
                    return i + 2;
                }
                return i + 1;
            }
            i += 1;
        }
        proof {
            assert(!exists|k: int| is_osc_stop(bytes@, k));
        }
        0  // incomplete

    } else {
        // Generic 2-byte sequence
        2
    }
}

/// The CSI stop found by the scan is the one `escape_len` chooses.
proof fn lemma_csi_stop_at(s: Seq<u8>, i: int)
    requires
        is_csi_stop(s, i),
    ensures
        (choose|k: int| is_csi_stop(s, k)) == i,
{
    let k = choose|k: int| is_csi_stop(s, k);
    if k < i {
        assert(is_csi_body(s[k]));
    } else if i < k {
        assert(is_csi_body(s[i]));
    }
}

/// The OSC stop found by the scan is the one `escape_len` chooses.
proof fn lemma_osc_stop_at(s: Seq<u8>, i: int)
    requires
        is_osc_stop(s, i),
    ensures
        (choose|k: int| is_osc_stop(s, k)) == i,
{
    let k = choose|k: int| is_osc_stop(s, k);
    if k < i {
        assert(s[k] != BEL && s[k] != ESC);
    } else if i < k {
        assert(s[i] != BEL && s[i] != ESC);
    }
}

/// Law (CSI): `ESC [`, any run of parameter and intermediate bytes
/// (0x20–0x3F), then a final byte (0x40–0x7E) is one sequence: the run plus
/// three bytes, whatever follows.
pub proof fn lemma_csi_length(params: Seq<u8>, last: u8, tail: Seq<u8>)
    requires
        forall|j: int| 0 <= j < params.len() ==> 0x20 <= #[trigger] params[j] <= 0x3F,
        0x40 <= last <= 0x7E,
    ensures
        escape_len(seq![ESC, 0x5Bu8] + params + seq![last] + tail) == params.len() + 3,
{
    let s = seq![ESC, 0x5Bu8] + params + seq![last] + tail;
    let i: int = params.len() as int + 2;
    assert(s[0] == ESC && s[1] == 0x5B);
    assert(s[i] == last);
    assert forall|j: int| 2 <= j < i implies is_csi_body(s[j]) by {
        assert(s[j] == params[j - 2]);
    }
    assert(is_csi_stop(s, i));
    lemma_csi_stop_at(s, i);
}

/// Law (CSI): a byte that is neither a parameter, an intermediate nor a
/// final byte ends a malformed CSI after the ESC alone.
pub proof fn lemma_csi_malformed(params: Seq<u8>, bad: u8, tail: Seq<u8>)
    requires
        forall|j: int| 0 <= j < params.len() ==> 0x20 <= #[trigger] params[j] <= 0x3F,
        !(0x20 <= bad <= 0x7E),
    ensures
        escape_len(seq![ESC, 0x5Bu8] + params + seq![bad] + tail) == 1,
{
    let s = seq![ESC, 0x5Bu8] + params + seq![bad] + tail;
    let i: int = params.len() as int + 2;
    assert(s[0] == ESC && s[1] == 0x5B);
    assert(s[i] == bad);
    assert forall|j: int| 2 <= j < i implies is_csi_body(s[j]) by {
        assert(s[j] == params[j - 2]);
    }
    assert(is_csi_stop(s, i));
    lemma_csi_stop_at(s, i);
}

/// Law (CSI): `ESC [` followed only by parameter and intermediate bytes is
/// not complete yet.
pub proof fn lemma_csi_incomplete(params: Seq<u8>)
    requires
        forall|j: int| 0 <= j < params.len() ==> 0x20 <= #[trigger] params[j] <= 0x3F,
    ensures
        escape_len(seq![ESC, 0x5Bu8] + params) == 0,
{
    let s = seq![ESC, 0x5Bu8] + params;
    assert(s[0] == ESC && s[1] == 0x5B);
    if exists|i: int| is_csi_stop(s, i) {
        let i = choose|i: int| is_csi_stop(s, i);
        assert(s[i] == params[i - 2]);
    }
}

/// Law (OSC): `ESC ]`, data without BEL or ESC, then BEL is one sequence:
/// the data plus three bytes, whatever follows.
pub proof fn lemma_osc_bel(data: Seq<u8>, tail: Seq<u8>)
    requires
        forall|j: int| 0 <= j < data.len() ==> #[trigger] data[j] != 0x07 && data[j] != 0x1B,
    ensures
        escape_len(seq![ESC, 0x5Du8] + data + seq![0x07u8] + tail) == data.len() + 3,
{
    let s = seq![ESC, 0x5Du8] + data + seq![0x07u8] + tail;
    let i: int = data.len() as int + 2;
    assert(s[0] == ESC && s[1] == 0x5D && s[i] == BEL);
    assert forall|j: int| 2 <= j < i implies s[j] != BEL && s[j] != ESC by {
        assert(s[j] == data[j - 2]);
    }
    assert(is_osc_stop(s, i));
    lemma_osc_stop_at(s, i);
}

/// Law (OSC): `ESC ]`, data without BEL or ESC, then the string terminator
/// `ESC \` is one sequence: the data plus four bytes, whatever follows.
pub proof fn lemma_osc_string_terminator(data: Seq<u8>, tail: Seq<u8>)
    requires
        forall|j: int| 0 <= j < data.len() ==> #[trigger] data[j] != 0x07 && data[j] != 0x1B,
    ensures
        escape_len(seq![ESC, 0x5Du8] + data + seq![0x1Bu8, 0x5Cu8] + tail) == data.len() + 4,
{
    let s = seq![ESC, 0x5Du8] + data + seq![0x1Bu8, 0x5Cu8] + tail;
    let i: int = data.len() as int + 2;
    assert(s[0] == ESC && s[1] == 0x5D && s[i] == ESC && s[i + 1] == 0x5C);
    assert forall|j: int| 2 <= j < i implies s[j] != BEL && s[j] != ESC by {
        assert(s[j] == data[j - 2]);
    }
    assert(is_osc_stop(s, i));
    lemma_osc_stop_at(s, i);
}

/// Law (OSC): an ESC in the data that is followed by a byte other than `\`
/// ends the sequence at that ESC.
pub proof fn lemma_osc_other_escape(data: Seq<u8>, next: u8, tail: Seq<u8>)
    requires
        forall|j: int| 0 <= j < data.len() ==> #[trigger] data[j] != 0x07 && data[j] != 0x1B,
        next != 0x5C,
    ensures
        escape_len(seq![ESC, 0x5Du8] + data + seq![0x1Bu8, next] + tail) == data.len() + 3,
{
    let s = seq![ESC, 0x5Du8] + data + seq![0x1Bu8, next] + tail;
    let i: int = data.len() as int + 2;
    assert(s[0] == ESC && s[1] == 0x5D && s[i] == ESC && s[i + 1] == next);
    assert forall|j: int| 2 <= j < i implies s[j] != BEL && s[j] != ESC by {
        assert(s[j] == data[j - 2]);
    }
    assert(is_osc_stop(s, i));
    lemma_osc_stop_at(s, i);
}

/// Law (OSC): an OSC whose data runs to the end of the input, or whose
/// terminator is a lone final ESC, is not complete yet.
pub proof fn lemma_osc_incomplete(data: Seq<u8>)
    requires
        forall|j: int| 0 <= j < data.len() ==> #[trigger] data[j] != 0x07 && data[j] != 0x1B,
    ensures
        escape_len(seq![ESC, 0x5Du8] + data) == 0,
        escape_len(seq![ESC, 0x5Du8] + data + seq![0x1Bu8]) == 0,
{
    let s = seq![ESC, 0x5Du8] + data;
    assert(s[0] == ESC && s[1] == 0x5D);
    if exists|i: int| is_osc_stop(s, i) {
        let i = choose|i: int| is_osc_stop(s, i);
        assert(s[i] == data[i - 2]);
    }
    let t = seq![ESC, 0x5Du8] + data + seq![0x1Bu8];
    let i: int = data.len() as int + 2;
    assert(t[0] == ESC && t[1] == 0x5D && t[i] == ESC);
    assert forall|j: int| 2 <= j < i implies t[j] != BEL && t[j] != ESC by {
        assert(t[j] == data[j - 2]);
    }
    assert(is_osc_stop(t, i));
    lemma_osc_stop_at(t, i);
}

/// Law: ESC followed by any byte that opens neither a CSI (`[`) nor an OSC
/// (`]`) is a two-byte sequence, whatever follows.
pub proof fn lemma_two_byte_sequence(second: u8, tail: Seq<u8>)
    requires
        second != 0x5B,
        second != 0x5D,
    ensures
        escape_len(seq![ESC, second] + tail) == 2,
{
    let s = seq![ESC, second] + tail;
    assert(s[0] == ESC && s[1] == second);
}

/// Law: input that does not start with ESC, or is a lone ESC, holds no
/// sequence.
pub proof fn lemma_no_sequence(s: Seq<u8>)
    requires
        s.len() == 0 || s[0] != 0x1B || s.len() == 1,
    ensures
        escape_len(s) == 0,
{
}

} // verus!
