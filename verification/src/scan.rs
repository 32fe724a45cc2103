//! Byte-level search primitives shared by the parser, the line assembler and
//! the matchers, stated over `Seq<u8>`.
use vstd::prelude::*;

verus! {

/// The line terminator.
pub const NEWLINE: u8 = 0x0A;

/// `i` is the position of the first `b` in `s`.
pub open spec fn is_first_index(s: Seq<u8>, b: u8, i: int) -> bool {
    &&& 0 <= i < s.len()
    &&& s[i] == b
    &&& forall|j: int| 0 <= j < i ==> s[j] != b
}

/// Position of the first `b` in `s`, if any.
pub open spec fn first_index(s: Seq<u8>, b: u8) -> Option<int> {
    if exists|i: int| is_first_index(s, b, i) {
        Some(choose|i: int| is_first_index(s, b, i))
    } else {
        None
    }
}

/// The UTF-8 bytes of a text.
pub open spec fn str_bytes(s: Seq<char>) -> Seq<u8> {
    vstd::utf8::encode_utf8(s)
}

/// `needle` occurs in `hay` starting at `pos`.
pub open spec fn occurs_at(hay: Seq<u8>, needle: Seq<u8>, pos: int) -> bool {
    &&& 0 <= pos
    &&& pos + needle.len() <= hay.len()
    &&& hay.subrange(pos, pos + needle.len()) == needle
}

/// `pos` is the leftmost occurrence of `needle` in `hay`.
pub open spec fn is_first_occurrence(hay: Seq<u8>, needle: Seq<u8>, pos: int) -> bool {
    &&& occurs_at(hay, needle, pos)
    &&& forall|q: int| 0 <= q < pos ==> !occurs_at(hay, needle, q)
}

/// `needle` occurs somewhere in `hay`.
pub open spec fn contains_subseq(hay: Seq<u8>, needle: Seq<u8>) -> bool {
    exists|q: int| occurs_at(hay, needle, q)
}

/// Leftmost occurrence of `needle` in `hay`, if any.
pub open spec fn first_occurrence(hay: Seq<u8>, needle: Seq<u8>) -> Option<int> {
    if exists|p: int| is_first_occurrence(hay, needle, p) {
        Some(choose|p: int| is_first_occurrence(hay, needle, p))
    } else {
        None
    }
}

/// ASCII lower-casing of one byte: `A`..=`Z` map to `a`..=`z`, every other
/// byte is kept.
pub open spec fn lower_byte(b: u8) -> u8 {
    if 0x41 <= b <= 0x5A {
        (b + 0x20) as u8
    } else {
        b
    }
}

/// ASCII lower-casing of a byte sequence.
pub open spec fn lower_bytes(s: Seq<u8>) -> Seq<u8> {
    Seq::new(s.len(), |i: int| lower_byte(s[i]))
}

/// No byte of `s` is an ASCII upper-case letter.
pub open spec fn no_ascii_upper(s: Seq<u8>) -> bool {
    forall|i: int| 0 <= i < s.len() ==> !(0x41 <= #[trigger] s[i] <= 0x5A)
}

/// Law: lowercasing twice is lowercasing once.
pub proof fn lemma_lower_bytes_idempotent(s: Seq<u8>)
    ensures
        lower_bytes(lower_bytes(s)) == lower_bytes(s),
{
    assert(lower_bytes(lower_bytes(s)) =~= lower_bytes(s));
}

/// Law: a needle without upper-case letters occurs in the lowercased text
/// exactly where the text equals the needle ignoring ASCII case.
pub proof fn lemma_case_insensitive_occurrence(hay: Seq<u8>, needle: Seq<u8>, pos: int)
    requires
        no_ascii_upper(needle),
    ensures
        occurs_at(lower_bytes(hay), needle, pos) <==> {
            &&& 0 <= pos
            &&& pos + needle.len() <= hay.len()
            &&& lower_bytes(hay.subrange(pos, pos + needle.len())) == lower_bytes(needle)
        },
{
    assert(lower_bytes(needle) =~= needle);
    if 0 <= pos && pos + needle.len() <= hay.len() {
        assert(lower_bytes(hay).subrange(pos, pos + needle.len()) =~= lower_bytes(
            hay.subrange(pos, pos + needle.len()),
        ));
    }
}

/// Two first positions of the same byte are the same position.
pub proof fn lemma_first_index_unique(s: Seq<u8>, b: u8, i: int, j: int)
    requires
        is_first_index(s, b, i),
        is_first_index(s, b, j),
    ensures
        i == j,
{
    if i < j {
        assert(s[i] != b);
    } else if j < i {
        assert(s[j] != b);
    }
}

/// Any occurrence of `b` implies that a first occurrence exists.
pub proof fn lemma_first_index_exists(s: Seq<u8>, b: u8, k: int)
    requires
        0 <= k < s.len(),
        s[k] == b,
    ensures
        exists|i: int| is_first_index(s, b, i),
    decreases k,
{
    if exists|j: int| 0 <= j < k && s[j] == b {
        let j = choose|j: int| 0 <= j < k && s[j] == b;
        lemma_first_index_exists(s, b, j);
    } else {
        assert(is_first_index(s, b, k));
    }
}

/// A first occurrence found in a prefix is the first occurrence in the whole
/// sequence.
pub proof fn lemma_first_index_prefix(s: Seq<u8>, n: int, b: u8, i: int)
    requires
        0 <= n <= s.len(),
        is_first_index(s.subrange(0, n), b, i),
    ensures
        is_first_index(s, b, i),
{
    assert forall|j: int| 0 <= j < i implies s[j] != b by {
        assert(s.subrange(0, n)[j] == s[j]);
    }
    assert(s.subrange(0, n)[i] == s[i]);
}

/// `first_index` is the first position, when there is one.
pub proof fn lemma_first_index_is(s: Seq<u8>, b: u8, i: int)
    requires
        is_first_index(s, b, i),
    ensures
        first_index(s, b) == Some(i),
{
    let c = choose|j: int| is_first_index(s, b, j);
    lemma_first_index_unique(s, b, c, i);
}

/// Any occurrence implies a leftmost occurrence.
pub proof fn lemma_first_occurrence_exists(hay: Seq<u8>, needle: Seq<u8>, q: int)
    requires
        occurs_at(hay, needle, q),
    ensures
        exists|p: int| is_first_occurrence(hay, needle, p),
    decreases q,
{
    if exists|p: int| 0 <= p < q && occurs_at(hay, needle, p) {
        let p = choose|p: int| 0 <= p < q && occurs_at(hay, needle, p);
        lemma_first_occurrence_exists(hay, needle, p);
    } else {
        assert(is_first_occurrence(hay, needle, q));
    }
}

/// `first_occurrence` is the leftmost occurrence, when there is one.
pub proof fn lemma_first_occurrence_is(hay: Seq<u8>, needle: Seq<u8>, p: int)
    requires
        is_first_occurrence(hay, needle, p),
    ensures
        first_occurrence(hay, needle) == Some(p),
{
    let c = choose|q: int| is_first_occurrence(hay, needle, q);
    if c < p {
        assert(!occurs_at(hay, needle, c));
    } else if p < c {
        assert(!occurs_at(hay, needle, p));
    }
}

/// First position of byte `needle` in `haystack` (`memchr::memchr`).
///
/// The contract restates the documentation of `memchr::memchr`: the index of
/// the first occurrence of the byte, or `None` when the byte does not occur.
#[verifier::external_body]
pub(crate) fn find_byte(needle: u8, haystack: &[u8]) -> (res: Option<usize>)
    ensures
        match res {
            Some(i) => is_first_index(haystack@, needle, i as int),
            None => forall|k: int| 0 <= k < haystack@.len() ==> haystack@[k] != needle,
        },
{
    memchr::memchr(needle, haystack)
}

/// Leftmost occurrence of `needle` in `haystack` (`memchr::memmem::find`).
///
/// The contract restates the documentation of `memchr::memmem::find`: the
/// index of the first occurrence of the needle (an empty needle occurs at
/// every position, so at 0), or `None` when it does not occur.
#[verifier::external_body]
pub(crate) fn find_subslice(haystack: &[u8], needle: &[u8]) -> (res: Option<usize>)
    ensures
        match res {
            Some(p) => is_first_occurrence(haystack@, needle@, p as int),
            None => !contains_subseq(haystack@, needle@),
        },
{
    memchr::memmem::find(haystack, needle)
}

/// ASCII lower-casing of one byte.
pub(crate) fn ascii_lower(b: u8) -> (r: u8)
    ensures
        r == lower_byte(b),
{
    if 0x41 <= b && b <= 0x5A {
        b + 0x20
    } else {
        b
    }
}

/// Copy of `src[start..end]` as an owned vector.
pub(crate) fn copy_range(src: &[u8], start: usize, end: usize) -> (out: Vec<u8>)
    requires
        start <= end <= src@.len(),
    ensures
        out@ == src@.subrange(start as int, end as int),
{
    let mut out: Vec<u8> = Vec::with_capacity(end - start);
    let mut i: usize = start;
    while i < end
        invariant
            start <= i <= end <= src@.len(),
            out@ == src@.subrange(start as int, i as int),
        decreases end - i,
    {
        out.push(src[i]);
        i += 1;
    }
    out
}

/// Appends `src[start..end]` to `out`.
pub(crate) fn append_range(out: &mut Vec<u8>, src: &[u8], start: usize, end: usize)
    requires
        start <= end <= src@.len(),
    ensures
        final(out)@ == old(out)@ + src@.subrange(start as int, end as int),
{
    let mut i: usize = start;
    while i < end
        invariant
            start <= i <= end <= src@.len(),
            out@ == old(out)@ + src@.subrange(start as int, i as int),
        decreases end - i,
    {
        out.push(src[i]);
        i += 1;
        proof {
            assert(src@.subrange(start as int, i as int) =~= src@.subrange(start as int, i - 1).push(
                src@[i - 1],
            ));
        }
    }
}

/// Appends all of `src` to `out`.
pub(crate) fn append_all(out: &mut Vec<u8>, src: &[u8])
    ensures
        final(out)@ == old(out)@ + src@,
{
    append_range(out, src, 0, src.len());
    proof {
        assert(src@.subrange(0, src@.len() as int) =~= src@);
    }
}

} // verus!
