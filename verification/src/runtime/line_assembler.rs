//! Ring-buffer line assembler.
use vstd::prelude::*;
use vstd::arithmetic::div_mod::{lemma_small_mod, lemma_mod_self_0};
use crate::scan::{NEWLINE, is_first_index, find_byte, copy_range, lemma_first_index_unique,
    lemma_first_index_exists, lemma_first_index_prefix};
use super::events::{LineEvent, EventSpec, events_view, event_bytes, events_bytes,
    lemma_events_bytes_concat, lemma_events_bytes_single};

verus! {

/// Initial ring capacity: 16 KiB avoids the first few growths for typical
/// streams.
pub const INITIAL_CAP: usize = 16384;

/// Maximum number of bytes held without a newline before a forced overflow
/// (64 KiB – protects against worst-case scanning).
pub const MAX_LINE_LEN: usize = 65536;

/// Largest ring capacity: the largest power of two a `usize` holds.
pub open spec fn capacity_limit() -> nat {
    (usize::MAX as nat) / 2 + 1
}

/// Largest chunk that one `push` accepts: what is held (at most the line
/// limit) together with the chunk must fit in the largest ring.
pub open spec fn max_push_len() -> nat {
    (capacity_limit() - MAX_LINE_LEN) as nat
}

/// Index `i` of a ring of `cap` slots, for `0 <= i < 2 * cap`.
pub open spec fn wrap_index(cap: int, i: int) -> int {
    if i < cap {
        i
    } else {
        i - cap
    }
}

/// The `len` bytes stored in ring `buf` starting at slot `read`.
pub open spec fn ring_view(buf: Seq<u8>, read: int, len: int) -> Seq<u8> {
    Seq::new(len as nat, |k: int| buf[wrap_index(buf.len() as int, read + k)])
}

/// Splits `s` at each newline: the complete lines (without their newline),
/// in order, and what follows the last newline.
pub open spec fn split_lines(s: Seq<u8>) -> (Seq<Seq<u8>>, Seq<u8>)
    decreases s.len(),
{
    if exists|i: int| is_first_index(s, NEWLINE, i) {
        let i = choose|i: int| is_first_index(s, NEWLINE, i);
        let rest = split_lines(s.subrange(i + 1, s.len() as int));
        (seq![s.subrange(0, i)] + rest.0, rest.1)
    } else {
        (Seq::empty(), s)
    }
}

/// The events emitted for the lines of `lines`.
pub open spec fn line_events(lines: Seq<Seq<u8>>) -> Seq<EventSpec> {
    lines.map_values(|l: Seq<u8>| EventSpec::Line(l))
}

/// The events one `push` of `data` emits when `pending` is held, and what
/// is held afterwards: every complete line in order, then an overflow of the
/// unterminated rest when it is longer than the line limit.
pub open spec fn push_outcome(pending: Seq<u8>, data: Seq<u8>) -> (Seq<EventSpec>, Seq<u8>) {
    let split = split_lines(pending + data);
    if split.1.len() > MAX_LINE_LEN {
        (line_events(split.0).push(EventSpec::Overflow(split.1)), Seq::empty())
    } else {
        (line_events(split.0), split.1)
    }
}

/// The events a flush emits when `pending` is held: the partial line, if
/// there is one.
pub open spec fn flush_outcome(pending: Seq<u8>) -> Seq<EventSpec> {
    if pending.len() == 0 {
        Seq::empty()
    } else {
        seq![EventSpec::Partial(pending)]
    }
}

/// The events a sequence of pushes emits, chunk after chunk, when `pending`
/// is held at first, and what is held after the last one.
pub open spec fn pushes_outcome(pending: Seq<u8>, chunks: Seq<Seq<u8>>) -> (
    Seq<EventSpec>,
    Seq<u8>,
)
    decreases chunks.len(),
{
    if chunks.len() == 0 {
        (Seq::empty(), pending)
    } else {
        let first = push_outcome(pending, chunks[0]);
        let rest = pushes_outcome(first.1, chunks.drop_first());
        (first.0 + rest.0, rest.1)
    }
}

/// The capacity a ring of `cap` slots has once it must hold `needed`
/// bytes: unchanged when they fit, otherwise the smallest power of two
/// that is at least both twice the old capacity and `needed`.
pub open spec fn grown_capacity(cap: nat, needed: nat, new_cap: nat) -> bool {
    if needed <= cap {
        new_cap == cap
    } else {
        is_next_power_of_two(
            new_cap,
            if 2 * cap > needed {
                2 * cap
            } else {
                needed
            },
        )
    }
}

/// The capacity and shrink counter after the end-of-push check, from the
/// capacity `cap` and counter `count` before it and the `used` bytes held:
/// an oversized ring (over 1 MiB holding under 16 KiB) counts the pushes
/// and, after more than 10 000 of them, shrinks to the smallest power of
/// two that holds `used` plus 1 KiB, resetting the count; any other ring
/// keeps its capacity and resets the count.
pub open spec fn shrink_outcome(cap: nat, count: nat, used: nat, new_cap: nat, new_count: nat) -> bool {
    if cap > 1_048_576 && used < 16_384 {
        if count + 1 > 10_000 {
            &&& new_count == 0
            &&& is_next_power_of_two(new_cap, used + 1024)
        } else {
            &&& new_count == count + 1
            &&& new_cap == cap
        }
    } else {
        &&& new_count == 0
        &&& new_cap == cap
    }
}

/// No line event carries a newline.
pub open spec fn lines_unterminated(evs: Seq<EventSpec>) -> bool {
    forall|i: int, k: int|
        #![trigger evs[i], evs[i]->Line_0[k]]
        0 <= i < evs.len() && evs[i] is Line && 0 <= k < evs[i]->Line_0.len()
            ==> evs[i]->Line_0[k] != NEWLINE
}

/// `n` is a power of two.
pub open spec fn is_power_of_two(n: nat) -> bool
    decreases n,
{
    if n == 0 {
        false
    } else if n == 1 {
        true
    } else {
        n % 2 == 0 && is_power_of_two(n / 2)
    }
}

/// Of two powers of two, the smaller is at most half the larger.
pub proof fn lemma_power_of_two_below(p: nat, q: nat)
    requires
        is_power_of_two(p),
        is_power_of_two(q),
        p < q,
    ensures
        2 * p <= q,
    decreases q,
{
    if p > 1 {
        lemma_power_of_two_below(p / 2, q / 2);
    }
}

/// `2^e` is a power of two.
proof fn lemma_pow2_is_power_of_two(e: nat)
    ensures
        is_power_of_two(vstd::arithmetic::power2::pow2(e)),
    decreases e,
{
    vstd::arithmetic::power2::lemma_pow2_pos(e);
    if e == 0 {
        vstd::arithmetic::power2::lemma2_to64();
    } else {
        vstd::arithmetic::power2::lemma_pow2_unfold(e);
        lemma_pow2_is_power_of_two((e - 1) as nat);
        vstd::arithmetic::power2::lemma_pow2_pos((e - 1) as nat);
    }
}

/// The largest ring capacity is a power of two.
pub proof fn lemma_capacity_limit_power_of_two()
    ensures
        is_power_of_two(capacity_limit()),
{
    vstd::arithmetic::power2::lemma2_to64();
    if usize::MAX == 0xffff_ffff {
        lemma_pow2_is_power_of_two(31);
    } else {
        assert(usize::MAX == 0xffff_ffff_ffff_ffff);
        vstd::arithmetic::power2::lemma2_to64_rest();
        lemma_pow2_is_power_of_two(63);
    }
}

/// Two smallest powers of two at least `n` are the same.
pub proof fn lemma_next_power_of_two_unique(r: nat, q: nat, n: nat)
    requires
        is_next_power_of_two(r, n),
        is_next_power_of_two(q, n),
    ensures
        r == q,
{
    if r < q {
        lemma_power_of_two_below(r, q);
    } else if q < r {
        lemma_power_of_two_below(q, r);
    }
}

/// `r` is the smallest power of two that is at least `n`.
pub open spec fn is_next_power_of_two(r: nat, n: nat) -> bool {
    &&& is_power_of_two(r)
    &&& n <= r
    &&& (r == 1 || r / 2 < n)
}

/// The smallest power of two that is at least `n`.
fn next_power_of_two(n: usize) -> (r: usize)
    requires
        1 <= n <= capacity_limit(),
    ensures
        is_next_power_of_two(r as nat, n as nat),
        r < 2 * n,
        r <= capacity_limit(),
{
    let mut p: usize = 1;
    while p < n
        invariant
            1 <= n <= capacity_limit(),
            1 <= p < 2 * n,
            p == 1 || p / 2 < n,
            is_power_of_two(p as nat),
        decreases 2 * n - p,
    {
        assert(is_power_of_two((2 * p) as nat));
        p = p * 2;
    }
    proof {
        lemma_capacity_limit_power_of_two();
        if p > capacity_limit() {
            lemma_power_of_two_below(capacity_limit(), p as nat);
        }
    }
    p
}

/// Ring‑buffer line assembler.
///
/// - Writes into a ring; data is never moved in steady state.
/// - Splits on `\n`; `\r` is preserved as a literal byte.
/// - Growth copies the stored bytes into a larger ring; this only happens
///   during warm-up. An oversized ring shrinks back once it has been
///   stable for many pushes.
pub struct LineAssembler {
    buf: Vec<u8>,
    write_pos: usize,
    read_pos: usize,
    full: bool,
    max_line_len: usize,
    consecutive_reads_since_growth: usize,
}

impl View for LineAssembler {
    type V = Seq<u8>;

    /// The bytes held: received, not yet handed on.
    closed spec fn view(&self) -> Seq<u8> {
        ring_view(self.buf@, self.read_pos as int, self.stored_len() as int)
    }
}

impl LineAssembler {
    /// Number of stored bytes, from the ring indices.
    spec fn stored_len(&self) -> nat {
        if self.full {
            self.buf@.len()
        } else if self.write_pos >= self.read_pos {
            (self.write_pos - self.read_pos) as nat
        } else {
            (self.write_pos + self.buf@.len() - self.read_pos) as nat
        }
    }

    /// Shape of the ring.
    spec fn ring_ok(&self) -> bool {
        &&& 0 < self.buf@.len() <= capacity_limit()
        &&& is_power_of_two(self.buf@.len())
        &&& self.read_pos < self.buf@.len()
        &&& self.write_pos < self.buf@.len()
        &&& self.full ==> self.read_pos == self.write_pos
    }

    /// Shape of the ring and of the bookkeeping fields.
    spec fn inv(&self) -> bool {
        &&& self.ring_ok()
        &&& self.max_line_len == MAX_LINE_LEN
        &&& self.consecutive_reads_since_growth <= 10_000
    }

    /// The stored bytes sit in one segment starting at the read index.
    spec fn contiguous(&self) -> bool {
        self.read_pos + self.stored_len() <= self.buf@.len()
    }

    /// Well-formed between calls: the ring is consistent and what it holds
    /// is an unterminated line of at most `MAX_LINE_LEN` bytes.
    pub closed spec fn wf(&self) -> bool {
        &&& self.inv()
        &&& self@.len() <= MAX_LINE_LEN
        &&& forall|k: int| 0 <= k < self@.len() ==> self@[k] != NEWLINE
    }

    /// Number of slots in the ring.
    pub closed spec fn capacity(&self) -> nat {
        self.buf@.len()
    }

    /// Pushes counted since the last growth or shrink.
    pub closed spec fn reads_since_growth(&self) -> nat {
        self.consecutive_reads_since_growth as nat
    }

    pub fn new() -> (s: Self)
        ensures
            s.wf(),
            s@ == Seq::<u8>::empty(),
            s.capacity() == INITIAL_CAP,
    {
        let cap = INITIAL_CAP;
        proof {
            vstd::arithmetic::power2::lemma2_to64();
            lemma_pow2_is_power_of_two(14);
            lemma_capacity_limit_power_of_two();
        }
        LineAssembler {
            buf: vec![0u8; cap],
            write_pos: 0,
            read_pos: 0,
            full: false,
            max_line_len: MAX_LINE_LEN,
            consecutive_reads_since_growth: 0,
        }
    }

    /// Number of stored bytes.
    fn len(&self) -> (n: usize)
        requires
            self.ring_ok(),
        ensures
            n == self@.len(),
    {
        if self.full {
            self.buf.len()
        } else if self.write_pos >= self.read_pos {
            self.write_pos - self.read_pos
        } else {
            self.write_pos + self.buf.len() - self.read_pos
        }
    }

    fn is_empty(&self) -> (b: bool)
        requires
            self.ring_ok(),
        ensures
            b == (self@.len() == 0),
    {
        self.write_pos == self.read_pos && !self.full
    }

    /// A fresh buffer of `new_cap` bytes that starts with the stored bytes in
    /// order.
    fn linearized(&self, new_cap: usize) -> (out: Vec<u8>)
        requires
            self.ring_ok(),
            self@.len() <= new_cap,
        ensures
            out@.len() == new_cap,
            out@.subrange(0, self@.len() as int) == self@,
    {
        let mut new_buf: Vec<u8> = vec![0u8; new_cap];
        let old_len = self.len();
        let cap = self.buf.len();
        if old_len > 0 {
            if self.read_pos <= self.write_pos && !self.full {
                copy_into(&mut new_buf, 0, self.buf.as_slice(), self.read_pos, self.write_pos);
            } else {
                let first_part = cap - self.read_pos;
                copy_into(&mut new_buf, 0, self.buf.as_slice(), self.read_pos, cap);
                copy_into(&mut new_buf, first_part, self.buf.as_slice(), 0, self.write_pos);
            }
        }
        assert(new_buf@.subrange(0, self@.len() as int) =~= self@);
        new_buf
    }

    /// Write data into the ring buffer, expanding capacity if needed.
    fn extend_from_slice(&mut self, data: &[u8])
        requires
            old(self).inv(),
            old(self)@.len() + data@.len() <= capacity_limit(),
        ensures
            final(self).inv(),
            final(self)@ == old(self)@ + data@,
            grown_capacity(
                old(self).capacity(),
                old(self)@.len() + data@.len(),
                final(self).capacity(),
            ),
            final(self).reads_since_growth() == if old(self)@.len() + data@.len()
                <= old(self).capacity() {
                old(self).reads_since_growth()
            } else {
                0
            },
    {
        let mut remaining = data.len();
        let mut src_offset: usize = 0;

        // If not enough free space, grow.
        let free = self.buf.len() - self.len();
        if free < remaining {
            self.grow(self.len() + remaining);
        }
        let ghost start = *self;
        // Write into one or two contiguous slices.
        while remaining > 0
            invariant
                self.inv(),
                src_offset + remaining == data@.len(),
                self@ == start@ + data@.subrange(0, src_offset as int),
                self@.len() + remaining <= self.buf@.len(),
                self.buf@.len() == start.buf@.len(),
                self.consecutive_reads_since_growth == start.consecutive_reads_since_growth,
                start@ == old(self)@,
            decreases remaining,
        {
            let cap = self.buf.len();
            let first_len = if self.write_pos >= self.read_pos {
                cap - self.write_pos
            } else {
                self.read_pos - self.write_pos
            };
            let to_write = if remaining < first_len {
                remaining
            } else {
                first_len
            };
            let ghost before = *self;
            let ghost len0 = self@.len() as int;
            let w = self.write_pos;
            copy_into(&mut self.buf, w, data, src_offset, src_offset + to_write);
            proof {
                let r = self.read_pos as int;
                assert(!self.full);
                let d = data@.subrange(src_offset as int, src_offset + to_write);
                assert forall|j: int| 0 <= j < d.len() implies self.buf@[w + j] == #[trigger] d[j] by {
                    assert(self.buf@[w + j] == data@[src_offset + j]);
                }
                lemma_ring_extend(before.buf@, self.buf@, r, len0, w as int, d);
            }
            proof {
                if w + to_write < cap {
                    lemma_small_mod((w + to_write) as nat, cap as nat);
                } else {
                    lemma_mod_self_0(cap as int);
                }
            }
            self.write_pos = (self.write_pos + to_write) % cap;
            remaining -= to_write;
            src_offset += to_write;

            if self.write_pos == self.read_pos {
                self.full = true;
            }
            proof {
                assert(self.stored_len() == len0 + to_write);
                assert(data@.subrange(0, src_offset as int) =~= data@.subrange(
                    0,
                    src_offset - to_write,
                ) + data@.subrange(src_offset - to_write, src_offset as int));
            }
        }
        assert(data@.subrange(0, data@.len() as int) =~= data@);
    }

    /// Moves the stored bytes to the front of a new ring whose capacity is the
    /// smallest power of two that is at least both twice the old capacity and
    /// `min_capacity`.
    fn grow(&mut self, min_capacity: usize)
        requires
            old(self).inv(),
            old(self).buf@.len() < min_capacity <= capacity_limit(),
        ensures
            final(self).inv(),
            final(self)@ == old(self)@,
            is_next_power_of_two(
                final(self).capacity(),
                if 2 * old(self).capacity() > min_capacity {
                    2 * old(self).capacity()
                } else {
                    min_capacity as nat
                },
            ),
            !final(self).full,
            final(self).read_pos == 0,
            final(self).write_pos == old(self)@.len(),
            final(self).reads_since_growth() == 0,
    {
        proof {
            lemma_capacity_limit_power_of_two();
            lemma_power_of_two_below(self.buf@.len(), capacity_limit());
        }
        let doubled = self.buf.len() * 2;
        let wanted = if doubled > min_capacity {
            doubled
        } else {
            min_capacity
        };
        let new_cap = next_power_of_two(wanted);
        // Drain old data into linear arrangement.
        let old_len = self.len();
        let new_buf = self.linearized(new_cap);
        let ghost old_view = self@;
        self.buf = new_buf;
        self.read_pos = 0;
        self.write_pos = old_len;
        self.full = old_len == self.buf.len();  // false: the ring just grew

        // Reset shrink throttle on growth.
        self.consecutive_reads_since_growth = 0;
        assert(self@ =~= old_view);
    }

    /// Shrink the buffer if it is oversized and has been stable for long enough.
    fn maybe_shrink(&mut self)
        requires
            old(self).inv(),
        ensures
            final(self).inv(),
            final(self)@ == old(self)@,
            shrink_outcome(
                old(self).capacity(),
                old(self).reads_since_growth(),
                old(self)@.len(),
                final(self).capacity(),
                final(self).reads_since_growth(),
            ),
    {
        let used = self.len();
        if self.buf.len() > 1_048_576 && used < 16_384 {
            self.consecutive_reads_since_growth += 1;
            if self.consecutive_reads_since_growth > 10_000 {
                // Shrink down to next_power_of_two(used + 1024)
                let new_cap = next_power_of_two(used + 1024);
                if new_cap < self.buf.len() {
                    let new_buf = self.linearized(new_cap);
                    let ghost old_view = self@;
                    self.buf = new_buf;
                    self.read_pos = 0;
                    self.write_pos = used;
                    self.full = false;
                    assert(self@ =~= old_view);
                }
                self.consecutive_reads_since_growth = 0;
            }
        } else {
            self.consecutive_reads_since_growth = 0;
        }
    }

    /// Make the stored data contiguous by rearranging the ring buffer.
    fn make_contiguous(&mut self)
        requires
            old(self).inv(),
        ensures
            final(self).inv(),
            final(self)@ == old(self)@,
            final(self).capacity() == old(self).capacity(),
            final(self).reads_since_growth() == old(self).reads_since_growth(),
            final(self).read_pos == 0 || final(self)@.len() == 0,
            final(self).contiguous(),
    {
        if self.is_empty() || (self.read_pos == 0 && !self.full && self.write_pos > 0) {
            return;
        }
        let len = self.len();
        let cap = self.buf.len();
        let new_buf = self.linearized(cap);
        let ghost old_view = self@;
        self.buf = new_buf;
        self.read_pos = 0;
        // When every slot is occupied the write index wraps to the start.
        self.full = len == cap;
        self.write_pos = if self.full {
            0
        } else {
            len
        };
        assert(self@ =~= old_view);
    }

    /// Returns the start index and length of the first contiguous segment.
    fn linear_read_range(&self) -> (r: (usize, usize))
        requires
            self.inv(),
        ensures
            r.0 == self.read_pos,
            r.1 == if self.contiguous() {
                self@.len()
            } else {
                (self.buf@.len() - self.read_pos) as nat
            },
            r.0 + r.1 <= self.buf@.len(),
    {
        if self.is_empty() {
            (self.read_pos, 0)
        } else if self.write_pos > self.read_pos {
            (self.read_pos, self.write_pos - self.read_pos)
        } else {
            (self.read_pos, self.buf.len() - self.read_pos)
        }
    }

    /// Feed a chunk of data; returns an event for each completed line, in
    /// order, then an overflow event when the unterminated rest exceeds the
    /// line limit.
    pub fn push(&mut self, data: &[u8]) -> (events: Vec<LineEvent>)
        requires
            old(self).wf(),
            data@.len() <= max_push_len(),
        ensures
            final(self).wf(),
            events_view(events@) == push_outcome(old(self)@, data@).0,
            final(self)@ == push_outcome(old(self)@, data@).1,
            exists|grown: nat|
                #[trigger] grown_capacity(
                    old(self).capacity(),
                    old(self)@.len() + data@.len(),
                    grown,
                )
                    && shrink_outcome(
                    grown,
                    if old(self)@.len() + data@.len() <= old(self).capacity() {
                        old(self).reads_since_growth()
                    } else {
                        0
                    },
                    final(self)@.len(),
                    final(self).capacity(),
                    final(self).reads_since_growth(),
                ),
    {
        self.extend_from_slice(data);
        let ghost grown = self.buf@.len();
        let ghost count = self.consecutive_reads_since_growth as nat;
        let ghost all = old(self)@ + data@;
        let mut events: Vec<LineEvent> = Vec::new();

        loop
            invariant_except_break
                self.inv(),
                events_view(events@) + line_events(split_lines(self@).0) == line_events(
                    split_lines(all).0,
                ),
                split_lines(self@).1 == split_lines(all).1,
            invariant
                self.inv(),
                all == old(self)@ + data@,
                self.buf@.len() == grown,
                self.consecutive_reads_since_growth == count,
            ensures
                self.inv(),
                events_view(events@) == push_outcome(old(self)@, data@).0,
                self@ == push_outcome(old(self)@, data@).1,
            decreases self@.len(),
                if self.contiguous() {
                    0int
                } else {
                    1int
                },
        {
            if self.is_empty() {
                proof {
                    lemma_split_no_newline(self@);
                    assert(line_events(split_lines(self@).0) =~= Seq::<EventSpec>::empty());
                    assert(events_view(events@) =~= line_events(split_lines(all).0));
                }
                break;
            }
            let (first_start, first_len) = self.linear_read_range();
            let ghost view0 = self@;
            proof {
                self.lemma_first_segment(first_len as int);
            }
            let found = find_byte(NEWLINE, &self.buf[first_start..first_start + first_len]);
            if let Some(pos) = found {
                // Found newline in first segment.
                let line_len = pos;  // bytes before newline
                let line = copy_range(self.buf.as_slice(), first_start, first_start + line_len);
                let consume = line_len + 1;
                let cap = self.buf.len();
                proof {
                    assert(self.buf@.subrange(first_start as int, first_start + first_len)
                        =~= view0.subrange(0, first_len as int));
                    lemma_first_index_prefix(view0, first_len as int, NEWLINE, pos as int);
                    lemma_split_first_line(view0, pos as int);
                    assert(line@ =~= view0.subrange(0, pos as int));
                    if self.read_pos + consume < cap {
                        lemma_small_mod((self.read_pos + consume) as nat, cap as nat);
                    } else {
                        lemma_mod_self_0(cap as int);
                    }
                }
                self.read_pos = (self.read_pos + consume) % cap;
                self.full = false;
                proof {
                    assert(self@ =~= view0.subrange(consume as int, view0.len() as int));
                }
                let ghost ev0 = events_view(events@);
                events.push(LineEvent::Line(line));
                proof {
                    assert(events_view(events@) =~= ev0.push(EventSpec::Line(line@)));
                    let rest = split_lines(self@);
                    assert(line_events(split_lines(view0).0) =~= seq![EventSpec::Line(line@)]
                        + line_events(rest.0));
                    assert(events_view(events@) + line_events(split_lines(self@).0) =~= ev0
                        + line_events(split_lines(view0).0));
                }
            } else {
                let (second_start, second_len) = if self.write_pos < self.read_pos || self.full {
                    (0, self.write_pos)
                } else {
                    (0, 0)
                };
                if second_len > 0 {
                    let found2 = find_byte(
                        NEWLINE,
                        &self.buf[second_start..second_start + second_len],
                    );
                    if found2.is_some() {
                        // Line spans the end of the first segment + part of the second.
                        // Make contiguous and retry.
                        self.make_contiguous();
                        continue;
                    }
                }
                // No newline anywhere in the stored bytes.
                proof {
                    self.lemma_no_newline_in_segments(first_len as int, second_len as int);
                    lemma_split_no_newline(self@);
                    assert(line_events(split_lines(self@).0) =~= Seq::<EventSpec>::empty());
                    assert(events_view(events@) =~= line_events(split_lines(all).0));
                }
                let ghost rest = self@;
                assert(rest == split_lines(all).1);
                let total_len = self.len();
                if total_len > self.max_line_len {
                    self.make_contiguous();
                    let total = self.len();
                    let overflow = copy_range(self.buf.as_slice(), 0, total);
                    proof {
                        assert(overflow@ =~= self@);
                    }
                    let ghost ev0 = events_view(events@);
                    events.push(LineEvent::Overflow(overflow));
                    self.read_pos = 0;
                    self.write_pos = 0;
                    self.full = false;
                    proof {
                        assert(events_view(events@) =~= ev0.push(
                            EventSpec::Overflow(overflow@),
                        ));
                        assert(self@ =~= Seq::<u8>::empty());
                    }
                }
                break;
            }
        }
        proof {
            lemma_split_rest_no_newline(all);
        }
        self.maybe_shrink();
        events
    }

    /// Flush any remaining unterminated data.
    pub fn flush(&mut self) -> (events: Vec<LineEvent>)
        requires
            old(self).wf(),
        ensures
            final(self).wf(),
            final(self)@ == Seq::<u8>::empty(),
            events_view(events@) == flush_outcome(old(self)@),
    {
        let mut events: Vec<LineEvent> = Vec::new();
        if !self.is_empty() {
            self.make_contiguous();
            let total = self.len();
            let data = copy_range(self.buf.as_slice(), 0, total);
            proof {
                assert(data@ =~= self@);
            }
            events.push(LineEvent::Partial(data));
            self.write_pos = 0;
            self.read_pos = 0;
            self.full = false;
            assert(self@ =~= Seq::<u8>::empty());
        }
        assert(events_view(events@) =~= if old(self)@.len() == 0 {
            Seq::<EventSpec>::empty()
        } else {
            seq![EventSpec::Partial(old(self)@)]
        });
        events
    }

    /// The first segment `buf[read..read + first_len]` is the start of the
    /// stored bytes.
    proof fn lemma_first_segment(&self, first_len: int)
        requires
            self.inv(),
            first_len == if self.contiguous() {
                self@.len() as int
            } else {
                self.buf@.len() - self.read_pos
            },
        ensures
            first_len <= self@.len(),
            self.read_pos + first_len <= self.buf@.len(),
            self.buf@.subrange(self.read_pos as int, self.read_pos + first_len) == self@.subrange(
                0,
                first_len,
            ),
    {
        assert(self.buf@.subrange(self.read_pos as int, self.read_pos + first_len) =~= self@.subrange(
            0,
            first_len,
        ));
    }

    /// When neither segment holds a newline, no stored byte is one.
    proof fn lemma_no_newline_in_segments(&self, first_len: int, second_len: int)
        requires
            self.inv(),
            first_len == if self.contiguous() {
                self@.len() as int
            } else {
                self.buf@.len() - self.read_pos
            },
            forall|k: int|
                0 <= k < first_len ==> #[trigger] self.buf@.subrange(
                    self.read_pos as int,
                    self.read_pos + first_len,
                )[k] != NEWLINE,
            second_len == if self.write_pos < self.read_pos || self.full {
                self.write_pos as int
            } else {
                0
            },
            second_len > 0 ==> forall|k: int|
                0 <= k < second_len ==> #[trigger] self.buf@.subrange(0, second_len)[k] != NEWLINE,
        ensures
            forall|k: int| 0 <= k < self@.len() ==> self@[k] != NEWLINE,
    {
        self.lemma_first_segment(first_len);
        assert forall|k: int| 0 <= k < self@.len() implies self@[k] != NEWLINE by {
            if k < first_len {
                assert(self.buf@.subrange(self.read_pos as int, self.read_pos + first_len)[k]
                    == self@[k]);
            } else {
                assert(self.buf@.subrange(0, second_len)[k - first_len] == self@[k]);
            }
        }
    }
}

/// Overwrites `dst[at..at + (end - start)]` with `src[start..end]`.
fn copy_into(dst: &mut Vec<u8>, at: usize, src: &[u8], start: usize, end: usize)
    requires
        start <= end <= src@.len(),
        at + (end - start) <= old(dst)@.len(),
    ensures
        final(dst)@.len() == old(dst)@.len(),
        forall|i: int|
            0 <= i < final(dst)@.len() ==> #[trigger] final(dst)@[i] == if at <= i < at + (end
                - start) {
                src@[start + (i - at)]
            } else {
                old(dst)@[i]
            },
{
    let dst_len = dst.len();
    let mut k: usize = 0;
    while k < end - start
        invariant
            start <= end <= src@.len(),
            at + (end - start) <= old(dst)@.len(),
            old(dst)@.len() == dst_len,
            dst@.len() == old(dst)@.len(),
            k <= end - start,
            forall|i: int|
                0 <= i < dst@.len() ==> #[trigger] dst@[i] == if at <= i < at + k {
                    src@[start + (i - at)]
                } else {
                    old(dst)@[i]
                },
        decreases end - start - k,
    {
        dst.set(at + k, src[start + k]);
        k += 1;
    }
}

/// Writing `d` into the free slots that follow the stored bytes appends `d`.
proof fn lemma_ring_extend(buf: Seq<u8>, buf2: Seq<u8>, r: int, len: int, w: int, d: Seq<u8>)
    requires
        buf2.len() == buf.len(),
        0 <= r < buf.len(),
        0 <= len,
        len + d.len() <= buf.len(),
        w == wrap_index(buf.len() as int, r + len),
        w + d.len() <= buf.len(),
        forall|p: int|
            0 <= p < buf.len() && !(w <= p < w + d.len()) ==> #[trigger] buf2[p] == buf[p],
        forall|j: int| 0 <= j < d.len() ==> buf2[w + j] == #[trigger] d[j],
    ensures
        ring_view(buf2, r, len + d.len()) == ring_view(buf, r, len) + d,
{
    let cap = buf.len() as int;
    assert forall|k: int| 0 <= k < len + d.len() implies #[trigger] ring_view(
        buf2,
        r,
        len + d.len(),
    )[k] == (ring_view(buf, r, len) + d)[k] by {
        let p = wrap_index(cap, r + k);
        if k >= len {
            assert(p == w + (k - len));
            assert(d[k - len] == buf2[w + (k - len)]);
        } else {
            assert(buf2[p] == buf[p]);
        }
    }
    assert(ring_view(buf2, r, len + d.len()) =~= ring_view(buf, r, len) + d);
}

/// A sequence whose first newline is at `i` splits into the line before it
/// and the split of what follows it.
proof fn lemma_split_first_line(s: Seq<u8>, i: int)
    requires
        is_first_index(s, NEWLINE, i),
    ensures
        split_lines(s).0 == seq![s.subrange(0, i)] + split_lines(s.subrange(i + 1, s.len() as int)).0,
        split_lines(s).1 == split_lines(s.subrange(i + 1, s.len() as int)).1,
{
    let c = choose|j: int| is_first_index(s, NEWLINE, j);
    lemma_first_index_unique(s, NEWLINE, c, i);
}

/// A sequence without a newline is all rest.
proof fn lemma_split_no_newline(s: Seq<u8>)
    requires
        forall|k: int| 0 <= k < s.len() ==> s[k] != NEWLINE,
    ensures
        split_lines(s).0 == Seq::<Seq<u8>>::empty(),
        split_lines(s).1 == s,
{
    if exists|i: int| is_first_index(s, NEWLINE, i) {
        let i = choose|i: int| is_first_index(s, NEWLINE, i);
        assert(s[i] == NEWLINE);
    }
}

/// Law: splitting into lines loses nothing. The lines, each with its
/// newline restored, followed by the unterminated rest, are the input.
pub proof fn lemma_split_reassembles(s: Seq<u8>)
    ensures
        events_bytes(line_events(split_lines(s).0)) + split_lines(s).1 == s,
    decreases s.len(),
{
    if exists|i: int| is_first_index(s, NEWLINE, i) {
        let i = choose|i: int| is_first_index(s, NEWLINE, i);
        let tail = s.subrange(i + 1, s.len() as int);
        let line = s.subrange(0, i);
        lemma_split_reassembles(tail);
        let rest = split_lines(tail);
        assert(line_events(split_lines(s).0) =~= seq![EventSpec::Line(line)] + line_events(rest.0));
        lemma_events_bytes_concat(seq![EventSpec::Line(line)], line_events(rest.0));
        lemma_events_bytes_single(EventSpec::Line(line));
        assert(s =~= line.push(NEWLINE) + tail);
        assert(events_bytes(line_events(split_lines(s).0)) + split_lines(s).1 =~= line.push(NEWLINE)
            + (events_bytes(line_events(rest.0)) + rest.1));
    } else {
        assert(line_events(split_lines(s).0) =~= Seq::<EventSpec>::empty());
        assert(Seq::<u8>::empty() + s =~= s);
    }
}

/// Law: no line handed out contains a newline.
pub proof fn lemma_lines_have_no_newline(s: Seq<u8>)
    ensures
        forall|j: int, k: int|
            0 <= j < split_lines(s).0.len() && 0 <= k < split_lines(s).0[j].len()
                ==> #[trigger] split_lines(s).0[j][k] != NEWLINE,
    decreases s.len(),
{
    if exists|i: int| is_first_index(s, NEWLINE, i) {
        let i = choose|i: int| is_first_index(s, NEWLINE, i);
        let tail = s.subrange(i + 1, s.len() as int);
        lemma_lines_have_no_newline(tail);
        assert forall|j: int, k: int|
            0 <= j < split_lines(s).0.len() && 0 <= k < split_lines(s).0[j].len()
                implies #[trigger] split_lines(s).0[j][k] != NEWLINE by {
            if j == 0 {
                assert(split_lines(s).0[0] == s.subrange(0, i));
                assert(s.subrange(0, i)[k] == s[k]);
            } else {
                assert(split_lines(s).0[j] == split_lines(tail).0[j - 1]);
            }
        }
    }
}

/// Law: a push loses nothing. The bytes of the events it emits, followed
/// by what it holds afterwards, are what it held before followed by the
/// new data.
pub proof fn lemma_push_lossless(pending: Seq<u8>, data: Seq<u8>)
    ensures
        events_bytes(push_outcome(pending, data).0) + push_outcome(pending, data).1 == pending + data,
{
    let split = split_lines(pending + data);
    lemma_split_reassembles(pending + data);
    if split.1.len() > MAX_LINE_LEN {
        lemma_events_bytes_concat(line_events(split.0), seq![EventSpec::Overflow(split.1)]);
        lemma_events_bytes_single(EventSpec::Overflow(split.1));
        assert(line_events(split.0).push(EventSpec::Overflow(split.1)) =~= line_events(split.0)
            + seq![EventSpec::Overflow(split.1)]);
        assert(events_bytes(push_outcome(pending, data).0) + push_outcome(pending, data).1
            =~= events_bytes(line_events(split.0)) + split.1);
    }
}

/// Law: a push followed by the final flush hands out every byte, in order.
pub proof fn lemma_push_flush_lossless(pending: Seq<u8>, data: Seq<u8>)
    ensures
        events_bytes(
            push_outcome(pending, data).0 + flush_outcome(push_outcome(pending, data).1),
        ) == pending + data,
{
    let out = push_outcome(pending, data);
    lemma_push_lossless(pending, data);
    lemma_events_bytes_concat(out.0, flush_outcome(out.1));
    if out.1.len() == 0 {
        assert(events_bytes(flush_outcome(out.1)) =~= Seq::<u8>::empty());
        assert(events_bytes(out.0) + Seq::<u8>::empty() =~= events_bytes(out.0));
        assert(events_bytes(out.0) + out.1 =~= events_bytes(out.0));
    } else {
        lemma_events_bytes_single(EventSpec::Partial(out.1));
    }
}

/// Splitting a concatenation: the lines of `s`, then the lines of what `s`
/// leaves unterminated followed by `t`.
pub proof fn lemma_split_concat(s: Seq<u8>, t: Seq<u8>)
    ensures
        split_lines(s + t).0 == split_lines(s).0 + split_lines(split_lines(s).1 + t).0,
        split_lines(s + t).1 == split_lines(split_lines(s).1 + t).1,
    decreases s.len(),
{
    if exists|i: int| is_first_index(s, NEWLINE, i) {
        let i = choose|i: int| is_first_index(s, NEWLINE, i);
        let st = s + t;
        assert forall|j: int| 0 <= j < i implies st[j] != NEWLINE by {
            assert(st[j] == s[j]);
        }
        assert(is_first_index(st, NEWLINE, i));
        lemma_split_first_line(st, i);
        let tail = s.subrange(i + 1, s.len() as int);
        assert(st.subrange(i + 1, st.len() as int) =~= tail + t);
        assert(st.subrange(0, i) =~= s.subrange(0, i));
        lemma_split_concat(tail, t);
        assert(split_lines(st).0 =~= split_lines(s).0 + split_lines(split_lines(s).1 + t).0);
    } else {
        assert(split_lines(s).0 =~= Seq::<Seq<u8>>::empty());
        assert(split_lines(s).1 == s);
        assert(Seq::<Seq<u8>>::empty() + split_lines(s + t).0 =~= split_lines(s + t).0);
    }
}

/// Law: chunk boundaries do not change the lines. Pushing `a` then `b`
/// emits the events that pushing `a + b` at once emits, and leaves the same
/// bytes held, unless the first push overflows.
pub proof fn lemma_chunking_invariant(pending: Seq<u8>, a: Seq<u8>, b: Seq<u8>)
    requires
        split_lines(pending + a).1.len() <= MAX_LINE_LEN,
    ensures
        push_outcome(pending, a).0 + push_outcome(push_outcome(pending, a).1, b).0 == push_outcome(
            pending,
            a + b,
        ).0,
        push_outcome(push_outcome(pending, a).1, b).1 == push_outcome(pending, a + b).1,
{
    let s = pending + a;
    lemma_split_concat(s, b);
    assert(pending + (a + b) =~= s + b);
    let rest = split_lines(s).1;
    let second = split_lines(rest + b);
    assert(line_events(split_lines(s + b).0) =~= line_events(split_lines(s).0) + line_events(
        second.0,
    ));
    if second.1.len() > MAX_LINE_LEN {
        assert(line_events(split_lines(s).0) + line_events(second.0).push(
            EventSpec::Overflow(second.1),
        ) =~= (line_events(split_lines(s).0) + line_events(second.0)).push(
            EventSpec::Overflow(second.1),
        ));
    }
}

/// Law: a well-formed assembler holds an unterminated line of at most
/// `MAX_LINE_LEN` bytes.
pub proof fn lemma_pending_is_unterminated(a: &LineAssembler)
    requires
        a.wf(),
    ensures
        a@.len() <= MAX_LINE_LEN,
        forall|k: int| 0 <= k < a@.len() ==> a@[k] != NEWLINE,
{
}

/// What follows the last newline holds no newline.
pub proof fn lemma_split_rest_no_newline(s: Seq<u8>)
    ensures
        forall|k: int| 0 <= k < split_lines(s).1.len() ==> split_lines(s).1[k] != NEWLINE,
    decreases s.len(),
{
    if exists|i: int| is_first_index(s, NEWLINE, i) {
        let i = choose|i: int| is_first_index(s, NEWLINE, i);
        lemma_split_rest_no_newline(s.subrange(i + 1, s.len() as int));
        assert(split_lines(s).1 == split_lines(s.subrange(i + 1, s.len() as int)).1);
    } else {
        assert(split_lines(s).1 == s);
        assert forall|k: int| 0 <= k < s.len() implies s[k] != NEWLINE by {
            if s[k] == NEWLINE {
                lemma_first_index_exists(s, NEWLINE, k);
            }
        }
    }
}

/// The lines of one push carry no newline.
proof fn lemma_push_lines_unterminated(pending: Seq<u8>, data: Seq<u8>)
    ensures
        lines_unterminated(push_outcome(pending, data).0),
{
    let split = split_lines(pending + data);
    lemma_lines_have_no_newline(pending + data);
    let evs = push_outcome(pending, data).0;
    assert forall|i: int, k: int|
        0 <= i < evs.len() && evs[i] is Line && 0 <= k < evs[i]->Line_0.len() implies #[trigger] evs[i]->Line_0[k]
        != NEWLINE by {
        assert(evs[i] == EventSpec::Line(split.0[i]));
        assert(split.0[i][k] != NEWLINE);
    }
}

/// Law: pushes lose nothing, whatever the chunking. The bytes of all the
/// events a sequence of pushes emits, followed by what is held afterwards,
/// are what was held before followed by every chunk, in order; and no line
/// handed out carries a newline.
pub proof fn lemma_pushes_lossless(pending: Seq<u8>, chunks: Seq<Seq<u8>>)
    ensures
        events_bytes(pushes_outcome(pending, chunks).0) + pushes_outcome(pending, chunks).1 == pending
            + chunks.flatten(),
        lines_unterminated(pushes_outcome(pending, chunks).0),
    decreases chunks.len(),
{
    if chunks.len() == 0 {
        assert(events_bytes(Seq::<EventSpec>::empty()) == Seq::<u8>::empty());
        assert(Seq::<u8>::empty() + pending =~= pending + Seq::<u8>::empty());
    } else {
        let first = push_outcome(pending, chunks[0]);
        let tail = chunks.drop_first();
        let rest = pushes_outcome(first.1, tail);
        lemma_push_lossless(pending, chunks[0]);
        lemma_pushes_lossless(first.1, tail);
        lemma_events_bytes_concat(first.0, rest.0);
        assert(chunks.flatten() == chunks[0] + tail.flatten());
        assert(events_bytes(first.0) + events_bytes(rest.0) + rest.1 =~= events_bytes(first.0) + (
        events_bytes(rest.0) + rest.1));
        assert(pending + chunks[0] + tail.flatten() =~= pending + (chunks[0] + tail.flatten()));
        lemma_push_lines_unterminated(pending, chunks[0]);
        let evs = first.0 + rest.0;
        assert forall|i: int, k: int|
            0 <= i < evs.len() && evs[i] is Line && 0 <= k < evs[i]->Line_0.len() implies #[trigger] evs[i]->Line_0[k]
            != NEWLINE by {
            if i < first.0.len() {
                assert(evs[i] == first.0[i]);
                assert(first.0[i]->Line_0[k] != NEWLINE);
            } else {
                assert(evs[i] == rest.0[i - first.0.len()]);
                assert(rest.0[i - first.0.len()]->Line_0[k] != NEWLINE);
            }
        }
    }
}

/// Law: a new assembler, fed chunk after chunk and then flushed, hands out
/// every byte it received, in order: the bytes of all the events equal the
/// concatenation of the chunks, and no line carries a newline.
pub proof fn lemma_stream_lossless(chunks: Seq<Seq<u8>>)
    ensures
        events_bytes(
            pushes_outcome(Seq::empty(), chunks).0 + flush_outcome(
                pushes_outcome(Seq::empty(), chunks).1,
            ),
        ) == chunks.flatten(),
        lines_unterminated(
            pushes_outcome(Seq::empty(), chunks).0 + flush_outcome(
                pushes_outcome(Seq::empty(), chunks).1,
            ),
        ),
{
    let out = pushes_outcome(Seq::empty(), chunks);
    lemma_pushes_lossless(Seq::empty(), chunks);
    lemma_events_bytes_concat(out.0, flush_outcome(out.1));
    assert(Seq::<u8>::empty() + chunks.flatten() =~= chunks.flatten());
    if out.1.len() == 0 {
        assert(events_bytes(flush_outcome(out.1)) =~= Seq::<u8>::empty());
        assert(events_bytes(out.0) + Seq::<u8>::empty() =~= events_bytes(out.0));
        assert(events_bytes(out.0) + out.1 =~= events_bytes(out.0));
    } else {
        lemma_events_bytes_single(EventSpec::Partial(out.1));
    }
    let evs = out.0 + flush_outcome(out.1);
    assert forall|i: int, k: int|
        0 <= i < evs.len() && evs[i] is Line && 0 <= k < evs[i]->Line_0.len() implies #[trigger] evs[i]->Line_0[k]
        != NEWLINE by {
        assert(i < out.0.len());
        assert(evs[i] == out.0[i]);
        assert(out.0[i]->Line_0[k] != NEWLINE);
    }
}

/// No byte of `s` is a newline.
pub open spec fn has_no_newline(s: Seq<u8>) -> bool {
    forall|k: int| 0 <= k < s.len() ==> s[k] != NEWLINE
}

/// Law: splitting recovers the lines it is given. Lines without a newline,
/// each followed by one, then an unterminated rest, split into exactly
/// those lines and that rest.
pub proof fn lemma_split_lines_of_joined(lines: Seq<Seq<u8>>, rest: Seq<u8>)
    requires
        forall|i: int| 0 <= i < lines.len() ==> has_no_newline(#[trigger] lines[i]),
        has_no_newline(rest),
    ensures
        split_lines(events_bytes(line_events(lines)) + rest) == (lines, rest),
    decreases lines.len(),
{
    if lines.len() == 0 {
        assert(line_events(lines) =~= Seq::<EventSpec>::empty());
        assert(Seq::<u8>::empty() + rest =~= rest);
        lemma_split_no_newline(rest);
        assert(split_lines(rest).0 =~= lines);
    } else {
        let first = lines[0];
        let others = lines.drop_first();
        assert forall|i: int| 0 <= i < others.len() implies has_no_newline(#[trigger] others[i]) by {
            assert(others[i] == lines[i + 1]);
        }
        lemma_split_lines_of_joined(others, rest);
        assert(line_events(lines) =~= seq![EventSpec::Line(first)] + line_events(others));
        lemma_events_bytes_concat(seq![EventSpec::Line(first)], line_events(others));
        lemma_events_bytes_single(EventSpec::Line(first));
        let tail = events_bytes(line_events(others)) + rest;
        let s = events_bytes(line_events(lines)) + rest;
        assert(s =~= first.push(NEWLINE) + tail);
        let i = first.len() as int;
        assert(has_no_newline(lines[0]));
        assert forall|j: int| 0 <= j < i implies s[j] != NEWLINE by {
            assert(s[j] == first[j]);
        }
        assert(s[i] == NEWLINE);
        assert(is_first_index(s, NEWLINE, i));
        lemma_split_first_line(s, i);
        assert(s.subrange(0, i) =~= first);
        assert(s.subrange(i + 1, s.len() as int) =~= tail);
        assert(seq![first] + others =~= lines);
    }
}

/// Law: a push hands out exactly the given lines. When what was held
/// followed by the chunk is the lines `lines` (none with a newline), each
/// ended by a newline, then an unterminated `rest`, the push emits a line
/// event for each of them in order, then an overflow of `rest` exactly when
/// `rest` is longer than the line limit; afterwards it holds `rest`, or
/// nothing after an overflow.
pub proof fn lemma_push_given_lines(
    pending: Seq<u8>,
    data: Seq<u8>,
    lines: Seq<Seq<u8>>,
    rest: Seq<u8>,
)
    requires
        forall|i: int| 0 <= i < lines.len() ==> has_no_newline(#[trigger] lines[i]),
        has_no_newline(rest),
        pending + data == events_bytes(line_events(lines)) + rest,
    ensures
        push_outcome(pending, data).0 == if rest.len() > MAX_LINE_LEN {
            line_events(lines).push(EventSpec::Overflow(rest))
        } else {
            line_events(lines)
        },
        push_outcome(pending, data).1 == if rest.len() > MAX_LINE_LEN {
            Seq::<u8>::empty()
        } else {
            rest
        },
{
    lemma_split_lines_of_joined(lines, rest);
}

} // verus!
