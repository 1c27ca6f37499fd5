//! The compressed stream format, stated as spec functions, and the model of
//! the sliding window that both the encoder and the decoder keep.
use vstd::prelude::*;

verus! {

/// Size of the sliding window.
pub const WINDOW_SIZE: usize = 0x1000;

/// Mask that reduces a position modulo the window size.
pub const WINDOW_MASK: usize = 0xFFF;

/// Shortest back-reference.
pub const THRESHOLD: usize = 3;

/// Longest back-reference.
pub const MAX_LEN: usize = 18;

/// Search breadth of the encoder: it tries distances below this.
pub const LOOK_RANGE: usize = 0x200;

/// A match at least this long is taken at once.
pub const INPLACE_THRESHOLD: usize = 0xA;

/// The byte `dist` places before the end of `out`; the history before the
/// first output byte reads as zeros.
pub open spec fn byte_back(out: Seq<u8>, dist: int) -> u8 {
    if out.len() >= dist {
        out[out.len() - dist]
    } else {
        0
    }
}

/// `out` extended by `n` bytes, each copied from `dist` places before the
/// current end (so a copy may overlap the bytes it produces).
pub open spec fn copy_back(out: Seq<u8>, dist: int, n: nat) -> Seq<u8>
    decreases n,
{
    if n == 0 {
        out
    } else {
        let o = copy_back(out, dist, (n - 1) as nat);
        o.push(byte_back(o, dist))
    }
}

/// Bit `slot` (least significant first) of a flag byte marks a literal.
pub open spec fn is_literal_slot(flag: u8, slot: int) -> bool {
    (flag >> (slot as u8)) & 1u8 == 1u8
}

/// The big-endian word formed by `s[pos]` and `s[pos + 1]`.
pub open spec fn word_at(s: Seq<u8>, pos: int) -> int {
    s[pos] as int * 256 + s[pos + 1] as int
}

/// Decoding of `s` from byte `pos`, in token slot `slot` of a group whose flag
/// byte is `flag` (a slot of 8 or more means a flag byte comes next), with
/// `out` decoded so far. The result is the decoded bytes, and whether the
/// stream ended with its terminator. Decoding stops early, with `false`, where
/// the stream is cut short or a back-reference has distance zero.
pub open spec fn decode_from(s: Seq<u8>, pos: int, flag: u8, slot: int, out: Seq<u8>) -> (Seq<u8>, bool)
    decreases s.len() - pos,
{
    if pos < 0 || pos >= s.len() {
        (out, false)
    } else if slot < 0 || slot >= 8 {
        decode_from(s, pos + 1, s[pos], 0, out)
    } else if is_literal_slot(flag, slot) {
        decode_from(s, pos + 1, flag, slot + 1, out.push(s[pos]))
    } else if pos + 1 >= s.len() {
        (out, false)
    } else if word_at(s, pos) == 0 {
        (out, true)
    } else if word_at(s, pos) < 16 {
        (out, false)
    } else {
        let w = word_at(s, pos);
        decode_from(s, pos + 2, flag, slot + 1, copy_back(out, w / 16, (w % 16 + 3) as nat))
    }
}

/// What a compressed stream decodes to, and whether it was complete.
pub open spec fn decode(s: Seq<u8>) -> (Seq<u8>, bool) {
    decode_from(s, 0, 0, 8, Seq::empty())
}

/// The window holds the last 4096 bytes of the history `out` (zeros before
/// it), each at its position modulo the window size.
pub open spec fn window_holds(window: Seq<u8>, out: Seq<u8>) -> bool {
    &&& window.len() == WINDOW_SIZE
    &&& forall|d: int|
        1 <= d <= 4096 ==> #[trigger] window[(out.len() - d) % 4096] == byte_back(out, d)
}

/// Length of the common prefix of `data[dpos..]` and the window read on from
/// `pos` (wrapping round), counted on from `k`, and capped at `cap` and at the
/// longest back-reference.
pub open spec fn match_from(window: Seq<u8>, pos: int, cap: int, data: Seq<u8>, dpos: int, k: int) -> int
    decreases MAX_LEN - k,
{
    if 0 <= k < MAX_LEN && k < cap && 0 <= dpos + k < data.len() && window[(pos + k) % 4096]
        == data[dpos + k] {
        match_from(window, pos, cap, data, dpos, k + 1)
    } else {
        k
    }
}

/// Length of the match of `data[dpos..]` against the window bytes `dist`
/// places behind the cursor `cursor`, capped at `dist` itself.
pub open spec fn match_at(window: Seq<u8>, cursor: int, data: Seq<u8>, dpos: int, dist: int) -> int {
    match_from(window, (cursor - dist) % 4096, dist, data, dpos, 0)
}

/// The encoder's choice among the distances `3..LOOK_RANGE`: the first one
/// that matches `INPLACE_THRESHOLD` bytes or more; failing that, the last one
/// that matches at least `THRESHOLD` bytes; failing that, none.
pub open spec fn is_greedy_choice(window: Seq<u8>, cursor: int, data: Seq<u8>, dpos: int, r: Option<(int, int)>) -> bool {
    match r {
        Some((d, n)) => {
            &&& THRESHOLD <= d < LOOK_RANGE
            &&& n == match_at(window, cursor, data, dpos, d)
            &&& n >= THRESHOLD
            &&& n >= INPLACE_THRESHOLD ==> forall|e: int|
                THRESHOLD <= e < d ==> #[trigger] match_at(window, cursor, data, dpos, e) < INPLACE_THRESHOLD
            &&& n < INPLACE_THRESHOLD ==> forall|e: int|
                THRESHOLD <= e < LOOK_RANGE ==> #[trigger] match_at(window, cursor, data, dpos, e) < INPLACE_THRESHOLD
            &&& n < INPLACE_THRESHOLD ==> forall|e: int|
                d < e < LOOK_RANGE ==> #[trigger] match_at(window, cursor, data, dpos, e) < THRESHOLD
        },
        None => forall|e: int|
            THRESHOLD <= e < LOOK_RANGE ==> #[trigger] match_at(window, cursor, data, dpos, e) < THRESHOLD,
    }
}

/// One token of a group, as the encoder laid it down: its payload bytes
/// `buf[c0..c1]` turn the history `x[..p0]` into `x[..p1]` (`bit` tells a
/// literal from a back-reference).
pub open spec fn slot_ok(bit: bool, buf: Seq<u8>, c0: int, c1: int, x: Seq<u8>, p0: int, p1: int) -> bool {
    &&& 0 <= c0
    &&& 0 <= p0 <= p1 <= x.len()
    &&& if bit {
        &&& c1 == c0 + 1
        &&& p1 == p0 + 1
        &&& c0 < buf.len()
        &&& buf[c0] == x[p0]
    } else {
        &&& c1 == c0 + 2
        &&& c0 + 1 < buf.len()
        &&& word_at(buf, c0) >= 16
        &&& copy_back(x.take(p0), word_at(buf, c0) / 16, (word_at(buf, c0) % 16 + 3) as nat) == x.take(p1)
    }
}

/// Well-formed slots stay well formed as the payload grows behind them.
pub proof fn lemma_slots_grow(bits: Seq<bool>, buf0: Seq<u8>, buf1: Seq<u8>, cuts: Seq<int>, ps: Seq<int>, x: Seq<u8>)
    requires
        buf0.len() <= buf1.len(),
        forall|m: int| 0 <= m < buf0.len() ==> buf1[m] == #[trigger] buf0[m],
        forall|i: int|
            0 <= i < cuts.len() - 1 ==> #[trigger] slot_ok(bits[i], buf0, cuts[i], cuts[i + 1], x, ps[i], ps[i + 1]),
    ensures
        forall|i: int|
            0 <= i < cuts.len() - 1 ==> #[trigger] slot_ok(bits[i], buf1, cuts[i], cuts[i + 1], x, ps[i], ps[i + 1]),
{
    assert forall|i: int| 0 <= i < cuts.len() - 1 implies #[trigger] slot_ok(
        bits[i],
        buf1,
        cuts[i],
        cuts[i + 1],
        x,
        ps[i],
        ps[i + 1],
    ) by {
        assert(slot_ok(bits[i], buf0, cuts[i], cuts[i + 1], x, ps[i], ps[i + 1]));
        assert(buf1[cuts[i]] == buf0[cuts[i]]);
        if !bits[i] {
            assert(buf1[cuts[i] + 1] == buf0[cuts[i] + 1]);
        }
    }
}

/// Past the last slot of a group, the old flag byte plays no part.
pub proof fn lemma_group_end(s: Seq<u8>, pos: int, f: u8, out: Seq<u8>)
    ensures
        decode_from(s, pos, f, 8, out) == decode_from(s, pos, 0, 8, out),
{
}

/// A flag byte at `s[q]` followed by a payload `buf` whose first `k` slots
/// are well formed carries the decoder from `x[..ps[0]]` to `x[..ps[k]]`.
pub proof fn lemma_group(
    s: Seq<u8>,
    q: int,
    f: u8,
    bits: Seq<bool>,
    cuts: Seq<int>,
    ps: Seq<int>,
    buf: Seq<u8>,
    x: Seq<u8>,
    k: int,
)
    requires
        0 <= q < s.len(),
        s[q] == f,
        0 <= k <= 8,
        bits.len() >= k,
        cuts.len() == k + 1,
        ps.len() == k + 1,
        cuts[0] == 0,
        q + 1 + buf.len() <= s.len(),
        forall|m: int| 0 <= m < buf.len() ==> s[q + 1 + m] == #[trigger] buf[m],
        forall|i: int| 0 <= i < k ==> #[trigger] is_literal_slot(f, i) == bits[i],
        forall|i: int|
            0 <= i < k ==> #[trigger] slot_ok(bits[i], buf, cuts[i], cuts[i + 1], x, ps[i], ps[i + 1]),
    ensures
        decode_from(s, q, 0, 8, x.take(ps[0])) == decode_from(s, q + 1 + cuts[k], f, k, x.take(ps[k])),
    decreases k,
{
    if k > 0 {
        let j = k - 1;
        assert(slot_ok(bits[j], buf, cuts[j], cuts[j + 1], x, ps[j], ps[j + 1]));
        lemma_group(s, q, f, bits, cuts.take(k), ps.take(k), buf, x, j);
        let pos = q + 1 + cuts[j];
        let out = x.take(ps[j]);
        assert(is_literal_slot(f, j) == bits[j]);
        assert(s[pos] == buf[cuts[j]]);
        if bits[j] {
            assert(out.push(s[pos]) =~= x.take(ps[k]));
        } else {
            assert(s[pos + 1] == buf[cuts[j] + 1]);
            assert(word_at(s, pos) == word_at(buf, cuts[j]));
        }
    }
}

/// The bytes `x[p..p + n]`, each equal to the history byte `d` places behind
/// it, are what a back-reference of distance `d` and length `n` produces.
pub proof fn lemma_copy_match(x: Seq<u8>, p: int, d: int, n: int)
    requires
        0 <= p,
        0 <= n <= d,
        p + n <= x.len(),
        forall|i: int| 0 <= i < n ==> #[trigger] x[p + i] == byte_back(x.take(p), d - i),
    ensures
        copy_back(x.take(p), d, n as nat) == x.take(p + n),
    decreases n,
{
    if n > 0 {
        lemma_copy_match(x, p, d, n - 1);
        assert(x[p + (n - 1)] == byte_back(x.take(p), d - (n - 1)));
        assert(x.take(p + n - 1).push(x[p + n - 1]) =~= x.take(p + n));
    }
}

/// What a match length tells of the bytes it covers.
pub proof fn lemma_match_from(window: Seq<u8>, pos: int, cap: int, data: Seq<u8>, dpos: int, k: int)
    requires
        0 <= k <= MAX_LEN,
        k <= cap,
        0 <= dpos,
        dpos + k <= data.len(),
    ensures
        k <= match_from(window, pos, cap, data, dpos, k) <= MAX_LEN,
        match_from(window, pos, cap, data, dpos, k) <= cap,
        dpos + match_from(window, pos, cap, data, dpos, k) <= data.len(),
        forall|i: int|
            k <= i < match_from(window, pos, cap, data, dpos, k) ==> window[(pos + i) % 4096]
                == #[trigger] data[dpos + i],
    decreases MAX_LEN - k,
{
    if k < MAX_LEN && k < cap && dpos + k < data.len() && window[(pos + k) % 4096] == data[dpos + k] {
        lemma_match_from(window, pos, cap, data, dpos, k + 1);
    }
}

/// A match found in a window that holds the history `x[..p]` copies bytes of
/// that history that lie `d` places back.
pub proof fn lemma_window_match(window: Seq<u8>, x: Seq<u8>, p: int, d: int)
    requires
        window_holds(window, x.take(p)),
        0 <= p <= x.len(),
        THRESHOLD <= d < LOOK_RANGE,
    ensures
        match_at(window, p % 4096, x, p, d) <= d,
        match_at(window, p % 4096, x, p, d) <= MAX_LEN,
        p + match_at(window, p % 4096, x, p, d) <= x.len(),
        copy_back(x.take(p), d, match_at(window, p % 4096, x, p, d) as nat) == x.take(
            p + match_at(window, p % 4096, x, p, d),
        ),
{
    let n = match_at(window, p % 4096, x, p, d);
    let base = (p % 4096 - d) % 4096;
    lemma_match_from(window, base, d, x, p, 0);
    assert forall|i: int| 0 <= i < n implies #[trigger] x[p + i] == byte_back(x.take(p), d - i) by {
        assert(window[(base + i) % 4096] == x[p + i]);
        lemma_mod_shift(p, d, i);
        assert(x.take(p).len() == p);
        assert(window[(x.take(p).len() - (d - i)) % 4096] == byte_back(x.take(p), d - i));
    }
    lemma_copy_match(x, p, d, n);
}

/// Stepping `i` places on from `d` places behind the cursor.
pub proof fn lemma_mod_shift(p: int, d: int, i: int)
    requires
        0 <= p,
    ensures
        ((p % 4096 - d) % 4096 + i) % 4096 == (p - (d - i)) % 4096,
{
    vstd::arithmetic::div_mod::lemma_sub_mod_noop(p, d, 4096);
    vstd::arithmetic::div_mod::lemma_mod_twice(d, 4096);
    vstd::arithmetic::div_mod::lemma_add_mod_noop(p % 4096 - d, i, 4096);
    vstd::arithmetic::div_mod::lemma_add_mod_noop(p - d, i, 4096);
    vstd::arithmetic::div_mod::lemma_mod_twice(p % 4096 - d, 4096);
    vstd::arithmetic::div_mod::lemma_mod_twice(p - d, 4096);
}

/// The two bytes of a back-reference form the word `16 * dist + (len - 3)`.
pub proof fn lemma_ref_bytes(d: usize, l: usize)
    requires
        d < 4096,
        l < 16,
    ensures
        d >> 4usize < 256,
        ((d & 15usize) << 4usize) | l < 256,
        (d >> 4usize) * 256 + (((d & 15usize) << 4usize) | l) == d * 16 + l,
{
    assert(d >> 4usize < 256 && ((d & 15usize) << 4usize) | l < 256 && (d >> 4usize) * 256 + (((d
        & 15usize) << 4usize) | l) == d * 16 + l) by (bit_vector)
        requires
            d < 4096,
            l < 16,
    ;
}

/// Setting bit `j` of a flag byte marks slot `j` a literal and leaves the
/// other slots as they were.
pub proof fn lemma_set_bit(f: u8, j: u8)
    requires
        j < 8,
    ensures
        forall|i: int|
            0 <= i < 8 ==> #[trigger] is_literal_slot(f | (1u8 << j), i) == (i == j || is_literal_slot(f, i)),
{
    assert forall|i: int| 0 <= i < 8 implies #[trigger] is_literal_slot(f | (1u8 << j), i) == (i == j
        || is_literal_slot(f, i)) by {
        let iu = i as u8;
        assert(((f | (1u8 << j)) >> iu) & 1u8 == 1u8 <==> (iu == j || (f >> iu) & 1u8 == 1u8))
            by (bit_vector)
            requires
                j < 8,
                iu < 8,
        ;
    }
}

/// No slot of a zero flag byte is a literal.
pub proof fn lemma_zero_flag()
    ensures
        forall|i: int| 0 <= i < 8 ==> !#[trigger] is_literal_slot(0u8, i),
{
    assert forall|i: int| 0 <= i < 8 implies !#[trigger] is_literal_slot(0u8, i) by {
        let iu = i as u8;
        assert((0u8 >> iu) & 1u8 == 0u8) by (bit_vector);
    }
}

/// The stream that stores `x` without back-references: a flag byte `0xFF`
/// before each full run of eight bytes, then the rest behind a flag byte that
/// marks only those bytes as literals, then zeros for the terminator.
pub open spec fn dummy_frame(x: Seq<u8>) -> Seq<u8>
    decreases x.len(),
{
    if x.len() >= 8 {
        seq![0xFFu8] + x.take(8) + dummy_frame(x.skip(8))
    } else if x.len() == 0 {
        Seq::new(8, |i: int| 0u8)
    } else {
        seq![0xFFu8 >> ((8 - x.len()) as u8)] + x + Seq::new(4, |i: int| 0u8)
    }
}

/// Literal slots `slot..slot + n` copy the next `n` stream bytes to the output.
pub proof fn lemma_literal_run(s: Seq<u8>, pos: int, f: u8, slot: int, out: Seq<u8>, n: int)
    requires
        0 <= pos,
        0 <= n,
        0 <= slot,
        slot + n <= 8,
        pos + n <= s.len(),
        forall|i: int| slot <= i < slot + n ==> #[trigger] is_literal_slot(f, i),
    ensures
        decode_from(s, pos, f, slot, out) == decode_from(s, pos + n, f, slot + n, out + s.subrange(pos, pos + n)),
    decreases n,
{
    if n > 0 {
        assert(is_literal_slot(f, slot));
        lemma_literal_run(s, pos + 1, f, slot + 1, out.push(s[pos]), n - 1);
        assert(out.push(s[pos]) + s.subrange(pos + 1, pos + n) =~= out + s.subrange(pos, pos + n));
    }
}

/// The first `r` slots of the flag byte `0xFF >> (8 - r)` are literals, the
/// others back-references.
pub proof fn lemma_low_bits(r: int)
    requires
        0 < r <= 8,
    ensures
        forall|i: int| 0 <= i < 8 ==> #[trigger] is_literal_slot(0xFFu8 >> ((8 - r) as u8), i) == (i < r),
{
    assert forall|i: int| 0 <= i < 8 implies #[trigger] is_literal_slot(0xFFu8 >> ((8 - r) as u8), i)
        == (i < r) by {
        let iu = i as u8;
        let sh = (8 - r) as u8;
        assert(((0xFFu8 >> sh) >> iu) & 1u8 == 1u8 <==> iu + sh < 8) by (bit_vector)
            requires
                iu < 8,
                sh < 8,
        ;
    }
}

/// Decoding a passthrough stream for `rest`, found at `s[q..]`, appends `rest`.
pub proof fn lemma_dummy_from(s: Seq<u8>, q: int, f: u8, done: Seq<u8>, rest: Seq<u8>)
    requires
        0 <= q <= s.len(),
        s.subrange(q, s.len() as int) == dummy_frame(rest),
    ensures
        decode_from(s, q, f, 8, done) == (done + rest, true),
    decreases rest.len(),
{
    let tail = s.subrange(q, s.len() as int);
    assert forall|m: int| 0 <= m < tail.len() implies s[q + m] == #[trigger] tail[m] by {}
    if rest.len() >= 8 {
        assert(tail =~= seq![0xFFu8] + rest.take(8) + dummy_frame(rest.skip(8)));
        assert forall|i: int| 0 <= i < 8 implies #[trigger] is_literal_slot(0xFFu8, i) by {
            let iu = i as u8;
            assert((0xFFu8 >> iu) & 1u8 == 1u8) by (bit_vector)
                requires
                    iu < 8,
            ;
        }
        assert(s[q] == tail[0]);
        lemma_literal_run(s, q + 1, 0xFFu8, 0, done, 8);
        assert forall|m: int| 0 <= m < 8 implies s[q + 1 + m] == #[trigger] rest[m] by {
            assert(s[q + 1 + m] == tail[1 + m]);
        }
        assert(s.subrange(q + 1, q + 9) =~= rest.take(8));
        let next = dummy_frame(rest.skip(8));
        assert(tail.len() == 9 + next.len());
        assert forall|m: int| 0 <= m < next.len() implies s[q + 9 + m] == #[trigger] next[m] by {
            assert(s[q + 9 + m] == tail[9 + m]);
        }
        assert(s.subrange(q + 9, s.len() as int) =~= next);
        assert(tail[0] == 0xFFu8);
        assert(decode_from(s, q, f, 8, done) == decode_from(s, q + 1, 0xFFu8, 0, done));
        lemma_dummy_from(s, q + 9, 0xFFu8, done + rest.take(8), rest.skip(8));
        assert(done + rest.take(8) + rest.skip(8) =~= done + rest);
    } else if rest.len() == 0 {
        assert(tail =~= Seq::new(8, |i: int| 0u8));
        lemma_zero_flag();
        assert(s[q] == tail[0]);
        assert(s[q + 1] == tail[1]);
        assert(s[q + 2] == tail[2]);
        assert(word_at(s, q + 1) == 0);
        assert(!is_literal_slot(0u8, 0));
        assert(decode_from(s, q + 1, 0u8, 0, done) == (done, true));
        assert(done + rest =~= done);
    } else {
        let r = rest.len() as int;
        let fl = 0xFFu8 >> ((8 - r) as u8);
        assert(tail =~= seq![fl] + rest + Seq::new(4, |i: int| 0u8));
        lemma_low_bits(r);
        assert(s[q] == tail[0]);
        lemma_literal_run(s, q + 1, fl, 0, done, r);
        assert forall|m: int| 0 <= m < r implies s[q + 1 + m] == #[trigger] rest[m] by {
            assert(s[q + 1 + m] == tail[1 + m]);
        }
        assert(s.subrange(q + 1, q + 1 + r) =~= rest);
        assert(!is_literal_slot(fl, r));
        assert(tail.len() == r + 5);
        assert(tail[0] == fl);
        assert(decode_from(s, q, f, 8, done) == decode_from(s, q + 1, fl, 0, done));
        assert(s[q + 1 + r] == tail[1 + r]);
        assert(s[q + 2 + r] == tail[2 + r]);
        assert(word_at(s, q + 1 + r) == 0);
        assert(decode_from(s, q + 1 + r, fl, r, done + rest) == (done + rest, true));
    }
}

/// Round trip of the passthrough encoding: decoding `dummy_frame(x)` gives
/// back `x`, and the stream ends with its terminator.
pub proof fn lemma_dummy_round_trip(x: Seq<u8>)
    ensures
        decode(dummy_frame(x)) == (x, true),
{
    let s = dummy_frame(x);
    assert(s.subrange(0, s.len() as int) =~= s);
    lemma_dummy_from(s, 0, 0, Seq::empty(), x);
    assert(Seq::<u8>::empty() + x =~= x);
}

/// Masking a position gives its slot in the window.
pub proof fn lemma_mask(x: usize)
    ensures
        x & WINDOW_MASK == x % 4096,
        x & WINDOW_MASK < 4096,
{
    assert(x & 0xFFF == x % 4096) by (bit_vector);
    assert(x & 0xFFF < 4096) by (bit_vector);
}

/// A zeroed window holds the empty history.
pub proof fn lemma_window_empty()
    ensures
        window_holds(Seq::new(4096, |i: int| 0u8), Seq::empty()),
{
}

/// Writing the next byte at the cursor keeps the window in step with the
/// history.
pub proof fn lemma_window_push(window: Seq<u8>, out: Seq<u8>, b: u8)
    requires
        window_holds(window, out),
    ensures
        window_holds(window.update(out.len() as int % 4096, b), out.push(b)),
{
    let w2 = window.update(out.len() as int % 4096, b);
    let o2 = out.push(b);
    assert forall|d: int| 1 <= d <= 4096 implies #[trigger] w2[(o2.len() - d) % 4096] == byte_back(o2, d) by {
        if d == 1 {
            assert((o2.len() - d) % 4096 == out.len() % 4096);
        } else {
            assert((o2.len() - d) == out.len() - (d - 1));
            assert(window[(out.len() - (d - 1)) % 4096] == byte_back(out, d - 1));
            assert((out.len() - (d - 1)) % 4096 != out.len() % 4096);
        }
    }
}

} // verus!
