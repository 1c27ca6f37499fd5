//! The encoders and the decoder.
use vstd::prelude::*;
use crate::greedy::{encode, group_slots, lemma_flag_or, lemma_greedy_choice, reference_bytes};
use crate::frame::{
    byte_back, copy_back, decode, decode_from, lemma_mask, lemma_window_empty, lemma_window_push,
    window_holds, match_from, match_at, is_greedy_choice, THRESHOLD, WINDOW_MASK, WINDOW_SIZE,
    MAX_LEN, LOOK_RANGE, INPLACE_THRESHOLD, slot_ok, is_literal_slot, lemma_group, lemma_group_end,
    lemma_window_match, lemma_ref_bytes, lemma_set_bit, lemma_zero_flag, word_at, lemma_slots_grow, dummy_frame, lemma_dummy_round_trip,
};

verus! {

/// Length of the common prefix of `data[dpos..]` and the window from `pos`
/// on, capped at `max_len` and at `MAX_LEN`.
fn match_current(window: &Vec<u8>, pos: usize, max_len: usize, data: &[u8], dpos: usize) -> (len: usize)
    requires
        window@.len() == WINDOW_SIZE,
        pos < WINDOW_SIZE,
        dpos <= data@.len(),
    ensures
        len == match_from(window@, pos as int, max_len as int, data@, dpos as int, 0),
        len <= max_len,
        len <= MAX_LEN,
        dpos + len <= data@.len(),
        forall|k: int| 0 <= k < len ==> window@[(pos + k) % 4096] == #[trigger] data@[dpos + k],
{
    let mut len: usize = 0;
    loop
        invariant
            window@.len() == WINDOW_SIZE,
            pos < WINDOW_SIZE,
            dpos <= data@.len(),
            len <= max_len,
            len <= MAX_LEN,
            dpos + len <= data@.len(),
            forall|k: int| 0 <= k < len ==> window@[(pos + k) % 4096] == #[trigger] data@[dpos + k],
            match_from(window@, pos as int, max_len as int, data@, dpos as int, 0) == match_from(
                window@,
                pos as int,
                max_len as int,
                data@,
                dpos as int,
                len as int,
            ),
        ensures
            len <= max_len,
            len <= MAX_LEN,
            dpos + len <= data@.len(),
            forall|k: int| 0 <= k < len ==> window@[(pos + k) % 4096] == #[trigger] data@[dpos + k],
            match_from(window@, pos as int, max_len as int, data@, dpos as int, 0) == len,
        decreases MAX_LEN - len,
    {
        proof {
            lemma_mask((pos + len) as usize);
        }
        if len < data.len() - dpos && len < max_len && window[(pos + len) & WINDOW_MASK] == data[dpos
            + len] && len < MAX_LEN {
            len += 1;
        } else {
            break;
        }
    }
    len
}

/// Searches the distances `3..LOOK_RANGE` behind the cursor `pos` for a match
/// of `data[dpos..]`, as `is_greedy_choice` states; the result is the
/// distance and the length.
fn match_window(window: &Vec<u8>, pos: usize, data: &[u8], dpos: usize) -> (r: Option<(usize, usize)>)
    requires
        window@.len() == WINDOW_SIZE,
        pos < WINDOW_SIZE,
        dpos <= data@.len(),
    ensures
        is_greedy_choice(
            window@,
            pos as int,
            data@,
            dpos as int,
            match r {
                Some((d, n)) => Some((d as int, n as int)),
                None => None,
            },
        ),
{
    let mut max_pos: usize = 0;
    let mut max_len: usize = 0;
    let mut i: usize = THRESHOLD;
    while i < LOOK_RANGE
        invariant
            window@.len() == WINDOW_SIZE,
            pos < WINDOW_SIZE,
            dpos <= data@.len(),
            THRESHOLD <= i <= LOOK_RANGE,
            max_len < INPLACE_THRESHOLD,
            forall|e: int|
                THRESHOLD <= e < i ==> #[trigger] match_at(window@, pos as int, data@, dpos as int, e)
                    < INPLACE_THRESHOLD,
            max_len < THRESHOLD ==> forall|e: int|
                THRESHOLD <= e < i ==> #[trigger] match_at(window@, pos as int, data@, dpos as int, e)
                    < THRESHOLD,
            max_len >= THRESHOLD ==> {
                &&& THRESHOLD <= max_pos < i
                &&& max_len == match_at(window@, pos as int, data@, dpos as int, max_pos as int)
                &&& forall|e: int|
                    max_pos < e < i ==> #[trigger] match_at(window@, pos as int, data@, dpos as int, e)
                        < THRESHOLD
            },
        decreases LOOK_RANGE - i,
    {
        proof {
            lemma_mask((pos + WINDOW_SIZE - i) as usize);
            assert((pos + WINDOW_SIZE - i) % 4096 == (pos - i) % 4096);
        }
        let len = match_current(window, (pos + WINDOW_SIZE - i) & WINDOW_MASK, i, data, dpos);
        assert(len == match_at(window@, pos as int, data@, dpos as int, i as int));
        if len >= INPLACE_THRESHOLD {
            return Some((i, len));
        }
        if len >= THRESHOLD {
            max_pos = i;
            max_len = len;
        }
        i += 1;
    }
    if max_len >= THRESHOLD {
        Some((max_pos, max_len))
    } else {
        None
    }
}

/// `lz77_compress` compresses the input bytes.
///
/// Each position takes the back-reference that `is_greedy_choice` picks, or
/// else a literal; `encode` states the whole stream. It decodes back to
/// `input`, terminator included.
#[verifier::rlimit(60)]
pub fn lz77_compress(input: &[u8]) -> (r: Vec<u8>)
    ensures
        r@ == encode(input@, 0),
        decode(r@) == (input@, true),
{
    let ghost x = input@;
    let mut output: Vec<u8> = Vec::new();
    let mut window: Vec<u8> = vec![0u8; WINDOW_SIZE];
    let mut current_pos: usize = 0;
    let mut current_window: usize = 0;
    // Whether the last group ran past the end of the input and was padded.
    let ghost mut padded = false;
    proof {
        assert(window@ =~= Seq::new(4096, |i: int| 0u8));
        lemma_window_empty();
        assert forall|t: Seq<u8>| #[trigger] decode(output@ + t) == decode_from(output@ + t, 0, 0, 8, x.take(0)) by {
            assert(output@ + t =~= t);
            assert(x.take(0) =~= Seq::<u8>::empty());
        }
    }
    while current_pos < input.len()
        invariant
            x == input@,
            current_pos <= x.len(),
            window@.len() == WINDOW_SIZE,
            current_window < WINDOW_SIZE,
            output@ + encode(x, current_pos as int) == encode(x, 0),
            !padded ==> window_holds(window@, x.take(current_pos as int)),
            !padded ==> current_window == current_pos % 4096,
            !padded ==> forall|t: Seq<u8>|
                #[trigger] decode(output@ + t) == decode_from(
                    output@ + t,
                    output@.len() as int,
                    0,
                    8,
                    x.take(current_pos as int),
                ),
            padded ==> current_pos == x.len(),
            padded ==> forall|t: Seq<u8>|
                t.len() >= 1 && t[0] == 0 ==> #[trigger] decode(output@ + t) == (x, true),
        decreases x.len() - current_pos + (if padded { 0int } else { 1int }),
    {
        let ghost o0 = output@;
        let ghost p0 = current_pos as int;
        let mut flag_byte: u8 = 0;
        let mut buffer: Vec<u8> = Vec::new();
        // Per slot: whether it is a literal (`bits`), where its payload starts
        // (`cuts`) and the input position before it (`ps`); `pad_at` is the
        // first slot past the end of the input, once `in_pad` holds.
        let ghost mut bits: Seq<bool> = Seq::empty();
        let ghost mut cuts: Seq<int> = seq![0int];
        let ghost mut ps: Seq<int> = seq![p0];
        let ghost mut pad_at: int = 0;
        let ghost mut in_pad = false;
        let mut j: usize = 0;
        let ghost gs = group_slots(x, p0, 0);
        proof {
            lemma_zero_flag();
            assert(0u8 | gs.0 == gs.0) by (bit_vector);
            assert(buffer@ + gs.1 =~= gs.1);
        }
        while j < 8
            invariant
                x == input@,
                !padded,
                p0 < x.len(),
                window@.len() == WINDOW_SIZE,
                current_window < WINDOW_SIZE,
                current_pos <= x.len(),
                j <= 8,
                j > 0 ==> current_pos > p0,
                gs == group_slots(x, p0, 0),
                gs == (
                    flag_byte | group_slots(x, current_pos as int, j as int).0,
                    buffer@ + group_slots(x, current_pos as int, j as int).1,
                    group_slots(x, current_pos as int, j as int).2,
                ),
                buffer@.len() <= 2 * j,
                bits.len() == j,
                forall|i: int| 0 <= i < 8 ==> #[trigger] is_literal_slot(flag_byte, i) == (i < j && bits[i]),
                cuts.len() == ps.len(),
                1 <= cuts.len() <= j + 1,
                cuts[0] == 0,
                ps[0] == p0,
                0 <= cuts[cuts.len() - 1] <= buffer@.len(),
                forall|i: int|
                    0 <= i < cuts.len() - 1 ==> #[trigger] slot_ok(
                        bits[i],
                        buffer@,
                        cuts[i],
                        cuts[i + 1],
                        x,
                        ps[i],
                        ps[i + 1],
                    ),
                !in_pad ==> {
                    &&& cuts.len() == j + 1
                    &&& cuts[j as int] == buffer@.len()
                    &&& ps[j as int] == current_pos
                    &&& window_holds(window@, x.take(current_pos as int))
                    &&& current_window == current_pos % 4096
                },
                in_pad ==> {
                    &&& cuts.len() == pad_at + 1
                    &&& 0 <= pad_at < j
                    &&& current_pos == x.len()
                    &&& ps[pad_at] == x.len()
                    &&& !bits[pad_at]
                    &&& buffer@.len() == cuts[pad_at] + (j - pad_at)
                    &&& buffer@[cuts[pad_at]] == 0
                    &&& pad_at + 1 < j ==> buffer@[cuts[pad_at] + 1] == 0
                },
            decreases 8 - j,
        {
            let ghost buf0 = buffer@;
            let ghost k = cuts.len() - 1;
            if current_pos >= input.len() {
                proof {
                    if !in_pad {
                        pad_at = j as int;
                        in_pad = true;
                    }
                }
                buffer.push(0u8);
                window.set(current_window, 0u8);
                proof {
                    let nx = group_slots(x, current_pos as int, j + 1);
                    assert(group_slots(x, current_pos as int, j as int) == (nx.0, seq![0u8] + nx.1, nx.2));
                    assert(buf0 + (seq![0u8] + nx.1) =~= buffer@ + nx.1);
                    lemma_slots_grow(bits, buf0, buffer@, cuts, ps, x);
                    assert(buffer@[buf0.len() as int] == 0);
                    assert(buffer@[cuts[pad_at]] == 0);
                    lemma_mask((current_window + 1) as usize);
                    bits = bits.push(false);
                }
                current_window = (current_window + 1) & WINDOW_MASK;
            } else {
                match match_window(&window, current_window, input, current_pos) {
                    Some((pos, len)) => {
                        let ghost cp = current_pos as int;
                        proof {
                            lemma_window_match(window@, x, current_pos as int, pos as int);
                            lemma_greedy_choice(window@, x, cp, Some((pos as int, len as int)));
                        }
                        let extra: usize = len - THRESHOLD;
                        proof {
                            lemma_ref_bytes(pos, extra);
                        }
                        assert(extra & 0x0F == extra) by (bit_vector)
                            requires
                                extra < 16,
                        ;
                        let byte1 = (pos >> 4) as u8;
                        let byte2 = (((pos & 0x0F) << 4) | (extra & 0x0F)) as u8;
                        buffer.push(byte1);
                        buffer.push(byte2);
                        let ghost pstart = current_pos as int;
                        let mut m: usize = 0;
                        while m < len
                            invariant
                                x == input@,
                                m <= len,
                                pstart + len <= x.len(),
                                current_pos == pstart + m,
                                window@.len() == WINDOW_SIZE,
                                window_holds(window@, x.take(current_pos as int)),
                                current_window == current_pos % 4096,
                            decreases len - m,
                        {
                            proof {
                                lemma_window_push(window@, x.take(current_pos as int), x[current_pos as int]);
                                assert(x.take(current_pos as int).push(x[current_pos as int]) =~= x.take(
                                    current_pos + 1,
                                ));
                                lemma_mask((current_window + 1) as usize);
                            }
                            window.set(current_window, input[current_pos]);
                            current_pos += 1;
                            current_window = (current_window + 1) & WINDOW_MASK;
                            m += 1;
                        }
                        proof {
                            let nx = group_slots(x, cp + len, j + 1);
                            assert(group_slots(x, cp, j as int) == (nx.0, reference_bytes(pos as int, len as int) + nx.1, nx.2));
                            assert(reference_bytes(pos as int, len as int) =~= seq![byte1, byte2]);
                            assert(buf0 + (seq![byte1, byte2] + nx.1) =~= buffer@ + nx.1);
                            assert(word_at(buffer@, buf0.len() as int) == pos * 16 + extra);
                            lemma_slots_grow(bits, buf0, buffer@, cuts, ps, x);
                            bits = bits.push(false);
                            cuts = cuts.push(buffer@.len() as int);
                            ps = ps.push(current_pos as int);
                            assert(slot_ok(bits[k], buffer@, cuts[k], cuts[k + 1], x, ps[k], ps[k + 1]));
                        }
                    },
                    None => {
                        let b = input[current_pos];
                        buffer.push(b);
                        let ghost cp = current_pos as int;
                        let ghost f0 = flag_byte;
                        proof {
                            lemma_greedy_choice(window@, x, cp, None);
                            let nx = group_slots(x, cp + 1, j + 1);
                            assert(group_slots(x, cp, j as int) == (nx.0 | (1u8 << (j as u8)), seq![b] + nx.1, nx.2));
                            assert(buf0 + (seq![b] + nx.1) =~= buffer@ + nx.1);
                            lemma_flag_or(f0, nx.0, j as u8);
                            lemma_window_push(window@, x.take(current_pos as int), b);
                            assert(x.take(current_pos as int).push(b) =~= x.take(current_pos + 1));
                            lemma_mask((current_window + 1) as usize);
                            lemma_set_bit(flag_byte, j as u8);
                            lemma_slots_grow(bits, buf0, buffer@, cuts, ps, x);
                        }
                        window.set(current_window, b);
                        current_pos += 1;
                        current_window = (current_window + 1) & WINDOW_MASK;
                        // Slot `j` owns bit `j` of the flag byte, least significant first.
                        flag_byte = flag_byte | (1u8 << (j as u8));
                        proof {
                            bits = bits.push(true);
                            cuts = cuts.push(buffer@.len() as int);
                            ps = ps.push(current_pos as int);
                            assert(slot_ok(bits[k], buffer@, cuts[k], cuts[k + 1], x, ps[k], ps[k + 1]));
                        }
                    },
                }
            }
            j += 1;
        }
        let ghost f = flag_byte;
        let ghost g = seq![f] + buffer@;
        proof {
            lemma_flag_or(f, 0u8, 0u8);
            assert(buffer@ + Seq::<u8>::empty() =~= buffer@);
            assert(gs == (f, buffer@, current_pos as int));
        }
        output.push(flag_byte);
        let mut m: usize = 0;
        while m < buffer.len()
            invariant
                m <= buffer@.len(),
                output@ == o0.push(f) + buffer@.take(m as int),
            decreases buffer@.len() - m,
        {
            output.push(buffer[m]);
            proof {
                assert(buffer@.take(m as int).push(buffer@[m as int]) =~= buffer@.take(m + 1));
            }
            m += 1;
        }
        proof {
            assert(buffer@.take(buffer@.len() as int) =~= buffer@);
            assert(output@ =~= o0 + g);
            assert(encode(x, p0) == g + encode(x, current_pos as int));
            assert(output@ + encode(x, current_pos as int) =~= o0 + encode(x, p0));
            let q = o0.len() as int;
            if !in_pad {
                assert forall|t: Seq<u8>| #[trigger] decode(output@ + t) == decode_from(
                    output@ + t,
                    output@.len() as int,
                    0,
                    8,
                    x.take(current_pos as int),
                ) by {
                    let s = output@ + t;
                    assert(s =~= o0 + (g + t));
                    assert(decode(o0 + (g + t)) == decode_from(o0 + (g + t), q, 0, 8, x.take(p0)));
                    lemma_group(s, q, f, bits, cuts, ps, buffer@, x, 8);
                    lemma_group_end(s, output@.len() as int, f, x.take(current_pos as int));
                }
            } else {
                assert forall|t: Seq<u8>| t.len() >= 1 && t[0] == 0 implies #[trigger] decode(output@ + t)
                    == (x, true) by {
                    let s = output@ + t;
                    assert(s =~= o0 + (g + t));
                    assert(decode(o0 + (g + t)) == decode_from(o0 + (g + t), q, 0, 8, x.take(p0)));
                    lemma_group(s, q, f, bits, cuts.take(pad_at + 1), ps.take(pad_at + 1), buffer@, x, pad_at);
                    let pos = q + 1 + cuts[pad_at];
                    assert(s[pos] == buffer@[cuts[pad_at]]);
                    assert(s[pos] == 0);
                    if pad_at + 1 < 8 {
                        assert(s[pos + 1] == buffer@[cuts[pad_at] + 1]);
                    } else {
                        assert(s[pos + 1] == t[0]);
                    }
                    assert(s[pos + 1] == 0);
                    assert(!is_literal_slot(f, pad_at));
                    assert(word_at(s, pos) == 0);
                    assert(x.take(x.len() as int) =~= x);
                }
                padded = true;
            }
        }
    }
    let ghost o0 = output@;
    output.push(0u8);
    output.push(0u8);
    output.push(0u8);
    proof {
        let t = seq![0u8, 0u8, 0u8];
        assert(output@ =~= o0 + t);
        assert(encode(x, current_pos as int) == t);
        if !padded {
            let q = o0.len() as int;
            lemma_zero_flag();
            assert(decode(o0 + t) == decode_from(output@, q, 0, 8, x.take(x.len() as int)));
            assert(!is_literal_slot(0u8, 0));
            assert(word_at(output@, q + 1) == 0);
            assert(decode_from(output@, q + 1, 0, 0, x.take(x.len() as int)) == (x.take(x.len() as int), true));
            assert(x.take(x.len() as int) =~= x);
        } else {
            assert(decode(o0 + t) == (x, true));
        }
    }
    output
}

/// `lz77_compress_dummy` makes `input` valid for decompression without
/// compressing it: a flag byte marking eight literals before every eight
/// bytes, as `dummy_frame` states.
pub fn lz77_compress_dummy(input: &[u8]) -> (r: Vec<u8>)
    ensures
        r@ == dummy_frame(input@),
        decode(r@) == (input@, true),
{
    let ghost x = input@;
    let mut output: Vec<u8> = Vec::new();
    let len: usize = input.len();
    let groups: usize = len / 8;
    let mut i: usize = 0;
    proof {
        assert(x.skip(0) =~= x);
        assert(output@ + dummy_frame(x) =~= dummy_frame(x));
    }
    while i < groups
        invariant
            x == input@,
            len == x.len(),
            groups == x.len() / 8,
            i <= groups,
            output@ + dummy_frame(x.skip(8 * i)) == dummy_frame(x),
        decreases groups - i,
    {
        let ghost rest = x.skip(8 * i);
        let ghost o0 = output@;
        proof {
            assert(8 * i + 8 <= x.len()) by (nonlinear_arith)
                requires
                    i < groups,
                    groups == x.len() / 8,
            ;
        }
        output.push(0xFFu8);
        let mut j: usize = 0;
        while j < 8
            invariant
                x == input@,
                len == x.len(),
                groups == x.len() / 8,
                i < groups,
                8 * i + 8 <= x.len(),
                j <= 8,
                output@ == o0.push(0xFFu8) + x.subrange(8 * i, 8 * i + j),
            decreases 8 - j,
        {
            output.push(input[8 * i + j]);
            proof {
                assert(x.subrange(8 * i, 8 * i + j).push(x[8 * i + j]) =~= x.subrange(8 * i, 8 * i + j + 1));
            }
            j += 1;
        }
        proof {
            assert(rest.take(8) =~= x.subrange(8 * i, 8 * i + 8));
            assert(rest.skip(8) =~= x.skip(8 * (i + 1)));
            assert(o0 + dummy_frame(rest) =~= output@ + dummy_frame(x.skip(8 * (i + 1))));
        }
        i += 1;
    }
    let ghost o0 = output@;
    let ghost rest = x.skip(8 * i);
    assert(rest.len() == x.len() % 8);
    if input.len() % 8 == 0 {
        let mut k: usize = 0;
        while k < 8
            invariant
                output@ == o0 + Seq::new(k as nat, |m: int| 0u8),
                k <= 8,
            decreases 8 - k,
        {
            output.push(0u8);
            proof {
                assert(o0 + Seq::new((k + 1) as nat, |m: int| 0u8) =~= output@);
            }
            k += 1;
        }
        assert(rest.len() == 0);
    } else {
        let extra_bytes: usize = input.len() % 8;
        output.push(0xFFu8 >> ((8 - extra_bytes) as u8));
        let mut k: usize = input.len() - extra_bytes;
        while k < input.len()
            invariant
                x == input@,
                extra_bytes == x.len() % 8,
                x.len() - extra_bytes <= k <= x.len(),
                output@ == o0.push(0xFFu8 >> ((8 - extra_bytes) as u8)) + x.subrange(
                    x.len() - extra_bytes,
                    k as int,
                ),
            decreases x.len() - k,
        {
            output.push(input[k]);
            proof {
                assert(x.subrange(x.len() - extra_bytes, k as int).push(x[k as int]) =~= x.subrange(
                    x.len() - extra_bytes,
                    k + 1,
                ));
            }
            k += 1;
        }
        let ghost o1 = output@;
        output.push(0u8);
        output.push(0u8);
        output.push(0u8);
        output.push(0u8);
        proof {
            assert(rest =~= x.subrange(x.len() - extra_bytes, x.len() as int));
            assert(output@ =~= o1 + Seq::new(4, |m: int| 0u8));
        }
    }
    proof {
        assert(output@ =~= o0 + dummy_frame(rest));
        assert(output@ == dummy_frame(x));
        lemma_dummy_round_trip(x);
    }
    output
}

/// Decodes `input` up to its terminator, returning the bytes and whether the
/// terminator was found. A malformed stream (cut short, or with a
/// back-reference of distance zero) yields what was decoded before the fault.
fn decode_stream(input: &[u8]) -> (r: (Vec<u8>, bool))
    ensures
        (r.0@, r.1) == decode(input@),
{
    let ghost s = input@;
    let mut output: Vec<u8> = Vec::new();
    let mut window: Vec<u8> = vec![0u8; WINDOW_SIZE];
    let mut window_cursor: usize = 0;
    let mut cur_byte: usize = 0;
    let mut flag: u8 = 0;
    let mut slot: usize = 8;
    proof {
        assert(window@ =~= Seq::new(4096, |i: int| 0u8));
        lemma_window_empty();
    }
    while cur_byte < input.len()
        invariant
            s == input@,
            cur_byte <= s.len(),
            slot <= 8,
            window_holds(window@, output@),
            window_cursor == output@.len() % 4096,
            decode_from(s, cur_byte as int, flag, slot as int, output@) == decode(s),
        decreases s.len() - cur_byte,
    {
        if slot == 8 {
            flag = input[cur_byte];
            cur_byte += 1;
            slot = 0;
        } else if (flag >> (slot as u8)) & 1u8 == 1u8 {
            let b = input[cur_byte];
            proof {
                lemma_window_push(window@, output@, b);
            }
            output.push(b);
            window.set(window_cursor, b);
            proof {
                lemma_mask((window_cursor + 1) as usize);
            }
            window_cursor = (window_cursor + 1) & WINDOW_MASK;
            cur_byte += 1;
            slot += 1;
        } else {
            if cur_byte + 1 >= input.len() {
                return (output, false);
            }
            let w: usize = (input[cur_byte] as usize) * 256 + (input[cur_byte + 1] as usize);
            if w == 0 {
                return (output, true);
            }
            if w < 16 {
                return (output, false);
            }
            let dist: usize = w / 16;
            let length: usize = w % 16 + THRESHOLD;
            let ghost out0 = output@;
            proof {
                lemma_mask((window_cursor + WINDOW_SIZE - dist) as usize);
            }
            let mut position: usize = (window_cursor + WINDOW_SIZE - dist) & WINDOW_MASK;
            let mut k: usize = 0;
            while k < length
                invariant
                    1 <= dist < 4096,
                    k <= length,
                    window_holds(window@, output@),
                    window_cursor == output@.len() % 4096,
                    position == (output@.len() - dist) % 4096,
                    output@ == copy_back(out0, dist as int, k as nat),
                decreases length - k,
            {
                let b = window[position];
                assert(b == byte_back(output@, dist as int));
                proof {
                    lemma_window_push(window@, output@, b);
                    lemma_mask((window_cursor + 1) as usize);
                    lemma_mask((position + 1) as usize);
                }
                output.push(b);
                window.set(window_cursor, b);
                window_cursor = (window_cursor + 1) & WINDOW_MASK;
                position = (position + 1) & WINDOW_MASK;
                k += 1;
            }
            cur_byte += 2;
            slot += 1;
        }
    }
    (output, false)
}

/// Why a stream could not be decoded.
#[derive(Clone, Copy, Debug, PartialEq, Eq, Structural)]
pub enum DecodeError {
    /// The stream is cut short before its terminator, or holds a
    /// back-reference of distance zero.
    MalformedStream,
}

/// Decompresses `input`, failing where the stream is malformed: cut short
/// before its terminator, or with a back-reference of distance zero.
pub fn try_lz77_decompress(input: &[u8]) -> (r: Result<Vec<u8>, DecodeError>)
    ensures
        r is Ok <==> decode(input@).1,
        r is Ok ==> r->Ok_0@ == decode(input@).0,
        r is Err ==> r->Err_0 == DecodeError::MalformedStream,
{
    let (output, complete) = decode_stream(input);
    if complete {
        Ok(output)
    } else {
        Err(DecodeError::MalformedStream)
    }
}

/// `lz77_decompress` decompresses a compressed `input` array to raw bytes.
///
/// Decoding stops at the terminator; bytes after it are not read. A malformed
/// stream (cut short, or with a back-reference of distance zero) decodes to
/// the bytes that precede the fault.
pub fn lz77_decompress(input: &[u8]) -> (r: Vec<u8>)
    ensures
        r@ == decode(input@).0,
{
    decode_stream(input).0
}

} // verus!
