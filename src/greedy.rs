//! What the encoder emits, stated as spec functions: the window it searches,
//! the back-reference it picks at each position, and the groups it lays down.
use vstd::prelude::*;
use crate::frame::{byte_back, is_greedy_choice, window_holds, THRESHOLD};

verus! {

/// The window after the history `out`: slot `i` holds the latest byte whose
/// position is `i` modulo the window size, or zero.
pub open spec fn window_of(out: Seq<u8>) -> Seq<u8> {
    Seq::new(4096, |i: int| byte_back(out, (out.len() - i - 1) % 4096 + 1))
}

/// The back-reference that `is_greedy_choice` picks at position `p` of `x`.
pub open spec fn greedy_choice(x: Seq<u8>, p: int) -> Option<(int, int)> {
    choose|r: Option<(int, int)>| #[trigger] is_greedy_choice(window_of(x.take(p)), p % 4096, x, p, r)
}

/// The big-endian bytes of a back-reference of distance `d` and length `n`.
pub open spec fn reference_bytes(d: int, n: int) -> Seq<u8> {
    let w = 16 * d + (n - THRESHOLD);
    seq![(w / 256) as u8, (w % 256) as u8]
}

/// The slots `j..8` of the group that starts at position `p` of `x`: the
/// flag bits they set, their payload, and the position after them. Past the
/// end of `x` a slot holds a zero byte and is marked as a back-reference.
pub open spec fn group_slots(x: Seq<u8>, p: int, j: int) -> (u8, Seq<u8>, int)
    decreases 8 - j,
{
    if j >= 8 || j < 0 {
        (0u8, Seq::empty(), p)
    } else if p >= x.len() {
        let (f, pl, e) = group_slots(x, p, j + 1);
        (f, seq![0u8] + pl, e)
    } else {
        match greedy_choice(x, p) {
            Some((d, n)) => {
                let (f, pl, e) = group_slots(x, p + n, j + 1);
                (f, reference_bytes(d, n) + pl, e)
            },
            None => {
                let (f, pl, e) = group_slots(x, p + 1, j + 1);
                (f | (1u8 << (j as u8)), seq![x[p]] + pl, e)
            },
        }
    }
}

/// The compressed stream for `x[p..]`: one group after another, each a flag
/// byte then its payload, and three zero bytes at the end.
pub open spec fn encode(x: Seq<u8>, p: int) -> Seq<u8>
    decreases x.len() - p,
{
    if p >= x.len() {
        seq![0u8, 0u8, 0u8]
    } else {
        let (f, pl, e) = group_slots(x, p, 0);
        if e <= p || e > x.len() {
            Seq::empty()
        } else {
            seq![f] + pl + encode(x, e)
        }
    }
}

/// A window that holds the history `out` is `window_of(out)`.
pub proof fn lemma_window_of(window: Seq<u8>, out: Seq<u8>)
    requires
        window_holds(window, out),
    ensures
        window == window_of(out),
{
    assert forall|i: int| 0 <= i < 4096 implies window[i] == #[trigger] window_of(out)[i] by {
        let a = out.len() - i - 1;
        let d = a % 4096 + 1;
        vstd::arithmetic::div_mod::lemma_fundamental_div_mod(a, 4096);
        vstd::arithmetic::div_mod::lemma_mod_multiples_vanish(a / 4096, i, 4096);
        vstd::arithmetic::div_mod::lemma_small_mod(i as nat, 4096);
        assert(out.len() - d == 4096 * (a / 4096) + i);
        assert(window[(out.len() - d) % 4096] == byte_back(out, d));
    }
    assert(window =~= window_of(out));
}

/// At most one result meets `is_greedy_choice`.
pub proof fn lemma_greedy_unique(
    window: Seq<u8>,
    cursor: int,
    data: Seq<u8>,
    dpos: int,
    r1: Option<(int, int)>,
    r2: Option<(int, int)>,
)
    requires
        is_greedy_choice(window, cursor, data, dpos, r1),
        is_greedy_choice(window, cursor, data, dpos, r2),
    ensures
        r1 == r2,
{
    match (r1, r2) {
        (Some((d1, n1)), Some((d2, n2))) => {
            if d1 < d2 {
                assert(crate::frame::match_at(window, cursor, data, dpos, d1) == n1);
            } else if d2 < d1 {
                assert(crate::frame::match_at(window, cursor, data, dpos, d2) == n2);
            }
        },
        (Some((d1, n1)), None) => {
            assert(crate::frame::match_at(window, cursor, data, dpos, d1) == n1);
        },
        (None, Some((d2, n2))) => {
            assert(crate::frame::match_at(window, cursor, data, dpos, d2) == n2);
        },
        (None, None) => {},
    }
}

/// A result that meets `is_greedy_choice` in the window of `x[..p]` is
/// `greedy_choice(x, p)`.
pub proof fn lemma_greedy_choice(window: Seq<u8>, x: Seq<u8>, p: int, r: Option<(int, int)>)
    requires
        window_holds(window, x.take(p)),
        is_greedy_choice(window, p % 4096, x, p, r),
    ensures
        greedy_choice(x, p) == r,
{
    lemma_window_of(window, x.take(p));
    let c = greedy_choice(x, p);
    assert(is_greedy_choice(window_of(x.take(p)), p % 4096, x, p, c));
    lemma_greedy_unique(window, p % 4096, x, p, c, r);
}

/// The flag bits of earlier slots and of later ones combine in any order.
pub proof fn lemma_flag_or(a: u8, b: u8, j: u8)
    ensures
        a | (b | (1u8 << j)) == (a | (1u8 << j)) | b,
        a | 0u8 == a,
{
    assert(a | (b | (1u8 << j)) == (a | (1u8 << j)) | b) by (bit_vector);
    assert(a | 0u8 == a) by (bit_vector);
}

} // verus!
