//! Positions that wrap around the ends of a sequence.
use vstd::prelude::*;
use vstd::arithmetic::div_mod::{
    lemma_fundamental_div_mod, lemma_mod_multiples_vanish, lemma_mod_add_multiples_vanish,
    lemma_small_mod, lemma_mod_pos_bound, lemma_add_mod_noop_right,
};

verus! {

/// The position `offset` steps forward from `start` in a cycle of `len` positions.
pub open spec fn forward(start: int, offset: int, len: int) -> int {
    (start + offset) % len
}

/// The position `offset` steps back from `start` in a cycle of `len` positions.
pub open spec fn backward(start: int, offset: int, len: int) -> int {
    (start + len - offset) % len
}

/// Stepping fewer than `len` places forward wraps around at most once.
pub proof fn lemma_forward(start: int, offset: int, len: int)
    requires
        0 <= start,
        0 <= offset < len,
    ensures
        0 <= start % len < len,
        forward(start, offset, len) == if start % len + offset < len {
            start % len + offset
        } else {
            start % len + offset - len
        },
{
    let q = start / len;
    let r = start % len;
    lemma_fundamental_div_mod(start, len);
    lemma_mod_pos_bound(start, len);
    lemma_mod_multiples_vanish(q, r + offset, len);
    assert(start + offset == len * q + (r + offset));
    if r + offset < len {
        lemma_small_mod((r + offset) as nat, len as nat);
    } else {
        lemma_mod_add_multiples_vanish(r + offset - len, len);
        lemma_small_mod((r + offset - len) as nat, len as nat);
    }
}

/// A value in `[0, 2 * len)` reduced modulo `len`.
pub proof fn lemma_reduce_once(x: int, len: int)
    requires
        0 <= x < 2 * len,
    ensures
        x % len == if x < len {
            x
        } else {
            x - len
        },
{
    if x < len {
        lemma_small_mod(x as nat, len as nat);
    } else {
        lemma_mod_add_multiples_vanish(x - len, len);
        lemma_small_mod((x - len) as nat, len as nat);
    }
}

/// Every position of the cycle is reached by stepping forward from `start`
/// fewer than `len` times.
pub proof fn lemma_forward_onto(start: int, k: int, len: int) -> (offset: int)
    requires
        0 <= start,
        0 <= k < len,
    ensures
        0 <= offset < len,
        forward(start, offset, len) == k,
{
    lemma_forward(start, 0, len);
    let r = start % len;
    let offset = if k >= r {
        k - r
    } else {
        k + len - r
    };
    lemma_forward(start, offset, len);
    offset
}

/// Every position of the cycle is reached by stepping back from a position
/// `start` of the cycle fewer than `len` times.
pub proof fn lemma_backward_onto(start: int, k: int, len: int) -> (offset: int)
    requires
        0 <= start < len,
        0 <= k < len,
    ensures
        0 <= offset < len,
        backward(start, offset, len) == k,
{
    let offset = if k <= start {
        start - k
    } else {
        start + len - k
    };
    lemma_reduce_once(start + len - offset, len);
    offset
}

/// Reducing a summand before the sum changes nothing.
pub proof fn lemma_mod_shift(x: int, y: int, len: int)
    requires
        0 < len,
    ensures
        ((x % len) + y) % len == (x + y) % len,
{
    lemma_add_mod_noop_right(y, x, len);
    assert(y + (x % len) == (x % len) + y);
    assert(y + x == x + y);
}

} // verus!
