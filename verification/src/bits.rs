//! The mathematical model of bit streams.
//!
//! A sequence of `w`-bit elements (bytes when `w == 8`, symbols when
//! `w == n`) is read as one continuous bit stream, most significant bit
//! first within each element, and implicitly extended with zero bits past
//! the end. `window` gives the value of `m` consecutive bits of such a
//! stream; the encoder and decoder contracts are stated entirely in terms
//! of it.

use vstd::arithmetic::div_mod::{
    lemma_div_denominator, lemma_fundamental_div_mod, lemma_fundamental_div_mod_converse,
    lemma_mod_breakdown, lemma_small_mod,
};
use vstd::arithmetic::power2::{lemma_pow2_adds, lemma_pow2_pos, lemma_pow2_unfold, pow2};
use vstd::prelude::*;

verus! {

/// Element `i` of the sequence, and zero past either end: streams are
/// implicitly zero-extended.
pub open spec fn elem_at(s: Seq<u8>, i: int) -> nat {
    if 0 <= i < s.len() {
        s[i] as nat
    } else {
        0
    }
}

/// Bit `j` (0 is the most significant) of the `w`-bit value `v`.
pub open spec fn bit_in(v: nat, w: nat, j: int) -> nat
    recommends
        0 <= j < w,
        v < pow2(w),
{
    (v / pow2((w - 1 - j) as nat)) % 2
}

/// Bit `p` of the stream formed by the `w`-bit elements of `s`.
pub open spec fn stream_bit(s: Seq<u8>, w: nat, p: int) -> nat
    recommends
        w >= 1,
        p >= 0,
{
    bit_in(elem_at(s, p / (w as int)), w, p % (w as int))
}

/// The value of the `m` bits of the stream starting at position `p`,
/// most significant bit first.
pub open spec fn window(s: Seq<u8>, w: nat, p: int, m: nat) -> nat
    recommends
        w >= 1,
        p >= 0,
    decreases m,
{
    if m == 0 {
        0
    } else {
        2 * window(s, w, p, (m - 1) as nat) + stream_bit(s, w, p + m - 1)
    }
}

/// A window of `m` bits is a value below `2^m`.
pub proof fn lemma_window_bound(s: Seq<u8>, w: nat, p: int, m: nat)
    ensures
        window(s, w, p, m) < pow2(m),
    decreases m,
{
    if m == 0 {
        lemma_pow2_pos(0);
        assert(pow2(0) == 1) by {
            vstd::arithmetic::power2::lemma2_to64();
        }
    } else {
        lemma_window_bound(s, w, p, (m - 1) as nat);
        lemma_pow2_unfold(m);
    }
}

/// A window splits at any interior position: the upper `m1` bits carry
/// weight `2^m2` against the lower `m2` bits.
pub proof fn lemma_window_concat(s: Seq<u8>, w: nat, p: int, m1: nat, m2: nat)
    ensures
        window(s, w, p, m1 + m2) == window(s, w, p, m1) * pow2(m2) + window(s, w, p + m1, m2),
    decreases m2,
{
    if m2 == 0 {
        assert(pow2(0) == 1) by {
            vstd::arithmetic::power2::lemma2_to64();
        }
    } else {
        lemma_window_concat(s, w, p, m1, (m2 - 1) as nat);
        lemma_pow2_unfold(m2);
        assert(window(s, w, p, (m1 + m2 - 1) as nat) == window(s, w, p, m1) * pow2((m2 - 1) as nat)
            + window(s, w, p + m1, (m2 - 1) as nat));
        assert(2 * (window(s, w, p, m1) * pow2((m2 - 1) as nat)) == window(s, w, p, m1) * (2 * pow2(
            (m2 - 1) as nat,
        ))) by (nonlinear_arith);
    }
}

/// A window that stays inside element `i` (bits `a` to `a + m` of it) is a
/// quotient-and-remainder slice of that element's value.
pub proof fn lemma_window_elem(s: Seq<u8>, w: nat, i: int, a: int, m: nat)
    requires
        w >= 1,
        i >= 0,
        0 <= a,
        a + m <= w,
        elem_at(s, i) < pow2(w),
    ensures
        window(s, w, i * w + a, m) == (elem_at(s, i) / pow2((w - a - m) as nat)) % pow2(m),
    decreases m,
{
    let x = elem_at(s, i);
    if m == 0 {
        assert(pow2(0) == 1) by {
            vstd::arithmetic::power2::lemma2_to64();
        }
        assert((x / pow2((w - a) as nat)) % 1 == 0) by {
            lemma_pow2_pos((w - a) as nat);
            lemma_small_mod(0, 1);
            lemma_fundamental_div_mod((x / pow2((w - a) as nat)) as int, 1);
        }
    } else {
        let k = (w - a - m) as nat;
        let p = i * w + a;
        lemma_window_elem(s, w, i, a, (m - 1) as nat);
        // The last bit of the window is bit a + m - 1 of element i.
        assert((p + m - 1) / (w as int) == i && (p + m - 1) % (w as int) == a + m - 1) by {
            lemma_fundamental_div_mod_converse(p + m - 1, w as int, i, a + m - 1);
        }
        lemma_pow2_pos(k);
        let y = x / pow2(k);
        // Dividing by one more power of two halves the quotient.
        assert(x / pow2(k + 1) == y / 2) by {
            lemma_pow2_adds(k, 1);
            assert(pow2(1) == 2) by {
                vstd::arithmetic::power2::lemma2_to64();
            }
            lemma_div_denominator(x as int, pow2(k) as int, 2);
        }
        assert(y % pow2(m) == 2 * ((y / 2) % pow2((m - 1) as nat)) + y % 2) by {
            lemma_pow2_unfold(m);
            lemma_pow2_pos((m - 1) as nat);
            lemma_mod_breakdown(y as int, 2, pow2((m - 1) as nat) as int);
        }
    }
}

/// Bit `j` of a window is the stream bit `p + j`.
pub proof fn lemma_bit_of_window(s: Seq<u8>, w: nat, p: int, m: nat, j: int)
    requires
        0 <= j < m,
    ensures
        bit_in(window(s, w, p, m), m, j) == stream_bit(s, w, p + j),
    decreases m,
{
    let win = window(s, w, p, m);
    let win1 = window(s, w, p, (m - 1) as nat);
    let b = stream_bit(s, w, p + m - 1);
    if j == m - 1 {
        assert(pow2(0) == 1) by {
            vstd::arithmetic::power2::lemma2_to64();
        }
        assert(win / 1 == win) by {
            lemma_fundamental_div_mod(win as int, 1);
        }
        assert((2 * win1 + b) % 2 == b) by {
            lemma_fundamental_div_mod_converse(win as int, 2, win1 as int, b as int);
        }
    } else {
        lemma_bit_of_window(s, w, p, (m - 1) as nat, j);
        // win / 2 == win1, so dividing out the extra power of two reduces
        // bit j of the m-bit window to bit j of the (m-1)-bit window.
        assert(win / 2 == win1) by {
            lemma_fundamental_div_mod_converse(win as int, 2, win1 as int, b as int);
        }
        let k = (m - 1 - j) as nat;
        assert(win / pow2(k) == win1 / pow2((k - 1) as nat)) by {
            lemma_pow2_pos((k - 1) as nat);
            lemma_pow2_unfold(k);
            assert(pow2(k) == 2 * pow2((k - 1) as nat));
            lemma_div_denominator(win as int, 2, pow2((k - 1) as nat) as int);
        }
    }
}

/// Streams that agree bit for bit over a range have equal windows there.
pub proof fn lemma_window_congruence(s1: Seq<u8>, w1: nat, s2: Seq<u8>, w2: nat, p: int, m: nat)
    requires
        forall|q: int| p <= q < p + m ==> stream_bit(s1, w1, q) == stream_bit(s2, w2, q),
    ensures
        window(s1, w1, p, m) == window(s2, w2, p, m),
    decreases m,
{
    if m > 0 {
        lemma_window_congruence(s1, w1, s2, w2, p, (m - 1) as nat);
    }
}

/// A window is zero exactly when every bit under it is zero.
pub proof fn lemma_window_zero(s: Seq<u8>, w: nat, p: int, m: nat)
    ensures
        (window(s, w, p, m) == 0) <==> (forall|q: int|
            p <= q < p + m ==> stream_bit(s, w, q) == 0),
    decreases m,
{
    if m > 0 {
        lemma_window_zero(s, w, p, (m - 1) as nat);
        if window(s, w, p, m) == 0 {
            assert(forall|q: int| p <= q < p + m - 1 ==> stream_bit(s, w, q) == 0);
            assert(stream_bit(s, w, p + m - 1) == 0);
        }
    }
}

} // verus!
