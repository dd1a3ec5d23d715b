//! The byte/symbol bit-regrouping engine and the alphabet layer over it.
//!
//! `octet_group_to_ntets` turns a byte sequence into the sequence of `n`-bit
//! symbols (n-tets) carrying the same bits; `ntet_group_to_octets` inverts
//! it, verifying that the input is the canonical encoding of some byte
//! sequence. The alphabet layer maps symbol values to display characters
//! and back, per named RFC 4648-style alphabet.

use crate::bits::{
    elem_at, lemma_bit_of_window, lemma_window_bound, lemma_window_concat,
    lemma_window_congruence, lemma_window_elem, lemma_window_zero, stream_bit, window,
};
use crate::errors::{DecodeError, EncodeError};
use vstd::arithmetic::div_mod::{
    lemma_fundamental_div_mod, lemma_fundamental_div_mod_converse, lemma_multiply_divide_lt,
    lemma_small_mod,
};
use vstd::arithmetic::power2::{lemma2_to64, lemma_pow2_adds, lemma_pow2_pos, pow2 as pow2_spec};
use vstd::prelude::*;

verus! {

/// The number of symbols that encoding `l` bytes at width `n` produces:
/// the smallest symbol count whose bits cover `8 * l` bits.
pub open spec fn enc_len(l: nat, n: nat) -> nat
    recommends
        n >= 1,
{
    ((8 * l + n - 1) / (n as int)) as nat
}

/// The number of bytes that decoding `m` symbols of width `n` produces:
/// the largest byte count fully covered by `m * n` bits.
pub open spec fn dec_len(m: nat, n: nat) -> nat {
    ((m * n) as int / 8) as nat
}

/// The symbol sequence that encodes `bytes` at width `n`: symbol `i` holds
/// bits `i * n` to `i * n + n` of the byte stream, zero-padded at the tail.
pub open spec fn encode_spec(bytes: Seq<u8>, n: nat) -> Seq<u8>
    recommends
        1 <= n <= 7,
{
    Seq::new(enc_len(bytes.len(), n), |i: int| window(bytes, 8, i * n, n) as u8)
}

/// The byte sequence that `syms` (symbols of width `n`) decodes to: byte `j`
/// holds bits `8 * j` to `8 * j + 8` of the symbol stream.
pub open spec fn decode_spec(syms: Seq<u8>, n: nat) -> Seq<u8>
    recommends
        1 <= n <= 7,
{
    Seq::new(dec_len(syms.len(), n), |j: int| window(syms, n, 8 * j, 8) as u8)
}

/// Every symbol value fits in `n` bits.
pub open spec fn symbols_valid(syms: Seq<u8>, n: nat) -> bool {
    forall|i: int| 0 <= i < syms.len() ==> (syms[i] as nat) < pow2_spec(n)
}

/// Every bit in the overhang — past the last fully covered byte but within
/// the symbols — is zero, which makes `syms` the unique minimal encoding of
/// the bytes it carries.
pub open spec fn canonical(syms: Seq<u8>, n: nat) -> bool {
    forall|p: int|
        8 * dec_len(syms.len(), n) <= p < syms.len() * n ==> stream_bit(syms, n, p) == 0
}

/// The greatest common divisor of 8 and `n`, for `1 <= n <= 7`.
pub open spec fn gcd8(n: nat) -> nat
    recommends
        1 <= n <= 7,
{
    if n == 4 {
        4
    } else if n == 2 || n == 6 {
        2
    } else {
        1
    }
}

/// The octet group size `lcm(8, n) / 8`: the fewest octets whose bits are a
/// whole number of symbols.
pub open spec fn octet_group_size(n: nat) -> nat
    recommends
        1 <= n <= 7,
{
    n / gcd8(n)
}

/// The symbol group size `lcm(8, n) / n`: the fewest symbols whose bits are
/// a whole number of octets.
pub open spec fn symbol_group_size(n: nat) -> nat
    recommends
        1 <= n <= 7,
{
    8nat / gcd8(n)
}

/// Two raised to the power `i`, as an 8-bit value.
pub fn pow2(i: u8) -> (r: u8)
    requires
        i < 8,
    ensures
        r as nat == pow2_spec(i as nat),
{
    proof {
        lemma2_to64();
    }
    match i {
        0 => 1,
        1 => 2,
        2 => 4,
        3 => 8,
        4 => 16,
        5 => 32,
        6 => 64,
        _ => 128,
    }
}

/// The two group constants for width `n`: the octet group size and the
/// symbol group size, the smallest positive pair whose bit counts agree.
pub fn group_sizes(n: u8) -> (r: (u8, u8))
    requires
        1 <= n <= 7,
    ensures
        r.0 as nat == octet_group_size(n as nat),
        r.1 as nat == symbol_group_size(n as nat),
        8 * r.0 == n * r.1,
        forall|a: int, b: int|
            #![trigger (8 * a), (n * b)]
            1 <= a && 1 <= b && 8 * a == n * b ==> r.0 <= a && r.1 <= b,
{
    let d: u8 = if n == 4 {
        4
    } else if n == 2 || n == 6 {
        2
    } else {
        1
    };
    proof {
        lemma_group_sizes(n as nat);
        assert(d as nat == gcd8(n as nat));
    }
    (n / d, 8 / d)
}

/// The group constants' defining identity: a group's octets and its symbols
/// carry the same bits, and no smaller positive pair of counts does.
pub proof fn lemma_group_sizes(n: nat)
    requires
        1 <= n <= 7,
    ensures
        1 <= octet_group_size(n) <= 7,
        1 <= symbol_group_size(n) <= 8,
        8 * octet_group_size(n) == n * symbol_group_size(n),
        forall|a: int, b: int|
            #![trigger (8 * a), (n * b)]
            1 <= a && 1 <= b && 8 * a == n * b ==> octet_group_size(n) <= a && symbol_group_size(
                n,
            ) <= b,
{
    if n == 1 || n == 3 || n == 5 || n == 7 {
        assert(gcd8(n) == 1);
        lemma_fundamental_div_mod_converse(n as int, 1, n as int, 0);
        lemma_fundamental_div_mod_converse(8, 1, 8, 0);
        assert(octet_group_size(n) == n && symbol_group_size(n) == 8);
    } else if n == 2 || n == 6 {
        assert(gcd8(n) == 2);
        lemma_fundamental_div_mod_converse(2, 2, 1, 0);
        lemma_fundamental_div_mod_converse(6, 2, 3, 0);
        lemma_fundamental_div_mod_converse(8, 2, 4, 0);
        assert(2 * octet_group_size(n) == n && symbol_group_size(n) == 4);
    } else {
        assert(n == 4 && gcd8(n) == 4);
        lemma_fundamental_div_mod_converse(4, 4, 1, 0);
        lemma_fundamental_div_mod_converse(8, 4, 2, 0);
        assert(octet_group_size(n) == 1 && symbol_group_size(n) == 2);
    }
    assert(8 * octet_group_size(n) == n * symbol_group_size(n)) by (nonlinear_arith)
        requires
            1 <= n <= 7,
            n == 1 ==> octet_group_size(n) == 1 && symbol_group_size(n) == 8,
            n == 2 ==> octet_group_size(n) == 1 && symbol_group_size(n) == 4,
            n == 3 ==> octet_group_size(n) == 3 && symbol_group_size(n) == 8,
            n == 4 ==> octet_group_size(n) == 1 && symbol_group_size(n) == 2,
            n == 5 ==> octet_group_size(n) == 5 && symbol_group_size(n) == 8,
            n == 6 ==> octet_group_size(n) == 3 && symbol_group_size(n) == 4,
            n == 7 ==> octet_group_size(n) == 7 && symbol_group_size(n) == 8,
    ;
}

/// The encoder's output length computed by groups — full octet groups times
/// the symbol group size, plus the symbols that cover the residual octets —
/// equals the direct ceiling formula.
pub proof fn lemma_encode_length_by_groups(l: nat, n: nat)
    requires
        1 <= n <= 7,
    ensures
        enc_len(l, n) == (l / octet_group_size(n)) * symbol_group_size(n) + enc_len(
            l % octet_group_size(n),
            n,
        ),
{
    let go = octet_group_size(n) as int;
    let gs = symbol_group_size(n) as int;
    let ni = n as int;
    let f = (l as int) / go;
    let r = (l as int) % go;
    lemma_group_sizes(n);
    lemma_fundamental_div_mod(l as int, go);
    assert(8 * (l as int) + ni - 1 == (8 * r + ni - 1) + (f * gs) * ni) by (nonlinear_arith)
        requires
            l == go * f + r,
            8 * go == ni * gs,
    ;
    vstd::arithmetic::div_mod::lemma_hoist_over_denominator(8 * r + ni - 1, f * gs, n);
    assert(f >= 0 && r >= 0) by {
        vstd::arithmetic::div_mod::lemma_div_pos_is_pos(l as int, go);
        vstd::arithmetic::div_mod::lemma_mod_bound(l as int, go);
    }
    assert(f * gs >= 0) by (nonlinear_arith)
        requires
            f >= 0,
            gs >= 0,
    ;
}

/// The decoder's output length computed by groups — full symbol groups times
/// the octet group size, plus the octets the residual symbols fully cover —
/// equals the direct floor formula.
pub proof fn lemma_decode_length_by_groups(m: nat, n: nat)
    requires
        1 <= n <= 7,
    ensures
        dec_len(m, n) == (m / symbol_group_size(n)) * octet_group_size(n) + dec_len(
            m % symbol_group_size(n),
            n,
        ),
{
    let go = octet_group_size(n) as int;
    let gs = symbol_group_size(n) as int;
    let ni = n as int;
    let f = (m as int) / gs;
    let r = (m as int) % gs;
    lemma_group_sizes(n);
    lemma_fundamental_div_mod(m as int, gs);
    assert((m as int) * ni == r * ni + (f * go) * 8) by (nonlinear_arith)
        requires
            m == gs * f + r,
            8 * go == ni * gs,
    ;
    vstd::arithmetic::div_mod::lemma_hoist_over_denominator(r * ni, f * go, 8);
    assert(f >= 0 && r >= 0) by {
        vstd::arithmetic::div_mod::lemma_div_pos_is_pos(m as int, gs);
        vstd::arithmetic::div_mod::lemma_mod_bound(m as int, gs);
    }
    assert(f * go >= 0 && r * ni >= 0 && (m as nat) * n == (m as int) * ni && (r as nat) * n == r
        * ni) by (nonlinear_arith)
        requires
            f >= 0,
            go >= 0,
            r >= 0,
            ni == n,
            ni >= 1,
            m >= 0,
    ;
}

/// The symbol count of an encoding covers the input's bits and no more than
/// one symbol's worth beyond them.
proof fn lemma_enc_len_bounds(l: nat, n: nat)
    requires
        1 <= n <= 7,
    ensures
        8 * l <= enc_len(l, n) * n <= 8 * l + n - 1,
{
    let x = 8 * l;
    let m = enc_len(l, n) as int;
    lemma_fundamental_div_mod(x + n - 1, n as int);
    let r = (x + n - 1) % (n as int);
    assert(0 <= r < n) by {
        vstd::arithmetic::div_mod::lemma_mod_bound(x + n - 1, n as int);
    }
    assert(m * n == n * m) by (nonlinear_arith);
}

/// Encodes a byte sequence as the sequence of `n`-bit symbols carrying the
/// same bits, most significant bit first, the tail padded with zero bits,
/// truncated to the exact `ceil(8 * len / n)` symbols that cover the input.
/// Fails exactly when `n` is outside `[1, 7]`; no byte content can fail.
pub fn octet_group_to_ntets(input: &Vec<u8>, n: u8) -> (r: Result<Vec<u8>, EncodeError>)
    requires
        8 * input@.len() <= usize::MAX,
    ensures
        match r {
            Ok(out) => 1 <= n <= 7 && out@ == encode_spec(input@, n as nat),
            Err(e) => !(1 <= n <= 7) && e == (EncodeError::InvalidWidth { n }),
        },
{
    if !(1 <= n && n <= 7) {
        return Err(EncodeError::InvalidWidth { n });
    }
    let len = input.len();
    let n_us = n as usize;
    let bit_len = 8 * len;
    let out_len = bit_len / n_us + if bit_len % n_us != 0 {
        1
    } else {
        0
    };
    proof {
        // The floor-plus-carry form computes the ceiling `enc_len`.
        let x = bit_len as int;
        let nn = n as int;
        lemma_fundamental_div_mod(x, nn);
        if x % nn == 0 {
            assert(x + nn - 1 == (x / nn) * nn + (nn - 1)) by (nonlinear_arith)
                requires
                    x == nn * (x / nn) + x % nn,
                    x % nn == 0,
            ;
            lemma_fundamental_div_mod_converse(x + nn - 1, nn, x / nn, nn - 1);
        } else {
            assert(x + nn - 1 == (x / nn + 1) * nn + (x % nn - 1)) by (nonlinear_arith)
                requires
                    x == nn * (x / nn) + x % nn,
            ;
            lemma_fundamental_div_mod_converse(x + nn - 1, nn, x / nn + 1, x % nn - 1);
        }
        lemma_enc_len_bounds(input@.len(), n as nat);
    }
    let mut out: Vec<u8> = Vec::new();
    let mut i: usize = 0;
    while i < out_len
        invariant
            1 <= n <= 7,
            n_us == n as usize,
            len == input@.len(),
            8 * len <= usize::MAX,
            bit_len == 8 * len,
            out_len == enc_len(input@.len(), n as nat),
            8 * len <= out_len * n_us <= 8 * len + n - 1,
            i <= out_len,
            out@.len() == i,
            forall|k: int|
                0 <= k < i ==> out@[k] == (window(input@, 8, k * (n as int), n as nat) as u8),
        decreases out_len - i,
    {
        proof {
            // Symbol i starts strictly inside the input's own bits.
            vstd::arithmetic::mul::lemma_mul_inequality(i + 1, out_len as int, n as int);
            assert((i + 1) * (n as int) == i * (n as int) + n) by (nonlinear_arith);
        }
        let bit_pos = i * n_us;
        let byte_i = bit_pos / 8;
        let off = (bit_pos % 8) as u8;
        proof {
            lemma_fundamental_div_mod(bit_pos as int, 8);
            lemma2_to64();
            assert(byte_i < len) by {
                lemma_multiply_divide_lt(bit_pos as int, 8, len as int);
            }
        }
        let sym: u8;
        if off + n <= 8 {
            let b0 = input[byte_i];
            let q = b0 / pow2(8 - off - n);
            sym = q % pow2(n);
            proof {
                lemma_window_elem(input@, 8, byte_i as int, off as int, n as nat);
            }
        } else {
            let k1 = 8 - off;
            let k2 = off + n - 8;
            let b0 = input[byte_i];
            let b1 = if byte_i + 1 < len {
                input[byte_i + 1]
            } else {
                0
            };
            let hi = b0 % pow2(k1);
            let lo = b1 / pow2(8 - k2);
            proof {
                let p1 = pow2_spec(k1 as nat);
                let p2 = pow2_spec(k2 as nat);
                lemma_pow2_adds(k1 as nat, k2 as nat);
                lemma_pow2_adds((8 - k2) as nat, k2 as nat);
                assert(lo < p2) by {
                    lemma_multiply_divide_lt(b1 as int, pow2_spec((8 - k2) as nat) as int, p2 as int);
                }
                assert(hi * p2 + lo < p1 * p2) by (nonlinear_arith)
                    requires
                        hi < p1,
                        lo < p2,
                        p2 > 0,
                ;
                lemma_window_concat(input@, 8, bit_pos as int, k1 as nat, k2 as nat);
                lemma_window_elem(input@, 8, byte_i as int, off as int, k1 as nat);
                lemma_window_elem(input@, 8, byte_i as int + 1, 0, k2 as nat);
                assert(bit_pos + k1 == (byte_i as int + 1) * 8);
                assert(elem_at(input@, byte_i as int + 1) < pow2_spec(8));
                assert(b1 as nat == elem_at(input@, byte_i as int + 1));
                assert(lo as nat == (elem_at(input@, byte_i as int + 1) / pow2_spec(
                    (8 - k2) as nat,
                )) % p2) by {
                    lemma_small_mod(lo as nat, p2);
                }
                assert(hi as nat == (elem_at(input@, byte_i as int) / pow2_spec(0)) % p1) by {
                    assert(pow2_spec(0) == 1);
                    assert(b0 as int / 1 == b0 as int);
                }
            }
            sym = hi * pow2(k2) + lo;
        }
        proof {
            assert(window(input@, 8, i * (n as int), n as nat) < pow2_spec(n as nat)) by {
                lemma_window_bound(input@, 8, i * (n as int), n as nat);
            }
        }
        out.push(sym);
        i = i + 1;
    }
    proof {
        assert(out@ =~= encode_spec(input@, n as nat));
    }
    Ok(out)
}

/// Decodes a sequence of `n`-bit symbols back into the byte sequence whose
/// bits they carry, truncated to the exact `floor(len * n / 8)` bytes the
/// symbols fully cover. Fails with `InvalidWidth` when `n` is outside
/// `[1, 7]`; with `InvalidSymbol` naming the first symbol value that does
/// not fit in `n` bits; with `NonCanonical` when any bit beyond the last
/// fully covered byte is nonzero. Otherwise the input is the canonical
/// encoding of exactly the returned bytes.
pub fn ntet_group_to_octets(input: &Vec<u8>, n: u8) -> (r: Result<Vec<u8>, DecodeError>)
    ensures
        match r {
            Ok(out) => 1 <= n <= 7 && symbols_valid(input@, n as nat) && canonical(
                input@,
                n as nat,
            ) && out@ == decode_spec(input@, n as nat),
            Err(e) => match e {
                DecodeError::InvalidWidth { n: m } => m == n && !(1 <= n <= 7),
                DecodeError::InvalidSymbol { value, n: m } => m == n && 1 <= n <= 7 && exists|
                    i: int,
                |
                    #![trigger input@[i]]
                    0 <= i < input@.len() && input@[i] == value && pow2_spec(n as nat) <= input@[i]
                        && forall|j: int| 0 <= j < i ==> (#[trigger] input@[j] as nat) < pow2_spec(n as nat),
                DecodeError::NonCanonical => 1 <= n <= 7 && symbols_valid(input@, n as nat)
                    && !canonical(input@, n as nat),
                _ => false,
            },
        },
{
    if !(1 <= n && n <= 7) {
        return Err(DecodeError::InvalidWidth { n });
    }
    let m = input.len();
    let mut out: Vec<u8> = Vec::new();
    // The bits past the last completed output byte, highest first, and how
    // many of them there are: the carry between symbols.
    let mut acc: u8 = 0;
    let mut rbits: u8 = 0;
    let mut t: usize = 0;
    proof {
        lemma2_to64();
    }
    while t < m
        invariant
            1 <= n <= 7,
            m == input@.len(),
            t <= m,
            rbits < 8,
            8 * out@.len() + rbits == (t as int) * (n as int),
            acc as nat == window(input@, n as nat, 8 * (out@.len() as int), rbits as nat),
            acc < pow2_spec(rbits as nat),
            forall|j: int| 0 <= j < t ==> (#[trigger] input@[j] as nat) < pow2_spec(n as nat),
            forall|k: int|
                0 <= k < out@.len() ==> out@[k] == (window(input@, n as nat, 8 * k, 8) as u8),
        decreases m - t,
    {
        let s = input[t];
        if s >= pow2(n) {
            return Err(DecodeError::InvalidSymbol { value: s, n });
        }
        let ghost big_l = out@.len() as int;
        proof {
            lemma2_to64();
            assert((t as int + 1) * (n as int) == (t as int) * (n as int) + n) by (nonlinear_arith);
            assert(elem_at(input@, t as int) == s as nat);
            assert(elem_at(input@, t as int) < pow2_spec(n as nat));
        }
        if rbits + n < 8 {
            proof {
                let pn = pow2_spec(n as nat);
                let prb = pow2_spec(rbits as nat);
                lemma_pow2_adds(rbits as nat, n as nat);
                lemma_window_concat(input@, n as nat, 8 * big_l, rbits as nat, n as nat);
                lemma_window_elem(input@, n as nat, t as int, 0, n as nat);
                assert(pow2_spec(0) == 1);
                assert(s as int / 1 == s as int);
                lemma_small_mod(s as nat, pn);
                assert(acc * pn + s < prb * pn) by (nonlinear_arith)
                    requires
                        acc < prb,
                        s < pn,
                        pn > 0,
                ;
                assert(prb * pn <= 128) by {
                    assert(pow2_spec((rbits + n) as nat) <= pow2_spec(7)) by {
                        if rbits + n < 7 {
                            vstd::arithmetic::power2::lemma_pow2_strictly_increases(
                                (rbits + n) as nat,
                                7,
                            );
                        }
                    }
                }
            }
            acc = acc * pow2(n) + s;
            rbits = rbits + n;
        } else {
            let k2 = rbits + n - 8;
            let hi = s / pow2(k2);
            let lo = s % pow2(k2);
            proof {
                let pk2 = pow2_spec(k2 as nat);
                let phead = pow2_spec((8 - rbits) as nat);
                let prb = pow2_spec(rbits as nat);
                lemma_pow2_adds(k2 as nat, (8 - rbits) as nat);
                lemma_pow2_adds(rbits as nat, (8 - rbits) as nat);
                assert(hi < phead) by {
                    lemma_multiply_divide_lt(s as int, pk2 as int, phead as int);
                }
                // The completed byte: carry bits, then the symbol's head.
                lemma_window_concat(input@, n as nat, 8 * big_l, rbits as nat, (8 - rbits) as nat);
                lemma_window_elem(input@, n as nat, t as int, 0, (8 - rbits) as nat);
                lemma_small_mod(hi as nat, phead);
                assert(acc * phead + hi < prb * phead) by (nonlinear_arith)
                    requires
                        acc < prb,
                        hi < phead,
                        phead > 0,
                ;
                // The new carry: the symbol's tail, the bits of the next byte.
                lemma_window_elem(input@, n as nat, t as int, (8 - rbits) as int, k2 as nat);
                assert(pow2_spec(0) == 1);
                assert(s as int / 1 == s as int);
                assert(8 * (big_l + 1) == (t as int) * (n as int) + (8 - rbits));
            }
            out.push(acc * pow2(8 - rbits) + hi);
            acc = lo;
            rbits = k2;
        }
        t = t + 1;
    }
    let ghost big_l = out@.len() as int;
    let ghost mn = (m as int) * (n as int);
    proof {
        // The loop wrote exactly the fully covered bytes.
        lemma_fundamental_div_mod_converse(mn, 8, big_l, rbits as int);
        assert(big_l == dec_len(input@.len(), n as nat));
        lemma_window_zero(input@, n as nat, 8 * big_l, rbits as nat);
    }
    if acc != 0 {
        proof {
            let q = choose|q: int|
                8 * big_l <= q < 8 * big_l + rbits && stream_bit(input@, n as nat, q) != 0;
            assert(8 * dec_len(input@.len(), n as nat) <= q < mn);
        }
        return Err(DecodeError::NonCanonical);
    }
    proof {
        assert(out@ =~= decode_spec(input@, n as nat));
    }
    Ok(out)
}

/// A bit past the end of the byte stream is zero.
proof fn lemma_bits_past_end(bytes: Seq<u8>, p: int)
    requires
        8 * bytes.len() <= p,
    ensures
        stream_bit(bytes, 8, p) == 0,
{
    assert(p / 8 >= bytes.len()) by {
        vstd::arithmetic::div_mod::lemma_div_is_ordered(8 * bytes.len() as int, p, 8);
        vstd::arithmetic::div_mod::lemma_div_multiples_vanish(bytes.len() as int, 8);
    }
    assert(elem_at(bytes, p / 8) == 0);
    lemma_pow2_pos((8 - 1 - p % 8) as nat);
}

/// Every bit of the encoding is the input's own bit at the same position —
/// the two streams carry the same bits.
proof fn lemma_encode_bits(bytes: Seq<u8>, n: nat, p: int)
    requires
        1 <= n <= 7,
        0 <= p < enc_len(bytes.len(), n) * n,
    ensures
        stream_bit(encode_spec(bytes, n), n, p) == stream_bit(bytes, 8, p),
{
    let e = encode_spec(bytes, n);
    let ni = n as int;
    let t = p / ni;
    let j = p % ni;
    let m = enc_len(bytes.len(), n) as int;
    assert(t < m) by {
        assert(m * ni == ni * m) by (nonlinear_arith);
        lemma_multiply_divide_lt(p, ni, m);
    }
    lemma_window_bound(bytes, 8, t * ni, n);
    assert(pow2_spec(n) <= 256) by {
        lemma2_to64();
        if n < 8 {
            vstd::arithmetic::power2::lemma_pow2_strictly_increases(n, 8);
        }
    }
    assert(elem_at(e, t) == window(bytes, 8, t * ni, n));
    lemma_bit_of_window(bytes, 8, t * ni, n, j);
    lemma_fundamental_div_mod(p, ni);
    assert(t * ni + j == p) by (nonlinear_arith)
        requires
            p == ni * t + j,
    ;
}

/// The round trip: decoding an encoding gives back the bytes. The encoding
/// is made of valid symbols, is canonical, and decodes to exactly the input,
/// for every byte sequence and every width.
pub proof fn lemma_round_trip(bytes: Seq<u8>, n: nat)
    requires
        1 <= n <= 7,
    ensures
        symbols_valid(encode_spec(bytes, n), n),
        canonical(encode_spec(bytes, n), n),
        decode_spec(encode_spec(bytes, n), n) == bytes,
{
    let e = encode_spec(bytes, n);
    let l = bytes.len() as int;
    let m = enc_len(bytes.len(), n) as int;
    let ni = n as int;
    lemma_enc_len_bounds(bytes.len(), n);
    lemma2_to64();
    assert forall|i: int| 0 <= i < e.len() implies (e[i] as nat) < pow2_spec(n) by {
        lemma_window_bound(bytes, 8, i * ni, n);
        assert(pow2_spec(n) <= 256) by {
            if n < 8 {
                vstd::arithmetic::power2::lemma_pow2_strictly_increases(n, 8);
            }
        }
    }
    // The symbol count covers exactly the input's bytes.
    assert(dec_len(m as nat, n) == l) by {
        assert(m * ni == (m as nat) * n) by (nonlinear_arith)
            requires
                m >= 0,
                ni == n,
        ;
        lemma_fundamental_div_mod_converse(m * ni, 8, l, m * ni - 8 * l);
    }
    assert(canonical(e, n)) by {
        assert forall|p: int| 8 * dec_len(e.len(), n) <= p < e.len() * ni implies stream_bit(
            e,
            n,
            p,
        ) == 0 by {
            lemma_encode_bits(bytes, n, p);
            lemma_bits_past_end(bytes, p);
        }
    }
    let d = decode_spec(e, n);
    assert forall|j: int| 0 <= j < l implies d[j] == bytes[j] by {
        assert forall|q: int| 8 * j <= q < 8 * j + 8 implies stream_bit(e, n, q) == stream_bit(
            bytes,
            8,
            q,
        ) by {
            lemma_encode_bits(bytes, n, q);
        }
        lemma_window_congruence(e, n, bytes, 8, 8 * j, 8);
        lemma_window_elem(bytes, 8, j, 0, 8);
        assert(pow2_spec(0) == 1);
        assert(bytes[j] as int / 1 == bytes[j] as int);
        lemma_small_mod(bytes[j] as nat, pow2_spec(8));
    }
    assert(d =~= bytes);
}

/// The reverse round trip: a canonical symbol sequence whose overhang is
/// shorter than one symbol is exactly the encoding of what it decodes to.
/// (A canonical sequence with a full symbol's worth of zero padding bits
/// decodes to the same bytes, but their encoding is the shorter sequence.)
pub proof fn lemma_encode_decode(syms: Seq<u8>, n: nat)
    requires
        1 <= n <= 7,
        symbols_valid(syms, n),
        canonical(syms, n),
        syms.len() * n - 8 * dec_len(syms.len(), n) < n,
    ensures
        encode_spec(decode_spec(syms, n), n) == syms,
{
    let d = decode_spec(syms, n);
    let m = syms.len() as int;
    let ni = n as int;
    let l = dec_len(syms.len(), n) as int;
    let mn = m * ni;
    lemma2_to64();
    assert((m as nat) * n == m * ni) by (nonlinear_arith)
        requires
            m >= 0,
            ni == n,
    ;
    assert(8 * l <= mn) by {
        lemma_fundamental_div_mod(mn, 8);
    }
    // The decoded bytes' length encodes back to exactly m symbols.
    assert(enc_len(l as nat, n) == m) by {
        lemma_fundamental_div_mod_converse(8 * l + ni - 1, ni, m, 8 * l + ni - 1 - m * ni);
    }
    // Bit for bit, the decoded bytes carry the symbols' bits.
    assert forall|p: int| 0 <= p < mn implies stream_bit(d, 8, p) == stream_bit(syms, n, p) by {
        if p < 8 * l {
            let j = p / 8;
            let a = p % 8;
            assert(j < l) by {
                lemma_multiply_divide_lt(p, 8, l);
            }
            lemma_window_bound(syms, n, 8 * j, 8);
            assert(elem_at(d, j) == window(syms, n, 8 * j, 8));
            lemma_bit_of_window(syms, n, 8 * j, 8, a);
            lemma_fundamental_div_mod(p, 8);
        } else {
            // Overhang: the symbols' bits are zero by canonicality, and the
            // bytes' bits are zero past their end.
            lemma_bits_past_end(d, p);
        }
    }
    let e = encode_spec(d, n);
    assert forall|i: int| 0 <= i < m implies e[i] == syms[i] by {
        assert forall|q: int| i * ni <= q < i * ni + ni implies stream_bit(d, 8, q) == stream_bit(
            syms,
            n,
            q,
        ) by {
            assert(i * ni + ni <= mn) by (nonlinear_arith)
                requires
                    0 <= i < m,
                    ni >= 1,
                    mn == m * ni,
            ;
            assert(q >= 0) by (nonlinear_arith)
                requires
                    q >= i * ni,
                    0 <= i,
                    ni >= 1,
            ;
        }
        lemma_window_congruence(d, 8, syms, n, i * ni, n);
        lemma_window_elem(syms, n, i, 0, n);
        assert(pow2_spec(0) == 1);
        assert(syms[i] as int / 1 == syms[i] as int);
        lemma_small_mod(syms[i] as nat, pow2_spec(n));
    }
    assert(e =~= syms);
}

/// The empty sequence encodes and decodes to the empty sequence, at every
/// width.
pub proof fn lemma_empty_round_trip(n: nat)
    requires
        1 <= n <= 7,
    ensures
        encode_spec(Seq::<u8>::empty(), n) == Seq::<u8>::empty(),
        decode_spec(Seq::<u8>::empty(), n) == Seq::<u8>::empty(),
{
    assert(enc_len(0, n) == 0) by {
        vstd::arithmetic::div_mod::lemma_basic_div(n as int - 1, n as int);
    }
    assert(dec_len(0, n) == 0);
    assert(encode_spec(Seq::<u8>::empty(), n) =~= Seq::<u8>::empty());
    assert(decode_spec(Seq::<u8>::empty(), n) =~= Seq::<u8>::empty());
}

/// Forcing the last padding bit of a canonical symbol sequence to one gives
/// a sequence of still-valid symbols that is no longer canonical — so
/// decoding it fails, by `ntet_group_to_octets`'s contract.
pub proof fn lemma_trailing_padding_bit(syms: Seq<u8>, n: nat)
    requires
        1 <= n <= 7,
        syms.len() >= 1,
        syms.len() * n % 8 != 0,
        symbols_valid(syms, n),
        canonical(syms, n),
    ensures
        symbols_valid(syms.update(syms.len() - 1, (syms.last() + 1) as u8), n),
        !canonical(syms.update(syms.len() - 1, (syms.last() + 1) as u8), n),
{
    let m = syms.len() as int;
    let ni = n as int;
    let mn = m * ni;
    let l = dec_len(syms.len(), n) as int;
    let last = syms.last() as nat;
    lemma2_to64();
    assert(mn == (m as nat) * n) by (nonlinear_arith)
        requires
            m >= 0,
            ni == n,
            mn == m * ni,
    ;
    // The very last bit of the stream is a padding bit.
    assert(8 * l == mn - mn % 8) by {
        lemma_fundamental_div_mod(mn, 8);
    }
    assert(8 * l <= mn - 1 < mn);
    assert((mn - 1) / ni == m - 1 && (mn - 1) % ni == ni - 1) by {
        assert(mn - 1 == (m - 1) * ni + (ni - 1)) by (nonlinear_arith)
            requires
                mn == m * ni,
        ;
        lemma_fundamental_div_mod_converse(mn - 1, ni, m - 1, ni - 1);
    }
    // Canonicality makes it zero, so the last symbol is even.
    assert(stream_bit(syms, n, mn - 1) == 0);
    assert(last % 2 == 0) by {
        assert(pow2_spec(0) == 1);
        assert(last as int / 1 == last as int);
    }
    // An even value below a positive power of two leaves room for one more.
    assert(last + 1 < pow2_spec(n)) by {
        vstd::arithmetic::power2::lemma_pow2_unfold(n);
        assert(last < pow2_spec(n));
        assert(last != pow2_spec(n) - 1) by {
            assert(pow2_spec(n) % 2 == 0) by (nonlinear_arith)
                requires
                    pow2_spec(n) == 2 * pow2_spec((n - 1) as nat),
            ;
        }
    }
    let tampered = syms.update(syms.len() - 1, (syms.last() + 1) as u8);
    assert forall|i: int| 0 <= i < tampered.len() implies (tampered[i] as nat) < pow2_spec(n) by {
        if i < m - 1 {
            assert(tampered[i] == syms[i]);
        }
    }
    // The tampered last symbol is odd: its lowest bit, the stream's last
    // bit, is now one.
    assert(stream_bit(tampered, n, mn - 1) == 1) by {
        assert(elem_at(tampered, m - 1) == last + 1);
        assert(pow2_spec(0) == 1);
        assert((last + 1) as int / 1 == (last + 1) as int);
    }
    assert(!canonical(tampered, n)) by {
        assert(8 * dec_len(tampered.len(), n) <= mn - 1 < tampered.len() * n);
        assert(stream_bit(tampered, n, mn - 1) != 0);
    }
}

/// The character that pads an encoded string out to a whole group.
pub const PADDING_CHAR: char = '=';

/// A named RFC 4648-style alphabet: a table mapping each symbol value to a
/// display character, at a fixed symbol width.
#[derive(Debug, Clone, Copy, PartialEq, Eq, Structural)]
pub enum Alphabet {
    Binary,
    Octal,
    Base16,
    Base16Upper,
    Base32,
    Base32Hex,
    Base32Upper,
    Base32HexUpper,
    Base64,
    Base64Url,
}

/// The alphabet's characters: the character for symbol value `k` stands at
/// index `k`.
pub open spec fn alphabet_chars(a: Alphabet) -> Seq<char> {
    match a {
        Alphabet::Binary => "01"@,
        Alphabet::Octal => "01234567"@,
        Alphabet::Base16 => "0123456789abcdef"@,
        Alphabet::Base16Upper => "0123456789ABCDEF"@,
        Alphabet::Base32 => "abcdefghijklmnopqrstuvwxyz234567"@,
        Alphabet::Base32Hex => "0123456789abcdefghijklmnopqrstuv"@,
        Alphabet::Base32Upper => "ABCDEFGHIJKLMNOPQRSTUVWXYZ234567"@,
        Alphabet::Base32HexUpper => "0123456789ABCDEFGHIJKLMNOPQRSTUV"@,
        Alphabet::Base64 => "ABCDEFGHIJKLMNOPQRSTUVWXYZabcdefghijklmnopqrstuvwxyz0123456789+/"@,
        Alphabet::Base64Url => "ABCDEFGHIJKLMNOPQRSTUVWXYZabcdefghijklmnopqrstuvwxyz0123456789-_"@,
    }
}

/// The symbol width the alphabet encodes at: its size is `2^width`.
pub open spec fn alphabet_width(a: Alphabet) -> nat {
    match a {
        Alphabet::Binary => 1,
        Alphabet::Octal => 3,
        Alphabet::Base16 => 4,
        Alphabet::Base16Upper => 4,
        Alphabet::Base32 => 5,
        Alphabet::Base32Hex => 5,
        Alphabet::Base32Upper => 5,
        Alphabet::Base32HexUpper => 5,
        Alphabet::Base64 => 6,
        Alphabet::Base64Url => 6,
    }
}

/// Each alphabet has one character for every value of its symbol width.
pub proof fn lemma_alphabet_sizes(a: Alphabet)
    ensures
        alphabet_chars(a).len() == pow2_spec(alphabet_width(a)),
        1 <= alphabet_width(a) <= 6,
{
    lemma2_to64();
    reveal_strlit("01");
    reveal_strlit("01234567");
    reveal_strlit("0123456789abcdef");
    reveal_strlit("0123456789ABCDEF");
    reveal_strlit("abcdefghijklmnopqrstuvwxyz234567");
    reveal_strlit("0123456789abcdefghijklmnopqrstuv");
    reveal_strlit("ABCDEFGHIJKLMNOPQRSTUVWXYZ234567");
    reveal_strlit("0123456789ABCDEFGHIJKLMNOPQRSTUV");
    reveal_strlit("ABCDEFGHIJKLMNOPQRSTUVWXYZabcdefghijklmnopqrstuvwxyz0123456789+/");
    reveal_strlit("ABCDEFGHIJKLMNOPQRSTUVWXYZabcdefghijklmnopqrstuvwxyz0123456789-_");
}

impl Alphabet {
    /// The alphabet's table as a string slice.
    fn as_str(&self) -> (r: &'static str)
        ensures
            r@ == alphabet_chars(*self),
    {
        match self {
            Alphabet::Binary => "01",
            Alphabet::Octal => "01234567",
            Alphabet::Base16 => "0123456789abcdef",
            Alphabet::Base16Upper => "0123456789ABCDEF",
            Alphabet::Base32 => "abcdefghijklmnopqrstuvwxyz234567",
            Alphabet::Base32Hex => "0123456789abcdefghijklmnopqrstuv",
            Alphabet::Base32Upper => "ABCDEFGHIJKLMNOPQRSTUVWXYZ234567",
            Alphabet::Base32HexUpper => "0123456789ABCDEFGHIJKLMNOPQRSTUV",
            Alphabet::Base64 => "ABCDEFGHIJKLMNOPQRSTUVWXYZabcdefghijklmnopqrstuvwxyz0123456789+/",
            Alphabet::Base64Url => "ABCDEFGHIJKLMNOPQRSTUVWXYZabcdefghijklmnopqrstuvwxyz0123456789-_",
        }
    }

    /// The table as a vector of characters, the character for symbol value
    /// `k` at index `k`.
    pub fn alphabet(&self) -> (r: Vec<char>)
        ensures
            r@ == alphabet_chars(*self),
    {
        let s = self.as_str();
        let len = s.unicode_len();
        let mut v: Vec<char> = Vec::new();
        let mut i: usize = 0;
        while i < len
            invariant
                len == s@.len(),
                i <= len,
                v@ =~= s@.subrange(0, i as int),
            decreases len - i,
        {
            v.push(s.get_char(i));
            i = i + 1;
        }
        proof {
            assert(v@ =~= s@);
        }
        v
    }

    /// How many characters the alphabet has.
    pub fn len(&self) -> (r: usize)
        ensures
            r == alphabet_chars(*self).len(),
    {
        proof {
            lemma_alphabet_sizes(*self);
            lemma2_to64();
        }
        match self {
            Alphabet::Binary => 2,
            Alphabet::Octal => 8,
            Alphabet::Base16 => 16,
            Alphabet::Base16Upper => 16,
            Alphabet::Base32 => 32,
            Alphabet::Base32Hex => 32,
            Alphabet::Base32Upper => 32,
            Alphabet::Base32HexUpper => 32,
            Alphabet::Base64 => 64,
            Alphabet::Base64Url => 64,
        }
    }

    /// The number of bits one character of this alphabet carries: the
    /// symbol width `n` of the codec it selects.
    pub fn symbol_width(&self) -> (r: u8)
        ensures
            r as nat == alphabet_width(*self),
            1 <= r <= 6,
    {
        match self {
            Alphabet::Binary => 1,
            Alphabet::Octal => 3,
            Alphabet::Base16 => 4,
            Alphabet::Base16Upper => 4,
            Alphabet::Base32 => 5,
            Alphabet::Base32Hex => 5,
            Alphabet::Base32Upper => 5,
            Alphabet::Base32HexUpper => 5,
            Alphabet::Base64 => 6,
            Alphabet::Base64Url => 6,
        }
    }
}

/// Relies on String::push: it appends the given character to the end of
/// the string.
#[verifier::external_body]
pub(crate) fn push_char(s: &mut String, c: char)
    ensures
        final(s)@ == old(s)@.push(c),
{
    s.push(c);
}

/// The characters an alphabet writes for a symbol sequence, one per symbol.
pub open spec fn symbols_to_chars(a: Alphabet, syms: Seq<u8>) -> Seq<char> {
    Seq::new(syms.len(), |i: int| alphabet_chars(a)[syms[i] as int])
}

/// Writes each symbol value as its alphabet character. Fails naming the
/// first symbol value that has no character, exactly when one is at or
/// above the alphabet's size.
pub fn to_alphabet_str(input: &Vec<u8>, alphabet: Alphabet) -> (r: Result<String, EncodeError>)
    ensures
        match r {
            Ok(s) => (forall|i: int|
                0 <= i < input@.len() ==> (#[trigger] input@[i] as int) < alphabet_chars(
                    alphabet,
                ).len()) && s@ == symbols_to_chars(alphabet, input@),
            Err(e) => match e {
                EncodeError::SymbolOutOfAlphabet { value } => exists|i: int|
                    #![trigger input@[i]]
                    0 <= i < input@.len() && input@[i] == value && alphabet_chars(alphabet).len()
                        <= input@[i] && forall|k: int|
                        0 <= k < i ==> (#[trigger] input@[k] as int) < alphabet_chars(
                            alphabet,
                        ).len(),
                _ => false,
            },
        },
{
    let chars = alphabet.alphabet();
    let table_len = chars.len();
    let mut out = String::new();
    let mut i: usize = 0;
    while i < input.len()
        invariant
            chars@ == alphabet_chars(alphabet),
            table_len == chars@.len(),
            i <= input@.len(),
            out@.len() == i,
            forall|k: int|
                0 <= k < i ==> (#[trigger] input@[k] as int) < alphabet_chars(alphabet).len(),
            forall|k: int|
                0 <= k < i ==> out@[k] == alphabet_chars(alphabet)[#[trigger] input@[k] as int],
        decreases input@.len() - i,
    {
        let v = input[i];
        if v as usize >= table_len {
            return Err(EncodeError::SymbolOutOfAlphabet { value: v });
        }
        push_char(&mut out, chars[v as usize]);
        i = i + 1;
    }
    proof {
        assert(out@ =~= symbols_to_chars(alphabet, input@));
    }
    Ok(out)
}

/// The first index of `c` in the table, or none when `c` is not in it.
fn find_in_alphabet(chars: &Vec<char>, c: char) -> (r: Option<usize>)
    ensures
        match r {
            Some(j) => chars@.index_of_first(c) == Some(j as int),
            None => chars@.index_of_first(c) is None,
        },
{
    let mut j: usize = 0;
    while j < chars.len()
        invariant
            j <= chars@.len(),
            forall|k: int| 0 <= k < j ==> chars@[k] != c,
        decreases chars@.len() - j,
    {
        if chars[j] == c {
            proof {
                chars@.index_of_first_ensures(c);
            }
            return Some(j);
        }
        j = j + 1;
    }
    proof {
        assert(!chars@.contains(c));
        chars@.index_of_first_ensures(c);
    }
    None
}

/// The symbol values of a payload: padding characters are skipped, every
/// other character becomes the index of its first occurrence in the
/// alphabet's table.
pub open spec fn chars_to_symbols(a: Alphabet, s: Seq<char>) -> Seq<u8>
    decreases s.len(),
{
    if s.len() == 0 {
        Seq::empty()
    } else {
        let rest = chars_to_symbols(a, s.drop_last());
        if s.last() == PADDING_CHAR {
            rest
        } else {
            rest.push(alphabet_chars(a).index_of_first(s.last()).unwrap() as u8)
        }
    }
}

/// Every payload character is either padding or in the alphabet.
pub open spec fn payload_ok(a: Alphabet, s: Seq<char>) -> bool {
    forall|i: int|
        0 <= i < s.len() ==> (#[trigger] s[i]) == PADDING_CHAR || alphabet_chars(a).contains(s[i])
}

/// Reads each character back as its symbol value, skipping padding
/// characters. Fails naming the first character that is neither padding nor
/// in the alphabet.
pub fn from_alphabet_str(s: &str, alphabet: Alphabet) -> (r: Result<Vec<u8>, DecodeError>)
    ensures
        match r {
            Ok(v) => payload_ok(alphabet, s@) && v@ == chars_to_symbols(alphabet, s@),
            Err(e) => match e {
                DecodeError::CharNotInAlphabet { c } => exists|i: int|
                    #![trigger s@[i]]
                    0 <= i < s@.len() && s@[i] == c && c != PADDING_CHAR && !alphabet_chars(
                        alphabet,
                    ).contains(c) && forall|k: int|
                        0 <= k < i ==> ((#[trigger] s@[k]) == PADDING_CHAR || alphabet_chars(
                            alphabet,
                        ).contains(s@[k])),
                _ => false,
            },
        },
{
    let chars = alphabet.alphabet();
    let len = s.unicode_len();
    let mut out: Vec<u8> = Vec::new();
    let mut i: usize = 0;
    while i < len
        invariant
            chars@ == alphabet_chars(alphabet),
            len == s@.len(),
            i <= len,
            forall|k: int|
                0 <= k < i ==> ((#[trigger] s@[k]) == PADDING_CHAR || alphabet_chars(
                    alphabet,
                ).contains(s@[k])),
            out@ == chars_to_symbols(alphabet, s@.subrange(0, i as int)),
        decreases len - i,
    {
        let c = s.get_char(i);
        proof {
            assert(s@.subrange(0, i + 1).drop_last() =~= s@.subrange(0, i as int));
            assert(s@.subrange(0, i + 1).last() == s@[i as int]);
        }
        if c == PADDING_CHAR {
            // Skipped: padding carries no symbol.
        } else {
            match find_in_alphabet(&chars, c) {
                Some(j) => {
                    proof {
                        chars@.index_of_first_ensures(c);
                        lemma_alphabet_sizes(alphabet);
                        lemma2_to64();
                    }
                    out.push(j as u8);
                },
                None => {
                    proof {
                        chars@.index_of_first_ensures(c);
                    }
                    return Err(DecodeError::CharNotInAlphabet { c });
                },
            }
        }
        i = i + 1;
    }
    proof {
        assert(s@.subrange(0, len as int) =~= s@);
    }
    Ok(out)
}

/// How many padding characters complete a payload of length `l` to a whole
/// group of `gs`.
pub open spec fn pad_count(l: nat, gs: nat) -> nat
    recommends
        gs >= 1,
{
    if l % gs == 0 {
        0
    } else {
        (gs - l % gs) as nat
    }
}

/// Appends the fewest padding characters that make the string's length a
/// whole number of groups of `gs`.
pub fn add_padding_chars(s: &mut String, gs: u8, pad: char)
    requires
        gs >= 1,
    ensures
        final(s)@ == old(s)@ + Seq::new(pad_count(old(s)@.len(), gs as nat), |i: int| pad),
        final(s)@.len() % (gs as nat) == 0,
{
    let len = s.as_str().unicode_len();
    let gs_us = gs as usize;
    let m = len % gs_us;
    proof {
        lemma_fundamental_div_mod(len as int, gs as int);
        if m != 0 {
            let q = len as int / (gs as int);
            assert(len + (gs - m) == (q + 1) * (gs as int) + 0) by (nonlinear_arith)
                requires
                    len == (gs as int) * q + m,
            ;
            lemma_fundamental_div_mod_converse(len + (gs - m), gs as int, q + 1, 0);
        }
    }
    if m != 0 {
        let k = gs_us - m;
        let mut j: usize = 0;
        while j < k
            invariant
                j <= k,
                s@ == old(s)@ + Seq::new(j as nat, |i: int| pad),
            decreases k - j,
        {
            push_char(s, pad);
            proof {
                assert(s@ =~= old(s)@ + Seq::new((j + 1) as nat, |i: int| pad));
            }
            j = j + 1;
        }
    }
    proof {
        assert(s@ =~= old(s)@ + Seq::new(pad_count(old(s)@.len(), gs as nat), |i: int| pad));
    }
}

} // verus!
