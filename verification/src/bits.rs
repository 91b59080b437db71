//! The index algebra of the transform: bit widths and bit reversal, as
//! mathematical functions on natural numbers, with the facts the executable
//! code relies on.

use vstd::arithmetic::div_mod::lemma_div_denominator;
use vstd::arithmetic::div_mod::lemma_fundamental_div_mod;
use vstd::arithmetic::div_mod::lemma_fundamental_div_mod_converse;
use vstd::arithmetic::power2::is_pow2;
use vstd::arithmetic::power2::lemma2_to64;
use vstd::arithmetic::power2::lemma_pow2_adds;
use vstd::arithmetic::power2::lemma_pow2_pos;
use vstd::arithmetic::power2::lemma_pow2_strictly_increases;
use vstd::arithmetic::power2::lemma_pow2_unfold;
use vstd::arithmetic::power2::pow2;
use vstd::prelude::*;

verus! {

/// The number of bits needed to index `n` elements: the least `b` with
/// `n <= 2^b`, which is the base-2 logarithm of `n` rounded up. It is 0 for
/// `n = 0` and `n = 1`.
pub open spec fn bit_width(n: nat) -> nat
    decreases n,
{
    if n <= 1 {
        0
    } else {
        1 + bit_width(((n + 1) / 2) as nat)
    }
}

/// The number whose `bits`-bit binary notation is that of the low `bits` bits
/// of `i`, read backwards: the lowest bit of `i` becomes the highest of the
/// `bits` bits, worth `2^(bits - 1)`, and the rest of `i` is reversed into the
/// bits below it. Bits of `i` above the low `bits` play no part.
pub open spec fn rev_bits(i: nat, bits: nat) -> nat
    decreases bits,
{
    if bits == 0 {
        0
    } else if i % 2 == 0 {
        rev_bits(i / 2, (bits - 1) as nat)
    } else {
        pow2((bits - 1) as nat) + rev_bits(i / 2, (bits - 1) as nat)
    }
}

/// Bit `j` of `i`, counted from the least significant.
pub open spec fn bit(i: nat, j: nat) -> nat {
    (i / pow2(j)) % 2
}

/// Whether every index below `n`, reversed in `bit_width(n)` bits, is again
/// below `n`. This holds for every power of two, and for some other lengths.
pub open spec fn reversal_fits(n: nat) -> bool {
    forall|k: nat| k < n ==> #[trigger] rev_bits(k, bit_width(n)) < n
}

/// Powers of two grow with the exponent.
pub proof fn lemma_pow2_monotone(e1: nat, e2: nat)
    requires
        e1 <= e2,
    ensures
        pow2(e1) <= pow2(e2),
{
    if e1 < e2 {
        lemma_pow2_strictly_increases(e1, e2);
    }
}

/// `bit_width(n)` is an exponent whose power of two reaches `n`, and the next
/// smaller exponent's does not.
pub proof fn lemma_bit_width_bounds(n: nat)
    ensures
        n <= pow2(bit_width(n)),
        bit_width(n) > 0 ==> pow2((bit_width(n) - 1) as nat) < n,
    decreases n,
{
    lemma2_to64();
    if n > 1 {
        let h = ((n + 1) / 2) as nat;
        lemma_bit_width_bounds(h);
        lemma_pow2_unfold(bit_width(n));
        if bit_width(h) > 0 {
            lemma_pow2_unfold(bit_width(h));
        }
    }
}

/// `bit_width(n)` is the only exponent with the two bounds of
/// [`lemma_bit_width_bounds`].
pub proof fn lemma_bit_width_unique(n: nat, b: nat)
    requires
        n <= pow2(b),
        b > 0 ==> pow2((b - 1) as nat) < n,
    ensures
        b == bit_width(n),
{
    let w = bit_width(n);
    lemma_bit_width_bounds(n);
    if b < w {
        lemma_pow2_monotone(b, (w - 1) as nat);
    } else if w < b {
        lemma_pow2_monotone(w, (b - 1) as nat);
    }
}

/// The bit width of `2^e` is `e`.
pub proof fn lemma_bit_width_of_pow2(e: nat)
    ensures
        bit_width(pow2(e)) == e,
{
    if e > 0 {
        lemma_pow2_strictly_increases((e - 1) as nat, e);
    }
    lemma_bit_width_unique(pow2(e), e);
}

/// A number below `2^e` has a bit width of at most `e`.
pub proof fn lemma_bit_width_below(n: nat, e: nat)
    requires
        n <= pow2(e),
    ensures
        bit_width(n) <= e,
{
    let w = bit_width(n);
    lemma_bit_width_bounds(n);
    if e < w {
        lemma_pow2_monotone(e, (w - 1) as nat);
    }
}

/// A power of two is two to the power of its bit width.
pub proof fn lemma_pow2_length(n: nat)
    requires
        is_pow2(n as int),
    ensures
        n == pow2(bit_width(n)),
    decreases n,
{
    reveal(is_pow2);
    lemma2_to64();
    if n > 1 {
        lemma_pow2_length(n / 2);
        lemma_pow2_unfold(bit_width(n));
    }
}

/// Two to the power of any exponent is a power of two.
pub proof fn lemma_pow2_is_pow2(e: nat)
    ensures
        is_pow2(pow2(e) as int),
    decreases e,
{
    reveal(is_pow2);
    lemma2_to64();
    if e > 0 {
        lemma_pow2_is_pow2((e - 1) as nat);
        lemma_pow2_unfold(e);
        lemma_pow2_pos((e - 1) as nat);
    }
}

/// A reversed index fits in the number of bits it was reversed in.
pub proof fn lemma_rev_bits_bound(i: nat, bits: nat)
    ensures
        rev_bits(i, bits) < pow2(bits),
    decreases bits,
{
    lemma2_to64();
    if bits > 0 {
        lemma_rev_bits_bound(i / 2, (bits - 1) as nat);
        lemma_pow2_unfold(bits);
    }
}

/// Reversing in one more bit shifts the reversed index up and brings in the
/// next bit of `i` at the bottom.
pub proof fn lemma_rev_bits_step(i: nat, bits: nat)
    ensures
        rev_bits(i, bits + 1) == 2 * rev_bits(i, bits) + bit(i, bits),
    decreases bits,
{
    lemma2_to64();
    if bits == 0 {
        assert(rev_bits(i / 2, 0) == 0);
    } else {
        let p = pow2((bits - 1) as nat);
        lemma_rev_bits_step(i / 2, (bits - 1) as nat);
        lemma_pow2_unfold(bits);
        lemma_pow2_pos((bits - 1) as nat);
        lemma_div_denominator(i as int, 2, p as int);
    }
}

/// For a power-of-two length, every reversed index is in range.
pub proof fn lemma_reversal_fits_pow2(n: nat)
    requires
        is_pow2(n as int),
    ensures
        reversal_fits(n),
{
    lemma_pow2_length(n);
    assert forall|k: nat| k < n implies #[trigger] rev_bits(k, bit_width(n)) < n by {
        lemma_rev_bits_bound(k, bit_width(n));
    }
}

/// The reversal as a weighted sum: the lowest bit of `i`, worth
/// `2^(bits - 1)`, plus the reversal of the rest of `i` in one bit less.
proof fn lemma_rev_bits_unfold(i: nat, bits: nat)
    requires
        bits > 0,
    ensures
        rev_bits(i, bits) == (i % 2) * pow2((bits - 1) as nat) + rev_bits(
            i / 2,
            (bits - 1) as nat,
        ),
        rev_bits(i / 2, (bits - 1) as nat) < pow2((bits - 1) as nat),
{
    let p = pow2((bits - 1) as nat);
    lemma_rev_bits_bound(i / 2, (bits - 1) as nat);
    if i % 2 == 0 {
        assert((i % 2) * p == 0) by (nonlinear_arith)
            requires
                i % 2 == 0,
        ;
    } else {
        assert((i % 2) * p == p) by (nonlinear_arith)
            requires
                i % 2 == 1,
        ;
    }
}

/// Reducing a number modulo `2 * p` leaves its lowest bit untouched and
/// reduces the rest of it modulo `p`.
pub proof fn lemma_low_bits_halved(i: nat, p: nat)
    requires
        p > 0,
    ensures
        (i % (2 * p)) % 2 == i % 2,
        (i % (2 * p)) / 2 == (i / 2) % p,
{
    let q = i / (2 * p);
    let j = i % (2 * p);
    lemma_fundamental_div_mod(i as int, (2 * p) as int);
    assert((2 * p) * q == 2 * (p * q)) by (nonlinear_arith);
    lemma_fundamental_div_mod_converse(i as int, 2, (p * q + j / 2) as int, (j % 2) as int);
    assert(p * q == q * p) by (nonlinear_arith);
    lemma_fundamental_div_mod_converse((i / 2) as int, p as int, q as int, (j / 2) as int);
}

/// Only the low `bits` bits of `i` take part in its reversal.
pub proof fn lemma_rev_bits_low(i: nat, bits: nat)
    ensures
        rev_bits(i, bits) == rev_bits(i % pow2(bits), bits),
    decreases bits,
{
    if bits > 0 {
        let less = (bits - 1) as nat;
        let p = pow2(less);
        lemma_pow2_pos(less);
        lemma_pow2_unfold(bits);
        lemma_low_bits_halved(i, p);
        lemma_rev_bits_low(i / 2, less);
    } else {
        lemma_pow2_pos(bits);
    }
}

/// Reversing twice in the same number of bits gives back any index that fits
/// in that many bits: the reversal is a permutation of the indices below
/// `2^bits`, and its own inverse.
pub proof fn lemma_rev_bits_involution(i: nat, bits: nat)
    requires
        i < pow2(bits),
    ensures
        rev_bits(rev_bits(i, bits), bits) == i,
    decreases bits,
{
    if bits > 0 {
        let less = (bits - 1) as nat;
        let p = pow2(less);
        let r = rev_bits(i, bits);
        let tail = rev_bits(i / 2, less);
        lemma_pow2_pos(less);
        lemma_pow2_unfold(bits);
        lemma_rev_bits_unfold(i, bits);
        // the top bit of `r` is the lowest bit of `i`, the rest is `tail`
        lemma_fundamental_div_mod_converse(r as int, p as int, (i % 2) as int, tail as int);
        lemma_rev_bits_step(r, less);
        lemma_rev_bits_low(r, less);
        lemma_rev_bits_involution(i / 2, less);
    } else {
        lemma2_to64();
    }
}

/// Two indices that fit in `bits` bits and have the same reversal are the
/// same index.
pub proof fn lemma_rev_bits_injective(i: nat, j: nat, bits: nat)
    requires
        i < pow2(bits),
        j < pow2(bits),
        rev_bits(i, bits) == rev_bits(j, bits),
    ensures
        i == j,
{
    lemma_rev_bits_involution(i, bits);
    lemma_rev_bits_involution(j, bits);
}

/// Adding a multiple of `2^(j + 1)` to a number does not change its bit `j`.
proof fn lemma_bit_ignores_higher(t: nat, c: nat, j: nat)
    ensures
        bit(t + c * pow2(j + 1), j) == bit(t, j),
{
    let d = pow2(j);
    let q = t / d;
    let rem = t % d;
    lemma_pow2_pos(j);
    lemma_pow2_unfold(j + 1);
    lemma_fundamental_div_mod(t as int, d as int);
    assert(t + c * pow2(j + 1) == (q + 2 * c) * d + rem) by (nonlinear_arith)
        requires
            t == d * q + rem,
            pow2(j + 1) == 2 * d,
    ;
    lemma_fundamental_div_mod_converse(
        (t + c * pow2(j + 1)) as int,
        d as int,
        (q + 2 * c) as int,
        rem as int,
    );
    lemma_fundamental_div_mod(q as int, 2);
    lemma_fundamental_div_mod_converse((q + 2 * c) as int, 2, (q / 2 + c) as int, (q % 2) as int);
}

/// The defining property of the reversal: bit `j` of the reversed index is
/// bit `bits - 1 - j` of the index.
pub proof fn lemma_rev_bits_mirrors(i: nat, bits: nat, j: nat)
    requires
        j < bits,
    ensures
        bit(rev_bits(i, bits), j) == bit(i, (bits - 1 - j) as nat),
    decreases bits,
{
    let less = (bits - 1) as nat;
    let p = pow2(less);
    let r = rev_bits(i, bits);
    let tail = rev_bits(i / 2, less);
    lemma2_to64();
    lemma_pow2_pos(less);
    lemma_rev_bits_unfold(i, bits);
    if j == less {
        // the top bit of the reversal is the lowest bit of the index
        lemma_fundamental_div_mod_converse(r as int, p as int, (i % 2) as int, tail as int);
        assert(bit(i, 0) == (i / 1) % 2);
    } else {
        // below the top, the reversal has the bits of the reversed rest
        let k = (less - j - 1) as nat;
        lemma_pow2_adds(j + 1, k);
        assert((i % 2) * p == ((i % 2) * pow2(k)) * pow2(j + 1)) by (nonlinear_arith)
            requires
                p == pow2(j + 1) * pow2(k),
        ;
        lemma_bit_ignores_higher(tail, (i % 2) * pow2(k), j);
        // which mirror the bits of the rest, one place down from those of `i`
        lemma_rev_bits_mirrors(i / 2, less, j);
        lemma_pow2_pos(k);
        lemma_pow2_unfold(k + 1);
        lemma_div_denominator(i as int, 2, pow2(k) as int);
    }
}

} // verus!
