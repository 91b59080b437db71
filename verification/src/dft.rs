//! The transform and the defining sum of the discrete Fourier transform.
//!
//! For a sample type whose arithmetic is that of a commutative ring, and
//! rotation factors that are powers of roots of unity, the staged method of
//! this crate computes the defining sum exactly. Fixed-point and
//! floating-point samples round, and their transforms are near that sum
//! rather than equal to it; this module says what they are near to.

use crate::bits::bit_width;
use crate::bits::lemma_bit_width_below;
use crate::bits::lemma_pow2_length;
use crate::bits::lemma_pow2_monotone;
use crate::bits::lemma_rev_bits_bound;
use crate::bits::lemma_rev_bits_involution;
use crate::bits::lemma_rev_bits_low;
use crate::bits::rev_bits;
use crate::fft::after;
use crate::fft::butterfly;
use crate::fft::is_twiddle;
use crate::fft::lemma_after;
use crate::fft::lemma_usize_capacity;
use crate::fft::stages;
use crate::fft::table_fits;
use crate::fft::transform;
use crate::fft::twiddle_row;
use crate::fft::twiddle_table;
use crate::fft::Phasor;
use core::ops::Add;
use core::ops::Mul;
use core::ops::Sub;
use vstd::arithmetic::div_mod::lemma_fundamental_div_mod_converse;
use vstd::arithmetic::power2::is_pow2;
use vstd::arithmetic::power2::lemma2_to64;
use vstd::arithmetic::power2::lemma_pow2_adds;
use vstd::arithmetic::power2::lemma_pow2_pos;
use vstd::arithmetic::power2::lemma_pow2_unfold;
use vstd::arithmetic::power2::pow2;
use vstd::prelude::*;
use vstd::std_specs::ops::AddSpec;
use vstd::std_specs::ops::MulSpec;
use vstd::std_specs::ops::SubSpec;

verus! {

/// Whether the arithmetic of `T` is that of a commutative ring with the
/// neutral elements `zero` and `one`, subtraction undoing addition.
#[verifier::opaque]
pub open spec fn ring<T: Add<Output = T> + Sub<Output = T> + Mul<Output = T>>(
    zero: T,
    one: T,
) -> bool {
    &&& forall|a: T, b: T| #[trigger] a.add_spec(b) == b.add_spec(a)
    &&& forall|a: T, b: T, c: T| #[trigger] a.add_spec(b).add_spec(c) == a.add_spec(b.add_spec(c))
    &&& forall|a: T| #[trigger] a.add_spec(zero) == a
    &&& forall|a: T, b: T| #[trigger] a.sub_spec(b).add_spec(b) == a
    &&& forall|a: T, b: T| #[trigger] a.mul_spec(b) == b.mul_spec(a)
    &&& forall|a: T, b: T, c: T| #[trigger] a.mul_spec(b).mul_spec(c) == a.mul_spec(b.mul_spec(c))
    &&& forall|a: T| #[trigger] a.mul_spec(one) == a
    &&& forall|a: T, b: T, c: T| #[trigger]
        a.add_spec(b).mul_spec(c) == a.mul_spec(c).add_spec(b.mul_spec(c))
}

/// Addition may be done in either order.
pub proof fn lemma_add_commutes<T: Add<Output = T> + Sub<Output = T> + Mul<Output = T>>(
    zero: T,
    one: T,
    a: T,
    b: T,
)
    requires
        ring(zero, one),
    ensures
        a.add_spec(b) == b.add_spec(a),
{
    reveal(ring);
}

/// Sums may be regrouped.
pub proof fn lemma_add_regroups<T: Add<Output = T> + Sub<Output = T> + Mul<Output = T>>(
    zero: T,
    one: T,
    a: T,
    b: T,
    c: T,
)
    requires
        ring(zero, one),
    ensures
        a.add_spec(b).add_spec(c) == a.add_spec(b.add_spec(c)),
{
    reveal(ring);
}

/// Adding `zero` on either side changes nothing.
pub proof fn lemma_add_zero<T: Add<Output = T> + Sub<Output = T> + Mul<Output = T>>(
    zero: T,
    one: T,
    a: T,
)
    requires
        ring(zero, one),
    ensures
        a.add_spec(zero) == a,
        zero.add_spec(a) == a,
{
    reveal(ring);
}

/// Subtracting and adding the same value changes nothing.
pub proof fn lemma_sub_undone<T: Add<Output = T> + Sub<Output = T> + Mul<Output = T>>(
    zero: T,
    one: T,
    a: T,
    b: T,
)
    requires
        ring(zero, one),
    ensures
        a.sub_spec(b).add_spec(b) == a,
{
    reveal(ring);
}

/// Multiplication may be done in either order.
pub proof fn lemma_mul_commutes<T: Add<Output = T> + Sub<Output = T> + Mul<Output = T>>(
    zero: T,
    one: T,
    a: T,
    b: T,
)
    requires
        ring(zero, one),
    ensures
        a.mul_spec(b) == b.mul_spec(a),
{
    reveal(ring);
}

/// Products may be regrouped.
pub proof fn lemma_mul_regroups<T: Add<Output = T> + Sub<Output = T> + Mul<Output = T>>(
    zero: T,
    one: T,
    a: T,
    b: T,
    c: T,
)
    requires
        ring(zero, one),
    ensures
        a.mul_spec(b).mul_spec(c) == a.mul_spec(b.mul_spec(c)),
{
    reveal(ring);
}

/// Multiplying by `one` on either side changes nothing.
pub proof fn lemma_mul_one<T: Add<Output = T> + Sub<Output = T> + Mul<Output = T>>(
    zero: T,
    one: T,
    a: T,
)
    requires
        ring(zero, one),
    ensures
        a.mul_spec(one) == a,
        one.mul_spec(a) == a,
{
    reveal(ring);
}

/// A product distributes over a sum, on either side.
pub proof fn lemma_mul_distributes<T: Add<Output = T> + Sub<Output = T> + Mul<Output = T>>(
    zero: T,
    one: T,
    a: T,
    b: T,
    c: T,
)
    requires
        ring(zero, one),
    ensures
        a.add_spec(b).mul_spec(c) == a.mul_spec(c).add_spec(b.mul_spec(c)),
        c.mul_spec(a.add_spec(b)) == c.mul_spec(a).add_spec(c.mul_spec(b)),
{
    reveal(ring);
}

/// A value that is added on the right may be cancelled.
pub proof fn lemma_add_cancels<T: Add<Output = T> + Sub<Output = T> + Mul<Output = T>>(
    zero: T,
    one: T,
    a: T,
    b: T,
    c: T,
)
    requires
        ring(zero, one),
        a.add_spec(c) == b.add_spec(c),
    ensures
        a == b,
{
    // with n = zero - c, which undoes c: a = a + (c + n) = (a + c) + n, and the same for b
    let n = zero.sub_spec(c);
    lemma_sub_undone(zero, one, zero, c);
    lemma_add_commutes(zero, one, n, c);
    lemma_add_regroups(zero, one, a, c, n);
    lemma_add_regroups(zero, one, b, c, n);
    lemma_add_zero(zero, one, a);
    lemma_add_zero(zero, one, b);
}

/// A product with `zero` is `zero`.
pub proof fn lemma_mul_zero<T: Add<Output = T> + Sub<Output = T> + Mul<Output = T>>(
    zero: T,
    one: T,
    a: T,
)
    requires
        ring(zero, one),
    ensures
        zero.mul_spec(a) == zero,
        a.mul_spec(zero) == zero,
{
    // zero * a + zero * a = (zero + zero) * a = zero * a = zero + zero * a
    let z = zero.mul_spec(a);
    lemma_add_zero(zero, one, zero);
    lemma_mul_distributes(zero, one, zero, zero, a);
    lemma_add_zero(zero, one, z);
    lemma_add_cancels(zero, one, z, zero, z);
    lemma_mul_commutes(zero, one, zero, a);
}

/// Subtracting is adding the product with minus one: where `one` plus
/// `minus` is `zero`, `e - a` is `e + a * minus`.
pub proof fn lemma_sub_is_add_of_negative<T: Add<Output = T> + Sub<Output = T> + Mul<Output = T>>(
    zero: T,
    one: T,
    minus: T,
    e: T,
    a: T,
)
    requires
        ring(zero, one),
        one.add_spec(minus) == zero,
    ensures
        e.sub_spec(a) == e.add_spec(a.mul_spec(minus)),
{
    // (e + a * minus) + a = e + (a * minus + a * one) = e + a * (minus + one) = e + a * zero = e
    let am = a.mul_spec(minus);
    lemma_add_regroups(zero, one, e, am, a);
    lemma_mul_one(zero, one, a);
    lemma_mul_distributes(zero, one, minus, one, a);
    lemma_mul_commutes(zero, one, a, minus);
    lemma_mul_commutes(zero, one, a, one);
    lemma_mul_commutes(zero, one, a, minus.add_spec(one));
    lemma_add_commutes(zero, one, one, minus);
    lemma_mul_zero(zero, one, a);
    lemma_add_zero(zero, one, e);
    assert(e.add_spec(am).add_spec(a) == e);
    lemma_sub_undone(zero, one, e, a);
    lemma_add_cancels(zero, one, e.sub_spec(a), e.add_spec(am), a);
}

/// Two sums of two may be added term by term.
pub proof fn lemma_add_interchanges<T: Add<Output = T> + Sub<Output = T> + Mul<Output = T>>(
    zero: T,
    one: T,
    a: T,
    b: T,
    c: T,
    d: T,
)
    requires
        ring(zero, one),
    ensures
        a.add_spec(b).add_spec(c.add_spec(d)) == a.add_spec(c).add_spec(b.add_spec(d)),
{
    // (a + b) + (c + d) = a + (b + (c + d)) = a + ((b + c) + d) = a + ((c + b) + d)
    //                   = a + (c + (b + d)) = (a + c) + (b + d)
    lemma_add_regroups(zero, one, a, b, c.add_spec(d));
    lemma_add_regroups(zero, one, b, c, d);
    lemma_add_commutes(zero, one, b, c);
    lemma_add_regroups(zero, one, c, b, d);
    lemma_add_regroups(zero, one, a, c, b.add_spec(d));
}

/// The sum of `f(0)`, ..., `f(count - 1)`, added from the left, starting
/// from `zero`.
pub open spec fn sum<T: Add<Output = T>>(f: spec_fn(int) -> T, count: nat, zero: T) -> T
    decreases count,
{
    if count == 0 {
        zero
    } else {
        sum(f, (count - 1) as nat, zero).add_spec(f(count - 1))
    }
}

/// Sums of equal terms are equal.
pub proof fn lemma_sum_of_equal_terms<T: Add<Output = T>>(
    f: spec_fn(int) -> T,
    g: spec_fn(int) -> T,
    count: nat,
    zero: T,
)
    requires
        forall|t: int| 0 <= t < count ==> #[trigger] f(t) == g(t),
    ensures
        sum(f, count, zero) == sum(g, count, zero),
    decreases count,
{
    if count > 0 {
        lemma_sum_of_equal_terms(f, g, (count - 1) as nat, zero);
    }
}

/// The sum of term-by-term sums is the sum of the sums.
pub proof fn lemma_sum_of_sums<T: Add<Output = T> + Sub<Output = T> + Mul<Output = T>>(
    h: spec_fn(int) -> T,
    f: spec_fn(int) -> T,
    g: spec_fn(int) -> T,
    count: nat,
    zero: T,
    one: T,
)
    requires
        ring(zero, one),
        forall|t: int| 0 <= t < count ==> #[trigger] h(t) == f(t).add_spec(g(t)),
    ensures
        sum(h, count, zero) == sum(f, count, zero).add_spec(sum(g, count, zero)),
    decreases count,
{
    if count == 0 {
        lemma_add_zero(zero, one, zero);
    } else {
        let less = (count - 1) as nat;
        lemma_sum_of_sums(h, f, g, less, zero, one);
        lemma_add_interchanges(
            zero,
            one,
            sum(f, less, zero),
            sum(g, less, zero),
            f(count - 1),
            g(count - 1),
        );
    }
}

/// A common factor may be taken out of a sum.
pub proof fn lemma_sum_of_products<T: Add<Output = T> + Sub<Output = T> + Mul<Output = T>>(
    h: spec_fn(int) -> T,
    f: spec_fn(int) -> T,
    c: T,
    count: nat,
    zero: T,
    one: T,
)
    requires
        ring(zero, one),
        forall|t: int| 0 <= t < count ==> #[trigger] h(t) == f(t).mul_spec(c),
    ensures
        sum(h, count, zero) == sum(f, count, zero).mul_spec(c),
    decreases count,
{
    if count == 0 {
        lemma_mul_zero(zero, one, c);
    } else {
        let less = (count - 1) as nat;
        lemma_sum_of_products(h, f, c, less, zero, one);
        lemma_mul_distributes(zero, one, sum(f, less, zero), f(count - 1), c);
    }
}

/// A sum of an even number of terms is the sum of its pairs of neighbours.
pub proof fn lemma_sum_in_pairs<T: Add<Output = T> + Sub<Output = T> + Mul<Output = T>>(
    h: spec_fn(int) -> T,
    g: spec_fn(int) -> T,
    count: nat,
    zero: T,
    one: T,
)
    requires
        ring(zero, one),
        forall|t: int| 0 <= t < count ==> #[trigger] h(t) == g(2 * t).add_spec(g(2 * t + 1)),
    ensures
        sum(g, 2 * count, zero) == sum(h, count, zero),
    decreases count,
{
    if count > 0 {
        let less = (count - 1) as nat;
        lemma_sum_in_pairs(h, g, less, zero, one);
        let t = count - 1;
        assert(sum(g, 2 * count, zero) == sum(g, (2 * count - 1) as nat, zero).add_spec(
            g(2 * count - 1),
        ));
        assert(sum(g, (2 * count - 1) as nat, zero) == sum(g, 2 * less, zero).add_spec(g(2 * t)));
        lemma_add_regroups(zero, one, sum(g, 2 * less, zero), g(2 * t), g(2 * t + 1));
    }
}

/// Whether `roots(j, m)` behaves as the `j`-th power of a primitive root of
/// unity of order `2^m`: powers add up in the exponent, the root of order 1
/// is `one`, the square of the root of order `2^(m + 1)` is the root of order
/// `2^m`, and half a turn is minus one.
#[verifier::opaque]
pub open spec fn unity<T: Add<Output = T> + Sub<Output = T> + Mul<Output = T>>(
    roots: spec_fn(nat, nat) -> T,
    zero: T,
    one: T,
) -> bool {
    &&& forall|j: nat| #[trigger] roots(j, 0) == one
    &&& forall|m: nat| #[trigger] roots(0, m) == one
    &&& forall|j: nat, k: nat, m: nat|
        #![trigger roots(j, m), roots(k, m)]
        roots(j + k, m) == roots(j, m).mul_spec(roots(k, m))
    &&& forall|j: nat, m: nat| roots(2 * j, m + 1) == #[trigger] roots(j, m)
    &&& forall|m: nat| one.add_spec(roots(#[trigger] pow2(m), m + 1)) == zero
}

/// The five laws of [`unity`], for given exponents and order.
pub proof fn lemma_unity<T: Add<Output = T> + Sub<Output = T> + Mul<Output = T>>(
    roots: spec_fn(nat, nat) -> T,
    zero: T,
    one: T,
    j: nat,
    k: nat,
    m: nat,
)
    requires
        unity(roots, zero, one),
    ensures
        roots(j, 0) == one,
        roots(0, m) == one,
        roots(j + k, m) == roots(j, m).mul_spec(roots(k, m)),
        roots(2 * j, m + 1) == roots(j, m),
        one.add_spec(roots(pow2(m), m + 1)) == zero,
{
    reveal(unity);
}

/// Whole turns are `one`: the power `j * 2^m` of the root of order `2^m`.
pub proof fn lemma_whole_turns<T: Add<Output = T> + Sub<Output = T> + Mul<Output = T>>(
    roots: spec_fn(nat, nat) -> T,
    zero: T,
    one: T,
    j: nat,
    m: nat,
)
    requires
        unity(roots, zero, one),
    ensures
        roots(j * pow2(m), m) == one,
    decreases m,
{
    lemma2_to64();
    if m == 0 {
        lemma_unity(roots, zero, one, j * pow2(0), 0, 0);
    } else {
        let less = (m - 1) as nat;
        lemma_whole_turns(roots, zero, one, j, less);
        lemma_pow2_unfold(m);
        assert(j * pow2(m) == 2 * (j * pow2(less))) by (nonlinear_arith)
            requires
                pow2(m) == 2 * pow2(less),
        ;
        lemma_unity(roots, zero, one, j * pow2(less), 0, less);
    }
}

/// Whether the factor of butterfly `k` in stage `m` of `table` is the power
/// `k` reversed in `m` bits of the root of order `2^(m + 1)`.
pub open spec fn rotates<T>(table: Seq<Seq<T>>, roots: spec_fn(nat, nat) -> T) -> bool {
    forall|m: int, k: int|
        0 <= m < table.len() && 0 <= k < table[m].len() ==> #[trigger] table[m][k] == roots(
            rev_bits(k as nat, m as nat),
            (m + 1) as nat,
        )
}

/// Bin `k` of the discrete Fourier transform of `y`, by its defining sum:
/// the sum over `j` of `y[j]` times the power `j * k` of the root of unity
/// whose order is the length of `y`.
pub open spec fn dft<T: Add<Output = T> + Sub<Output = T> + Mul<Output = T>>(
    y: Seq<T>,
    roots: spec_fn(nat, nat) -> T,
    zero: T,
    k: nat,
) -> T {
    sum(|j: int| y[j].mul_spec(roots((j * k) as nat, bit_width(y.len()))), y.len(), zero)
}

/// Term `t` of a partial transform: sample `q + t * 2^(bits - m)` times the
/// power `t * r` of the root of order `2^m`.
pub open spec fn partial_term<T: Add<Output = T> + Sub<Output = T> + Mul<Output = T>>(
    y: Seq<T>,
    roots: spec_fn(nat, nat) -> T,
    bits: nat,
    m: nat,
    q: nat,
    r: nat,
) -> spec_fn(int) -> T {
    |t: int| y[q + t * pow2((bits - m) as nat)].mul_spec(roots((t * r) as nat, m))
}

/// The transform of order `2^m` of every `2^(bits - m)`-th sample from `q`
/// on, at the frequency `s` reversed in `m` bits. This is what `m` stages
/// leave in slot `q * 2^m + s` of the working sequence.
pub open spec fn partial<T: Add<Output = T> + Sub<Output = T> + Mul<Output = T>>(
    y: Seq<T>,
    roots: spec_fn(nat, nat) -> T,
    zero: T,
    bits: nat,
    m: nat,
    q: nat,
    s: nat,
) -> T {
    sum(partial_term(y, roots, bits, m, q, rev_bits(s, m)), pow2(m), zero)
}

/// How the terms of a partial transform of order `2^(m + 1)` come from those
/// of order `2^m`: with `r = b * 2^m + r0`, the even term `2t` at `q` is term
/// `t` at `q` and `r0`, and the odd term `2t + 1` is term `t` at
/// `q + 2^(bits - m - 1)` and `r0`, times the power `r` of the root of order
/// `2^(m + 1)`.
proof fn lemma_term_splits<T: Add<Output = T> + Sub<Output = T> + Mul<Output = T>>(
    y: Seq<T>,
    roots: spec_fn(nat, nat) -> T,
    zero: T,
    one: T,
    bits: nat,
    m: nat,
    q: nat,
    b: nat,
    r0: nat,
    t: int,
)
    requires
        ring(zero, one),
        unity(roots, zero, one),
        m < bits,
        b <= 1,
        0 <= t,
    ensures
        ({
            let r = b * pow2(m) + r0;
            let step = pow2((bits - m - 1) as nat);
            let high = partial_term(y, roots, bits, m + 1, q, r);
            let even = partial_term(y, roots, bits, m, q, r0);
            let odd = partial_term(y, roots, bits, m, q + step, r0);
            &&& high(2 * t) == even(t)
            &&& high(2 * t + 1) == odd(t).mul_spec(roots(r, m + 1))
        }),
{
    let r = b * pow2(m) + r0;
    let step = pow2((bits - m - 1) as nat);
    let wide = pow2((bits - m) as nat);
    lemma_pow2_unfold((bits - m) as nat);
    // the samples
    assert(q + (2 * t) * step == q + t * wide) by (nonlinear_arith)
        requires
            wide == 2 * step,
    ;
    assert(q + (2 * t + 1) * step == (q + step) + t * wide) by (nonlinear_arith)
        requires
            wide == 2 * step,
    ;
    // the power t * r of the root of order 2^m is the power t * r0: the rest is whole turns
    let tr = (t * r) as nat;
    let tr0 = (t * r0) as nat;
    let turns = (t * b) as nat;
    assert(0 <= t * r && 0 <= t * r0 && 0 <= t * b) by (nonlinear_arith)
        requires
            0 <= t,
            0 <= r,
            0 <= r0,
            0 <= b,
    ;
    assert(tr == turns * pow2(m) + tr0) by (nonlinear_arith)
        requires
            r == b * pow2(m) + r0,
            tr == t * r,
            tr0 == t * r0,
            turns == t * b,
    ;
    lemma_whole_turns(roots, zero, one, turns, m);
    lemma_unity(roots, zero, one, turns * pow2(m), tr0, m);
    lemma_mul_one(zero, one, roots(tr0, m));
    assert(roots(tr, m) == roots(tr0, m));
    // doubling the exponent climbs to the root of twice the order
    lemma_unity(roots, zero, one, tr, 0, m);
    assert(roots(2 * tr, m + 1) == roots(tr0, m));
    assert(((2 * t) * r) as nat == 2 * tr) by (nonlinear_arith)
        requires
            tr == t * r,
            0 <= t,
    ;
    // one more step of r multiplies by the power r
    lemma_unity(roots, zero, one, 2 * tr, r, m + 1);
    assert(((2 * t + 1) * r) as nat == 2 * tr + r) by (nonlinear_arith)
        requires
            tr == t * r,
            0 <= t,
            0 <= r,
    ;
    lemma_mul_regroups(zero, one, y[(q + step) + t * wide], roots(tr0, m), roots(r, m + 1));
}

/// What the stages compute: after `m` stages, slot `q * 2^m + s` of the
/// working sequence holds the partial transform of order `2^m` at `q` and
/// `s`.
proof fn lemma_stages_compute_partials<T: Add<Output = T> + Sub<Output = T> + Mul<Output = T>>(
    y: Seq<T>,
    table: Seq<Seq<T>>,
    roots: spec_fn(nat, nat) -> T,
    zero: T,
    one: T,
    m: nat,
    q: nat,
    s: nat,
)
    requires
        is_pow2(y.len() as int),
        table_fits(y.len(), table),
        ring(zero, one),
        unity(roots, zero, one),
        rotates(table, roots),
        m <= table.len(),
        q < pow2((table.len() - m) as nat),
        s < pow2(m),
    ensures
        q * pow2(m) + s < y.len(),
        after(y, table, m)[(q * pow2(m) + s) as int] == partial(y, roots, zero, table.len(), m, q, s),
    decreases m,
{
    let n = y.len();
    let bits = table.len();
    lemma2_to64();
    lemma_pow2_length(n);
    lemma_after(y, table, m);
    lemma_pow2_adds((bits - m) as nat, m);
    assert(q * pow2(m) + s < n) by (nonlinear_arith)
        requires
            q < pow2((bits - m) as nat),
            s < pow2(m),
            n == pow2((bits - m) as nat) * pow2(m),
    ;
    if m == 0 {
        let term = partial_term(y, roots, bits, 0, q, rev_bits(s, 0));
        lemma_unity(roots, zero, one, 0, 0, 0);
        lemma_mul_one(zero, one, y[q as int]);
        lemma_add_zero(zero, one, y[q as int]);
        assert(term(0) == y[q as int]);
        assert(sum(term, 1, zero) == sum(term, 0, zero).add_spec(term(0)));
        assert(q * pow2(0) + s == q) by (nonlinear_arith)
            requires
                pow2(0) == 1,
                s == 0,
        ;
    } else {
        let prev = (m - 1) as nat;
        let d = pow2(prev);
        let step = pow2((bits - m) as nat);
        let p = q * pow2(m) + s;
        let k = p / 2;
        let b = s % 2;
        let s0 = s / 2;
        let r0 = rev_bits(s0, prev);
        let r = rev_bits(s, m);
        let x = after(y, table, prev);
        let w = table[prev as int];
        lemma_pow2_unfold(m);
        lemma_pow2_pos(prev);
        lemma_pow2_unfold(bits);
        lemma_pow2_unfold((bits - prev) as nat);
        lemma_pow2_adds((bits - m) as nat, prev);
        lemma_after(y, table, prev);
        // where slot p comes from
        assert(p == 2 * (q * d + s0) + b) by (nonlinear_arith)
            requires
                p == q * pow2(m) + s,
                pow2(m) == 2 * d,
                s == 2 * s0 + b,
        ;
        let q2 = q + step;
        assert(w.len() + k == q2 * d + s0) by (nonlinear_arith)
            requires
                w.len() == step * d,
                k == q * d + s0,
                q2 == q + step,
        ;
        lemma_stages_compute_partials(y, table, roots, zero, one, prev, q, s0);
        lemma_stages_compute_partials(y, table, roots, zero, one, prev, q2, s0);
        let e = x[k as int];
        let upper = x[(w.len() + k) as int];
        assert(e == partial(y, roots, zero, bits, prev, q, s0));
        assert(upper == partial(y, roots, zero, bits, prev, q2, s0));
        // the factor of butterfly k
        let wk = w[k as int];
        assert(k < w.len()) by (nonlinear_arith)
            requires
                k == q * d + s0,
                q < step,
                s0 < d,
                w.len() == step * d,
        ;
        assert(wk == roots(rev_bits(k, prev), m));
        lemma_rev_bits_low(k, prev);
        assert(q * d == d * q) by (nonlinear_arith);
        lemma_fundamental_div_mod_converse(k as int, d as int, q as int, s0 as int);
        assert(rev_bits(k, prev) == r0);
        // the power r of the root of order 2^m
        assert(r == b * d + r0) by {
            if b == 0 {
                assert(b * d == 0) by (nonlinear_arith)
                    requires
                        b == 0,
                ;
            } else {
                assert(b * d == d) by (nonlinear_arith)
                    requires
                        b == 1,
                ;
            }
        }
        let c = roots(r, m);
        // the sum of order 2^m, in pairs
        let high = partial_term(y, roots, bits, m, q, r);
        let even = partial_term(y, roots, bits, prev, q, r0);
        let odd = partial_term(y, roots, bits, prev, q2, r0);
        let turned = |t: int| odd(t).mul_spec(c);
        let pairs = |t: int| high(2 * t).add_spec(high(2 * t + 1));
        assert forall|t: int| 0 <= t < d implies #[trigger] pairs(t) == even(t).add_spec(
            turned(t),
        ) by {
            lemma_term_splits(y, roots, zero, one, bits, prev, q, b, r0, t);
        }
        lemma_sum_in_pairs(pairs, high, d, zero, one);
        lemma_sum_of_sums(pairs, even, turned, d, zero, one);
        lemma_sum_of_products(turned, odd, c, d, zero, one);
        assert(partial(y, roots, zero, bits, m, q, s) == e.add_spec(upper.mul_spec(c)));
        // the butterfly
        assert(after(y, table, m)[p as int] == (if b == 0 {
            e.add_spec(upper.mul_spec(wk))
        } else {
            e.sub_spec(upper.mul_spec(wk))
        }));
        if b == 1 {
            // half a turn more: the factor is minus one times the factor of the butterfly
            let minus = roots(d, m);
            lemma_unity(roots, zero, one, d, r0, prev);
            lemma_unity(roots, zero, one, d, r0, m);
            assert(c == minus.mul_spec(wk));
            lemma_sub_is_add_of_negative(zero, one, minus, e, upper.mul_spec(wk));
            lemma_mul_regroups(zero, one, upper, wk, minus);
            lemma_mul_commutes(zero, one, wk, minus);
        }
    }
}

/// The transform is the discrete Fourier transform. For samples whose
/// arithmetic is that of a commutative ring, and a table made of the powers
/// of roots of unity that the method prescribes, bin `k` of the transform is
/// the defining sum of the discrete Fourier transform at `k`: the bins come
/// in natural order.
pub proof fn lemma_transform_is_dft<T: Add<Output = T> + Sub<Output = T> + Mul<Output = T>>(
    y: Seq<T>,
    table: Seq<Seq<T>>,
    roots: spec_fn(nat, nat) -> T,
    zero: T,
    one: T,
    k: nat,
)
    requires
        is_pow2(y.len() as int),
        table_fits(y.len(), table),
        ring(zero, one),
        unity(roots, zero, one),
        rotates(table, roots),
        k < y.len(),
    ensures
        transform(y, table)[k as int] == dft(y, roots, zero, k),
{
    let n = y.len();
    let bits = table.len();
    let p = rev_bits(k, bits);
    lemma2_to64();
    lemma_pow2_length(n);
    lemma_rev_bits_bound(k, bits);
    lemma_rev_bits_involution(k, bits);
    lemma_after(y, table, bits);
    lemma_stages_compute_partials(y, table, roots, zero, one, bits, 0, p);
    let term = partial_term(y, roots, bits, bits, 0, k);
    let defining = |j: int| y[j].mul_spec(roots((j * k) as nat, bit_width(y.len())));
    assert forall|j: int| 0 <= j < n implies #[trigger] term(j) == defining(j) by {
        assert(0 + j * pow2(0) == j);
    }
    lemma_sum_of_equal_terms(term, defining, n, zero);
    assert(transform(y, table)[k as int] == stages(y, table)[p as int]);
}

/// Tables made by an exact `phasor` rotate. Where every value of
/// `phasor(arg, m)` is the power `arg` of the root of order `2^(m + 1)`, a
/// table of its values for a transform of machine length has the shape and
/// the entries that [`lemma_transform_is_dft`] asks for, so that the result
/// of `fft` is the defining sum.
pub proof fn lemma_exact_phasor_rotates<T: Phasor>(
    n: nat,
    table: Seq<Seq<T>>,
    roots: spec_fn(nat, nat) -> T,
)
    requires
        is_pow2(n as int),
        n <= usize::MAX,
        twiddle_table::<T>(n, table),
        forall|arg: usize, m: usize, w: T| #[trigger]
            is_twiddle::<T>(arg, m, w) ==> w == roots(arg as nat, (m + 1) as nat),
    ensures
        table_fits(n, table),
        rotates(table, roots),
{
    lemma_pow2_length(n);
    assert forall|m: int| 0 <= m < table.len() implies (#[trigger] table[m]).len() == n / 2 by {
        assert(twiddle_row::<T>(n / 2, m as nat, table[m]));
    }
    assert forall|m: int, k: int|
        0 <= m < table.len() && 0 <= k < table[m].len() implies #[trigger] table[m][k] == roots(
        rev_bits(k as nat, m as nat),
        (m + 1) as nat,
    ) by {
        // the factor is a value of `phasor`, for arguments that fit the machine word
        let r = rev_bits(k as nat, m as nat);
        assert(twiddle_row::<T>(n / 2, m as nat, table[m]));
        assert(is_twiddle::<T>(r as usize, m as usize, table[m][k]));
        lemma_rev_bits_bound(k as nat, m as nat);
        lemma_pow2_monotone(m as nat, table.len());
        lemma_usize_capacity();
        lemma_bit_width_below(n, usize::BITS as nat);
    }
}

/// What `fft` returns is the discrete Fourier transform, where nothing is
/// rounded. Let `r` be a result that `fft` may give for `y`. If the
/// arithmetic of the samples is that of a commutative ring and every value
/// of `phasor(arg, m)` is the power `arg` of the root of unity of order
/// `2^(m + 1)`, then bin `k` of `r` is the defining sum at `k`.
pub proof fn lemma_fft_is_dft<T: Add<Output = T> + Sub<Output = T> + Mul<Output = T> + Phasor>(
    y: Seq<T>,
    r: Seq<T>,
    roots: spec_fn(nat, nat) -> T,
    zero: T,
    one: T,
    k: nat,
)
    requires
        is_pow2(y.len() as int),
        y.len() <= usize::MAX,
        exists|table: Seq<Seq<T>>| #[trigger]
            twiddle_table::<T>(y.len(), table) && r == transform(y, table),
        ring(zero, one),
        unity(roots, zero, one),
        forall|arg: usize, m: usize, w: T| #[trigger]
            is_twiddle::<T>(arg, m, w) ==> w == roots(arg as nat, (m + 1) as nat),
        k < y.len(),
    ensures
        r[k as int] == dft(y, roots, zero, k),
{
    let table = choose|table: Seq<Seq<T>>| #[trigger]
        twiddle_table::<T>(y.len(), table) && r == transform(y, table);
    lemma_exact_phasor_rotates(y.len(), table, roots);
    lemma_transform_is_dft(y, table, roots, zero, one, k);
}

} // verus!
