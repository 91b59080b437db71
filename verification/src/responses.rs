//! The transforms of two standard inputs, the unit impulse at index 1 and the
//! constant sequence, for sample types whose arithmetic is exact on the few
//! values that these inputs bring into play.

use crate::bits::bit;
use crate::bits::bit_width;
use crate::bits::lemma_low_bits_halved;
use crate::bits::lemma_pow2_length;
use crate::bits::lemma_pow2_monotone;
use crate::bits::lemma_rev_bits_bound;
use crate::bits::lemma_rev_bits_involution;
use crate::bits::lemma_rev_bits_low;
use crate::bits::lemma_rev_bits_step;
use crate::bits::rev_bits;
use crate::fft::after;
use crate::fft::butterfly;
use crate::fft::is_twiddle;
use crate::fft::lemma_after;
use crate::fft::stages;
use crate::fft::table_fits;
use crate::fft::transform;
use crate::fft::twiddle_row;
use crate::fft::twiddle_table;
use crate::fft::Phasor;
use core::ops::Add;
use core::ops::Mul;
use core::ops::Sub;
use vstd::arithmetic::div_mod::lemma_fundamental_div_mod;
use vstd::arithmetic::div_mod::lemma_fundamental_div_mod_converse;
use vstd::arithmetic::power2::is_pow2;
use vstd::arithmetic::power2::lemma2_to64;
use vstd::arithmetic::power2::lemma_pow2_adds;
use vstd::arithmetic::power2::lemma_pow2_pos;
use vstd::arithmetic::power2::lemma_pow2_unfold;
use vstd::arithmetic::power2::pow2;
use vstd::prelude::*;
use vstd::std_specs::ops::AddSpec;
use vstd::std_specs::ops::MulSpec;
use vstd::std_specs::ops::SubSpec;

verus! {

/// Whether `zero` and `one` are neutral in the arithmetic of `T`: adding or
/// subtracting `zero` changes nothing, a product with `zero` on the left is
/// `zero`, and a product with `one` on the left is the other factor.
pub open spec fn neutral<T: Add<Output = T> + Sub<Output = T> + Mul<Output = T>>(
    zero: T,
    one: T,
) -> bool {
    &&& forall|a: T| #[trigger] a.add_spec(zero) == a
    &&& forall|a: T| #[trigger] zero.add_spec(a) == a
    &&& forall|a: T| #[trigger] a.sub_spec(zero) == a
    &&& forall|a: T| #[trigger] zero.mul_spec(a) == zero
    &&& forall|a: T| #[trigger] one.mul_spec(a) == a
}

/// Whether `y` is the unit impulse at index 1: `one` there, `zero` elsewhere.
pub open spec fn is_impulse<T>(y: Seq<T>, zero: T, one: T) -> bool {
    &&& y.len() >= 2
    &&& forall|p: int| 0 <= p < y.len() ==> #[trigger] y[p] == (if p == 1 {
        one
    } else {
        zero
    })
}

/// Before the last stage, the impulse has only moved: after `m` stages the
/// working sequence is `one` at the positions from `2^m` up to `2^(m + 1)`
/// and `zero` elsewhere.
proof fn lemma_impulse_travels<T: Add<Output = T> + Sub<Output = T> + Mul<Output = T>>(
    y: Seq<T>,
    table: Seq<Seq<T>>,
    zero: T,
    one: T,
    m: nat,
)
    requires
        is_pow2(y.len() as int),
        is_impulse(y, zero, one),
        table_fits(y.len(), table),
        neutral(zero, one),
        m < table.len(),
    ensures
        after(y, table, m).len() == y.len(),
        forall|p: int|
            0 <= p < y.len() ==> #[trigger] after(y, table, m)[p] == (if pow2(m) <= p < pow2(m + 1) {
                one
            } else {
                zero
            }),
    decreases m,
{
    let n = y.len();
    lemma2_to64();
    lemma_after(y, table, m);
    if m > 0 {
        let prev = (m - 1) as nat;
        let x = after(y, table, prev);
        let w = table[prev as int];
        lemma_impulse_travels(y, table, zero, one, prev);
        lemma_after(y, table, prev);
        lemma_pow2_length(n);
        lemma_pow2_unfold(table.len());
        lemma_pow2_monotone(m, (table.len() - 1) as nat);
        lemma_pow2_unfold(m);
        lemma_pow2_unfold(m + 1);
        assert forall|p: int| 0 <= p < n implies #[trigger] after(y, table, m)[p] == (if pow2(m) <= p
            < pow2(m + 1) {
            one
        } else {
            zero
        }) by {
            // the upper half is still all zero, so slot p takes over slot p / 2
            assert(x[w.len() + p / 2] == zero);
        }
    }
}

/// The impulse response, in terms of the table. With `n = 2^bits` samples,
/// bin `j` of the transform of the unit impulse at index 1 is a factor of the
/// last row of the table, taken as it is in the lower half of the bins and
/// subtracted from `zero` in the upper half. The factor stands in the row at
/// `j` reversed in `bits - 1` bits.
pub proof fn lemma_impulse_response<T: Add<Output = T> + Sub<Output = T> + Mul<Output = T>>(
    y: Seq<T>,
    table: Seq<Seq<T>>,
    zero: T,
    one: T,
    j: nat,
)
    requires
        is_pow2(y.len() as int),
        is_impulse(y, zero, one),
        table_fits(y.len(), table),
        neutral(zero, one),
        j < y.len(),
    ensures
        table.len() >= 1,
        rev_bits(j, (table.len() - 1) as nat) < y.len() / 2,
        ({
            let w = table[table.len() - 1][rev_bits(j, (table.len() - 1) as nat) as int];
            transform(y, table)[j as int] == (if j < y.len() / 2 {
                w
            } else {
                zero.sub_spec(w)
            })
        }),
{
    let n = y.len();
    let bits = table.len();
    lemma2_to64();
    lemma_pow2_length(n);
    let last = (bits - 1) as nat;
    let half = pow2(last);
    lemma_pow2_unfold(bits);
    lemma_pow2_pos(last);
    // before the last stage the lower half is all zero and the upper half all one
    lemma_impulse_travels(y, table, zero, one, last);
    lemma_after(y, table, last);
    // the gather finds bin j at 2 * k + b, with k the reversal of j in one
    // bit less and b the top bit of j
    let k = rev_bits(j, last);
    lemma_rev_bits_step(j, last);
    lemma_rev_bits_bound(j, last);
    assert(bit(j, last) == (if j < half { 0nat } else { 1nat })) by {
        if j < half {
            lemma_fundamental_div_mod_converse(j as int, half as int, 0, j as int);
        } else {
            lemma_fundamental_div_mod_converse(j as int, half as int, 1, j - half);
        }
    }
    // and the last stage leaves zero plus or minus one times factor k there
    assert(after(y, table, last)[k as int] == zero);
    assert(after(y, table, last)[(half + k) as int] == one);
}

/// A table of rotation factors has the shape that its transform needs.
pub proof fn lemma_twiddle_table_fits<T: Phasor>(n: nat, table: Seq<Seq<T>>)
    requires
        twiddle_table::<T>(n, table),
    ensures
        table_fits(n, table),
{
    assert forall|m: int| 0 <= m < table.len() implies (#[trigger] table[m]).len() == n / 2 by {
        assert(twiddle_row::<T>(n / 2, m as nat, table[m]));
    }
}

/// The impulse property. With `n = 2^bits` samples and rotation factors from
/// `phasor`, bin `j` of the transform of the unit impulse at index 1 is the
/// rotation by the angle `-2 pi j / n`: in the lower half of the bins it is a
/// value of `phasor(j, bits - 1)`, and in the upper half it is `zero` minus a
/// value of `phasor(j - n / 2, bits - 1)`, the rotation half a turn earlier.
pub proof fn lemma_impulse_gives_rotations<
    T: Add<Output = T> + Sub<Output = T> + Mul<Output = T> + Phasor,
>(y: Seq<T>, table: Seq<Seq<T>>, zero: T, one: T, j: nat)
    requires
        is_pow2(y.len() as int),
        is_impulse(y, zero, one),
        twiddle_table::<T>(y.len(), table),
        neutral(zero, one),
        j < y.len(),
    ensures
        bit_width(y.len()) >= 1,
        j < y.len() / 2 ==> is_twiddle::<T>(
            j as usize,
            (bit_width(y.len()) - 1) as usize,
            transform(y, table)[j as int],
        ),
        j >= y.len() / 2 ==> exists|w: T|
            #[trigger] is_twiddle::<T>(
                (j - y.len() / 2) as usize,
                (bit_width(y.len()) - 1) as usize,
                w,
            ) && transform(y, table)[j as int] == zero.sub_spec(w),
{
    let n = y.len();
    let bits = table.len();
    lemma_twiddle_table_fits(n, table);
    lemma_impulse_response(y, table, zero, one, j);
    let last = (bits - 1) as nat;
    let half = pow2(last);
    let k = rev_bits(j, last);
    lemma_pow2_length(n);
    lemma_pow2_unfold(bits);
    lemma_pow2_pos(last);
    // the factor at `k` is the one for `k` reversed, which is `j` without its top bit
    assert(twiddle_row::<T>(n / 2, last, table[last as int]));
    assert(is_twiddle::<T>(rev_bits(k, last) as usize, last as usize, table[last as int][k as int]));
    lemma_rev_bits_low(j, last);
    lemma_rev_bits_involution(j % half, last);
    if j < half {
        lemma_fundamental_div_mod_converse(j as int, half as int, 0, j as int);
    } else {
        lemma_fundamental_div_mod_converse(j as int, half as int, 1, j - half);
    }
}

/// `c` doubled `m` times: the sum of `2^m` copies of `c`, added in pairs.
pub open spec fn doubled<T: Add<Output = T>>(c: T, m: nat) -> T
    decreases m,
{
    if m == 0 {
        c
    } else {
        doubled(c, (m - 1) as nat).add_spec(doubled(c, (m - 1) as nat))
    }
}

/// Whether the arithmetic of `T` is exact where a constant input needs it:
/// a product with `one` on the right is the other factor, a product with
/// `zero` on the left is `zero`, any value minus itself is `zero`, and
/// `zero` plus `zero` is `zero`.
pub open spec fn cancelling<T: Add<Output = T> + Sub<Output = T> + Mul<Output = T>>(
    zero: T,
    one: T,
) -> bool {
    &&& forall|a: T| #[trigger] a.mul_spec(one) == a
    &&& forall|a: T| #[trigger] zero.mul_spec(a) == zero
    &&& forall|a: T| #[trigger] a.sub_spec(a) == zero
    &&& zero.add_spec(zero) == zero
}

/// Whether every factor of `table` that meets a butterfly at a position
/// divisible by `2^m` in stage `m` is `one`. These are the factors for the
/// angle zero.
pub open spec fn unrotated<T>(table: Seq<Seq<T>>, one: T) -> bool {
    forall|m: int, k: int|
        0 <= m < table.len() && 0 <= k < table[m].len() && k % (pow2(m as nat) as int) == 0
            ==> #[trigger] table[m][k] == one
}

/// Adding a multiple of `d` to a number does not change its remainder
/// modulo `d`.
proof fn lemma_mod_ignores_multiple(k: nat, c: nat, d: nat)
    requires
        d > 0,
    ensures
        (k + c * d) % d == k % d,
{
    let q = k / d;
    let r = k % d;
    lemma_fundamental_div_mod(k as int, d as int);
    assert(k + c * d == (q + c) * d + r) by (nonlinear_arith)
        requires
            k == d * q + r,
    ;
    lemma_fundamental_div_mod_converse((k + c * d) as int, d as int, (q + c) as int, r as int);
}

/// A constant input gathers at the multiples of `2^m`: after `m` stages the
/// working sequence holds `c` doubled `m` times at the positions divisible
/// by `2^m`, and `zero` elsewhere.
proof fn lemma_constant_gathers<T: Add<Output = T> + Sub<Output = T> + Mul<Output = T>>(
    y: Seq<T>,
    table: Seq<Seq<T>>,
    zero: T,
    one: T,
    c: T,
    m: nat,
)
    requires
        is_pow2(y.len() as int),
        forall|p: int| 0 <= p < y.len() ==> #[trigger] y[p] == c,
        table_fits(y.len(), table),
        cancelling(zero, one),
        unrotated(table, one),
        m <= table.len(),
    ensures
        after(y, table, m).len() == y.len(),
        forall|p: int|
            0 <= p < y.len() ==> #[trigger] after(y, table, m)[p] == (if p % (pow2(m) as int) == 0 {
                doubled(c, m)
            } else {
                zero
            }),
    decreases m,
{
    let n = y.len();
    lemma2_to64();
    lemma_after(y, table, m);
    if m > 0 {
        let prev = (m - 1) as nat;
        let x = after(y, table, prev);
        let w = table[prev as int];
        let d = pow2(prev);
        let rest = (table.len() - m) as nat;
        lemma_constant_gathers(y, table, zero, one, c, prev);
        lemma_after(y, table, prev);
        lemma_pow2_length(n);
        lemma_pow2_unfold(table.len());
        lemma_pow2_unfold(m);
        lemma_pow2_pos(prev);
        lemma_pow2_adds(rest, prev);
        assert forall|p: int| 0 <= p < n implies #[trigger] after(y, table, m)[p] == (if p % (pow2(
            m,
        ) as int) == 0 {
            doubled(c, m)
        } else {
            zero
        }) by {
            // the two slots that meet in butterfly k hold the same value, and
            // where that is not zero the factor is one
            let k = p / 2;
            lemma_mod_ignores_multiple(k as nat, pow2(rest), d);
            lemma_low_bits_halved(p as nat, d);
            assert(x[w.len() + k] == x[k]);
        }
    }
}

/// Reversing zero gives zero.
proof fn lemma_rev_bits_of_zero(bits: nat)
    ensures
        rev_bits(0, bits) == 0,
    decreases bits,
{
    if bits > 0 {
        lemma_rev_bits_of_zero((bits - 1) as nat);
    }
}

/// The response to a constant input, in terms of the table. Where the
/// factors for the angle zero are `one`, the transform of `n = 2^bits` samples
/// that all equal `c` has `c` doubled `bits` times, the sum of all samples, in
/// bin 0 and `zero` in every other bin.
pub proof fn lemma_constant_response<T: Add<Output = T> + Sub<Output = T> + Mul<Output = T>>(
    y: Seq<T>,
    table: Seq<Seq<T>>,
    zero: T,
    one: T,
    c: T,
    j: nat,
)
    requires
        is_pow2(y.len() as int),
        forall|p: int| 0 <= p < y.len() ==> #[trigger] y[p] == c,
        table_fits(y.len(), table),
        cancelling(zero, one),
        unrotated(table, one),
        j < y.len(),
    ensures
        transform(y, table)[j as int] == (if j == 0 {
            doubled(c, bit_width(y.len()))
        } else {
            zero
        }),
{
    let n = y.len();
    let bits = table.len();
    let p = rev_bits(j, bits);
    lemma_pow2_length(n);
    lemma_constant_gathers(y, table, zero, one, c, bits);
    lemma_after(y, table, bits);
    lemma_rev_bits_bound(j, bits);
    lemma_rev_bits_of_zero(bits);
    lemma_rev_bits_involution(j, bits);
    assert(p % n == 0 <==> p == 0) by {
        lemma_fundamental_div_mod_converse(p as int, n as int, 0, p as int);
    }
}

/// The DC property. Where `phasor` gives `one` for the angle zero, the
/// transform of `n = 2^bits` samples that all equal `c` has the sum of all
/// samples, `c` doubled `bits` times, in bin 0 and `zero` in every other bin.
pub proof fn lemma_constant_has_only_dc<
    T: Add<Output = T> + Sub<Output = T> + Mul<Output = T> + Phasor,
>(y: Seq<T>, table: Seq<Seq<T>>, zero: T, one: T, c: T, j: nat)
    requires
        is_pow2(y.len() as int),
        forall|p: int| 0 <= p < y.len() ==> #[trigger] y[p] == c,
        twiddle_table::<T>(y.len(), table),
        cancelling(zero, one),
        forall|m: usize, w: T| #[trigger] is_twiddle::<T>(0, m, w) ==> w == one,
        j < y.len(),
    ensures
        transform(y, table)[j as int] == (if j == 0 {
            doubled(c, bit_width(y.len()))
        } else {
            zero
        }),
{
    let n = y.len();
    lemma_twiddle_table_fits(n, table);
    assert forall|m: int, k: int|
        0 <= m < table.len() && 0 <= k < table[m].len() && k % (pow2(m as nat) as int)
            == 0 implies #[trigger] table[m][k] == one by {
        // the factor is the one for k reversed in m bits, and that is zero
        assert(twiddle_row::<T>(n / 2, m as nat, table[m]));
        lemma_rev_bits_low(k as nat, m as nat);
        lemma_rev_bits_of_zero(m as nat);
    }
    lemma_constant_response(y, table, zero, one, c, j);
}

} // verus!
