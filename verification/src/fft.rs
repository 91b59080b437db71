//! Bit-reversal utilities and the iterative radix-2 transform.

use crate::bits::bit_width;
use crate::bits::lemma_bit_width_below;
use crate::bits::lemma_bit_width_bounds;
use crate::bits::lemma_pow2_length;
use crate::bits::lemma_pow2_monotone;
use crate::bits::lemma_rev_bits_bound;
use crate::bits::lemma_rev_bits_involution;
use crate::bits::lemma_rev_bits_step;
use crate::bits::lemma_reversal_fits_pow2;
use crate::bits::rev_bits;
use crate::bits::reversal_fits;
use core::ops::Add;
use core::ops::Mul;
use core::ops::Sub;
use vstd::arithmetic::div_mod::lemma_div_denominator;
use vstd::arithmetic::power2::is_pow2;
use vstd::arithmetic::power2::lemma2_to64;
use vstd::arithmetic::power2::lemma_pow2_pos;
use vstd::arithmetic::power2::lemma_pow2_unfold;
use vstd::arithmetic::power2::pow2;
use vstd::prelude::*;
use vstd::std_specs::ops::AddSpec;
use vstd::std_specs::ops::MulSpec;
use vstd::std_specs::ops::SubSpec;

verus! {

/// The machine word holds exactly the numbers below two to the power of its
/// width.
pub proof fn lemma_usize_capacity()
    ensures
        pow2(usize::BITS as nat) == usize::MAX + 1,
{
    lemma2_to64();
}

/// The number of bits needed to index `n` elements: the base-2 logarithm of
/// `n`, rounded up.
pub fn logb(n: usize) -> (b: usize)
    ensures
        b == bit_width(n as nat),
        n <= pow2(b as nat),
        b > 0 ==> pow2((b - 1) as nat) < n,
        b <= usize::BITS,
{
    proof {
        lemma_usize_capacity();
        lemma_bit_width_below(n as nat, usize::BITS as nat);
        lemma_bit_width_bounds(n as nat);
    }
    let mut b: usize = 0;
    let mut rest: usize = n;
    while rest > 1
        invariant
            b + bit_width(rest as nat) == bit_width(n as nat),
            bit_width(n as nat) <= usize::BITS,
        decreases rest,
    {
        rest = rest / 2 + rest % 2;
        b = b + 1;
    }
    b
}

/// Reverses the low `n` bits of `i`: the result is below `2^n` and its bits,
/// from the top down, are the low `n` bits of `i` from the bottom up. With
/// `n = 0` the result is 0.
pub fn brevidx(i: usize, n: usize) -> (r: usize)
    requires
        n <= usize::BITS,
    ensures
        r == rev_bits(i as nat, n as nat),
{
    let mut r: usize = 0;
    let mut rest: usize = i;
    let mut k: usize = 0;
    proof {
        lemma2_to64();
    }
    while k < n
        invariant
            k <= n <= usize::BITS,
            r == rev_bits(i as nat, k as nat),
            rest == (i as nat) / pow2(k as nat),
        decreases n - k,
    {
        proof {
            lemma_rev_bits_step(i as nat, k as nat);
            lemma_rev_bits_bound(i as nat, (k + 1) as nat);
            lemma_pow2_monotone((k + 1) as nat, usize::BITS as nat);
            lemma_usize_capacity();
            lemma_pow2_pos(k as nat);
            lemma_pow2_unfold((k + 1) as nat);
            lemma_div_denominator(i as int, pow2(k as nat) as int, 2);
        }
        r = 2 * r + rest % 2;
        rest = rest / 2;
        k = k + 1;
    }
    r
}

/// The bit-reversal permutation for `n` elements: entry `k` is `k` reversed
/// in `bit_width(n)` bits.
pub fn brevidxs(n: usize) -> (r: Vec<usize>)
    ensures
        r.len() == n,
        forall|k: int| 0 <= k < n ==> r[k] == rev_bits(k as nat, bit_width(n as nat)),
{
    let bits: usize = logb(n);
    let mut r: Vec<usize> = Vec::new();
    let mut k: usize = 0;
    while k < n
        invariant
            k <= n,
            bits == bit_width(n as nat),
            bits <= usize::BITS,
            r.len() == k,
            forall|j: int| 0 <= j < k ==> r[j] == rev_bits(j as nat, bit_width(n as nat)),
        decreases n - k,
    {
        r.push(brevidx(k, bits));
        k = k + 1;
    }
    r
}

/// Gathers the elements of `a` in bit-reversed order: element `k` of the
/// result is a clone of the element of `a` at `k` reversed in
/// `bit_width(a.len())` bits.
pub fn brev<T: Clone>(a: &[T]) -> (r: Vec<T>)
    requires
        reversal_fits(a@.len()),
    ensures
        r.len() == a@.len(),
        forall|k: int|
            0 <= k < a@.len() ==> cloned(
                a@[rev_bits(k as nat, bit_width(a@.len())) as int],
                #[trigger] r[k],
            ),
{
    let n: usize = a.len();
    let idx: Vec<usize> = brevidxs(n);
    let mut r: Vec<T> = Vec::new();
    let mut k: usize = 0;
    while k < n
        invariant
            k <= n,
            n == a@.len(),
            idx.len() == n,
            reversal_fits(a@.len()),
            forall|j: int| 0 <= j < n ==> idx[j] == rev_bits(j as nat, bit_width(n as nat)),
            r.len() == k,
            forall|j: int|
                0 <= j < k ==> cloned(
                    a@[rev_bits(j as nat, bit_width(a@.len())) as int],
                    #[trigger] r[j],
                ),
        decreases n - k,
    {
        r.push(a[idx[k]].clone());
        k = k + 1;
    }
    r
}

/// A sample type that can produce the rotation factors of the transform.
///
/// `phasor(arg, m)` is the unit-magnitude complex number
/// `exp(-2 pi i * arg / 2^(m + 1))`, as nearly as the type can hold it. How
/// near that is lies with the implementing type and is not part of any
/// contract here: the transform is defined for whatever values `phasor`
/// returns.
pub trait Phasor: Sized {
    fn phasor(arg: usize, m: usize) -> Self;
}

/// Whether `w` is a value that `T::phasor(arg, m)` may return.
pub open spec fn is_twiddle<T: Phasor>(arg: usize, m: usize, w: T) -> bool {
    call_ensures(T::phasor, (arg, m), w)
}

/// Whether `w` is a row of rotation factors for stage `m` of a transform with
/// `half` butterflies per stage: entry `k` is a value of `phasor` for the
/// argument `k` reversed in `m` bits.
pub open spec fn twiddle_row<T: Phasor>(half: nat, m: nat, w: Seq<T>) -> bool {
    &&& w.len() == half
    &&& forall|k: int|
        0 <= k < half ==> is_twiddle::<T>(rev_bits(k as nat, m) as usize, m as usize, #[trigger] w[k])
}

/// Whether `table` holds one row of rotation factors for each stage of a
/// transform of length `n`.
pub open spec fn twiddle_table<T: Phasor>(n: nat, table: Seq<Seq<T>>) -> bool {
    &&& table.len() == bit_width(n)
    &&& forall|m: int| 0 <= m < table.len() ==> twiddle_row::<T>(n / 2, m as nat, #[trigger] table[m])
}

/// Whether the three operators of `T` accept every pair of operands.
pub open spec fn total_ops<T: Add<Output = T> + Sub<Output = T> + Mul<Output = T>>() -> bool {
    &&& forall|a: T, b: T| #[trigger] a.add_req(b)
    &&& forall|a: T, b: T| #[trigger] a.sub_req(b)
    &&& forall|a: T, b: T| #[trigger] a.mul_req(b)
}

/// Whether the three operators of `T` return what `add_spec`, `sub_spec` and
/// `mul_spec` say.
pub open spec fn lawful_ops<T: Add<Output = T> + Sub<Output = T> + Mul<Output = T>>() -> bool {
    T::obeys_add_spec() && T::obeys_sub_spec() && T::obeys_mul_spec()
}

/// One combination stage. With `half = w.len()`, the working sequence `x` is
/// read as a lower half `E` and an upper half `O`; slot `2k` of the result is
/// `E[k] + O[k] * w[k]` and slot `2k + 1` is `E[k] - O[k] * w[k]`.
pub open spec fn butterfly<T: Add<Output = T> + Sub<Output = T> + Mul<Output = T>>(
    x: Seq<T>,
    w: Seq<T>,
) -> Seq<T> {
    Seq::new(
        x.len(),
        |i: int|
            {
                let e = x[i / 2];
                let o = x[w.len() + i / 2].mul_spec(w[i / 2]);
                if i % 2 == 0 {
                    e.add_spec(o)
                } else {
                    e.sub_spec(o)
                }
            },
    )
}

/// The working sequence after the stages of `table` have been applied to `y`
/// in order, stage `m` with row `table[m]`.
pub open spec fn stages<T: Add<Output = T> + Sub<Output = T> + Mul<Output = T>>(
    y: Seq<T>,
    table: Seq<Seq<T>>,
) -> Seq<T>
    decreases table.len(),
{
    if table.len() == 0 {
        y
    } else {
        butterfly(stages(y, table.drop_last()), table.last())
    }
}

/// The sequence `x` gathered in bit-reversed order: element `k` is the element
/// of `x` at `k` reversed in `bit_width(x.len())` bits.
pub open spec fn reorder<T>(x: Seq<T>) -> Seq<T> {
    Seq::new(x.len(), |k: int| x[rev_bits(k as nat, bit_width(x.len())) as int])
}

/// Gathering twice brings every element back: for a power-of-two length the
/// bit-reversed order of the bit-reversed order is the order itself.
pub proof fn lemma_reorder_twice<T>(x: Seq<T>)
    requires
        is_pow2(x.len() as int),
    ensures
        reorder(reorder(x)) == x,
{
    let bits = bit_width(x.len());
    lemma_pow2_length(x.len());
    assert forall|k: int| 0 <= k < x.len() implies reorder(reorder(x))[k] == x[k] by {
        lemma_rev_bits_bound(k as nat, bits);
        lemma_rev_bits_involution(k as nat, bits);
    }
    assert(reorder(reorder(x)) =~= x);
}

/// The transform of `y` with the rotation factors of `table`: all stages, then
/// the bit-reversal gather that brings the bins into natural order.
pub open spec fn transform<T: Add<Output = T> + Sub<Output = T> + Mul<Output = T>>(
    y: Seq<T>,
    table: Seq<Seq<T>>,
) -> Seq<T> {
    reorder(stages(y, table))
}

/// The working sequence after the first `m` stages of `table`.
pub open spec fn after<T: Add<Output = T> + Sub<Output = T> + Mul<Output = T>>(
    y: Seq<T>,
    table: Seq<Seq<T>>,
    m: nat,
) -> Seq<T> {
    stages(y, table.take(m as int))
}

/// Stage `m` turns the working sequence after `m` stages into the one after
/// `m + 1`; no stage changes the length; all stages give `stages` itself.
pub proof fn lemma_after<T: Add<Output = T> + Sub<Output = T> + Mul<Output = T>>(
    y: Seq<T>,
    table: Seq<Seq<T>>,
    m: nat,
)
    requires
        m <= table.len(),
    ensures
        after(y, table, 0) == y,
        after(y, table, m).len() == y.len(),
        m < table.len() ==> after(y, table, m + 1) == butterfly(after(y, table, m), table[m as int]),
        after(y, table, table.len()) == stages(y, table),
    decreases m,
{
    assert(table.take(table.len() as int) =~= table);
    if m > 0 {
        lemma_after(y, table, (m - 1) as nat);
    }
    if m < table.len() {
        assert(table.take((m + 1) as int).drop_last() =~= table.take(m as int));
    }
}

/// The rotation factors of stage `m` for `half` butterflies: entry `k` is
/// `phasor(brevidx(k, m), m)`.
pub fn twiddles<T: Phasor>(half: usize, m: usize) -> (w: Vec<T>)
    requires
        m <= usize::BITS,
    ensures
        twiddle_row::<T>(half as nat, m as nat, w@),
{
    let mut w: Vec<T> = Vec::new();
    let mut k: usize = 0;
    while k < half
        invariant
            k <= half,
            m <= usize::BITS,
            w.len() == k,
            forall|j: int|
                0 <= j < k ==> is_twiddle::<T>(
                    rev_bits(j as nat, m as nat) as usize,
                    m,
                    #[trigger] w[j],
                ),
        decreases half - k,
    {
        let arg: usize = brevidx(k, m);
        w.push(T::phasor(arg, m));
        k = k + 1;
    }
    w
}

/// Applies one combination stage to the working sequence `x` with the rotation
/// factors `w`.
pub fn stage<T: Copy + Add<Output = T> + Sub<Output = T> + Mul<Output = T>>(
    x: &Vec<T>,
    w: &Vec<T>,
) -> (r: Vec<T>)
    requires
        x.len() == 2 * w.len(),
        total_ops::<T>(),
    ensures
        r.len() == x.len(),
        lawful_ops::<T>() ==> r@ == butterfly(x@, w@),
{
    let half: usize = w.len();
    let mut r: Vec<T> = Vec::new();
    let mut k: usize = 0;
    while k < half
        invariant
            k <= half,
            half == w.len(),
            x.len() == 2 * half,
            total_ops::<T>(),
            r.len() == 2 * k,
            lawful_ops::<T>() ==> forall|i: int|
                0 <= i < 2 * k ==> #[trigger] r[i] == butterfly(x@, w@)[i],
        decreases half - k,
    {
        let e: T = x[k];
        let o: T = x[half + k] * w[k];
        r.push(e + o);
        r.push(e - o);
        k = k + 1;
    }
    r
}

/// Gathers the elements of `x` at the positions `idx`.
fn select<T: Copy>(x: &Vec<T>, idx: &Vec<usize>) -> (r: Vec<T>)
    requires
        forall|k: int| 0 <= k < idx.len() ==> idx[k] < x.len(),
    ensures
        r.len() == idx.len(),
        forall|k: int| 0 <= k < idx.len() ==> r[k] == x[idx[k] as int],
{
    let mut r: Vec<T> = Vec::new();
    let mut k: usize = 0;
    while k < idx.len()
        invariant
            k <= idx.len(),
            forall|j: int| 0 <= j < idx.len() ==> idx[j] < x.len(),
            r.len() == k,
            forall|j: int| 0 <= j < k ==> r[j] == x[idx[j] as int],
        decreases idx.len() - k,
    {
        r.push(x[idx[k]]);
        k = k + 1;
    }
    r
}

/// A copy of `y`.
fn duplicate<T: Copy>(y: &Vec<T>) -> (r: Vec<T>)
    ensures
        r@ == y@,
{
    let mut r: Vec<T> = Vec::new();
    let mut k: usize = 0;
    while k < y.len()
        invariant
            k <= y.len(),
            r.len() == k,
            forall|j: int| 0 <= j < k ==> r[j] == y[j],
        decreases y.len() - k,
    {
        r.push(y[k]);
        k = k + 1;
    }
    r
}

/// Whether `n` is a power of two.
pub fn is_power_of_two(n: usize) -> (b: bool)
    ensures
        b == is_pow2(n as int),
{
    proof {
        reveal(is_pow2);
    }
    if n == 0 {
        return false;
    }
    let mut rest: usize = n;
    while rest % 2 == 0
        invariant
            rest > 0,
            is_pow2(rest as int) == is_pow2(n as int),
        decreases rest,
    {
        proof {
            reveal(is_pow2);
        }
        rest = rest / 2;
    }
    rest == 1
}

/// The discrete Fourier transform of `y` by the iterative radix-2 method, in
/// natural order of the frequency bins.
///
/// The length of `y` must be a power of two; [`try_fft`] checks that instead
/// of demanding it. The result is [`transform`] of `y` with a table of
/// rotation factors, each of them a value that `T::phasor` returned for the
/// argument that the method prescribes for its stage and position.
pub fn fft<T: Copy + Add<Output = T> + Sub<Output = T> + Mul<Output = T> + Phasor>(
    y: &Vec<T>,
) -> (r: Vec<T>)
    requires
        is_pow2(y.len() as int),
        total_ops::<T>(),
    ensures
        r.len() == y.len(),
        lawful_ops::<T>() ==> exists|table: Seq<Seq<T>>| #[trigger]
            twiddle_table::<T>(y.len() as nat, table) && r@ == transform(y@, table),
{
    let n: usize = y.len();
    let nstages: usize = logb(n);
    let mut x: Vec<T> = duplicate(y);
    let ghost mut table: Seq<Seq<T>> = Seq::empty();
    let mut m: usize = 0;
    proof {
        lemma_pow2_length(n as nat);
    }
    while m < nstages
        invariant
            m <= nstages <= usize::BITS,
            nstages == bit_width(n as nat),
            n == pow2(nstages as nat),
            n == y.len(),
            x.len() == n,
            total_ops::<T>(),
            table.len() == m,
            forall|j: int| 0 <= j < m ==> twiddle_row::<T>((n / 2) as nat, j as nat, #[trigger] table[j]),
            lawful_ops::<T>() ==> x@ == stages(y@, table),
        decreases nstages - m,
    {
        proof {
            lemma_pow2_unfold(nstages as nat);
        }
        let w: Vec<T> = twiddles::<T>(n / 2, m);
        let next: Vec<T> = stage(&x, &w);
        proof {
            let before = table;
            table = table.push(w@);
            assert(table.drop_last() =~= before);
        }
        x = next;
        m = m + 1;
    }
    let idx: Vec<usize> = brevidxs(n);
    proof {
        lemma_reversal_fits_pow2(n as nat);
    }
    let r: Vec<T> = select(&x, &idx);
    proof {
        assert(twiddle_table::<T>(n as nat, table));
    }
    r
}

/// The rows of a table of rotation factors, each as a sequence.
pub open spec fn rows<T>(table: Seq<Vec<T>>) -> Seq<Seq<T>> {
    Seq::new(table.len(), |m: int| table[m]@)
}

/// Whether `table` has the shape that a transform of length `n` needs: one
/// row for each of the `bit_width(n)` stages, each of `n / 2` entries.
pub open spec fn table_fits<T>(n: nat, table: Seq<Seq<T>>) -> bool {
    &&& table.len() == bit_width(n)
    &&& forall|m: int| 0 <= m < table.len() ==> (#[trigger] table[m]).len() == n / 2
}

/// The transform of `y` with rotation factors that the caller supplies:
/// `table[m][k]` is the factor of butterfly `k` in stage `m`.
///
/// This is the whole method but for the rotation factors. [`fft`] is this
/// function with row `m` made of `phasor(brevidx(k, m), m)` for each `k`.
pub fn transform_with<T: Copy + Add<Output = T> + Sub<Output = T> + Mul<Output = T>>(
    y: &Vec<T>,
    table: &Vec<Vec<T>>,
) -> (r: Vec<T>)
    requires
        is_pow2(y.len() as int),
        table_fits(y.len() as nat, rows(table@)),
        total_ops::<T>(),
    ensures
        r.len() == y.len(),
        lawful_ops::<T>() ==> r@ == transform(y@, rows(table@)),
{
    let n: usize = y.len();
    let nstages: usize = logb(n);
    let mut x: Vec<T> = duplicate(y);
    let mut m: usize = 0;
    proof {
        lemma_pow2_length(n as nat);
    }
    while m < nstages
        invariant
            m <= nstages,
            nstages == bit_width(n as nat),
            n == pow2(nstages as nat),
            n == y.len(),
            x.len() == n,
            total_ops::<T>(),
            table_fits(n as nat, rows(table@)),
            lawful_ops::<T>() ==> x@ == stages(y@, rows(table@).take(m as int)),
        decreases nstages - m,
    {
        proof {
            lemma_pow2_unfold(nstages as nat);
            let done = rows(table@).take(m as int);
            let with_next = rows(table@).take(m + 1);
            assert(with_next.drop_last() =~= done);
            assert(with_next.last() == table[m as int]@);
        }
        let next: Vec<T> = stage(&x, &table[m]);
        x = next;
        m = m + 1;
    }
    let idx: Vec<usize> = brevidxs(n);
    proof {
        lemma_reversal_fits_pow2(n as nat);
        assert(rows(table@).take(m as int) =~= rows(table@));
    }
    select(&x, &idx)
}

/// Why a transform was refused.
#[derive(Clone, Copy, Debug, PartialEq, Eq, Structural)]
pub enum FftError {
    /// The length of the input is not a power of two.
    InvalidLength,
}

/// The transform of [`fft`], for an input of any length: a length that is not
/// a power of two (the empty input included) is refused.
pub fn try_fft<T: Copy + Add<Output = T> + Sub<Output = T> + Mul<Output = T> + Phasor>(
    y: &Vec<T>,
) -> (r: Result<Vec<T>, FftError>)
    requires
        total_ops::<T>(),
    ensures
        r is Ok <==> is_pow2(y.len() as int),
        r matches Ok(v) ==> {
            &&& v.len() == y.len()
            &&& lawful_ops::<T>() ==> exists|table: Seq<Seq<T>>| #[trigger]
                twiddle_table::<T>(y.len() as nat, table) && v@ == transform(y@, table)
        },
        r matches Err(e) ==> e == FftError::InvalidLength,
{
    if is_power_of_two(y.len()) {
        Ok(fft(y))
    } else {
        Err(FftError::InvalidLength)
    }
}

} // verus!
