//! The fixed-point complex scalar.

use crate::q15::q15_decimal;
use crate::q15::q15_saturating_add;
use crate::q15::q15_saturating_sub;
use crate::q15::q15_to_decimal;
use crate::q15::q15_wide_mul;
use crate::q15::q30_saturating_add;
use crate::q15::q30_saturating_narrow;
use crate::q15::q30_saturating_sub;
use crate::q15::sat16;
use core::ops::Add;
use core::ops::Mul;
use core::ops::Sub;
use vstd::prelude::*;
use vstd::std_specs::ops::AddSpec;
use vstd::std_specs::ops::MulSpec;
use vstd::std_specs::ops::SubSpec;
use vstd::string::StringExecFns;

verus! {

/// A complex number whose real and imaginary parts are Q1.15 fixed-point
/// numbers.
///
/// Each part is stored as its raw bits: the field value `b` stands for the
/// number `b / 2^15`, so each part lies in `[-1.0, 1.0)`. Every 16-bit
/// pattern is a valid part; the type has no further invariant.
#[derive(Clone, Copy, Debug, PartialEq, Eq, Structural)]
pub struct Sc16 {
    pub re: i16,
    pub im: i16,
}

/// The product of two raw Q1.15 parts is a raw Q2.30 value of magnitude at
/// most `2^30`.
pub proof fn lemma_part_product_bounds(a: int, b: int)
    by (nonlinear_arith)
    requires
        -32768 <= a <= 32767,
        -32768 <= b <= 32767,
    ensures
        -1073741824 < a * b <= 1073741824,
{
}

/// The text of a complex number whose parts are written `re` and `im`:
/// the real part, a plus sign, the imaginary part and the letter `j`.
pub open spec fn rectangular(re: Seq<char>, im: Seq<char>) -> Seq<char> {
    re + seq!['+'] + im + seq!['j']
}

/// Joins the written parts of a complex number into `<re>+<im>j`.
pub fn rectangular_text(re: &str, im: &str) -> (s: String)
    ensures
        s@ == rectangular(re@, im@),
{
    let mut s = String::from_str(re);
    s.append("+");
    s.append(im);
    s.append("j");
    proof {
        reveal_strlit("+");
        reveal_strlit("j");
    }
    s
}

impl Sc16 {
    /// The real part of the exact product, as a raw Q2.30 value.
    pub open spec fn product_re(self, rhs: Sc16) -> int {
        self.re * rhs.re - self.im * rhs.im
    }

    /// The imaginary part of the exact product, as a raw Q2.30 value.
    pub open spec fn product_im(self, rhs: Sc16) -> int {
        self.re * rhs.im + self.im * rhs.re
    }

    /// Builds a scalar from the raw Q1.15 bits of its two parts.
    pub fn new(re: i16, im: i16) -> (s: Sc16)
        ensures
            s.re == re,
            s.im == im,
    {
        Sc16 { re, im }
    }

    /// Writes the scalar as `<re>+<im>j`, each part in the decimal notation
    /// of the `fixed` crate.
    pub fn to_string(&self) -> (s: String)
        ensures
            s@ == rectangular(q15_decimal(self.re), q15_decimal(self.im)),
    {
        let re = q15_to_decimal(self.re);
        let im = q15_to_decimal(self.im);
        rectangular_text(re.as_str(), im.as_str())
    }
}

impl vstd::std_specs::ops::AddSpecImpl for Sc16 {
    open spec fn obeys_add_spec() -> bool {
        true
    }

    open spec fn add_req(self, rhs: Sc16) -> bool {
        true
    }

    /// Part by part, the exact sum clamped to the representable range.
    open spec fn add_spec(self, rhs: Sc16) -> Sc16 {
        Sc16 { re: sat16(self.re + rhs.re) as i16, im: sat16(self.im + rhs.im) as i16 }
    }
}

impl Add for Sc16 {
    type Output = Sc16;

    fn add(self, rhs: Sc16) -> (r: Sc16) {
        Sc16 { re: q15_saturating_add(self.re, rhs.re), im: q15_saturating_add(self.im, rhs.im) }
    }
}

impl vstd::std_specs::ops::SubSpecImpl for Sc16 {
    open spec fn obeys_sub_spec() -> bool {
        true
    }

    open spec fn sub_req(self, rhs: Sc16) -> bool {
        true
    }

    /// Part by part, the exact difference clamped to the representable range.
    open spec fn sub_spec(self, rhs: Sc16) -> Sc16 {
        Sc16 { re: sat16(self.re - rhs.re) as i16, im: sat16(self.im - rhs.im) as i16 }
    }
}

impl Sub for Sc16 {
    type Output = Sc16;

    fn sub(self, rhs: Sc16) -> (r: Sc16) {
        Sc16 { re: q15_saturating_sub(self.re, rhs.re), im: q15_saturating_sub(self.im, rhs.im) }
    }
}

impl vstd::std_specs::ops::MulSpecImpl for Sc16 {
    open spec fn obeys_mul_spec() -> bool {
        true
    }

    open spec fn mul_req(self, rhs: Sc16) -> bool {
        true
    }

    /// The exact complex product `(ac - bd) + (ad + bc)i`, each part rounded
    /// down to a multiple of `2^-15` and then clamped to the representable
    /// range.
    open spec fn mul_spec(self, rhs: Sc16) -> Sc16 {
        Sc16 {
            re: sat16(self.product_re(rhs) / 32768) as i16,
            im: sat16(self.product_im(rhs) / 32768) as i16,
        }
    }
}

impl Mul for Sc16 {
    type Output = Sc16;

    fn mul(self, rhs: Sc16) -> (r: Sc16) {
        proof {
            lemma_part_product_bounds(self.re as int, rhs.re as int);
            lemma_part_product_bounds(self.im as int, rhs.im as int);
            lemma_part_product_bounds(self.re as int, rhs.im as int);
            lemma_part_product_bounds(self.im as int, rhs.re as int);
        }
        let ac: i32 = q15_wide_mul(self.re, rhs.re);
        let bd: i32 = q15_wide_mul(self.im, rhs.im);
        let ad: i32 = q15_wide_mul(self.re, rhs.im);
        let bc: i32 = q15_wide_mul(self.im, rhs.re);
        let re: i16 = q30_saturating_narrow(q30_saturating_sub(ac, bd));
        let im: i16 = q30_saturating_narrow(q30_saturating_add(ad, bc));
        Sc16 { re, im }
    }
}

/// The distance between two integers.
pub open spec fn distance(a: int, b: int) -> int {
    if a <= b {
        b - a
    } else {
        a - b
    }
}

/// Saturation of sums: each part of `a + b` is at least as near to the exact
/// sum of the parts as any representable value `v`. It therefore equals the
/// exact sum whenever that is representable, and otherwise sits on the
/// boundary on the side of the exact sum; it never wraps to the opposite
/// sign.
pub proof fn lemma_add_saturates(a: Sc16, b: Sc16, v: i16)
    ensures
        distance(a.add_spec(b).re as int, a.re + b.re) <= distance(v as int, a.re + b.re),
        distance(a.add_spec(b).im as int, a.im + b.im) <= distance(v as int, a.im + b.im),
        a.re + b.re >= 0 ==> a.add_spec(b).re >= 0,
        a.re + b.re <= 0 ==> a.add_spec(b).re <= 0,
        a.im + b.im >= 0 ==> a.add_spec(b).im >= 0,
        a.im + b.im <= 0 ==> a.add_spec(b).im <= 0,
{
}

/// Saturation of differences: each part of `a - b` is at least as near to
/// the exact difference of the parts as any representable value `v`, and
/// never wraps to the opposite sign.
pub proof fn lemma_sub_saturates(a: Sc16, b: Sc16, v: i16)
    ensures
        distance(a.sub_spec(b).re as int, a.re - b.re) <= distance(v as int, a.re - b.re),
        distance(a.sub_spec(b).im as int, a.im - b.im) <= distance(v as int, a.im - b.im),
        a.re - b.re >= 0 ==> a.sub_spec(b).re >= 0,
        a.re - b.re <= 0 ==> a.sub_spec(b).re <= 0,
        a.im - b.im >= 0 ==> a.sub_spec(b).im >= 0,
        a.im - b.im <= 0 ==> a.sub_spec(b).im <= 0,
{
}

/// Precision of products: where a part of the exact product lies in
/// `[-1.0, 1.0)`, the same part of `a * b` is at most the exact value and
/// less than one unit in the last place (`2^-15`) below it. Where the exact
/// part lies outside that range, the result sits on the boundary on its side.
///
/// Exact parts are given as raw Q2.30 values, in which the range
/// `[-1.0, 1.0)` is `[-2^30, 2^30)` and one unit in the last place of Q1.15
/// is `2^15`.
pub proof fn lemma_mul_precision(a: Sc16, b: Sc16)
    ensures
        -1073741824 <= a.product_re(b) < 1073741824 ==> 0 <= a.product_re(b) - a.mul_spec(b).re
            * 32768 < 32768,
        -1073741824 <= a.product_im(b) < 1073741824 ==> 0 <= a.product_im(b) - a.mul_spec(b).im
            * 32768 < 32768,
        a.product_re(b) >= 1073741824 ==> a.mul_spec(b).re == 32767,
        a.product_re(b) < -1073741824 ==> a.mul_spec(b).re == -32768,
        a.product_im(b) >= 1073741824 ==> a.mul_spec(b).im == 32767,
        a.product_im(b) < -1073741824 ==> a.mul_spec(b).im == -32768,
{
}

} // verus!
