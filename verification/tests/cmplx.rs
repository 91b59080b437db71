use dspkernel::cmplx::rectangular_text;
use dspkernel::cmplx::Sc16;
use fixed::types::I1F15;
use ndarray::Array;
use num::Complex;

/// The scalar nearest to `re + im i`, clamped to the representable range.
fn sc(re: f64, im: f64) -> Sc16 {
    Sc16::new(
        I1F15::saturating_from_num(re).to_bits(),
        I1F15::saturating_from_num(im).to_bits(),
    )
}

#[test]
fn cmplx_t0() {
    let a = sc(0.5, 0.25);
    let b = sc(0.2, 0.125);
    let d = a + b;
    assert_eq!(d.to_string(), "0.7+0.375j");
}

#[test]
fn cmplx_t1() {
    let a = sc(0.5, 0.25);
    let b = sc(0.7, -0.625);
    let d = a + b;
    assert_eq!(d.to_string(), "0.99997+-0.375j");
}

#[test]
fn t2() {
    let a = sc(0.5, 0.25);
    let b = sc(0.2, 0.125);
    let d = a - b;
    assert_eq!(d.to_string(), "0.3+0.125j");
}

#[test]
fn t3() {
    let a = sc(0.5, 0.25);
    let b = sc(0.625, 0.125);
    let ar = Complex::new(0.5, 0.25);
    let br = Complex::new(0.625, 0.125);
    let d = a * b;
    let dr = ar * br;
    assert_eq!(d.to_string(), format!("{}+{}j", dr.re, dr.im));
}

#[test]
fn ndarray_tests() {
    let a = Array::from_iter((0..8).map(|_| sc(0.5, 0.0)));
    let b = Array::from_iter((0..8).map(|_| sc(0.0, 0.5)));
    let d = a + b;
    assert_eq!(d, Array::from_iter(0..8).map(|_| sc(0.5, 0.5)));
    let a = Array::from_iter((0..8).map(|_| sc(0.5, 0.0)));
    let b = Array::from_iter((0..8).map(|_| sc(0.0, 0.5)));
    let d = a - b;
    assert_eq!(d, Array::from_iter(0..8).map(|_| sc(0.5, -0.5)));
    let a = Array::from_iter((0..8).map(|_| sc(0.5, 0.0)));
    let b = Array::from_iter((0..8).map(|_| sc(0.0, 0.5)));
    let d = a * b;
    assert_eq!(d, Array::from_iter(0..8).map(|_| sc(0.0, 0.25)));
}

#[test]
fn parts_out_of_range_are_clamped_when_built_from_floats() {
    assert_eq!(sc(1.5, -2.0), Sc16::new(32767, -32768));
    assert_eq!(sc(1.0, -1.0), Sc16::new(32767, -32768));
    // rounding is to the nearest representable value
    assert_eq!(sc(0.2, 0.7), Sc16::new(6554, 22938));
}

#[test]
fn new_keeps_the_raw_parts() {
    let a = Sc16::new(-32768, 32767);
    assert_eq!(a.re, -32768);
    assert_eq!(a.im, 32767);
    assert_eq!(a, Sc16 { re: -32768, im: 32767 });
}

#[test]
fn add_is_exact_inside_the_range() {
    let d = Sc16::new(16384, 8192) + Sc16::new(6554, 4096);
    assert_eq!(d, Sc16::new(22938, 12288));
    let d = Sc16::new(-5, 7) + Sc16::new(3, -9);
    assert_eq!(d, Sc16::new(-2, -2));
}

#[test]
fn add_saturates_at_both_ends() {
    // two scalars built from 0.99997 add up to the upper boundary
    let near_one = sc(0.99997, 0.99997);
    assert_eq!(near_one, Sc16::new(32767, 32767));
    let d = near_one + near_one;
    assert_eq!(d, Sc16::new(32767, 32767));
    assert!(d.re > 0 && d.im > 0);
    assert_eq!(d.to_string(), "0.99997+0.99997j");
    let d = Sc16::new(-32768, -20000) + Sc16::new(-1, -20000);
    assert_eq!(d, Sc16::new(-32768, -32768));
    let d = Sc16::new(32767, -32768) + Sc16::new(1, 32767);
    assert_eq!(d, Sc16::new(32767, -1));
}

#[test]
fn sub_is_exact_inside_the_range() {
    let d = Sc16::new(16384, 8192) - Sc16::new(6554, 4096);
    assert_eq!(d, Sc16::new(9830, 4096));
    let d = Sc16::new(0, 0) - Sc16::new(32767, -32767);
    assert_eq!(d, Sc16::new(-32767, 32767));
}

#[test]
fn sub_saturates_at_both_ends() {
    let d = Sc16::new(-32768, 32767) - Sc16::new(1, -1);
    assert_eq!(d, Sc16::new(-32768, 32767));
    let d = Sc16::new(0, 0) - Sc16::new(-32768, -32768);
    assert_eq!(d, Sc16::new(32767, 32767));
    let d = Sc16::new(-20000, 20000) - Sc16::new(20000, -20000);
    assert_eq!(d, Sc16::new(-32768, 32767));
}

#[test]
fn mul_gives_the_exact_product_when_it_is_representable() {
    // (0.5 + 0.25i)(0.625 + 0.125i) = 0.28125 + 0.21875i
    let d = Sc16::new(16384, 8192) * Sc16::new(20480, 4096);
    assert_eq!(d, Sc16::new(9216, 7168));
    // i * i = -1
    let i = Sc16::new(0, 16384);
    assert_eq!(i * i, Sc16::new(-8192, 0));
}

#[test]
fn mul_rounds_each_part_down() {
    // 1 * 1 in raw bits is 2^-30, below one unit in the last place
    assert_eq!(Sc16::new(1, 0) * Sc16::new(1, 0), Sc16::new(0, 0));
    // -2^-30 rounds down to -2^-15
    assert_eq!(Sc16::new(-1, 0) * Sc16::new(1, 0), Sc16::new(-1, 0));
    // 30 * 32767 / 32768 = 29.99..., -2 * 32767 / 32768 = -1.99...
    assert_eq!(Sc16::new(30, -2) * Sc16::new(32767, 0), Sc16::new(29, -2));
    // the multiplier nearest to one loses at most one unit
    assert_eq!(Sc16::new(12345, -12345) * Sc16::new(32767, 0), Sc16::new(12344, -12345));
}

#[test]
fn mul_saturates_only_when_narrowing() {
    let m = Sc16::new(-32768, 0);
    // (-1)(-1) = 1 is just out of range
    assert_eq!(m * m, Sc16::new(32767, 0));
    // (-1 - i)(-1 - i) = 2i: the imaginary part overflows even the wide sum
    let c = Sc16::new(-32768, -32768);
    assert_eq!(c * c, Sc16::new(0, 32767));
    // (-1 - i)(1 - 2^-15 + (1 - 2^-15)i): real part 0, imaginary part near -2
    let d = Sc16::new(32767, 32767);
    assert_eq!(c * d, Sc16::new(0, -32768));
    // the cross products cancel before narrowing, with no clipping on the way
    let e = Sc16::new(32767, 32767);
    assert_eq!(e * e, Sc16::new(0, 32767));
    let f = Sc16::new(-32768, 32767);
    assert_eq!(f * Sc16::new(32767, -32768), Sc16::new(0, 32767));
}

#[test]
fn mul_stays_within_one_unit_of_the_float_product() {
    // no part of any product of these leaves [-1.0, 1.0)
    let parts = [-0.7, -0.331, -0.0625, 0.0, 0.125, 0.4, 0.6875];
    let ulp = 1.0 / 32768.0;
    for &ar in &parts {
        for &ai in &parts {
            for &br in &parts {
                for &bi in &parts {
                    let a = sc(ar, ai);
                    let b = sc(br, bi);
                    let exact = Complex::new(a.re as f64 * ulp, a.im as f64 * ulp)
                        * Complex::new(b.re as f64 * ulp, b.im as f64 * ulp);
                    let d = a * b;
                    assert!((d.re as f64 * ulp - exact.re).abs() < ulp);
                    assert!((d.im as f64 * ulp - exact.im).abs() < ulp);
                }
            }
        }
    }
}

#[test]
fn to_string_writes_both_parts_in_decimal() {
    assert_eq!(Sc16::new(0, 0).to_string(), "0+0j");
    assert_eq!(Sc16::new(16384, -16384).to_string(), "0.5+-0.5j");
    assert_eq!(Sc16::new(-32768, 32767).to_string(), "-1+0.99997j");
    assert_eq!(Sc16::new(1, -1).to_string(), "0.00003+-0.00003j");
    assert_eq!(Sc16::new(8192, 4096).to_string(), "0.25+0.125j");
}

#[test]
fn rectangular_text_joins_the_parts() {
    assert_eq!(rectangular_text("0.7", "0.375"), "0.7+0.375j");
    assert_eq!(rectangular_text("-1", "-0.5"), "-1+-0.5j");
    assert_eq!(rectangular_text("", ""), "+j");
}

/// Raw parts that cover both boundaries, both signs and the middle.
const PARTS: [i16; 13] = [
    -32768, -32767, -20000, -12345, -1, 0, 1, 2, 12345, 16384, 20000, 32766, 32767,
];

fn clamp16(v: i64) -> i16 {
    v.clamp(-32768, 32767) as i16
}

#[test]
fn add_and_sub_clamp_the_exact_result() {
    for &a in &PARTS {
        for &b in &PARTS {
            let x = Sc16::new(a, b);
            let y = Sc16::new(b, a);
            let s = clamp16(a as i64 + b as i64);
            assert_eq!(x + y, Sc16::new(s, s));
            assert_eq!(
                x - y,
                Sc16::new(clamp16(a as i64 - b as i64), clamp16(b as i64 - a as i64))
            );
        }
    }
}

#[test]
fn mul_narrows_the_exact_product() {
    for &a in &PARTS {
        for &b in &PARTS {
            for &c in &PARTS {
                for &d in &PARTS {
                    let (a64, b64, c64, d64) = (a as i64, b as i64, c as i64, d as i64);
                    let re = clamp16((a64 * c64 - b64 * d64).div_euclid(32768));
                    let im = clamp16((a64 * d64 + b64 * c64).div_euclid(32768));
                    assert_eq!(Sc16::new(a, b) * Sc16::new(c, d), Sc16::new(re, im));
                }
            }
        }
    }
}

#[test]
fn sums_keep_the_sign_of_the_exact_result() {
    for &a in &PARTS {
        for &b in &PARTS {
            let s = (Sc16::new(a, 0) + Sc16::new(b, 0)).re;
            let exact = a as i32 + b as i32;
            assert_eq!((s as i32).signum(), exact.signum());
            let d = (Sc16::new(a, 0) - Sc16::new(b, 0)).re;
            let exact = a as i32 - b as i32;
            assert_eq!((d as i32).signum(), exact.signum());
        }
    }
}
