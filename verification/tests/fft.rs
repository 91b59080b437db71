use dspkernel::cmplx::Sc16;
use dspkernel::fft::brev;
use dspkernel::fft::brevidx;
use dspkernel::fft::brevidxs;
use dspkernel::fft::fft;
use dspkernel::fft::is_power_of_two;
use dspkernel::fft::logb;
use dspkernel::fft::stage;
use dspkernel::fft::transform_with;
use dspkernel::fft::try_fft;
use dspkernel::fft::twiddles;
use dspkernel::fft::FftError;
use dspkernel::fft::Phasor;
use fixed::types::I1F15;
use num::Complex;
use std::f64::consts::PI;
use std::ops::Add;
use std::ops::Deref;
use std::ops::Mul;
use std::ops::Sub;

/// A double-precision complex sample.
#[derive(Clone, Copy, Debug, PartialEq)]
struct C64(Complex<f64>);

impl C64 {
    fn new(re: f64, im: f64) -> C64 {
        C64(Complex::new(re, im))
    }
}

impl Deref for C64 {
    type Target = Complex<f64>;
    fn deref(&self) -> &Complex<f64> {
        &self.0
    }
}

impl Add for C64 {
    type Output = C64;
    fn add(self, rhs: C64) -> C64 {
        C64(self.0 + rhs.0)
    }
}

impl Sub for C64 {
    type Output = C64;
    fn sub(self, rhs: C64) -> C64 {
        C64(self.0 - rhs.0)
    }
}

impl Mul for C64 {
    type Output = C64;
    fn mul(self, rhs: C64) -> C64 {
        C64(self.0 * rhs.0)
    }
}

impl Phasor for C64 {
    fn phasor(arg: usize, m: usize) -> C64 {
        C64(Complex::new(0.0, -2.0 * PI * arg as f64 / (2.0f64.powi(m as i32 + 1))).exp())
    }
}

/// A Gaussian integer: exact arithmetic, with the rotation factors that are
/// Gaussian integers themselves (the fourth roots of unity).
#[derive(Clone, Copy, Debug, PartialEq)]
struct Gauss(i64, i64);

impl Add for Gauss {
    type Output = Gauss;
    fn add(self, rhs: Gauss) -> Gauss {
        Gauss(self.0 + rhs.0, self.1 + rhs.1)
    }
}

impl Sub for Gauss {
    type Output = Gauss;
    fn sub(self, rhs: Gauss) -> Gauss {
        Gauss(self.0 - rhs.0, self.1 - rhs.1)
    }
}

impl Mul for Gauss {
    type Output = Gauss;
    fn mul(self, rhs: Gauss) -> Gauss {
        Gauss(self.0 * rhs.0 - self.1 * rhs.1, self.0 * rhs.1 + self.1 * rhs.0)
    }
}

impl Phasor for Gauss {
    fn phasor(arg: usize, m: usize) -> Gauss {
        match (arg, m) {
            (0, _) => Gauss(1, 0),
            (1, 0) => Gauss(-1, 0),
            (1, 1) => Gauss(0, -1),
            (2, 1) => Gauss(-1, 0),
            (3, 1) => Gauss(0, 1),
            _ => panic!("not a Gaussian integer"),
        }
    }
}

/// A sample that only records the arguments it was asked a rotation for.
#[derive(Clone, Copy, Debug, PartialEq)]
struct Asked(usize, usize);

impl Phasor for Asked {
    fn phasor(arg: usize, m: usize) -> Asked {
        Asked(arg, m)
    }
}

#[test]
fn fft_t0() {
    let a: Vec<C64> = (0..8).map(|_| C64::new(1.0, 0.0)).collect();
    let o = fft(&a);
    let max = o
        .iter()
        .fold(0.0, |x: f64, y| y.im.max(x))
        .max(o.iter().fold(0.0, |x: f64, y| y.re.max(x)));
    let min = o
        .iter()
        .fold(0.0, |x: f64, y| y.im.min(x))
        .min(o.iter().fold(0.0, |x: f64, y| y.re.min(x)));
    let n = o.len();
    println!("{min}..{max} = {n}");
    assert_eq!(o[0].re, 8.0);
    assert_eq!(o[0].im, 0.0);
}

#[test]
fn fft_t1() {
    let mut a: Vec<C64> = (0..8).map(|_| C64::new(0.0, 0.0)).collect();
    a[1].0.re = 1.0;
    let o = fft(&a);
    let a = -2.0 * PI / 8.0;
    for i in 0..8 {
        let a = i as f64 * &a;
        let e = o[i];
        let re = a.cos();
        let im = a.sin();
        println!("{i} {} == ({re},{im})", e.0);
        assert_eq!((o[i].re - a.cos()).abs() < 1.0e-4, true);
        assert_eq!((o[i].im - a.sin()).abs() < 1.0e-4, true);
    }
}

#[test]
fn constant_input_has_only_a_dc_bin() {
    for bits in 0..8 {
        let n = 1usize << bits;
        let a: Vec<C64> = (0..n).map(|_| C64::new(1.0, 0.0)).collect();
        let o = fft(&a);
        assert_eq!(o.len(), n);
        assert_eq!(o[0].re, n as f64);
        assert_eq!(o[0].im, 0.0);
        for k in 1..n {
            assert!(o[k].norm() < 1.0e-9, "bin {k} of {n}");
        }
    }
}

#[test]
fn impulse_at_one_gives_the_rotation_factors() {
    for bits in 1..8 {
        let n = 1usize << bits;
        let mut a: Vec<C64> = (0..n).map(|_| C64::new(0.0, 0.0)).collect();
        a[1] = C64::new(1.0, 0.0);
        let o = fft(&a);
        for k in 0..n {
            let angle = -2.0 * PI * k as f64 / n as f64;
            assert!((o[k].re - angle.cos()).abs() < 1.0e-4);
            assert!((o[k].im - angle.sin()).abs() < 1.0e-4);
        }
    }
}

#[test]
fn matches_the_defining_sum() {
    let n = 16;
    let a: Vec<C64> = (0..n)
        .map(|j| C64::new(((j * j) % 7) as f64 - 3.0, (j % 5) as f64 * 0.25))
        .collect();
    let o = fft(&a);
    for k in 0..n {
        let mut sum = Complex::new(0.0, 0.0);
        for j in 0..n {
            let angle = -2.0 * PI * (j * k) as f64 / n as f64;
            sum += a[j].0 * Complex::new(angle.cos(), angle.sin());
        }
        assert!((o[k].0 - sum).norm() < 1.0e-9, "bin {k}");
    }
}

#[test]
fn exact_on_gaussian_integers() {
    let a = vec![Gauss(1, 0), Gauss(2, 0), Gauss(3, 0), Gauss(4, 0)];
    assert_eq!(fft(&a), vec![Gauss(10, 0), Gauss(-2, 2), Gauss(-2, 0), Gauss(-2, -2)]);
    let a = vec![Gauss(0, 0), Gauss(1, 0), Gauss(0, 0), Gauss(0, 0)];
    assert_eq!(fft(&a), vec![Gauss(1, 0), Gauss(0, -1), Gauss(-1, 0), Gauss(0, 1)]);
    let a = vec![Gauss(5, -3), Gauss(2, 7)];
    assert_eq!(fft(&a), vec![Gauss(7, 4), Gauss(3, -10)]);
}

#[test]
fn exact_constant_input_has_only_a_dc_bin() {
    let a = vec![Gauss(3, -1); 4];
    assert_eq!(fft(&a), vec![Gauss(12, -4), Gauss(0, 0), Gauss(0, 0), Gauss(0, 0)]);
    let a = vec![Gauss(1, 0); 2];
    assert_eq!(fft(&a), vec![Gauss(2, 0), Gauss(0, 0)]);
}

#[test]
fn a_single_sample_is_its_own_transform() {
    assert_eq!(fft(&vec![Gauss(5, -3)]), vec![Gauss(5, -3)]);
    assert_eq!(fft(&vec![C64::new(0.25, -4.0)]), vec![C64::new(0.25, -4.0)]);
}

#[test]
fn the_input_is_left_as_it_was() {
    let a = vec![Gauss(1, 0), Gauss(2, 0), Gauss(3, 0), Gauss(4, 0)];
    let before = a.clone();
    let _ = fft(&a);
    assert_eq!(a, before);
}

#[test]
fn a_length_that_is_no_power_of_two_is_refused() {
    let six: Vec<C64> = (0..6).map(|_| C64::new(1.0, 0.0)).collect();
    assert_eq!(try_fft(&six), Err(FftError::InvalidLength));
    let none: Vec<C64> = Vec::new();
    assert_eq!(try_fft(&none), Err(FftError::InvalidLength));
    for n in [3usize, 5, 7, 9, 12, 100, 1023, 1025] {
        let a: Vec<Gauss> = (0..n).map(|_| Gauss(1, 0)).collect();
        assert_eq!(try_fft(&a), Err(FftError::InvalidLength));
    }
}

#[test]
fn a_power_of_two_length_is_transformed() {
    let a = vec![Gauss(1, 0), Gauss(2, 0), Gauss(3, 0), Gauss(4, 0)];
    assert_eq!(try_fft(&a), Ok(fft(&a)));
    assert_eq!(try_fft(&vec![Gauss(9, 9)]), Ok(vec![Gauss(9, 9)]));
    let a: Vec<C64> = (0..8).map(|_| C64::new(1.0, 0.0)).collect();
    assert_eq!(try_fft(&a), Ok(fft(&a)));
}

#[test]
fn powers_of_two_are_told_apart() {
    for bits in 0..usize::BITS {
        assert!(is_power_of_two(1usize << bits));
    }
    for n in [0usize, 3, 5, 6, 7, 9, 10, 12, 1023, 1025, usize::MAX] {
        assert!(!is_power_of_two(n), "{n}");
    }
}

#[test]
fn logb_is_the_logarithm_rounded_up() {
    let expected = [0, 0, 1, 2, 2, 3, 3, 3, 3, 4, 4, 4, 4, 4, 4, 4, 4, 5];
    for (n, &b) in expected.iter().enumerate() {
        assert_eq!(logb(n), b, "{n}");
    }
    assert_eq!(logb(1 << 12), 12);
    assert_eq!(logb((1 << 12) - 1), 12);
    assert_eq!(logb((1 << 12) + 1), 13);
    // lengths that single precision cannot tell from a power of two
    assert_eq!(logb((1 << 24) + 1), 25);
    assert_eq!(logb((1 << 30) - 1), 30);
    assert_eq!(logb(usize::MAX), usize::BITS as usize);
    assert_eq!(logb((usize::MAX >> 1) + 1), usize::BITS as usize - 1);
}

#[test]
fn brevidx_reverses_the_low_bits() {
    assert_eq!(brevidx(1, 3), 4);
    assert_eq!(brevidx(6, 3), 3);
    assert_eq!(brevidx(0b1011, 4), 0b1101);
    assert_eq!(brevidx(0b0001, 1), 1);
    assert_eq!(brevidx(0b0110_1001, 8), 0b1001_0110);
    // bits above the low ones play no part
    assert_eq!(brevidx(0b1_0001, 4), 0b1000);
    assert_eq!(brevidx(usize::MAX, 5), 0b11111);
    // the full width of the word
    assert_eq!(brevidx(1, usize::BITS as usize), 1 << (usize::BITS - 1));
    assert_eq!(brevidx(usize::MAX - 1, usize::BITS as usize), usize::MAX >> 1);
}

#[test]
fn brevidx_of_no_bits_is_zero() {
    for i in [0usize, 1, 2, 77, usize::MAX] {
        assert_eq!(brevidx(i, 0), 0);
    }
}

#[test]
fn brevidx_is_its_own_inverse() {
    for bits in 0..9 {
        for i in 0..(1usize << bits) {
            let r = brevidx(i, bits);
            assert!(r < (1 << bits));
            assert_eq!(brevidx(r, bits), i);
        }
    }
}

#[test]
fn brevidxs_is_the_reversal_permutation() {
    assert_eq!(brevidxs(8), vec![0, 4, 2, 6, 1, 5, 3, 7]);
    assert_eq!(brevidxs(4), vec![0, 2, 1, 3]);
    assert_eq!(brevidxs(2), vec![0, 1]);
    assert_eq!(brevidxs(1), vec![0]);
    assert_eq!(brevidxs(0), Vec::<usize>::new());
    assert_eq!(
        brevidxs(16),
        vec![0, 8, 4, 12, 2, 10, 6, 14, 1, 9, 5, 13, 3, 11, 7, 15]
    );
}

#[test]
fn brevidxs_of_other_lengths_uses_the_rounded_up_width() {
    assert_eq!(brevidxs(3), vec![0, 2, 1]);
    assert_eq!(brevidxs(6), vec![0, 4, 2, 6, 1, 5]);
}

#[test]
fn brev_gathers_in_reversed_order() {
    let a = [10, 11, 12, 13, 14, 15, 16, 17];
    assert_eq!(brev(&a), vec![10, 14, 12, 16, 11, 15, 13, 17]);
    let words: Vec<String> = ["a", "b", "c", "d"].iter().map(|s| s.to_string()).collect();
    assert_eq!(brev(&words), vec!["a", "c", "b", "d"]);
    assert_eq!(brev(&[7u8]), vec![7]);
    assert_eq!(brev::<u8>(&[]), Vec::<u8>::new());
    // a length whose reversed indices all stay in range
    assert_eq!(brev(&['x', 'y', 'z']), vec!['x', 'z', 'y']);
}

#[test]
fn brev_twice_is_the_identity() {
    for bits in 0..7 {
        let a: Vec<usize> = (0..(1usize << bits)).map(|k| k * k + 1).collect();
        assert_eq!(brev(&brev(&a)), a);
    }
}

#[test]
fn twiddles_asks_for_the_reversed_position() {
    assert_eq!(twiddles::<Asked>(4, 0), vec![Asked(0, 0); 4]);
    assert_eq!(
        twiddles::<Asked>(4, 1),
        vec![Asked(0, 1), Asked(1, 1), Asked(0, 1), Asked(1, 1)]
    );
    assert_eq!(
        twiddles::<Asked>(4, 2),
        vec![Asked(0, 2), Asked(2, 2), Asked(1, 2), Asked(3, 2)]
    );
    assert_eq!(twiddles::<Asked>(0, 3), Vec::<Asked>::new());
}

#[test]
fn stage_interleaves_sums_and_differences() {
    let x: Vec<i64> = vec![1, 2, 3, 4];
    let w: Vec<i64> = vec![10, 100];
    assert_eq!(stage(&x, &w), vec![31, -29, 402, -398]);
    assert_eq!(stage(&vec![5i64, 7], &vec![1]), vec![12, -2]);
    assert_eq!(stage(&Vec::<i64>::new(), &Vec::<i64>::new()), Vec::<i64>::new());
}

#[test]
fn transform_with_uses_the_table_it_is_given() {
    let y: Vec<i64> = vec![1, 2, 3, 4];
    let table: Vec<Vec<i64>> = vec![vec![1, 1], vec![1, 5]];
    assert_eq!(transform_with(&y, &table), vec![10, -12, -2, 8]);
    assert_eq!(transform_with(&vec![9i64], &Vec::new()), vec![9]);
    assert_eq!(transform_with(&vec![5i64, 7], &vec![vec![3]]), vec![26, -16]);
}

#[test]
fn transform_with_agrees_with_fft() {
    let a = vec![Gauss(1, 0), Gauss(2, 0), Gauss(3, 0), Gauss(4, 0)];
    let table = vec![twiddles::<Gauss>(2, 0), twiddles::<Gauss>(2, 1)];
    assert_eq!(transform_with(&a, &table), fft(&a));
}

#[test]
fn fixed_point_transform_of_an_impulse() {
    let n = 8;
    let half = I1F15::from_num(0.5).to_bits();
    let mut y = vec![Sc16::new(0, 0); n];
    y[1] = Sc16::new(half, 0);
    let table: Vec<Vec<Sc16>> = (0..3)
        .map(|m| {
            twiddles::<C64>(n / 2, m)
                .iter()
                .map(|w| {
                    Sc16::new(
                        I1F15::saturating_from_num(w.re).to_bits(),
                        I1F15::saturating_from_num(w.im).to_bits(),
                    )
                })
                .collect()
        })
        .collect();
    let o = transform_with(&y, &table);
    assert_eq!(o.len(), n);
    for k in 0..n {
        let angle = -2.0 * PI * k as f64 / n as f64;
        let re = o[k].re as f64 / 32768.0;
        let im = o[k].im as f64 / 32768.0;
        assert!((re - 0.5 * angle.cos()).abs() < 4.0 / 32768.0, "bin {k}: {re}");
        assert!((im - 0.5 * angle.sin()).abs() < 4.0 / 32768.0, "bin {k}: {im}");
    }
}

#[test]
fn fixed_point_transform_clips_a_loud_constant() {
    // eight samples of 0.5 add up to 4.0, far out of range: the DC bin clips
    let y = vec![Sc16::new(16384, 0); 8];
    let one = Sc16::new(32767, 0);
    let table = vec![vec![one; 4]; 3];
    let o = transform_with(&y, &table);
    assert_eq!(o[0].re, 32767);
    assert!(o.iter().all(|s| s.re >= 0));
}
