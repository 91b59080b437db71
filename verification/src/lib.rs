//! A small signal-processing kernel: a saturating 16-bit fixed-point complex
//! scalar and an iterative radix-2 Fourier transform over any sample type
//! that offers addition, subtraction, multiplication and rotation factors.

pub mod bits;
pub mod cmplx;
pub mod dft;
pub mod fft;
pub mod q15;
pub mod responses;
