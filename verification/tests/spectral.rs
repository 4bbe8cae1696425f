//! End-to-end tests of the fixed-point spectrum pipeline: values go in
//! through the `SCALE` fixed-point grid, twiddle tables come from `f64`
//! trigonometry rounded onto that grid, and results are compared either
//! exactly (where the arithmetic is exact) or within a float tolerance.

use spectral::complex::{ComplexNumber, SCALE};
use spectral::editor::{
    clip_bins, edit_channel, extract_positive_half, pad_zeros_power_of_2, rebuild_spectrum,
    samples_to_complex, shift_bins, EditConfig,
};
use spectral::fft::{fft, is_power_of_two, SpectrumError};
use spectral::ifft::ifft;

const PI: f64 = std::f64::consts::PI;

fn fx(v: f64) -> i64 {
    (v * SCALE as f64).round() as i64
}

fn fl(v: i64) -> f64 {
    v as f64 / SCALE as f64
}

/// A twiddle table for transforms of length `t`: entry `j` is
/// `e^{-2*pi*i*j/t}` rounded onto the fixed-point grid. The upper half of
/// the table is mirrored from the lower one so that entries `a` and
/// `t/2 - a` are exact negated conjugates, as the rounded cosine and sine
/// of supplementary angles should be.
fn twiddle_table(t: usize) -> Vec<ComplexNumber> {
    let l = t / 2;
    let mut tw = vec![ComplexNumber { real: 0, imaginary: 0 }; l];
    for j in 0..l {
        if 2 * j <= l {
            let theta = -2.0 * PI * (j as f64) / (t as f64);
            tw[j] = ComplexNumber {
                real: fx(theta.cos()),
                imaginary: fx(theta.sin()),
            };
        } else {
            tw[j] = ComplexNumber {
                real: -tw[l - j].real,
                imaginary: tw[l - j].imaginary,
            };
        }
    }
    tw
}

fn real_channel(values: &[f64]) -> Vec<ComplexNumber> {
    values.iter().map(|v| ComplexNumber::from_real(fx(*v))).collect()
}

fn assert_close(actual: f64, expected: f64, tol: f64) {
    assert!(
        (actual - expected).abs() <= tol,
        "expected {expected}, got {actual} (tolerance {tol})"
    );
}

#[test]
fn test_fourier_transform() {
    let step = 0.03125;
    let period = 2.0;
    let count = (period / step) as usize;
    let input: Vec<f64> = (0..count)
        .map(|t| {
            let t = t as f64 * step;
            7.0 * (2.0 * PI * t).sin() + 2.0 * (3.0 * PI * t).sin() + 0.1
        })
        .collect();
    let channel = real_channel(&input);
    let tw = twiddle_table(channel.len());
    let output = fft(&channel, &tw).unwrap();
    let reconstructed = ifft(&output, &tw).unwrap();
    assert_eq!(reconstructed.len(), input.len());
    for i in 0..input.len() {
        assert_close(fl(reconstructed[i]), input[i], 1e-4);
    }
}

#[test]
fn test_concrete_vector() {
    // FFT([1, 0, 0, 0]) == [1, 1, 1, 1], exactly, all bins real.
    let one = SCALE;
    let input = vec![
        ComplexNumber::from_real(one),
        ComplexNumber::zero(),
        ComplexNumber::zero(),
        ComplexNumber::zero(),
    ];
    let tw = twiddle_table(4);
    let output = fft(&input, &tw).unwrap();
    assert_eq!(output.len(), 4);
    for bin in &output {
        assert_eq!(bin.real, one);
        assert_eq!(bin.imaginary, 0);
    }
    // IFFT([1, 1, 1, 1]) == [1, 0, 0, 0], exactly.
    let flat = vec![ComplexNumber::from_real(one); 4];
    let back = ifft(&flat, &tw).unwrap();
    assert_eq!(back, vec![one, 0, 0, 0]);
}

#[test]
fn test_round_trip() {
    let input = [0.25, -0.5, 0.875, 0.0, -1.0, 0.625, -0.125, 0.75];
    let channel = real_channel(&input);
    let tw = twiddle_table(8);
    let output = fft(&channel, &tw).unwrap();
    let reconstructed = ifft(&output, &tw).unwrap();
    for i in 0..8 {
        assert_close(fl(reconstructed[i]), input[i], 1e-4);
    }
}

#[test]
fn test_conjugate_symmetry() {
    let input = [0.9, -0.3, 0.45, 0.2, -0.8, 0.15, 0.6, -0.05];
    let n = input.len();
    let channel = real_channel(&input);
    let tw = twiddle_table(n);
    let output = fft(&channel, &tw).unwrap();
    for k in 0..n {
        let mirror = output[(n - k) % n];
        assert_eq!(output[k].real, mirror.real);
        assert_eq!(output[k].imaginary, -mirror.imaginary);
    }
}

#[test]
fn test_linearity() {
    // FFT(a*x + b*y) ~= a*FFT(x) + b*FFT(y) for real scalars a and b.
    let a = 2.0;
    let b = -3.0;
    let x = [0.1, -0.2, 0.3, 0.05, -0.15, 0.25, -0.1, 0.2];
    let y = [-0.3, 0.1, 0.05, -0.25, 0.2, -0.05, 0.15, -0.1];
    let combined: Vec<f64> = (0..8).map(|i| a * x[i] + b * y[i]).collect();
    let tw = twiddle_table(8);
    let fc = fft(&real_channel(&combined), &tw).unwrap();
    let fxs = fft(&real_channel(&x), &tw).unwrap();
    let fys = fft(&real_channel(&y), &tw).unwrap();
    for k in 0..8 {
        assert_close(
            fl(fc[k].real),
            a * fl(fxs[k].real) + b * fl(fys[k].real),
            1e-4,
        );
        assert_close(
            fl(fc[k].imaginary),
            a * fl(fxs[k].imaginary) + b * fl(fys[k].imaginary),
            1e-4,
        );
    }
}

#[test]
fn test_padding_idempotent() {
    let already = vec![5, -3, 7, 9, 0, 2, -8, 1];
    let padded = pad_zeros_power_of_2(&already);
    assert_eq!(padded, already);

    let short = vec![5, -3, 7, 9, 2];
    let padded = pad_zeros_power_of_2(&short);
    assert_eq!(padded, vec![5, -3, 7, 9, 2, 0, 0, 0]);
}

#[test]
fn test_clip_all() {
    // With clip threshold 0 and shift 0, every rebuilt bin except the DC
    // bin and its two neighbours is zero.
    let input = [0.4, -0.6, 0.3, 0.8, -0.2, 0.1, -0.5, 0.7];
    let tw = twiddle_table(8);
    let freqs = fft(&real_channel(&input), &tw).unwrap();
    let pos = extract_positive_half(&freqs);
    let clipped = clip_bins(&pos, 0);
    for (i, bin) in clipped.iter().enumerate() {
        if i > 0 {
            assert_eq!(bin.real, 0);
            assert_eq!(bin.imaginary, 0);
        } else {
            assert_eq!(*bin, pos[0]);
        }
    }
    let shifted = shift_bins(&clipped, 0);
    let rebuilt = rebuild_spectrum(freqs[0], &shifted);
    assert_eq!(rebuilt.len(), 8);
    for k in 2..=6 {
        assert_eq!(rebuilt[k].real, 0);
        assert_eq!(rebuilt[k].imaginary, 0);
    }
    assert_eq!(rebuilt[0], freqs[0]);
}

#[test]
fn test_identity_edit() {
    // Clip threshold at least T/2 and shift 0: the edit changes nothing,
    // so the pipeline equals the plain inverse of the forward transform,
    // bit for bit.
    let input = [0.35, -0.45, 0.15, 0.65, -0.55, 0.05, -0.25, 0.95];
    let samples: Vec<i64> = input.iter().map(|v| fx(*v)).collect();
    let tw = twiddle_table(8);
    let config = EditConfig { clip_threshold: 4, shift_bins: 0 };
    let edited = edit_channel(&samples, &tw, &config).unwrap();

    let freqs = fft(&samples_to_complex(&samples), &tw).unwrap();
    let plain = ifft(&freqs, &tw).unwrap();
    assert_eq!(edited, plain);
    for i in 0..8 {
        assert_close(fl(edited[i]), input[i], 1e-4);
    }
}

#[test]
fn test_shift_bound() {
    // A shift of at least the half's length pushes every bin out.
    let bins: Vec<ComplexNumber> = (1..=4).map(|v| ComplexNumber::from_real(v * SCALE)).collect();
    for shift in [4usize, 5, 100] {
        let shifted = shift_bins(&bins, shift);
        assert_eq!(shifted.len(), 4);
        for bin in &shifted {
            assert_eq!(bin.real, 0);
            assert_eq!(bin.imaginary, 0);
        }
    }
    // One below the bound, a single bin survives.
    let shifted = shift_bins(&bins, 3);
    assert!(shifted.iter().any(|b| b.real != 0));
}

#[test]
fn test_empty_channel_refused() {
    let tw = twiddle_table(8);
    let config = EditConfig::default();
    let samples: Vec<i64> = vec![];
    assert_eq!(
        edit_channel(&samples, &tw, &config),
        Err(SpectrumError::PreconditionViolation)
    );
}

#[test]
fn test_non_power_of_two_refused() {
    let tw = twiddle_table(8);
    let bad = vec![ComplexNumber::zero(); 3];
    assert_eq!(fft(&bad, &tw), Err(SpectrumError::PreconditionViolation));
    assert_eq!(ifft(&bad, &tw), Err(SpectrumError::PreconditionViolation));
    let empty: Vec<ComplexNumber> = vec![];
    assert_eq!(fft(&empty, &tw), Err(SpectrumError::PreconditionViolation));
}

#[test]
fn test_single_sample_channel() {
    // Length 1 pads to length 1; the pipeline is the identity there.
    let samples = vec![fx(0.5)];
    let tw: Vec<ComplexNumber> = vec![];
    let config = EditConfig::default();
    let edited = edit_channel(&samples, &tw, &config).unwrap();
    assert_eq!(edited, samples);
}

#[test]
fn test_complex_operations() {
    // (1 + 2i) * (3 + 4i) == -5 + 10i, exactly on the fixed-point grid.
    let a = ComplexNumber { real: SCALE, imaginary: 2 * SCALE };
    let b = ComplexNumber { real: 3 * SCALE, imaginary: 4 * SCALE };
    let p = a.mul(&b);
    assert_eq!(p.real, -5 * SCALE);
    assert_eq!(p.imaginary, 10 * SCALE);

    let s = a.add(&b);
    assert_eq!(s.real, 4 * SCALE);
    assert_eq!(s.imaginary, 6 * SCALE);

    let d = a.sub(&b);
    assert_eq!(d.real, -2 * SCALE);
    assert_eq!(d.imaginary, -2 * SCALE);

    let c = b.conjugate();
    assert_eq!(c.real, 3 * SCALE);
    assert_eq!(c.imaginary, -4 * SCALE);

    let r = ComplexNumber::from_real(7);
    assert_eq!(r.real, 7);
    assert_eq!(r.imaginary, 0);

    let z = ComplexNumber::zero();
    assert_eq!(z.real, 0);
    assert_eq!(z.imaginary, 0);

    // Scaling by one is the identity, scaling by zero annihilates.
    assert_eq!(a.mul_scalar(SCALE), a);
    assert_eq!(a.mul_scalar(0), z);

    // |3 + 4i|^2 == 25, in squared fixed-point units.
    let m = ComplexNumber { real: 3 * SCALE, imaginary: 4 * SCALE }.magnitude_sq();
    assert_eq!(m, 25 * (SCALE as i128) * (SCALE as i128));

    // |3 + 4i| == 5, exactly on the fixed-point grid.
    let m = ComplexNumber { real: 3 * SCALE, imaginary: 4 * SCALE }.magnitude();
    assert_eq!(m, 5 * SCALE);
    // |1 + i| == sqrt(2), rounded down.
    let m = ComplexNumber { real: SCALE, imaginary: SCALE }.magnitude();
    assert_eq!(m, ((SCALE as f64) * 2.0f64.sqrt()).floor() as i64);
}

#[test]
fn test_negation_commutes() {
    // FFT(-x) == -FFT(x), bit for bit: the exactly preserved instance of
    // linearity.
    let input = [0.7, -0.2, 0.5, -0.9, 0.3, 0.1, -0.6, 0.4];
    let negated: Vec<f64> = input.iter().map(|v| -v).collect();
    let tw = twiddle_table(8);
    let fx_pos = fft(&real_channel(&input), &tw).unwrap();
    let fx_neg = fft(&real_channel(&negated), &tw).unwrap();
    for k in 0..8 {
        assert_eq!(fx_neg[k].real, -fx_pos[k].real);
        assert_eq!(fx_neg[k].imaginary, -fx_pos[k].imaginary);
    }
}

#[test]
fn test_is_power_of_two() {
    assert!(is_power_of_two(1));
    assert!(is_power_of_two(2));
    assert!(is_power_of_two(64));
    assert!(!is_power_of_two(0));
    assert!(!is_power_of_two(3));
    assert!(!is_power_of_two(96));
}

#[test]
fn test_default_config() {
    let config = EditConfig::default();
    assert_eq!(config.clip_threshold, 90000);
    assert_eq!(config.shift_bins, 25000);
}

#[test]
fn test_rebuild_spectrum_layout() {
    let dc = ComplexNumber::from_real(9 * SCALE);
    let half = vec![
        ComplexNumber { real: SCALE, imaginary: 2 * SCALE },
        ComplexNumber { real: 3 * SCALE, imaginary: 4 * SCALE },
    ];
    let rebuilt = rebuild_spectrum(dc, &half);
    assert_eq!(rebuilt.len(), 4);
    assert_eq!(rebuilt[0], dc);
    assert_eq!(rebuilt[1], half[1].conjugate());
    assert_eq!(rebuilt[2], half[0]);
    assert_eq!(rebuilt[3], half[1]);
}

#[test]
fn test_extract_positive_half_layout() {
    let freqs: Vec<ComplexNumber> = (0..8).map(|v| ComplexNumber::from_real(v)).collect();
    let pos = extract_positive_half(&freqs);
    assert_eq!(pos.len(), 4);
    for i in 0..4 {
        assert_eq!(pos[i], freqs[7 - i]);
    }
}
