//! Inverse transform via the conjugation trick: conjugate the spectrum,
//! run the forward FFT, conjugate again, and divide by the length. Only
//! the real components are returned — the signal is assumed real-valued,
//! so any residual imaginary part is numerical error and is dropped.

use vstd::prelude::*;

use crate::complex::{cconj, tdiv, vseq, ComplexNumber, Cpx, SCALE, lemma_tdiv_bounds};
use crate::fft::{
    coeff_limit, fft_budget, in_bounds, is_pow2, is_power_of_two, fft, lg, pow3, spec_fft,
    lemma_pow3_pos, SpectrumError,
};

verus! {

/// Every element conjugated.
pub open spec fn conj_seq(s: Seq<Cpx>) -> Seq<Cpx> {
    s.map_values(|c: Cpx| cconj(c))
}

/// A sequence of machine integers as mathematical integers.
pub open spec fn iseq(s: Seq<i64>) -> Seq<int> {
    s.map_values(|x: i64| x as int)
}

/// The inverse transform: `conj(FFT(conj(s))) / len`, real components only.
pub open spec fn spec_ifft(s: Seq<Cpx>, tw: Seq<Cpx>) -> Seq<int> {
    let f = spec_fft(conj_seq(s), tw, 1);
    Seq::new(s.len(), |i: int| tdiv(cconj(f[i]).real, s.len() as int))
}

/// Truncating division of a component by the transform length.
fn scale_down(x: i64, n: usize) -> (r: i64)
    requires
        1 <= n <= i64::MAX,
    ensures
        r as int == tdiv(x as int, n as int),
{
    proof {
        assert((i64::MIN as int) * (n as int) <= x as int <= (i64::MAX as int) * (n as int))
            by (nonlinear_arith)
            requires
                n >= 1,
                i64::MIN as int <= x as int <= i64::MAX as int;
        lemma_tdiv_bounds(x as int, n as int, i64::MIN as int, i64::MAX as int);
    }
    match x.checked_div(n as i64) {
        Some(q) => q,
        None => {
            proof {
                assert(false);
            }
            0
        },
    }
}

/// The reconstructed time-domain samples of a frequency-domain sequence,
/// as `spec_ifft` describes. Refused when the length is zero or not a
/// power of two.
pub fn ifft(frequencies: &Vec<ComplexNumber>, twiddles: &Vec<ComplexNumber>) -> (r: Result<
    Vec<i64>,
    SpectrumError,
>)
    requires
        frequencies.len() >= 2 ==> frequencies.len() == 2 * twiddles.len(),
        frequencies.len() <= i64::MAX,
        in_bounds(vseq(twiddles@), SCALE as int),
        in_bounds(vseq(frequencies@), fft_budget(frequencies.len() as nat)),
    ensures
        match r {
            Ok(v) => is_pow2(frequencies.len() as nat) && v.len() == frequencies.len() && iseq(v@)
                == spec_ifft(vseq(frequencies@), vseq(twiddles@)),
            Err(e) => !is_pow2(frequencies.len() as nat) && e
                == SpectrumError::PreconditionViolation,
        },
{
    let n = frequencies.len();
    if !is_power_of_two(n) {
        return Err(SpectrumError::PreconditionViolation);
    }
    proof {
        lemma_pow3_pos(lg(n as nat));
        vstd::arithmetic::div_mod::lemma_div_pos_is_pos(coeff_limit(), pow3(lg(n as nat)));
        vstd::arithmetic::div_mod::lemma_div_nonincreasing(coeff_limit(), pow3(lg(n as nat)));
    }
    let mut conj: Vec<ComplexNumber> = Vec::new();
    let mut i: usize = 0;
    while i < n
        invariant
            i <= n,
            n == frequencies.len(),
            conj.len() == i,
            in_bounds(vseq(frequencies@), fft_budget(n as nat)),
            0 <= fft_budget(n as nat) <= coeff_limit(),
            forall|j: int| 0 <= j < i ==> conj@[j]@ == cconj(frequencies@[j]@),
        decreases n - i,
    {
        proof {
            assert(vseq(frequencies@)[i as int] == frequencies@[i as int]@);
            assert(-coeff_limit() <= vseq(frequencies@)[i as int].imaginary <= coeff_limit());
        }
        conj.push(frequencies[i].conjugate());
        i += 1;
    }
    proof {
        assert(vseq(conj@) =~= conj_seq(vseq(frequencies@)));
        assert(in_bounds(vseq(conj@), fft_budget(n as nat)));
    }
    let f = match fft(&conj, twiddles) {
        Ok(f) => f,
        Err(e) => {
            proof {
                assert(false);
            }
            return Err(e);
        },
    };
    let mut out: Vec<i64> = Vec::new();
    let mut i: usize = 0;
    while i < n
        invariant
            i <= n,
            1 <= n <= i64::MAX,
            f.len() == n,
            out.len() == i,
            forall|j: int| 0 <= j < i ==> out@[j] as int == tdiv(f@[j]@.real, n as int),
        decreases n - i,
    {
        out.push(scale_down(f[i].real, n));
        i += 1;
    }
    proof {
        assert(iseq(out@) =~= spec_ifft(vseq(frequencies@), vseq(twiddles@)));
    }
    Ok(out)
}

} // verus!
