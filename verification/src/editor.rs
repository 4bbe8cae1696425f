//! The spectrum editor: pads one channel's samples to a power-of-two
//! length, transforms them, edits the positive-frequency half of the
//! spectrum (clipping bins past a threshold and shifting the rest toward
//! the Nyquist bin), rebuilds a full Hermitian-symmetric spectrum from the
//! edited half, and reconstructs time-domain samples from it.

use vstd::prelude::*;

use crate::complex::{cconj, czero, vseq, ComplexNumber, Cpx, SCALE, lemma_tdiv_exact};
use crate::fft::{
    coeff_limit, fft_budget, fft_rec, hermitian, in_bounds, is_pow2, lg, pow3, real_valued,
    spec_fft, twiddle_symmetric, lemma_fft_real_hermitian, lemma_pow3_pos, SpectrumError,
};
use crate::ifft::{ifft, iseq, spec_ifft};

verus! {

/// Editing parameters: bins of the positive-frequency half farther than
/// `clip_threshold` from the Nyquist bin are zeroed, and the surviving
/// half is shifted by `shift_bins` positions toward the Nyquist end.
#[derive(Clone, Copy, PartialEq, Eq, Structural, Debug)]
pub struct EditConfig {
    pub clip_threshold: usize,
    pub shift_bins: usize,
}

impl Default for EditConfig {
    /// The stock tuning: clip beyond bin 90000, shift by 25000 bins.
    fn default() -> (r: Self)
        ensures
            r.clip_threshold == 90000,
            r.shift_bins == 25000,
    {
        EditConfig { clip_threshold: 90000, shift_bins: 25000 }
    }
}

/// The smallest power of two that is at least `l` (and at least 1).
pub open spec fn next_pow2(l: nat) -> nat
    decreases l,
{
    if l <= 1 {
        1
    } else {
        2 * next_pow2(((l + 1) / 2) as nat)
    }
}

/// `s` extended with zeros to length `n`.
pub open spec fn pad_spec(s: Seq<i64>, n: nat) -> Seq<i64> {
    Seq::new(n, |i: int| if i < s.len() { s[i] } else { 0i64 })
}

/// Real samples as complex values with no imaginary part.
pub open spec fn real_seq(s: Seq<i64>) -> Seq<Cpx> {
    Seq::new(s.len(), |i: int| Cpx { real: s[i] as int, imaginary: 0 })
}

/// The positive-frequency half of a spectrum: the upper half reversed, so
/// index 0 is the bin nearest the end of the spectrum.
pub open spec fn spec_positive(f: Seq<Cpx>) -> Seq<Cpx> {
    Seq::new((f.len() / 2) as nat, |i: int| f[f.len() - 1 - i])
}

/// Bins past the threshold zeroed, the rest passed through unchanged.
pub open spec fn spec_clip(s: Seq<Cpx>, threshold: int) -> Seq<Cpx> {
    Seq::new(s.len(), |i: int| if i > threshold { czero() } else { s[i] })
}

/// The result of prepending `k` zero bins, truncating back to the original
/// length, and reversing: position `i` of the result holds what position
/// `len - 1 - i` of the truncated sequence held.
pub open spec fn spec_shift(s: Seq<Cpx>, k: int) -> Seq<Cpx> {
    Seq::new(
        s.len(),
        |i: int|
            if s.len() - 1 - i < k {
                czero()
            } else {
                s[s.len() - 1 - i - k]
            },
    )
}

/// A full spectrum of twice the half's length: the original DC bin, the
/// conjugated mirror of the half, then the half itself.
pub open spec fn spec_rebuild(dc: Cpx, of: Seq<Cpx>) -> Seq<Cpx> {
    Seq::new(
        2 * of.len(),
        |k: int|
            if k == 0 {
                dc
            } else if k < of.len() {
                cconj(of[of.len() - k])
            } else {
                of[k - of.len()]
            },
    )
}

/// All elements lie in `[-b, b]`.
pub open spec fn bounded_i64(s: Seq<i64>, b: int) -> bool {
    forall|i: int| 0 <= i < s.len() ==> -b <= #[trigger] s[i] <= b
}

/// The largest sample magnitude a channel of padded length `n` may have:
/// the transform runs twice (forward, then inverse), so the growth budget
/// is spent twice.
pub open spec fn sample_budget(n: nat) -> int {
    fft_budget(n) / pow3(lg(n))
}

/// The whole per-channel pipeline on a non-empty channel: pad, transform,
/// take the positive half, clip, shift, rebuild, reconstruct.
pub open spec fn spec_edit_channel(x: Seq<i64>, tw: Seq<Cpx>, clip: int, shift: int) -> Seq<int> {
    let t = next_pow2(x.len());
    let f = spec_fft(real_seq(pad_spec(x, t)), tw, 1);
    if t == 1 {
        spec_ifft(f, tw)
    } else {
        let of = spec_shift(spec_clip(spec_positive(f), clip), shift);
        spec_ifft(spec_rebuild(f[0], of), tw)
    }
}

/// Two powers of two are never less than a factor of two apart.
proof fn lemma_pow2_ordering(a: nat, b: nat)
    requires
        is_pow2(a),
        is_pow2(b),
        a < b,
    ensures
        2 * a <= b,
    decreases a,
{
    if a == 1 {
        assert(b % 2 == 0);
    } else {
        lemma_pow2_ordering(a / 2, b / 2);
    }
}

/// The characterising facts of `next_pow2`.
proof fn lemma_next_pow2(l: nat)
    requires
        l >= 1,
    ensures
        is_pow2(next_pow2(l)),
        l <= next_pow2(l),
        next_pow2(l) < 2 * l,
        is_pow2(l) ==> next_pow2(l) == l,
    decreases l,
{
    if l > 1 {
        lemma_next_pow2(((l + 1) / 2) as nat);
    }
}

/// Pads the channel with zero samples up to the next power-of-two length.
/// A channel whose length is already a power of two comes back unchanged.
pub fn pad_zeros_power_of_2(samples: &Vec<i64>) -> (r: Vec<i64>)
    requires
        1 <= samples.len() <= usize::MAX / 2,
    ensures
        r.len() == next_pow2(samples.len() as nat),
        r@ == pad_spec(samples@, next_pow2(samples.len() as nat)),
        is_pow2(r.len() as nat),
        is_pow2(samples.len() as nat) ==> r@ == samples@,
{
    let l = samples.len();
    proof {
        lemma_next_pow2(l as nat);
    }
    let mut t: usize = 1;
    while t < l
        invariant
            1 <= t,
            t <= 2 * l,
            l <= usize::MAX / 2,
            is_pow2(t as nat),
            t <= next_pow2(l as nat),
        decreases 2 * l - t,
    {
        proof {
            if 2 * t > next_pow2(l as nat) {
                lemma_next_pow2(l as nat);
                if next_pow2(l as nat) < 2 * t {
                    lemma_pow2_ordering(next_pow2(l as nat) as nat, (2 * t) as nat);
                    assert(2 * next_pow2(l as nat) <= 2 * t);
                    assert(next_pow2(l as nat) <= t);
                    assert(l <= t);
                    assert(false);
                }
            }
        }
        t = 2 * t;
    }
    proof {
        lemma_next_pow2(l as nat);
        if t > next_pow2(l as nat) {
            lemma_pow2_ordering(next_pow2(l as nat) as nat, t as nat);
            assert(2 * next_pow2(l as nat) <= t);
            assert(false);
        }
        if t < next_pow2(l as nat) {
            lemma_pow2_ordering(t as nat, next_pow2(l as nat) as nat);
            assert(2 * t <= next_pow2(l as nat));
            assert(next_pow2(l as nat) < 2 * l);
            assert(t < l);
            assert(false);
        }
        assert(t == next_pow2(l as nat));
    }
    let mut out: Vec<i64> = Vec::new();
    let mut i: usize = 0;
    while i < l
        invariant
            i <= l,
            l == samples.len(),
            out.len() == i,
            forall|j: int| 0 <= j < i ==> out@[j] == samples@[j],
        decreases l - i,
    {
        out.push(samples[i]);
        i += 1;
    }
    while out.len() < t
        invariant
            l <= out.len() <= t,
            l == samples.len(),
            forall|j: int| 0 <= j < l ==> out@[j] == samples@[j],
            forall|j: int| l <= j < out.len() ==> out@[j] == 0i64,
        decreases t - out.len(),
    {
        out.push(0i64);
    }
    proof {
        assert(out@ =~= pad_spec(samples@, next_pow2(samples.len() as nat)));
        if is_pow2(samples.len() as nat) {
            assert(out@ =~= samples@);
        }
    }
    out
}

/// Real samples lifted to complex values with zero imaginary part.
pub fn samples_to_complex(samples: &Vec<i64>) -> (r: Vec<ComplexNumber>)
    ensures
        r.len() == samples.len(),
        vseq(r@) == real_seq(samples@),
{
    let mut out: Vec<ComplexNumber> = Vec::new();
    let mut i: usize = 0;
    while i < samples.len()
        invariant
            i <= samples.len(),
            out.len() == i,
            forall|j: int|
                0 <= j < i ==> (#[trigger] out@[j]).real == samples@[j] && out@[j].imaginary
                    == 0i64,
        decreases samples.len() - i,
    {
        out.push(ComplexNumber::from_real(samples[i]));
        i += 1;
    }
    proof {
        assert(vseq(out@) =~= real_seq(samples@));
    }
    out
}

/// The upper half of the spectrum, reversed, so that index 0 holds the
/// last bin and higher indices walk down toward the Nyquist bin.
pub fn extract_positive_half(frequencies: &Vec<ComplexNumber>) -> (r: Vec<ComplexNumber>)
    requires
        frequencies.len() >= 2,
        frequencies.len() % 2 == 0,
    ensures
        r.len() == frequencies.len() / 2,
        vseq(r@) == spec_positive(vseq(frequencies@)),
{
    let n = frequencies.len();
    let h = n / 2;
    let mut out: Vec<ComplexNumber> = Vec::new();
    let mut i: usize = 0;
    while i < h
        invariant
            i <= h,
            h == n / 2,
            n == frequencies.len(),
            n >= 2,
            out.len() == i,
            forall|j: int| 0 <= j < i ==> out@[j] == frequencies@[n - 1 - j],
        decreases h - i,
    {
        out.push(frequencies[n - 1 - i]);
        i += 1;
    }
    proof {
        assert(vseq(out@) =~= spec_positive(vseq(frequencies@)));
    }
    out
}

/// The per-bin edit hook: a bin farther than `clip_threshold` from the
/// front of the half is scaled by zero, any other by one.
pub fn clip_bins(bins: &Vec<ComplexNumber>, clip_threshold: usize) -> (r: Vec<ComplexNumber>)
    ensures
        r.len() == bins.len(),
        vseq(r@) == spec_clip(vseq(bins@), clip_threshold as int),
{
    let mut out: Vec<ComplexNumber> = Vec::new();
    let mut i: usize = 0;
    while i < bins.len()
        invariant
            i <= bins.len(),
            out.len() == i,
            forall|j: int|
                0 <= j < i ==> out@[j]@ == (if j > clip_threshold as int {
                    czero()
                } else {
                    bins@[j]@
                }),
        decreases bins.len() - i,
    {
        let b = bins[i];
        if i > clip_threshold {
            let z = b.mul_scalar(0);
            proof {
                assert(z@ == czero());
            }
            out.push(z);
        } else {
            proof {
                let s = SCALE as int;
                assert((i64::MIN as int) * s <= b.real * s <= (i64::MAX as int) * s
                    && (i64::MIN as int) * s <= b.imaginary * s <= (i64::MAX as int) * s)
                    by (nonlinear_arith)
                    requires
                        s > 0,
                        i64::MIN as int <= b.real <= i64::MAX as int,
                        i64::MIN as int <= b.imaginary <= i64::MAX as int;
            }
            let kept = b.mul_scalar(SCALE);
            proof {
                lemma_tdiv_exact(b.real as int, SCALE as int);
                lemma_tdiv_exact(b.imaginary as int, SCALE as int);
                assert(kept@ == b@);
            }
            out.push(kept);
        }
        i += 1;
    }
    proof {
        assert(vseq(out@) =~= spec_clip(vseq(bins@), clip_threshold as int));
    }
    out
}

/// Prepends `shift` zero bins, truncates back to the original length and
/// reverses, all fused into one pass: position `i` of the result is bin
/// `len - 1 - i` of the truncated prefix.
pub fn shift_bins(bins: &Vec<ComplexNumber>, shift: usize) -> (r: Vec<ComplexNumber>)
    ensures
        r.len() == bins.len(),
        vseq(r@) == spec_shift(vseq(bins@), shift as int),
{
    let n = bins.len();
    let mut out: Vec<ComplexNumber> = Vec::new();
    let mut i: usize = 0;
    while i < n
        invariant
            i <= n,
            n == bins.len(),
            out.len() == i,
            forall|j: int|
                0 <= j < i ==> out@[j]@ == (if n - 1 - j < shift as int {
                    czero()
                } else {
                    bins@[n - 1 - j - shift]@
                }),
        decreases n - i,
    {
        let src = n - 1 - i;
        if src < shift {
            out.push(ComplexNumber::zero());
        } else {
            out.push(bins[src - shift]);
        }
        i += 1;
    }
    proof {
        assert(vseq(out@) =~= spec_shift(vseq(bins@), shift as int));
    }
    out
}

/// A full spectrum from the original DC bin and the edited half: bin 0 is
/// the DC bin, bins `1 .. half` mirror the half with conjugation, bins
/// `half .. 2 * half` are the half itself.
pub fn rebuild_spectrum(dc: ComplexNumber, half: &Vec<ComplexNumber>) -> (r: Vec<ComplexNumber>)
    requires
        1 <= half.len() <= usize::MAX / 2,
        forall|i: int| 0 <= i < half.len() ==> (#[trigger] half@[i]).imaginary > i64::MIN,
    ensures
        r.len() == 2 * half.len(),
        vseq(r@) == spec_rebuild(dc@, vseq(half@)),
{
    let h = half.len();
    let mut out: Vec<ComplexNumber> = Vec::new();
    out.push(dc);
    let mut k: usize = 1;
    while k < h
        invariant
            1 <= k <= h,
            h == half.len(),
            out.len() == k,
            out@[0] == dc,
            forall|j: int| 1 <= j < k ==> out@[j]@ == cconj(half@[h - j]@),
            forall|i: int| 0 <= i < half.len() ==> (#[trigger] half@[i]).imaginary > i64::MIN,
        decreases h - k,
    {
        out.push(half[h - k].conjugate());
        k += 1;
    }
    let mut j: usize = 0;
    while j < h
        invariant
            0 <= j <= h,
            h == half.len(),
            out.len() == h + j,
            out@[0] == dc,
            forall|m: int| 1 <= m < h ==> out@[m]@ == cconj(half@[h - m]@),
            forall|m: int| 0 <= m < j ==> out@[h + m] == half@[m],
        decreases h - j,
    {
        out.push(half[j]);
        j += 1;
    }
    proof {
        assert(vseq(out@) =~= spec_rebuild(dc@, vseq(half@)));
    }
    out
}

/// How the growth budgets nest: a channel bounded by `sample_budget(n)`
/// stays under `fft_budget(n)` after one transform, and under
/// `coeff_limit` after the second.
proof fn lemma_budget_chain(n: nat)
    ensures
        0 <= fft_budget(n) <= coeff_limit(),
        0 <= sample_budget(n) <= fft_budget(n),
        pow3(lg(n)) * sample_budget(n) <= fft_budget(n),
        pow3(lg(n)) * fft_budget(n) <= coeff_limit(),
{
    let p = pow3(lg(n));
    let c = coeff_limit();
    lemma_pow3_pos(lg(n));
    vstd::arithmetic::div_mod::lemma_div_pos_is_pos(c, p);
    vstd::arithmetic::div_mod::lemma_div_nonincreasing(c, p);
    vstd::arithmetic::div_mod::lemma_fundamental_div_mod(c, p);
    vstd::arithmetic::div_mod::lemma_mod_division_less_than_divisor(c, p);
    let q = c / p;
    vstd::arithmetic::div_mod::lemma_div_pos_is_pos(q, p);
    vstd::arithmetic::div_mod::lemma_div_nonincreasing(q, p);
    vstd::arithmetic::div_mod::lemma_fundamental_div_mod(q, p);
    vstd::arithmetic::div_mod::lemma_mod_division_less_than_divisor(q, p);
}

/// The per-channel pipeline: pad to a power-of-two length, transform,
/// clip and shift the positive-frequency half, rebuild a full spectrum
/// with conjugate symmetry, and reconstruct time-domain samples. An empty
/// channel is refused; any other channel within the sample budget is
/// edited, to the result `spec_edit_channel` describes.
pub fn edit_channel(samples: &Vec<i64>, twiddles: &Vec<ComplexNumber>, config: &EditConfig) -> (r:
    Result<Vec<i64>, SpectrumError>)
    requires
        samples.len() <= usize::MAX / 2,
        samples.len() <= 0x1000_0000_0000_0000,
        samples.len() >= 2 ==> 2 * twiddles.len() == next_pow2(samples.len() as nat),
        in_bounds(vseq(twiddles@), SCALE as int),
        bounded_i64(samples@, sample_budget(next_pow2(samples.len() as nat))),
    ensures
        match r {
            Ok(v) => samples.len() >= 1 && v.len() == next_pow2(samples.len() as nat) && iseq(v@)
                == spec_edit_channel(
                samples@,
                vseq(twiddles@),
                config.clip_threshold as int,
                config.shift_bins as int,
            ),
            Err(e) => samples.len() == 0 && e == SpectrumError::PreconditionViolation,
        },
{
    if samples.len() == 0 {
        return Err(SpectrumError::PreconditionViolation);
    }
    let padded = pad_zeros_power_of_2(samples);
    let t = padded.len();
    proof {
        lemma_next_pow2(samples.len() as nat);
        lemma_budget_chain(t as nat);
        lemma_pow3_pos(lg(t as nat));
        assert forall|i: int|
            0 <= i < real_seq(padded@).len() implies -sample_budget(t as nat) <= (#[trigger] real_seq(
            padded@,
        )[i]).real <= sample_budget(t as nat) && -sample_budget(t as nat) <= real_seq(
            padded@,
        )[i].imaginary <= sample_budget(t as nat) by {
            if i < samples.len() {
                assert(-sample_budget(t as nat) <= samples@[i] <= sample_budget(t as nat));
            }
        }
        assert(in_bounds(real_seq(padded@), sample_budget(t as nat)));
    }
    let cx = samples_to_complex(&padded);
    let freqs = fft_rec(&cx, twiddles, 1, Ghost(sample_budget(t as nat)));
    let ghost f = spec_fft(
        real_seq(pad_spec(samples@, next_pow2(samples.len() as nat))),
        vseq(twiddles@),
        1,
    );
    let ghost bf = pow3(lg(t as nat)) * sample_budget(t as nat);
    proof {
        assert(vseq(freqs@) == f);
        assert(in_bounds(vseq(freqs@), bf));
        assert(bf <= fft_budget(t as nat));
        assert(0 <= bf) by (nonlinear_arith)
            requires
                bf == pow3(lg(t as nat)) * sample_budget(t as nat),
                pow3(lg(t as nat)) >= 1,
                sample_budget(t as nat) >= 0;
    }
    let rebuilt: Vec<ComplexNumber>;
    if t == 1 {
        let mut rv: Vec<ComplexNumber> = Vec::new();
        rv.push(freqs[0]);
        rebuilt = rv;
        proof {
            assert(vseq(rebuilt@) =~= f);
            assert(in_bounds(vseq(rebuilt@), bf));
        }
    } else {
        proof {
            assert(t % 2 == 0 && is_pow2((t / 2) as nat));
        }
        let pos = extract_positive_half(&freqs);
        let ed = clip_bins(&pos, config.clip_threshold);
        let of = shift_bins(&ed, config.shift_bins);
        proof {
            assert forall|i: int|
                0 <= i < vseq(pos@).len() implies -bf <= (#[trigger] vseq(pos@)[i]).real <= bf
                && -bf <= vseq(pos@)[i].imaginary <= bf by {
                assert(vseq(pos@)[i] == vseq(freqs@)[t - 1 - i]);
            }
            assert(in_bounds(vseq(pos@), bf));
            assert forall|i: int|
                0 <= i < vseq(ed@).len() implies -bf <= (#[trigger] vseq(ed@)[i]).real <= bf
                && -bf <= vseq(ed@)[i].imaginary <= bf by {
                if i <= config.clip_threshold as int {
                    assert(vseq(ed@)[i] == vseq(pos@)[i]);
                }
            }
            assert(in_bounds(vseq(ed@), bf));
            assert forall|i: int|
                0 <= i < vseq(of@).len() implies -bf <= (#[trigger] vseq(of@)[i]).real <= bf
                && -bf <= vseq(of@)[i].imaginary <= bf by {
                let m = vseq(of@).len() - 1 - i;
                if m >= config.shift_bins as int {
                    assert(vseq(of@)[i] == vseq(ed@)[m - config.shift_bins]);
                }
            }
            assert(in_bounds(vseq(of@), bf));
            assert forall|i: int|
                0 <= i < of.len() implies (#[trigger] of@[i]).imaginary > i64::MIN by {
                assert(vseq(of@)[i] == of@[i]@);
            }
        }
        rebuilt = rebuild_spectrum(freqs[0], &of);
        proof {
            assert(vseq(rebuilt@) == spec_rebuild(
                f[0],
                spec_shift(
                    spec_clip(spec_positive(f), config.clip_threshold as int),
                    config.shift_bins as int,
                ),
            ));
            assert forall|i: int|
                0 <= i < vseq(rebuilt@).len() implies -bf <= (#[trigger] vseq(rebuilt@)[i]).real
                <= bf && -bf <= vseq(rebuilt@)[i].imaginary <= bf by {
                let half = vseq(of@);
                if i == 0 {
                    assert(vseq(rebuilt@)[i] == vseq(freqs@)[0]);
                } else if i < half.len() {
                    assert(vseq(rebuilt@)[i] == cconj(half[half.len() - i]));
                } else {
                    assert(vseq(rebuilt@)[i] == half[i - half.len()]);
                }
            }
            assert(in_bounds(vseq(rebuilt@), bf));
        }
    }
    proof {
        assert(in_bounds(vseq(rebuilt@), fft_budget(t as nat)));
        assert(rebuilt.len() == t);
    }
    let out = match ifft(&rebuilt, twiddles) {
        Ok(v) => v,
        Err(e) => {
            proof {
                assert(false);
            }
            return Err(e);
        },
    };
    proof {
        assert(iseq(out@) == spec_edit_channel(
            samples@,
            vseq(twiddles@),
            config.clip_threshold as int,
            config.shift_bins as int,
        ));
    }
    Ok(out)
}

/// Shifting by at least the half's length pushes every original bin out:
/// the edited half is entirely zero, whatever the clipping did.
pub proof fn lemma_shift_discards_all(s: Seq<Cpx>, k: int)
    requires
        k >= s.len(),
    ensures
        forall|i: int| 0 <= i < s.len() ==> #[trigger] spec_shift(s, k)[i] == czero(),
{
}

/// With clip threshold zero and no shift, every rebuilt bin is zero except
/// the DC bin and its two neighbours (indices 1 and `len - 1`), which keep
/// the DC energy and the one surviving edited bin.
pub proof fn lemma_clip_all_zeroes_interior(f: Seq<Cpx>)
    requires
        f.len() >= 4,
        f.len() % 2 == 0,
    ensures
        forall|m: int|
            2 <= m <= f.len() - 2 ==> #[trigger] spec_rebuild(
                f[0],
                spec_shift(spec_clip(spec_positive(f), 0), 0),
            )[m] == czero(),
{
    let h = f.len() / 2;
    let of = spec_shift(spec_clip(spec_positive(f), 0), 0);
    assert forall|m: int|
        2 <= m <= f.len() - 2 implies #[trigger] spec_rebuild(f[0], of)[m] == czero() by {
        assert(of.len() == h);
        if m < h {
            assert(spec_rebuild(f[0], of)[m] == cconj(of[h - m]));
            assert(of[h - m] == spec_clip(spec_positive(f), 0)[h - 1 - (h - m)]);
            assert(of[h - m] == czero());
        } else {
            assert(spec_rebuild(f[0], of)[m] == of[m - h]);
            assert(of[m - h] == spec_clip(spec_positive(f), 0)[h - 1 - (m - h)]);
            assert(of[m - h] == czero());
        }
    }
}

/// With a clip threshold of at least half the spectrum length and no
/// shift, the edit changes nothing: rebuilding from the untouched half of
/// a conjugate-symmetric spectrum reproduces that spectrum bin for bin.
pub proof fn lemma_identity_edit(f: Seq<Cpx>, clip: int)
    requires
        f.len() >= 2,
        f.len() % 2 == 0,
        hermitian(f),
        clip >= f.len() / 2,
    ensures
        spec_rebuild(f[0], spec_shift(spec_clip(spec_positive(f), clip), 0)) == f,
{
    let n = f.len() as int;
    let h = n / 2;
    let of = spec_shift(spec_clip(spec_positive(f), clip), 0);
    assert forall|i: int| 0 <= i < h implies #[trigger] of[i] == f[h + i] by {
        assert(of[i] == spec_clip(spec_positive(f), clip)[h - 1 - i]);
        assert(spec_clip(spec_positive(f), clip)[h - 1 - i] == spec_positive(f)[h - 1 - i]);
        assert(spec_positive(f)[h - 1 - i] == f[n - 1 - (h - 1 - i)]);
    }
    let reb = spec_rebuild(f[0], of);
    assert forall|k: int| 0 <= k < n implies #[trigger] reb[k] == f[k] by {
        if k == 0 {
        } else if k < h {
            assert(reb[k] == cconj(of[h - k]));
            assert(of[h - k] == f[h + h - k]);
            assert(f[k] == cconj(f[n - k]));
        } else {
            assert(reb[k] == of[k - h]);
        }
    }
    assert(reb =~= f);
}

/// The identity edit, end to end: with a clip threshold of at least half
/// the padded length and no shift, the whole pipeline on a channel is
/// exactly the inverse transform of its forward transform — the edit adds
/// nothing. Rests on the transform of a real channel being exactly
/// conjugate-symmetric when the twiddle table is.
pub proof fn lemma_identity_edit_channel(x: Seq<i64>, tw: Seq<Cpx>, clip: int)
    requires
        x.len() >= 1,
        twiddle_symmetric(tw),
        clip >= next_pow2(x.len()) / 2,
        next_pow2(x.len()) == 1 || next_pow2(x.len()) == 2 * tw.len(),
    ensures
        spec_edit_channel(x, tw, clip, 0) == spec_ifft(
            spec_fft(real_seq(pad_spec(x, next_pow2(x.len()))), tw, 1),
            tw,
        ),
{
    let t = next_pow2(x.len());
    lemma_next_pow2(x.len());
    let padded = real_seq(pad_spec(x, t));
    let f = spec_fft(padded, tw, 1);
    if t != 1 {
        assert(real_valued(padded));
        lemma_fft_real_hermitian(padded, tw, 1);
        assert(t % 2 == 0 && is_pow2((t / 2) as nat));
        assert(f.len() == t);
        lemma_identity_edit(f, clip);
    }
}

} // verus!
