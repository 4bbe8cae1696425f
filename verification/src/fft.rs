//! Recursive radix-2 decimation-in-time Fast Fourier Transform.
//!
//! The transform is parametrised by a table of twiddle factors: entry `j`
//! of the table stands for `e^{-2*pi*i*j/N}` in fixed point, where `N` is
//! twice the table length. The caller supplies the table, because the
//! trigonometric values have no exact fixed-point form; every contract here
//! is stated relative to the table that was given.
//!
//! Component magnitudes can at most triple in one butterfly level, so a
//! transform of length `n` grows them by at most `3^log2(n)`. The public
//! entry point budgets for that growth with `fft_budget`, which keeps every
//! intermediate value inside `i64` without any saturation or wrapping.

use vstd::prelude::*;

use crate::complex::{
    cadd, cconj, cmul, cneg, csub, tdiv, vseq, ComplexNumber, Cpx, SCALE, lemma_cmul_conj,
    lemma_cmul_neg, lemma_cmul_neg_right, lemma_tdiv_bounds,
};

verus! {

/// Why a transform or an edit was refused: its input length broke the
/// documented precondition (zero, or not a power of two).
#[derive(Clone, Copy, PartialEq, Eq, Structural, Debug)]
pub enum SpectrumError {
    PreconditionViolation,
}

pub open spec fn is_pow2(n: nat) -> bool
    decreases n,
{
    if n == 0 {
        false
    } else if n == 1 {
        true
    } else {
        n % 2 == 0 && is_pow2(n / 2)
    }
}

/// The base-2 logarithm, rounded down.
pub open spec fn lg(n: nat) -> nat
    decreases n,
{
    if n <= 1 {
        0
    } else {
        1 + lg(n / 2)
    }
}

pub open spec fn pow3(k: nat) -> int
    decreases k,
{
    if k == 0 {
        1
    } else {
        3 * pow3((k - 1) as nat)
    }
}

/// Every component of the transform stays strictly inside `i64` as long as
/// its magnitude never passes this limit.
pub open spec fn coeff_limit() -> int {
    0x4000_0000_0000_0000
}

/// The largest component magnitude a length-`n` input may have so that the
/// transform's growth by `3^log2(n)` stays under `coeff_limit`.
pub open spec fn fft_budget(n: nat) -> int {
    coeff_limit() / pow3(lg(n))
}

/// All components of all elements lie in `[-b, b]`.
pub open spec fn in_bounds(s: Seq<Cpx>, b: int) -> bool {
    forall|i: int|
        0 <= i < s.len() ==> -b <= (#[trigger] s[i]).real <= b && -b <= s[i].imaginary <= b
}

/// The even-indexed elements, in order.
pub open spec fn evens(s: Seq<Cpx>) -> Seq<Cpx> {
    Seq::new(((s.len() + 1) / 2) as nat, |i: int| s[2 * i])
}

/// The odd-indexed elements, in order.
pub open spec fn odds(s: Seq<Cpx>) -> Seq<Cpx> {
    Seq::new((s.len() / 2) as nat, |i: int| s[2 * i + 1])
}

/// The radix-2 decimation-in-time transform of `s`, combining the
/// recursively transformed even and odd subsequences with the butterfly
/// `out[k] = e[k] + w_k * o[k]`, `out[k + n/2] = e[k] - w_k * o[k]`, where
/// `w_k` is table entry `k * stride`.
pub open spec fn spec_fft(s: Seq<Cpx>, tw: Seq<Cpx>, stride: nat) -> Seq<Cpx>
    decreases s.len(),
{
    if s.len() <= 1 {
        s
    } else {
        let h = s.len() as int / 2;
        let e = spec_fft(evens(s), tw, stride * 2);
        let o = spec_fft(odds(s), tw, stride * 2);
        Seq::new(
            s.len(),
            |j: int|
                if j < h {
                    cadd(e[j], cmul(tw[j * stride], o[j]))
                } else {
                    csub(e[j - h], cmul(tw[(j - h) * stride], o[j - h]))
                },
        )
    }
}

/// Conjugate symmetry: bins `k` and `len - k` are complex conjugates.
pub open spec fn hermitian(f: Seq<Cpx>) -> bool {
    forall|k: int| 1 <= k < f.len() ==> #[trigger] f[k] == cconj(f[f.len() - k])
}

/// Every element has a zero imaginary component.
pub open spec fn real_valued(s: Seq<Cpx>) -> bool {
    forall|i: int| 0 <= i < s.len() ==> (#[trigger] s[i]).imaginary == 0
}

/// What makes a table a faithful picture of the roots of unity
/// `e^{-2*pi*i*a/N}` for `N` twice the table length: entry 0 is real, and
/// entries `a` and `len - a` are negated conjugates of one another. A table
/// of rounded cosines and sines has this shape whenever the rounding is
/// symmetric, because `cos(pi - x) == -cos(x)` and `sin(pi - x) == sin(x)`.
pub open spec fn twiddle_symmetric(tw: Seq<Cpx>) -> bool {
    &&& tw.len() >= 1 ==> tw[0].imaginary == 0
    &&& forall|a: int|
        1 <= a < tw.len() ==> tw[tw.len() - a] == (Cpx {
            real: -(#[trigger] tw[a]).real,
            imaginary: tw[a].imaginary,
        })
}

/// The transform of a real-valued sequence is conjugate-symmetric: bin `k`
/// and bin `n - k` are exact conjugates, and the DC bin is real. Exact
/// because the product's truncation toward zero commutes with conjugation.
pub proof fn lemma_fft_real_hermitian(s: Seq<Cpx>, tw: Seq<Cpx>, stride: nat)
    requires
        is_pow2(s.len()),
        real_valued(s),
        twiddle_symmetric(tw),
        stride >= 1,
        s.len() == 1 || s.len() * stride == 2 * tw.len(),
    ensures
        spec_fft(s, tw, stride)[0].imaginary == 0,
        hermitian(spec_fft(s, tw, stride)),
    decreases s.len(),
{
    let n = s.len() as int;
    let f = spec_fft(s, tw, stride);
    if n == 1 {
        assert(f[0].imaginary == 0);
        return ;
    }
    assert(s.len() % 2 == 0 && is_pow2((s.len() / 2) as nat));
    let h = n / 2;
    let ev = evens(s);
    let od = odds(s);
    assert(real_valued(ev));
    assert(real_valued(od));
    if h >= 2 {
        assert(h * (2 * stride) == n * stride) by (nonlinear_arith)
            requires n == 2 * h;
    }
    lemma_fft_real_hermitian(ev, tw, stride * 2);
    lemma_fft_real_hermitian(od, tw, stride * 2);
    let e = spec_fft(ev, tw, stride * 2);
    let o = spec_fft(od, tw, stride * 2);
    assert(e.len() == h && o.len() == h);
    assert(h * stride == tw.len()) by (nonlinear_arith)
        requires n == 2 * h && n * stride == 2 * tw.len();
    let lt = tw.len() as int;

    // The DC bin: every contribution is real.
    assert(tw.len() >= 1) by (nonlinear_arith)
        requires n * stride == 2 * tw.len() && n >= 2 && stride >= 1;
    assert(f[0] == cadd(e[0], cmul(tw[0], o[0])));
    assert(cmul(tw[0], o[0]).imaginary == tdiv(tw[0].real * 0 + 0 * o[0].real, SCALE as int));
    assert(tw[0].real * 0 == 0 && 0 * o[0].real == 0) by (nonlinear_arith);
    assert(f[0].imaginary == 0);

    // The lower half and the Nyquist bin.
    assert forall|k: int| 1 <= k <= h implies #[trigger] f[k] == cconj(f[(n - k) % n]) by {
        if k == h {
            // The Nyquist bin is real: every contribution is real.
            assert(f[h] == csub(e[0], cmul(tw[0], o[0])));
            assert(cmul(tw[0], o[0]).imaginary == tdiv(
                tw[0].real * 0 + 0 * o[0].real,
                SCALE as int,
            ));
            assert(tw[0].real * 0 == 0 && 0 * o[0].real == 0) by (nonlinear_arith);
            vstd::arithmetic::div_mod::lemma_small_mod((n - k) as nat, n as nat);
            assert((n - k) % n == h);
        } else {
            vstd::arithmetic::div_mod::lemma_small_mod((n - k) as nat, n as nat);
            assert((n - k) % n == n - k);
            let w = tw[k * stride];
            let wm = tw[(h - k) * stride];
            assert(f[k] == cadd(e[k], cmul(w, o[k])));
            assert(f[n - k] == csub(e[n - k - h], cmul(tw[(n - k - h) * stride], o[n - k - h])));
            assert(n - k - h == h - k);
            // The mirrored twiddle is the negated conjugate of w.
            assert((h - k) * stride == lt - k * stride) by (nonlinear_arith)
                requires h * stride == lt;
            assert(1 <= k * stride && k * stride < lt) by (nonlinear_arith)
                requires 1 <= k && k < h && stride >= 1 && h * stride == lt;
            assert(tw[lt - k * stride] == (Cpx { real: -w.real, imaginary: w.imaginary }));
            assert(wm == cneg(cconj(w)));
            // Halves are conjugate-symmetric by induction.
            assert(e[k] == cconj(e[h - k]));
            assert(o[k] == cconj(o[h - k]));
            lemma_cmul_conj(wm, o[h - k]);
            lemma_cmul_neg(cconj(wm), cconj(o[h - k]));
            assert(cconj(cmul(wm, o[h - k])) == cmul(cconj(wm), cconj(o[h - k])));
            assert(cconj(wm) == cneg(w));
            assert(cmul(cneg(w), cconj(o[h - k])) == cneg(cmul(w, cconj(o[h - k]))));
            assert(cconj(o[h - k]) == o[k]);
            assert(cconj(f[n - k]) == cadd(cconj(e[h - k]), cneg(cconj(cmul(
                tw[(h - k) * stride],
                o[h - k],
            )))));
            assert(cconj(f[n - k]) == cadd(e[k], cmul(w, o[k])));
        }
    }
    // The upper half mirrors the lower one.
    assert forall|k: int| 1 <= k < n implies #[trigger] f[k] == cconj(f[n - k]) by {
        if k <= h {
            assert(f[k] == cconj(f[(n - k) % n]));
            vstd::arithmetic::div_mod::lemma_small_mod((n - k) as nat, n as nat);
            assert((n - k) % n == n - k);
        } else {
            let m = n - k;
            assert(1 <= m <= h);
            assert(f[m] == cconj(f[(n - m) % n]));
            vstd::arithmetic::div_mod::lemma_small_mod((n - m) as nat, n as nat);
            assert((n - m) % n == k);
            assert(cconj(f[m]) == cconj(cconj(f[k])));
        }
    }
    assert(hermitian(f));
}

/// Every element negated.
pub open spec fn neg_seq(s: Seq<Cpx>) -> Seq<Cpx> {
    s.map_values(|c: Cpx| cneg(c))
}

/// Negating the input negates the transform, exactly: scaling by `-1` is
/// the instance of the transform's linearity that the truncating rescale
/// preserves without any rounding error.
pub proof fn lemma_fft_negate(s: Seq<Cpx>, tw: Seq<Cpx>, stride: nat)
    requires
        is_pow2(s.len()),
    ensures
        spec_fft(neg_seq(s), tw, stride) == neg_seq(spec_fft(s, tw, stride)),
    decreases s.len(),
{
    let n = s.len() as int;
    if s.len() <= 1 {
        assert(spec_fft(neg_seq(s), tw, stride) =~= neg_seq(spec_fft(s, tw, stride)));
        return ;
    }
    assert(s.len() % 2 == 0 && is_pow2((s.len() / 2) as nat));
    let h = n / 2;
    assert(evens(neg_seq(s)) =~= neg_seq(evens(s)));
    assert(odds(neg_seq(s)) =~= neg_seq(odds(s)));
    assert(evens(s).len() == h && odds(s).len() == h);
    lemma_fft_negate(evens(s), tw, stride * 2);
    lemma_fft_negate(odds(s), tw, stride * 2);
    let e = spec_fft(evens(s), tw, stride * 2);
    let o = spec_fft(odds(s), tw, stride * 2);
    let f = spec_fft(s, tw, stride);
    let fneg = spec_fft(neg_seq(s), tw, stride);
    let en = spec_fft(evens(neg_seq(s)), tw, stride * 2);
    let on = spec_fft(odds(neg_seq(s)), tw, stride * 2);
    assert(en == neg_seq(e) && on == neg_seq(o));
    assert(neg_seq(s).len() == n);
    assert(e.len() == h && o.len() == h);
    assert(en.len() == h && on.len() == h);
    assert forall|j: int| 0 <= j < n implies #[trigger] fneg[j] == cneg(f[j]) by {
        if j < h {
            assert(fneg[j] == cadd(en[j], cmul(tw[j * stride], on[j])));
            assert(en[j] == cneg(e[j]) && on[j] == cneg(o[j]));
            lemma_cmul_neg_right(tw[j * stride], o[j]);
            assert(f[j] == cadd(e[j], cmul(tw[j * stride], o[j])));
        } else {
            assert(fneg[j] == csub(en[j - h], cmul(tw[(j - h) * stride], on[j - h])));
            assert(en[j - h] == cneg(e[j - h]) && on[j - h] == cneg(o[j - h]));
            lemma_cmul_neg_right(tw[(j - h) * stride], o[j - h]);
            assert(f[j] == csub(e[j - h], cmul(tw[(j - h) * stride], o[j - h])));
        }
    }
    assert(fneg =~= neg_seq(f));
}

pub proof fn lemma_pow3_pos(k: nat)
    ensures
        pow3(k) >= 1,
    decreases k,
{
    if k > 0 {
        lemma_pow3_pos((k - 1) as nat);
    }
}

/// Whether `n` is a power of two (zero is not).
pub fn is_power_of_two(n: usize) -> (b: bool)
    ensures
        b == is_pow2(n as nat),
{
    if n == 0 {
        return false;
    }
    let mut m = n;
    while m > 1
        invariant
            m >= 1,
            is_pow2(n as nat) == is_pow2(m as nat),
        decreases m,
    {
        if m % 2 == 1 {
            return false;
        }
        m = m / 2;
    }
    true
}

/// The transform itself, threading a ghost bound `b` on the input's
/// components through the recursion.
pub(crate) fn fft_rec(
    input: &Vec<ComplexNumber>,
    tw: &Vec<ComplexNumber>,
    stride: usize,
    b: Ghost<int>,
) -> (r: Vec<ComplexNumber>)
    requires
        is_pow2(input.len() as nat),
        stride >= 1,
        input.len() == 1 || (input.len() * stride == 2 * tw.len() && 2 * tw.len()
            <= usize::MAX),
        in_bounds(vseq(tw@), SCALE as int),
        in_bounds(vseq(input@), b@),
        b@ >= 0,
        pow3(lg(input.len() as nat)) * b@ <= coeff_limit(),
    ensures
        r.len() == input.len(),
        vseq(r@) == spec_fft(vseq(input@), vseq(tw@), stride as nat),
        in_bounds(vseq(r@), pow3(lg(input.len() as nat)) * b@),
    decreases input.len(),
{
    let n = input.len();
    if n == 1 {
        let mut out: Vec<ComplexNumber> = Vec::new();
        out.push(input[0]);
        proof {
            assert(vseq(out@) =~= spec_fft(vseq(input@), vseq(tw@), stride as nat));
            assert(pow3(lg(n as nat)) == 1);
            assert(in_bounds(vseq(out@), b@));
        }
        return out;
    }
    proof {
        assert(n % 2 == 0 && is_pow2((n / 2) as nat));
    }
    let h = n / 2;

    let mut ev: Vec<ComplexNumber> = Vec::new();
    let mut od: Vec<ComplexNumber> = Vec::new();
    let mut i: usize = 0;
    while i < h
        invariant
            i <= h,
            h == n / 2,
            n == input.len(),
            n % 2 == 0,
            n >= 2,
            ev.len() == i,
            od.len() == i,
            forall|j: int| 0 <= j < i ==> ev@[j] == input@[2 * j],
            forall|j: int| 0 <= j < i ==> od@[j] == input@[2 * j + 1],
        decreases h - i,
    {
        ev.push(input[2 * i]);
        od.push(input[2 * i + 1]);
        i += 1;
    }
    proof {
        assert(vseq(ev@) =~= evens(vseq(input@)));
        assert(vseq(od@) =~= odds(vseq(input@)));
        assert(in_bounds(vseq(ev@), b@));
        assert(in_bounds(vseq(od@), b@));
        assert(lg(n as nat) == 1 + lg((n / 2) as nat));
        assert(pow3(lg(n as nat)) == 3 * pow3(lg(h as nat)));
        lemma_pow3_pos(lg(h as nat));
        assert(pow3(lg(h as nat)) * b@ <= pow3(lg(n as nat)) * b@) by (nonlinear_arith)
            requires
                b@ >= 0,
                pow3(lg(n as nat)) == 3 * pow3(lg(h as nat)),
                pow3(lg(h as nat)) >= 1;
        if h >= 2 {
            assert(h * (2 * stride) == n * stride) by (nonlinear_arith)
                requires n == 2 * h;
            assert(2 * stride <= n * stride) by (nonlinear_arith)
                requires n >= 2 && stride >= 1;
        }
    }
    let even_out = fft_rec(&ev, tw, 2 * stride, b);
    let mut odd_out = fft_rec(&od, tw, 2 * stride, b);

    let ghost espec = spec_fft(evens(vseq(input@)), vseq(tw@), (stride * 2) as nat);
    let ghost ospec = spec_fft(odds(vseq(input@)), vseq(tw@), (stride * 2) as nat);
    let ghost bh = pow3(lg(h as nat)) * b@;

    let mut out = even_out;
    out.append(&mut odd_out);

    proof {
        assert(espec.len() == h && ospec.len() == h);
        assert(forall|j: int| 0 <= j < h ==> out@[j]@ == espec[j] && out@[h + j]@ == ospec[j]);
        assert(3 * bh <= coeff_limit()) by (nonlinear_arith)
            requires
                bh == pow3(lg(h as nat)) * b@,
                pow3(lg(n as nat)) == 3 * pow3(lg(h as nat)),
                pow3(lg(n as nat)) * b@ <= coeff_limit();
        assert(bh >= 0) by (nonlinear_arith)
            requires bh == pow3(lg(h as nat)) * b@ && b@ >= 0 && pow3(lg(h as nat)) >= 1;
    }

    let mut k: usize = 0;
    while k < h
        invariant
            0 <= k <= h,
            n == 2 * h,
            h >= 1,
            stride >= 1,
            out.len() == n,
            n * stride == 2 * tw.len(),
            in_bounds(vseq(tw@), SCALE as int),
            espec.len() == h,
            ospec.len() == h,
            in_bounds(espec, bh),
            in_bounds(ospec, bh),
            bh >= 0,
            3 * bh <= coeff_limit(),
            forall|j: int|
                0 <= j < k ==> out@[j]@ == cadd(espec[j], cmul(vseq(tw@)[j * stride], ospec[j])),
            forall|j: int|
                0 <= j < k ==> out@[h + j]@ == csub(
                    espec[j],
                    cmul(vseq(tw@)[j * stride], ospec[j]),
                ),
            forall|j: int| k <= j < h ==> out@[j]@ == espec[j] && out@[h + j]@ == ospec[j],
            forall|j: int|
                0 <= j < k ==> -(3 * bh) <= (#[trigger] out@[j]@).real <= 3 * bh && -(3 * bh)
                    <= out@[j]@.imaginary <= 3 * bh,
            forall|j: int|
                0 <= j < k ==> -(3 * bh) <= (#[trigger] out@[h + j]@).real <= 3 * bh && -(3 * bh)
                    <= out@[h + j]@.imaginary <= 3 * bh,
        decreases h - k,
    {
        proof {
            assert(k * stride < tw.len() && (k + 1) * stride <= tw.len()) by (nonlinear_arith)
                requires
                    0 <= k < h,
                    stride >= 1,
                    n == 2 * h,
                    n * stride == 2 * tw.len();
        }
        let w = tw[k * stride];
        let p = out[k];
        let q_in = out[k + h];
        proof {
            let s = SCALE as int;
            assert(vseq(tw@)[(k * stride) as int] == w@);
            assert(-s <= vseq(tw@)[(k * stride) as int].real <= s && -s <= vseq(
                tw@,
            )[(k * stride) as int].imaginary <= s);
            assert(p@ == espec[k as int] && q_in@ == ospec[k as int]);
            assert(-bh <= espec[k as int].real <= bh && -bh <= espec[k as int].imaginary <= bh);
            assert(-bh <= ospec[k as int].real <= bh && -bh <= ospec[k as int].imaginary <= bh);
            assert(-(2 * s * bh) <= w.real * q_in.real - w.imaginary * q_in.imaginary <= 2 * s
                * bh) by (nonlinear_arith)
                requires
                    -s <= w.real <= s,
                    -s <= w.imaginary <= s,
                    -bh <= q_in.real <= bh,
                    -bh <= q_in.imaginary <= bh,
                    s >= 0,
                    bh >= 0;
            assert(-(2 * s * bh) <= w.real * q_in.imaginary + w.imaginary * q_in.real <= 2 * s
                * bh) by (nonlinear_arith)
                requires
                    -s <= w.real <= s,
                    -s <= w.imaginary <= s,
                    -bh <= q_in.real <= bh,
                    -bh <= q_in.imaginary <= bh,
                    s >= 0,
                    bh >= 0;
            assert(2 * s * bh <= (i64::MAX as int) * s && (i64::MIN as int) * s <= -(2 * s
                * bh)) by (nonlinear_arith)
                requires
                    s > 0,
                    bh >= 0,
                    2 * bh <= i64::MAX as int;
            assert(2 * s * bh == (2 * bh) * s && -(2 * s * bh) == (-(2 * bh)) * s)
                by (nonlinear_arith);
            lemma_tdiv_bounds(
                w.real * q_in.real - w.imaginary * q_in.imaginary,
                s,
                -(2 * bh),
                2 * bh,
            );
            lemma_tdiv_bounds(
                w.real * q_in.imaginary + w.imaginary * q_in.real,
                s,
                -(2 * bh),
                2 * bh,
            );
        }
        let q = w.mul(&q_in);
        proof {
            assert(q@ == cmul(w@, q_in@));
            assert(-(2 * bh) <= q@.real <= 2 * bh && -(2 * bh) <= q@.imaginary <= 2 * bh);
        }
        let s1 = p.add(&q);
        let s2 = p.sub(&q);
        out.set(k, s1);
        out.set(k + h, s2);
        k += 1;
    }

    proof {
        let combined = spec_fft(vseq(input@), vseq(tw@), stride as nat);
        assert(combined == Seq::new(
            vseq(input@).len(),
            |j: int|
                if j < h as int {
                    cadd(espec[j], cmul(vseq(tw@)[j * stride], ospec[j]))
                } else {
                    csub(espec[j - h], cmul(vseq(tw@)[(j - h) * stride], ospec[j - h]))
                },
        ));
        assert(vseq(out@) =~= combined);
        assert(pow3(lg(n as nat)) * b@ == 3 * bh) by (nonlinear_arith)
            requires
                bh == pow3(lg(h as nat)) * b@,
                pow3(lg(n as nat)) == 3 * pow3(lg(h as nat));
        assert forall|m: int| 0 <= m < n implies -(3 * bh) <= (#[trigger] vseq(out@)[m]).real <= 3
            * bh && -(3 * bh) <= vseq(out@)[m].imaginary <= 3 * bh by {
            if m < h {
                assert(out@[m]@ == vseq(out@)[m]);
            } else {
                assert(out@[h + (m - h)]@ == vseq(out@)[m]);
            }
        }
        assert(in_bounds(vseq(out@), 3 * bh));
    }
    out
}

/// The discrete Fourier transform of `input` with respect to the given
/// twiddle table, as `spec_fft` describes; the forward transform applies
/// no `1/N` factor. Refused when the length is zero or not a power of two.
pub fn fft(input: &Vec<ComplexNumber>, twiddles: &Vec<ComplexNumber>) -> (r: Result<
    Vec<ComplexNumber>,
    SpectrumError,
>)
    requires
        input.len() >= 2 ==> input.len() == 2 * twiddles.len(),
        in_bounds(vseq(twiddles@), SCALE as int),
        in_bounds(vseq(input@), fft_budget(input.len() as nat)),
    ensures
        match r {
            Ok(v) => is_pow2(input.len() as nat) && v.len() == input.len() && vseq(v@)
                == spec_fft(vseq(input@), vseq(twiddles@), 1) && in_bounds(
                vseq(v@),
                coeff_limit(),
            ),
            Err(e) => !is_pow2(input.len() as nat) && e == SpectrumError::PreconditionViolation,
        },
{
    let n = input.len();
    if !is_power_of_two(n) {
        return Err(SpectrumError::PreconditionViolation);
    }
    proof {
        lemma_pow3_pos(lg(n as nat));
        vstd::arithmetic::div_mod::lemma_div_pos_is_pos(coeff_limit(), pow3(lg(n as nat)));
        vstd::arithmetic::div_mod::lemma_fundamental_div_mod(coeff_limit(), pow3(lg(n as nat)));
        vstd::arithmetic::div_mod::lemma_mod_division_less_than_divisor(
            coeff_limit(),
            pow3(lg(n as nat)),
        );
        assert(pow3(lg(n as nat)) * fft_budget(n as nat) <= coeff_limit());
    }
    let out = fft_rec(input, twiddles, 1, Ghost(fft_budget(n as nat)));
    proof {
        assert(in_bounds(vseq(out@), coeff_limit()));
    }
    Ok(out)
}

} // verus!
