//! The binary multiplicative cascade model and its fitting.
//!
//! A trace of strictly increasing timestamps is first reduced to its
//! positive inter-arrival increments. Fitting then walks the increment
//! sequence from the finest dyadic scale upward: at each pass, adjacent
//! values are grouped into pairs, the split ratio `a / (a + b)` of each
//! pair is observed, a Beta-style split law is fitted to the observed
//! ratios of that scale by the method of moments, and the pairs are summed
//! into the next, coarser sequence. After `L = floor(log2(n))` passes the
//! remaining values sum to the root aggregate — the total of all
//! increments — which tops the cascade.
//!
//! Fitting is a pure function of the increments: every step is exact
//! integer arithmetic on the fixed-point bit patterns, and each function's
//! contract states its result as a spec-level function of its input.

use vstd::prelude::*;

use crate::fixed::Fx;
use crate::fixed::SCALE;
use crate::fixed::div_down;
use crate::fixed::mul_down;
use crate::fixed::spec_isqrt;

verus! {

/// A fatal failure of fitting or of the surrounding pipeline.
///
/// Fitting is one-shot and deterministic, so none of these is transient:
/// the caller gets the typed failure and no retry is attempted.
#[derive(Clone, Copy, Debug, PartialEq, Eq, Structural)]
pub enum Error {
    /// Fewer than 2 increments (fewer than 3 timestamps): no scale to fit.
    InsufficientData,
    /// A timestamp trace too short to yield even one increment, or a
    /// non-positive inter-arrival step, which the model cannot carry.
    NonPositiveIncrement,
    /// A scale whose observed split ratios admit no Beta fit: zero
    /// variance, or method-of-moments shape parameters that round to zero.
    DegenerateStatistics,
    /// A pair of values summing to zero, whose split ratio is undefined.
    InvalidRatioInput,
    /// A drawn split ratio outside `[0, 1]`. The sampler's contracts prove
    /// its draws are always in range, so this is never produced here; it
    /// is kept as the defensive category for alternative generators.
    RandomDrawOutOfRange,
    /// A quantity left the representable fixed-point range.
    Overflow,
}

/// The split law fitted to one dyadic scale of the cascade.
#[derive(Clone, Copy, Debug, PartialEq, Eq, Structural)]
pub enum Level {
    /// A scale observed through at least two pairs: Beta shape parameters
    /// `alpha`, `beta` from the method of moments, together with the draw
    /// window they induce — centre `mean` and half-width `spread`, the
    /// moment-matched window `[mean - spread, mean + spread]`.
    Fitted { alpha: Fx, beta: Fx, mean: Fx, spread: Fx },
    /// A scale observed through a single pair: one ratio admits no
    /// dispersion estimate, so the scale splits deterministically at the
    /// observed ratio.
    Point { ratio: Fx },
}

/// Well-formedness of one fitted scale: positive shape parameters and a
/// draw window whose arithmetic stays in range.
pub open spec fn level_wf(lv: Level) -> bool {
    match lv {
        Level::Fitted { alpha, beta, mean, spread } => {
            alpha.bits > 0 && beta.bits > 0 && mean.bits <= SCALE && spread.bits
                < 0x4_0000_0000u64
        },
        Level::Point { ratio } => ratio.bits <= SCALE,
    }
}

/// A fitted cascade: one split law per dyadic scale, finest first, plus
/// the root aggregate the cascade redistributes.
#[derive(Debug)]
pub struct CascadeModel {
    /// Split laws, `levels[0]` being the finest scale.
    pub levels: Vec<Level>,
    /// The root aggregate: the total of the fitted increments.
    pub root: Fx,
}

impl CascadeModel {
    /// Well-formedness: at least one scale, every scale well-formed.
    pub open spec fn wf(&self) -> bool {
        &&& self.levels@.len() >= 1
        &&& forall|i: int| 0 <= i < self.levels@.len() ==> #[trigger] level_wf(self.levels@[i])
    }
}

/// The raw bit patterns of a sequence of fixed-point numbers.
pub open spec fn bits_of(s: Seq<Fx>) -> Seq<int> {
    s.map_values(|x: Fx| x.bits as int)
}

/// Sum of a sequence of integers.
pub open spec fn sum_of(s: Seq<int>) -> int
    decreases s.len(),
{
    if s.len() == 0 {
        0
    } else {
        sum_of(s.drop_last()) + s.last()
    }
}

/// Splitting a sum at any point: the sum of a sequence is the sum of a
/// prefix plus the sum of the rest.
pub proof fn lemma_sum_take_skip(s: Seq<int>, i: int)
    requires
        0 <= i <= s.len(),
    ensures
        sum_of(s) == sum_of(s.take(i)) + sum_of(s.skip(i)),
    decreases s.len(),
{
    if s.len() == 0 {
        assert(s.take(i) =~= s);
        assert(s.skip(i) =~= s);
    } else if i == s.len() {
        assert(s.take(i) =~= s);
        assert(s.skip(i) =~= Seq::<int>::empty());
    } else {
        lemma_sum_take_skip(s.drop_last(), i);
        assert(s.take(i) =~= s.drop_last().take(i));
        assert(s.skip(i).drop_last() =~= s.drop_last().skip(i));
        assert(sum_of(s.skip(i)) == sum_of(s.drop_last().skip(i)) + s.last());
    }
}

/// Extending a prefix sum by one element.
pub proof fn lemma_sum_take_step(s: Seq<int>, i: int)
    requires
        0 <= i < s.len(),
    ensures
        sum_of(s.take(i + 1)) == sum_of(s.take(i)) + s[i],
{
    assert(s.take(i + 1).drop_last() =~= s.take(i));
    assert(s.take(i + 1).last() == s[i]);
}

/// A sequence of non-negative values has a non-negative sum.
pub proof fn lemma_sum_nonneg(s: Seq<int>)
    requires
        forall|i: int| 0 <= i < s.len() ==> s[i] >= 0,
    ensures
        sum_of(s) >= 0,
    decreases s.len(),
{
    if s.len() > 0 {
        lemma_sum_nonneg(s.drop_last());
    }
}

/// In a sequence of non-negative values, any adjacent pair is bounded by
/// the total.
pub proof fn lemma_pair_le_sum(s: Seq<int>, i: int)
    requires
        forall|j: int| 0 <= j < s.len() ==> s[j] >= 0,
        0 <= i,
        2 * i + 1 < s.len(),
    ensures
        s[2 * i] + s[2 * i + 1] <= sum_of(s),
{
    lemma_sum_take_skip(s, 2 * i);
    let rest = s.skip(2 * i);
    lemma_sum_take_skip(rest, 2);
    let pair = rest.take(2);
    assert(pair.drop_last() =~= seq![s[2 * i]]);
    assert(pair.last() == s[2 * i + 1]);
    assert(seq![s[2 * i]].drop_last() =~= Seq::<int>::empty());
    assert(sum_of(Seq::<int>::empty()) == 0);
    assert(sum_of(seq![s[2 * i]]) == s[2 * i]);
    assert(sum_of(pair) == s[2 * i] + s[2 * i + 1]);
    assert(forall|j: int| 0 <= j < s.take(2 * i).len() ==> #[trigger] s.take(2 * i)[j] >= 0);
    lemma_sum_nonneg(s.take(2 * i));
    assert(forall|j: int| 0 <= j < rest.skip(2).len() ==> #[trigger] rest.skip(2)[j] >= 0);
    lemma_sum_nonneg(rest.skip(2));
}

/// The consecutive differences of a timestamp trace, over raw bits.
pub open spec fn diffs_of(t: Seq<int>) -> Seq<int> {
    Seq::new((t.len() - 1) as nat, |i: int| t[i + 1] - t[i])
}

/// Whether a timestamp trace is strictly increasing.
pub open spec fn strictly_increasing(t: Seq<int>) -> bool {
    forall|i: int| 0 <= i < t.len() - 1 ==> #[trigger] t[i + 1] > t[i]
}

/// Reduce an ordered timestamp trace to its inter-arrival increments.
///
/// For `n >= 2` strictly increasing timestamps the result holds exactly
/// the `n - 1` consecutive differences, in order. A shorter trace has no
/// increments to offer; a non-increasing step has no positive increment,
/// and either is a typed failure rather than a silent repair.
pub fn increments(trace: &Vec<Fx>) -> (r: Result<Vec<Fx>, Error>)
    ensures
        trace@.len() < 2 ==> r == Result::<Vec<Fx>, Error>::Err(Error::InsufficientData),
        trace@.len() >= 2 && !strictly_increasing(bits_of(trace@)) ==> r == Result::<
            Vec<Fx>,
            Error,
        >::Err(Error::NonPositiveIncrement),
        trace@.len() >= 2 && strictly_increasing(bits_of(trace@)) ==> {
            &&& r is Ok
            &&& bits_of(r.unwrap()@) =~= diffs_of(bits_of(trace@))
            &&& r.unwrap()@.len() == trace@.len() - 1
            &&& forall|i: int| 0 <= i < r.unwrap()@.len() ==> #[trigger] r.unwrap()@[i].bits > 0
        },
{
    let ghost t = bits_of(trace@);
    if trace.len() < 2 {
        return Err(Error::InsufficientData);
    }
    let mut out: Vec<Fx> = Vec::new();
    let mut i: usize = 1;
    while i < trace.len()
        invariant
            1 <= i <= trace@.len(),
            2 <= trace@.len(),
            t == bits_of(trace@),
            out@.len() == i - 1,
            forall|j: int| 0 <= j < i - 1 ==> #[trigger] t[j + 1] > t[j],
            forall|j: int| 0 <= j < i - 1 ==> (#[trigger] out@[j].bits) as int == t[j + 1] - t[j],
        decreases trace@.len() - i,
    {
        let prev: u64 = trace[i - 1].bits;
        let cur: u64 = trace[i].bits;
        if cur <= prev {
            proof {
                assert(t[i as int] == cur as int);
                assert(t[i as int - 1] == prev as int);
                assert(!(t[(i as int - 1) + 1] > t[i as int - 1]));
            }
            return Err(Error::NonPositiveIncrement);
        }
        out.push(Fx { bits: cur - prev });
        i += 1;
    }
    assert(strictly_increasing(t));
    assert(bits_of(out@) =~= diffs_of(t));
    Ok(out)
}

/// Powers of two.
pub open spec fn pow2(k: nat) -> nat
    decreases k,
{
    if k == 0 {
        1
    } else {
        2 * pow2((k - 1) as nat)
    }
}

/// Floor of the base-2 logarithm.
pub open spec fn flog2(n: nat) -> nat
    decreases n,
{
    if n < 2 {
        0
    } else {
        1 + flog2(n / 2)
    }
}

/// `pow2` is monotone.
pub proof fn lemma_pow2_mono(a: nat, b: nat)
    requires
        a <= b,
    ensures
        pow2(a) <= pow2(b),
    decreases b,
{
    if a < b && b > 0 {
        lemma_pow2_mono(a, (b - 1) as nat);
    }
}

/// `flog2(n)` is the unique exponent with `pow2(flog2(n)) <= n < pow2(flog2(n) + 1)`.
pub proof fn lemma_flog2_bounds(n: nat)
    requires
        n >= 1,
    ensures
        pow2(flog2(n)) <= n < pow2(flog2(n) + 1),
    decreases n,
{
    if n < 2 {
    } else {
        lemma_flog2_bounds(n / 2);
    }
}


/// Mean of a non-empty sequence of ratio bit patterns, rounded down.
pub open spec fn mean_of(rs: Seq<int>) -> int {
    sum_of(rs) / (rs.len() as int)
}

/// Squared deviation of a ratio from the mean, in fixed-point scale.
pub open spec fn dev_sq(r: int, m: int) -> int {
    let d = if r >= m {
        r - m
    } else {
        m - r
    };
    (d * d) / (SCALE as int)
}

/// The squared deviations of a sequence of ratios from a centre `m`.
pub open spec fn devs_of(rs: Seq<int>, m: int) -> Seq<int> {
    rs.map_values(|r: int| dev_sq(r, m))
}

/// Variance of a non-empty sequence of ratio bit patterns, rounded down.
pub open spec fn var_of(rs: Seq<int>) -> int {
    sum_of(devs_of(rs, mean_of(rs))) / (rs.len() as int)
}

/// The split law the method of moments fits to the ratios of one scale.
///
/// A single observed ratio fixes a deterministic split at that ratio. With
/// two or more, the empirical mean `m` and variance `v` give the Beta
/// shape parameters `alpha = m * (m * (1 - m) / v - 1)` and
/// `beta = (1 - m) * (m * (1 - m) / v - 1)`; the scale is degenerate — no
/// Beta law fits it — when the variance vanishes or either derived shape
/// parameter fails to be positive. The draw window of a fitted scale is
/// centred at `m` with half-width `sqrt(3 * v)`, the window whose mean and
/// variance match the fitted moments.
pub open spec fn spec_level(rs: Seq<int>) -> Result<Level, Error> {
    if rs.len() == 1 {
        Ok(Level::Point { ratio: Fx { bits: rs[0] as u64 } })
    } else {
        let m = mean_of(rs);
        let v = var_of(rs);
        if v == 0 {
            Err(Error::DegenerateStatistics)
        } else {
            let mw = mul_down(m, (SCALE as int) - m);
            if mw == 0 {
                Err(Error::DegenerateStatistics)
            } else {
                let t = div_down(mw, v);
                if t <= SCALE as int {
                    Err(Error::DegenerateStatistics)
                } else {
                    let alpha = mul_down(m, t - (SCALE as int));
                    let beta = mul_down((SCALE as int) - m, t - (SCALE as int));
                    if alpha == 0 || beta == 0 {
                        Err(Error::DegenerateStatistics)
                    } else {
                        Ok(
                            Level::Fitted {
                                alpha: Fx { bits: alpha as u64 },
                                beta: Fx { bits: beta as u64 },
                                mean: Fx { bits: m as u64 },
                                spread: Fx { bits: spec_isqrt(3 * v * (SCALE as int)) as u64 },
                            },
                        )
                    }
                }
            }
        }
    }
}

/// Fit the split law of one scale from its observed ratios.
pub fn level_of(ratios: &Vec<Fx>) -> (r: Result<Level, Error>)
    requires
        ratios@.len() >= 1,
        forall|i: int| 0 <= i < ratios@.len() ==> (#[trigger] ratios@[i].bits) <= SCALE,
    ensures
        r == spec_level(bits_of(ratios@)),
        r is Ok ==> level_wf(r.unwrap()),
{
    let ghost s = bits_of(ratios@);
    let n: usize = ratios.len();
    if n == 1 {
        return Ok(Level::Point { ratio: ratios[0] });
    }
    // Empirical mean of the ratios.
    let mut acc: u128 = 0;
    let mut i: usize = 0;
    while i < n
        invariant
            0 <= i <= n,
            n == ratios@.len(),
            s == bits_of(ratios@),
            forall|j: int| 0 <= j < ratios@.len() ==> (#[trigger] ratios@[j].bits) <= SCALE,
            acc as int == sum_of(s.take(i as int)),
            acc as int <= (i as int) * (SCALE as int),
        decreases n - i,
    {
        proof {
            lemma_sum_take_step(s, i as int);
        }
        acc = acc + (ratios[i].bits as u128);
        i += 1;
    }
    proof {
        assert(s.take(n as int) =~= s);
        assert(forall|j: int| 0 <= j < s.len() ==> #[trigger] s[j] >= 0);
        lemma_sum_nonneg(s);
        assert((acc as int) / (n as int) <= SCALE as int) by (nonlinear_arith)
            requires
                acc as int <= (n as int) * (SCALE as int),
                n as int >= 1,
                acc as int >= 0;
    }
    let m: u64 = (acc / (n as u128)) as u64;
    assert(m as int == mean_of(s));
    // Empirical variance of the ratios about the mean.
    let ghost dv = devs_of(s, m as int);
    let mut vac: u128 = 0;
    i = 0;
    while i < n
        invariant
            0 <= i <= n,
            n == ratios@.len(),
            s == bits_of(ratios@),
            dv == devs_of(s, m as int),
            m <= SCALE,
            forall|j: int| 0 <= j < ratios@.len() ==> (#[trigger] ratios@[j].bits) <= SCALE,
            vac as int == sum_of(dv.take(i as int)),
            vac as int <= (i as int) * (SCALE as int),
        decreases n - i,
    {
        proof {
            lemma_sum_take_step(dv, i as int);
        }
        let rb: u64 = ratios[i].bits;
        let d: u64 = if rb >= m {
            rb - m
        } else {
            m - rb
        };
        proof {
            assert((d as int) * (d as int) <= (SCALE as int) * (SCALE as int))
                by (nonlinear_arith)
                requires
                    0 <= d as int,
                    d as int <= SCALE as int;
            assert(((d as int) * (d as int)) / (SCALE as int) <= SCALE as int)
                by (nonlinear_arith)
                requires
                    (d as int) * (d as int) <= (SCALE as int) * (SCALE as int),
                    SCALE as int > 0;
        }
        let t128: u128 = ((d as u128) * (d as u128)) / (SCALE as u128);
        proof {
            assert(t128 as int == dev_sq(s[i as int], m as int));
        }
        vac = vac + t128;
        i += 1;
    }
    proof {
        assert(dv.take(n as int) =~= dv);
        assert(forall|j: int| 0 <= j < dv.len() ==> #[trigger] dv[j] >= 0) by {
            assert(forall|j: int| 0 <= j < dv.len() ==> dv[j] == dev_sq(s[j], m as int));
        }
        lemma_sum_nonneg(dv);
        assert((vac as int) / (n as int) <= SCALE as int) by (nonlinear_arith)
            requires
                vac as int <= (n as int) * (SCALE as int),
                n as int >= 1,
                vac as int >= 0;
    }
    let v: u64 = (vac / (n as u128)) as u64;
    assert(v as int == var_of(s));
    if v == 0 {
        return Err(Error::DegenerateStatistics);
    }
    // Shape parameters by the method of moments.
    proof {
        assert(SCALE as int == 0x1_0000_0000int);
        assert(4 * ((m as int) * ((SCALE as int) - (m as int))) <= (SCALE as int) * (
        SCALE as int)) by (nonlinear_arith)
            requires
                0 <= m as int,
                m as int <= SCALE as int;
        assert(((m as int) * ((SCALE as int) - (m as int))) / (SCALE as int)
            <= 0x4000_0000int) by (nonlinear_arith)
            requires
                4 * ((m as int) * ((SCALE as int) - (m as int))) <= (SCALE as int) * (
                SCALE as int),
                0 <= (m as int) * ((SCALE as int) - (m as int)),
                SCALE as int == 0x1_0000_0000int;
        assert(0 <= (m as int) * ((SCALE as int) - (m as int))) by (nonlinear_arith)
            requires
                0 <= m as int,
                m as int <= SCALE as int;
    }
    let mw: u64 = (((m as u128) * ((SCALE - m) as u128)) / (SCALE as u128)) as u64;
    proof {
        assert(mw as int == mul_down(m as int, (SCALE as int) - (m as int)));
        assert(mw as int <= 0x4000_0000int);
    }
    if mw == 0 {
        return Err(Error::DegenerateStatistics);
    }
    proof {
        assert((mw as int) * (SCALE as int) <= 0x4000_0000_0000_0000int) by (nonlinear_arith)
            requires
                0 <= mw as int,
                mw as int <= 0x4000_0000int,
                SCALE as int == 0x1_0000_0000int;
        assert(((mw as int) * (SCALE as int)) / (v as int) <= (mw as int) * (SCALE as int))
            by (nonlinear_arith)
            requires
                v as int >= 1,
                (mw as int) * (SCALE as int) >= 0;
    }
    let t: u64 = (((mw as u128) * (SCALE as u128)) / (v as u128)) as u64;
    proof {
        assert(t as int == div_down(mw as int, v as int));
    }
    if t <= SCALE {
        return Err(Error::DegenerateStatistics);
    }
    let tm: u64 = t - SCALE;
    proof {
        assert((m as int) * (tm as int) <= (SCALE as int) * (tm as int)) by (nonlinear_arith)
            requires
                0 <= m as int,
                m as int <= SCALE as int,
                tm as int >= 0;
        assert(((m as int) * (tm as int)) / (SCALE as int) <= tm as int) by (nonlinear_arith)
            requires
                (m as int) * (tm as int) <= (SCALE as int) * (tm as int),
                SCALE as int > 0,
                tm as int >= 0,
                0 <= (m as int) * (tm as int);
        assert(0 <= (m as int) * (tm as int)) by (nonlinear_arith)
            requires
                0 <= m as int,
                0 <= tm as int;
        assert(((SCALE as int) - (m as int)) * (tm as int) <= (SCALE as int) * (tm as int))
            by (nonlinear_arith)
            requires
                0 <= (SCALE as int) - (m as int),
                (SCALE as int) - (m as int) <= SCALE as int,
                tm as int >= 0;
        assert(0 <= ((SCALE as int) - (m as int)) * (tm as int)) by (nonlinear_arith)
            requires
                0 <= (SCALE as int) - (m as int),
                0 <= tm as int;
        assert((((SCALE as int) - (m as int)) * (tm as int)) / (SCALE as int) <= tm as int)
            by (nonlinear_arith)
            requires
                ((SCALE as int) - (m as int)) * (tm as int) <= (SCALE as int) * (tm as int),
                SCALE as int > 0,
                tm as int >= 0,
                0 <= ((SCALE as int) - (m as int)) * (tm as int);
    }
    let alpha: u64 = (((m as u128) * (tm as u128)) / (SCALE as u128)) as u64;
    let beta: u64 = ((((SCALE - m) as u128) * (tm as u128)) / (SCALE as u128)) as u64;
    proof {
        assert(alpha as int == mul_down(m as int, (t as int) - (SCALE as int)));
        assert(beta as int == mul_down((SCALE as int) - (m as int), (t as int) - (SCALE as int)));
    }
    if alpha == 0 || beta == 0 {
        return Err(Error::DegenerateStatistics);
    }
    // The moment-matched draw window: half-width sqrt(3 * v).
    let x: u128 = 3u128 * (v as u128) * (SCALE as u128);
    let w: u64 = crate::fixed::isqrt128(x);
    assert(w as int == spec_isqrt(3 * (v as int) * (SCALE as int)));
    let lv = Level::Fitted {
        alpha: Fx { bits: alpha },
        beta: Fx { bits: beta },
        mean: Fx { bits: m },
        spread: Fx { bits: w },
    };
    assert(Ok::<Level, Error>(lv) == spec_level(s));
    Ok(lv)
}


/// Whether some adjacent pair of the sequence sums to zero, leaving its
/// split ratio undefined.
pub open spec fn has_zero_pair(s: Seq<int>) -> bool {
    exists|i: int| 0 <= i < s.len() / 2 && (#[trigger] s[2 * i]) + s[2 * i + 1] == 0
}

/// The split ratios `a / (a + b)` of the adjacent pairs of one scale,
/// over raw bits. An odd trailing value joins no pair and contributes no
/// ratio.
pub open spec fn ratios_of(s: Seq<int>) -> Seq<int> {
    Seq::new((s.len() / 2) as nat, |i: int| div_down(s[2 * i], s[2 * i] + s[2 * i + 1]))
}

/// The next coarser scale: adjacent pairs summed into their parents, an
/// odd trailing value carried up unchanged so that the total is preserved.
pub open spec fn coarse_of(s: Seq<int>) -> Seq<int> {
    Seq::new(
        (s.len() - s.len() / 2) as nat,
        |i: int|
            if 2 * i + 1 < s.len() {
                s[2 * i] + s[2 * i + 1]
            } else {
                s[2 * i]
            },
    )
}

/// Coarsening preserves the total: pair sums plus the carried value add
/// up to the original sum.
pub proof fn lemma_coarse_sum(s: Seq<int>)
    ensures
        sum_of(coarse_of(s)) == sum_of(s),
    decreases s.len(),
{
    let c = coarse_of(s);
    if s.len() == 0 {
        assert(c =~= Seq::<int>::empty());
    } else if s.len() == 1 {
        assert(c =~= seq![s[0]]);
        assert(seq![s[0]].drop_last() =~= Seq::<int>::empty());
        assert(s.drop_last() =~= Seq::<int>::empty());
        assert(s.last() == s[0]);
    } else {
        lemma_coarse_sum(s.skip(2));
        lemma_sum_take_skip(c, 1);
        lemma_sum_take_skip(s, 2);
        assert(c.skip(1) =~= coarse_of(s.skip(2)));
        assert(c.take(1) =~= seq![s[0] + s[1]]);
        assert(sum_of(Seq::<int>::empty()) == 0);
        assert(seq![s[0] + s[1]].drop_last() =~= Seq::<int>::empty());
        assert(seq![s[0] + s[1]].last() == s[0] + s[1]);
        assert(sum_of(seq![s[0] + s[1]]) == s[0] + s[1]);
        assert(s.take(2) =~= seq![s[0], s[1]]);
        assert(seq![s[0]].drop_last() =~= Seq::<int>::empty());
        assert(seq![s[0]].last() == s[0]);
        assert(sum_of(seq![s[0]]) == s[0]);
        assert(seq![s[0], s[1]].drop_last() =~= seq![s[0]]);
        assert(seq![s[0], s[1]].last() == s[1]);
        assert(sum_of(seq![s[0], s[1]]) == s[0] + s[1]);
    }
}

/// Observe the split ratios of one scale, failing on a pair that sums to
/// zero.
fn pass_ratios(vals: &Vec<Fx>) -> (r: Result<Vec<Fx>, Error>)
    ensures
        match r {
            Ok(rs) => {
                &&& !has_zero_pair(bits_of(vals@))
                &&& bits_of(rs@) == ratios_of(bits_of(vals@))
                &&& rs@.len() == vals@.len() / 2
                &&& forall|i: int| 0 <= i < rs@.len() ==> (#[trigger] rs@[i].bits) <= SCALE
            },
            Err(e) => e == Error::InvalidRatioInput && has_zero_pair(bits_of(vals@)),
        },
{
    let ghost s = bits_of(vals@);
    let n: usize = vals.len();
    let half: usize = n / 2;
    let mut out: Vec<Fx> = Vec::new();
    let mut i: usize = 0;
    while i < half
        invariant
            0 <= i <= half,
            n == vals@.len(),
            half == vals@.len() / 2,
            s == bits_of(vals@),
            out@.len() == i,
            forall|j: int| 0 <= j < i ==> (#[trigger] s[2 * j]) + s[2 * j + 1] != 0,
            forall|j: int|
                0 <= j < i ==> (#[trigger] out@[j].bits) as int == div_down(
                    s[2 * j],
                    s[2 * j] + s[2 * j + 1],
                ),
            forall|j: int| 0 <= j < i ==> (#[trigger] out@[j].bits) <= SCALE,
        decreases half - i,
    {
        proof {
            assert(2 * (half as int) <= n as int);
            assert(2 * (i as int) + 1 < n as int);
        }
        let a: u64 = vals[2 * i].bits;
        let b: u64 = vals[2 * i + 1].bits;
        let pair: u128 = (a as u128) + (b as u128);
        if pair == 0 {
            proof {
                assert((s[2 * (i as int)]) + s[2 * (i as int) + 1] == 0);
            }
            return Err(Error::InvalidRatioInput);
        }
        proof {
            assert((a as int) * (SCALE as int) <= ((a as int) + (b as int)) * (SCALE as int))
                by (nonlinear_arith)
                requires
                    0 <= a as int,
                    0 <= b as int,
                    SCALE as int > 0;
            assert(((a as int) * (SCALE as int)) / ((a as int) + (b as int)) <= SCALE as int)
                by (nonlinear_arith)
                requires
                    (a as int) * (SCALE as int) <= ((a as int) + (b as int)) * (SCALE as int),
                    (a as int) + (b as int) >= 1,
                    0 <= (a as int) * (SCALE as int),
                    SCALE as int > 0;
        }
        let q: u64 = (((a as u128) * (SCALE as u128)) / pair) as u64;
        out.push(Fx { bits: q });
        i += 1;
    }
    proof {
        assert(!has_zero_pair(s));
        assert(bits_of(out@) =~= ratios_of(s));
    }
    Ok(out)
}

/// Sum adjacent pairs into the next coarser scale, carrying an odd
/// trailing value.
fn coarse(vals: &Vec<Fx>) -> (r: Vec<Fx>)
    requires
        sum_of(bits_of(vals@)) <= u64::MAX as int,
    ensures
        bits_of(r@) == coarse_of(bits_of(vals@)),
        r@.len() == vals@.len() - vals@.len() / 2,
{
    let ghost s = bits_of(vals@);
    proof {
        assert(forall|j: int| 0 <= j < s.len() ==> #[trigger] s[j] >= 0);
    }
    let n: usize = vals.len();
    let half: usize = n / 2;
    let mut out: Vec<Fx> = Vec::new();
    let mut i: usize = 0;
    while i < half
        invariant
            0 <= i <= half,
            n == vals@.len(),
            half == vals@.len() / 2,
            s == bits_of(vals@),
            sum_of(s) <= u64::MAX as int,
            out@.len() == i,
            forall|j: int|
                0 <= j < i ==> (#[trigger] out@[j].bits) as int == s[2 * j] + s[2 * j + 1],
        decreases half - i,
    {
        proof {
            assert(2 * (half as int) <= n as int);
            assert(2 * (i as int) + 1 < n as int);
            lemma_pair_le_sum(s, i as int);
        }
        let a: u64 = vals[2 * i].bits;
        let b: u64 = vals[2 * i + 1].bits;
        out.push(Fx { bits: a + b });
        i += 1;
    }
    if vals.len() % 2 == 1 {
        out.push(vals[vals.len() - 1]);
    }
    proof {
        assert(bits_of(out@) =~= coarse_of(s));
    }
    out
}

/// The split laws of `k` successive scales fitted from a sequence of
/// values, finest first, with the sequence coarsened by pair summation
/// between scales.
pub open spec fn spec_levels(vals: Seq<int>, k: nat) -> Result<Seq<Level>, Error>
    decreases k,
{
    if k == 0 {
        Ok(Seq::<Level>::empty())
    } else if has_zero_pair(vals) {
        Err(Error::InvalidRatioInput)
    } else {
        match spec_level(ratios_of(vals)) {
            Err(e) => Err(e),
            Ok(lv) => match spec_levels(coarse_of(vals), (k - 1) as nat) {
                Err(e) => Err(e),
                Ok(rest) => Ok(seq![lv] + rest),
            },
        }
    }
}

/// Fit `k` scales of split laws, finest first.
fn fit_levels(vals: &Vec<Fx>, k: usize) -> (r: Result<Vec<Level>, Error>)
    requires
        pow2(k as nat) <= vals@.len(),
        sum_of(bits_of(vals@)) <= u64::MAX as int,
    ensures
        match r {
            Ok(lvs) => {
                &&& spec_levels(bits_of(vals@), k as nat) == Ok::<Seq<Level>, Error>(lvs@)
                &&& lvs@.len() == k
                &&& forall|i: int| 0 <= i < lvs@.len() ==> #[trigger] level_wf(lvs@[i])
            },
            Err(e) => spec_levels(bits_of(vals@), k as nat) == Err::<Seq<Level>, Error>(e),
        },
    decreases k,
{
    let ghost s = bits_of(vals@);
    if k == 0 {
        let lvs: Vec<Level> = Vec::new();
        proof {
            assert(lvs@ =~= Seq::<Level>::empty());
        }
        return Ok(lvs);
    }
    proof {
        lemma_pow2_mono(1, k as nat);
        assert(pow2(0) == 1);
        assert(pow2(1) == 2);
        assert(vals@.len() >= 2);
        assert(vals@.len() / 2 >= 1);
    }
    match pass_ratios(vals) {
        Err(e) => Err(e),
        Ok(ratios) => {
            match level_of(&ratios) {
                Err(e) => {
                    proof {
                        assert(spec_level(ratios_of(s)) == Err::<Level, Error>(e));
                    }
                    Err(e)
                },
                Ok(lv) => {
                    let next = coarse(vals);
                    proof {
                        lemma_coarse_sum(s);
                        assert(vals@.len() / 2 >= pow2((k - 1) as nat)) by {
                            assert(pow2(k as nat) == 2 * pow2((k - 1) as nat));
                            assert(vals@.len() / 2 >= (2 * pow2((k - 1) as nat)) / 2)
                                by (nonlinear_arith)
                                requires
                                    vals@.len() >= 2 * pow2((k - 1) as nat);
                            assert((2 * pow2((k - 1) as nat)) / 2 == pow2((k - 1) as nat))
                                by (nonlinear_arith);
                        }
                        assert(next@.len() >= pow2((k - 1) as nat));
                    }
                    match fit_levels(&next, k - 1) {
                        Err(e) => Err(e),
                        Ok(mut rest) => {
                            let ghost tail = rest@;
                            rest.insert(0, lv);
                            proof {
                                assert(rest@ =~= seq![lv] + tail);
                            }
                            Ok(rest)
                        },
                    }
                },
            }
        },
    }
}

/// Fitting the scales can fail only on a zero-sum pair or on degenerate
/// statistics — never for want of data.
pub proof fn lemma_levels_err_kind(vals: Seq<int>, k: nat)
    ensures
        spec_levels(vals, k) is Err ==> (spec_levels(vals, k) == Err::<Seq<Level>, Error>(
            Error::InvalidRatioInput,
        ) || spec_levels(vals, k) == Err::<Seq<Level>, Error>(Error::DegenerateStatistics)),
    decreases k,
{
    if k == 0 {
    } else if has_zero_pair(vals) {
    } else {
        match spec_level(ratios_of(vals)) {
            Err(e) => {},
            Ok(_) => {
                lemma_levels_err_kind(coarse_of(vals), (k - 1) as nat);
            },
        }
    }
}

/// The outcome of fitting a cascade to an increment sequence: the split
/// laws of its `floor(log2(n))` scales, or the failure that stops the fit.
pub open spec fn spec_fit(s: Seq<int>) -> Result<Seq<Level>, Error> {
    if s.len() < 2 {
        Err(Error::InsufficientData)
    } else if sum_of(s) > u64::MAX as int {
        Err(Error::Overflow)
    } else {
        spec_levels(s, flog2(s.len()))
    }
}

/// Fit a binary multiplicative cascade to a sequence of increments.
///
/// With `n >= 2` increments whose total fits the fixed-point range, the
/// model holds exactly `L = floor(log2(n))` split laws — fitting fails
/// with `InsufficientData` if and only if `n < 2` — and its root
/// aggregate is exactly the total of the increments. Fitting draws no
/// randomness: the outcome is a spec-level function of the increments.
pub fn fit(increments: &Vec<Fx>) -> (r: Result<CascadeModel, Error>)
    ensures
        match r {
            Ok(md) => {
                &&& spec_fit(bits_of(increments@)) == Ok::<Seq<Level>, Error>(md.levels@)
                &&& md.levels@.len() == flog2(increments@.len() as nat)
                &&& md.root.bits as int == sum_of(bits_of(increments@))
                &&& md.wf()
                &&& increments@.len() >= 2
            },
            Err(e) => spec_fit(bits_of(increments@)) == Err::<Seq<Level>, Error>(e),
        },
        increments@.len() < 2 <==> r == Result::<CascadeModel, Error>::Err(
            Error::InsufficientData,
        ),
{
    let ghost s = bits_of(increments@);
    let n: usize = increments.len();
    if n < 2 {
        return Err(Error::InsufficientData);
    }
    // Total of the increments: the root aggregate of the cascade.
    let mut acc: u128 = 0;
    let mut i: usize = 0;
    while i < n
        invariant
            0 <= i <= n,
            n == increments@.len(),
            s == bits_of(increments@),
            acc as int == sum_of(s.take(i as int)),
            acc as int <= (i as int) * (u64::MAX as int),
        decreases n - i,
    {
        proof {
            lemma_sum_take_step(s, i as int);
        }
        acc = acc + (increments[i].bits as u128);
        i += 1;
    }
    proof {
        assert(s.take(n as int) =~= s);
    }
    if acc > u64::MAX as u128 {
        return Err(Error::Overflow);
    }
    // The number of dyadic scales: floor(log2(n)).
    let mut l: usize = 0;
    let mut p: usize = 1;
    while p <= n / 2
        invariant
            n == increments@.len(),
            p as nat == pow2(l as nat),
            1 <= p <= n,
            l < p,
        decreases n - p,
    {
        proof {
            assert(2 * (n as int / 2) <= n as int);
        }
        p = 2 * p;
        l += 1;
    }
    proof {
        assert(n < 2 * p);
        assert((2 * p) as nat == pow2((l + 1) as nat));
        lemma_flog2_bounds(n as nat);
        let f = flog2(n as nat);
        if (l as nat) < f {
            lemma_pow2_mono((l + 1) as nat, f);
            assert(false);
        }
        if f < l as nat {
            lemma_pow2_mono((f + 1) as nat, l as nat);
            assert(false);
        }
        assert(l as nat == flog2(n as nat));
    }
    proof {
        lemma_levels_err_kind(s, flog2(n as nat));
    }
    match fit_levels(increments, l) {
        Err(e) => Err(e),
        Ok(lvs) => {
            let md = CascadeModel { levels: lvs, root: Fx { bits: acc as u64 } };
            proof {
                assert(md.wf());
            }
            Ok(md)
        },
    }
}

} // verus!
