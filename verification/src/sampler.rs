//! Synthetic sampling from a fitted cascade.
//!
//! A batch is drawn top-down: starting from the root aggregate, each scale
//! — coarsest first — replaces every current value `v` by the two children
//! `v * r` and `v - v * r`, where `r` is the split ratio drawn from that
//! scale's law. A deterministic scale splits at its observed ratio without
//! consuming randomness; a fitted scale draws one uniform value and maps
//! it into the scale's moment-matched window, clamped into `[0, 1]`. (The
//! inverse distribution function of a Beta law is transcendental and has
//! no place in exact integer arithmetic; the window is the draw with the
//! same mean and variance as the fitted shape parameters, which is what
//! the method-of-moments fit pinned down in the first place.) The
//! right child is the exact complement of the left one, so every pass —
//! and therefore the whole batch — conserves the parent total exactly: a
//! batch of `2^L` increments sums precisely to the root aggregate.
//!
//! Every contract here is functional: the batch and the final generator
//! state are spec-level functions of the model and the starting state, so
//! sampling twice from equal states provably yields equal batches.

use vstd::prelude::*;

use crate::cascade::CascadeModel;
use crate::cascade::Level;
use crate::cascade::bits_of;
use crate::cascade::level_wf;
use crate::cascade::pow2;
use crate::cascade::sum_of;
use crate::fixed::Fx;
use crate::fixed::SCALE;
use crate::fixed::mul_down;
use crate::rng::Source;
use crate::rng::spec_step;
use crate::rng::spec_step_n;
use crate::rng::spec_unit;

verus! {

/// The split ratio one scale yields from a generator state: the observed
/// ratio of a deterministic scale, or a uniform draw mapped into the
/// fitted scale's window `[mean - spread, mean + spread)` and clamped
/// into `[0, 1]`.
pub open spec fn spec_ratio_draw(lv: Level, s: Source) -> int {
    match lv {
        Level::Point { ratio } => ratio.bits as int,
        Level::Fitted { alpha, beta, mean, spread } => {
            let u = spec_unit(s) as int;
            let low = if mean.bits >= spread.bits {
                mean.bits - spread.bits
            } else {
                0
            };
            let r = low + (2 * (spread.bits as int) * u) / (SCALE as int);
            if r > SCALE as int {
                SCALE as int
            } else {
                r
            }
        },
    }
}

/// The generator state after one scale's ratio is obtained: unchanged for
/// a deterministic scale, advanced one step for a fitted one.
pub open spec fn spec_draw_state(lv: Level, s: Source) -> Source {
    match lv {
        Level::Point { ratio } => s,
        Level::Fitted { alpha, beta, mean, spread } => spec_step(s),
    }
}

/// The generator state after `n` values of one scale have been split.
pub open spec fn rng_after(lv: Level, s: Source, n: nat) -> Source {
    match lv {
        Level::Point { ratio } => s,
        Level::Fitted { alpha, beta, mean, spread } => spec_step_n(s, n),
    }
}

/// One top-down pass: each parent value, in order, becomes its left child
/// `v * r` followed by its right child `v - v * r`.
pub open spec fn spec_pass(lv: Level, vals: Seq<int>, s: Source) -> Seq<int> {
    Seq::new(
        2 * vals.len(),
        |j: int|
            {
                let i = j / 2;
                let r = spec_ratio_draw(lv, rng_after(lv, s, i as nat));
                let left = mul_down(vals[i], r);
                if j % 2 == 0 {
                    left
                } else {
                    vals[i] - left
                }
            },
    )
}

/// The batch and final generator state a stack of scales produces from a
/// starting sequence: scales are consumed coarsest (last) to finest
/// (first), each doubling the sequence.
pub open spec fn spec_batch(levels: Seq<Level>, vals: Seq<int>, s: Source) -> (Seq<int>, Source)
    decreases levels.len(),
{
    if levels.len() == 0 {
        (vals, s)
    } else {
        let lv = levels.last();
        spec_batch(levels.drop_last(), spec_pass(lv, vals, s), rng_after(lv, s, vals.len()))
    }
}

/// Obtain one split ratio from a scale, advancing the generator if the
/// scale draws randomness. The ratio always lies in `[0, 1]`.
fn draw_ratio(lv: &Level, src: &mut Source) -> (r: Fx)
    requires
        level_wf(*lv),
    ensures
        r.bits as int == spec_ratio_draw(*lv, *old(src)),
        *final(src) == spec_draw_state(*lv, *old(src)),
        r.bits <= SCALE,
{
    match *lv {
        Level::Point { ratio } => ratio,
        Level::Fitted { alpha, beta, mean, spread } => {
            let u = src.next_unit();
            let w: u64 = spread.bits;
            let m: u64 = mean.bits;
            let low: u64 = if m >= w {
                m - w
            } else {
                0
            };
            proof {
                assert(2 * (w as int) * (u.bits as int) <= 2 * (w as int) * (SCALE as int))
                    by (nonlinear_arith)
                    requires
                        0 <= w as int,
                        0 <= u.bits as int,
                        u.bits as int <= SCALE as int;
                assert((2 * (w as int) * (u.bits as int)) / (SCALE as int) <= 2 * (w as int))
                    by (nonlinear_arith)
                    requires
                        2 * (w as int) * (u.bits as int) <= 2 * (w as int) * (SCALE as int),
                        SCALE as int > 0,
                        0 <= 2 * (w as int) * (u.bits as int);
                assert(0 <= 2 * (w as int) * (u.bits as int)) by (nonlinear_arith)
                    requires
                        0 <= w as int,
                        0 <= u.bits as int;
            }
            let off: u128 = (2u128 * (w as u128) * (u.bits as u128)) / (SCALE as u128);
            let r0: u64 = low + (off as u64);
            let rb: u64 = if r0 > SCALE {
                SCALE
            } else {
                r0
            };
            Fx { bits: rb }
        },
    }
}

/// Split every value of one scale into its two children, in order.
fn split_pass(lv: &Level, vals: &Vec<Fx>, src: &mut Source) -> (out: Vec<Fx>)
    requires
        level_wf(*lv),
    ensures
        bits_of(out@) == spec_pass(*lv, bits_of(vals@), *old(src)),
        *final(src) == rng_after(*lv, *old(src), vals@.len()),
        out@.len() == 2 * vals@.len(),
        sum_of(bits_of(out@)) == sum_of(bits_of(vals@)),
{
    let ghost s0 = *src;
    let ghost sv = bits_of(vals@);
    let ghost full = spec_pass(*lv, sv, s0);
    let n: usize = vals.len();
    let mut out: Vec<Fx> = Vec::new();
    let mut i: usize = 0;
    while i < n
        invariant
            0 <= i <= n,
            n == vals@.len(),
            sv == bits_of(vals@),
            full == spec_pass(*lv, sv, s0),
            level_wf(*lv),
            out@.len() == 2 * i,
            bits_of(out@) == full.take(2 * i),
            *src == rng_after(*lv, s0, i as nat),
            sum_of(bits_of(out@)) == sum_of(sv.take(i as int)),
        decreases n - i,
    {
        let v: u64 = vals[i].bits;
        proof {
            if lv is Fitted {
                assert(spec_step_n(s0, (i + 1) as nat) == spec_step(spec_step_n(s0, i as nat)));
            }
        }
        let r = draw_ratio(lv, src);
        proof {
            assert((v as int) * (r.bits as int) <= (v as int) * (SCALE as int))
                by (nonlinear_arith)
                requires
                    0 <= v as int,
                    0 <= r.bits as int,
                    r.bits as int <= SCALE as int;
            assert(((v as int) * (r.bits as int)) / (SCALE as int) <= v as int)
                by (nonlinear_arith)
                requires
                    (v as int) * (r.bits as int) <= (v as int) * (SCALE as int),
                    SCALE as int > 0,
                    0 <= (v as int) * (r.bits as int);
            assert(0 <= (v as int) * (r.bits as int)) by (nonlinear_arith)
                requires
                    0 <= v as int,
                    0 <= r.bits as int;
        }
        let left: u64 = (((v as u128) * (r.bits as u128)) / (SCALE as u128)) as u64;
        let right: u64 = v - left;
        let ghost old_out = bits_of(out@);
        out.push(Fx { bits: left });
        out.push(Fx { bits: right });
        proof {
            assert(full[2 * (i as int)] == left as int);
            assert(full[2 * (i as int) + 1] == right as int);
            assert(bits_of(out@) =~= full.take(2 * (i as int) + 2));
            crate::cascade::lemma_sum_take_step(full, 2 * (i as int));
            crate::cascade::lemma_sum_take_step(full, 2 * (i as int) + 1);
            crate::cascade::lemma_sum_take_step(sv, i as int);
        }
        i += 1;
    }
    proof {
        assert(full.take(2 * (n as int)) =~= full);
        assert(sv.take(n as int) =~= sv);
    }
    out
}

/// Draw one synthetic batch of `2^L` increments from a fitted cascade.
///
/// The batch and the final generator state are spec-level functions of
/// the model and the starting state — sampling is reproducible — and the
/// batch conserves energy exactly: its increments sum to the root
/// aggregate.
pub fn sample_batch(model: &CascadeModel, src: &mut Source) -> (out: Vec<Fx>)
    requires
        model.wf(),
    ensures
        bits_of(out@) == spec_batch(model.levels@, seq![model.root.bits as int], *old(src)).0,
        *final(src) == spec_batch(model.levels@, seq![model.root.bits as int], *old(src)).1,
        out@.len() == pow2(model.levels@.len()),
        sum_of(bits_of(out@)) == model.root.bits as int,
{
    let ghost s0 = *src;
    let ghost start = seq![model.root.bits as int];
    let mut vals: Vec<Fx> = Vec::new();
    vals.push(model.root);
    proof {
        assert(bits_of(vals@) =~= start);
        assert(start.drop_last() =~= Seq::<int>::empty());
        assert(start.last() == model.root.bits as int);
        assert(sum_of(Seq::<int>::empty()) == 0);
        assert(sum_of(start) == model.root.bits as int);
        assert(pow2(0) == 1);
        assert(model.levels@.take(model.levels@.len() as int) =~= model.levels@);
    }
    let total: usize = model.levels.len();
    let mut k: usize = total;
    while k > 0
        invariant
            0 <= k <= total,
            total == model.levels@.len(),
            model.wf(),
            spec_batch(model.levels@, start, s0) == spec_batch(
                model.levels@.take(k as int),
                bits_of(vals@),
                *src,
            ),
            vals@.len() == pow2((total - k) as nat),
            sum_of(bits_of(vals@)) == model.root.bits as int,
        decreases k,
    {
        let ghost before = model.levels@.take(k as int);
        proof {
            assert(model.levels@.take(k as int).last() == model.levels@[k as int - 1]);
            assert(level_wf(model.levels@[k as int - 1]));
            assert(before.drop_last() =~= model.levels@.take(k as int - 1));
        }
        let lv: Level = model.levels[k - 1];
        let next = split_pass(&lv, &vals, src);
        vals = next;
        k -= 1;
        proof {
            assert(pow2((total - k) as nat) == 2 * pow2((total - k - 1) as nat));
        }
    }
    proof {
        assert(model.levels@.take(0) =~= Seq::<Level>::empty());
    }
    vals
}

} // verus!
