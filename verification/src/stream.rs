//! The buffered arrival stream.
//!
//! A `Fractal` pairs a fitted cascade with a running clock and a FIFO
//! queue of pending arrival timestamps. Whenever the queue is empty, one
//! synthetic batch is drawn, turned into absolute timestamps by cumulative
//! addition from the clock, and queued; `peek` then reads the head without
//! removing it and `next` consumes it. The stream is unbounded: it refills
//! itself for as long as the clock stays inside the fixed-point range.
//!
//! Every transition is a spec-level function of the stream's state, so two
//! streams built from the same data and seed provably emit identical
//! timestamp sequences.

use std::collections::VecDeque;

use vstd::prelude::*;

use crate::cascade::CascadeModel;
use crate::cascade::Error;
use crate::cascade::Level;
use crate::cascade::bits_of;
use crate::cascade::level_wf;
use crate::cascade::pow2;
use crate::cascade::spec_fit;
use crate::cascade::sum_of;
use crate::cascade::lemma_sum_take_skip;
use crate::cascade::lemma_sum_take_step;
use crate::cascade::lemma_sum_nonneg;
use crate::fixed::Fx;
use crate::fixed::SCALE;
use crate::fixed::mul_down;
use crate::rng::Source;
use crate::sampler::sample_batch;
use crate::sampler::spec_batch;
use crate::sampler::spec_pass;
use crate::sampler::spec_ratio_draw;
use crate::sampler::rng_after;

verus! {

/// The abstract state of a buffered arrival stream: the clock, the queued
/// absolute timestamps, the fitted scales with their root aggregate, and
/// the generator state — all over raw fixed-point bits.
pub struct StreamView {
    pub time: int,
    pub queue: Seq<int>,
    pub levels: Seq<Level>,
    pub root: int,
    pub src: Source,
}

/// Well-formedness of a stream state: a usable model, clock and queue in
/// the fixed-point range, and queued timestamps non-decreasing and no
/// later than the clock.
pub open spec fn view_wf(v: StreamView) -> bool {
    &&& v.levels.len() >= 1
    &&& forall|i: int| 0 <= i < v.levels.len() ==> #[trigger] level_wf(v.levels[i])
    &&& 0 <= v.time <= u64::MAX as int
    &&& 0 <= v.root <= u64::MAX as int
    &&& forall|i: int| 0 <= i < v.queue.len() ==> 0 <= #[trigger] v.queue[i] <= v.time
    &&& forall|i: int| 0 <= i < v.queue.len() - 1 ==> #[trigger] v.queue[i] <= v.queue[i + 1]
}

/// The absolute timestamps a batch of increments yields by cumulative
/// addition from a starting clock.
pub open spec fn cum_times(t0: int, inc: Seq<int>) -> Seq<int> {
    Seq::new(inc.len(), |j: int| t0 + sum_of(inc.take(j + 1)))
}

/// Whether one more batch fits the clock's range.
pub open spec fn can_fill(v: StreamView) -> bool {
    v.time + v.root <= u64::MAX as int
}

/// The state after the refill-if-empty step shared by `peek` and `next`:
/// an empty queue is replenished from one sampled batch — if the clock can
/// still advance by the root aggregate — and a non-empty queue is left
/// untouched.
pub open spec fn fill_of(v: StreamView) -> StreamView {
    if v.queue.len() > 0 || !can_fill(v) {
        v
    } else {
        let b = spec_batch(v.levels, seq![v.root], v.src);
        StreamView {
            time: v.time + sum_of(b.0),
            queue: cum_times(v.time, b.0),
            levels: v.levels,
            root: v.root,
            src: b.1,
        }
    }
}

/// What `peek` returns: the head of the replenished queue.
pub open spec fn peek_of(v: StreamView) -> Option<Fx> {
    let g = fill_of(v);
    if g.queue.len() > 0 {
        Some(Fx { bits: g.queue[0] as u64 })
    } else {
        None
    }
}

/// Sums are additive over concatenation.
pub proof fn lemma_sum_concat(a: Seq<int>, b: Seq<int>)
    ensures
        sum_of(a + b) == sum_of(a) + sum_of(b),
{
    let c = a + b;
    lemma_sum_take_skip(c, a.len() as int);
    assert(c.take(a.len() as int) =~= a);
    assert(c.skip(a.len() as int) =~= b);
}

/// The sum of a one-element sequence is its element.
pub proof fn lemma_sum_single(x: int)
    ensures
        sum_of(seq![x]) == x,
{
    assert(seq![x].drop_last() =~= Seq::<int>::empty());
    assert(seq![x].last() == x);
    assert(sum_of(Seq::<int>::empty()) == 0);
}

/// One splitting pass conserves the total and keeps every value
/// non-negative.
pub proof fn lemma_pass_sum(lv: Level, vals: Seq<int>, s: Source)
    requires
        level_wf(lv),
        forall|i: int| 0 <= i < vals.len() ==> 0 <= #[trigger] vals[i],
    ensures
        sum_of(spec_pass(lv, vals, s)) == sum_of(vals),
        forall|j: int|
            0 <= j < spec_pass(lv, vals, s).len() ==> 0 <= #[trigger] spec_pass(lv, vals, s)[j],
    decreases vals.len(),
{
    let out = spec_pass(lv, vals, s);
    assert forall|j: int| 0 <= j < out.len() implies 0 <= #[trigger] out[j] by {
        let i = j / 2;
        let r = spec_ratio_draw(lv, rng_after(lv, s, i as nat));
        assert(0 <= r <= SCALE as int);
        assert(0 <= vals[i] * r) by (nonlinear_arith)
            requires
                0 <= vals[i],
                0 <= r;
        assert(vals[i] * r <= vals[i] * (SCALE as int)) by (nonlinear_arith)
            requires
                0 <= vals[i],
                0 <= r,
                r <= SCALE as int;
        assert(0 <= (vals[i] * r) / (SCALE as int) && (vals[i] * r) / (SCALE as int) <= vals[i])
            by (nonlinear_arith)
            requires
                0 <= vals[i] * r,
                vals[i] * r <= vals[i] * (SCALE as int),
                SCALE as int > 0;
    }
    if vals.len() == 0 {
        assert(out =~= Seq::<int>::empty());
    } else {
        let head = vals.drop_last();
        lemma_pass_sum(lv, head, s);
        let prev = spec_pass(lv, head, s);
        let n = vals.len() - 1;
        let r = spec_ratio_draw(lv, rng_after(lv, s, n as nat));
        let left = mul_down(vals[n], r);
        let tail = seq![left, vals[n] - left];
        assert(out =~= prev + tail);
        lemma_sum_concat(prev, tail);
        assert(tail.drop_last() =~= seq![left]);
        lemma_sum_single(left);
        assert(sum_of(tail) == vals[n]);
        assert(sum_of(vals) == sum_of(head) + vals[n]);
    }
}

/// A whole batch conserves the total it starts from, keeps every value
/// non-negative, and has exactly `2^L` values for `L` scales over one
/// starting value.
pub proof fn lemma_batch_sum(levels: Seq<Level>, vals: Seq<int>, s: Source)
    requires
        forall|i: int| 0 <= i < levels.len() ==> #[trigger] level_wf(levels[i]),
        forall|i: int| 0 <= i < vals.len() ==> 0 <= #[trigger] vals[i],
    ensures
        sum_of(spec_batch(levels, vals, s).0) == sum_of(vals),
        forall|j: int|
            0 <= j < spec_batch(levels, vals, s).0.len() ==> 0 <= #[trigger] spec_batch(
                levels,
                vals,
                s,
            ).0[j],
        spec_batch(levels, vals, s).0.len() == pow2(levels.len()) * vals.len(),
    decreases levels.len(),
{
    if levels.len() == 0 {
        assert(pow2(0) == 1);
    } else {
        let lv = levels.last();
        lemma_pass_sum(lv, vals, s);
        lemma_batch_sum(levels.drop_last(), spec_pass(lv, vals, s), rng_after(lv, s, vals.len()));
        assert(pow2(levels.len()) == 2 * pow2((levels.len() - 1) as nat));
        assert(pow2((levels.len() - 1) as nat) * (2 * vals.len()) == (2 * pow2(
            (levels.len() - 1) as nat,
        )) * vals.len()) by (nonlinear_arith);
    }
}

/// Powers of two are positive.
pub proof fn lemma_pow2_pos(k: nat)
    ensures
        pow2(k) >= 1,
    decreases k,
{
    if k > 0 {
        lemma_pow2_pos((k - 1) as nat);
    }
}

/// The cumulative timestamps of a batch never decrease, stay above the
/// starting clock, and stay below the clock advanced by the batch total;
/// with strictly positive increments they strictly increase.
pub proof fn lemma_cum_times(t0: int, inc: Seq<int>)
    requires
        forall|i: int| 0 <= i < inc.len() ==> 0 <= #[trigger] inc[i],
    ensures
        forall|j: int|
            0 <= j < inc.len() - 1 ==> #[trigger] cum_times(t0, inc)[j] <= cum_times(t0, inc)[j
                + 1],
        forall|j: int|
            0 <= j < inc.len() ==> t0 <= #[trigger] cum_times(t0, inc)[j] <= t0 + sum_of(inc),
        (forall|i: int| 0 <= i < inc.len() ==> 0 < #[trigger] inc[i]) ==> (forall|j: int|
            0 <= j < inc.len() - 1 ==> #[trigger] cum_times(t0, inc)[j] < cum_times(t0, inc)[j
                + 1]),
        inc.len() > 0 ==> cum_times(t0, inc)[0] == t0 + inc[0],
{
    let c = cum_times(t0, inc);
    assert forall|j: int| 0 <= j < inc.len() - 1 implies #[trigger] c[j] <= c[j + 1] by {
        lemma_sum_take_step(inc, j + 1);
        assert(0 <= inc[j + 1]);
    }
    assert forall|j: int| 0 <= j < inc.len() implies t0 <= #[trigger] c[j] <= t0 + sum_of(inc) by {
        lemma_sum_take_skip(inc, j + 1);
        assert(forall|i: int|
            0 <= i < inc.skip(j + 1).len() ==> 0 <= #[trigger] inc.skip(j + 1)[i]);
        lemma_sum_nonneg(inc.skip(j + 1));
        assert(forall|i: int|
            0 <= i < inc.take(j + 1).len() ==> 0 <= #[trigger] inc.take(j + 1)[i]);
        lemma_sum_nonneg(inc.take(j + 1));
    }
    if forall|i: int| 0 <= i < inc.len() ==> 0 < #[trigger] inc[i] {
        assert forall|j: int| 0 <= j < inc.len() - 1 implies #[trigger] c[j] < c[j + 1] by {
            lemma_sum_take_step(inc, j + 1);
            assert(0 < inc[j + 1]);
        }
    }
    if inc.len() > 0 {
        assert(inc.take(1) =~= seq![inc[0]]);
        lemma_sum_single(inc[0]);
    }
}

/// Replenishing preserves well-formedness.
pub proof fn lemma_fill_wf(v: StreamView)
    requires
        view_wf(v),
    ensures
        view_wf(fill_of(v)),
        fill_of(v).levels == v.levels,
        fill_of(v).root == v.root,
{
    if v.queue.len() > 0 || !can_fill(v) {
    } else {
        let b = spec_batch(v.levels, seq![v.root], v.src);
        lemma_sum_single(v.root);
        assert(seq![v.root][0] == v.root);
        lemma_batch_sum(v.levels, seq![v.root], v.src);
        lemma_cum_times(v.time, b.0);
    }
}

/// Replenishing an already replenished stream changes nothing, and when
/// the model can fill at all, the replenished queue is never empty.
pub proof fn lemma_fill_idempotent(v: StreamView)
    requires
        view_wf(v),
    ensures
        fill_of(fill_of(v)) == fill_of(v),
{
    if v.queue.len() > 0 || !can_fill(v) {
    } else {
        let b = spec_batch(v.levels, seq![v.root], v.src);
        lemma_sum_single(v.root);
        assert(seq![v.root][0] == v.root);
        lemma_batch_sum(v.levels, seq![v.root], v.src);
        lemma_pow2_pos(v.levels.len());
        assert(b.0.len() == pow2(v.levels.len()) * 1);
        assert(pow2(v.levels.len()) * 1 == pow2(v.levels.len())) by (nonlinear_arith);
        assert(b.0.len() >= 1);
        assert(fill_of(v).queue.len() > 0);
    }
}

/// A replenishment that draws a batch queues exactly `2^L` new
/// timestamps, one per synthetic increment.
pub proof fn lemma_fill_batch_size(v: StreamView)
    requires
        view_wf(v),
        v.queue.len() == 0,
        can_fill(v),
    ensures
        fill_of(v).queue.len() == pow2(v.levels.len()),
{
    lemma_sum_single(v.root);
    assert(seq![v.root][0] == v.root);
    lemma_batch_sum(v.levels, seq![v.root], v.src);
    assert(pow2(v.levels.len()) * 1 == pow2(v.levels.len())) by (nonlinear_arith);
}

/// Peeking is idempotent: peeking twice in a row — without an intervening
/// consume — returns the same value and leaves the queue as it was.
pub proof fn lemma_peek_idempotent(v: StreamView)
    requires
        view_wf(v),
    ensures
        fill_of(fill_of(v)) == fill_of(v),
        peek_of(fill_of(v)) == peek_of(v),
{
    lemma_fill_idempotent(v);
}

/// The stream state and its outputs are functions of the state alone: two
/// streams in equal states replenish to equal states and peek equal
/// values, which makes runs with equal data and equal seeds identical.
pub proof fn lemma_deterministic(a: StreamView, b: StreamView)
    requires
        a == b,
    ensures
        fill_of(a) == fill_of(b),
        peek_of(a) == peek_of(b),
{
}

/// A replenished queue of strictly positive increments is strictly
/// increasing, and every queued timestamp lies strictly after the clock
/// the batch started from.
pub proof fn lemma_fill_monotone(v: StreamView)
    requires
        view_wf(v),
        v.queue.len() == 0,
        can_fill(v),
        forall|j: int|
            0 <= j < spec_batch(v.levels, seq![v.root], v.src).0.len() ==> 0 < #[trigger]
            spec_batch(v.levels, seq![v.root], v.src).0[j],
    ensures
        forall|j: int|
            0 <= j < fill_of(v).queue.len() - 1 ==> #[trigger] fill_of(v).queue[j] < fill_of(
                v,
            ).queue[j + 1],
        forall|j: int| 0 <= j < fill_of(v).queue.len() ==> v.time < #[trigger] fill_of(v).queue[j],
{
    let b = spec_batch(v.levels, seq![v.root], v.src);
    lemma_sum_single(v.root);
    assert(seq![v.root][0] == v.root);
    lemma_batch_sum(v.levels, seq![v.root], v.src);
    lemma_cum_times(v.time, b.0);
    let c = cum_times(v.time, b.0);
    assert forall|j: int| 0 <= j < c.len() implies v.time < #[trigger] c[j] by {
        lemma_cum_strict_chain(v.time, b.0, j);
    }
}

/// Every cumulative timestamp of a strictly positive batch lies strictly
/// after the starting clock.
pub proof fn lemma_cum_strict_chain(t0: int, inc: Seq<int>, j: int)
    requires
        forall|i: int| 0 <= i < inc.len() ==> 0 < #[trigger] inc[i],
        0 <= j < inc.len(),
    ensures
        t0 < cum_times(t0, inc)[j],
    decreases j,
{
    lemma_cum_times(t0, inc);
    if j == 0 {
    } else {
        lemma_cum_strict_chain(t0, inc, j - 1);
    }
}

/// A lazily replenished, unbounded stream of synthetic arrival
/// timestamps drawn from a fitted cascade.
#[derive(Debug)]
pub struct Fractal {
    /// The clock: the last absolute timestamp handed to the queue.
    pub time: Fx,
    /// The fitted cascade the batches are drawn from.
    pub model: CascadeModel,
    /// Absolute timestamps generated but not yet consumed, oldest first.
    pub arrivals: VecDeque<Fx>,
    /// The deterministic generator state.
    pub source: Source,
}

impl View for Fractal {
    type V = StreamView;

    open spec fn view(&self) -> StreamView {
        StreamView {
            time: self.time.bits as int,
            queue: bits_of(self.arrivals@),
            levels: self.model.levels@,
            root: self.model.root.bits as int,
            src: self.source,
        }
    }
}

/// A source of arrival timestamps: consume the next one, or inspect it
/// without consuming it. Implementors state what a usable state is; both
/// operations keep the state usable.
pub trait Traffic {
    /// A state the operations may be called in.
    spec fn ready(&self) -> bool;

    /// Remove and return the next arrival timestamp.
    fn next(&mut self) -> (r: Option<Fx>)
        requires
            old(self).ready(),
        ensures
            final(self).ready(),
    ;

    /// Return the next arrival timestamp without removing it.
    fn peek(&mut self) -> (r: Option<Fx>)
        requires
            old(self).ready(),
        ensures
            final(self).ready(),
    ;
}

impl Fractal {
    /// Well-formedness of the stream state.
    pub open spec fn wf(&self) -> bool {
        view_wf(self@)
    }

    /// Build a stream from a sequence of inter-arrival increments and a
    /// seeded generator: the cascade is fitted to the increments, the
    /// clock starts at zero and the queue empty. Fails exactly where
    /// fitting fails — in particular with `InsufficientData` if and only
    /// if fewer than two increments are supplied.
    pub fn new(data: &Vec<Fx>, source: Source) -> (r: Result<Fractal, Error>)
        ensures
            match r {
                Ok(f) => {
                    &&& spec_fit(bits_of(data@)) == Ok::<Seq<Level>, Error>(f.model.levels@)
                    &&& f.model.levels@.len() == crate::cascade::flog2(data@.len() as nat)
                    &&& f.model.root.bits as int == sum_of(bits_of(data@))
                    &&& f.time.bits == 0
                    &&& f.arrivals@.len() == 0
                    &&& f.source == source
                    &&& f.wf()
                },
                Err(e) => spec_fit(bits_of(data@)) == Err::<Seq<Level>, Error>(e),
            },
            data@.len() < 2 <==> r is Err && r == Result::<Fractal, Error>::Err(
                Error::InsufficientData,
            ),
    {
        match crate::cascade::fit(data) {
            Err(e) => Err(e),
            Ok(model) => {
                let f = Fractal {
                    time: Fx { bits: 0 },
                    model,
                    arrivals: VecDeque::new(),
                    source,
                };
                proof {
                    assert(bits_of(f.arrivals@) =~= Seq::<int>::empty());
                }
                Ok(f)
            },
        }
    }

    /// Draw one batch and queue its cumulative timestamps, advancing the
    /// clock to the last of them. A clock that can no longer advance by
    /// the root aggregate leaves the stream unchanged.
    fn refill(&mut self)
        requires
            old(self).wf(),
            old(self).arrivals@.len() == 0,
        ensures
            final(self)@ == fill_of(old(self)@),
            final(self).wf(),
    {
        proof {
            lemma_fill_wf(old(self)@);
        }
        if self.time.bits > u64::MAX - self.model.root.bits {
            return ;
        }
        let ghost v0 = self@;
        let t0: u64 = self.time.bits;
        let batch = sample_batch(&self.model, &mut self.source);
        let ghost inc = bits_of(batch@);
        proof {
            lemma_sum_single(v0.root);
            assert(seq![v0.root][0] == v0.root);
            assert(inc == spec_batch(v0.levels, seq![v0.root], v0.src).0);
            assert(sum_of(inc) == v0.root);
            assert(forall|i: int| 0 <= i < inc.len() ==> 0 <= #[trigger] inc[i]);
            lemma_cum_times(t0 as int, inc);
        }
        let n: usize = batch.len();
        let mut i: usize = 0;
        while i < n
            invariant
                0 <= i <= n,
                n == batch@.len(),
                inc == bits_of(batch@),
                sum_of(inc) == v0.root,
                0 <= v0.root,
                (t0 as int) + v0.root <= u64::MAX as int,
                forall|j: int| 0 <= j < inc.len() ==> 0 <= #[trigger] inc[j],
                self.time.bits as int == t0 as int + sum_of(inc.take(i as int)),
                bits_of(self.arrivals@) == cum_times(t0 as int, inc).take(i as int),
                self.model == old(self).model,
                self.source == spec_batch(v0.levels, seq![v0.root], v0.src).1,
            decreases n - i,
        {
            proof {
                lemma_sum_take_step(inc, i as int);
                lemma_sum_take_skip(inc, i as int + 1);
                assert(forall|j: int|
                    0 <= j < inc.skip(i as int + 1).len() ==> 0 <= #[trigger] inc.skip(
                        i as int + 1,
                    )[j]);
                lemma_sum_nonneg(inc.skip(i as int + 1));
                assert(forall|j: int|
                    0 <= j < inc.take(i as int).len() ==> 0 <= #[trigger] inc.take(i as int)[j]);
                lemma_sum_nonneg(inc.take(i as int));
            }
            let step: u64 = batch[i].bits;
            let nt: u64 = self.time.bits + step;
            let ghost prev = self.arrivals@;
            self.time = Fx { bits: nt };
            self.arrivals.push_back(Fx { bits: nt });
            proof {
                let c = cum_times(t0 as int, inc);
                assert(self.arrivals@ == prev.push(Fx { bits: nt }));
                assert(bits_of(prev).len() == prev.len());
                assert(prev.len() == i as int);
                assert(nt as int == c[i as int]);
                assert forall|j: int| 0 <= j < i + 1 implies bits_of(self.arrivals@)[j] == c.take(
                    i as int + 1,
                )[j] by {
                    if j < i {
                        assert(bits_of(prev)[j] == c.take(i as int)[j]);
                        assert(self.arrivals@[j] == prev[j]);
                    } else {
                        assert(self.arrivals@[j] == Fx { bits: nt });
                    }
                }
                assert(bits_of(self.arrivals@) =~= c.take(i as int + 1));
            }
            i += 1;
        }
        proof {
            assert(inc.take(n as int) =~= inc);
            assert(cum_times(t0 as int, inc).take(n as int) =~= cum_times(t0 as int, inc));
            assert(self@ == fill_of(v0));
        }
    }

    /// Return the next arrival timestamp without removing it,
    /// replenishing the queue first if it is empty.
    pub fn peek(&mut self) -> (r: Option<Fx>)
        requires
            old(self).wf(),
        ensures
            final(self)@ == fill_of(old(self)@),
            final(self).wf(),
            r == peek_of(old(self)@),
    {
        proof {
            lemma_fill_wf(old(self)@);
        }
        if self.arrivals.len() == 0 {
            self.refill();
        }
        if self.arrivals.len() == 0 {
            None
        } else {
            let head: Fx = self.arrivals[0];
            Some(head)
        }
    }

    /// Remove and return the next arrival timestamp, replenishing the
    /// queue first if it is empty. Consuming removes exactly one element:
    /// the queue is one shorter than the replenished queue it came from.
    #[verifier::rlimit(100)]
    pub fn next(&mut self) -> (r: Option<Fx>)
        requires
            old(self).wf(),
        ensures
            final(self).wf(),
            ({
                let g = fill_of(old(self)@);
                if g.queue.len() == 0 {
                    r is None && final(self)@ == g
                } else {
                    &&& r == Some(Fx { bits: g.queue[0] as u64 })
                    &&& r == peek_of(old(self)@)
                    &&& final(self)@.queue == g.queue.skip(1)
                    &&& final(self)@.queue.len() == g.queue.len() - 1
                    &&& final(self)@.time == g.time
                    &&& final(self)@.levels == g.levels
                    &&& final(self)@.root == g.root
                    &&& final(self)@.src == g.src
                }
            }),
    {
        proof {
            lemma_fill_wf(old(self)@);
        }
        if self.arrivals.len() == 0 {
            self.refill();
        }
        let ghost g = fill_of(old(self)@);
        match self.arrivals.pop_front() {
            None => None,
            Some(head) => {
                proof {
                    assert(bits_of(self.arrivals@) =~= g.queue.skip(1));
                }
                Some(head)
            },
        }
    }
}

impl Traffic for Fractal {
    open spec fn ready(&self) -> bool {
        self.wf()
    }

    fn next(&mut self) -> (r: Option<Fx>) {
        Fractal::next(self)
    }

    fn peek(&mut self) -> (r: Option<Fx>) {
        Fractal::peek(self)
    }
}

} // verus!
