use mina::cascade::fit;
use mina::fixed::{Fx, SCALE};
use mina::rng::Source;
use mina::sampler::sample_batch;
use mina::stream::{Fractal, Traffic};

fn whole(v: u64) -> Fx {
    Fx { bits: v * SCALE }
}

fn varied_increments() -> Vec<Fx> {
    // Ratios 1/3 and 2/3 at the finest scale, a single ratio above: one
    // fitted scale over one deterministic scale, root 6.
    vec![whole(1), whole(2), whole(2), whole(1)]
}

#[test]
fn batch_conserves_energy_exactly() {
    let model = fit(&varied_increments()).unwrap();
    let mut src = Source::seed(42);
    for _ in 0..16 {
        let batch = sample_batch(&model, &mut src);
        assert_eq!(batch.len(), 4);
        let total: u64 = batch.iter().map(|x| x.bits).sum();
        assert_eq!(total, model.root.bits);
    }
}

#[test]
fn batch_size_is_two_to_the_scale_count() {
    for n in [2usize, 3, 4, 6, 9] {
        let inc: Vec<Fx> = (0..n).map(|i| whole(i as u64 + 1)).collect();
        let model = match fit(&inc) {
            Ok(model) => model,
            Err(_) => continue,
        };
        let mut src = Source::seed(5);
        let batch = sample_batch(&model, &mut src);
        assert_eq!(batch.len(), 1usize << model.levels.len());
    }
}

#[test]
fn sampling_same_seed_twice_is_identical() {
    let model = fit(&varied_increments()).unwrap();
    let mut a = Source::seed(1234);
    let mut b = Source::seed(1234);
    for _ in 0..8 {
        let x = sample_batch(&model, &mut a);
        let y = sample_batch(&model, &mut b);
        assert_eq!(x, y);
    }
}

#[test]
fn repeated_batches_differ() {
    let model = fit(&varied_increments()).unwrap();
    let mut src = Source::seed(7);
    let first = sample_batch(&model, &mut src);
    let second = sample_batch(&model, &mut src);
    assert_ne!(first, second);
}

#[test]
fn streams_with_equal_seeds_agree() {
    let mut a = Fractal::new(&varied_increments(), Source::seed(99)).unwrap();
    let mut b = Fractal::new(&varied_increments(), Source::seed(99)).unwrap();
    for _ in 0..20 {
        assert_eq!(a.next(), b.next());
    }
}

#[test]
fn peek_is_idempotent() {
    let mut f = Fractal::new(&varied_increments(), Source::seed(3)).unwrap();
    let first = f.peek();
    let len_after_first = f.arrivals.len();
    let second = f.peek();
    assert_eq!(first, second);
    assert_eq!(f.arrivals.len(), len_after_first);
    assert!(first.is_some());
}

#[test]
fn peek_agrees_with_next() {
    let mut f = Fractal::new(&varied_increments(), Source::seed(3)).unwrap();
    for _ in 0..10 {
        let ahead = f.peek();
        assert_eq!(ahead, f.next());
    }
}

#[test]
fn next_removes_exactly_one() {
    let mut f = Fractal::new(&varied_increments(), Source::seed(8)).unwrap();
    f.peek();
    let full = f.arrivals.len();
    assert_eq!(full, 4);
    f.next();
    assert_eq!(f.arrivals.len(), full - 1);
    f.next();
    assert_eq!(f.arrivals.len(), full - 2);
}

#[test]
fn refill_queues_a_whole_batch() {
    let mut f = Fractal::new(&varied_increments(), Source::seed(8)).unwrap();
    assert_eq!(f.arrivals.len(), 0);
    f.peek();
    assert_eq!(f.arrivals.len(), 1 << f.model.levels.len());
}

#[test]
fn outputs_increase_for_positive_batches() {
    let mut f = Fractal::new(&varied_increments(), Source::seed(21)).unwrap();
    let mut last: u64 = 0;
    for _ in 0..40 {
        let t = f.next().unwrap();
        assert!(t.bits > last, "t = {}, last = {}", t.bits, last);
        last = t.bits;
    }
}

#[test]
fn traffic_trait_drives_the_stream() {
    fn drain<T: Traffic>(source: &mut T, n: usize) -> Vec<Fx> {
        let mut out = Vec::new();
        for _ in 0..n {
            out.push(source.next().unwrap());
        }
        out
    }
    let mut f = Fractal::new(&varied_increments(), Source::seed(2)).unwrap();
    let got = drain(&mut f, 6);
    assert_eq!(got.len(), 6);
}

#[test]
fn end_to_end_regular_trace() {
    // Timestamps 0, 1, 2, 3: increments 1, 1, 1, one scale, root 3. The
    // only scale splits deterministically at one half, so two requested
    // arrivals are exactly 1.5 and 3.0, and each full batch of two steps
    // sums to the root aggregate.
    let trace = vec![whole(0), whole(1), whole(2), whole(3)];
    let inc = mina::cascade::increments(&trace).unwrap();
    assert_eq!(inc.len(), 3);
    let mut f = Fractal::new(&inc, Source::seed(42)).unwrap();
    assert_eq!(f.model.levels.len(), 1);
    let a = f.next().unwrap();
    let b = f.next().unwrap();
    assert!(a.bits < b.bits);
    assert_eq!(a.bits, 3 * SCALE / 2);
    assert_eq!(b.bits, 3 * SCALE);
    assert_eq!((a.bits - 0) + (b.bits - a.bits), f.model.root.bits);
}

#[test]
fn single_timestamp_fails_before_sampling() {
    let trace = vec![whole(0)];
    let err = mina::cascade::increments(&trace).unwrap_err();
    assert_eq!(err, mina::cascade::Error::InsufficientData);
    // Feeding the empty increment set onward fails the same way.
    let err = Fractal::new(&vec![], Source::seed(42)).unwrap_err();
    assert_eq!(err, mina::cascade::Error::InsufficientData);
}
