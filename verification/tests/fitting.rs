use mina::cascade::{fit, increments, CascadeModel, Error, Level};
use mina::fixed::{isqrt128, Fx, SCALE};
use mina::rng::{Source, SALT_HI, SALT_LO};

fn whole(v: u64) -> Fx {
    Fx { bits: v * SCALE }
}

#[test]
fn isqrt_exact_values() {
    assert_eq!(isqrt128(0), 0);
    assert_eq!(isqrt128(1), 1);
    assert_eq!(isqrt128(3), 1);
    assert_eq!(isqrt128(4), 2);
    assert_eq!(isqrt128(15), 3);
    assert_eq!(isqrt128(16), 4);
    assert_eq!(isqrt128(1u128 << 64), 1u64 << 32);
    assert_eq!(isqrt128((1u128 << 66) - 1), (1u64 << 33) - 1);
}

#[test]
fn fixed_constructors() {
    assert_eq!(Fx::zero().bits, 0);
    assert_eq!(Fx::from_bits(7).bits, 7);
    assert_eq!(Fx::from_whole(3).bits, 3 * SCALE);
}

#[test]
fn seed_folds_both_salts() {
    let s = Source::seed(42);
    assert_eq!(s.lo, 42 ^ SALT_LO);
    assert_eq!(s.hi, 42 ^ SALT_HI);
    assert_eq!(SALT_LO, 0x12345678);
    assert_eq!(SALT_HI, 0x87654321);
}

#[test]
fn unit_draws_lie_in_the_unit_interval() {
    let mut s = Source::seed(1);
    for _ in 0..100 {
        let u = s.next_unit();
        assert!(u.bits < SCALE);
    }
}

#[test]
fn unit_draws_vary() {
    let mut s = Source::seed(9);
    let a = s.next_unit();
    let b = s.next_unit();
    let c = s.next_unit();
    assert!(a != b || b != c);
}

#[test]
fn increments_of_a_regular_trace() {
    let trace = vec![whole(0), whole(1), whole(2), whole(3)];
    let inc = increments(&trace).unwrap();
    assert_eq!(inc.len(), 3);
    for step in &inc {
        assert_eq!(step.bits, SCALE);
    }
}

#[test]
fn increments_count_is_one_less_than_the_trace() {
    for n in 2u64..10 {
        let trace: Vec<Fx> = (0..n).map(|i| whole(i * i + 1)).collect();
        let inc = increments(&trace).unwrap();
        assert_eq!(inc.len(), (n - 1) as usize);
    }
}

#[test]
fn increments_reject_a_single_timestamp() {
    let trace = vec![whole(0)];
    assert_eq!(increments(&trace).unwrap_err(), Error::InsufficientData);
}

#[test]
fn increments_reject_an_empty_trace() {
    let trace: Vec<Fx> = vec![];
    assert_eq!(increments(&trace).unwrap_err(), Error::InsufficientData);
}

#[test]
fn increments_reject_a_flat_step() {
    let trace = vec![whole(0), whole(5), whole(5)];
    assert_eq!(increments(&trace).unwrap_err(), Error::NonPositiveIncrement);
}

#[test]
fn fit_needs_two_increments() {
    assert_eq!(fit(&vec![whole(1)]).unwrap_err(), Error::InsufficientData);
    assert_eq!(fit(&vec![]).unwrap_err(), Error::InsufficientData);
}

#[test]
fn fit_scale_count_is_floor_log2() {
    for (n, l) in [(2u64, 1usize), (3, 1), (4, 2), (5, 2), (7, 2), (8, 3)] {
        let inc: Vec<Fx> = (0..n).map(|i| whole(i + 1)).collect();
        let model = fit(&inc).unwrap();
        assert_eq!(model.levels.len(), l, "n = {}", n);
    }
}

#[test]
fn fit_root_is_the_total() {
    let inc = vec![whole(1), whole(2), whole(2), whole(1)];
    let model = fit(&inc).unwrap();
    assert_eq!(model.root.bits, 6 * SCALE);
}

#[test]
fn fit_single_pair_scale_is_deterministic() {
    // Three equal increments: one observed ratio of one half at the only
    // scale, so the scale is a deterministic split.
    let inc = vec![whole(1), whole(1), whole(1)];
    let model = fit(&inc).unwrap();
    assert_eq!(model.levels.len(), 1);
    match model.levels[0] {
        Level::Point { ratio } => assert_eq!(ratio.bits, SCALE / 2),
        Level::Fitted { .. } => panic!("a single ratio admits no dispersion estimate"),
    }
    assert_eq!(model.root.bits, 3 * SCALE);
}

#[test]
fn fit_two_point_ratios_give_symmetric_shapes() {
    // Ratios 1/3 and 2/3 at the finest scale: method of moments gives the
    // symmetric shape pair alpha = beta = 4, up to fixed-point rounding.
    let inc = vec![whole(1), whole(2), whole(2), whole(1)];
    let model = fit(&inc).unwrap();
    assert_eq!(model.levels.len(), 2);
    match model.levels[0] {
        Level::Fitted { alpha, beta, mean, spread } => {
            let four = 4 * SCALE;
            assert!(alpha.bits.abs_diff(four) < 4096, "alpha = {}", alpha.bits);
            assert!(beta.bits.abs_diff(four) < 4096, "beta = {}", beta.bits);
            assert!(mean.bits.abs_diff(SCALE / 2) < 2);
            // Half-width sqrt(3 * v) with v = 1/36: one sixth of one half.
            assert!(spread.bits.abs_diff(1239850262) < 64, "spread = {}", spread.bits);
        },
        Level::Point { .. } => panic!("two distinct ratios give a fitted scale"),
    }
    match model.levels[1] {
        Level::Point { ratio } => assert_eq!(ratio.bits, SCALE / 2),
        Level::Fitted { .. } => panic!("the coarsest scale has a single ratio"),
    }
}

#[test]
fn fit_rejects_zero_variance() {
    // Four equal increments: two equal ratios at the finest scale.
    let inc = vec![whole(1), whole(1), whole(1), whole(1)];
    assert_eq!(fit(&inc).unwrap_err(), Error::DegenerateStatistics);
}

#[test]
fn fit_rejects_a_zero_sum_pair() {
    let inc = vec![Fx { bits: 0 }, Fx { bits: 0 }, whole(1)];
    assert_eq!(fit(&inc).unwrap_err(), Error::InvalidRatioInput);
}

#[test]
fn fit_rejects_a_total_out_of_range() {
    let inc = vec![Fx { bits: u64::MAX }, Fx { bits: u64::MAX }];
    assert_eq!(fit(&inc).unwrap_err(), Error::Overflow);
}

#[test]
fn fit_is_deterministic() {
    let inc = vec![whole(1), whole(2), whole(2), whole(1), whole(3)];
    let a: CascadeModel = fit(&inc).unwrap();
    let b: CascadeModel = fit(&inc).unwrap();
    assert_eq!(a.root, b.root);
    assert_eq!(a.levels, b.levels);
}
