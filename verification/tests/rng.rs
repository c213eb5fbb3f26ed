use onnx_adapter::gen_shape::Bounds;
use onnx_adapter::rng::SeededRng;
use onnx_adapter::shapes::{draw_permutation, element_count, factorization, shape, shape_nonempty};

#[test]
fn numbers_stay_in_their_range() {
    let mut rng = SeededRng::from_seed(1);
    let mut seen = [false; 7];
    for _ in 0..1_000 {
        let n = rng.between(-3, 3);
        assert!((-3..=3).contains(&n));
        seen[(n + 3) as usize] = true;
        assert!(rng.index(4) < 4);
    }
    assert_eq!(seen, [true; 7]);
    assert_eq!(rng.between(5, 5), 5);
}

#[test]
fn a_rate_is_kept() {
    let mut rng = SeededRng::from_seed(2);
    assert!((0..100).all(|_| rng.percent(100)));
    assert!((0..100).all(|_| !rng.percent(0)));
    let hits = (0..10_000).filter(|_| rng.percent(25)).count();
    assert!((2_000..3_000).contains(&hits), "{hits}");
}

#[test]
fn one_seed_is_one_stream() {
    let draw = |seed| {
        let mut rng = SeededRng::from_seed(seed);
        (0..50).map(|_| rng.between(i64::MIN, i64::MAX)).collect::<Vec<i64>>()
    };
    assert_eq!(draw(7), draw(7));
    assert_ne!(draw(7), draw(8));
}

#[test]
fn shapes_stay_within_their_bounds() {
    let bounds = Bounds::default();
    let mut rng = SeededRng::from_seed(3);
    for _ in 0..500 {
        let dims = shape(&bounds, &mut rng);
        assert!(dims.len() <= bounds.max_rank);
        assert!(dims.iter().all(|d| (0..=bounds.max_dim).contains(d)), "{dims:?}");
        assert!(element_count(&dims) <= bounds.element_budget, "{dims:?}");
        let full = shape_nonempty(&bounds, &mut rng);
        assert!((1..=bounds.element_budget).contains(&element_count(&full)), "{full:?}");
    }
}

#[test]
fn a_factorization_multiplies_back() {
    let bounds = Bounds::default();
    let mut rng = SeededRng::from_seed(4);
    for total in [1i64, 2, 12, 97, 256] {
        let dims = factorization(total, &bounds, &mut rng);
        assert_eq!(dims.iter().product::<i64>(), total, "{dims:?}");
    }
}

#[test]
fn a_permutation_names_every_axis_once() {
    let mut rng = SeededRng::from_seed(5);
    for rank in 0..6usize {
        let mut perm = draw_permutation(rank, &mut rng);
        perm.sort_unstable();
        assert_eq!(perm, (0..rank as i64).collect::<Vec<i64>>());
    }
}
