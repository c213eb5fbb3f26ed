use onnx_adapter::case::{ElemType, OpKind, TensorData};
use onnx_adapter::gen_value::{cast_safe, decline_min_over_negative_one, nonzero, ordinary};
use onnx_adapter::gen_value::{undetermined_for, with_specials, Excluded, SPECIAL_F32};
use onnx_adapter::rng::SeededRng;

#[test]
fn ordinary_values_are_finite_and_of_the_requested_type() {
    for elem in ElemType::ALL {
        let mut rng = SeededRng::from_seed(7);
        let data = ordinary(elem, 32, &mut rng);
        assert_eq!(data.elem_type(), elem);
        assert_eq!(data.len(), 32);
        if let Some(values) = data.as_f32() {
            assert!(
                values.iter().all(|v| f32::from_bits(*v).is_finite()),
                "{elem:?} produced a non-finite value"
            );
        }
    }
}

#[test]
fn value_generation_is_deterministic() {
    for elem in ElemType::ALL {
        let a = ordinary(elem, 16, &mut SeededRng::from_seed(42));
        let b = ordinary(elem, 16, &mut SeededRng::from_seed(42));
        assert_eq!(a, b, "{elem:?} was not reproducible");
    }
}

#[test]
fn values_vary_within_a_tensor() {
    let mut rng = SeededRng::from_seed(3);
    let data = ordinary(ElemType::F32, 64, &mut rng);
    let values = data.as_f32().unwrap();
    let distinct = values
        .iter()
        .copied()
        .collect::<std::collections::BTreeSet<_>>();
    assert!(
        distinct.len() > 32,
        "only {} distinct values in 64",
        distinct.len()
    );
}

#[test]
fn nonzero_never_produces_zero_for_integers() {
    for elem in [ElemType::I32, ElemType::I64] {
        let mut rng = SeededRng::from_seed(11);
        let data = nonzero(elem, 4_000, &mut rng);
        let zeros = data.to_bit_keys().iter().filter(|b| **b == 0).count();
        assert_eq!(zeros, 0, "{elem:?} divisor pool contained {zeros} zeros");
    }
}

#[test]
fn nonzero_still_spans_both_signs() {
    let mut rng = SeededRng::from_seed(12);
    let TensorData::I64(values) = nonzero(ElemType::I64, 2_000, &mut rng) else {
        panic!("wrong variant");
    };
    assert!(values.iter().any(|v| *v > 0), "no positive divisors");
    assert!(values.iter().any(|v| *v < 0), "no negative divisors");
}

#[test]
fn nonzero_does_not_restrict_floats() {
    let mut rng = SeededRng::from_seed(13);
    let restricted = nonzero(ElemType::F32, 64, &mut rng);
    let mut rng = SeededRng::from_seed(13);
    let plain = ordinary(ElemType::F32, 64, &mut rng);
    assert_eq!(restricted, plain, "float divisors must be unrestricted");
}

#[test]
fn an_empty_tensor_is_producible() {
    let mut rng = SeededRng::from_seed(1);
    assert_eq!(ordinary(ElemType::F32, 0, &mut rng).len(), 0);
}

#[test]
fn values_lie_on_a_grid_within_a_hundred() {
    let data = ordinary(ElemType::F32, 2_000, &mut SeededRng::from_seed(5));
    for bits in data.as_f32().unwrap() {
        let value = f32::from_bits(*bits);
        assert!((-100.0..=100.0).contains(&value), "{value}");
        assert_eq!((value * 65536.0).fract(), 0.0, "{value}");
    }
}

#[test]
fn what_an_operator_leaves_open_is_not_drawn() {
    for seed in 0..200 {
        let excluded = undetermined_for(OpKind::Sign);
        let data = with_specials(ElemType::F32, 64, 50, excluded, &mut SeededRng::from_seed(seed));
        for bits in data.as_f32().unwrap() {
            let value = f32::from_bits(*bits);
            assert!(!(excluded.nan && value.is_nan()), "{value}");
        }
    }
}

#[test]
fn special_values_come_at_every_rate_above_zero() {
    let none = Excluded::default();
    let always = with_specials(ElemType::F32, 64, 100, none, &mut SeededRng::from_seed(9));
    assert!(always.as_f32().unwrap().iter().all(|b| SPECIAL_F32.contains(b)));
    let never = with_specials(ElemType::F32, 64, 0, none, &mut SeededRng::from_seed(9));
    let plain = ordinary(ElemType::F32, 64, &mut SeededRng::from_seed(9));
    assert_eq!(never.len(), plain.len());
}

#[test]
fn the_least_integer_is_not_divided_by_minus_one() {
    let dividend = TensorData::I32(vec![i32::MIN, i32::MIN, 7, 8]);
    let divisor = TensorData::I32(vec![-1, 2, -1, 3]);
    let declined = decline_min_over_negative_one(dividend, &divisor);
    let TensorData::I32(values) = declined else {
        panic!("wrong variant");
    };
    assert_ne!(values[0], i32::MIN);
    assert_eq!(&values[1..], &[i32::MIN, 7, 8]);
}

#[test]
fn casts_are_fed_values_that_the_target_holds() {
    for seed in 0..100 {
        let data = cast_safe(ElemType::F32, ElemType::U8, 32, 20, &mut SeededRng::from_seed(seed));
        for bits in data.as_f32().unwrap() {
            let value = f32::from_bits(*bits);
            assert!(value.is_finite(), "{value}");
        }
    }
}

#[test]
fn a_rate_of_zero_and_of_a_hundred_are_kept() {
    let none = Excluded::default();
    for elem in ElemType::ALL {
        let never = with_specials(elem, 50, 0, none, &mut SeededRng::from_seed(4));
        assert_eq!(never, ordinary(elem, 50, &mut SeededRng::from_seed(4)));
    }
    let TensorData::I8(v) = with_specials(ElemType::I8, 64, 100, none, &mut SeededRng::from_seed(4))
    else {
        panic!("wrong variant");
    };
    assert!(v.iter().all(|n| [0, 1, -1, 127, -128].contains(n)));
    let TensorData::F64(v) = cast_safe(ElemType::F64, ElemType::I32, 64, 100, &mut SeededRng::from_seed(4))
    else {
        panic!("wrong variant");
    };
    let safe = [0.0, 1.0, -1.0, f64::from(f32::MIN_POSITIVE)];
    assert!(v.iter().all(|b| safe.contains(&f64::from_bits(*b))));
}

#[test]
fn ordinary_values_are_distinct_where_there_is_room() {
    for seed in 0..20 {
        let rng = &mut SeededRng::from_seed(seed);
        let TensorData::I32(mut v) = ordinary(ElemType::I32, 200, rng) else {
            panic!("wrong variant");
        };
        v.sort();
        assert_eq!(v, (-100..100).collect::<Vec<i32>>());
        let TensorData::U8(mut v) = ordinary(ElemType::U8, 100, rng) else {
            panic!("wrong variant");
        };
        v.sort();
        assert_eq!(v, (0..100).collect::<Vec<u8>>());
        let data = ordinary(ElemType::F32, 300, rng);
        let distinct: std::collections::BTreeSet<u32> = data.as_f32().unwrap().iter().copied().collect();
        assert_eq!(distinct.len(), 300);
    }
    assert_eq!(ordinary(ElemType::I8, 500, &mut SeededRng::from_seed(1)).len(), 500);
}
