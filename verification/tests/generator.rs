use onnx_adapter::case::{OnnxCase, OpKind, TensorValue};
use onnx_adapter::gen_case::generate_case;
use onnx_adapter::gen_shape::Bounds;
use onnx_adapter::gen_value::SPECIAL_F32;
use onnx_adapter::generator::OnnxGenerator;
use onnx_adapter::ops::op_spec;
use onnx_adapter::rng::SeededRng;
use onnx_adapter::validation::{is_valid, validate};

fn singles(input: &TensorValue) -> Vec<f32> {
    input.as_f32().expect("single precision").iter().map(|b| f32::from_bits(*b)).collect()
}

#[test]
fn every_generated_case_is_valid() {
    let generator = OnnxGenerator::default();
    for seed in 0..5_000 {
        let case = generator.generate(&mut SeededRng::from_seed(seed));
        let problems = validate(&case);
        assert!(
            problems.is_empty(),
            "seed {seed} produced an invalid case: {problems:?}\n{case:?}"
        );
    }
}

#[test]
fn the_same_seed_produces_the_same_case() {
    let generator = OnnxGenerator::default();
    for seed in [0, 1, 42, 9_999, u64::MAX] {
        let first = generator.generate(&mut SeededRng::from_seed(seed));
        let second = generator.generate(&mut SeededRng::from_seed(seed));
        assert_eq!(
            format!("{:?}", first),
            format!("{:?}", second),
            "seed {seed} was not reproducible"
        );
    }
}

#[test]
fn different_seeds_produce_different_cases() {
    let generator = OnnxGenerator::default();
    let cases: Vec<String> = (0..200)
        .map(|seed| {
            format!("{:?}", generator.generate(&mut SeededRng::from_seed(seed)))
        })
        .collect();
    let mut unique = cases.clone();
    unique.sort();
    unique.dedup();
    assert!(
        unique.len() > 150,
        "only {} distinct cases from 200 seeds — the generator is barely using its rng",
        unique.len()
    );
}

#[test]
fn special_values_actually_reach_the_corpus() {
    let generator = OnnxGenerator::default();
    let mut seen_nan = false;
    let mut seen_inf = false;
    let mut seen_negative_zero = false;

    for seed in 0..2_000 {
        let case = generator.generate(&mut SeededRng::from_seed(seed));
        for input in &case.inputs {
            for value in singles(input) {
                seen_nan |= value.is_nan();
                seen_inf |= value.is_infinite();
                seen_negative_zero |= value.to_bits() == (-0.0f32).to_bits();
            }
        }
    }
    assert!(seen_nan, "no NaN in 2,000 cases");
    assert!(seen_inf, "no infinity in 2,000 cases");
    assert!(seen_negative_zero, "no negative zero in 2,000 cases");
}

#[test]
fn the_baseline_configuration_produces_no_special_values() {
    let generator = OnnxGenerator::without_special_values();
    for seed in 0..2_000 {
        let case = generator.generate(&mut SeededRng::from_seed(seed));
        for input in &case.inputs {
            for value in singles(input) {
                assert!(
                    value.is_finite(),
                    "seed {seed} produced {value} with the special-value rate at zero"
                );
            }
        }
    }
}

#[test]
fn every_configured_operator_is_reachable() {
    let generator = OnnxGenerator::default();
    let mut seen: Vec<OpKind> = Vec::new();
    for seed in 0..1_000 {
        let op = generator.generate(&mut SeededRng::from_seed(seed)).op;
        if !seen.contains(&op) {
            seen.push(op);
        }
    }
    for op in &generator.operators {
        assert!(
            seen.contains(op),
            "{op:?} was never generated in 1,000 seeds"
        );
    }
}

#[test]
fn degenerate_shapes_are_reachable() {
    let generator = OnnxGenerator::default();
    let mut seen_scalar = false;
    let mut seen_empty = false;

    for seed in 0..1_000 {
        let case = generator.generate(&mut SeededRng::from_seed(seed));
        let dims = &case.inputs[0].dims;
        seen_scalar |= dims.is_empty();
        seen_empty |= dims.contains(&0);
    }
    assert!(seen_scalar, "no rank-0 scalar in 1,000 cases");
    assert!(seen_empty, "no zero-length dimension in 1,000 cases");
}

#[test]
fn the_description_records_the_configuration() {
    let description = OnnxGenerator::default().describe();
    for fragment in ["ops=[", "max_rank=", "max_dim=", "special_rate=", "opset="] {
        assert!(
            description.contains(fragment),
            "{fragment} missing from {description}"
        );
    }
}

#[test]
fn empty_tensors_are_valid() {
    let generator = OnnxGenerator::default();
    let empty: Vec<OnnxCase> = (0..1_000)
        .map(|s| generator.generate(&mut SeededRng::from_seed(s)))
        .filter(|c| c.total_elements() == 0)
        .collect();
    assert!(!empty.is_empty(), "no empty-tensor cases were produced");
    for case in empty {
        assert!(is_valid(&case));
    }
}

#[test]
fn every_configured_case_is_valid() {
    let bounds = Bounds::default().with_special_values().with_quantized().with_opsets();
    let generator = OnnxGenerator::new(bounds);
    for seed in 0..1_000 {
        let case = generator.generate(&mut SeededRng::from_seed(seed));
        let problems = validate(&case);
        assert!(problems.is_empty(), "seed {seed}: {problems:?}\n{case:?}");
        for input in &case.inputs {
            assert!(input.data.len() <= bounds.element_budget);
        }
    }
}

#[test]
fn a_generator_describes_what_it_draws() {
    let generator = OnnxGenerator {
        operators: vec![OpKind::Add, OpKind::Sign],
        max_rank: 2,
        max_dim: 3,
        special_value_rate: 15,
        opset: 22,
        bounds: None,
    };
    assert_eq!(
        generator.describe(),
        "ops=[Add,Sign] max_rank=2 max_dim=3 special_rate=0.15 opset=22"
    );
}

#[test]
fn quantized_cases_have_positive_scales() {
    let bounds = Bounds {
        float_elementwise: false,
        comparisons: false,
        logical: false,
        structural: false,
        shape_input_operators: false,
        ..Bounds::default().with_quantized()
    };
    let generator = OnnxGenerator::new(bounds);
    for seed in 0..500 {
        let case = generator.generate(&mut SeededRng::from_seed(seed));
        if case.inputs.len() > 1 {
            if let Some(scales) = case.inputs[1].as_f32() {
                assert!(scales.iter().all(|b| f32::from_bits(*b) > 0.0), "seed {seed}");
            }
        }
    }
}

#[test]
fn a_small_budget_binds_every_operator() {
    let mut bounds = Bounds::default().with_special_values().with_quantized();
    bounds.max_dim = 9;
    bounds.element_budget = 6;
    for op in OpKind::ALL {
        for elem in op_spec(op).data_types {
            for seed in 0..40 {
                let Some(case) = generate_case(op, elem, &bounds, &mut SeededRng::from_seed(seed)) else {
                    continue;
                };
                assert!(case.inputs[0].element_count() <= 6, "{case:?}");
                if op == OpKind::MatMulInteger {
                    assert!(case.inputs[1].element_count() <= 6, "{case:?}");
                }
                if op == OpKind::DynamicQuantizeLinear {
                    assert!(case.inputs[0].element_count() >= 1, "{case:?}");
                }
            }
        }
    }
}

#[test]
fn a_rate_of_a_hundred_draws_special_values_only() {
    let generator = OnnxGenerator { special_value_rate: 100, ..OnnxGenerator::default() };
    for seed in 0..50 {
        let case = generator.generate(&mut SeededRng::from_seed(seed));
        for input in &case.inputs {
            assert!(input.data.as_f32().unwrap().iter().all(|b| SPECIAL_F32.contains(b)));
        }
    }
}
