use onnx_adapter::attrs::{AttrValue, Attrs};
use onnx_adapter::case::{ElemType, OnnxCase, OpKind, TensorData, TensorValue};
use onnx_adapter::gen_shape::Bounds;
use onnx_adapter::generator::OnnxGenerator;
use onnx_adapter::rng::SeededRng;
use onnx_adapter::shrink::{apply, complexity, drop_axis, steps, still_shows, weigh};
use onnx_adapter::shrink::{Complexity, Step, MAX_CANDIDATES};
use onnx_adapter::validation::{is_valid, validate, well_formed, well_formed_typed};

fn f32d(values: Vec<f32>) -> TensorData {
    TensorData::F32(values.iter().map(|v| v.to_bits()).collect())
}

fn f32s(name: &str, dims: Vec<i64>, values: Vec<f32>) -> TensorValue {
    TensorValue::from_f32(name, dims, values.iter().map(|v| v.to_bits()).collect())
}

/// Takes simpler cases for as long as one is found that `interesting` accepts, and says whether
/// it stopped for want of one.
fn minimize(start: OnnxCase, interesting: &dyn Fn(&OnnxCase) -> bool) -> (OnnxCase, bool) {
    let mut current = start;
    for _ in 0..1_000 {
        match current.candidates().into_iter().find(|c| interesting(c)) {
            Some(simpler) => current = simpler,
            None => return (current, true),
        }
    }
    (current, false)
}

#[test]
fn complexity_responds_to_every_part_of_the_case() {
    let base = well_formed(OpKind::Add, &vec![2, 3], 22);
    let start = complexity(&base);

    let mut more_elements = base.clone();
    more_elements.inputs[0].dims = vec![4, 3];
    more_elements.inputs[0].data = f32d(vec![1.0; 12]);
    assert!(complexity(&more_elements) > start, "elements ignored");

    let mut higher_rank = base.clone();
    higher_rank.inputs[0].dims = vec![1, 2, 3];
    assert!(complexity(&higher_rank) > start, "rank ignored");

    let mut extra_input = base.clone();
    extra_input
        .inputs
        .push(f32s("c", vec![1], vec![0.0]));
    assert!(complexity(&extra_input) > start, "input count ignored");

    let mut bigger_values = base.clone();
    bigger_values.inputs[0].data = f32d(vec![7.0; 6]);
    let mut trivial_values = base.clone();
    trivial_values.inputs[0].data = f32d(vec![0.0; 6]);
    assert!(
        complexity(&bigger_values) > complexity(&trivial_values),
        "value simplicity ignored"
    );

    let mut with_attr = base.clone();
    with_attr.attrs = Attrs::new().with_int("axis", 3);
    let mut small_attr = base.clone();
    small_attr.attrs = Attrs::new().with_int("axis", 0);
    assert!(
        complexity(&with_attr) > complexity(&small_attr),
        "attributes ignored"
    );

    let mut higher_opset = base.clone();
    higher_opset.opset = 23;
    assert!(complexity(&higher_opset) > start, "opset ignored");
}

#[test]
fn negative_zero_is_not_a_trivial_value() {
    let mut case = well_formed(OpKind::Add, &vec![1], 22);
    case.inputs[0].data = f32d(vec![-0.0]);
    let mut positive = case.clone();
    positive.inputs[0].data = f32d(vec![0.0]);
    assert!(
        complexity(&case) > complexity(&positive),
        "-0.0 must be reducible to +0.0"
    );
}

#[test]
fn every_candidate_is_simpler_and_valid() {
    let generator = OnnxGenerator::new(Bounds::default().with_special_values());
    for seed in 0..400u64 {
        let case = generator.generate(&mut SeededRng::from_seed(seed));
        if !is_valid(&case) {
            continue;
        }
        let parent = complexity(&case);
        for candidate in case.candidates() {
            assert!(
                complexity(&candidate).is_below(&parent),
                "seed {seed}: candidate not strictly simpler ({:?} vs {:?})",
                complexity(&candidate),
                parent
            );
            assert!(
                is_valid(&candidate),
                "seed {seed}: candidate is invalid: {:?}",
                validate(&candidate)
            );
        }
    }
}

#[test]
fn the_candidate_list_is_bounded() {
    let generator = OnnxGenerator::new(Bounds::default().with_special_values());
    for seed in 0..300u64 {
        let case = generator.generate(&mut SeededRng::from_seed(seed));
        assert!(
            case.candidates().len() <= MAX_CANDIDATES,
            "seed {seed} proposed {} candidates",
            case.candidates().len()
        );
    }
}

#[test]
fn the_shrinker_actually_proposes_reductions() {
    let generator = OnnxGenerator::new(Bounds::default().with_special_values());
    let mut productive = 0;
    let mut considered = 0;
    for seed in 0..300u64 {
        let case = generator.generate(&mut SeededRng::from_seed(seed));
        if !is_valid(&case) || complexity(&case).elements <= 1 {
            continue;
        }
        considered += 1;
        if !case.candidates().is_empty() {
            productive += 1;
        }
    }
    assert!(considered > 100, "not enough cases considered");
    assert!(
        productive * 10 >= considered * 9,
        "only {productive} of {considered} non-trivial cases could be shrunk"
    );
}

#[test]
fn minimisation_terminates_and_reduces() {
    let case = well_formed(OpKind::Add, &vec![4, 4], 22);
    let before = complexity(&case);

    let result = minimize(case, &|candidate: &OnnxCase| {
        candidate.inputs.iter().any(|i| !i.data.is_empty())
    });

    assert!(complexity(&result.0) < before, "nothing was reduced");
    assert!(result.1, "stopped early");
}

#[test]
fn the_predicate_requires_the_same_signature() {
    let case = well_formed(OpKind::Add, &vec![2], 22);
    let signature =
        |c: &OnnxCase| Some(format!("{}/{}/value", c.op.onnx_name(), c.opset));
    let predicate = |c: &OnnxCase| still_shows("Add/22/value", &signature(c));
    assert!(
        predicate(&case),
        "the original must satisfy its own signature"
    );

    let mut different = case.clone();
    different.op = OpKind::Sub;
    assert!(
        !predicate(&different),
        "a different operator is a different finding"
    );
}

#[test]
fn initializer_values_are_never_simplified() {
    let generator = OnnxGenerator::new(Bounds::default());
    for seed in 0..300u64 {
        let case = generator.generate(&mut SeededRng::from_seed(seed));
        if !case.inputs.iter().any(|i| i.is_initializer()) {
            continue;
        }
        let originals: Vec<&TensorValue> =
            case.inputs.iter().filter(|i| i.is_initializer()).collect();
        for candidate in case.candidates() {
            let shrunk: Vec<&TensorValue> = candidate
                .inputs
                .iter()
                .filter(|i| i.is_initializer())
                .collect();
            if shrunk.len() != originals.len() {
                continue;
            }
            for (before, after) in originals.iter().zip(shrunk.iter()) {
                assert_eq!(
                    before.data, after.data,
                    "seed {seed}: an initializer's values were altered"
                );
            }
        }
    }
}

#[test]
fn dropping_an_axis_rebuilds_the_permutation() {
    let case = OnnxCase::new(
        OpKind::Transpose,
        22,
        vec![f32s("a", vec![2, 3], vec![1.0; 6])],
    )
    .with_attrs(Attrs::new().ints("perm", vec![1, 0]));
    assert!(is_valid(&case));

    let reduced = drop_axis(&case, 0);
    assert_eq!(reduced.inputs[0].dims.len(), 1);
    assert_eq!(reduced.attrs.get("perm"), Some(&AttrValue::Ints(vec![0])));
    assert!(
        is_valid(&reduced),
        "{:?}",
        validate(&reduced)
    );
}

#[test]
fn every_element_type_can_be_simplified() {
    for elem in [ElemType::F32, ElemType::F64, ElemType::I32, ElemType::I64, ElemType::Bool] {
        let case = well_formed_typed(OpKind::Identity, &vec![4], 22, elem);
        assert!(
            !case.candidates().is_empty(),
            "{elem:?} produced no candidates"
        );
    }
}

#[test]
fn complexities_are_compared_part_by_part() {
    let small = Complexity {
        elements: 1,
        rank_sum: 9,
        inputs: 9,
        nontrivial_values: 9,
        attribute_weight: 9,
        opset: 9,
    };
    let large = Complexity { elements: 2, rank_sum: 0, ..small };
    assert!(small.is_below(&large) && !large.is_below(&small));
    assert!(!small.is_below(&small));
    assert_eq!(small.is_below(&large), small < large);
    assert!(Complexity { opset: 8, ..small }.is_below(&small));
}

#[test]
fn every_part_of_a_case_is_weighed() {
    let case = OnnxCase::new(
        OpKind::Transpose,
        22,
        vec![f32s("a", vec![2, 3], vec![0.0, 1.0, 2.0, -0.0, 1.0, f32::NAN])],
    )
    .with_attrs(Attrs::new().ints("perm", vec![1, -4]));
    let weight = complexity(&case);
    assert_eq!(weight.elements, 6);
    assert_eq!(weight.rank_sum, 2);
    assert_eq!(weight.inputs, 1);
    assert_eq!(weight.nontrivial_values, 3);
    assert_eq!(weight.attribute_weight, 5);
    assert_eq!(weight.opset, 22);
    assert_eq!(weigh(&case), Some(weight));
}

#[test]
fn a_signature_that_is_missing_shows_nothing() {
    assert!(still_shows("Add/22", &Some("Add/22".to_string())));
    assert!(!still_shows("Add/22", &Some("Add/23".to_string())));
    assert!(!still_shows("Add/22", &None));
}

#[test]
fn steps_do_what_they_say() {
    let case = OnnxCase::new(OpKind::Identity, 22, vec![f32s("a", vec![2, 2], vec![7.0; 4])]);
    let filled = apply(&case, Step::Fill { one: true });
    assert_eq!(filled.inputs[0].data, f32d(vec![1.0; 4]));
    assert_eq!(filled.inputs[0].dims, vec![2, 2]);
    assert!(case.same(&case) && !case.same(&filled));
    assert!(steps(&case).contains(&Step::Fill { one: true }));
}

#[test]
fn no_reduction_is_offered_twice() {
    let start = OnnxCase::new(OpKind::Identity, 22, vec![f32s("a", vec![1], vec![5.0])]);
    let offered = start.candidates();
    let zeroed = OnnxCase::new(OpKind::Identity, 22, vec![f32s("a", vec![1], vec![0.0])]);
    assert_eq!(offered.iter().filter(|c| c.same(&zeroed)).count(), 1);
    let generator = OnnxGenerator::new(Bounds::default().with_special_values().with_quantized());
    for seed in 0..100 {
        let case = generator.generate(&mut SeededRng::from_seed(seed));
        let offered = case.candidates();
        for i in 0..offered.len() {
            for j in 0..i {
                assert!(!offered[i].same(&offered[j]));
            }
        }
    }
}

#[test]
fn the_signs_of_zero_are_offered_apart() {
    let of = |v: Vec<f32>| OnnxCase::new(OpKind::Identity, 22, vec![f32s("a", vec![2], v)]);
    let offered = of(vec![-0.0, 5.0]).candidates();
    for wanted in [of(vec![-0.0, 0.0]), of(vec![0.0, 0.0])] {
        assert_eq!(offered.iter().filter(|c| c.same(&wanted)).count(), 1);
    }
}
