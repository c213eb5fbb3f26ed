use onnx_adapter::attrs::Attrs;
use onnx_adapter::case::{OnnxCase, OpKind, TensorData, TensorValue};
use onnx_adapter::features::{features, FeatureVec, FEATURES};
use onnx_adapter::limits::{is_measurable, output_is_computable};

fn f32d(values: Vec<f32>) -> TensorData {
    TensorData::F32(values.iter().map(|v| v.to_bits()).collect())
}

const OPSET: i64 = 22;

fn unary(op: OpKind, dims: Vec<i64>, data: TensorData) -> OnnxCase {
    OnnxCase::new(op, OPSET, vec![TensorValue::new("a", dims, data)])
}

#[test]
fn the_vocabulary_is_well_formed() {
    let mut seen: Vec<&str> = Vec::new();
    for name in FEATURES {
        assert!(!name.is_empty(), "a feature name is blank");
        assert!(!seen.contains(&name), "duplicate feature name {name}");
        seen.push(name);
    }
    assert!(
        FEATURES.len() <= 64,
        "the vocabulary no longer fits the FeatureVec word"
    );
}

#[test]
fn negative_zero_is_detected_by_bit_pattern() {
    let negative = unary(OpKind::Sign, vec![1], f32d(vec![-0.0]));
    let positive = unary(OpKind::Sign, vec![1], f32d(vec![0.0]));
    assert!(features(&negative).has("has_negative_zero"));
    assert!(
        !features(&positive).has("has_negative_zero"),
        "positive zero must not set the negative-zero feature"
    );
}

#[test]
fn broadcasting_is_a_property_of_a_pair() {
    let single = unary(OpKind::Abs, vec![2, 3], f32d(vec![1.0; 6]));
    assert!(!features(&single).has("broadcasting_required"));

    let same = OnnxCase::new(
        OpKind::Add,
        OPSET,
        vec![
            TensorValue::new("a", vec![2, 3], f32d(vec![1.0; 6])),
            TensorValue::new("b", vec![2, 3], f32d(vec![1.0; 6])),
        ],
    );
    assert!(!features(&same).has("broadcasting_required"));

    let differing = OnnxCase::new(
        OpKind::Add,
        OPSET,
        vec![
            TensorValue::new("a", vec![2, 3], f32d(vec![1.0; 6])),
            TensorValue::new("b", vec![3], f32d(vec![1.0; 3])),
        ],
    );
    assert!(features(&differing).has("broadcasting_required"));
}

#[test]
fn type_features_follow_the_data_input_not_the_first_one() {
    let case = OnnxCase::new(
        OpKind::Where,
        OPSET,
        vec![
            TensorValue::new("cond", vec![2], TensorData::Bool(vec![true, false])),
            TensorValue::new("x", vec![2], f32d(vec![1.0, 2.0])),
            TensorValue::new("y", vec![2], f32d(vec![3.0, 4.0])),
        ],
    );
    let f = features(&case);
    assert!(f.has("float_dtype"), "Where on floats is a float case");
    assert!(!f.has("integer_dtype"));
}

#[test]
fn a_boolean_case_claims_neither_numeric_type() {
    let case = unary(OpKind::Not, vec![2], TensorData::Bool(vec![true, false]));
    let f = features(&case);
    assert!(!f.has("float_dtype"));
    assert!(!f.has("integer_dtype"));
}

#[test]
fn empty_and_rank_zero_are_different_things() {
    let empty = unary(OpKind::Abs, vec![0], f32d(vec![]));
    let scalar = unary(OpKind::Abs, vec![], f32d(vec![1.0]));
    assert!(features(&empty).has("empty_tensor"));
    assert!(!features(&empty).has("rank_0"), "rank 1 of extent 0");
    assert!(features(&scalar).has("rank_0"));
    assert!(!features(&scalar).has("empty_tensor"), "a scalar holds one");
}

#[test]
fn a_negative_axis_is_normalised_before_the_bound_is_tested() {
    let last_positive = OnnxCase::new(
        OpKind::Concat,
        OPSET,
        vec![TensorValue::new(
            "a",
            vec![2, 3],
            f32d(vec![1.0; 6]),
        )],
    )
    .with_attrs(Attrs::new().with_int("axis", 1));
    let last_negative = OnnxCase::new(
        OpKind::Concat,
        OPSET,
        vec![TensorValue::new(
            "a",
            vec![2, 3],
            f32d(vec![1.0; 6]),
        )],
    )
    .with_attrs(Attrs::new().with_int("axis", -1));
    assert!(features(&last_positive).has("attribute_at_bound"));
    assert!(
        features(&last_negative).has("attribute_at_bound"),
        "-1 and rank-1 are the same axis and must agree"
    );
}

#[test]
fn features_are_deterministic() {
    let case = unary(
        OpKind::Sign,
        vec![3],
        f32d(vec![-0.0, 1.0, -1.0]),
    );
    assert_eq!(features(&case), features(&case));
}

#[test]
fn every_kind_of_special_value_has_its_feature() {
    let of = |value: f32| features(&unary(OpKind::Abs, vec![1], f32d(vec![value])));
    assert!(of(f32::NAN).has("has_nan_input"));
    assert!(of(f32::INFINITY).has("has_inf_input"));
    assert!(of(f32::from_bits(1)).has("has_subnormal"));
    assert!(!of(1.0).has("has_nan_input"));
    let names = of(1.0).names();
    assert_eq!(names.len() as u32, of(1.0).count());
    assert!(names.contains(&"float_dtype"));
}

#[test]
fn a_case_without_a_count_is_recognised() {
    let fine = unary(OpKind::Abs, vec![2], f32d(vec![1.0, 2.0]));
    assert!(is_measurable(&fine));
    let vast = unary(OpKind::Abs, vec![i64::MAX, 2], f32d(vec![]));
    assert!(!is_measurable(&vast));
    let padded = OnnxCase::new(
        OpKind::Pad,
        OPSET,
        vec![
            TensorValue::new("a", vec![1], f32d(vec![1.0])),
            TensorValue::new("pads", vec![2], TensorData::I64(vec![i64::MAX, 1])),
        ],
    );
    assert!(!output_is_computable(&padded));
}

#[test]
fn the_names_of_a_word_are_the_features_that_hold() {
    let word = FeatureVec((1 << 0) | (1 << 7) | (1 << 54));
    assert_eq!(word.names(), vec![FEATURES[0], FEATURES[7], FEATURES[54]]);
    assert_eq!(word.count() as usize, word.names().len());
    for name in FEATURES {
        assert_eq!(word.has(name), word.names().contains(&name), "{name}");
    }
    assert!(!word.has("no such feature"));
}
