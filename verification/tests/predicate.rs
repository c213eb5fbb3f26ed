use onnx_adapter::case::{OnnxCase, OpKind, TensorData, TensorValue};
use onnx_adapter::features::{features, FeatureVec};
use onnx_adapter::predicate::Predicate;

fn f32d(values: Vec<f32>) -> TensorData {
    TensorData::F32(values.iter().map(|v| v.to_bits()).collect())
}

const OPSET: i64 = 22;

fn filed_case() -> OnnxCase {
    OnnxCase::new(
        OpKind::Sign,
        OPSET,
        vec![TensorValue::new("a", vec![1], f32d(vec![-0.0]))],
    )
}

#[test]
fn a_predicate_built_from_names_still_matches_the_case_that_produces_it() {
    let predicate = Predicate::new(&["has_negative_zero", "float_dtype"], &["empty_tensor"]);

    assert!(
        predicate.matches(features(&filed_case())),
        "the vocabulary has been reordered or renamed: {} no longer matches the case it \
         was written for",
        predicate.describe()
    );
}

#[test]
fn a_required_feature_that_is_absent_fails_the_match() {
    let predicate = Predicate::new(&["has_negative_zero", "integer_dtype"], &[]);
    assert!(!predicate.matches(features(&filed_case())));
}

#[test]
fn a_forbidden_feature_that_is_present_fails_the_match() {
    let predicate = Predicate::new(&["float_dtype"], &["has_negative_zero"]);
    assert!(!predicate.matches(features(&filed_case())));
}

#[test]
fn a_rule_can_match_a_case_that_does_not_diverge() {
    let agreeing = OnnxCase::new(
        OpKind::Abs,
        OPSET,
        vec![TensorValue::new(
            "a",
            vec![2],
            f32d(vec![1.0, 2.0]),
        )],
    );

    let too_broad = Predicate::new(&["float_dtype"], &[]);
    assert!(too_broad.matches(features(&agreeing)));
    assert!(too_broad.matches(features(&filed_case())));
}

#[test]
fn the_empty_predicate_matches_everything_and_says_so() {
    let empty = Predicate::default();

    assert!(empty.is_vacuous());
    assert!(empty.matches(features(&filed_case())));
    assert!(empty.matches(FeatureVec::default()));
    assert_eq!(empty.describe(), "(matches everything)");
}

#[test]
fn size_counts_both_required_and_forbidden() {
    let predicate = Predicate::new(&["has_negative_zero"], &["rank_0", "empty_tensor"]);
    assert_eq!(predicate.size(), 3);
}

#[test]
fn a_rule_renders_readably_with_negation_marked() {
    let rendered = Predicate::new(&["has_negative_zero"], &["empty_tensor"]).describe();

    assert!(rendered.contains("has_negative_zero"));
    assert!(rendered.contains("¬empty_tensor"));
    assert!(rendered.contains('∧'));
}

#[test]
fn an_unknown_feature_name_is_ignored_rather_than_fatal() {
    let predicate = Predicate::new(&["has_negative_zero", "no_such_feature"], &[]);

    assert_eq!(predicate.size(), 1, "the unknown name contributes no bit");
    assert!(predicate.matches(features(&filed_case())));
}

#[test]
fn a_feature_named_in_both_lists_is_required() {
    let both = Predicate::new(&["float_dtype", "empty_tensor"], &["float_dtype", "rank_0"]);
    assert_eq!(both.required & both.forbidden, 0);
    assert_eq!(both, Predicate::new(&["float_dtype", "empty_tensor"], &["rank_0"]));
}
