use onnx_adapter::case::{TensorData, TensorValue};
use onnx_adapter::normalize::{compare, equivalent, licensed_elements};
use onnx_adapter::normalize::{Agreement, Canonical, OnnxNormalizer};
use onnx_adapter::outcome::OnnxOutcome;

fn f32s(name: &str, dims: Vec<i64>, values: Vec<f32>) -> TensorValue {
    TensorValue::from_f32(name, dims, values.iter().map(|v| v.to_bits()).collect())
}

fn canon(outcome: OnnxOutcome) -> Canonical {
    OnnxNormalizer.normalize(outcome)
}

fn ok(values: Vec<f32>) -> Canonical {
    canon(OnnxOutcome::Produced(vec![f32s(
        "out",
        vec![values.len() as i64],
        values,
    )]))
}

#[test]
fn bit_comparison_gets_nan_and_signed_zero_right() {
    assert!(
        equivalent(&ok(vec![f32::NAN]), &ok(vec![f32::NAN])),
        "identical NaN bit patterns must compare equal"
    );

    assert!(
        !equivalent(&ok(vec![0.0]), &ok(vec![-0.0])),
        "signed zero must be visible to the oracle"
    );
}

#[test]
fn the_special_value_table_holds_in_both_directions() {
    let nan_alt = f32::from_bits(f32::NAN.to_bits() ^ 0x0000_0001);
    let nan_neg = -f32::NAN;

    assert!(
        equivalent(&ok(vec![f32::NAN]), &ok(vec![nan_alt])),
        "two NaNs agree whatever their payload — which one propagates is not specified"
    );
    assert!(
        equivalent(&ok(vec![f32::NAN]), &ok(vec![nan_neg])),
        "two NaNs agree whatever their sign bit"
    );
    assert!(
        equivalent(&ok(vec![f32::INFINITY]), &ok(vec![f32::INFINITY])),
        "the same infinity agrees"
    );
    assert!(
        equivalent(&ok(vec![1.5]), &ok(vec![1.5])),
        "equal numbers agree"
    );

    assert!(
        !equivalent(&ok(vec![f32::NAN]), &ok(vec![1.0])),
        "NaN vs a number is a disagreement about whether an answer exists"
    );
    assert!(
        !equivalent(&ok(vec![f32::INFINITY]), &ok(vec![f32::NEG_INFINITY])),
        "opposite infinities are not a difference of degree"
    );
    assert!(
        !equivalent(&ok(vec![f32::INFINITY]), &ok(vec![f32::MAX])),
        "infinity vs finite is not a difference of degree"
    );
    assert!(
        !equivalent(&ok(vec![0.0]), &ok(vec![-0.0])),
        "signed zero is a disagreement: the sign of a zero result is determined here"
    );
    assert!(
        !equivalent(&ok(vec![1.5]), &ok(vec![1.5000001])),
        "no tolerance exists at Tier A or Tier B — the nearest distinct float disagrees"
    );
}

#[test]
fn the_nan_rule_does_not_leak_into_integer_types() {
    let int_tensor = |bits: i64| {
        canon(OnnxOutcome::Produced(vec![TensorValue::new(
            "out",
            vec![1],
            TensorData::I64(vec![bits]),
        )]))
    };
    let a = f64::NAN.to_bits() as i64;
    let b = (f64::NAN.to_bits() ^ 1) as i64;
    assert!(
        !equivalent(&int_tensor(a), &int_tensor(b)),
        "integers compare by value; the NaN rule must not reach them"
    );
}

#[test]
fn the_table_is_decided_before_magnitude_matters() {
    assert!(!equivalent(&ok(vec![0.0]), &ok(vec![f32::MAX])));
    assert!(!equivalent(
        &ok(vec![1.0]),
        &ok(vec![f32::from_bits(1.0f32.to_bits() + 1)])
    ));
    assert!(equivalent(&ok(vec![f32::NAN]), &ok(vec![f32::NAN])));
    assert!(!equivalent(&ok(vec![f32::NAN]), &ok(vec![f32::MAX])));
    assert!(!equivalent(&ok(vec![f32::NAN]), &ok(vec![0.0])));
}

#[test]
fn shape_is_part_of_the_answer() {
    let flat = canon(OnnxOutcome::Produced(vec![f32s(
        "out",
        vec![4],
        vec![1.0, 2.0, 3.0, 4.0],
    )]));
    let square = canon(OnnxOutcome::Produced(vec![f32s(
        "out",
        vec![2, 2],
        vec![1.0, 2.0, 3.0, 4.0],
    )]));
    assert!(
        !equivalent(&flat, &square),
        "same values in a different shape is a divergence, not a match"
    );
}

#[test]
fn two_rejections_agree_regardless_of_wording() {
    let ort = canon(OnnxOutcome::Rejected {
        detail: "Invalid input shape for operator Add".into(),
    });
    let tract = canon(OnnxOutcome::Rejected {
        detail: "translating node #0 \"add_0\" Add ToTypedTranslator".into(),
    });
    assert!(equivalent(&ort, &tract));
}

#[test]
fn answered_versus_rejected_is_a_disagreement() {
    let answered = ok(vec![1.0]);
    let refused = canon(OnnxOutcome::Rejected {
        detail: "nope".into(),
    });
    assert!(!equivalent(&answered, &refused));
}

#[test]
fn the_outcome_kinds_are_mutually_distinct() {
    let kinds = [
        canon(OnnxOutcome::Rejected { detail: "x".into() }),
        canon(OnnxOutcome::Unsupported { reason: "x".into() }),
        canon(OnnxOutcome::Crashed { detail: "x".into() }),
        canon(OnnxOutcome::TimedOut { after_ms: 1 }),
        ok(vec![1.0]),
    ];
    for (i, left) in kinds.iter().enumerate() {
        for (j, right) in kinds.iter().enumerate() {
            assert_eq!(
                equivalent(left, right),
                i == j,
                "{} vs {} compared wrongly",
                left.kind,
                right.kind
            );
        }
    }
}

#[test]
fn degenerate_results_are_recognised() {
    assert!(
        ok(vec![]).is_degenerate(),
        "an empty tensor cannot disagree"
    );
    assert!(
        ok(vec![f32::NAN, f32::INFINITY]).is_degenerate(),
        "an all-undefined result compares nothing"
    );
    assert!(
        !ok(vec![1.0, f32::NAN]).is_degenerate(),
        "one finite value is comparable"
    );
    assert!(!ok(vec![0.0]).is_degenerate(), "zero is a real answer");
}

#[test]
fn a_traceback_is_reduced_to_its_last_line() {
    let traceback = "Traceback (most recent call last):\n  File \"x.py\", line 1\n\
                     ValueError: something specific\n";
    let reduced = canon(OnnxOutcome::Rejected {
        detail: traceback.into(),
    });
    assert_eq!(reduced.detail, "ValueError: something specific");
}

#[test]
fn detail_is_bounded_so_reports_stay_readable() {
    let huge = "x".repeat(10_000);
    let reduced = canon(OnnxOutcome::Crashed { detail: huge });
    assert!(reduced.detail.chars().count() <= 200);
}

#[test]
fn agreement_by_license_is_counted() {
    let left = ok(vec![1.0, f32::from_bits(0x7fc0_0000), f32::from_bits(0x7fc0_0000)]);
    let right = ok(vec![1.0, f32::from_bits(0x7fc0_1234), f32::from_bits(0x7fc0_0000)]);
    assert_eq!(compare(&left, &right), Agreement::ByLicense);
    assert_eq!(licensed_elements(&left, &right), 1);
    assert_eq!(compare(&left, &left), Agreement::Exactly);
    assert_eq!(compare(&left, &ok(vec![2.0])), Agreement::No);
}

#[test]
fn a_timeout_keeps_its_duration() {
    let canonical = canon(OnnxOutcome::TimedOut { after_ms: 250 });
    assert_eq!(canonical.detail, "250ms");
    assert!(canonical.is_self_evident_defect());
}
