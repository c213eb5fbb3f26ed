use onnx_adapter::case::TensorValue;
use onnx_adapter::outcome::OnnxOutcome;

fn f32s(name: &str, dims: Vec<i64>, values: Vec<f32>) -> TensorValue {
    TensorValue::from_f32(name, dims, values.iter().map(|v| v.to_bits()).collect())
}

fn every_variant() -> Vec<OnnxOutcome> {
    vec![
        OnnxOutcome::Produced(vec![f32s("out", vec![1], vec![1.0])]),
        OnnxOutcome::Rejected {
            detail: "bad input".into(),
        },
        OnnxOutcome::Unsupported {
            reason: "no such operator".into(),
        },
        OnnxOutcome::Crashed {
            detail: "index out of bounds".into(),
        },
        OnnxOutcome::TimedOut { after_ms: 5000 },
    ]
}

#[test]
fn only_unsupported_excuses_a_participant() {
    for outcome in every_variant() {
        let excused = outcome.is_legitimate_skip();
        match outcome {
            OnnxOutcome::Unsupported { .. } => {
                assert!(excused, "an unimplemented operator is a legitimate skip")
            }
            _ => assert!(
                !excused,
                "{} must not excuse a participant from comparison",
                outcome.kind()
            ),
        }
    }
}

#[test]
fn crashes_and_hangs_accuse_on_their_own() {
    for outcome in every_variant() {
        let accuses = outcome.is_self_evident_defect();
        match outcome {
            OnnxOutcome::Crashed { .. } | OnnxOutcome::TimedOut { .. } => {
                assert!(accuses, "{} is a finding by itself", outcome.kind())
            }
            _ => assert!(!accuses, "{} needs a peer to mean anything", outcome.kind()),
        }
    }
}

#[test]
fn display_distinguishes_the_two_zeros() {
    let positive = OnnxOutcome::Produced(vec![f32s("out", vec![1], vec![0.0])]);
    let negative = OnnxOutcome::Produced(vec![f32s("out", vec![1], vec![-0.0])]);

    assert_ne!(
        positive.describe(),
        negative.describe(),
        "signed zero must be visible in a report"
    );
}

#[test]
fn kinds_are_distinct() {
    let kinds: Vec<&str> = every_variant().iter().map(OnnxOutcome::kind).collect();
    let mut unique = kinds.clone();
    unique.sort_unstable();
    unique.dedup();
    assert_eq!(kinds.len(), unique.len(), "two variants share a label");
}

#[test]
fn outcomes_are_described_with_their_bits() {
    let produced = OnnxOutcome::Produced(vec![f32s("out", vec![1], vec![-0.0])]);
    assert!(produced.describe().contains("80000000"), "{}", produced.describe());
    let timed_out = OnnxOutcome::TimedOut { after_ms: 5000 };
    assert!(timed_out.describe().contains("5000"));
    assert_eq!(timed_out.kind(), "timed-out");
    assert!(timed_out.tensors().is_none());
    assert_eq!(produced.tensors().map(|t| t.len()), Some(1));
}
