use onnx_adapter::case::{ElemType, OnnxCase, OpKind, TensorValue};
use onnx_adapter::normalize::OnnxNormalizer;
use onnx_adapter::oracle::NamedOutput;
use onnx_adapter::outcome::OnnxOutcome;
use onnx_adapter::signature::{of, Kind, Signature};

fn case() -> OnnxCase {
    OnnxCase::new(
        OpKind::Sign,
        22,
        vec![TensorValue::from_f32("a", vec![2, 1], vec![0, 0])],
    )
}

fn said(name: &str, outcome: OnnxOutcome) -> NamedOutput {
    NamedOutput { implementation: name.to_string(), output: OnnxNormalizer.normalize(outcome) }
}

fn produced(dims: Vec<i64>, bits: Vec<u32>) -> OnnxOutcome {
    OnnxOutcome::Produced(vec![TensorValue::from_f32("out", dims, bits)])
}

fn kind_of(outputs: Vec<NamedOutput>) -> Option<Kind> {
    of(&case(), &outputs).map(|s| s.kind)
}

#[test]
fn agreement_has_no_signature() {
    let same = || produced(vec![1], vec![7]);
    assert!(of(&case(), &vec![said("a", same()), said("b", same())]).is_none());
    assert!(of(&case(), &vec![said("a", same())]).is_none());
}

#[test]
fn every_kind_of_disagreement_is_told_apart() {
    let one = || said("a", produced(vec![1], vec![7]));
    assert_eq!(kind_of(vec![one(), said("b", produced(vec![1], vec![8]))]), Some(Kind::Value));
    assert_eq!(kind_of(vec![one(), said("b", produced(vec![1, 1], vec![7]))]), Some(Kind::Shape));
    let refusal = OnnxOutcome::Rejected { detail: "no".to_string() };
    assert_eq!(kind_of(vec![one(), said("b", refusal)]), Some(Kind::RejectedVersusOk));
    let crash = OnnxOutcome::Crashed { detail: "boom".to_string() };
    assert_eq!(kind_of(vec![one(), said("b", crash)]), Some(Kind::Crash));
}

#[test]
fn the_key_names_the_case_and_not_the_participants() {
    let a = said("a", produced(vec![1], vec![7]));
    let b = said("b", produced(vec![1], vec![8]));
    let found: Signature = of(&case(), &vec![a, b]).expect("they disagree");
    assert_eq!(found.key(), "Sign/22/F32/rank2/value");
    assert_eq!(found.elem_type, ElemType::F32);
    assert_eq!(found.participants.len(), 2);

    let other = Signature { participants: vec![], ..found };
    assert_eq!(other.key(), "Sign/22/F32/rank2/value");
}

#[test]
fn the_order_of_participants_is_no_part_of_the_key() {
    let a = || said("a", produced(vec![1], vec![7]));
    let b = || said("b", produced(vec![1], vec![8]));
    let forward = of(&case(), &vec![a(), b()]).map(|s| s.key());
    assert_eq!(forward, of(&case(), &vec![b(), a()]).map(|s| s.key()));
}
