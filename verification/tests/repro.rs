use onnx_adapter::case::{OnnxCase, OpKind, TensorValue};
use onnx_adapter::environment::{environment, Environment};
use onnx_adapter::findings::StoredFinding;
use onnx_adapter::gen_shape::Bounds;
use onnx_adapter::outcome::OnnxOutcome;
use onnx_adapter::repro::{drift, replay, Replay};
use onnx_adapter::validation::well_formed;

fn f32s(name: &str, dims: Vec<i64>, values: Vec<f32>) -> TensorValue {
    TensorValue::from_f32(name, dims, values.iter().map(|v| v.to_bits()).collect())
}

fn here() -> Environment {
    environment(Environment {
        tool: "diff-fuzzer".to_string(),
        platform: "x86_64-linux".to_string(),
        components: vec![],
    })
}

fn answered(values: Vec<f32>) -> OnnxOutcome {
    OnnxOutcome::Produced(vec![f32s("out", vec![values.len() as i64], values)])
}

fn stored(signature: &str) -> StoredFinding {
    StoredFinding::new(
        signature,
        "a disagreement",
        7,
        &Bounds::default().description(),
        here(),
        well_formed(OpKind::Add, &vec![2], 22),
        vec![],
    )
}

fn run(finding: &StoredFinding, participants: &[(&str, &OnnxOutcome)]) -> Replay {
    let names: Vec<String> = participants.iter().map(|(n, _)| n.to_string()).collect();
    replay(finding, &here(), &names, |_: &OnnxCase, i: usize| Some(participants[i].1.clone()))
}

#[test]
fn a_finding_that_still_diverges_the_same_way_is_reproduced() {
    let finding = stored("Add/22/F32/rank1/value");
    let a = answered(vec![1.0, 2.0]);
    let b = answered(vec![1.0, 9.0]);
    let result = run(&finding, &[("ort", &a), ("tract", &b)]);
    assert_eq!(
        result,
        Replay::Reproduced {
            signature: "Add/22/F32/rank1/value".to_string()
        }
    );
    assert!(result.confirms());
}

#[test]
fn agreement_means_it_no_longer_diverges() {
    let finding = stored("Add/22/F32/rank1/value");
    let a = answered(vec![1.0, 2.0]);
    let b = answered(vec![1.0, 2.0]);
    assert_eq!(
        run(&finding, &[("ort", &a), ("tract", &b)]),
        Replay::NoLongerDiverges
    );
}

#[test]
fn a_different_disagreement_is_not_a_reproduction() {
    let finding = stored("Add/22/F32/rank1/value");
    let a = answered(vec![1.0, 2.0]);
    let crashed = OnnxOutcome::Crashed {
        detail: "boom".to_string(),
    };
    let result = run(&finding, &[("ort", &a), ("tract", &crashed)]);
    assert!(
        matches!(result, Replay::DivergedDifferently { .. }),
        "expected a different signature, got {result:?}"
    );
    assert!(!result.confirms());
}

#[test]
fn a_policy_change_suspends_the_verdict_rather_than_answering() {
    let mut finding = stored("Add/22/F32/rank1/value");
    finding.policy = "comparison=bit-exact fingerprint=deadbeef".to_string();

    let a = answered(vec![1.0, 2.0]);
    let b = answered(vec![1.0, 2.0]);
    let result = run(&finding, &[("ort", &a), ("tract", &b)]);

    match result {
        Replay::PolicyDrift { recorded, current } => {
            assert!(recorded.contains("deadbeef"));
            assert!(current.contains("fingerprint="));
        }
        other => panic!("a policy change must suspend the verdict, got {other:?}"),
    }
}

#[test]
fn a_finding_with_no_recorded_policy_is_not_silently_judged() {
    let mut finding = stored("Add/22/F32/rank1/value");
    finding.policy = String::new();
    let a = answered(vec![1.0, 2.0]);
    let b = answered(vec![1.0, 9.0]);
    assert!(matches!(
        run(&finding, &[("ort", &a), ("tract", &b)]),
        Replay::PolicyDrift { .. }
    ));
}

#[test]
fn a_version_change_is_reported() {
    let mut finding = stored("Add/22/F32/rank1/value");
    finding.environment.components.push((
        "tract-onnx".to_string(),
        "0.0.1-not-the-real-one".to_string(),
    ));

    let a = answered(vec![1.0, 2.0]);
    let b = answered(vec![1.0, 9.0]);
    match run(&finding, &[("ort", &a), ("tract", &b)]) {
        Replay::EnvironmentDrift { differences } => {
            assert!(
                differences.iter().any(|d| d.contains("tract-onnx")),
                "{differences:?}"
            );
        }
        other => panic!("expected environment drift, got {other:?}"),
    }
}

#[test]
fn a_participant_that_does_not_answer_is_a_crash() {
    let finding = stored("Add/22/F32/rank1/crash");
    let names = vec!["ort".to_string(), "tract".to_string()];
    let result = replay(&finding, &here(), &names, |_: &OnnxCase, i: usize| {
        if i == 0 {
            Some(answered(vec![1.0, 2.0]))
        } else {
            None
        }
    });
    assert!(result.confirms(), "{result:?}");
}

#[test]
fn a_suspended_finding_is_not_run() {
    let mut finding = stored("Add/22/F32/rank1/value");
    finding.policy = String::new();
    let names = vec!["ort".to_string()];
    let result =
        replay(&finding, &here(), &names, |_: &OnnxCase, _: usize| -> Option<OnnxOutcome> {
            panic!("nothing can be claimed, so nothing is run")
        });
    assert!(!result.confirms());
    assert!(drift(&finding, &here()).is_some());
    assert!(drift(&stored("x"), &here()).is_none());
}
