use onnx_adapter::case::{ElemType, OnnxCase, OpKind};
use onnx_adapter::environment::{environment, Environment};
use onnx_adapter::findings::{legal_trail, FindingsLog, StoredFinding};
use onnx_adapter::gen_shape::Bounds;
use onnx_adapter::known::catalog;
use onnx_adapter::signature::{Kind, Signature};
use onnx_adapter::validation::well_formed;

fn here() -> Environment {
    environment(Environment {
        tool: "diff-fuzzer".to_string(),
        platform: "x86_64-linux".to_string(),
        components: vec![],
    })
}

fn finding(signature: &str, case: OnnxCase) -> StoredFinding {
    StoredFinding::new(
        signature,
        "tract disagrees with 2 others",
        4182,
        &Bounds::default().description(),
        here(),
        case,
        vec![("tract".into(), "1".into()), ("ort".into(), "0".into())],
    )
}

#[test]
fn a_finding_records_the_policy_and_the_legal_trail() {
    let finding = finding("sig-p", well_formed(OpKind::Sign, &vec![2], 22));
    assert!(finding.policy_is_current());
    assert!(finding.policy.contains("bit-exact"));
    assert!(
        finding.legal_trail.len() >= catalog().len(),
        "the trail must name every catalog entry consulted"
    );
    assert!(
        finding
            .legal_trail
            .iter()
            .any(|e| e.contains("nan-payload")),
        "the one forgiven rule must appear in the trail"
    );
}

#[test]
fn repeated_signatures_are_recorded_once() {
    let mut log = FindingsLog::new();
    assert!(log.record("sig-x"));
    assert!(!log.record("sig-x"));
    assert!(log.record("sig-y"));
    assert_eq!(log.distinct(), 2);
    assert!(log.holds("sig-x") && log.holds("sig-y") && !log.holds("sig-z"));
}

#[test]
fn a_reopened_log_remembers_what_it_holds() {
    let mut reopened = FindingsLog::new();
    reopened.load("sig-z");
    assert_eq!(reopened.distinct(), 1);
    assert!(
        !reopened.record("sig-z"),
        "a signature from a previous run must still de-duplicate"
    );
}

#[test]
fn every_finding_carries_the_generator_that_produced_it() {
    let stored = finding("sig-g", well_formed(OpKind::Sign, &vec![2], 22));
    assert!(
        stored.generator.contains("logic="),
        "the logic fingerprint must be recorded: {}",
        stored.generator
    );
    assert!(
        !stored.environment.components.is_empty(),
        "a finding with no version information cannot be re-checked later"
    );
}

#[test]
fn a_finding_without_a_policy_is_not_current() {
    let mut stored = finding("sig-o", well_formed(OpKind::Sign, &vec![2], 22));
    stored.policy = String::new();
    assert!(!stored.policy_is_current());
}

#[test]
fn an_attached_signature_becomes_the_key() {
    let signature = Signature {
        operator: "Sign".to_string(),
        opset: 22,
        elem_type: ElemType::I32,
        rank: 1,
        kind: Kind::Value,
        participants: vec![("tract".to_string(), "ok".to_string())],
    };
    let stored =
        finding("sig-k", well_formed(OpKind::Sign, &vec![2], 22)).with_signature(signature);
    assert_eq!(stored.signature, "Sign/22/I32/rank1/value");
    assert_eq!(stored.signature_parts.unwrap().key(), "Sign/22/I32/rank1/value");
    assert_eq!(stored.seed, 4182);
}

#[test]
fn the_trail_is_one_line_for_each_entry() {
    let trail = legal_trail();
    let entries = catalog();
    assert_eq!(trail.len(), entries.len());
    for (line, entry) in trail.iter().zip(entries.iter()) {
        assert!(line.starts_with(&format!("{}: ", entry.id)), "{line}");
    }
}

#[test]
fn a_signature_that_stands_twice_in_a_log_counts_once() {
    let mut reopened = FindingsLog::new();
    reopened.load("sig-z");
    reopened.load("sig-y");
    reopened.load("sig-z");
    assert_eq!(reopened.distinct(), 2);
    assert!(reopened.holds("sig-y") && reopened.holds("sig-z"));
}
