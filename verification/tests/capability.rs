use onnx_adapter::attrs::Attrs;
use onnx_adapter::capability::{Capabilities, WithCapabilities};
use onnx_adapter::case::{ElemType, OnnxCase, OpKind, TensorData, TensorValue};
use onnx_adapter::census::Census;
use onnx_adapter::environment::{environment, Environment};
use onnx_adapter::ops::{candidates, probe, required_elem_types};
use onnx_adapter::outcome::OnnxOutcome;

fn f32d(values: Vec<f32>) -> TensorData {
    TensorData::F32(values.iter().map(|v| v.to_bits()).collect())
}

const OPSET: i64 = 22;

/// A census in which ONNX Runtime runs everything but `Where` on booleans, and tract everything
/// in single precision and on integers of 32 bits.
fn answer(op: OpKind, elem: ElemType, runtime: &str) -> OnnxOutcome {
    let refused = match runtime {
        "onnxruntime" => op == OpKind::Where && elem == ElemType::Bool,
        _ => elem != ElemType::F32 && elem != ElemType::I32,
    };
    if refused {
        OnnxOutcome::Rejected { detail: "not implemented".to_string() }
    } else {
        OnnxOutcome::Produced(vec![])
    }
}

fn census_of(runtimes: &[&str]) -> Census {
    let mut outcomes = Vec::new();
    for (op, elem) in candidates(OPSET) {
        for runtime in runtimes {
            outcomes.push(answer(op, elem, runtime));
        }
    }
    Census::assemble(
        "2026-08-13T00:00Z".to_string(),
        OPSET,
        current().components,
        runtimes.iter().map(|r| r.to_string()).collect(),
        &outcomes,
    )
}

fn current() -> Environment {
    environment(Environment {
        tool: "diff-fuzzer".to_string(),
        platform: "x86_64-linux".to_string(),
        components: vec![],
    })
}

fn sample() -> Capabilities {
    Capabilities::from_census(&census_of(&["onnxruntime", "tract"]))
}

/// A runtime that gives one answer to everything.
struct Always(&'static str, OnnxOutcome);

fn run(wrapped: &WithCapabilities<'_, Always>, case: &OnnxCase) -> OnnxOutcome {
    wrapped.run(wrapped.inner().0, case, |runtime: &Always, _: &OnnxCase| runtime.1.clone())
}

fn refusing(name: &'static str, detail: &str) -> Always {
    Always(name, OnnxOutcome::Rejected { detail: detail.to_string() })
}

#[test]
fn only_a_claimed_operator_makes_a_failure_reportable() {
    let caps = sample();

    assert!(caps.claims("onnxruntime", OpKind::Add, ElemType::F32));
    assert!(caps.failure_is_reportable("onnxruntime", OpKind::Add, ElemType::F32));

    assert!(caps.was_measured("onnxruntime", OpKind::Where, ElemType::Bool));
    assert!(!caps.claims("onnxruntime", OpKind::Where, ElemType::Bool));
    assert!(!caps.failure_is_reportable("onnxruntime", OpKind::Where, ElemType::Bool));
}

#[test]
fn an_unmeasured_combination_is_never_reportable() {
    let caps = sample();
    assert!(!caps.was_measured(
        "a-runtime-that-was-not-in-the-census",
        OpKind::Add,
        ElemType::F32
    ));
    assert!(!caps.failure_is_reportable(
        "a-runtime-that-was-not-in-the-census",
        OpKind::Add,
        ElemType::F32
    ));
}

#[test]
fn measured_and_claimed_are_different_questions() {
    let caps = sample();
    assert!(!caps.was_measured("tract", OpKind::Sqrt, ElemType::I64));
    assert!(!caps.claims("tract", OpKind::Sqrt, ElemType::I64));
}

#[test]
fn version_drift_is_detected_and_named() {
    let caps = sample();

    assert!(
        caps.is_stale_for(&current().components)
            .is_empty()
    );

    let drifted = caps.is_stale_for(&vec![("onnx (python, reference)".into(), "9.9.9".into())]);
    assert_eq!(drifted.len(), 1);
    assert!(
        drifted[0].contains("onnx"),
        "the drifted component must be named"
    );

    let unknown = caps.is_stale_for(&vec![("some-new-runtime".into(), "1.0".into())]);
    assert_eq!(unknown.len(), 1);
}

#[test]
fn the_model_is_not_empty() {
    let caps = sample();
    assert!(
        caps.claim_count("onnxruntime") > 100,
        "ORT claims almost everything"
    );
    assert!(caps.claim_count("tract") > 50);
    assert_eq!(
        caps.runtimes(),
        vec!["onnxruntime", "tract"]
    );
    assert_eq!(caps.opset(), OPSET);
    assert!(!caps.taken().is_empty());
}

#[test]
fn a_gap_becomes_unsupported_but_a_crash_never_changes() {

    let caps = sample();
    let case = probe(OpKind::Add, ElemType::F32, OPSET).unwrap();

    let claimed = WithCapabilities::new(refusing("onnxruntime", "no idea what that is"), &caps);
    assert!(
        matches!(run(&claimed, &case), OnnxOutcome::Rejected { .. }),
        "a runtime that claims the operator and still refuses is making a statement about \
         this input, which must stay comparable"
    );

    let unclaimed = WithCapabilities::new(refusing("never-censused", "no idea what that is"), &caps);
    assert!(
        matches!(
            run(&unclaimed, &case),
            OnnxOutcome::Unsupported { .. }
        ),
        "a refusal from a runtime that claims nothing is a gap, not a disagreement"
    );

    let crasher = WithCapabilities::new(Always("panicking", OnnxOutcome::Crashed { detail: "deliberate".to_string() }), &caps);
    assert!(
        matches!(run(&crasher, &case), OnnxOutcome::Crashed { .. }),
        "a crash must survive classification — nothing may excuse one"
    );
}

#[test]
fn a_type_the_runtime_cannot_represent_is_a_gap_not_a_divergence() {

    let mut narrowed = census_of(&["onnxruntime"]);
    narrowed.cells.retain(|c| c.elem_type == ElemType::F32);
    let caps = Capabilities::from_census(&narrowed);

    assert!(caps.known_unable_to_represent("onnxruntime", ElemType::I32));
    assert!(!caps.known_unable_to_represent("onnxruntime", ElemType::F32));

    let case = OnnxCase::new(
        OpKind::Cast,
        OPSET,
        vec![TensorValue::new(
            "a",
            vec![2],
            f32d(vec![1.5, -2.5]),
        )],
    )
    .with_attrs(Attrs::new().with_int("to", i64::from(ElemType::I32.wire())));

    assert!(
        required_elem_types(&case).contains(&ElemType::I32),
        "the output type must be part of what the case requires"
    );

    let wrapped = WithCapabilities::new(Always("onnxruntime", OnnxOutcome::Produced(vec![])), &caps);
    assert!(
        matches!(run(&wrapped, &case), OnnxOutcome::Unsupported { .. }),
        "a case needing a type the runtime cannot represent is a gap, not a disagreement"
    );

    let representable = OnnxCase::new(
        OpKind::Cast,
        OPSET,
        vec![TensorValue::new(
            "a",
            vec![2],
            f32d(vec![1.5, -2.5]),
        )],
    )
    .with_attrs(Attrs::new().with_int("to", i64::from(ElemType::F32.wire())));
    assert!(
        matches!(run(&wrapped, &representable), OnnxOutcome::Produced(_)),
        "the skip must be specific to the unrepresentable type, not a blanket refusal"
    );
}

#[test]
fn an_uncensused_runtime_is_never_skipped() {
    let caps = sample();
    for elem in ElemType::ALL {
        assert!(
            !caps.known_unable_to_represent("a-runtime-nobody-measured", elem),
            "an uncensused runtime must not be declared unable to represent {elem:?}"
        );
    }
}

#[test]
fn a_reclassified_gap_names_its_evidence() {

    let caps = sample();
    let case = probe(OpKind::Max, ElemType::F32, OPSET).unwrap();
    let OnnxOutcome::Unsupported { reason } =
        run(&WithCapabilities::new(refusing("never-censused", "unsupported op_type Max"), &caps), &case)
    else {
        panic!("expected a gap");
    };
    assert!(
        reason.contains("Max"),
        "the operator must be named: {reason}"
    );
    assert!(
        reason.contains(caps.taken()),
        "the census date must be named so a stale matrix is traceable: {reason}"
    );
}

#[test]
fn a_capable_runtime_is_read_as_it_answers() {
    let caps = sample();
    let case = probe(OpKind::Add, ElemType::F32, OPSET).unwrap();
    let produced = OnnxOutcome::Produced(vec![]);
    assert_eq!(caps.read("onnxruntime", &case, produced.clone()), produced);
    assert!(caps.gap("onnxruntime", &case).is_none());
    assert_eq!(caps.representable_types("tract"), vec![ElemType::F32, ElemType::I32]);
}

#[test]
fn a_runtime_is_not_asked_where_a_type_is_missing() {
    let mut narrowed = census_of(&["onnxruntime"]);
    narrowed.cells.retain(|c| c.elem_type == ElemType::F32);
    let caps = Capabilities::from_census(&narrowed);
    let wrapped = WithCapabilities::new(Always("onnxruntime", OnnxOutcome::Produced(vec![])), &caps);
    let case = probe(OpKind::Add, ElemType::I32, OPSET).unwrap();
    let outcome = wrapped.run("onnxruntime", &case, |_: &Always, _: &OnnxCase| -> OnnxOutcome {
        panic!("a gap is known without asking")
    });
    assert!(matches!(outcome, OnnxOutcome::Unsupported { .. }));
}
