use onnx_adapter::case::{OnnxCase, OpKind, TensorValue};
use onnx_adapter::normalize::OnnxNormalizer;
use onnx_adapter::oracle::{NamedOutput, OnnxOracle, SkipReason, Verdict};
use onnx_adapter::outcome::OnnxOutcome;
use onnx_adapter::validation::well_formed;

fn f32s(name: &str, dims: Vec<i64>, values: Vec<f32>) -> TensorValue {
    TensorValue::from_f32(name, dims, values.iter().map(|v| v.to_bits()).collect())
}

fn case() -> OnnxCase {
    well_formed(OpKind::Add, &vec![2], 22)
}

fn named(name: &str, outcome: OnnxOutcome) -> NamedOutput {
    NamedOutput {
        implementation: name.to_string(),
        output: OnnxNormalizer.normalize(outcome),
    }
}

fn answered(name: &str, values: Vec<f32>) -> NamedOutput {
    named(
        name,
        OnnxOutcome::Produced(vec![f32s(
            "out",
            vec![values.len() as i64],
            values,
        )]),
    )
}

#[test]
fn unanimous_agreement_is_agreement() {
    let outputs = vec![
        answered("ort", vec![1.0, 2.0]),
        answered("tract", vec![1.0, 2.0]),
        answered("candle", vec![1.0, 2.0]),
    ];
    assert_eq!(OnnxOracle.check(&case(), &outputs), Verdict::Agree);
}

#[test]
fn a_lone_dissenter_is_named() {
    let outputs = vec![
        answered("ort", vec![1.0, 2.0]),
        answered("tract", vec![9.0, 9.0]),
        answered("reference", vec![1.0, 2.0]),
    ];
    let Verdict::Diverged(divergence) = OnnxOracle.check(&case(), &outputs) else {
        panic!("a disagreement must diverge");
    };
    assert!(
        divergence.summary.contains("tract"),
        "the outlier must be named: {}",
        divergence.summary
    );
    assert!(divergence.summary.contains("disagrees with 2"));
}

#[test]
fn an_even_split_names_the_factions_not_an_outlier() {
    let outputs = vec![answered("ort", vec![1.0]), answered("tract", vec![2.0])];
    let Verdict::Diverged(divergence) = OnnxOracle.check(&case(), &outputs) else {
        panic!("must diverge");
    };
    assert!(
        !divergence.summary.contains("disagrees with"),
        "no outlier exists here: {}",
        divergence.summary
    );
    assert!(divergence.summary.contains("2 distinct results"));
}

#[test]
fn a_crash_is_a_divergence_not_a_skip() {
    let outputs = vec![
        answered("ort", vec![1.0]),
        named(
            "tract",
            OnnxOutcome::Crashed {
                detail: "index out of bounds".into(),
            },
        ),
        answered("reference", vec![1.0]),
    ];
    let Verdict::Diverged(divergence) = OnnxOracle.check(&case(), &outputs) else {
        panic!("a crash must be reported, not skipped");
    };
    assert!(divergence.summary.contains("tract"));
}

#[test]
fn a_timeout_is_a_divergence() {
    let outputs = vec![
        answered("ort", vec![1.0]),
        named("tract", OnnxOutcome::TimedOut { after_ms: 5000 }),
    ];
    assert!(matches!(
        OnnxOracle.check(&case(), &outputs),
        Verdict::Diverged(_)
    ));
}

#[test]
fn a_crash_beside_an_abstention_still_diverges() {
    let outputs = vec![
        named(
            "tract",
            OnnxOutcome::Crashed {
                detail: "boom".into(),
            },
        ),
        named(
            "candle",
            OnnxOutcome::Unsupported {
                reason: "operator not implemented".into(),
            },
        ),
    ];
    assert!(
        matches!(OnnxOracle.check(&case(), &outputs), Verdict::Diverged(_)),
        "a crash must survive the abstention filter"
    );
}

#[test]
fn unsupported_participants_are_excused() {
    let outputs = vec![
        answered("ort", vec![1.0]),
        answered("tract", vec![1.0]),
        named(
            "candle",
            OnnxOutcome::Unsupported {
                reason: "no Sign".into(),
            },
        ),
    ];
    assert_eq!(OnnxOracle.check(&case(), &outputs), Verdict::Agree);
}

#[test]
fn one_survivor_is_a_stated_skip_not_a_pass() {
    let outputs = vec![
        answered("ort", vec![1.0]),
        named("tract", OnnxOutcome::Unsupported { reason: "x".into() }),
        named("candle", OnnxOutcome::Unsupported { reason: "y".into() }),
    ];
    assert_eq!(
        OnnxOracle.check(&case(), &outputs),
        Verdict::Skipped(SkipReason::TooFewResults { available: 1 })
    );
}

#[test]
fn unanimous_but_degenerate_is_not_counted_as_a_pass() {
    let outputs = vec![
        answered("ort", vec![f32::NAN, f32::INFINITY]),
        answered("tract", vec![f32::NAN, f32::INFINITY]),
    ];
    assert!(
        matches!(
            OnnxOracle.check(&case(), &outputs),
            Verdict::Skipped(SkipReason::NothingComparable { .. })
        ),
        "an all-undefined agreement compares nothing"
    );
}

#[test]
fn mutual_rejection_is_agreement() {
    let outputs = vec![
        named(
            "ort",
            OnnxOutcome::Rejected {
                detail: "bad".into(),
            },
        ),
        named(
            "tract",
            OnnxOutcome::Rejected {
                detail: "completely different wording".into(),
            },
        ),
    ];
    assert_eq!(OnnxOracle.check(&case(), &outputs), Verdict::Agree);
}

#[test]
fn answered_versus_rejected_diverges() {
    let outputs = vec![
        answered("ort", vec![1.0]),
        named(
            "tract",
            OnnxOutcome::Rejected {
                detail: "no".into(),
            },
        ),
    ];
    assert!(matches!(
        OnnxOracle.check(&case(), &outputs),
        Verdict::Diverged(_)
    ));
}

#[test]
fn everyone_crashing_is_reported_and_labelled() {
    let outputs = vec![
        named("ort", OnnxOutcome::Crashed { detail: "a".into() }),
        named("tract", OnnxOutcome::Crashed { detail: "b".into() }),
    ];
    let Verdict::Diverged(divergence) = OnnxOracle.check(&case(), &outputs) else {
        panic!("must be reported");
    };
    assert!(divergence.summary.contains("every participant failed"));
}

#[test]
fn a_report_shows_signed_zero() {
    let outputs = vec![answered("ort", vec![0.0]), answered("tract", vec![-0.0])];
    let Verdict::Diverged(divergence) = OnnxOracle.check(&case(), &outputs) else {
        panic!("signed zero must diverge");
    };
    let rendered: String = divergence
        .outputs
        .iter()
        .map(|(_, text)| text.clone())
        .collect::<Vec<_>>()
        .join(" ");
    assert!(
        rendered.contains("80000000"),
        "the negative-zero bit pattern must be visible: {rendered}"
    );
}

#[test]
fn a_licensed_difference_is_skipped_not_agreed() {
    let quiet = f32::from_bits(0x7fc0_0000);
    let other = f32::from_bits(0x7fc0_1234);
    let outputs = vec![
        answered("ort", vec![1.0, quiet]),
        answered("tract", vec![1.0, other]),
    ];
    assert_eq!(
        OnnxOracle.check(&case(), &outputs),
        Verdict::Skipped(SkipReason::NothingComparable { elements: 1 }),
        "an excused difference is not a pass"
    );
}

#[test]
fn a_licence_does_not_excuse_a_crash_beside_it() {
    let quiet = f32::from_bits(0x7fc0_0000);
    let other = f32::from_bits(0x7fc0_1234);
    let outputs = vec![
        answered("ort", vec![1.0, quiet]),
        answered("tract", vec![1.0, other]),
        named(
            "candle",
            OnnxOutcome::Crashed {
                detail: "boom".into(),
            },
        ),
    ];
    let Verdict::Diverged(divergence) = OnnxOracle.check(&case(), &outputs) else {
        panic!("the crash must survive the licence");
    };
    assert!(divergence.summary.contains("candle"));
}

#[test]
fn a_licence_does_not_absorb_a_real_disagreement() {
    let quiet = f32::from_bits(0x7fc0_0000);
    let other = f32::from_bits(0x7fc0_1234);
    let outputs = vec![
        answered("ort", vec![1.0, quiet]),
        answered("tract", vec![2.0, other]),
    ];
    assert!(
        matches!(OnnxOracle.check(&case(), &outputs), Verdict::Diverged(_)),
        "a forgiven NaN must not forgive the number next to it"
    );
}

#[test]
fn the_verdict_does_not_depend_on_participant_order() {
    let a = answered("ort", vec![1.0]);
    let b = answered("tract", vec![2.0]);
    let c = answered("candle", vec![1.0]);

    let forward = OnnxOracle.check(&case(), &vec![a.clone(), b.clone(), c.clone()]);
    let reversed = OnnxOracle.check(&case(), &vec![c, b, a]);

    let (Verdict::Diverged(f), Verdict::Diverged(r)) = (forward, reversed) else {
        panic!("both orders must diverge");
    };
    assert_eq!(
        f.summary, r.summary,
        "the outlier must be identified regardless of ordering"
    );
}

#[test]
fn summaries_are_exact() {
    let outputs = vec![
        answered("ort", vec![1.0, 2.0]),
        answered("tract", vec![9.0, 9.0]),
        answered("reference", vec![1.0, 2.0]),
    ];
    let Verdict::Diverged(divergence) = OnnxOracle.check(&case(), &outputs) else {
        panic!("must diverge");
    };
    assert_eq!(divergence.summary, "Add: tract disagrees with 2 others (ort, reference)");
    assert_eq!(divergence.outputs[1].0, "tract");
    assert_eq!(divergence.outputs[1].1, "[2][0x0000000041100000 0x0000000041100000]");

    let outputs = vec![
        answered("tract", vec![1.0]),
        named("candle", OnnxOutcome::Crashed { detail: "boom".into() }),
    ];
    let Verdict::Diverged(divergence) = OnnxOracle.check(&case(), &outputs) else {
        panic!("must diverge");
    };
    assert_eq!(divergence.summary, "candle failed on Add while others answered: 1×crashed, 1×ok");

    let outputs = vec![answered("tract", vec![1.0]), answered("ort", vec![2.0])];
    let Verdict::Diverged(divergence) = OnnxOracle.check(&case(), &outputs) else {
        panic!("must diverge");
    };
    assert_eq!(divergence.summary, "Add: 2 distinct results — ort | tract");
}

#[test]
fn failures_are_named_in_order_whoever_came_first() {
    let crash = || named("tract", OnnxOutcome::Crashed { detail: "a".into() });
    let stall = || named("ort", OnnxOutcome::TimedOut { after_ms: 10 });
    let fine = || answered("candle", vec![1.0]);
    let orders = vec![
        vec![crash(), stall(), fine()],
        vec![stall(), crash(), fine()],
        vec![fine(), stall(), crash()],
    ];
    for outputs in orders {
        let Verdict::Diverged(divergence) = OnnxOracle.check(&case(), &outputs) else {
            panic!("must be reported");
        };
        assert_eq!(
            divergence.summary,
            "ort, tract failed on Add while others answered: 1×crashed, 1×ok, 1×timed-out"
        );
    }
    let Verdict::Diverged(all) = OnnxOracle.check(&case(), &vec![crash(), stall()]) else {
        panic!("must be reported");
    };
    assert_eq!(all.summary, "every participant failed on Add (ort, tract)");
}

#[test]
fn three_factions_are_told_alike_in_every_order() {
    let parts = || {
        vec![answered("d", vec![2.0]), answered("a", vec![1.0]), answered("c", vec![3.0]), answered("b", vec![2.0])]
    };
    let orders: [[usize; 4]; 4] = [[0, 1, 2, 3], [3, 2, 1, 0], [2, 0, 3, 1], [1, 3, 0, 2]];
    for order in orders {
        let outputs: Vec<NamedOutput> = order.iter().map(|i| parts()[*i].clone()).collect();
        let Verdict::Diverged(divergence) = OnnxOracle.check(&case(), &outputs) else {
            panic!("must diverge");
        };
        assert_eq!(divergence.summary, "Add: 3 distinct results — a | b+d | c");
    }
}
