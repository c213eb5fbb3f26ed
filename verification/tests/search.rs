use onnx_adapter::case::{OnnxCase, OpKind, TensorData, TensorValue};
use onnx_adapter::negatives::{Negative, Pool, Provenance, SamplingContext, Source};
use onnx_adapter::search::{enumerate, search, MAX_FEATURES};

fn f32d(values: Vec<f32>) -> TensorData {
    TensorData::F32(values.iter().map(|v| v.to_bits()).collect())
}

const OPSET: i64 = 22;

fn scalar(op: OpKind, data: TensorData) -> OnnxCase {
    let n = data.len() as i64;
    OnnxCase::new(op, OPSET, vec![TensorValue::new("a", vec![n], data)])
}

fn context() -> SamplingContext {
    SamplingContext::new(
        "float-elementwise=on comparisons=on quantized=off special-values=on logic=abc",
        &["tract", "onnxruntime"],
    )
}

fn pool(cases: Vec<OnnxCase>) -> Pool {
    let ctx = context();
    Pool::matched(
        cases
            .into_iter()
            .map(|case| Negative {
                case,
                source: Source::Interesting,
                provenance: ctx.provenance(),
                generator: ctx.generator.clone(),
                runtimes: ctx.runtimes.clone(),
            })
            .collect(),
        &ctx,
    )
    .expect("fixtures share the context they were built from")
}

#[test]
fn the_search_space_is_the_size_it_claims() {
    let all = enumerate();
    assert_eq!(all.len(), 215930);
    assert!(
        all.iter().all(|p| !p.is_vacuous()),
        "the empty rule must never enter the space — it matches everything and claims nothing"
    );
    assert!(all.iter().all(|p| p.size() as usize <= MAX_FEATURES));
}

#[test]
fn a_separating_rule_is_found_and_covers_the_findings() {
    let findings = vec![
        scalar(OpKind::Sign, f32d(vec![-0.0])),
        scalar(OpKind::Sign, f32d(vec![-0.0, 1.0])),
    ];
    let negatives = pool(vec![
        scalar(OpKind::Sign, f32d(vec![1.0])),
        scalar(OpKind::Sign, f32d(vec![2.0, 3.0])),
    ]);

    let result = search(&findings, &negatives);
    assert!(result.unexplained.is_empty(), "{:?}", result.unexplained);
    assert_eq!(result.classes.len(), 1);
    let rule = &result.classes[0];
    assert_eq!(rule.covered.len(), 2);
    assert!(
        rule.predicate.describe().contains("has_negative_zero"),
        "expected the signed-zero atom, got {}",
        rule.predicate.describe()
    );
}

#[test]
fn a_rule_that_fires_on_a_negative_is_refused() {
    let findings = vec![scalar(OpKind::Abs, f32d(vec![1.0]))];
    let negatives = pool(vec![scalar(OpKind::Abs, f32d(vec![2.0]))]);

    let result = search(&findings, &negatives);
    assert!(result.classes.is_empty(), "{:?}", result.classes);
    assert_eq!(result.unexplained, vec![0]);
}

#[test]
fn what_cannot_be_explained_is_reported_rather_than_dropped() {
    let findings = vec![
        scalar(OpKind::Sign, f32d(vec![-0.0])),
        scalar(OpKind::Abs, f32d(vec![1.0])),
    ];
    let negatives = pool(vec![scalar(OpKind::Abs, f32d(vec![2.0]))]);

    let result = search(&findings, &negatives);
    assert_eq!(result.classes.len(), 1);
    assert_eq!(result.classes[0].covered, vec![0]);
    assert_eq!(
        result.unexplained,
        vec![1],
        "the inseparable finding must survive as a gap"
    );
    assert_eq!(result.considered, 215930);
}

#[test]
fn several_classes_can_be_committed_in_one_run() {
    let findings = vec![
        scalar(OpKind::Sign, f32d(vec![-0.0])),
        scalar(OpKind::Abs, f32d(vec![f32::NAN])),
    ];
    let negatives = pool(vec![scalar(OpKind::Abs, f32d(vec![1.0]))]);

    let result = search(&findings, &negatives);
    assert!(result.unexplained.is_empty(), "{:?}", result.unexplained);
    assert_eq!(
        result.classes.len(),
        2,
        "two unrelated triggers should not collapse into one rule"
    );
}

#[test]
fn negatives_are_broken_down_by_source() {
    let ctx = context();
    let mixed = Pool::matched(
        vec![
            Negative {
                case: scalar(OpKind::Abs, f32d(vec![1.0])),
                source: Source::Interesting,
                provenance: ctx.provenance(),
                generator: ctx.generator.clone(),
                runtimes: ctx.runtimes.clone(),
            },
            Negative {
                case: scalar(OpKind::Abs, f32d(vec![2.0])),
                source: Source::NearMiss,
                provenance: Provenance::Constructed,
                generator: ctx.generator.clone(),
                runtimes: ctx.runtimes.clone(),
            },
        ],
        &ctx,
    )
    .expect("same conditions");

    let findings = vec![scalar(OpKind::Sign, f32d(vec![-0.0]))];
    let result = search(&findings, &mixed);
    let by_source = &result.classes[0].negatives_by_source;
    assert_eq!(by_source.len(), 2, "both sources must appear separately");
    assert!(by_source.iter().all(|(_, matched, _)| *matched == 0));
}

#[test]
fn rules_that_tie_are_all_surfaced() {
    let findings = vec![
        scalar(OpKind::Sign, f32d(vec![-0.0])),
        scalar(OpKind::Sign, f32d(vec![-0.0, -0.0])),
    ];
    let negatives = pool(vec![scalar(OpKind::Abs, f32d(vec![1.0]))]);

    let result = search(&findings, &negatives);
    let committed = &result.classes[0];
    let all: Vec<String> = std::iter::once(committed.predicate)
        .chain(committed.tied_with.iter().copied())
        .map(|p| p.describe())
        .collect();

    assert!(
        all.len() > 1,
        "two equally-scoring rules exist here; only {} was surfaced",
        all[0]
    );
    assert!(
        all.iter().any(|r| r.contains("op_sign")),
        "the operator-keyed alternative must survive the tie: {all:?}"
    );
}

#[test]
fn the_search_is_deterministic() {
    let findings = vec![scalar(OpKind::Sign, f32d(vec![-0.0]))];
    let negatives = pool(vec![scalar(OpKind::Abs, f32d(vec![1.0]))]);
    let first = format!("{:?}", search(&findings, &negatives));
    assert_eq!(first, format!("{:?}", search(&findings, &negatives)));
}

#[test]
fn every_finding_is_explained_or_reported() {
    let findings = vec![
        scalar(OpKind::Sign, f32d(vec![-0.0])),
        scalar(OpKind::Abs, f32d(vec![1.0])),
        scalar(OpKind::Abs, f32d(vec![f32::NAN])),
    ];
    let negatives = pool(vec![scalar(OpKind::Abs, f32d(vec![2.0]))]);
    let result = search(&findings, &negatives);
    let mut seen: Vec<usize> = result.unexplained.clone();
    for class in &result.classes {
        seen.extend(class.covered.iter().copied());
    }
    seen.sort_unstable();
    assert_eq!(seen, vec![0, 1, 2]);
}
