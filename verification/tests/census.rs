use onnx_adapter::case::{OnnxCase, OpKind};
use onnx_adapter::census::{take, Census, GoNoGo, Support};
use onnx_adapter::census::{MIN_OPERATORS, MIN_PARTICIPANTS, MIN_TIER_A, MIN_VALUE_DEPENDENT};
use onnx_adapter::ops::candidates;
use onnx_adapter::outcome::OnnxOutcome;

const OPSET: i64 = 22;

/// A census in which every runtime is asked, by its position, and answers by a function.
fn census_of(runtimes: &[&str], answer: fn(&OnnxCase, usize) -> OnnxOutcome) -> Census {
    take(
        "2026-08-13T00:00Z".to_string(),
        OPSET,
        vec![("prost".to_string(), "0.14.4".to_string())],
        runtimes.iter().map(|r| r.to_string()).collect(),
        |runtime: usize, case: &OnnxCase| answer(case, runtime),
    )
}

#[test]
fn the_go_no_go_bar_is_the_one_agreed_before_the_census() {
    assert_eq!(MIN_OPERATORS, 20);
    assert_eq!(MIN_TIER_A, 10);
    assert_eq!(MIN_VALUE_DEPENDENT, 8);
    assert_eq!(MIN_PARTICIPANTS, 3);
}

#[test]
fn the_census_covers_every_candidate() {
    let census = census_of(&["onnxruntime", "tract"], |_, _| OnnxOutcome::Produced(vec![]));
    assert_eq!(census.cells.len(), candidates(OPSET).len() * 2);
    assert_eq!(census.runtimes, vec!["onnxruntime", "tract"]);
    assert!(!census.taken.is_empty());
}

#[test]
fn the_bar_can_fail() {
    let census = census_of(&["onnxruntime", "tract"], |_, _| OnnxOutcome::Produced(vec![]));
    let verdict = GoNoGo::measure(&census);
    assert_eq!(
        verdict.operators_3plus, 0,
        "two runtimes cannot support anything by three participants"
    );
    assert!(!verdict.passes(), "the bar must be able to return false");
}

#[test]
fn support_symbols_are_distinct() {
    let symbols: Vec<char> = [
        Support::Supported,
        Support::Unsupported,
        Support::Rejected,
        Support::Crashed,
    ]
    .into_iter()
    .map(Support::symbol)
    .collect();
    let mut unique = symbols.clone();
    unique.sort_unstable();
    unique.dedup();
    assert_eq!(symbols.len(), unique.len());
}

#[test]
fn the_bar_can_pass() {
    let census = census_of(&["a", "b", "c"], |_, _| OnnxOutcome::Produced(vec![]));
    let verdict = GoNoGo::measure(&census);
    assert_eq!(verdict.operators_3plus, OpKind::ALL.len());
    assert!(verdict.passes());
    assert!(verdict.tightest_margin() > 0);
}

#[test]
fn each_cell_records_what_the_runtime_said() {
    let census = census_of(&["a", "b", "c", "d"], |_, runtime| match runtime {
        0 => OnnxOutcome::Produced(vec![]),
        1 => OnnxOutcome::Rejected { detail: "first\n  last  \n\n".to_string() },
        2 => OnnxOutcome::Unsupported { reason: "none".to_string() },
        _ => OnnxOutcome::TimedOut { after_ms: 7 },
    });
    let (op, elem) = candidates(OPSET)[0];
    assert_eq!(census.cells[0].support, Support::Supported);
    assert_eq!(census.cells[0].detail, None);
    assert_eq!(census.cells[1].support, Support::Rejected);
    assert_eq!(census.cells[1].detail.as_deref(), Some("last"));
    assert_eq!(census.cells[2].support, Support::Unsupported);
    assert_eq!(census.cells[3].support, Support::Crashed);
    assert_eq!(census.cells[3].detail.as_deref(), Some("7ms"));
    assert_eq!(census.supporting(op, elem), vec!["a"]);
    assert_eq!(census.crashes().len(), candidates(OPSET).len());
    assert_eq!(census.operators_supported_by(1).len(), OpKind::ALL.len());
    assert_eq!(census.operators_supported_by(2).len(), 0);
    let tally = census.tally();
    assert_eq!(tally[0].0, "a");
    assert!(tally[0].1.contains(&(Support::Supported, candidates(OPSET).len())));
}

#[test]
fn every_runtime_is_asked_about_every_probe() {
    let census = census_of(&["a", "b"], |case, runtime| OnnxOutcome::Rejected {
        detail: format!("{} {runtime}", case.op.onnx_name()),
    });
    for (k, cell) in census.cells.iter().enumerate() {
        assert_eq!(cell.detail, Some(format!("{} {}", cell.op, k % 2)));
        assert_eq!(cell.runtime, ["a", "b"][k % 2]);
        assert_eq!(cell.op, candidates(OPSET)[k / 2].0.onnx_name());
    }
}
