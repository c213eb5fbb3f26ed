use onnx_adapter::case::{OnnxCase, OpKind, TensorValue};
use onnx_adapter::features::FeatureVec;
use onnx_adapter::gen_shape::Bounds;
use onnx_adapter::generator::OnnxGenerator;
use onnx_adapter::predicate::Predicate;
use onnx_adapter::rule_validation::{conclude, is_selected, validate, Outcome};
use onnx_adapter::rule_validation::{MIN_MATCHED, TRIGGER_PERCENT};
use onnx_adapter::validation::is_valid;

fn generator() -> OnnxGenerator {
    OnnxGenerator::new(Bounds::default().with_special_values())
}

#[test]
fn a_rule_the_generator_cannot_reach_is_reported_as_such() {
    let unreachable = Predicate::new(&["quantized_op"], &[]);
    let result = validate(unreachable, &generator(), 1, 500, |_: &OnnxCase| true);

    assert_eq!(result.outcome, Outcome::NeverSampled);
    assert_eq!(result.matched, 0);
    assert_eq!(result.rate(), None, "no matches is not a rate of zero");
    assert!(result.describe().contains("NOT REACHABLE"));
}

#[test]
fn a_rule_whose_matches_diverge_is_a_trigger() {
    let broad = Predicate::new(&["float_dtype"], &[]);
    let result = validate(broad, &generator(), 2, 2_000, |_: &OnnxCase| true);

    assert!(result.matched >= MIN_MATCHED, "{}", result.describe());
    assert_eq!(result.outcome, Outcome::Trigger);
    assert_eq!(result.rate(), Some((result.matched, result.matched)));
}

#[test]
fn a_rule_whose_matches_agree_is_a_coincidence() {
    let broad = Predicate::new(&["float_dtype"], &[]);
    let result = validate(broad, &generator(), 2, 2_000, |_: &OnnxCase| false);

    assert!(result.matched >= MIN_MATCHED);
    assert_eq!(result.outcome, Outcome::Coincidence);
    assert_eq!(result.rate(), Some((0, result.matched)));
    assert!(result.describe().contains("discard"));
}

#[test]
fn a_handful_of_matches_is_inconclusive() {
    let broad = Predicate::new(&["float_dtype"], &[]);
    let result = validate(broad, &generator(), 3, 10, |_: &OnnxCase| true);

    assert!(result.matched < MIN_MATCHED);
    assert!(matches!(
        result.outcome,
        Outcome::Inconclusive | Outcome::NeverSampled
    ));
}

#[test]
fn validation_cannot_save_us_from_the_vacuous_rule() {
    let empty = Predicate::default();
    assert!(empty.matches(FeatureVec::default()));

    let result = validate(empty, &generator(), 4, 500, |_: &OnnxCase| true);
    assert_eq!(
        result.outcome,
        Outcome::Trigger,
        "a rule claiming nothing validates perfectly — the search must reject it by name"
    );
}

#[test]
fn validation_is_reproducible_from_its_seed() {
    let rule = Predicate::new(&["float_dtype"], &[]);
    let a = validate(rule, &generator(), 7, 300, |_: &OnnxCase| true);
    let b = validate(rule, &generator(), 7, 300, |_: &OnnxCase| true);
    assert_eq!(a, b);
}

#[test]
fn the_evidence_reads_as_one_line() {
    let rule = Predicate::new(&["float_dtype"], &[]);
    let found = conclude(rule, 9, 80, 40, 25);
    assert_eq!(found.outcome, Outcome::Trigger);
    let line = found.describe();
    assert!(line.starts_with("25/40 matched cases diverged (62%), from 80 sampled, seed 9"), "{line}");
    assert!(conclude(rule, 9, 80, 40, 27).describe().contains("(68%)"));
    assert!(conclude(rule, 9, 80, 0, 0).describe().starts_with("no case matched"));
}

#[test]
fn a_verdict_needs_enough_matches() {
    let rule = Predicate::new(&["float_dtype"], &[]);
    assert_eq!(conclude(rule, 1, 100, MIN_MATCHED - 1, 0).outcome, Outcome::Inconclusive);
    assert_eq!(conclude(rule, 1, 100, MIN_MATCHED, 0).outcome, Outcome::Coincidence);
    assert_eq!(conclude(rule, 1, 100, 40, 20).outcome, Outcome::Trigger);
    assert_eq!(conclude(rule, 1, 100, 40, 19).outcome, Outcome::Coincidence);
    assert_eq!(TRIGGER_PERCENT, 50);
}

#[test]
fn a_rule_selects_what_it_matches() {
    let case = OnnxCase::new(
        OpKind::Abs,
        22,
        vec![TensorValue::from_f32("a", vec![1], vec![0])],
    );
    assert!(is_selected(Predicate::new(&["float_dtype"], &[]), &case));
    assert!(!is_selected(Predicate::new(&["quantized_op"], &[]), &case));
    assert!(is_selected(Predicate::default(), &case));
}

#[test]
fn any_counts_can_be_described() {
    let rule = Predicate::new(&["float_dtype"], &[]);
    assert!(conclude(rule, 1, 9, 2, 3).describe().starts_with("3/2 matched cases diverged (150%)"));
    assert!(conclude(rule, 1, 9, 1, usize::MAX)
        .describe()
        .contains(&format!("({}00%)", usize::MAX)));
}

#[test]
fn only_matched_cases_of_the_generator_are_asked_about() {
    let rule = Predicate::new(&["float_dtype"], &[]);
    let drawn = generator();
    let result = validate(rule, &drawn, 5, 500, |c: &OnnxCase| {
        assert!(is_selected(rule, c) && drawn.operators.contains(&c.op) && is_valid(c));
        true
    });
    assert_eq!(result.diverged, result.matched);
}
