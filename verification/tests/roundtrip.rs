use onnx_adapter::roundtrip::Outcome;

#[test]
fn the_outcome_separates_unjudged_from_passed() {
    let mut outcome = Outcome::default();
    outcome.record(Some(true));
    outcome.record(Some(false));
    outcome.record(None);
    assert_eq!(outcome.held, 1);
    assert_eq!(outcome.violated, 1);
    assert_eq!(outcome.not_representable, 1);
    assert_eq!(outcome.judged(), 2, "an excluded value is not a judged one");
}
