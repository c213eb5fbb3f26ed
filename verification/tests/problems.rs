use onnx_adapter::case::ElemType;
use onnx_adapter::problems::{group, problems};
use onnx_adapter::signature::{Kind, Signature};

fn signature(operator: &str, elem: ElemType, rank: usize, kind: Kind) -> Signature {
    Signature {
        operator: operator.to_string(),
        opset: 22,
        elem_type: elem,
        rank,
        kind,
        participants: vec![("tract".into(), "ok".into())],
    }
}

#[test]
fn the_n7_signature_set_collapses_to_three_problems() {
    let mut signatures = Vec::new();
    for elem in [ElemType::F32, ElemType::F64, ElemType::I32, ElemType::I64] {
        for rank in 1..=4 {
            signatures.push((signature("Sign", elem, rank, Kind::Value), 2));
        }
    }
    for rank in 1..=4 {
        signatures.push((signature("Where", ElemType::F32, rank, Kind::Value), 3));
        signatures.push((
            signature("Reshape", ElemType::Bool, rank, Kind::RejectedVersusOk),
            1,
        ));
    }

    let grouping = group(&signatures);
    assert_eq!(grouping.problems(), 3, "24 signatures must be 3 problems");
    assert!(!grouping.has_unexplained(), "{:?}", grouping.unexplained);

    let sign = grouping
        .matched
        .iter()
        .find(|(p, _, _)| p.id == "P-001")
        .expect("Sign must be grouped");
    assert_eq!(sign.1, 16, "signatures accounted for");
    assert_eq!(sign.2, 32, "occurrences accounted for");
}

#[test]
fn an_unrecognised_signature_is_reported_not_absorbed() {
    let signatures = vec![
        (signature("Sign", ElemType::I32, 1, Kind::Value), 5),
        (signature("Sqrt", ElemType::F32, 2, Kind::Value), 1),
    ];
    let grouping = group(&signatures);
    assert!(grouping.has_unexplained());
    assert_eq!(grouping.unexplained.len(), 1);
    assert!(grouping.unexplained[0].0.starts_with("Sqrt/"));
    assert_eq!(
        grouping.problems(),
        2,
        "an unexplained signature counts as its own problem until somebody explains it"
    );
}

#[test]
fn the_disagreement_kind_separates_problems_on_one_operator() {
    let refusal = signature("Reshape", ElemType::F32, 2, Kind::RejectedVersusOk);
    let wrong_answer = signature("Reshape", ElemType::F32, 2, Kind::Value);

    let reshape = problems().into_iter().find(|p| p.id == "P-003").unwrap();
    assert!(reshape.covers(&refusal));
    assert!(
        !reshape.covers(&wrong_answer),
        "a wrong answer from Reshape would be a different problem and must not be absorbed"
    );
}

#[test]
fn every_problem_names_its_finding() {
    for problem in problems() {
        assert!(
            problem.finding.contains("F-"),
            "problem {:?} names no finding",
            problem.id
        );
        assert!(!problem.what.is_empty());
        assert!(!problem.implementation.is_empty());
    }
}

#[test]
fn problem_identifiers_are_unique() {
    let mut ids: Vec<&str> = problems().iter().map(|p| p.id).collect();
    let count = ids.len();
    ids.sort_unstable();
    ids.dedup();
    assert_eq!(ids.len(), count);
}

#[test]
fn problems_do_not_overlap() {
    let all = problems();
    for (i, a) in all.iter().enumerate() {
        for b in &all[i + 1..] {
            assert!(
                !(a.operator == b.operator && a.kind == b.kind),
                "{:?} and {:?} would both claim the same signatures",
                a.id,
                b.id
            );
        }
    }
}

#[test]
fn occurrences_are_counted_not_lost() {
    let signatures = vec![
        (signature("Sign", ElemType::I32, 1, Kind::Value), 5),
        (signature("Sign", ElemType::I64, 2, Kind::Value), 7),
        (signature("Sqrt", ElemType::F32, 2, Kind::Crash), 1),
    ];
    let grouping = group(&signatures);
    let matched: usize = grouping.matched.iter().map(|(_, _, n)| n).sum();
    let unexplained: usize = grouping.unexplained.iter().map(|(_, n)| n).sum();
    assert_eq!(matched + unexplained, 13);
    assert_eq!(group(&[]).problems(), 0);
}
