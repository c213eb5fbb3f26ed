use onnx_adapter::case::{ElemType, OnnxCase, OpKind, TensorValue};
use onnx_adapter::ops::{arity_range, candidates, candidates_by_rank, data_elem_type, data_rank};
use onnx_adapter::ops::extra_outputs;
use onnx_adapter::ops::{op_spec, output_spec, probe, probe_at, required_elem_types, Tier};
use onnx_adapter::validation::validate;

const OPSET: i64 = 22;

#[test]
fn every_operator_has_at_least_one_probe() {
    for op in OpKind::ALL {
        let any = ElemType::ALL
            .into_iter()
            .any(|e| probe(op, e, OPSET).is_some());
        assert!(any, "{op:?} has no probe at any element type");
    }
}

#[test]
fn every_probe_is_well_formed() {
    for (op, elem) in candidates(OPSET) {
        let case = probe(op, elem, OPSET).expect("candidates only yields buildable pairs");
        let problems = validate(&case);
        assert!(
            problems.is_empty(),
            "{op:?} at {elem:?} produced an invalid probe: {problems:?}"
        );
    }
}

#[test]
fn type_constraints_are_enforced() {
    assert!(
        probe(OpKind::Sqrt, ElemType::I64, OPSET).is_none(),
        "Sqrt is float-only"
    );
    assert!(
        probe(OpKind::And, ElemType::F32, OPSET).is_none(),
        "And is bool-only"
    );
    assert!(
        probe(OpKind::Not, ElemType::I32, OPSET).is_none(),
        "Not is bool-only"
    );
    assert!(
        probe(OpKind::Add, ElemType::Bool, OPSET).is_none(),
        "Add excludes bool"
    );
    assert!(probe(OpKind::Greater, ElemType::Bool, OPSET).is_none());
    assert!(probe(OpKind::Add, ElemType::I64, OPSET).is_some());
    assert!(probe(OpKind::Equal, ElemType::Bool, OPSET).is_some());
    assert!(probe(OpKind::Identity, ElemType::Bool, OPSET).is_some());
}

#[test]
fn an_operator_below_its_since_version_has_no_probe() {
    assert!(probe(OpKind::Round, ElemType::F32, 21).is_none());
    assert!(probe(OpKind::Round, ElemType::F32, 22).is_some());
    assert!(
        probe(OpKind::Equal, ElemType::F32, 18).is_none(),
        "Equal is since 19"
    );
}

#[test]
fn output_types_that_differ_from_the_input() {
    let bool_out = [OpKind::Equal, OpKind::Greater, OpKind::Less];
    for op in bool_out {
        let case = probe(op, ElemType::F32, OPSET).unwrap();
        assert_eq!(output_spec(&case).0, ElemType::Bool, "{op:?} returns bool");
    }
    for op in [OpKind::Shape, OpKind::Size] {
        let case = probe(op, ElemType::F32, OPSET).unwrap();
        assert_eq!(output_spec(&case).0, ElemType::I64, "{op:?} returns int64");
    }
    let case = probe(OpKind::Cast, ElemType::F32, OPSET).unwrap();
    assert_eq!(output_spec(&case).0, ElemType::I64);
}

#[test]
fn output_shapes_are_inferred_correctly() {
    let expect = |op: OpKind, dims: Vec<i64>| {
        let case = probe(op, ElemType::F32, OPSET).unwrap();
        assert_eq!(output_spec(&case).1, dims, "{op:?}");
    };

    expect(OpKind::Identity, vec![2, 3]);
    expect(OpKind::Add, vec![2, 3]);
    expect(OpKind::Transpose, vec![3, 2]);
    expect(OpKind::Reshape, vec![6]);
    expect(OpKind::Concat, vec![4, 3]);
    expect(OpKind::Gather, vec![1, 3]);
    expect(OpKind::Squeeze, vec![3]);
    expect(OpKind::Unsqueeze, vec![1, 2, 3]);
    expect(OpKind::Shape, vec![2]);
    expect(OpKind::Size, vec![]);
    expect(OpKind::Slice, vec![1, 3]);
    expect(OpKind::Pad, vec![4, 5]);
    expect(OpKind::Where, vec![2, 3]);
}

#[test]
fn enough_operators_are_value_dependent_for_the_go_no_go_bar() {
    let count = OpKind::ALL
        .into_iter()
        .filter(|op| op_spec(*op).value_dependent)
        .count();
    assert!(
        count >= 8,
        "only {count} value-dependent operators; the agreed minimum needs 8"
    );
}

#[test]
fn structural_operators_are_not_value_dependent() {
    for op in [
        OpKind::Identity,
        OpKind::Transpose,
        OpKind::Reshape,
        OpKind::Shape,
        OpKind::Size,
        OpKind::Squeeze,
        OpKind::Unsqueeze,
        OpKind::Concat,
    ] {
        assert!(!op_spec(op).value_dependent, "{op:?} does not read its values");
    }
    for op in [OpKind::Gather, OpKind::Where, OpKind::Add, OpKind::Equal] {
        assert!(op_spec(op).value_dependent, "{op:?} reads its values");
    }
}

#[test]
fn the_candidate_surface_is_substantial() {
    let pairs = candidates(OPSET);
    assert!(
        pairs.len() > 80,
        "only {} operator/type pairs — the census would be measuring very little",
        pairs.len()
    );
    for elem in ElemType::ALL {
        assert!(
            pairs.iter().any(|(_, e)| *e == elem),
            "{elem:?} appears in no candidate pair"
        );
    }
}

#[test]
fn every_operator_is_assigned_a_tier() {
    let (a, b): (Vec<_>, Vec<_>) = OpKind::ALL
        .into_iter()
        .partition(|op| op_spec(*op).tier == Tier::A);
    assert!(
        !a.is_empty() && !b.is_empty(),
        "both tiers must be populated"
    );
    assert_eq!(a.len() + b.len(), OpKind::ALL.len());
}

#[test]
fn a_dynamic_quantization_has_two_further_outputs() {
    let case = probe(OpKind::DynamicQuantizeLinear, ElemType::F32, OPSET).unwrap();
    let extra = extra_outputs(&case);
    assert_eq!(extra.len(), 2);
    assert_eq!(extra[0], ("out_scale", ElemType::F32, vec![]));
    assert_eq!(extra[1], ("out_zero_point", ElemType::U8, vec![]));
    assert!(extra_outputs(&probe(OpKind::Add, ElemType::F32, OPSET).unwrap()).is_empty());
}

#[test]
fn a_selection_is_about_its_data() {
    let case = probe(OpKind::Where, ElemType::F64, OPSET).unwrap();
    assert_eq!(data_elem_type(&case), ElemType::F64);
    assert_eq!(required_elem_types(&case), vec![ElemType::F64, ElemType::Bool]);
    assert_eq!(data_rank(&case), 2);
}

#[test]
fn candidates_by_rank_are_buildable() {
    for (op, elem, rank) in candidates_by_rank(OPSET) {
        let case = probe_at(op, elem, OPSET, rank).expect("a candidate must be buildable");
        assert_eq!(case.op, op);
        assert!(validate(&case).is_empty(), "{op:?} at rank {rank}");
    }
}

#[test]
fn operators_take_the_inputs_that_their_definitions_list() {
    assert_eq!(arity_range(OpKind::Pad), (2, 4));
    assert_eq!(arity_range(OpKind::Min).0, 1);
    assert_eq!(arity_range(OpKind::Max).0, 1);
    assert_eq!(arity_range(OpKind::Max).1, arity_range(OpKind::Concat).1);
    assert_eq!(arity_range(OpKind::Squeeze), (1, 2));
    assert_eq!(arity_range(OpKind::Slice), (3, 5));
    assert_eq!(arity_range(OpKind::Add), (2, 2));
}

#[test]
fn without_axes_every_extent_of_one_is_squeezed() {
    let squeezed = |dims: Vec<i64>, count: usize| {
        let input = TensorValue::from_f32("a", dims, vec![0; count]);
        output_spec(&OnnxCase::new(OpKind::Squeeze, OPSET, vec![input])).1
    };
    assert_eq!(squeezed(vec![1, 3], 3), vec![3]);
    assert_eq!(squeezed(vec![1, 2, 1, 1], 2), vec![2]);
    assert_eq!(squeezed(vec![1], 1), Vec::<i64>::new());
    assert_eq!(squeezed(vec![2, 0], 0), vec![2, 0]);
}

#[test]
fn the_surface_is_listed_in_order_and_grows() {
    let all = candidates(OPSET);
    assert!(all.len() > 80);
    let place = |pair: &(OpKind, ElemType)| {
        let op = OpKind::ALL.iter().position(|o| *o == pair.0).unwrap();
        op * 7 + ElemType::ALL.iter().position(|e| *e == pair.1).unwrap()
    };
    assert!(all.windows(2).all(|w| place(&w[0]) < place(&w[1])));
    for elem in ElemType::ALL {
        assert!(all.iter().any(|p| p.1 == elem), "{elem:?}");
    }
    for opset in 1..OPSET {
        let earlier = candidates(opset);
        assert!(earlier.iter().all(|p| candidates(opset + 1).contains(p)));
    }
    let mut pairs: Vec<(OpKind, ElemType)> = Vec::new();
    for (op, elem, rank) in candidates_by_rank(OPSET) {
        assert!(rank <= 3);
        if pairs.last() != Some(&(op, elem)) {
            pairs.push((op, elem));
        }
    }
    assert_eq!(pairs, all);
}
