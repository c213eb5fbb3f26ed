use onnx_adapter::attrs::{AttrValue, Attrs};
use onnx_adapter::case::{ElemType, OnnxCase, OpKind, TensorData, TensorValue};
use onnx_adapter::metamorphic::{cast_back, cast_round_trip, identical, opset_invariant};
use onnx_adapter::metamorphic::{shape_matches_inference, transpose_inverse, Tally, Verdict};
use onnx_adapter::validation::well_formed;

fn f32s(name: &str, dims: Vec<i64>, values: Vec<f32>) -> TensorValue {
    TensorValue::from_f32(name, dims, values.iter().map(|v| v.to_bits()).collect())
}

fn tensor(dims: Vec<i64>, values: Vec<f32>) -> TensorValue {
    f32s("out", dims, values)
}

#[test]
fn the_shape_relation_discriminates() {
    let case = well_formed(OpKind::Add, &vec![2, 3], 22);
    let right = tensor(vec![2, 3], vec![0.0; 6]);
    let wrong_shape = tensor(vec![3, 2], vec![0.0; 6]);
    let wrong_rank = tensor(vec![6], vec![0.0; 6]);

    assert_eq!(shape_matches_inference(&case, &[right]), Verdict::Held);
    assert_eq!(
        shape_matches_inference(&case, &[wrong_shape]),
        Verdict::Violated
    );
    assert_eq!(
        shape_matches_inference(&case, &[wrong_rank]),
        Verdict::Violated
    );
}

#[test]
fn the_shape_relation_checks_the_element_type() {
    let case = well_formed(OpKind::Add, &vec![2], 22);
    let wrong_type = TensorValue::new("out", vec![2], TensorData::I32(vec![0, 0]));
    assert_eq!(
        shape_matches_inference(&case, &[wrong_type]),
        Verdict::Violated
    );
}

#[test]
fn nothing_produced_is_not_applicable_rather_than_held() {
    let case = well_formed(OpKind::Add, &vec![2], 22);
    assert_eq!(shape_matches_inference(&case, &[]), Verdict::NotApplicable);
}

#[test]
fn the_transpose_inverse_is_the_real_inverse() {
    let case = OnnxCase::new(
        OpKind::Transpose,
        22,
        vec![f32s("a", vec![2, 3, 4], vec![0.0; 24])],
    )
    .with_attrs(Attrs::new().ints("perm", vec![1, 2, 0]));

    let produced = tensor(vec![3, 4, 2], vec![0.0; 24]);
    let second = transpose_inverse(&case, &produced).expect("applies");
    assert_eq!(
        second.attrs.get("perm"),
        Some(&AttrValue::Ints(vec![2, 0, 1])),
        "the inverse of [1,2,0] is [2,0,1]"
    );
}

#[test]
fn every_permutation_composes_to_the_identity() {
    for perm in [
        vec![0i64, 1, 2],
        vec![0, 2, 1],
        vec![1, 0, 2],
        vec![1, 2, 0],
        vec![2, 0, 1],
        vec![2, 1, 0],
    ] {
        let case = OnnxCase::new(
            OpKind::Transpose,
            22,
            vec![f32s("a", vec![2, 3, 4], vec![0.0; 24])],
        )
        .with_attrs(Attrs::new().ints("perm", perm.clone()));
        let produced = tensor(vec![2, 3, 4], vec![0.0; 24]);
        let second = transpose_inverse(&case, &produced).expect("applies");
        let inverse = match second.attrs.get("perm") {
            Some(AttrValue::Ints(p)) => p.clone(),
            _ => panic!("no perm"),
        };
        for axis in 0..3usize {
            assert_eq!(
                inverse[perm[axis] as usize], axis as i64,
                "perm {perm:?} inverse {inverse:?} is not an inverse at axis {axis}"
            );
        }
    }
}

#[test]
fn the_cast_round_trip_refuses_lossy_directions() {
    let widening = OnnxCase::new(
        OpKind::Cast,
        22,
        vec![f32s("a", vec![2], vec![1.5, -2.5])],
    )
    .with_attrs(Attrs::new().with_int("to", i64::from(ElemType::I64.wire())));
    let (_, back) = cast_round_trip(&widening).expect("f32 has a widening");
    assert_eq!(back, ElemType::F32);

    let from_i64 = OnnxCase::new(
        OpKind::Cast,
        22,
        vec![TensorValue::new("a", vec![1], TensorData::I64(vec![1]))],
    )
    .with_attrs(Attrs::new().with_int("to", i64::from(ElemType::F32.wire())));
    assert!(cast_round_trip(&from_i64).is_none());
}

#[test]
fn identity_is_decided_on_bits_not_values() {
    let negative = tensor(vec![1], vec![-0.0]);
    let positive = tensor(vec![1], vec![0.0]);
    assert!(
        !identical(&negative, &positive),
        "-0.0 and +0.0 are equal as values and must not be equal here"
    );

    let nan_a = tensor(vec![1], vec![f32::NAN]);
    let nan_b = tensor(vec![1], vec![f32::NAN]);
    assert!(
        identical(&nan_a, &nan_b),
        "an identically preserved NaN is a successful round trip"
    );
}

#[test]
fn opset_invariance_declines_when_there_is_no_earlier_version() {
    let add = well_formed(OpKind::Add, &vec![2], 22);
    let earlier = opset_invariant(&add).expect("Add is unchanged since 14");
    assert_eq!(earlier.opset, 14);
    assert_eq!(earlier.inputs, add.inputs, "only the opset may differ");

    let round = well_formed(OpKind::Round, &vec![2], 22);
    assert!(
        opset_invariant(&round).is_none(),
        "Round has no earlier opset and the relation must decline rather than invent one"
    );
}

#[test]
fn opset_invariance_changes_nothing_but_the_opset() {
    for op in [OpKind::Mul, OpKind::Where, OpKind::Concat, OpKind::Gather] {
        let case = well_formed(op, &vec![2, 2], 22);
        if let Some(earlier) = opset_invariant(&case) {
            assert_eq!(earlier.op, case.op);
            assert_eq!(earlier.inputs, case.inputs);
            assert_eq!(earlier.attrs, case.attrs);
            assert!(earlier.opset < case.opset);
        }
    }
}

#[test]
fn the_tally_separates_inapplicable_from_held() {
    let mut tally = Tally::default();
    tally.record(Verdict::Held);
    tally.record(Verdict::Violated);
    tally.record(Verdict::NotApplicable);
    assert_eq!(tally.judged(), 2);
    assert_eq!(tally.not_applicable, 1);
}

#[test]
fn a_cast_back_takes_what_was_produced() {
    let produced = TensorValue::new("out", vec![2], TensorData::I64(vec![3, 4]));
    let back = cast_back(&produced, ElemType::F32, 21);
    assert_eq!(back.op, OpKind::Cast);
    assert_eq!(back.opset, 21);
    assert_eq!(back.inputs.len(), 1);
    assert_eq!(back.inputs[0].data, produced.data);
    assert_eq!(back.attrs.get("to"), Some(&AttrValue::Int(1)));
}

#[test]
fn only_a_transpose_has_an_inverse() {
    let case = well_formed(OpKind::Add, &vec![2], 22);
    assert!(transpose_inverse(&case, &tensor(vec![2], vec![0.0; 2])).is_none());
}
