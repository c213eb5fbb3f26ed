use onnx_adapter::case::{ElemType, OnnxCase, OpKind, TensorData, TensorValue};

fn f32s(name: &str, dims: Vec<i64>, values: Vec<f32>) -> TensorValue {
    TensorValue::from_f32(name, dims, values.iter().map(|v| v.to_bits()).collect())
}

#[test]
fn plain_json_floats_would_have_destroyed_them() {
    let encoded = serde_json::to_string(&vec![f32::NAN, f32::INFINITY, f32::NEG_INFINITY])
        .expect("serde_json encodes non-finite floats as null rather than failing");

    assert_eq!(
        encoded, "[null,null,null]",
        "if this changed, re-examine whether the bit-pattern encoding is still needed"
    );
}

#[test]
fn arity_is_defined_for_every_operator() {
    for op in OpKind::ALL {
        let (min, max) = op.arity_range();
        assert!(min >= 1, "{op:?} must take at least one input");
        assert!(max >= min, "{op:?} has an inverted arity range");
        assert!(!op.onnx_name().is_empty());
    }
}

#[test]
fn operator_names_are_distinct() {
    let mut names: Vec<&str> = OpKind::ALL.iter().map(|o| o.onnx_name()).collect();
    let count = names.len();
    names.sort_unstable();
    names.dedup();
    assert_eq!(names.len(), count, "two operators share an ONNX name");
}

#[test]
fn element_count_handles_scalars_and_degenerate_shapes() {
    assert_eq!(f32s("s", vec![], vec![1.0]).element_count(), 1);
    assert_eq!(f32s("e", vec![0, 3], vec![]).element_count(), 0);
    assert_eq!(
        f32s("t", vec![2, 3], vec![0.0; 6]).element_count(),
        6
    );
    assert_eq!(
        f32s("n", vec![-1, 3], vec![]).element_count(),
        0
    );
}

#[test]
fn value_dependence_is_recorded_per_operator() {
    assert!(OpKind::Add.is_value_dependent());
    assert!(!OpKind::Identity.is_value_dependent());
    assert!(
        OpKind::ALL
            .iter()
            .filter(|o| o.is_value_dependent())
            .count()
            >= 3
    );
}

#[test]
fn the_bytes_of_every_element_type_are_read_back() {
    let hostile = vec![f32::NAN, f32::INFINITY, f32::NEG_INFINITY, -0.0, 0.0, f32::MIN_POSITIVE];
    let data = [
        TensorData::F32(hostile.iter().map(|v| v.to_bits()).collect()),
        TensorData::F64(vec![f64::NAN.to_bits(), (-0.0f64).to_bits(), 1.5f64.to_bits()]),
        TensorData::I32(vec![i32::MIN, -1, 0, 1, i32::MAX]),
        TensorData::I64(vec![i64::MIN, -1, 0, 1, i64::MAX]),
        TensorData::Bool(vec![true, false]),
        TensorData::I8(vec![-128, -1, 0, 127]),
        TensorData::U8(vec![0, 1, 255]),
    ];
    for values in &data {
        let bytes = values.to_le_bytes();
        let back = TensorData::from_le_bytes(values.elem_type(), &bytes);
        assert!(values.same(&back), "{values:?} changed");
    }
    assert_eq!(data[2].to_le_bytes()[..8], [0, 0, 0, 0x80, 0xff, 0xff, 0xff, 0xff]);
    assert!(TensorData::from_le_bytes(ElemType::I32, &[1, 0, 0, 0, 9]).same(&TensorData::I32(vec![1])));
}

#[test]
fn element_types_are_recovered_from_their_numbers() {
    for elem in ElemType::ALL {
        assert_eq!(ElemType::from_wire(elem.wire()), Some(elem));
    }
    assert_eq!(ElemType::F32.wire(), 1);
    assert_eq!(ElemType::F64.wire(), 11);
    assert_eq!(ElemType::from_wire(8), None);
    assert_eq!(ElemType::I8.saturation_range(), Some((-128, 127)));
    assert_eq!(ElemType::U8.saturation_range(), Some((0, 255)));
    assert_eq!(ElemType::F32.saturation_range(), None);
}

#[test]
fn constants_are_told_from_fed_inputs() {
    let case = OnnxCase::new(
        OpKind::Reshape,
        22,
        vec![
            f32s("a", vec![2], vec![1.0, 2.0]),
            TensorValue::new("shape", vec![2], TensorData::I64(vec![1, 2])).as_initializer(),
        ],
    );
    assert_eq!(case.fed_inputs().len(), 1);
    assert_eq!(case.fed_inputs()[0].name, "a");
    assert_eq!(case.initializers().len(), 1);
    assert_eq!(case.initializers()[0].name, "shape");
    assert_eq!(case.total_elements(), 4);
    assert_eq!(OnnxCase::OUTPUT_NAME, "out");
}
