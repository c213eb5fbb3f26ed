use onnx_adapter::attrs::Attrs;
use onnx_adapter::case::{ElemType, OnnxCase, OpKind, TensorData, TensorValue};
use onnx_adapter::model::{add_model, build_bytes, single_node_model, to_bytes, DEFAULT_OPSET};
use onnx_adapter::ops::probe;
use prost::Message;
use tract_onnx::pb;

#[test]
fn an_add_model_has_the_structure_onnx_expects() {
    let model = add_model(&[2, 3], DEFAULT_OPSET);

    let graph = &model.graph;
    assert_eq!(graph.node.len(), 1, "this domain builds single-node graphs");
    assert_eq!(graph.node[0].op_type, "Add");
    assert_eq!(graph.node[0].input, vec!["a", "b"]);
    assert_eq!(graph.node[0].output, vec!["c"]);
    assert_eq!(graph.input.len(), 2);
    assert_eq!(graph.output.len(), 1);
}

#[test]
fn every_graph_input_is_typed_and_shaped() {
    let model = add_model(&[2, 3], DEFAULT_OPSET);
    let graph = &model.graph;

    for info in graph.input.iter().chain(graph.output.iter()) {
        assert_eq!(info.elem_type, ElemType::F32.wire());
        assert_eq!(info.dims, vec![2, 3], "dimensions must be static, never symbolic");
    }
}

#[test]
fn serialization_is_deterministic() {
    let first = to_bytes(&add_model(&[2, 3], DEFAULT_OPSET));
    let second = to_bytes(&add_model(&[2, 3], DEFAULT_OPSET));

    assert_eq!(first, second);
    assert!(!first.is_empty());
}

#[test]
fn the_opset_is_recorded_on_the_model() {
    let model = add_model(&[2, 3], 17);
    assert_eq!(model.opset_import.len(), 1);
    assert_eq!(model.opset_import[0].version, 17);
    assert_eq!(model.opset_import[0].domain, "");
}

#[test]
fn a_model_survives_a_round_trip_through_bytes() {
    let original = add_model(&[4, 5, 6], DEFAULT_OPSET);
    let decoded =
        pb::ModelProto::decode(to_bytes(&original).as_slice()).expect("bytes we wrote must decode");

    assert_eq!(decoded.ir_version, original.ir_version);
    assert_eq!(decoded.producer_name, original.producer_name);
    assert_eq!(decoded.opset_import.len(), 1);
    assert_eq!(decoded.opset_import[0].version, DEFAULT_OPSET);
    assert_eq!(decoded.opset_import[0].domain, "");
    let graph = decoded.graph.expect("a model must carry a graph");
    assert_eq!(graph.name, original.graph.name);
    assert_eq!(graph.node.len(), 1);
    assert_eq!(graph.node[0].op_type, "Add");
    assert_eq!(graph.node[0].name, "add_0");
    assert_eq!(graph.node[0].input, ["a", "b"]);
    assert_eq!(graph.node[0].output, ["c"]);
    for (decoded, written) in graph.input.iter().zip(original.graph.input.iter()) {
        assert_eq!(decoded.name, written.name);
        assert_eq!(shape_of(decoded), written.dims);
    }
    assert_eq!(shape_of(&graph.output[0]), vec![4, 5, 6]);
}

/// The static extents that an input or an output is declared with.
fn shape_of(info: &pb::ValueInfoProto) -> Vec<i64> {
    let written = format!("{info:?}");
    assert!(!written.contains("DimParam"), "dimensions must be static, never symbolic");
    written
        .split("DimValue(")
        .skip(1)
        .map(|rest| rest[..rest.find(')').unwrap()].parse().unwrap())
        .collect()
}

#[test]
fn attributes_and_initializers_survive_encoding() {
    let case = OnnxCase::new(
        OpKind::Reshape,
        22,
        vec![
            TensorValue::from_f32("a", vec![2, 2], vec![0, 0x8000_0000, 0x7fc0_0000, 1]),
            TensorValue::new("shape", vec![1], TensorData::I64(vec![-1])).as_initializer(),
        ],
    )
    .with_attrs(
        Attrs::new()
            .with_int("allowzero", -3)
            .ints("axes", vec![1, -2])
            .float("alpha", 0x3f80_0000)
            .string("mode", "edge"),
    );
    let decoded = pb::ModelProto::decode(build_bytes(&case).as_slice()).expect("decodes");
    let graph = decoded.graph.expect("a graph");
    assert_eq!(graph.input.len(), 1, "an initializer is not an input of the graph");
    assert_eq!(graph.initializer.len(), 1);
    assert_eq!(graph.initializer[0].name, "shape");
    assert_eq!(graph.initializer[0].dims, [1]);
    assert_eq!(graph.initializer[0].data_type, 7);
    assert_eq!(graph.initializer[0].raw_data, (-1i64).to_le_bytes());
    let node = &graph.node[0];
    assert_eq!(node.input, ["a", "shape"]);
    assert_eq!(node.output, ["out"]);
    let attributes = &node.attribute;
    assert_eq!(attributes.len(), 4);
    let kind_of = |a: &pb::AttributeProto| format!("{a:?}");
    let named = |n: &str| attributes.iter().find(|a| a.name == n).expect("kept");
    assert_eq!(named("allowzero").i, -3);
    assert!(kind_of(named("allowzero")).contains("type: Int"));
    assert_eq!(named("axes").ints, [1, -2]);
    assert!(kind_of(named("axes")).contains("type: Ints"));
    assert_eq!(named("alpha").f.to_bits(), 0x3f80_0000);
    assert!(kind_of(named("alpha")).contains("type: Float"));
    assert_eq!(named("mode").s, b"edge");
    assert!(kind_of(named("mode")).contains("type: String"));
}

#[test]
fn different_models_have_different_bytes() {
    let one = to_bytes(&add_model(&[2, 3], 22));
    assert_ne!(one, to_bytes(&add_model(&[3, 2], 22)));
    assert_ne!(one, to_bytes(&add_model(&[2, 3], 21)));
    assert_ne!(one, to_bytes(&add_model(&[300], 22)));
}

#[test]
fn every_probe_builds_a_model_that_decodes() {
    for op in OpKind::ALL {
        let Some(case) = probe(op, ElemType::F32, 22) else {
            continue;
        };
        let decoded = pb::ModelProto::decode(build_bytes(&case).as_slice()).expect("decodes");
        let graph = decoded.graph.expect("a graph");
        assert_eq!(graph.node[0].op_type, op.onnx_name());
        assert_eq!(graph.input.len(), case.fed_inputs().len());
        assert_eq!(graph.initializer.len(), case.initializers().len());
    }
}

#[test]
fn a_node_is_named_in_lower_case() {
    let model =
        single_node_model("ÄDD", &[("a", ElemType::U8, vec![])], ("c", ElemType::U8, vec![]), 22);
    assert_eq!(model.graph.node[0].name, "ädd_0");
    assert_eq!(model.graph.input[0].elem_type, 2);
}

#[test]
fn the_smallest_model_has_bytes() {
    assert!(!to_bytes(&add_model(&[], 22)).is_empty());
    assert_eq!(to_bytes(&add_model(&[2], 22)), to_bytes(&add_model(&[2], 22)));
    assert_ne!(to_bytes(&add_model(&[2], 22)), to_bytes(&add_model(&[3], 22)));
}
