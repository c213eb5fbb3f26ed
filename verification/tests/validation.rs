use onnx_adapter::attrs::Attrs;
use onnx_adapter::case::{ElemType, OnnxCase, OpKind, TensorData, TensorValue};
use onnx_adapter::describe::describe_case;
use onnx_adapter::ops::candidates;
use onnx_adapter::ops::probe;
use onnx_adapter::validation::{check, holds_elements, input_name, is_valid, validate};
use onnx_adapter::validation::{well_formed, well_formed_typed, Problem, PROBLEMS};

fn ones(name: &str, dims: Vec<i64>, count: usize) -> TensorValue {
    TensorValue::from_f32(name, dims, vec![0x3f80_0000; count])
}

fn problems(op: OpKind, opset: i64, inputs: Vec<TensorValue>) -> Vec<Problem> {
    validate(&OnnxCase::new(op, opset, inputs))
}

#[test]
fn samples_and_probes_are_valid() {
    for op in OpKind::ELEMENTWISE {
        let case = well_formed(op, &vec![2, 3], 22);
        assert!(is_valid(&case), "{op:?}: {:?}", validate(&case));
    }
    for (op, elem) in candidates(22) {
        let case = probe(op, elem, 22).expect("a candidate has a probe");
        assert!(is_valid(&case), "{op:?} {elem:?}: {:?}", validate(&case));
    }
}

#[test]
fn a_sample_has_the_shape_and_type_that_were_asked_for() {
    let case = well_formed_typed(OpKind::Identity, &vec![2, 3], 22, ElemType::I64);
    assert_eq!(case.inputs.len(), 1);
    assert_eq!(case.inputs[0].dims, vec![2, 3]);
    assert_eq!(case.inputs[0].elem_type(), ElemType::I64);
    assert_eq!(case.inputs[0].name, "a");
    assert_eq!(input_name(1), "b");
}

#[test]
fn every_problem_has_a_case() {
    let two = || vec![ones("a", vec![2], 2), ones("b", vec![2], 2)];
    assert_eq!(problems(OpKind::Add, 22, two()), vec![]);
    assert!(problems(OpKind::Add, 22, vec![ones("a", vec![2], 2)]).contains(&Problem::Arity));
    assert!(problems(OpKind::Add, 1, two()).contains(&Problem::Opset));
    let negative = vec![ones("a", vec![-1], 0), ones("b", vec![-1], 0)];
    assert!(problems(OpKind::Add, 22, negative).contains(&Problem::NegativeExtent));
    let short = vec![ones("a", vec![2], 1), ones("b", vec![2], 2)];
    assert!(problems(OpKind::Add, 22, short).contains(&Problem::DataLength));
    let twice = vec![ones("a", vec![2], 2), ones("a", vec![2], 2)];
    assert!(problems(OpKind::Add, 22, twice).contains(&Problem::DuplicateName));
    let flags = vec![TensorValue::new("a", vec![1], TensorData::Bool(vec![true]))];
    assert!(problems(OpKind::Abs, 22, flags).contains(&Problem::ElementType));
    let mixed = vec![ones("a", vec![2], 2), ones("b", vec![3], 3)];
    assert!(problems(OpKind::Add, 22, mixed).contains(&Problem::Disagreement));
    let turned = OnnxCase::new(OpKind::Transpose, 22, vec![ones("a", vec![1, 2], 2)])
        .with_attrs(Attrs::new().ints("perm", vec![0, 0]));
    assert_eq!(validate(&turned), vec![Problem::Parameter]);
}

#[test]
fn a_case_is_valid_where_nothing_is_wrong() {
    let case = OnnxCase::new(OpKind::Add, 22, vec![ones("a", vec![2], 1), ones("a", vec![2], 2)]);
    let found = validate(&case);
    for problem in PROBLEMS {
        assert_eq!(check(&case, problem), !found.contains(&problem), "{problem:?}");
    }
    assert!(!is_valid(&case));
    assert!(holds_elements(&vec![2, 0], 0) && !holds_elements(&vec![2, 3], 5));
}

#[test]
fn a_name_is_described_with_its_characters_escaped() {
    let case = OnnxCase::new(OpKind::Abs, 22, vec![ones("a\"\n", vec![1], 1)]);
    let described = describe_case(&case);
    assert!(described.contains("\"a\\\"\\n\""), "{described}");
}

#[test]
fn optional_inputs_are_accepted_where_they_say_the_default() {
    let numbers = |name: &str, v: Vec<i64>| {
        TensorValue::new(name, vec![v.len() as i64], TensorData::I64(v)).as_initializer()
    };
    let slice = |steps: i64, axis: i64| {
        vec![
            ones("a", vec![2, 3], 6),
            numbers("starts", vec![0]),
            numbers("ends", vec![1]),
            numbers("axes", vec![axis]),
            numbers("steps", vec![steps]),
        ]
    };
    assert_eq!(problems(OpKind::Slice, 22, slice(1, 0)), vec![]);
    assert_eq!(problems(OpKind::Slice, 22, slice(2, 0)), vec![Problem::Parameter]);
    assert_eq!(problems(OpKind::Slice, 22, slice(1, 1)), vec![Problem::Parameter]);
    assert_eq!(problems(OpKind::Max, 22, vec![ones("a", vec![2], 2)]), vec![]);
    let five: Vec<TensorValue> =
        ["a", "b", "c", "d", "e"].iter().map(|n| ones(n, vec![2], 2)).collect();
    assert_eq!(problems(OpKind::Min, 22, five), vec![]);
    let padded = vec![
        ones("a", vec![1], 1),
        numbers("pads", vec![1, 1]),
        TensorValue::from_f32("value", vec![], vec![0]),
        numbers("axes", vec![0]),
    ];
    assert!(!problems(OpKind::Pad, 22, padded).contains(&Problem::Arity));
}
