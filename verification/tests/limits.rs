use onnx_adapter::case::{OnnxCase, OpKind, TensorData, TensorValue};
use onnx_adapter::gen_shape::Bounds;
use onnx_adapter::generator::OnnxGenerator;
use onnx_adapter::limits::{answer_is_countable, answers_are_countable};
use onnx_adapter::limits::{is_measurable, is_ready, is_reducible, output_is_computable};
use onnx_adapter::limits::{product_is_countable, shape_is_countable};
use onnx_adapter::normalize::OnnxNormalizer;
use onnx_adapter::oracle::NamedOutput;
use onnx_adapter::outcome::OnnxOutcome;

#[test]
fn a_product_is_counted_up_to_the_widest_integer() {
    assert!(product_is_countable(&vec![]));
    assert!(product_is_countable(&vec![i64::MAX, 1]));
    assert!(!product_is_countable(&vec![i64::MAX, 2]));
    assert!(!product_is_countable(&vec![i64::MAX, 2, 0]));
    assert!(product_is_countable(&vec![0, i64::MAX, 2]));
    assert!(shape_is_countable(&vec![2, 3]));
}

#[test]
fn ordinary_cases_can_be_handled() {
    let case = OnnxCase::new(
        OpKind::Add,
        22,
        vec![
            TensorValue::from_f32("a", vec![2], vec![0, 0]),
            TensorValue::from_f32("b", vec![2], vec![0, 0]),
        ],
    );
    assert!(output_is_computable(&case));
    assert!(is_measurable(&case));
}

#[test]
fn a_shape_without_a_count_is_declined() {
    let case = OnnxCase::new(
        OpKind::Size,
        22,
        vec![TensorValue::new("a", vec![i64::MAX, i64::MAX], TensorData::Bool(vec![]))],
    );
    assert!(!is_measurable(&case));
}

#[test]
fn a_case_is_reduced_where_its_extents_can_be_counted() {
    let of = |dims: Vec<i64>| {
        OnnxCase::new(OpKind::Abs, 22, vec![TensorValue::from_f32("a", dims, vec![])])
    };
    assert!(is_reducible(&of(vec![2, 0])));
    assert!(!is_reducible(&of(vec![-1])));
    assert!(!is_reducible(&of(vec![0, i64::MAX, 3])));
}

#[test]
fn a_generator_is_ready_where_it_can_draw() {
    assert!(is_ready(&OnnxGenerator::default()));
    assert!(is_ready(&OnnxGenerator::without_special_values()));
    let bounds = Bounds::default().with_special_values().with_quantized().with_opsets();
    assert!(is_ready(&OnnxGenerator::new(bounds)));
    assert!(is_ready(&OnnxGenerator::new(Bounds::one_axis())));
    assert!(!is_ready(&OnnxGenerator { operators: vec![], ..OnnxGenerator::default() }));
    assert!(!is_ready(&OnnxGenerator { max_dim: -1, ..OnnxGenerator::default() }));
    assert!(!is_ready(&OnnxGenerator { max_rank: 64, ..OnnxGenerator::default() }));
    assert!(!is_ready(&OnnxGenerator::new(Bounds { element_budget: usize::MAX, ..bounds })));
    assert!(is_ready(&OnnxGenerator::new(Bounds { max_rank: 32, ..bounds })));
    assert!(!is_ready(&OnnxGenerator::new(Bounds { max_rank: usize::MAX, ..bounds })));
    assert!(!is_ready(&OnnxGenerator::new(Bounds { special_value_rate: 101, ..bounds })));
}

#[test]
fn answers_are_counted() {
    let produced = OnnxOutcome::Produced(vec![TensorValue::from_f32("a", vec![2], vec![0, 0])]);
    let answer = OnnxNormalizer.normalize(produced);
    assert!(answer_is_countable(&answer));
    let outputs = vec![NamedOutput { implementation: "a".to_string(), output: answer }];
    assert!(answers_are_countable(&outputs));
}
