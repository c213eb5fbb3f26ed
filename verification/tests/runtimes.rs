use onnx_adapter::case::{ElemType, OnnxCase, OpKind, TensorData, TensorValue};
use onnx_adapter::ops::probe;
use onnx_adapter::outcome::OnnxOutcome;
use onnx_adapter::runtimes::{candle_answer, candle_feeds, compiled_runtime_names, failed_at, feeds};
use onnx_adapter::runtimes::{ort_answer, panicked, tract_answer, Attempt, Content, RawTensor, Stage};
use onnx_adapter::runtimes::{CandleRuntime, OrtRuntime, TractRuntime};
use onnx_adapter::validation::{is_valid, well_formed_typed};
use tract_onnx::prelude::{DatumType, Framework, InferenceModelExt, IntoRunnable};
use tract_onnx::prelude::{TVec, TValue, Tensor};

fn f32s(name: &str, dims: Vec<i64>, values: Vec<f32>) -> TensorValue {
    TensorValue::from_f32(name, dims, values.iter().map(|v| v.to_bits()).collect())
}

const OPSET: i64 = 22;

/// Runs a case in `tract`.
fn tract(case: &OnnxCase) -> OnnxOutcome {
    TractRuntime.execute(case, |model: &Vec<u8>, tensors: &Vec<RawTensor>| in_tract(model, tensors))
}

fn in_tract(model: &[u8], tensors: &[RawTensor]) -> Attempt<Vec<(String, Content)>> {
    let mut reader = std::io::Cursor::new(model);
    let plan = match tract_onnx::onnx()
        .model_for_read(&mut reader)
        .and_then(|m| m.into_typed())
        .and_then(|m| m.into_runnable())
    {
        Ok(plan) => plan,
        Err(e) => return Attempt::Failed { stage: Stage::LoadingModel, error: e.to_string() },
    };
    let mut fed: TVec<TValue> = TVec::new();
    for raw in tensors {
        let shape: Vec<usize> = raw.dims.iter().map(|d| *d as usize).collect();
        let datum = match raw.elem_type {
            ElemType::F32 => DatumType::F32,
            ElemType::F64 => DatumType::F64,
            ElemType::I32 => DatumType::I32,
            ElemType::I64 => DatumType::I64,
            ElemType::Bool => DatumType::Bool,
            ElemType::U8 => DatumType::U8,
            ElemType::I8 => DatumType::I8,
        };
        let mut tensor = Tensor::zero_dt(datum, &shape).expect("a tensor");
        tensor.as_bytes_mut().copy_from_slice(&raw.bytes);
        fed.push(tensor.into());
    }
    let outputs = match plan.run(fed) {
        Ok(outputs) => outputs,
        Err(e) => return Attempt::Failed { stage: Stage::Running, error: e.to_string() },
    };
    let mut contents = Vec::new();
    for (index, output) in outputs.iter().enumerate() {
        let elem_type = match output.datum_type() {
            DatumType::F32 => ElemType::F32,
            DatumType::F64 => ElemType::F64,
            DatumType::I32 => ElemType::I32,
            DatumType::I64 => ElemType::I64,
            DatumType::Bool => ElemType::Bool,
            DatumType::U8 => ElemType::U8,
            DatumType::I8 => ElemType::I8,
            other => panic!("{other:?}"),
        };
        contents.push((
            index.to_string(),
            Content::Tensor {
                elem_type,
                dims: output.shape().iter().map(|d| *d as i64).collect(),
                bytes: output.as_bytes().to_vec(),
            },
        ));
    }
    Attempt::Answered { outputs: contents }
}

#[test]
fn runtime_names_are_distinct_and_stable() {
    let names = compiled_runtime_names();
    let mut unique = names.clone();
    unique.sort_unstable();
    unique.dedup();
    assert_eq!(names.len(), unique.len(), "two runtimes share a name");

    let own = [OrtRuntime.name(), TractRuntime.name(), CandleRuntime.name()];
    assert_eq!(names, own, "name() disagrees with the list");
}

#[test]
fn tract_keeps_the_order_of_operands() {
    let case = OnnxCase::new(
        OpKind::Sub,
        OPSET,
        vec![f32s("a", vec![1], vec![10.0]), f32s("b", vec![1], vec![3.0])],
    );
    assert_eq!(tract(&case), OnnxOutcome::Produced(vec![f32s("out", vec![1], vec![7.0])]));
}

#[test]
fn tract_hands_every_element_type_back() {
    for elem in ElemType::ALL {
        let case = well_formed_typed(OpKind::Identity, &vec![2, 3], OPSET, elem);
        let OnnxOutcome::Produced(out) = tract(&case) else {
            continue;
        };
        assert_eq!(out[0].data.to_bit_keys(), case.inputs[0].data.to_bit_keys(), "{elem:?}");
        assert_eq!(out[0].elem_type(), elem);
        assert_eq!(out[0].dims, vec![2, 3]);
    }
}

#[test]
fn tract_hands_special_values_back() {
    let hostile = vec![f32::INFINITY, f32::NEG_INFINITY, -0.0, f32::MIN_POSITIVE];
    let case = OnnxCase::new(OpKind::Identity, OPSET, vec![f32s("a", vec![4], hostile.clone())]);
    assert_eq!(tract(&case), OnnxOutcome::Produced(vec![f32s("out", vec![4], hostile)]));
}

#[test]
fn tract_refuses_a_malformed_model_as_a_value() {
    let broken = OnnxCase::new(OpKind::Add, OPSET, vec![f32s("a", vec![2], vec![1.0, 2.0])]);
    assert!(!is_valid(&broken));
    assert!(matches!(tract(&broken), OnnxOutcome::Rejected { .. }));
}

#[test]
fn initializers_are_not_fed() {
    let case = probe(OpKind::Reshape, ElemType::F32, OPSET).expect("a probe");
    let fed = feeds(&case);
    assert_eq!(fed.len(), case.fed_inputs().len());
    assert_eq!(fed[0].name, case.fed_inputs()[0].name);
    assert_eq!(fed[0].bytes, case.fed_inputs()[0].data.to_le_bytes());
    assert_eq!(candle_feeds(&case).unwrap(), fed);
}

#[test]
fn candle_declares_the_types_it_lacks() {
    let case = well_formed_typed(OpKind::Identity, &vec![2], OPSET, ElemType::I32);
    assert_eq!(
        candle_feeds(&case),
        Err(OnnxOutcome::Unsupported { reason: "candle has no DType for I32".to_string() })
    );
}

#[test]
fn a_failure_names_its_step() {
    let rejected = |detail: &str| OnnxOutcome::Rejected { detail: detail.to_string() };
    let name = || "x".to_string();
    let steps = [
        (Stage::SessionBuilder, "session builder: e"),
        (Stage::OptimizationLevel, "setting optimization level: e"),
        (Stage::LoadingModel, "loading model: e"),
        (Stage::ParsingModel, "parsing model: e"),
        (Stage::BuildingInput { name: name() }, "building input x: e"),
        (Stage::Running, "running: e"),
        (Stage::Flattening, "flattening output: e"),
        (Stage::Extracting, "extracting output: e"),
        (Stage::ExtractingOutput { label: name() }, "extracting output x: e"),
        (Stage::ExtractingAfterCast { label: name() }, "extracting output x after cast: e"),
        (
            Stage::ResolvingShape { label: name() },
            "output x is a symbolic shape that does not resolve to concrete integers: e",
        ),
    ];
    for (stage, expected) in steps {
        assert_eq!(failed_at(&stage, "e"), rejected(expected));
    }
}

#[test]
fn a_panic_accuses_its_runtime() {
    assert_eq!(
        panicked(Some("boom".to_string())),
        OnnxOutcome::Crashed { detail: "boom".to_string() }
    );
    assert_eq!(
        panicked(None),
        OnnxOutcome::Crashed { detail: "panicked with a non-string payload".to_string() }
    );
}

#[test]
fn the_first_output_that_fails_decides() {
    let good = || Content::Tensor { elem_type: ElemType::U8, dims: vec![1], bytes: vec![7] };
    let outputs = vec![
        ("x".to_string(), good()),
        ("y".to_string(), Content::NotATensor),
        ("z".to_string(), Content::Unknown { type_label: "Float16".to_string() }),
    ];
    assert_eq!(
        ort_answer(&outputs),
        OnnxOutcome::Rejected { detail: "output y is not a tensor".to_string() }
    );
    assert_eq!(
        tract_answer(&vec![("0".to_string(), Content::Unknown { type_label: "F16".to_string() })]),
        OnnxOutcome::Rejected {
            detail: "output 0 has datum type F16, which this adapter does not decode".to_string()
        }
    );
    let OnnxOutcome::Produced(named) = ort_answer(&vec![("x".to_string(), good())]) else {
        panic!("a tensor was refused");
    };
    assert_eq!(named[0].name, "x");
    assert_eq!(named[0].data, TensorData::U8(vec![7]));
}

#[test]
fn candle_answers_under_the_expected_name() {
    assert_eq!(
        candle_answer(None),
        OnnxOutcome::Rejected { detail: "no output named out".to_string() }
    );
    let unknown = Content::Unknown { type_label: "BF16".to_string() };
    assert_eq!(
        candle_answer(Some(unknown)),
        OnnxOutcome::Unsupported {
            reason: "candle produced dtype BF16, which this adapter does not decode".to_string()
        }
    );
}

/// A runtime that hands back what it was fed.
fn echo(_: &Vec<u8>, tensors: &Vec<RawTensor>) -> Attempt<Vec<(String, Content)>> {
    let outputs = tensors
        .iter()
        .map(|raw| {
            let content = Content::Tensor {
                elem_type: raw.elem_type,
                dims: raw.dims.clone(),
                bytes: raw.bytes.clone(),
            };
            (raw.name.clone(), content)
        })
        .collect();
    Attempt::Answered { outputs }
}

#[test]
fn bytes_that_come_back_are_the_tensor() {
    for elem in ElemType::ALL {
        let case = well_formed_typed(OpKind::Identity, &vec![2, 3], OPSET, elem);
        let OnnxOutcome::Produced(out) = OrtRuntime.execute(&case, echo) else {
            panic!("{elem:?} did not come back");
        };
        assert_eq!(out, case.inputs);
        let OnnxOutcome::Produced(out) = TractRuntime.execute(&case, echo) else {
            panic!("{elem:?} did not come back");
        };
        assert_eq!(out[0].data, case.inputs[0].data);
        assert_eq!(out[0].name, "out");
    }
}

#[test]
fn what_goes_wrong_is_a_value() {
    let case = OnnxCase::new(OpKind::Abs, OPSET, vec![f32s("a", vec![1], vec![1.0])]);
    let failing = |_: &Vec<u8>, _: &Vec<RawTensor>| Attempt::Failed {
        stage: Stage::Running,
        error: "no".to_string(),
    };
    let rejected = OnnxOutcome::Rejected { detail: "running: no".to_string() };
    assert_eq!(OrtRuntime.execute(&case, failing), rejected);
    assert_eq!(TractRuntime.execute(&case, failing), rejected);
    let panicking = |_: &Vec<u8>, _: &Vec<RawTensor>| Attempt::Panicked {
        message: Some("boom".to_string()),
    };
    let crashed = OnnxOutcome::Crashed { detail: "boom".to_string() };
    assert_eq!(OrtRuntime.execute(&case, panicking), crashed);
    assert_eq!(TractRuntime.execute(&case, panicking), crashed);
}

#[test]
fn candle_is_not_run_on_what_it_cannot_hold() {
    let run = |_: &usize, tensors: &Vec<RawTensor>| Attempt::Answered {
        outputs: Some(Content::Tensor {
            elem_type: tensors[0].elem_type,
            dims: tensors[0].dims.clone(),
            bytes: tensors[0].bytes.clone(),
        }),
    };
    let parse = |bytes: &Vec<u8>| -> Result<usize, Attempt<Option<Content>>> { Ok(bytes.len()) };
    let held = OnnxCase::new(OpKind::Abs, OPSET, vec![f32s("a", vec![1], vec![1.0])]);
    assert_eq!(
        CandleRuntime.execute(&held, parse, run),
        OnnxOutcome::Produced(vec![f32s("out", vec![1], vec![1.0])])
    );
    let unheld = well_formed_typed(OpKind::Identity, &vec![2], OPSET, ElemType::Bool);
    let gap = OnnxOutcome::Unsupported { reason: "candle has no DType for Bool".to_string() };
    assert_eq!(CandleRuntime.execute(&unheld, parse, run), gap);
    let broken = |_: &Vec<u8>| -> Result<usize, Attempt<Option<Content>>> {
        Err(Attempt::Failed { stage: Stage::ParsingModel, error: "bad".to_string() })
    };
    assert_eq!(
        CandleRuntime.execute(&unheld, broken, run),
        OnnxOutcome::Rejected { detail: "parsing model: bad".to_string() }
    );
}
