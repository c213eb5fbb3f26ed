use onnx_adapter::case::{ElemType, OpKind, TensorValue};
use onnx_adapter::model::build_bytes;
use onnx_adapter::ops::probe;
use onnx_adapter::outcome::OnnxOutcome;
use onnx_adapter::reference::{consult, reply, request_bytes, worker_failed, Reply};
use onnx_adapter::reference::REFERENCE_NAME;
use onnx_adapter::validation::well_formed_typed;

fn f32s(name: &str, dims: Vec<i64>, values: Vec<f32>) -> TensorValue {
    TensorValue::from_f32(name, dims, values.iter().map(|v| v.to_bits()).collect())
}

/// What a worker that hands its input back replies.
fn echoed(tensors: &[TensorValue]) -> Vec<u8> {
    let mut out = vec![0u8];
    out.extend((tensors.len() as u32).to_le_bytes());
    for tensor in tensors {
        out.extend((tensor.name.len() as u32).to_le_bytes());
        out.extend(tensor.name.as_bytes());
        out.extend(tensor.elem_type().wire().to_le_bytes());
        out.extend((tensor.dims.len() as u32).to_le_bytes());
        for dim in &tensor.dims {
            out.extend(dim.to_le_bytes());
        }
        let data = tensor.data.to_le_bytes();
        out.extend((data.len() as u32).to_le_bytes());
        out.extend(data);
    }
    out
}

fn refused(message: &[u8]) -> Vec<u8> {
    let mut out = vec![1u8];
    out.extend((message.len() as u32).to_le_bytes());
    out.extend(message);
    out
}

fn read(bytes: &[u8]) -> OnnxOutcome {
    match reply(bytes) {
        Reply::Complete(outcome) => outcome,
        Reply::Missing(n) => panic!("{n} bytes are missing"),
    }
}

/// Takes a reply in the pieces that are asked for.
fn read_piecewise(bytes: &[u8]) -> OnnxOutcome {
    let mut have = 0usize;
    loop {
        match reply(&bytes[..have]) {
            Reply::Complete(outcome) => {
                assert_eq!(have, bytes.len(), "read past the end or stopped short");
                return outcome;
            }
            Reply::Missing(n) => have += n as usize,
        }
        assert!(have <= bytes.len(), "asked for bytes that will never come");
    }
}

#[test]
fn a_request_is_the_model_and_the_tensors() {
    let inputs = vec![f32s("a", vec![1], vec![1.0])];
    let bytes = request_bytes(&[9, 8, 7], &inputs);
    let mut expected = vec![3, 0, 0, 0, 9, 8, 7, 1, 0, 0, 0];
    expected.extend(&echoed(&inputs)[5..]);
    assert_eq!(bytes, expected);
}

#[test]
fn special_values_cross_the_boundary_unchanged() {
    let hostile = vec![f32::INFINITY, f32::NEG_INFINITY, -0.0, f32::MIN_POSITIVE];
    let sent = vec![f32s("a", vec![4], hostile.clone())];
    let OnnxOutcome::Produced(out) = read_piecewise(&echoed(&sent)) else {
        panic!("the reply was not understood");
    };
    let bits: Vec<u32> = hostile.iter().map(|v| v.to_bits()).collect();
    assert_eq!(out[0].as_f32().expect("f32 tensor"), bits);
}

#[test]
fn nan_survives_the_boundary() {
    let sent = vec![TensorValue::from_f32("a", vec![1], vec![0x7fc0_dead])];
    let OnnxOutcome::Produced(out) = read(&echoed(&sent)) else {
        panic!("the reply was not understood");
    };
    assert_eq!(out[0].as_f32().expect("f32 tensor"), [0x7fc0_dead]);
}

#[test]
fn every_element_type_survives_the_process_boundary() {
    for elem in ElemType::ALL {
        let case = well_formed_typed(OpKind::Identity, &vec![2, 3], 22, elem);
        let outcome = read_piecewise(&echoed(&case.inputs));
        let OnnxOutcome::Produced(out) = outcome else {
            panic!("the reply was not understood at {elem:?}: {outcome:?}");
        };
        assert_eq!(out[0].elem_type(), elem);
        assert_eq!(out[0].data.to_bit_keys(), case.inputs[0].data.to_bit_keys());
        assert_eq!(out[0].dims, vec![2, 3]);
    }
}

#[test]
fn a_refusal_carries_its_reason() {
    assert_eq!(
        read_piecewise(&refused(b"bad model")),
        OnnxOutcome::Rejected { detail: "bad model".to_string() }
    );
}

#[test]
fn a_reason_that_is_no_text_is_repaired() {
    assert_eq!(
        read(&refused(&[b'a', 0xff, b'b'])),
        OnnxOutcome::Rejected { detail: "a\u{fffd}b".to_string() }
    );
}

#[test]
fn an_unknown_element_type_is_a_refusal() {
    let mut bytes = echoed(&[f32s("a", vec![1], vec![1.0])]);
    bytes[10] = 16;
    assert_eq!(
        read(&bytes),
        OnnxOutcome::Rejected {
            detail: "the reference returned element type 16, which this adapter does not decode"
                .to_string()
        }
    );
}

#[test]
fn a_reply_that_is_cut_off_is_not_complete() {
    let whole = echoed(&[f32s("a", vec![2], vec![1.0, 2.0]), f32s("b", vec![], vec![3.0])]);
    for end in 0..whole.len() {
        let Reply::Missing(n) = reply(&whole[..end]) else {
            panic!("{end} of {} bytes were taken for a reply", whole.len());
        };
        assert!(n >= 1 && end + n as usize <= whole.len());
    }
}

#[test]
fn a_worker_that_stopped_is_a_crash() {
    assert_eq!(
        worker_failed("broken pipe"),
        OnnxOutcome::Crashed { detail: "the reference worker failed: broken pipe".to_string() }
    );
    assert_eq!(REFERENCE_NAME, "onnx.reference");
}

#[test]
fn the_reference_is_sent_what_the_case_feeds() {
    let case = well_formed_typed(OpKind::Add, &vec![2], 22, ElemType::F32);
    let expected = request_bytes(&build_bytes(&case), &case.inputs);
    let outcome = consult(&case, |request: &Vec<u8>| {
        assert_eq!(request, &expected);
        Ok(read(&echoed(&[f32s("c", vec![1], vec![1.0])])))
    });
    assert_eq!(outcome, OnnxOutcome::Produced(vec![f32s("c", vec![1], vec![1.0])]));
    let gone = consult(&case, |_: &Vec<u8>| Err("gone".to_string()));
    assert_eq!(gone, worker_failed("gone"));
}

#[test]
fn the_reference_is_not_fed_a_constant_again() {
    let case = probe(OpKind::Reshape, ElemType::F32, 22).unwrap();
    assert_eq!(case.initializers().len(), 1);
    let fed: Vec<TensorValue> = case.fed_inputs().into_iter().cloned().collect();
    assert_eq!(fed.len(), 1);
    let expected = request_bytes(&build_bytes(&case), &fed);
    assert_ne!(expected, request_bytes(&build_bytes(&case), &case.inputs));
    let outcome = consult(&case, |request: &Vec<u8>| {
        assert_eq!(request, &expected);
        Err("gone".to_string())
    });
    assert_eq!(outcome, worker_failed("gone"));
}
