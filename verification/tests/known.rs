use onnx_adapter::case::{OpKind, TensorData, TensorValue};
use onnx_adapter::gen_shape::Bounds;
use onnx_adapter::generator::OnnxGenerator;
use onnx_adapter::known::{catalog, entry, for_operator, Handling, SourceKind};
use onnx_adapter::normalize::{compare, Agreement, OnnxNormalizer};
use onnx_adapter::outcome::OnnxOutcome;
use onnx_adapter::rng::SeededRng;

fn f32s(name: &str, dims: Vec<i64>, values: Vec<f32>) -> TensorValue {
    TensorValue::from_f32(name, dims, values.iter().map(|v| v.to_bits()).collect())
}

fn single(bits: u32) -> f32 {
    f32::from_bits(bits)
}

fn double(bits: u64) -> f64 {
    f64::from_bits(bits)
}

#[test]
fn the_forgiven_entry_matches_what_the_comparison_actually_does() {
    let canon = |bits: u32| {
        OnnxNormalizer.normalize(OnnxOutcome::Produced(vec![f32s(
            "out",
            vec![1],
            vec![f32::from_bits(bits)],
        )]))
    };
    assert_eq!(
        compare(&canon(0x7fc0_0000), &canon(0x7fc0_1234)),
        Agreement::ByLicense,
        "the nan-payload entry claims the comparison forgives this, and it does not"
    );
    assert_eq!(
        compare(&canon(0x7fc0_0000), &canon(0x3f80_0000)),
        Agreement::No,
        "forgiveness leaked beyond what the entry describes"
    );

    let entry = entry("nan-payload").expect("the entry must exist");
    assert_eq!(entry.handling, Handling::ForgivenByComparison);
}

#[test]
fn forgiveness_is_rationed() {
    let forgiven: Vec<&str> = catalog()
        .iter()
        .filter(|e| e.handling == Handling::ForgivenByComparison)
        .map(|e| e.id)
        .collect();
    assert_eq!(
        forgiven,
        vec!["nan-payload"],
        "a new forgiveness rule was added — it needs a specification, not just a citation"
    );
}

#[test]
fn nothing_is_forgiven_on_measurement_alone() {
    for entry in catalog() {
        if entry.handling == Handling::ForgivenByComparison {
            assert_ne!(
                entry.citation.kind,
                SourceKind::Measured,
                "entry {:?} forgives a difference on measured evidence",
                entry.id
            );
        }
    }
}

#[test]
fn excluded_entries_state_their_trigger() {
    for entry in catalog() {
        if let Handling::ExcludedByConfiguration { becomes_live_if } = entry.handling {
            assert!(
                !becomes_live_if.trim().is_empty(),
                "entry {:?} is excluded by configuration but names no trigger",
                entry.id
            );
        }
    }
}

#[test]
fn identifiers_are_unique() {
    let mut ids: Vec<&str> = catalog().iter().map(|e| e.id).collect();
    let count = ids.len();
    ids.sort_unstable();
    ids.dedup();
    assert_eq!(ids.len(), count, "duplicate catalog identifiers");
}

#[test]
fn declined_entries_are_actually_declined() {

    let generator = OnnxGenerator::new(Bounds::default().with_special_values());
    let mut divisor_zeros = 0;
    let mut divisor_minus_ones = 0;
    let mut maxmin_nans = 0;
    let mut maxmin_negative_zeros = 0;
    let mut sign_nans = 0;

    for seed in 0..3000u64 {
        let case = generator.generate(&mut SeededRng::from_seed(seed));
        match case.op {
            OpKind::Div if !onnx_adapter::ops::data_elem_type(&case).is_floating() => {
                if let Some(divisor) = case.inputs.get(1) {
                    divisor_zeros += match &divisor.data {
                        TensorData::I32(v) => v.iter().filter(|x| **x == 0).count(),
                        TensorData::I64(v) => v.iter().filter(|x| **x == 0).count(),
                        _ => 0,
                    };
                    divisor_minus_ones += match &divisor.data {
                        TensorData::I32(v) => v.iter().filter(|x| **x == -1).count(),
                        TensorData::I64(v) => v.iter().filter(|x| **x == -1).count(),
                        _ => 0,
                    };
                }
            }
            OpKind::Max | OpKind::Min => {
                for input in &case.inputs {
                    match &input.data {
                        TensorData::F32(v) => {
                            maxmin_nans += v.iter().filter(|x| single(**x).is_nan()).count();
                            maxmin_negative_zeros += v
                                .iter()
                                .filter(|x| **x == (-0.0f32).to_bits())
                                .count();
                        }
                        TensorData::F64(v) => {
                            maxmin_nans += v.iter().filter(|x| double(**x).is_nan()).count();
                            maxmin_negative_zeros += v
                                .iter()
                                .filter(|x| **x == (-0.0f64).to_bits())
                                .count();
                        }
                        _ => {}
                    }
                }
            }
            OpKind::Sign => {
                for input in &case.inputs {
                    sign_nans += match &input.data {
                        TensorData::F32(v) => v.iter().filter(|x| single(**x).is_nan()).count(),
                        TensorData::F64(v) => v.iter().filter(|x| double(**x).is_nan()).count(),
                        _ => 0,
                    };
                }
            }
            _ => {}
        }
    }
    assert_eq!(divisor_zeros, 0, "integer-division-by-zero was generated");
    assert_eq!(
        divisor_minus_ones, 0,
        "integer-division-overflow was reachable: a -1 divisor can pair with a MIN dividend"
    );
    assert_eq!(maxmin_nans, 0, "max-min-nan was generated");
    assert_eq!(
        maxmin_negative_zeros, 0,
        "max-min-signed-zero was generated"
    );
    assert_eq!(sign_nans, 0, "sign-of-nan was generated");
}

#[test]
fn entries_are_found_by_name_and_by_operator() {
    assert_eq!(catalog().len(), 11);
    assert!(entry("no-such-entry").is_none());
    let found = entry("integer-division-by-zero").expect("the entry must exist");
    assert_eq!(found.handling, Handling::DeclinedByGenerator);
    assert!(for_operator(OpKind::Div).iter().any(|e| e.id == "integer-division-by-zero"));
    assert!(!for_operator(OpKind::Identity).iter().any(|e| e.id == "integer-division-by-zero"));
    assert!(for_operator(OpKind::Identity).iter().any(|e| e.id == "nan-payload"));
}
