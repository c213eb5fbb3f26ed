use onnx_adapter::case::{ElemType, OpKind};
use onnx_adapter::gen_shape::{rate_of, Bounds, GENERATOR_FINGERPRINT};
use onnx_adapter::generator::OnnxGenerator;
use onnx_adapter::ops::{op_spec, probe, Tier};
use onnx_adapter::rng::SeededRng;
use std::collections::BTreeSet;

#[test]
fn varying_the_opset_removes_no_operator() {

    let reachable = |bounds: Bounds| -> BTreeSet<&'static str> {
        let generator = OnnxGenerator::new(bounds);
        (0..6000u64)
            .map(|seed| generator.generate(&mut SeededRng::from_seed(seed)))
            .map(|case| case.op.onnx_name())
            .collect()
    };

    let pinned = reachable(Bounds::default().with_special_values().with_quantized());
    let varied = reachable(
        Bounds::default()
            .with_special_values()
            .with_quantized()
            .with_opsets(),
    );

    let lost: Vec<&str> = pinned.difference(&varied).copied().collect();
    assert!(
        lost.is_empty(),
        "varying the opset removed operators from the corpus: {lost:?}"
    );
}

#[test]
fn varying_the_opset_actually_produces_older_opsets() {

    let generator = OnnxGenerator::new(
        Bounds::default()
            .with_special_values()
            .with_quantized()
            .with_opsets(),
    );
    let opsets: BTreeSet<i64> = (0..4000u64)
        .map(|seed| generator.generate(&mut SeededRng::from_seed(seed)).opset)
        .collect();

    assert!(
        opsets.len() > 1,
        "the axis is on and every case is still at one opset: {opsets:?}"
    );
    assert!(
        opsets.iter().any(|o| *o < 22),
        "no case below opset 22, so no older code path is reached: {opsets:?}"
    );
    assert!(
        opsets.iter().all(|o| (1..=22).contains(o)),
        "an opset outside the legal range was generated: {opsets:?}"
    );
}

#[test]
fn the_description_names_every_axis_including_the_disabled_ones() {
    let described = Bounds::default().description();
    for (name, _) in Bounds::default().axes() {
        assert!(
            described.contains(&format!("{name}=")),
            "{name} missing from the description: {described}"
        );
    }
    assert!(
        described.contains("special-values=off"),
        "a disabled axis must appear in the description: {described}"
    );
    assert!(
        Bounds::default().axes().iter().any(|(_, on)| !on),
        "this test is vacuous unless some axis is actually off"
    );
}

#[test]
fn the_description_carries_the_bounds_and_the_fingerprint() {
    let described = Bounds::default().description();
    for fragment in [
        "max-rank=",
        "max-dim=",
        "element-budget=",
        "opset=",
        "logic=",
    ] {
        assert!(
            described.contains(fragment),
            "{fragment} missing: {described}"
        );
    }
}

#[test]
fn different_configurations_are_not_comparable() {
    let base = Bounds::default();

    let wider = Bounds {
        max_rank: base.max_rank + 1,
        ..base.clone()
    };
    assert!(
        !base.comparable_with(&wider),
        "a changed bound must change identity"
    );

    let with_specials = base.with_special_values();
    assert!(
        !base.comparable_with(&with_specials),
        "a flipped axis must change identity"
    );

    assert!(
        base.comparable_with(&Bounds::default()),
        "identical configs must compare"
    );
}

#[test]
fn every_axis_is_additive() {
    let off = Bounds {
        float_elementwise: false,
        comparisons: false,
        logical: false,
        structural: false,
        shape_input_operators: false,
        quantized: false,
        float64: false,
        integer_types: false,
        bool_type: false,
        special_values: false,
        degenerate_shapes: false,
        ..Bounds::default()
    };
    let baseline: Vec<OpKind> = off.operators();

    let flips: Vec<(&str, Bounds)> = vec![
        (
            "float-elementwise",
            Bounds {
                float_elementwise: true,
                ..off.clone()
            },
        ),
        (
            "comparisons",
            Bounds {
                comparisons: true,
                ..off.clone()
            },
        ),
        (
            "logical",
            Bounds {
                logical: true,
                bool_type: true,
                ..off.clone()
            },
        ),
        (
            "structural",
            Bounds {
                structural: true,
                ..off.clone()
            },
        ),
        (
            "shape-input-ops",
            Bounds {
                shape_input_operators: true,
                quantized: false,
                ..off.clone()
            },
        ),
        (
            "float64",
            Bounds {
                float64: true,
                ..off.clone()
            },
        ),
        (
            "integer-types",
            Bounds {
                integer_types: true,
                ..off.clone()
            },
        ),
        (
            "bool-type",
            Bounds {
                bool_type: true,
                ..off.clone()
            },
        ),
    ];

    for (name, flipped) in flips {
        let widened = flipped.operators();
        for op in &baseline {
            assert!(
                widened.contains(op),
                "enabling {name} removed {op:?} — an axis must add cases, never displace them"
            );
        }
    }
}

#[test]
fn each_operator_axis_admits_something() {
    let off = Bounds {
        float_elementwise: false,
        comparisons: false,
        logical: false,
        structural: false,
        shape_input_operators: false,
        quantized: false,
        ..Bounds::default()
    };
    assert!(
        off.operators().is_empty(),
        "with every operator axis off, nothing is generated"
    );

    for (name, bounds) in [
        (
            "float-elementwise",
            Bounds {
                float_elementwise: true,
                ..off.clone()
            },
        ),
        (
            "comparisons",
            Bounds {
                comparisons: true,
                ..off.clone()
            },
        ),
        (
            "logical",
            Bounds {
                logical: true,
                ..off.clone()
            },
        ),
        (
            "structural",
            Bounds {
                structural: true,
                ..off.clone()
            },
        ),
        (
            "shape-input-ops",
            Bounds {
                shape_input_operators: true,
                quantized: false,
                ..off.clone()
            },
        ),
    ] {
        assert!(
            !bounds.operators().is_empty(),
            "the {name} axis admits no operator at all"
        );
    }
}

#[test]
fn shape_input_operators_pass_their_configuration_as_initializers() {
    let bounds = Bounds::default();
    let generated = bounds.operators();

    for op in [
        OpKind::Reshape,
        OpKind::Squeeze,
        OpKind::Unsqueeze,
        OpKind::Slice,
        OpKind::Pad,
    ] {
        assert!(generated.contains(&op), "{op:?} should be generated");

        let case = probe(op, ElemType::F32, bounds.opset).expect("probe");
        assert!(
            case.initializers().len() >= 1,
            "{op:?} must pass its shape/axes/pads input as an initializer"
        );
        assert!(
            case.fed_inputs().len() >= 1,
            "{op:?} must still feed its data input at execution"
        );
    }
}

#[test]
fn gather_indices_stay_a_fed_input() {
    let case = probe(OpKind::Gather, ElemType::F32, 22).expect("probe");
    assert_eq!(
        case.initializers().len(),
        0,
        "Gather reads its indices as data; making them constant would fold the selection away"
    );
}

#[test]
fn an_operator_with_no_buildable_type_is_not_admitted() {
    let logical_without_bool = Bounds {
        float_elementwise: false,
        comparisons: false,
        structural: false,
        shape_input_operators: false,
        quantized: false,
        logical: true,
        bool_type: false,
        ..Bounds::default()
    };
    assert!(
        logical_without_bool.operators().is_empty(),
        "the logical operators need booleans; admitting them without is a case nothing can build"
    );
}

#[test]
fn the_default_configuration_is_substantial() {
    let bounds = Bounds::default();
    let ops = bounds.operators();
    assert!(ops.len() >= 20, "only {} operators by default", ops.len());
    assert!(
        ops.iter()
            .filter(|o| op_spec(**o).value_dependent)
            .count()
            >= 8,
        "the default must keep the value-dependent surface that the bar was set on"
    );
    assert_eq!(bounds.element_types().len(), 5);
}

#[test]
fn the_one_axis_preset_is_actually_narrow() {
    let bounds = Bounds::one_axis();
    assert_eq!(bounds.element_types(), vec![ElemType::F32]);
    let ops = bounds.operators();
    assert!(!ops.is_empty());
    assert!(
        ops.iter().all(|o| op_spec(*o).tier == Tier::B),
        "the one-axis preset should be Tier B float arithmetic only"
    );
}

#[test]
fn the_knobs_permit_more_than_the_budget_allows() {
    let bounds = Bounds::default();
    assert!(
        bounds.unbudgeted_worst_case() > bounds.element_budget as u128,
        "if the knobs cannot exceed the budget, the budget is not doing anything"
    );
}

#[test]
fn the_fingerprint_is_stable_and_set() {
    assert_ne!(GENERATOR_FINGERPRINT, 0);
    assert_eq!(GENERATOR_FINGERPRINT, onnx_adapter::gen_shape::GENERATOR_FINGERPRINT);
    let described = Bounds::default().description();
    assert!(described.contains(&format!("logic={GENERATOR_FINGERPRINT:08x}")));
}

#[test]
fn only_the_description_tells_configurations_apart() {
    let base = Bounds::default();
    assert_eq!(Bounds { special_values: false, ..base.with_special_values() }, base);
    let narrower = Bounds { special_value_rate: base.special_value_rate + 1, ..base };
    assert!(!base.comparable_with(&narrower));
    assert_ne!(base.description(), narrower.description());
    assert_eq!(base.scalars().len(), 5);
    assert_eq!(base.axes().len(), 12);
}

#[test]
fn a_rate_is_written_in_hundredths() {
    assert_eq!(rate_of(0), "0.00");
    assert_eq!(rate_of(15), "0.15");
    assert_eq!(rate_of(20), "0.20");
    assert_eq!(rate_of(100), "1.00");
    assert_eq!(rate_of(105), "1.05");
}

#[test]
fn the_worst_case_is_every_extent_at_every_rank() {
    let bounds = Bounds { max_rank: 3, max_dim: 5, ..Bounds::default() };
    assert_eq!(bounds.unbudgeted_worst_case(), 125);
}

#[test]
fn an_operator_offers_only_the_types_that_are_on() {
    let bounds = Bounds { float64: false, integer_types: false, ..Bounds::default() };
    assert_eq!(bounds.admitted_types(OpKind::Add), vec![ElemType::F32]);
    assert!(bounds.offers_operator(OpKind::Add));
    assert!(!bounds.offers_operator(OpKind::QuantizeLinear));
    assert!(bounds.with_quantized().offers_operator(OpKind::QuantizeLinear));
    assert_eq!(bounds.with_quantized().without_special_values(), bounds.with_quantized());
}
