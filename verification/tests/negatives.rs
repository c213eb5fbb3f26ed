use onnx_adapter::case::{OnnxCase, OpKind, TensorData, TensorValue};
use onnx_adapter::negatives::{by_source, file_name, is_interesting, Negative, Pool, PoolError};
use onnx_adapter::negatives::{Provenance, SamplingContext, Source};

fn f32d(values: Vec<f32>) -> TensorData {
    TensorData::F32(values.iter().map(|v| v.to_bits()).collect())
}

const OPSET: i64 = 22;

fn case(data: TensorData) -> OnnxCase {
    let n = data.len() as i64;
    OnnxCase::new(
        OpKind::Abs,
        OPSET,
        vec![TensorValue::new("a", vec![n], data)],
    )
}

fn context() -> SamplingContext {
    SamplingContext::new(
        "float-elementwise=on comparisons=on quantized=off special-values=on logic=3b64999b",
        &["tract", "onnxruntime"],
    )
}

fn negative(source: Source, context: &SamplingContext) -> Negative {
    Negative {
        case: case(f32d(vec![1.0, 2.0])),
        source,
        provenance: context.provenance(),
        generator: context.generator.clone(),
        runtimes: context.runtimes.clone(),
    }
}

#[test]
fn an_empty_pool_is_refused_rather_than_returned() {
    assert!(matches!(
        Pool::matched(Vec::new(), &context()),
        Err(PoolError::BackendMismatch { .. })
    ));
}

#[test]
fn negatives_from_a_different_generator_are_refused() {
    let theirs = SamplingContext::new(
        "float-elementwise=off comparisons=on quantized=off special-values=on logic=deadbeef",
        &["tract", "onnxruntime"],
    );
    let pool = Pool::matched(vec![negative(Source::Interesting, &theirs)], &context());
    assert!(matches!(pool, Err(PoolError::Empty)));
}

#[test]
fn negatives_from_different_runtimes_are_refused_even_when_constructed() {
    let elsewhere = SamplingContext::new(
        "float-elementwise=on comparisons=on quantized=off special-values=on logic=3b64999b",
        &["candle"],
    );
    let mut hand_built = negative(Source::Constructed, &elsewhere);
    hand_built.provenance = Provenance::Constructed;

    assert!(matches!(
        Pool::matched(vec![hand_built], &context()),
        Err(PoolError::BackendMismatch { .. })
    ));
}

#[test]
fn a_pool_from_the_same_conditions_is_accepted() {
    let ctx = context();
    let pool = Pool::matched(
        vec![
            negative(Source::Interesting, &ctx),
            negative(Source::NearMiss, &ctx),
        ],
        &ctx,
    )
    .expect("same generator and same runtimes");
    assert_eq!(pool.len(), 2);
}

#[test]
fn provenance_is_parsed_from_a_description_this_domain_really_emits() {
    let real = "float-elementwise=on comparisons=on logical=on structural=on \
                shape-input-ops=on quantized=on float64=on integer-types=on bool-type=on \
                special-values=on degenerate-shapes=on max-rank=4 max-dim=8 \
                element-budget=256 special-rate=0.25 opset=22 logic=3b64999b";
    assert_eq!(
        Provenance::from_generator(real),
        Provenance::SeededWide,
        "the quantized axis widens the distribution"
    );

    let unquantized = real.replace("quantized=on", "quantized=off");
    assert_eq!(
        Provenance::from_generator(&unquantized),
        Provenance::SeededDefault
    );

    assert_eq!(
        Provenance::from_generator("built by hand for F-005"),
        Provenance::Constructed
    );
    assert_eq!(
        Provenance::from_generator("something nobody recorded"),
        Provenance::Unknown
    );
}

#[test]
fn a_signed_zero_is_interesting() {
    assert!(is_interesting(&case(f32d(vec![-0.0]))));
    assert!(
        !is_interesting(&case(f32d(vec![0.0, 1.0]))),
        "positive zero is an ordinary value"
    );
}

#[test]
fn an_integer_boundary_is_interesting() {
    assert!(is_interesting(&case(TensorData::I32(vec![i32::MIN]))));
    assert!(!is_interesting(&case(TensorData::I32(vec![0, 5, -5]))));
}

#[test]
fn stratification_ignores_shape_so_it_cannot_pre_select_on_the_vocabulary() {
    let empty = OnnxCase::new(
        OpKind::Abs,
        OPSET,
        vec![TensorValue::new("a", vec![0], f32d(vec![]))],
    );
    assert!(
        !is_interesting(&empty),
        "shape must not drive the negative selection"
    );
}

#[test]
fn a_pool_is_broken_down_by_source() {
    let ctx = context();
    let pool = Pool::unchecked(vec![
        negative(Source::Interesting, &ctx),
        negative(Source::NearMiss, &ctx),
        negative(Source::Interesting, &ctx),
    ]);
    assert_eq!(
        by_source(pool.negatives()),
        vec![(Source::NearMiss, 1), (Source::Interesting, 2)]
    );
    let matched = pool.matched_by_source(|c| c.op == OpKind::Abs);
    assert_eq!(matched, vec![(Source::NearMiss, 1, 1), (Source::Interesting, 2, 2)]);
    let spared = pool.matched_by_source(|_| false);
    assert_eq!(spared, vec![(Source::NearMiss, 0, 1), (Source::Interesting, 0, 2)]);
    assert_eq!(pool.cases().len(), 3);
    assert!(!pool.is_empty());
}

#[test]
fn every_refusal_of_a_pool_says_why() {
    let ctx = context();
    let mismatch = Pool::matched(Vec::new(), &ctx).unwrap_err();
    assert!(mismatch.describe().contains("onnxruntime"), "{}", mismatch.describe());
    let wide = SamplingContext::new("float-elementwise=on quantized=on", &["tract", "onnxruntime"]);
    let nothing = Pool::matched(vec![negative(Source::Interesting, &wide)], &ctx).unwrap_err();
    assert_eq!(nothing, PoolError::Empty);
    assert!(!nothing.describe().is_empty());
    let other = PoolError::DistributionMismatch {
        positives: Provenance::SeededDefault,
        negatives: vec![Provenance::Constructed],
    };
    assert!(other.describe().starts_with("findings came from "), "{}", other.describe());
}

#[test]
fn a_file_is_named_after_its_case() {
    let kept = case(f32d(vec![1.0]));
    assert_eq!(file_name(&kept, 0xbeef), "neg-abs-beef.json");
    assert_eq!(file_name(&kept, 0), "neg-abs-0.json");
}

#[test]
fn a_bare_case_is_never_comparable() {
    let bare = Negative::bare(case(f32d(vec![1.0])));
    assert_eq!(bare.source, Source::Constructed);
    assert_eq!(bare.provenance, Provenance::Constructed);
    assert!(bare.runtimes.is_empty());
    assert!(Pool::matched(vec![bare], &context()).is_err());
    let recorded = Negative::record(&case(f32d(vec![1.0])), Source::Ordinary, &context());
    assert_eq!(recorded.provenance, Provenance::SeededDefault);
    assert!(Pool::matched(vec![recorded], &context()).is_ok());
}
