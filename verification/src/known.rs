//! The differences that are legal, and how each is kept from becoming noise.
//!
//! Most of them are never generated. To decline a case is sound whether or not it was understood;
//! to forgive a difference takes having been right. So where an answer is not determined, the case
//! is removed, and one entry alone is forgiven by the comparison. Every entry says where its claim
//! was established.

use vstd::prelude::*;

use crate::case::{ElemType, OpKind};
use crate::text::same_text;

verus! {

/// How strongly a claim was established.
#[derive(Debug, Clone, Copy, PartialEq, Eq, Structural)]
pub enum SourceKind {
    /// By the operator's own definition or the vendor's documentation.
    Primary,
    /// By a credible source that quotes a standard which could not be had.
    Secondary,
    /// By running the implementations. That never suffices to forgive a difference.
    Measured,
}

/// The evidence behind an entry.
#[derive(Debug, Clone, Copy, PartialEq, Eq)]
pub struct Citation {
    /// The section of the notes that holds what was retrieved.
    pub specs_section: &'static str,
    pub url: &'static str,
    pub kind: SourceKind,
}

/// How a legal difference is kept from becoming a false finding.
#[derive(Debug, Clone, Copy, PartialEq, Eq)]
pub enum Handling {
    /// The comparison takes the two results to agree.
    ForgivenByComparison,
    /// The case is never generated.
    DeclinedByGenerator,
    /// It cannot arise while the configuration holds.
    ExcludedByConfiguration { becomes_live_if: &'static str },
}

/// The three ways of handling, without what belongs to each.
#[derive(Debug, Clone, Copy, PartialEq, Eq, Structural)]
pub enum Way {
    Forgiven,
    Declined,
    Excluded,
}

/// One legal difference.
#[derive(Debug, Clone, PartialEq, Eq)]
pub struct LegalDifference {
    pub id: &'static str,
    /// The operators that it applies to. None means all of them.
    pub operators: Vec<OpKind>,
    /// The element types that it applies to. None means all of them.
    pub elem_types: Vec<ElemType>,
    /// What may differ.
    pub what: &'static str,
    pub handling: Handling,
    pub citation: Citation,
    /// Why the handling is the right one.
    pub note: &'static str,
}

/// How many entries there are.
pub const ENTRY_COUNT: usize = 11;

/// The identifiers.
pub const IDS: [&'static str; 11] = [
    "nan-payload",
    "integer-division-by-zero",
    "max-min-nan",
    "integer-division-overflow",
    "max-min-signed-zero",
    "sign-of-nan",
    "quantize-non-finite-input",
    "dynamic-quantize-empty-input",
    "cast-out-of-range",
    "ort-optimization-level",
    "semantic-opset-change",
];

/// What may differ.
pub const WHATS: [&'static str; 11] = [
    "which NaN payload and sign bit propagate through an operation",
    "the result of an integer division by zero",
    "which operand wins when one of them is NaN",
    "the result of MIN / -1, whose true value is not representable",
    "which zero is returned when the operands are +0.0 and -0.0",
    "the result of Sign(NaN)",
    "the quantized result of an infinite or NaN input",
    "the scale derived from a tensor with no elements",
    "the result of casting a float outside the target integer's range",
    "numeric results changed by ONNX Runtime's Extended and Layout optimizations",
    "behaviour that genuinely changed between opset versions",
];

/// The sections.
pub const SECTIONS: [&'static str; 11] = [
    "5.3",
    "2.2b",
    "2.2c",
    "2.11",
    "2.9",
    "2.10",
    "2q.6",
    "2q.6",
    "2.5",
    "3.1",
    "2.8",
];

/// The sources.
pub const URLS: [&'static str; 11] = [
    "https://en.wikipedia.org/wiki/NaN",
    "https://onnx.ai/onnx/operators/onnx__Div.html",
    "https://onnx.ai/onnx/operators/onnx__Max.html",
    "https://onnx.ai/onnx/operators/onnx__Div.html",
    "https://onnx.ai/onnx/operators/onnx__Min.html",
    "https://onnx.ai/onnx/operators/onnx__Sign.html",
    "https://onnx.ai/onnx/operators/onnx__DynamicQuantizeLinear.html",
    "https://onnx.ai/onnx/operators/onnx__DynamicQuantizeLinear.html",
    "https://onnx.ai/onnx/operators/onnx__Cast.html",
    "https://onnxruntime.ai/docs/performance/model-optimizations/graph-optimizations.html",
    "https://onnx.ai/onnx/operators/onnx__Add.html",
];

/// Why the handling is the right one.
pub const NOTES: [&'static str; 11] = [
    "The one entry the comparison forgives, and the only one that needed a citation at all. IEEE 754-2019 is paywalled and was not retrieved; a technical paper on NaN propagation was fetched and failed to parse. Measured over 6,000 cases: 3,018 NaN-vs-NaN element pairs compared, 0 with differing bits — so the rule has never yet decided a case, and if the primary text contradicts it no verdict changes.",
    "The Div page specifies truncating integer division and never mentions a zero divisor. tract and candle panic; the reference returns numpy's 0. Retrieving the page is what turned a would-be finding into a generator rule.",
    "NaN is not mentioned in any version of the Max page, and unlike Add/Sub/Mul/Div/Sqrt these are not IEEE-754 basic operations — IEEE's own maxNum/minNum semantics changed between its 2008 and 2019 revisions. Neither document pins it down.",
    "The Div page specifies truncating division and says nothing about overflow. onnx.reference and ONNX Runtime wrap to MIN; tract panics with \"attempt to divide with overflow\". Declined by keeping -1 out of integer divisors, which makes the pair unreachable. The panic is separately preserved as candidate finding F-006 — declining a case and reporting a behaviour are not in conflict.",
    "The Min page mentions neither signed zero nor NaN in any of its five versions, and these are not IEEE-754 basic operations. Found by the N6.6 funnel: reference, ONNX Runtime and tract return -0.0 while candle returns +0.0 — three against one, which looks exactly like a defect and is not one.",
    "The page specifies > 0, < 0 and == 0 only. NaN satisfies none of them and is never mentioned. Reference, ONNX Runtime and tract return NaN; candle returns 0.0, which is a defensible reading of the same text. Sign(-0.0) is NOT excluded — -0.0 == 0 is true, so that answer is specified.",
    "The derived scale becomes inf or NaN. Measured: reference and ONNX Runtime give scale NaN with zero-point 255; tract gives scale inf with zero-point 0. Nothing in the specification chooses between them.",
    "max(x) and min(x) do not exist for an empty tensor. onnx.reference rejects the model outright, which is the strongest available signal that the case is not determined.",
    "\"fixed point: undefined if OOR\", and the saturate attribute applies only to float8 conversion. tract saturates at int32 bounds and ONNX Runtime at int64 — 17 divergences in 6,000 cases, every one of them ours.",
    "ONNX Runtime documents Basic optimizations as semantics-preserving and does not make the claim for the higher levels — an absence, not a denial, and recorded as such. Its own docs acknowledge GELU Approximation changing results (F1 87.05 vs 87.03). ort's default is Level3, so the default is the one setting a conformance comparison must not use.",
    "Add changed semantically at opset 7 (broadcast attributes replaced by Numpy-style broadcasting); Sqrt never changed semantically across 1, 6 and 13. Every case runs at a fixed opset 22, so no opset difference can currently arise. The rule for N10: a version bump is not evidence of a semantic change — read the history.",
];

/// How strongly each claim was established.
pub const KINDS: [SourceKind; 11] = [
    SourceKind::Secondary,
    SourceKind::Primary,
    SourceKind::Primary,
    SourceKind::Primary,
    SourceKind::Primary,
    SourceKind::Primary,
    SourceKind::Primary,
    SourceKind::Primary,
    SourceKind::Primary,
    SourceKind::Primary,
    SourceKind::Primary,
];

/// How each difference is handled.
pub const WAYS: [Way; 11] = [
    Way::Forgiven,
    Way::Declined,
    Way::Declined,
    Way::Declined,
    Way::Declined,
    Way::Declined,
    Way::Declined,
    Way::Declined,
    Way::Declined,
    Way::Excluded,
    Way::Excluded,
];

/// What would make an excluded difference arise.
pub const TRIGGERS: [&'static str; 11] = [
    "",
    "",
    "",
    "",
    "",
    "",
    "",
    "",
    "",
    "ONNX Runtime is run above GraphOptimizationLevel::Disable",
    "cases are generated at more than one opset (PENDING 2.6, N10)",
];

/// The operators that an entry applies to.
pub open spec fn operators_of(i: int) -> Seq<OpKind> {
    if i == 1 || i == 3 {
        seq![OpKind::Div]
    } else if i == 2 || i == 4 {
        seq![OpKind::Max, OpKind::Min]
    } else if i == 5 {
        seq![OpKind::Sign]
    } else if i == 6 {
        seq![OpKind::QuantizeLinear, OpKind::DynamicQuantizeLinear]
    } else if i == 7 {
        seq![OpKind::DynamicQuantizeLinear]
    } else if i == 8 {
        seq![OpKind::Cast]
    } else {
        Seq::empty()
    }
}

/// The element types that an entry applies to.
pub open spec fn types_of(i: int) -> Seq<ElemType> {
    if i == 0 || i == 2 || i == 4 || i == 5 || i == 8 {
        seq![ElemType::F32, ElemType::F64]
    } else if i == 1 || i == 3 {
        seq![ElemType::I32, ElemType::I64]
    } else if i == 6 || i == 7 {
        seq![ElemType::F32]
    } else {
        Seq::empty()
    }
}

impl Handling {
    /// The way of handling.
    pub open spec fn way_of(self) -> Way {
        match self {
            Handling::ForgivenByComparison => Way::Forgiven,
            Handling::DeclinedByGenerator => Way::Declined,
            Handling::ExcludedByConfiguration { .. } => Way::Excluded,
        }
    }

    /// The way of handling.
    pub fn way(&self) -> (r: Way)
        ensures
            r == self.way_of(),
    {
        match self {
            Handling::ForgivenByComparison => Way::Forgiven,
            Handling::DeclinedByGenerator => Way::Declined,
            Handling::ExcludedByConfiguration { .. } => Way::Excluded,
        }
    }
}

/// Whether a value is the entry at a position of the catalog.
pub open spec fn is_entry(e: LegalDifference, i: int) -> bool {
    &&& e.id@ == IDS[i]@
    &&& e.operators@ == operators_of(i)
    &&& e.elem_types@ == types_of(i)
    &&& e.what@ == WHATS[i]@
    &&& e.handling.way_of() == WAYS[i]
    &&& e.handling matches Handling::ExcludedByConfiguration { becomes_live_if }
        ==> becomes_live_if@ == TRIGGERS[i]@
    &&& e.citation.specs_section@ == SECTIONS[i]@
    &&& e.citation.url@ == URLS[i]@
    &&& e.citation.kind == KINDS[i]
    &&& e.note@ == NOTES[i]@
}

/// Whether an entry applies to an operator.
pub open spec fn applies(i: int, op: OpKind) -> bool {
    operators_of(i).len() == 0 || operators_of(i).contains(op)
}

fn operators_at(i: usize) -> (r: Vec<OpKind>)
    ensures
        r@ == operators_of(i as int),
{
    let r: Vec<OpKind> = if i == 1 || i == 3 {
        vec![OpKind::Div]
    } else if i == 2 || i == 4 {
        vec![OpKind::Max, OpKind::Min]
    } else if i == 5 {
        vec![OpKind::Sign]
    } else if i == 6 {
        vec![OpKind::QuantizeLinear, OpKind::DynamicQuantizeLinear]
    } else if i == 7 {
        vec![OpKind::DynamicQuantizeLinear]
    } else if i == 8 {
        vec![OpKind::Cast]
    } else {
        Vec::new()
    };
    assert(r@ =~= operators_of(i as int));
    r
}

fn types_at(i: usize) -> (r: Vec<ElemType>)
    ensures
        r@ == types_of(i as int),
{
    let r: Vec<ElemType> = if i == 0 || i == 2 || i == 4 || i == 5 || i == 8 {
        vec![ElemType::F32, ElemType::F64]
    } else if i == 1 || i == 3 {
        vec![ElemType::I32, ElemType::I64]
    } else if i == 6 || i == 7 {
        vec![ElemType::F32]
    } else {
        Vec::new()
    };
    assert(r@ =~= types_of(i as int));
    r
}

/// The entry at a position.
fn entry_at(i: usize) -> (r: LegalDifference)
    requires
        i < ENTRY_COUNT,
    ensures
        is_entry(r, i as int),
{
    let handling: Handling = match WAYS[i] {
        Way::Forgiven => Handling::ForgivenByComparison,
        Way::Declined => Handling::DeclinedByGenerator,
        Way::Excluded => Handling::ExcludedByConfiguration { becomes_live_if: TRIGGERS[i] },
    };
    LegalDifference {
        id: IDS[i],
        operators: operators_at(i),
        elem_types: types_at(i),
        what: WHATS[i],
        handling,
        citation: Citation { specs_section: SECTIONS[i], url: URLS[i], kind: KINDS[i] },
        note: NOTES[i],
    }
}

/// The catalog.
pub fn catalog() -> (r: Vec<LegalDifference>)
    ensures
        r.len() == ENTRY_COUNT,
        forall|i: int| 0 <= i < r.len() ==> is_entry(#[trigger] r@[i], i),
{
    let mut out: Vec<LegalDifference> = Vec::new();
    while out.len() < ENTRY_COUNT
        invariant
            out.len() <= ENTRY_COUNT,
            forall|i: int| 0 <= i < out.len() ==> is_entry(#[trigger] out@[i], i),
        decreases ENTRY_COUNT - out.len(),
    {
        let i: usize = out.len();
        out.push(entry_at(i));
    }
    out
}

/// The position of the first entry with an identifier, or the number of entries.
pub open spec fn position_from(id: Seq<char>, i: int) -> int
    decreases 11 - i,
{
    if i >= 11 || IDS[i]@ == id {
        i
    } else {
        position_from(id, i + 1)
    }
}

/// The entry with an identifier.
pub fn entry(id: &str) -> (r: Option<LegalDifference>)
    ensures
        r is Some <==> position_from(id@, 0) < ENTRY_COUNT,
        r matches Some(e) ==> is_entry(e, position_from(id@, 0)),
{
    let mut i: usize = 0;
    while i < ENTRY_COUNT
        invariant
            i <= ENTRY_COUNT,
            position_from(id@, i as int) == position_from(id@, 0),
        decreases ENTRY_COUNT - i,
    {
        if same_text(IDS[i], id) {
            return Some(entry_at(i));
        }
        i += 1;
    }
    None
}

/// The positions below `n` of the entries that apply to an operator.
pub open spec fn applicable_upto(op: OpKind, n: nat) -> Seq<int>
    decreases n,
{
    if n == 0 {
        Seq::empty()
    } else {
        let rest = applicable_upto(op, (n - 1) as nat);
        if applies(n - 1, op) {
            rest.push(n - 1)
        } else {
            rest
        }
    }
}

/// The entries that apply to an operator.
pub fn for_operator(op: OpKind) -> (r: Vec<LegalDifference>)
    ensures
        r.len() == applicable_upto(op, 11).len(),
        forall|k: int| 0 <= k < r.len() ==> is_entry(#[trigger] r@[k], applicable_upto(op, 11)[k]),
{
    let mut out: Vec<LegalDifference> = Vec::new();
    let mut i: usize = 0;
    while i < ENTRY_COUNT
        invariant
            i <= ENTRY_COUNT,
            out.len() == applicable_upto(op, i as nat).len(),
            forall|k: int|
                0 <= k < out.len() ==> is_entry(
                    #[trigger] out@[k],
                    applicable_upto(op, i as nat)[k],
                ),
        decreases ENTRY_COUNT - i,
    {
        let candidate: LegalDifference = entry_at(i);
        let mut found: bool = candidate.operators.len() == 0;
        let mut k: usize = 0;
        while k < candidate.operators.len()
            invariant
                k <= candidate.operators.len(),
                candidate.operators@ == operators_of(i as int),
                is_entry(candidate, i as int),
                found == (candidate.operators@.len() == 0 || exists|j: int|
                    0 <= j < k && #[trigger] candidate.operators@[j] == op),
            decreases candidate.operators.len() - k,
        {
            if candidate.operators[k] == op {
                found = true;
            }
            k += 1;
        }
        assert(found == applies(i as int, op));
        if found {
            out.push(candidate);
        }
        i += 1;
    }
    out
}

// ---- laws ----

/// One entry alone is forgiven by the comparison, the first, and never on measurement alone.
pub proof fn lemma_forgiveness_is_rationed(i: int)
    requires
        0 <= i < ENTRY_COUNT,
    ensures
        WAYS[i] == Way::Forgiven <==> i == 0,
        WAYS[i] == Way::Forgiven ==> KINDS[i] != SourceKind::Measured,
{
    assert(i == 0 || i == 1 || i == 2 || i == 3 || i == 4 || i == 5 || i == 6 || i == 7 || i == 8
        || i == 9 || i == 10);
}

} // verus!
