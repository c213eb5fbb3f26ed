//! What an input *is*, computed from the case alone.
//!
//! Every feature is a function of the case, and none looks at a result. A feature that consulted
//! what the runtimes said could describe a divergence that already happened and predict none that
//! has not; the signature of [`features`] is what enforces the rule.
//!
//! A rule is a bit mask over [`FEATURES`] by index, so the order of that list is part of the
//! format: it is appended to and never reordered.

use vstd::prelude::*;

use crate::attrs::{AttrModel, AttrValue};
use crate::bits::{f32_abs, f32_is_extreme, f32_is_infinite, f32_is_nan, f32_is_subnormal};
use crate::bits::{f64_abs, f64_is_extreme, f64_is_infinite, f64_is_nan, f64_is_subnormal};
use crate::case::{count_fits, count_of, has_negative, product, product_fits};
use crate::case::product_of;
use crate::case::{CaseModel, DataModel, ElemType, OnnxCase, OpKind, TensorData};
use crate::ops::{data_elem_of, data_elem_type, data_rank, data_rank_of, op_spec, output_dims};
use crate::ops::{output_fits, output_spec, Tier};
use crate::text::same_text;

verus! {

/// How many features there are.
pub const FEATURE_COUNT: usize = 55;

/// The names of the features, in the order of their bits: first what is in the numbers, then
/// what the tensors look like, their types, the operator and its attributes, and the version.
pub const FEATURES: [&'static str; 55] = [
    "has_nan_input",
    "has_inf_input",
    "has_negative_zero",
    "has_subnormal",
    "has_boundary_magnitude",
    "empty_tensor",
    "rank_0",
    "has_size_1_dim",
    "broadcasting_required",
    "output_larger_than_input",
    "integer_dtype",
    "float_dtype",
    "quantized_op",
    "attribute_at_bound",
    "op_identity",
    "op_reshape",
    "op_transpose",
    "op_concat",
    "op_squeeze",
    "op_unsqueeze",
    "op_shape",
    "op_size",
    "op_slice",
    "op_pad",
    "op_gather",
    "op_where",
    "op_cast",
    "op_equal",
    "op_greater",
    "op_less",
    "op_and",
    "op_or",
    "op_xor",
    "op_not",
    "op_add",
    "op_sub",
    "op_mul",
    "op_div",
    "op_min",
    "op_max",
    "op_abs",
    "op_neg",
    "op_sign",
    "op_sqrt",
    "op_floor",
    "op_ceil",
    "op_round",
    "op_quantizelinear",
    "op_dequantizelinear",
    "op_matmulinteger",
    "op_dynamicquantizelinear",
    "opset_ge_13",
    "opset_ge_14",
    "opset_ge_19",
    "opset_ge_21",
];

/// The opset versions that the last features ask about.
pub const OPSET_STEPS: [i64; 4] = [13, 14, 19, 21];

// ---- bits ----

/// Whether a bit of a word is set.
pub open spec fn has_bit(word: u64, bit: u64) -> bool {
    word & (1u64 << bit) != 0
}

pub proof fn lemma_set_bit(word: u64, bit: u64, other: u64)
    requires
        bit < 64,
        other < 64,
    ensures
        has_bit(word | (1u64 << bit), other) == (other == bit || has_bit(word, other)),
{
    assert(((word | (1u64 << bit)) & (1u64 << other) != 0) == (other == bit || word & (1u64
        << other) != 0)) by (bit_vector)
        requires
            bit < 64,
            other < 64,
    ;
}

pub proof fn lemma_no_bit(bit: u64)
    requires
        bit < 64,
    ensures
        !has_bit(0, bit),
{
    assert(0u64 & (1u64 << bit) == 0) by (bit_vector);
}

/// How many of the low `n` bits of a word are set.
pub open spec fn ones(word: u64, n: nat) -> nat
    decreases n,
{
    if n == 0 {
        0
    } else {
        ones(word, (n - 1) as nat) + if has_bit(word, (n - 1) as u64) {
            1nat
        } else {
            0nat
        }
    }
}

/// How many bits of a word are set.
pub fn count_bits(word: u64) -> (r: u32)
    ensures
        r == ones(word, 64),
        r <= 64,
{
    let mut count: u32 = 0;
    let mut k: u64 = 0;
    while k < 64
        invariant
            k <= 64,
            count == ones(word, k as nat),
            count <= k,
        decreases 64 - k,
    {
        if word & (1u64 << k) != 0 {
            count += 1;
        }
        k += 1;
    }
    count
}

// ---- the vocabulary ----

/// The position of a name among the features, from position `k` on; the number of features if it
/// is not one.
pub open spec fn index_from(name: Seq<char>, k: int) -> int
    decreases 55 - k,
{
    if k >= 55 {
        55
    } else if FEATURES[k]@ == name {
        k
    } else {
        index_from(name, k + 1)
    }
}

/// The position of a name among the features, or the number of features.
pub open spec fn feature_index(name: Seq<char>) -> int {
    index_from(name, 0)
}

proof fn lemma_index_from(name: Seq<char>, k: int)
    requires
        0 <= k <= 55,
    ensures
        k <= index_from(name, k) <= 55,
        index_from(name, k) < 55 ==> FEATURES[index_from(name, k)]@ == name,
        index_from(name, k) == 55 ==> forall|j: int| k <= j < 55 ==> (#[trigger] FEATURES[j])@
            != name,
    decreases 55 - k,
{
    if k < 55 && FEATURES[k]@ != name {
        lemma_index_from(name, k + 1);
    }
}

/// The index of a name is the position at which the vocabulary holds it.
pub proof fn lemma_feature_index(name: Seq<char>)
    ensures
        0 <= feature_index(name) <= 55,
        feature_index(name) < 55 ==> FEATURES[feature_index(name)]@ == name,
        feature_index(name) == 55 ==> forall|j: int| 0 <= j < 55 ==> (#[trigger] FEATURES[j])@
            != name,
{
    lemma_index_from(name, 0);
}

/// The position of a name among the features, or the number of features.
pub fn position_of(name: &str) -> (r: usize)
    ensures
        r == feature_index(name@),
        r <= 55,
{
    let mut k: usize = 0;
    while k < FEATURE_COUNT
        invariant
            k <= 55,
            FEATURES@.len() == 55,
            index_from(name@, k as int) == feature_index(name@),
        decreases 55 - k,
    {
        if same_text(FEATURES[k], name) {
            return k;
        }
        k += 1;
    }
    FEATURE_COUNT
}

/// A case's features, one bit for each.
#[derive(Debug, Clone, Copy, PartialEq, Eq, PartialOrd, Ord, Structural)]
pub struct FeatureVec(pub u64);

impl Default for FeatureVec {
    fn default() -> (r: Self)
        ensures
            r.0 == 0,
    {
        FeatureVec(0)
    }
}

/// The names of the features among the first `n` that are set.
pub open spec fn names_upto(word: u64, n: nat) -> Seq<Seq<char>>
    decreases n,
{
    if n == 0 {
        Seq::empty()
    } else {
        let rest = names_upto(word, (n - 1) as nat);
        if has_bit(word, (n - 1) as u64) {
            rest.push(FEATURES[n - 1]@)
        } else {
            rest
        }
    }
}

impl FeatureVec {
    /// Whether the named feature holds. An unknown name holds nowhere: it may come from a rule
    /// that was recorded under another vocabulary.
    pub fn has(&self, name: &str) -> (r: bool)
        ensures
            r == (feature_index(name@) < 55 && has_bit(self.0, feature_index(name@) as u64)),
            r == names_upto(self.0, 55).contains(name@),
    {
        proof {
            lemma_names_are_what_holds(self.0, name@);
        }
        let bit: usize = position_of(name);
        if bit < FEATURE_COUNT {
            self.0 & (1u64 << (bit as u64)) != 0
        } else {
            false
        }
    }

    /// The names of the features that hold, each once and in the order of the vocabulary.
    pub fn names(&self) -> (r: Vec<&'static str>)
        ensures
            Seq::new(r@.len(), |i: int| r@[i]@) == names_upto(self.0, 55),
            names_upto(self.0, 55).no_duplicates(),
    {
        proof {
            lemma_names_are_what_holds(self.0, Seq::empty());
        }
        let mut out: Vec<&'static str> = Vec::new();
        let mut k: usize = 0;
        assert(Seq::new(out@.len(), |i: int| out@[i]@) =~= Seq::empty());
        while k < FEATURE_COUNT
            invariant
                k <= 55,
                FEATURES@.len() == 55,
                Seq::new(out@.len(), |i: int| out@[i]@) == names_upto(self.0, k as nat),
            decreases 55 - k,
        {
            let ghost before = Seq::new(out@.len(), |i: int| out@[i]@);
            if self.0 & (1u64 << (k as u64)) != 0 {
                out.push(FEATURES[k]);
                assert(Seq::new(out@.len(), |i: int| out@[i]@) =~= before.push(FEATURES[k as int]@));
            }
            k += 1;
        }
        out
    }

    /// How many features hold.
    pub fn count(&self) -> (r: u32)
        ensures
            r == ones(self.0, 64),
            self.0 >> 55 == 0 ==> r == names_upto(self.0, 55).len(),
    {
        proof {
            lemma_names_are_what_holds(self.0, Seq::empty());
        }
        count_bits(self.0)
    }
}

// ---- what the features mean ----

/// Whether some single-precision element is a `NaN`.
pub open spec fn singles_have_nan(v: Seq<u32>) -> bool {
    exists|e: int| 0 <= e < v.len() && f32_is_nan(#[trigger] v[e])
}

pub open spec fn singles_have_inf(v: Seq<u32>) -> bool {
    exists|e: int| 0 <= e < v.len() && f32_is_infinite(#[trigger] v[e])
}

pub open spec fn singles_have_negative_zero(v: Seq<u32>) -> bool {
    exists|e: int| 0 <= e < v.len() && #[trigger] v[e] == 0x8000_0000u32
}

pub open spec fn singles_have_subnormal(v: Seq<u32>) -> bool {
    exists|e: int| 0 <= e < v.len() && f32_is_subnormal(#[trigger] v[e])
}

pub open spec fn singles_have_extreme(v: Seq<u32>) -> bool {
    exists|e: int| 0 <= e < v.len() && f32_is_extreme(#[trigger] v[e])
}

/// Whether some double-precision element is a `NaN`.
pub open spec fn doubles_have_nan(v: Seq<u64>) -> bool {
    exists|e: int| 0 <= e < v.len() && f64_is_nan(#[trigger] v[e])
}

pub open spec fn doubles_have_inf(v: Seq<u64>) -> bool {
    exists|e: int| 0 <= e < v.len() && f64_is_infinite(#[trigger] v[e])
}

pub open spec fn doubles_have_negative_zero(v: Seq<u64>) -> bool {
    exists|e: int| 0 <= e < v.len() && #[trigger] v[e] == 0x8000_0000_0000_0000u64
}

pub open spec fn doubles_have_subnormal(v: Seq<u64>) -> bool {
    exists|e: int| 0 <= e < v.len() && f64_is_subnormal(#[trigger] v[e])
}

pub open spec fn doubles_have_extreme(v: Seq<u64>) -> bool {
    exists|e: int| 0 <= e < v.len() && f64_is_extreme(#[trigger] v[e])
}

pub open spec fn data_has_nan(d: DataModel) -> bool {
    match d {
        DataModel::F32(v) => singles_have_nan(v),
        DataModel::F64(v) => doubles_have_nan(v),
        _ => false,
    }
}

pub open spec fn data_has_inf(d: DataModel) -> bool {
    match d {
        DataModel::F32(v) => singles_have_inf(v),
        DataModel::F64(v) => doubles_have_inf(v),
        _ => false,
    }
}

/// Whether a negative zero occurs, by its bit pattern: as numbers the two zeros are equal.
pub open spec fn data_has_negative_zero(d: DataModel) -> bool {
    match d {
        DataModel::F32(v) => singles_have_negative_zero(v),
        DataModel::F64(v) => doubles_have_negative_zero(v),
        _ => false,
    }
}

pub open spec fn data_has_subnormal(d: DataModel) -> bool {
    match d {
        DataModel::F32(v) => singles_have_subnormal(v),
        DataModel::F64(v) => doubles_have_subnormal(v),
        _ => false,
    }
}

/// Whether an element stands at the end of its type's finite range.
pub open spec fn data_has_boundary(d: DataModel) -> bool {
    match d {
        DataModel::F32(v) => singles_have_extreme(v),
        DataModel::F64(v) => doubles_have_extreme(v),
        DataModel::I32(v) => v.contains(i32::MIN) || v.contains(i32::MAX),
        DataModel::I64(v) => v.contains(i64::MIN) || v.contains(i64::MAX),
        DataModel::I8(v) => v.contains(i8::MIN) || v.contains(i8::MAX),
        DataModel::U8(v) => v.contains(u8::MIN) || v.contains(u8::MAX),
        DataModel::Bool(_) => false,
    }
}

/// Whether an `axis` attribute names the first or the last axis of the data. A negative axis is
/// counted from the back first.
pub open spec fn axis_at_bound(entry: (Seq<char>, AttrModel), rank: int) -> bool {
    match entry.1 {
        AttrModel::Int(raw) => {
            let axis = if raw < 0 { raw + rank } else { raw as int };
            entry.0 == "axis"@ && rank > 0 && (axis == 0 || axis == rank - 1)
        },
        _ => false,
    }
}

/// How many elements the output holds.
pub open spec fn output_count(c: CaseModel) -> int {
    let n = product(output_dims(c));
    if n < 0 {
        0
    } else {
        n
    }
}

/// How many elements the first input holds.
pub open spec fn first_count(c: CaseModel) -> int {
    if c.inputs.len() > 0 {
        count_of(c.inputs[0].dims)
    } else {
        0
    }
}

/// Whether a feature holds of a case.
pub open spec fn holds(c: CaseModel, k: int) -> bool {
    if k == 0 {
        exists|i: int| 0 <= i < c.inputs.len() && data_has_nan((#[trigger] c.inputs[i]).data)
    } else if k == 1 {
        exists|i: int| 0 <= i < c.inputs.len() && data_has_inf((#[trigger] c.inputs[i]).data)
    } else if k == 2 {
        exists|i: int|
            0 <= i < c.inputs.len() && data_has_negative_zero((#[trigger] c.inputs[i]).data)
    } else if k == 3 {
        exists|i: int| 0 <= i < c.inputs.len() && data_has_subnormal((#[trigger] c.inputs[i]).data)
    } else if k == 4 {
        exists|i: int| 0 <= i < c.inputs.len() && data_has_boundary((#[trigger] c.inputs[i]).data)
    } else if k == 5 {
        exists|i: int| 0 <= i < c.inputs.len() && count_of((#[trigger] c.inputs[i]).dims) == 0
    } else if k == 6 {
        data_rank_of(c) == 0
    } else if k == 7 {
        exists|i: int| 0 <= i < c.inputs.len() && (#[trigger] c.inputs[i]).dims.contains(1)
    } else if k == 8 {
        exists|i: int|
            0 <= i < c.inputs.len() && (#[trigger] c.inputs[i]).dims != c.inputs[0].dims
    } else if k == 9 {
        output_count(c) > first_count(c)
    } else if k == 10 {
        !data_elem_of(c).floating() && data_elem_of(c) != ElemType::Bool
    } else if k == 11 {
        data_elem_of(c).floating()
    } else if k == 12 {
        c.op.tier() == Tier::Q
    } else if k == 13 {
        exists|i: int|
            0 <= i < c.attrs.len() && axis_at_bound(#[trigger] c.attrs[i], data_rank_of(c) as int)
    } else if k < 51 {
        c.op == OpKind::ALL[k - 14]
    } else {
        c.opset >= OPSET_STEPS[k - 51]
    }
}

/// The word of a case's first `n` features.
pub open spec fn word_upto(c: CaseModel, n: nat) -> u64
    decreases n,
{
    if n == 0 {
        0
    } else {
        let rest = word_upto(c, (n - 1) as nat);
        if holds(c, n - 1) {
            rest | (1u64 << ((n - 1) as u64))
        } else {
            rest
        }
    }
}

/// The word of a case's features.
pub open spec fn feature_word(c: CaseModel) -> u64 {
    word_upto(c, 55)
}

/// Whether a case's features can be computed in 64-bit arithmetic.
pub open spec fn measurable(c: CaseModel) -> bool {
    &&& output_fits(c)
    &&& product_fits(output_dims(c))
    &&& data_rank_of(c) <= i64::MAX
    &&& forall|i: int| 0 <= i < c.inputs.len() ==> count_fits((#[trigger] c.inputs[i]).dims)
}

/// What is in the numbers.
pub(crate) struct ValueFlags {
    pub(crate) nan: bool,
    pub(crate) inf: bool,
    pub(crate) negative_zero: bool,
    pub(crate) subnormal: bool,
    pub(crate) boundary: bool,
}

fn scan_f32(v: &Vec<u32>) -> (r: ValueFlags)
    ensures
        r.nan == singles_have_nan(v@),
        r.inf == singles_have_inf(v@),
        r.negative_zero == singles_have_negative_zero(v@),
        r.subnormal == singles_have_subnormal(v@),
        r.boundary == singles_have_extreme(v@),
{
    let mut r: ValueFlags = ValueFlags {
        nan: false,
        inf: false,
        negative_zero: false,
        subnormal: false,
        boundary: false,
    };
    let mut i: usize = 0;
    while i < v.len()
        invariant
            i <= v.len(),
            r.nan == exists|e: int| 0 <= e < i && f32_is_nan(#[trigger] v@[e]),
            r.inf == exists|e: int| 0 <= e < i && f32_is_infinite(#[trigger] v@[e]),
            r.negative_zero == exists|e: int| 0 <= e < i && #[trigger] v@[e] == 0x8000_0000u32,
            r.subnormal == exists|e: int| 0 <= e < i && f32_is_subnormal(#[trigger] v@[e]),
            r.boundary == exists|e: int| 0 <= e < i && f32_is_extreme(#[trigger] v@[e]),
        decreases v.len() - i,
    {
        let b: u32 = v[i];
        let m: u32 = f32_abs(b);
        r.nan = r.nan || m > 0x7f80_0000;
        r.inf = r.inf || m == 0x7f80_0000;
        r.negative_zero = r.negative_zero || b == 0x8000_0000;
        r.subnormal = r.subnormal || (0 < m && m < 0x0080_0000);
        r.boundary = r.boundary || m == 0x7f7f_ffff;
        assert(v@[i as int] == b);
        i += 1;
    }
    r
}

fn scan_f64(v: &Vec<u64>) -> (r: ValueFlags)
    ensures
        r.nan == doubles_have_nan(v@),
        r.inf == doubles_have_inf(v@),
        r.negative_zero == doubles_have_negative_zero(v@),
        r.subnormal == doubles_have_subnormal(v@),
        r.boundary == doubles_have_extreme(v@),
{
    let mut r: ValueFlags = ValueFlags {
        nan: false,
        inf: false,
        negative_zero: false,
        subnormal: false,
        boundary: false,
    };
    let mut i: usize = 0;
    while i < v.len()
        invariant
            i <= v.len(),
            r.nan == exists|e: int| 0 <= e < i && f64_is_nan(#[trigger] v@[e]),
            r.inf == exists|e: int| 0 <= e < i && f64_is_infinite(#[trigger] v@[e]),
            r.negative_zero == exists|e: int|
                0 <= e < i && #[trigger] v@[e] == 0x8000_0000_0000_0000u64,
            r.subnormal == exists|e: int| 0 <= e < i && f64_is_subnormal(#[trigger] v@[e]),
            r.boundary == exists|e: int| 0 <= e < i && f64_is_extreme(#[trigger] v@[e]),
        decreases v.len() - i,
    {
        let b: u64 = v[i];
        let m: u64 = f64_abs(b);
        r.nan = r.nan || m > 0x7ff0_0000_0000_0000;
        r.inf = r.inf || m == 0x7ff0_0000_0000_0000;
        r.negative_zero = r.negative_zero || b == 0x8000_0000_0000_0000;
        r.subnormal = r.subnormal || (0 < m && m < 0x0010_0000_0000_0000);
        r.boundary = r.boundary || m == 0x7fef_ffff_ffff_ffff;
        assert(v@[i as int] == b);
        i += 1;
    }
    r
}

/// Whether an integer element stands at the end of its type's range.
fn integer_boundary(d: &TensorData) -> (r: bool)
    requires
        !(d@ is F32),
        !(d@ is F64),
    ensures
        r == data_has_boundary(d@),
{
    match d {
        TensorData::I32(v) => {
            let mut i: usize = 0;
            while i < v.len()
                invariant
                    i <= v.len(),
                    d@ == DataModel::I32(v@),
                    forall|e: int| 0 <= e < i ==> #[trigger] v@[e] != i32::MIN && v@[e] != i32::MAX,
                decreases v.len() - i,
            {
                if v[i] == i32::MIN || v[i] == i32::MAX {
                    assert(v@[i as int] == i32::MIN || v@[i as int] == i32::MAX);
                    return true;
                }
                i += 1;
            }
            false
        },
        TensorData::I64(v) => {
            let mut i: usize = 0;
            while i < v.len()
                invariant
                    i <= v.len(),
                    d@ == DataModel::I64(v@),
                    forall|e: int| 0 <= e < i ==> #[trigger] v@[e] != i64::MIN && v@[e] != i64::MAX,
                decreases v.len() - i,
            {
                if v[i] == i64::MIN || v[i] == i64::MAX {
                    assert(v@[i as int] == i64::MIN || v@[i as int] == i64::MAX);
                    return true;
                }
                i += 1;
            }
            false
        },
        TensorData::I8(v) => {
            let mut i: usize = 0;
            while i < v.len()
                invariant
                    i <= v.len(),
                    d@ == DataModel::I8(v@),
                    forall|e: int| 0 <= e < i ==> #[trigger] v@[e] != i8::MIN && v@[e] != i8::MAX,
                decreases v.len() - i,
            {
                if v[i] == i8::MIN || v[i] == i8::MAX {
                    assert(v@[i as int] == i8::MIN || v@[i as int] == i8::MAX);
                    return true;
                }
                i += 1;
            }
            false
        },
        TensorData::U8(v) => {
            let mut i: usize = 0;
            while i < v.len()
                invariant
                    i <= v.len(),
                    d@ == DataModel::U8(v@),
                    forall|e: int| 0 <= e < i ==> #[trigger] v@[e] != u8::MIN && v@[e] != u8::MAX,
                decreases v.len() - i,
            {
                if v[i] == u8::MIN || v[i] == u8::MAX {
                    assert(v@[i as int] == u8::MIN || v@[i as int] == u8::MAX);
                    return true;
                }
                i += 1;
            }
            false
        },
        _ => false,
    }
}

pub(crate) fn scan(d: &TensorData) -> (r: ValueFlags)
    ensures
        r.nan == data_has_nan(d@),
        r.inf == data_has_inf(d@),
        r.negative_zero == data_has_negative_zero(d@),
        r.subnormal == data_has_subnormal(d@),
        r.boundary == data_has_boundary(d@),
{
    match d {
        TensorData::F32(v) => scan_f32(v),
        TensorData::F64(v) => scan_f64(v),
        _ => ValueFlags {
            nan: false,
            inf: false,
            negative_zero: false,
            subnormal: false,
            boundary: integer_boundary(d),
        },
    }
}

fn scan_case(case: &OnnxCase) -> (r: ValueFlags)
    ensures
        r.nan == holds(case@, 0),
        r.inf == holds(case@, 1),
        r.negative_zero == holds(case@, 2),
        r.subnormal == holds(case@, 3),
        r.boundary == holds(case@, 4),
{
    let ghost inputs = case@.inputs;
    let mut r: ValueFlags = ValueFlags {
        nan: false,
        inf: false,
        negative_zero: false,
        subnormal: false,
        boundary: false,
    };
    let mut i: usize = 0;
    while i < case.inputs.len()
        invariant
            i <= case.inputs.len(),
            inputs == case@.inputs,
            r.nan == exists|k: int| 0 <= k < i && data_has_nan((#[trigger] inputs[k]).data),
            r.inf == exists|k: int| 0 <= k < i && data_has_inf((#[trigger] inputs[k]).data),
            r.negative_zero == exists|k: int|
                0 <= k < i && data_has_negative_zero((#[trigger] inputs[k]).data),
            r.subnormal == exists|k: int|
                0 <= k < i && data_has_subnormal((#[trigger] inputs[k]).data),
            r.boundary == exists|k: int|
                0 <= k < i && data_has_boundary((#[trigger] inputs[k]).data),
        decreases case.inputs.len() - i,
    {
        let one: ValueFlags = scan(&case.inputs[i].data);
        assert(inputs[i as int].data == case.inputs@[i as int].data@);
        r.nan = r.nan || one.nan;
        r.inf = r.inf || one.inf;
        r.negative_zero = r.negative_zero || one.negative_zero;
        r.subnormal = r.subnormal || one.subnormal;
        r.boundary = r.boundary || one.boundary;
        i += 1;
    }
    r
}

fn some_empty(case: &OnnxCase) -> (r: bool)
    requires
        measurable(case@),
    ensures
        r == holds(case@, 5),
{
    let mut i: usize = 0;
    while i < case.inputs.len()
        invariant
            i <= case.inputs.len(),
            measurable(case@),
            forall|k: int| 0 <= k < i ==> count_of((#[trigger] case@.inputs[k]).dims) != 0,
        decreases case.inputs.len() - i,
    {
        assert(count_fits(case@.inputs[i as int].dims));
        if case.inputs[i].element_count() == 0 {
            return true;
        }
        i += 1;
    }
    false
}

fn some_size_one(case: &OnnxCase) -> (r: bool)
    ensures
        r == holds(case@, 7),
{
    let mut i: usize = 0;
    while i < case.inputs.len()
        invariant
            i <= case.inputs.len(),
            forall|k: int| 0 <= k < i ==> !(#[trigger] case@.inputs[k]).dims.contains(1),
        decreases case.inputs.len() - i,
    {
        let dims: &Vec<i64> = &case.inputs[i].dims;
        assert(case@.inputs[i as int].dims == dims@);
        let mut j: usize = 0;
        while j < dims.len()
            invariant
                i < case.inputs.len(),
                j <= dims.len(),
                case@.inputs[i as int].dims == dims@,
                forall|k: int| 0 <= k < j ==> #[trigger] dims@[k] != 1,
            decreases dims.len() - j,
        {
            if dims[j] == 1 {
                assert(dims@.contains(1));
                return true;
            }
            j += 1;
        }
        i += 1;
    }
    false
}

fn shapes_differ(case: &OnnxCase) -> (r: bool)
    ensures
        r == holds(case@, 8),
{
    let mut i: usize = 0;
    while i < case.inputs.len()
        invariant
            i <= case.inputs.len(),
            forall|k: int| 0 <= k < i ==> (#[trigger] case@.inputs[k]).dims == case@.inputs[0].dims,
        decreases case.inputs.len() - i,
    {
        let same: bool = case.inputs[i].dims == case.inputs[0].dims;
        assert(same ==> case.inputs@[i as int].dims@ =~= case.inputs@[0].dims@);
        assert(case@.inputs[i as int].dims == case.inputs@[i as int].dims@);
        if !same {
            return true;
        }
        i += 1;
    }
    false
}

fn output_is_larger(case: &OnnxCase) -> (r: bool)
    requires
        measurable(case@),
    ensures
        r == holds(case@, 9),
{
    let dims: Vec<i64> = output_spec(case).1;
    let raw: i64 = product_of(&dims);
    let produced: i64 = if raw < 0 { 0 } else { raw };
    let given: i64 = if case.inputs.len() > 0 {
        let first: &Vec<i64> = &case.inputs[0].dims;
        assert(case@.inputs[0].dims == first@);
        assert(count_fits(case@.inputs[0].dims));
        if has_negative(first) { 0 } else { product_of(first) }
    } else {
        0
    };
    produced > given
}

fn attribute_at_bound(case: &OnnxCase) -> (r: bool)
    requires
        data_rank_of(case@) <= i64::MAX,
    ensures
        r == holds(case@, 13),
{
    let rank: i64 = data_rank(case) as i64;
    let n: usize = case.attrs.len();
    let mut i: usize = 0;
    while i < n
        invariant
            i <= n,
            n == case@.attrs.len(),
            rank == data_rank_of(case@),
            forall|k: int| 0 <= k < i ==> !axis_at_bound(#[trigger] case@.attrs[k], rank as int),
        decreases n - i,
    {
        let (name, value): (&str, &AttrValue) = case.attrs.at(i);
        match value {
            AttrValue::Int(raw) => {
                if rank > 0 && same_text(name, "axis") {
                    let axis: i64 = if *raw < 0 { *raw + rank } else { *raw };
                    if axis == 0 || axis == rank - 1 {
                        assert(axis_at_bound(case@.attrs[i as int], rank as int));
                        return true;
                    }
                }
            },
            _ => {},
        }
        i += 1;
    }
    false
}

/// What is known of a case before its operator and version are looked at.
struct CaseFlags {
    values: ValueFlags,
    empty: bool,
    scalar: bool,
    size_one: bool,
    broadcasting: bool,
    larger: bool,
    integer: bool,
    floating: bool,
    quantized: bool,
    at_bound: bool,
}

/// [`holds`], kept folded while a word is put together.
#[verifier::opaque]
spec fn held(c: CaseModel, k: int) -> bool {
    holds(c, k)
}

fn flags_of(case: &OnnxCase) -> (r: CaseFlags)
    requires
        measurable(case@),
    ensures
        r.values.nan == holds(case@, 0),
        r.values.inf == holds(case@, 1),
        r.values.negative_zero == holds(case@, 2),
        r.values.subnormal == holds(case@, 3),
        r.values.boundary == holds(case@, 4),
        r.empty == holds(case@, 5),
        r.scalar == holds(case@, 6),
        r.size_one == holds(case@, 7),
        r.broadcasting == holds(case@, 8),
        r.larger == holds(case@, 9),
        r.integer == holds(case@, 10),
        r.floating == holds(case@, 11),
        r.quantized == holds(case@, 12),
        r.at_bound == holds(case@, 13),
{
    let values: ValueFlags = scan_case(case);
    let elem: ElemType = data_elem_type(case);
    let floating: bool = elem.is_floating();
    CaseFlags {
        values,
        empty: some_empty(case),
        scalar: data_rank(case) == 0,
        size_one: some_size_one(case),
        broadcasting: shapes_differ(case),
        larger: output_is_larger(case),
        integer: !floating && elem != ElemType::Bool,
        floating,
        quantized: op_spec(case.op).tier == Tier::Q,
        at_bound: attribute_at_bound(case),
    }
}

fn feature_at(case: &OnnxCase, flags: &CaseFlags, k: usize) -> (r: bool)
    requires
        k < 55,
        flags.values.nan == holds(case@, 0),
        flags.values.inf == holds(case@, 1),
        flags.values.negative_zero == holds(case@, 2),
        flags.values.subnormal == holds(case@, 3),
        flags.values.boundary == holds(case@, 4),
        flags.empty == holds(case@, 5),
        flags.scalar == holds(case@, 6),
        flags.size_one == holds(case@, 7),
        flags.broadcasting == holds(case@, 8),
        flags.larger == holds(case@, 9),
        flags.integer == holds(case@, 10),
        flags.floating == holds(case@, 11),
        flags.quantized == holds(case@, 12),
        flags.at_bound == holds(case@, 13),
    ensures
        r == held(case@, k as int),
        r == holds(case@, k as int),
{
    reveal(held);
    match k {
        0 => flags.values.nan,
        1 => flags.values.inf,
        2 => flags.values.negative_zero,
        3 => flags.values.subnormal,
        4 => flags.values.boundary,
        5 => flags.empty,
        6 => flags.scalar,
        7 => flags.size_one,
        8 => flags.broadcasting,
        9 => flags.larger,
        10 => flags.integer,
        11 => flags.floating,
        12 => flags.quantized,
        13 => flags.at_bound,
        _ => {
            if k < 51 {
                case.op == OpKind::ALL[k - 14]
            } else {
                case.opset >= OPSET_STEPS[k - 51]
            }
        },
    }
}

fn word_of(case: &OnnxCase) -> (r: u64)
    requires
        measurable(case@),
    ensures
        r == feature_word(case@),
        forall|k: int| 0 <= k < 55 ==> #[trigger] has_bit(r, k as u64) == held(case@, k),
        forall|k: int| 55 <= k < 64 ==> !#[trigger] has_bit(r, k as u64),
{
    let flags: CaseFlags = flags_of(case);
    let mut word: u64 = 0;
    let mut k: usize = 0;
    proof {
        assert forall|j: int| 0 <= j < 64 implies !#[trigger] has_bit(0, j as u64) by {
            lemma_no_bit(j as u64);
        }
    }
    while k < FEATURE_COUNT
        invariant
            k <= 55,
            flags.values.nan == holds(case@, 0),
            flags.values.inf == holds(case@, 1),
            flags.values.negative_zero == holds(case@, 2),
            flags.values.subnormal == holds(case@, 3),
            flags.values.boundary == holds(case@, 4),
            flags.empty == holds(case@, 5),
            flags.scalar == holds(case@, 6),
            flags.size_one == holds(case@, 7),
            flags.broadcasting == holds(case@, 8),
            flags.larger == holds(case@, 9),
            flags.integer == holds(case@, 10),
            flags.floating == holds(case@, 11),
            flags.quantized == holds(case@, 12),
            flags.at_bound == holds(case@, 13),
            word == word_upto(case@, k as nat),
            forall|j: int| 0 <= j < k ==> #[trigger] has_bit(word, j as u64) == held(case@, j),
            forall|j: int| k <= j < 64 ==> !#[trigger] has_bit(word, j as u64),
        decreases 55 - k,
    {
        if feature_at(case, &flags, k) {
            let ghost before = word;
            proof {
                assert forall|j: int| 0 <= j < 64 implies #[trigger] has_bit(
                    before | (1u64 << (k as u64)),
                    j as u64,
                ) == (j == k || has_bit(before, j as u64)) by {
                    lemma_set_bit(before, k as u64, j as u64);
                }
            }
            word = word | (1u64 << (k as u64));
        }
        k += 1;
    }
    word
}

/// A case's features. The case is all there is to look at.
pub fn features(case: &OnnxCase) -> (r: FeatureVec)
    requires
        measurable(case@),
    ensures
        r.0 == feature_word(case@),
        forall|k: int| 0 <= k < 55 ==> #[trigger] has_bit(r.0, k as u64) == holds(case@, k),
        forall|k: int| 55 <= k < 64 ==> !#[trigger] has_bit(r.0, k as u64),
{
    let word: u64 = word_of(case);
    proof {
        assert forall|k: int| 0 <= k < 55 implies #[trigger] has_bit(word, k as u64) == holds(
            case@,
            k,
        ) by {
            reveal(held);
            assert(has_bit(word, k as u64) == held(case@, k));
        }
    }
    FeatureVec(word)
}

/// A word without any bit is zero.
pub proof fn lemma_some_bit(word: u64, n: u64)
    requires
        n <= 64,
        n == 64 || word >> n == 0,
        word != 0,
    ensures
        exists|k: u64| k < n && #[trigger] has_bit(word, k),
    decreases n,
{
    if n == 0 {
        assert(word >> 0 == word) by (bit_vector);
    } else {
        let m = (n - 1) as u64;
        if !has_bit(word, m) {
            assert(word >> m == 0) by (bit_vector)
                requires
                    0 < n <= 64,
                    n == 64 || word >> n == 0,
                    m == n - 1,
                    word & (1u64 << m) == 0,
            ;
            lemma_some_bit(word, m);
        }
    }
}

// ---- laws ----

/// A number by which the names are told apart: their length and three of their characters.
spec fn code_of(name: Seq<char>) -> int {
    name.len() * 0x100_0000 + (name[3] as int) * 0x1_0000 + (name[4] as int) * 0x100 + (
    name.last() as int)
}

/// The position of the name with a code.
spec fn place_of(code: int) -> int {
    if code == 0xd5f6e74 {
        0
    } else if code == 0xd5f6974 {
        1
    } else if code == 0x115f6e6f {
        2
    } else if code == 0xd5f736c {
        3
    } else if code == 0x165f6265 {
        4
    } else if code == 0xc747972 {
        5
    } else if code == 0x66b5f30 {
        6
    } else if code == 0xe5f736d {
        7
    } else if code == 0x15616464 {
        8
    } else if code == 0x18707574 {
        9
    } else if code == 0xd656765 {
        10
    } else if code == 0xb617465 {
        11
    } else if code == 0xc6e7470 {
        12
    } else if code == 0x12726964 {
        13
    } else if code == 0xb696479 {
        14
    } else if code == 0xa726565 {
        15
    } else if code == 0xc747265 {
        16
    } else if code == 0x9636f74 {
        17
    } else if code == 0xa737165 {
        18
    } else if code == 0xc756e65 {
        19
    } else if code == 0x8736865 {
        20
    } else if code == 0x7736965 {
        21
    } else if code == 0x8736c65 {
        22
    } else if code == 0x6706164 {
        23
    } else if code == 0x9676172 {
        24
    } else if code == 0x8776865 {
        25
    } else if code == 0x7636174 {
        26
    } else if code == 0x865716c {
        27
    } else if code == 0xa677272 {
        28
    } else if code == 0x76c6573 {
        29
    } else if code == 0x6616e64 {
        30
    } else if code == 0x56f7272 {
        31
    } else if code == 0x6786f72 {
        32
    } else if code == 0x66e6f74 {
        33
    } else if code == 0x6616464 {
        34
    } else if code == 0x6737562 {
        35
    } else if code == 0x66d756c {
        36
    } else if code == 0x6646976 {
        37
    } else if code == 0x66d696e {
        38
    } else if code == 0x66d6178 {
        39
    } else if code == 0x6616273 {
        40
    } else if code == 0x66e6567 {
        41
    } else if code == 0x773696e {
        42
    } else if code == 0x7737174 {
        43
    } else if code == 0x8666c72 {
        44
    } else if code == 0x763656c {
        45
    } else if code == 0x8726f64 {
        46
    } else if code == 0x11717572 {
        47
    } else if code == 0x13646572 {
        48
    } else if code == 0x106d6172 {
        49
    } else if code == 0x18647972 {
        50
    } else if code == 0xb657433 {
        51
    } else if code == 0xb657434 {
        52
    } else if code == 0xb657439 {
        53
    } else if code == 0xb657431 {
        54
    } else {
        55
    }
}

proof fn lemma_place_of(i: int)
    requires
        0 <= i < 55,
    ensures
        place_of(code_of(FEATURES[i]@)) == i,
{
    if i == 0 {
        reveal_strlit("has_nan_input");
        assert(code_of("has_nan_input"@) == 0xd5f6e74);
    }
    if i == 1 {
        reveal_strlit("has_inf_input");
        assert(code_of("has_inf_input"@) == 0xd5f6974);
    }
    if i == 2 {
        reveal_strlit("has_negative_zero");
        assert(code_of("has_negative_zero"@) == 0x115f6e6f);
    }
    if i == 3 {
        reveal_strlit("has_subnormal");
        assert(code_of("has_subnormal"@) == 0xd5f736c);
    }
    if i == 4 {
        reveal_strlit("has_boundary_magnitude");
        assert(code_of("has_boundary_magnitude"@) == 0x165f6265);
    }
    if i == 5 {
        reveal_strlit("empty_tensor");
        assert(code_of("empty_tensor"@) == 0xc747972);
    }
    if i == 6 {
        reveal_strlit("rank_0");
        assert(code_of("rank_0"@) == 0x66b5f30);
    }
    if i == 7 {
        reveal_strlit("has_size_1_dim");
        assert(code_of("has_size_1_dim"@) == 0xe5f736d);
    }
    if i == 8 {
        reveal_strlit("broadcasting_required");
        assert(code_of("broadcasting_required"@) == 0x15616464);
    }
    if i == 9 {
        reveal_strlit("output_larger_than_input");
        assert(code_of("output_larger_than_input"@) == 0x18707574);
    }
    if i == 10 {
        reveal_strlit("integer_dtype");
        assert(code_of("integer_dtype"@) == 0xd656765);
    }
    if i == 11 {
        reveal_strlit("float_dtype");
        assert(code_of("float_dtype"@) == 0xb617465);
    }
    if i == 12 {
        reveal_strlit("quantized_op");
        assert(code_of("quantized_op"@) == 0xc6e7470);
    }
    if i == 13 {
        reveal_strlit("attribute_at_bound");
        assert(code_of("attribute_at_bound"@) == 0x12726964);
    }
    if i == 14 {
        reveal_strlit("op_identity");
        assert(code_of("op_identity"@) == 0xb696479);
    }
    if i == 15 {
        reveal_strlit("op_reshape");
        assert(code_of("op_reshape"@) == 0xa726565);
    }
    if i == 16 {
        reveal_strlit("op_transpose");
        assert(code_of("op_transpose"@) == 0xc747265);
    }
    if i == 17 {
        reveal_strlit("op_concat");
        assert(code_of("op_concat"@) == 0x9636f74);
    }
    if i == 18 {
        reveal_strlit("op_squeeze");
        assert(code_of("op_squeeze"@) == 0xa737165);
    }
    if i == 19 {
        reveal_strlit("op_unsqueeze");
        assert(code_of("op_unsqueeze"@) == 0xc756e65);
    }
    if i == 20 {
        reveal_strlit("op_shape");
        assert(code_of("op_shape"@) == 0x8736865);
    }
    if i == 21 {
        reveal_strlit("op_size");
        assert(code_of("op_size"@) == 0x7736965);
    }
    if i == 22 {
        reveal_strlit("op_slice");
        assert(code_of("op_slice"@) == 0x8736c65);
    }
    if i == 23 {
        reveal_strlit("op_pad");
        assert(code_of("op_pad"@) == 0x6706164);
    }
    if i == 24 {
        reveal_strlit("op_gather");
        assert(code_of("op_gather"@) == 0x9676172);
    }
    if i == 25 {
        reveal_strlit("op_where");
        assert(code_of("op_where"@) == 0x8776865);
    }
    if i == 26 {
        reveal_strlit("op_cast");
        assert(code_of("op_cast"@) == 0x7636174);
    }
    if i == 27 {
        reveal_strlit("op_equal");
        assert(code_of("op_equal"@) == 0x865716c);
    }
    if i == 28 {
        reveal_strlit("op_greater");
        assert(code_of("op_greater"@) == 0xa677272);
    }
    if i == 29 {
        reveal_strlit("op_less");
        assert(code_of("op_less"@) == 0x76c6573);
    }
    if i == 30 {
        reveal_strlit("op_and");
        assert(code_of("op_and"@) == 0x6616e64);
    }
    if i == 31 {
        reveal_strlit("op_or");
        assert(code_of("op_or"@) == 0x56f7272);
    }
    if i == 32 {
        reveal_strlit("op_xor");
        assert(code_of("op_xor"@) == 0x6786f72);
    }
    if i == 33 {
        reveal_strlit("op_not");
        assert(code_of("op_not"@) == 0x66e6f74);
    }
    if i == 34 {
        reveal_strlit("op_add");
        assert(code_of("op_add"@) == 0x6616464);
    }
    if i == 35 {
        reveal_strlit("op_sub");
        assert(code_of("op_sub"@) == 0x6737562);
    }
    if i == 36 {
        reveal_strlit("op_mul");
        assert(code_of("op_mul"@) == 0x66d756c);
    }
    if i == 37 {
        reveal_strlit("op_div");
        assert(code_of("op_div"@) == 0x6646976);
    }
    if i == 38 {
        reveal_strlit("op_min");
        assert(code_of("op_min"@) == 0x66d696e);
    }
    if i == 39 {
        reveal_strlit("op_max");
        assert(code_of("op_max"@) == 0x66d6178);
    }
    if i == 40 {
        reveal_strlit("op_abs");
        assert(code_of("op_abs"@) == 0x6616273);
    }
    if i == 41 {
        reveal_strlit("op_neg");
        assert(code_of("op_neg"@) == 0x66e6567);
    }
    if i == 42 {
        reveal_strlit("op_sign");
        assert(code_of("op_sign"@) == 0x773696e);
    }
    if i == 43 {
        reveal_strlit("op_sqrt");
        assert(code_of("op_sqrt"@) == 0x7737174);
    }
    if i == 44 {
        reveal_strlit("op_floor");
        assert(code_of("op_floor"@) == 0x8666c72);
    }
    if i == 45 {
        reveal_strlit("op_ceil");
        assert(code_of("op_ceil"@) == 0x763656c);
    }
    if i == 46 {
        reveal_strlit("op_round");
        assert(code_of("op_round"@) == 0x8726f64);
    }
    if i == 47 {
        reveal_strlit("op_quantizelinear");
        assert(code_of("op_quantizelinear"@) == 0x11717572);
    }
    if i == 48 {
        reveal_strlit("op_dequantizelinear");
        assert(code_of("op_dequantizelinear"@) == 0x13646572);
    }
    if i == 49 {
        reveal_strlit("op_matmulinteger");
        assert(code_of("op_matmulinteger"@) == 0x106d6172);
    }
    if i == 50 {
        reveal_strlit("op_dynamicquantizelinear");
        assert(code_of("op_dynamicquantizelinear"@) == 0x18647972);
    }
    if i == 51 {
        reveal_strlit("opset_ge_13");
        assert(code_of("opset_ge_13"@) == 0xb657433);
    }
    if i == 52 {
        reveal_strlit("opset_ge_14");
        assert(code_of("opset_ge_14"@) == 0xb657434);
    }
    if i == 53 {
        reveal_strlit("opset_ge_19");
        assert(code_of("opset_ge_19"@) == 0xb657439);
    }
    if i == 54 {
        reveal_strlit("opset_ge_21");
        assert(code_of("opset_ge_21"@) == 0xb657431);
    }
}

/// No two features have the same name.
pub proof fn lemma_feature_names_differ(i: int, j: int)
    requires
        0 <= i < 55,
        0 <= j < 55,
        i != j,
    ensures
        FEATURES[i]@ != FEATURES[j]@,
{
    lemma_place_of(i);
    lemma_place_of(j);
}

/// A feature is found under its name.
pub proof fn lemma_a_feature_is_found(i: int)
    requires
        0 <= i < 55,
    ensures
        feature_index(FEATURES[i]@) == i,
{
    let k = feature_index(FEATURES[i]@);
    lemma_feature_index(FEATURES[i]@);
    if k < 55 && k != i {
        lemma_feature_names_differ(k, i);
    }
}

proof fn lemma_names_upto(word: u64, n: nat)
    requires
        n <= 55,
    ensures
        names_upto(word, n).len() == ones(word, n),
        forall|a: int|
            0 <= a < names_upto(word, n).len() ==> {
                let k = feature_index(#[trigger] names_upto(word, n)[a]);
                0 <= k < n && has_bit(word, k as u64)
            },
        forall|a: int, b: int|
            0 <= a < b < names_upto(word, n).len() ==> feature_index(
                #[trigger] names_upto(word, n)[a],
            ) < feature_index(#[trigger] names_upto(word, n)[b]),
        forall|k: int|
            0 <= k < n && has_bit(word, k as u64) ==> names_upto(word, n).contains(
                #[trigger] FEATURES[k]@,
            ),
    decreases n,
{
    if n > 0 {
        lemma_names_upto(word, (n - 1) as nat);
        lemma_a_feature_is_found(n - 1);
        let rest = names_upto(word, (n - 1) as nat);
        let all = names_upto(word, n);
        assert forall|k: int| 0 <= k < n && has_bit(word, k as u64) implies all.contains(
            #[trigger] FEATURES[k]@,
        ) by {
            if k < n - 1 {
                assert(rest.contains(FEATURES[k]@));
                let a = choose|a: int| 0 <= a < rest.len() && rest[a] == FEATURES[k]@;
                assert(all[a] == rest[a]);
            } else {
                assert(all[all.len() - 1] == FEATURES[k]@);
            }
        }
    }
}

/// The names of a word are those of the features that hold, each once and in the order of the
/// vocabulary: a name is among them exactly where asking for it says so. Where no other bit is set,
/// there are as many as there are bits.
pub proof fn lemma_names_are_what_holds(word: u64, name: Seq<char>)
    ensures
        names_upto(word, 55).contains(name) <==> feature_index(name) < 55 && has_bit(
            word,
            feature_index(name) as u64,
        ),
        names_upto(word, 55).no_duplicates(),
        forall|a: int, b: int|
            0 <= a < b < names_upto(word, 55).len() ==> feature_index(
                #[trigger] names_upto(word, 55)[a],
            ) < feature_index(#[trigger] names_upto(word, 55)[b]),
        word >> 55 == 0 ==> ones(word, 64) == names_upto(word, 55).len(),
{
    let all = names_upto(word, 55);
    lemma_names_upto(word, 55);
    lemma_feature_index(name);
    if all.contains(name) {
        let a = choose|a: int| 0 <= a < all.len() && all[a] == name;
        assert(feature_index(all[a]) < 55);
    }
    if feature_index(name) < 55 && has_bit(word, feature_index(name) as u64) {
        assert(all.contains(FEATURES[feature_index(name)]@));
    }
    assert forall|a: int, b: int| 0 <= a < all.len() && 0 <= b < all.len() && a != b implies all[a]
        != all[b] by {
        if a < b {
            assert(feature_index(all[a]) < feature_index(all[b]));
        } else {
            assert(feature_index(all[b]) < feature_index(all[a]));
        }
    }
    if word >> 55 == 0 {
        reveal_with_fuel(ones, 10);
        assert forall|k: u64| 55 <= k < 64 implies !has_bit(word, k) by {
            assert(word & (1u64 << k) == 0) by (bit_vector)
                requires
                    word >> 55 == 0,
                    55 <= k < 64,
            ;
        }
        assert(!has_bit(word, 55) && !has_bit(word, 56) && !has_bit(word, 57));
        assert(!has_bit(word, 58) && !has_bit(word, 59) && !has_bit(word, 60));
        assert(!has_bit(word, 61) && !has_bit(word, 62) && !has_bit(word, 63));
    }
}

} // verus!
