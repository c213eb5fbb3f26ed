//! Reducing a divergence to a case that someone can act on.
//!
//! A reduction must be strictly simpler than what it came from, which makes the search end, and it
//! must be legal, which makes reductions that touch several parts of a case safe. Moves are
//! proposed freely, and whatever breaks a coupling between parts of a case is thrown away.

use vstd::prelude::*;

use crate::attrs::{lookup, AttrModel, AttrValue, Attrs};
use crate::bits::{F32_ONE, F32_ZERO, F64_ONE};
use crate::case::{any_negative, clone_tensors, product, tensors_model, CaseModel, DataModel};
use crate::case::OnnxCase;
use crate::case::{TensorData, TensorModel, TensorValue};
use crate::ops::{copy_dims, op_spec};
use crate::text::same_text;
use crate::validation::{is_valid, valid};

verus! {

// ---- how complex a case is ----

/// How complex a case is. The parts are compared in order: fewer elements beat a lower rank, which
/// beats fewer inputs, which beat simpler values, which beat smaller attributes, which beat a lower
/// opset version.
#[derive(Debug, Clone, Copy, PartialEq, Eq, PartialOrd, Ord)]
pub struct Complexity {
    /// The elements of all inputs.
    pub elements: usize,
    /// The ranks of all inputs, summed.
    pub rank_sum: usize,
    pub inputs: usize,
    /// The values that are neither zero nor one.
    pub nontrivial_values: usize,
    /// The magnitudes of all integer attributes, summed.
    pub attribute_weight: i64,
    pub opset: i64,
}

/// What a [`Complexity`] holds.
pub struct Measure {
    pub elements: int,
    pub rank_sum: int,
    pub inputs: int,
    pub nontrivial_values: int,
    pub attribute_weight: int,
    pub opset: int,
}

impl View for Complexity {
    type V = Measure;

    open spec fn view(&self) -> Measure {
        Measure {
            elements: self.elements as int,
            rank_sum: self.rank_sum as int,
            inputs: self.inputs as int,
            nontrivial_values: self.nontrivial_values as int,
            attribute_weight: self.attribute_weight as int,
            opset: self.opset as int,
        }
    }
}

/// Whether a measure comes before another.
pub open spec fn simpler(a: Measure, b: Measure) -> bool {
    if a.elements != b.elements {
        a.elements < b.elements
    } else if a.rank_sum != b.rank_sum {
        a.rank_sum < b.rank_sum
    } else if a.inputs != b.inputs {
        a.inputs < b.inputs
    } else if a.nontrivial_values != b.nontrivial_values {
        a.nontrivial_values < b.nontrivial_values
    } else if a.attribute_weight != b.attribute_weight {
        a.attribute_weight < b.attribute_weight
    } else {
        a.opset < b.opset
    }
}

/// Whether a value is zero or one. Floating-point values are compared by their patterns, so minus
/// zero is not trivial.
pub open spec fn is_trivial(d: DataModel, k: int) -> bool {
    match d {
        DataModel::F32(v) => v[k] == F32_ZERO || v[k] == F32_ONE,
        DataModel::F64(v) => v[k] == 0 || v[k] == F64_ONE,
        DataModel::I32(v) => v[k] == 0 || v[k] == 1,
        DataModel::I64(v) => v[k] == 0 || v[k] == 1,
        DataModel::I8(v) => v[k] == 0 || v[k] == 1,
        DataModel::U8(v) => v[k] == 0 || v[k] == 1,
        DataModel::Bool(v) => !v[k],
    }
}

/// How many of the first `n` values are not trivial.
pub open spec fn nontrivial_upto(d: DataModel, n: nat) -> nat
    decreases n,
{
    if n == 0 {
        0
    } else {
        nontrivial_upto(d, (n - 1) as nat) + if is_trivial(d, n - 1) {
            0nat
        } else {
            1nat
        }
    }
}

/// The elements of the first `n` inputs.
pub open spec fn elements_upto(inputs: Seq<TensorModel>, n: nat) -> nat
    decreases n,
{
    if n == 0 {
        0
    } else {
        elements_upto(inputs, (n - 1) as nat) + inputs[n - 1].data.len()
    }
}

/// The ranks of the first `n` inputs, summed.
pub open spec fn ranks_upto(inputs: Seq<TensorModel>, n: nat) -> nat
    decreases n,
{
    if n == 0 {
        0
    } else {
        ranks_upto(inputs, (n - 1) as nat) + inputs[n - 1].dims.len()
    }
}

/// The values of the first `n` inputs that are not trivial.
pub open spec fn values_upto(inputs: Seq<TensorModel>, n: nat) -> nat
    decreases n,
{
    if n == 0 {
        0
    } else {
        values_upto(inputs, (n - 1) as nat) + nontrivial_upto(
            inputs[n - 1].data,
            inputs[n - 1].data.len(),
        )
    }
}

pub open spec fn magnitude(v: i64) -> nat {
    (if v < 0 {
        -v
    } else {
        v as int
    }) as nat
}

/// The magnitudes of the first `n` numbers, summed.
pub open spec fn magnitudes_upto(v: Seq<i64>, n: nat) -> nat
    decreases n,
{
    if n == 0 {
        0
    } else {
        magnitudes_upto(v, (n - 1) as nat) + magnitude(v[n - 1])
    }
}

/// The magnitude of an attribute.
pub open spec fn weight(value: AttrModel) -> nat {
    match value {
        AttrModel::Int(v) => magnitude(v),
        AttrModel::Ints(v) => magnitudes_upto(v, v.len()),
        _ => 0,
    }
}

/// The magnitudes of the first `n` attributes, summed.
pub open spec fn weights_upto(attrs: Seq<(Seq<char>, AttrModel)>, n: nat) -> nat
    decreases n,
{
    if n == 0 {
        0
    } else {
        weights_upto(attrs, (n - 1) as nat) + weight(attrs[n - 1].1)
    }
}

/// How complex a case is. Every part of the case counts, because a part that did not could never
/// be reduced.
pub open spec fn measure_of(c: CaseModel) -> Measure {
    Measure {
        elements: elements_upto(c.inputs, c.inputs.len()) as int,
        rank_sum: ranks_upto(c.inputs, c.inputs.len()) as int,
        inputs: c.inputs.len() as int,
        nontrivial_values: values_upto(c.inputs, c.inputs.len()) as int,
        attribute_weight: weights_upto(c.attrs, c.attrs.len()) as int,
        opset: c.opset as int,
    }
}

/// Whether a measure fits this machine's integers.
pub open spec fn weighable(c: CaseModel) -> bool {
    let m = measure_of(c);
    m.elements <= usize::MAX && m.rank_sum <= usize::MAX && m.attribute_weight <= i64::MAX
}

proof fn lemma_nontrivial_bound(d: DataModel, n: nat)
    ensures
        nontrivial_upto(d, n) <= n,
    decreases n,
{
    if n > 0 {
        lemma_nontrivial_bound(d, (n - 1) as nat);
    }
}

proof fn lemma_sums_grow(inputs: Seq<TensorModel>, a: nat, b: nat)
    requires
        a <= b,
    ensures
        elements_upto(inputs, a) <= elements_upto(inputs, b),
        ranks_upto(inputs, a) <= ranks_upto(inputs, b),
        values_upto(inputs, a) <= elements_upto(inputs, a),
    decreases b,
{
    if a < b {
        lemma_sums_grow(inputs, a, (b - 1) as nat);
    } else if a > 0 {
        lemma_sums_grow(inputs, (a - 1) as nat, (a - 1) as nat);
        lemma_nontrivial_bound(inputs[a - 1].data, inputs[a - 1].data.len());
    }
}

proof fn lemma_magnitudes_grow(v: Seq<i64>, a: nat, b: nat)
    requires
        a <= b,
    ensures
        magnitudes_upto(v, a) <= magnitudes_upto(v, b),
    decreases b,
{
    if a < b {
        lemma_magnitudes_grow(v, a, (b - 1) as nat);
    }
}

proof fn lemma_weights_grow(attrs: Seq<(Seq<char>, AttrModel)>, a: nat, b: nat)
    requires
        a <= b,
    ensures
        weights_upto(attrs, a) <= weights_upto(attrs, b),
    decreases b,
{
    if a < b {
        lemma_weights_grow(attrs, a, (b - 1) as nat);
    }
}

/// Whether one value is trivial.
fn trivial_at(data: &TensorData, k: usize) -> (r: bool)
    requires
        k < data@.len(),
    ensures
        r == is_trivial(data@, k as int),
{
    match data {
        TensorData::F32(v) => v[k] == F32_ZERO || v[k] == F32_ONE,
        TensorData::F64(v) => v[k] == 0 || v[k] == F64_ONE,
        TensorData::I32(v) => v[k] == 0 || v[k] == 1,
        TensorData::I64(v) => v[k] == 0 || v[k] == 1,
        TensorData::I8(v) => v[k] == 0 || v[k] == 1,
        TensorData::U8(v) => v[k] == 0 || v[k] == 1,
        TensorData::Bool(v) => !v[k],
    }
}

/// How many values are neither zero nor one.
fn count_nontrivial(data: &TensorData) -> (r: usize)
    ensures
        r == nontrivial_upto(data@, data@.len()),
        r <= data@.len(),
{
    let total: usize = data.len();
    let mut count: usize = 0;
    let mut k: usize = 0;
    while k < total
        invariant
            k <= total == data@.len(),
            count == nontrivial_upto(data@, k as nat),
            count <= k,
        decreases total - k,
    {
        if !trivial_at(data, k) {
            count += 1;
        }
        k += 1;
    }
    count
}

/// A number's magnitude, if it fits.
fn magnitude_of(v: i64) -> (r: Option<i64>)
    ensures
        r is Some <==> magnitude(v) <= i64::MAX,
        r matches Some(m) ==> m == magnitude(v),
{
    if v == i64::MIN {
        None
    } else if v < 0 {
        Some(-v)
    } else {
        Some(v)
    }
}

/// The magnitude of an attribute, if it fits.
fn weight_of(value: &AttrValue) -> (r: Option<i64>)
    ensures
        r is Some <==> weight(value@) <= i64::MAX,
        r matches Some(w) ==> w == weight(value@),
{
    match value {
        AttrValue::Int(v) => magnitude_of(*v),
        AttrValue::Ints(v) => {
            let mut sum: i64 = 0;
            let mut k: usize = 0;
            while k < v.len()
                invariant
                    k <= v.len(),
                    value@ == AttrModel::Ints(v@),
                    sum == magnitudes_upto(v@, k as nat),
                    sum >= 0,
                decreases v.len() - k,
            {
                proof {
                    lemma_magnitudes_grow(v@, (k + 1) as nat, v@.len());
                }
                match magnitude_of(v[k]) {
                    None => {
                        return None;
                    },
                    Some(m) => match sum.checked_add(m) {
                        None => {
                            return None;
                        },
                        Some(s) => {
                            sum = s;
                        },
                    },
                }
                k += 1;
            }
            Some(sum)
        },
        _ => Some(0),
    }
}

/// The magnitudes of all attributes, summed, if they fit.
fn attribute_weight(attrs: &Attrs) -> (r: Option<i64>)
    ensures
        r is Some <==> weights_upto(attrs@, attrs@.len()) <= i64::MAX,
        r matches Some(w) ==> w == weights_upto(attrs@, attrs@.len()),
{
    let mut sum: i64 = 0;
    let mut k: usize = 0;
    let total: usize = attrs.len();
    while k < total
        invariant
            k <= total == attrs@.len(),
            sum == weights_upto(attrs@, k as nat),
            sum >= 0,
        decreases total - k,
    {
        proof {
            lemma_weights_grow(attrs@, (k + 1) as nat, attrs@.len());
        }
        match weight_of(attrs.at(k).1) {
            None => {
                return None;
            },
            Some(w) => match sum.checked_add(w) {
                None => {
                    return None;
                },
                Some(s) => {
                    sum = s;
                },
            },
        }
        k += 1;
    }
    Some(sum)
}

/// How complex a case is, if that fits this machine's integers.
pub fn weigh(case: &OnnxCase) -> (r: Option<Complexity>)
    ensures
        r is Some <==> weighable(case@),
        r matches Some(c) ==> c@ == measure_of(case@),
{
    let mut elements: usize = 0;
    let mut rank_sum: usize = 0;
    let mut nontrivial_values: usize = 0;
    let mut i: usize = 0;
    while i < case.inputs.len()
        invariant
            i <= case.inputs.len(),
            elements == elements_upto(case@.inputs, i as nat),
            rank_sum == ranks_upto(case@.inputs, i as nat),
            nontrivial_values == values_upto(case@.inputs, i as nat),
        decreases case.inputs.len() - i,
    {
        proof {
            assert(case@.inputs[i as int] == case.inputs@[i as int]@);
            lemma_sums_grow(case@.inputs, (i + 1) as nat, case@.inputs.len());
        }
        match elements.checked_add(case.inputs[i].data.len()) {
            None => {
                return None;
            },
            Some(s) => {
                elements = s;
            },
        }
        match rank_sum.checked_add(case.inputs[i].dims.len()) {
            None => {
                return None;
            },
            Some(s) => {
                rank_sum = s;
            },
        }
        nontrivial_values = nontrivial_values + count_nontrivial(&case.inputs[i].data);
        i += 1;
    }
    match attribute_weight(&case.attrs) {
        None => None,
        Some(attribute_weight) => Some(
            Complexity {
                elements,
                rank_sum,
                inputs: case.inputs.len(),
                nontrivial_values,
                attribute_weight,
                opset: case.opset,
            },
        ),
    }
}

/// How complex a case is.
pub fn complexity(case: &OnnxCase) -> (r: Complexity)
    requires
        weighable(case@),
    ensures
        r@ == measure_of(case@),
{
    weigh(case).unwrap()
}

impl Complexity {
    /// Whether this is strictly less complex.
    pub fn is_below(&self, other: &Complexity) -> (r: bool)
        ensures
            r == simpler(self@, other@),
    {
        if self.elements != other.elements {
            self.elements < other.elements
        } else if self.rank_sum != other.rank_sum {
            self.rank_sum < other.rank_sum
        } else if self.inputs != other.inputs {
            self.inputs < other.inputs
        } else if self.nontrivial_values != other.nontrivial_values {
            self.nontrivial_values < other.nontrivial_values
        } else if self.attribute_weight != other.attribute_weight {
            self.attribute_weight < other.attribute_weight
        } else {
            self.opset < other.opset
        }
    }
}

// ---- cutting a tensor ----

/// The part of a row-major tensor with `outer` blocks of `extent` rows of `inner` elements that
/// keeps `len` rows of each block, from `start` on. A position that is not there reads as zero.
pub open spec fn sliced<T>(
    v: Seq<T>,
    zero: T,
    outer: int,
    extent: int,
    inner: int,
    start: int,
    len: int,
) -> Seq<T> {
    Seq::new(
        (outer * len * inner) as nat,
        |t: int| {
            let at = source_index(t, extent, inner, start, len);
            if at < v.len() {
                v[at]
            } else {
                zero
            }
        },
    )
}

/// Where the element at position `t` of a slice comes from.
pub open spec fn source_index(t: int, extent: int, inner: int, start: int, len: int) -> int {
    ((t / (len * inner)) * extent + start + (t / inner) % len) * inner + t % inner
}

proof fn lemma_source_index(t: int, outer: int, extent: int, inner: int, start: int, len: int)
    requires
        0 <= t < outer * len * inner,
        1 <= len,
        1 <= inner,
        0 <= start,
        start + len <= extent,
    ensures
        0 <= t / (len * inner) < outer,
        0 <= (t / inner) % len < len,
        0 <= t % inner < inner,
        0 <= source_index(t, extent, inner, start, len) < outer * extent * inner,
        0 <= (t / (len * inner)) * extent + start + (t / inner) % len < outer * extent,
        1 <= len * inner,
        outer * len * inner <= outer * extent * inner,
{
    let block = len * inner;
    assert(block >= 1) by (nonlinear_arith)
        requires
            len >= 1,
            inner >= 1,
            block == len * inner,
    ;
    assert(outer * len * inner == outer * block) by (nonlinear_arith)
        requires
            block == len * inner,
    ;
    let o = t / block;
    assert(0 <= o < outer) by (nonlinear_arith)
        requires
            0 <= t < outer * block,
            block >= 1,
            o == t / block,
    ;
    let e = (t / inner) % len;
    let i = t % inner;
    assert(0 <= e < len);
    assert(0 <= i < inner);
    let row = o * extent + start + e;
    assert(0 <= row < outer * extent) by (nonlinear_arith)
        requires
            0 <= o < outer,
            0 <= start,
            0 <= e < len,
            start + len <= extent,
            row == o * extent + start + e,
    ;
    assert(0 <= row * inner + i < outer * extent * inner) by (nonlinear_arith)
        requires
            0 <= row < outer * extent,
            0 <= i < inner,
            inner >= 1,
    ;
    assert(outer * len * inner <= outer * extent * inner) by (nonlinear_arith)
        requires
            0 <= o < outer,
            1 <= len <= extent,
            inner >= 1,
    ;
}

/// The part of a list that a slice keeps.
fn pick<T: Copy>(
    values: &Vec<T>,
    zero: T,
    outer: usize,
    extent: usize,
    inner: usize,
    start: usize,
    len: usize,
) -> (r: Vec<T>)
    requires
        start + len <= extent,
        outer * extent * inner <= usize::MAX,
    ensures
        r@ == sliced(
            values@,
            zero,
            outer as int,
            extent as int,
            inner as int,
            start as int,
            len as int,
        ),
{
    let mut out: Vec<T> = Vec::new();
    if outer == 0 || len == 0 || inner == 0 {
        proof {
            assert(outer * len * inner == 0) by (nonlinear_arith)
                requires
                    outer == 0 || len == 0 || inner == 0,
            ;
            assert(out@ =~= sliced(
                values@,
                zero,
                outer as int,
                extent as int,
                inner as int,
                start as int,
                len as int,
            ));
        }
        return out;
    }
    proof {
        assert(outer * len * inner > 0) by (nonlinear_arith)
            requires
                outer >= 1,
                len >= 1,
                inner >= 1,
        ;
        lemma_source_index(
            0,
            outer as int,
            extent as int,
            inner as int,
            start as int,
            len as int,
        );
        assert(len * inner <= outer * len * inner) by (nonlinear_arith)
            requires
                outer >= 1,
                len >= 1,
                inner >= 1,
        ;
        assert(outer * len <= outer * len * inner) by (nonlinear_arith)
            requires
                outer >= 1,
                len >= 1,
                inner >= 1,
        ;
    }
    let block: usize = len * inner;
    let total: usize = outer * len * inner;
    let mut t: usize = 0;
    while t < total
        invariant
            t <= total,
            total == outer * len * inner,
            block == len * inner,
            1 <= len,
            1 <= inner,
            start + len <= extent,
            outer * extent * inner <= usize::MAX,
            out.len() == t,
            forall|k: int|
                0 <= k < t ==> #[trigger] out@[k] == sliced(
                    values@,
                    zero,
                    outer as int,
                    extent as int,
                    inner as int,
                    start as int,
                    len as int,
                )[k],
        decreases total - t,
    {
        proof {
            lemma_source_index(
                t as int,
                outer as int,
                extent as int,
                inner as int,
                start as int,
                len as int,
            );
            let o = t as int / block as int;
            assert(o * extent <= o * extent + start + (t as int / inner as int) % len as int);
            assert(outer * extent <= outer * extent * inner) by (nonlinear_arith)
                requires
                    inner >= 1,
                    outer * extent >= 0,
            ;
            assert(0 <= o * extent) by (nonlinear_arith)
                requires
                    o >= 0,
            ;
            let row = o * extent + start + (t as int / inner as int) % len as int;
            assert(0 <= row * inner) by (nonlinear_arith)
                requires
                    row >= 0,
            ;
        }
        let row: usize = (t / block) * extent + start + (t / inner) % len;
        let at: usize = row * inner + t % inner;
        out.push(
            if at < values.len() {
                values[at]
            } else {
                zero
            },
        );
        t += 1;
    }
    assert(out@ =~= sliced(
        values@,
        zero,
        outer as int,
        extent as int,
        inner as int,
        start as int,
        len as int,
    ));
    out
}

/// A slice of a tensor's elements.
pub open spec fn sliced_data(
    d: DataModel,
    outer: int,
    extent: int,
    inner: int,
    start: int,
    len: int,
) -> DataModel {
    match d {
        DataModel::F32(v) => DataModel::F32(sliced(v, F32_ZERO, outer, extent, inner, start, len)),
        DataModel::F64(v) => DataModel::F64(sliced(v, 0u64, outer, extent, inner, start, len)),
        DataModel::I32(v) => DataModel::I32(sliced(v, 0i32, outer, extent, inner, start, len)),
        DataModel::I64(v) => DataModel::I64(sliced(v, 0i64, outer, extent, inner, start, len)),
        DataModel::Bool(v) => DataModel::Bool(sliced(v, false, outer, extent, inner, start, len)),
        DataModel::I8(v) => DataModel::I8(sliced(v, 0i8, outer, extent, inner, start, len)),
        DataModel::U8(v) => DataModel::U8(sliced(v, 0u8, outer, extent, inner, start, len)),
    }
}

fn slice_data(
    data: &TensorData,
    outer: usize,
    extent: usize,
    inner: usize,
    start: usize,
    len: usize,
) -> (r: TensorData)
    requires
        start + len <= extent,
        outer * extent * inner <= usize::MAX,
    ensures
        r@ == sliced_data(
            data@,
            outer as int,
            extent as int,
            inner as int,
            start as int,
            len as int,
        ),
{
    match data {
        TensorData::F32(v) => TensorData::F32(
            pick(v, F32_ZERO, outer, extent, inner, start, len),
        ),
        TensorData::F64(v) => TensorData::F64(pick(v, 0, outer, extent, inner, start, len)),
        TensorData::I32(v) => TensorData::I32(pick(v, 0, outer, extent, inner, start, len)),
        TensorData::I64(v) => TensorData::I64(pick(v, 0, outer, extent, inner, start, len)),
        TensorData::Bool(v) => TensorData::Bool(pick(v, false, outer, extent, inner, start, len)),
        TensorData::I8(v) => TensorData::I8(pick(v, 0, outer, extent, inner, start, len)),
        TensorData::U8(v) => TensorData::U8(pick(v, 0, outer, extent, inner, start, len)),
    }
}

/// A shape in which extents of zero count as one.
pub open spec fn solid(dims: Seq<i64>) -> Seq<i64> {
    Seq::new(dims.len(), |i: int| if dims[i] < 1 { 1i64 } else { dims[i] })
}

/// Whether a tensor can be cut on this machine: its extents are not negative, and the product of
/// those that are not zero can be counted.
pub open spec fn cuttable(dims: Seq<i64>) -> bool {
    !any_negative(dims) && product(solid(dims)) <= usize::MAX
}

/// Whether every tensor of a case can be cut on this machine.
pub open spec fn reducible(c: CaseModel) -> bool {
    forall|i: int| 0 <= i < c.inputs.len() ==> cuttable((#[trigger] c.inputs[i]).dims)
}

proof fn lemma_solid_positive(dims: Seq<i64>)
    ensures
        product(solid(dims)) >= 1,
    decreases dims.len(),
{
    if dims.len() > 0 {
        lemma_solid_positive(dims.drop_last());
        assert(solid(dims).drop_last() =~= solid(dims.drop_last()));
        assert(product(solid(dims.drop_last())) * solid(dims).last() >= 1) by (nonlinear_arith)
            requires
                product(solid(dims.drop_last())) >= 1,
                solid(dims).last() >= 1,
        ;
    }
}

/// The product of a shape is the product of the products of its parts.
pub proof fn lemma_product_splits(a: Seq<i64>, b: Seq<i64>)
    ensures
        product(a + b) == product(a) * product(b),
    decreases b.len(),
{
    if b.len() == 0 {
        assert(a + b =~= a);
        assert(product(a) * 1 == product(a)) by (nonlinear_arith);
    } else {
        lemma_product_splits(a, b.drop_last());
        assert((a + b).drop_last() =~= a + b.drop_last());
        assert(product(a) * (product(b.drop_last()) * b.last()) == (product(a) * product(
            b.drop_last(),
        )) * b.last()) by (nonlinear_arith);
    }
}

/// A shape holds no more than it would if its extents of zero were one.
proof fn lemma_product_below_solid(dims: Seq<i64>)
    requires
        !any_negative(dims),
    ensures
        0 <= product(dims) <= product(solid(dims)),
    decreases dims.len(),
{
    if dims.len() > 0 {
        let front = dims.drop_last();
        assert forall|i: int| 0 <= i < front.len() implies #[trigger] front[i] >= 0 by {
            assert(dims[i] >= 0);
        }
        lemma_product_below_solid(front);
        lemma_solid_positive(front);
        assert(solid(dims).drop_last() =~= solid(front));
        assert(dims.last() >= 0);
        assert(0 <= product(front) * dims.last() <= product(solid(front)) * solid(dims).last())
            by (nonlinear_arith)
            requires
                0 <= product(front) <= product(solid(front)),
                0 <= dims.last() <= solid(dims).last(),
        ;
    }
}

/// What the parts of a shape before and after an axis hold, against the whole.
proof fn lemma_axis_products(dims: Seq<i64>, axis: int)
    requires
        cuttable(dims),
        0 <= axis < dims.len(),
    ensures
        0 <= product(dims.take(axis)) <= usize::MAX,
        0 <= product(dims.skip(axis + 1)) <= usize::MAX,
        0 <= dims[axis] <= usize::MAX,
        0 <= product(dims.take(axis)) * dims[axis] * product(dims.skip(axis + 1)) <= usize::MAX,
{
    let a = dims.take(axis);
    let b = dims.skip(axis + 1);
    let d = dims[axis];
    assert forall|i: int| 0 <= i < a.len() implies #[trigger] a[i] >= 0 by {
        assert(dims[i] >= 0);
    }
    assert forall|i: int| 0 <= i < b.len() implies #[trigger] b[i] >= 0 by {
        assert(dims[axis + 1 + i] >= 0);
    }
    assert(d >= 0);
    lemma_product_below_solid(a);
    lemma_product_below_solid(b);
    lemma_solid_positive(a);
    lemma_solid_positive(b);
    let s = solid(dims)[axis];
    assert(solid(dims) =~= solid(a) + (seq![s] + solid(b)));
    lemma_product_splits(solid(a), seq![s] + solid(b));
    lemma_product_splits(seq![s], solid(b));
    crate::validation::lemma_product_one(s);
    let pa = product(solid(a));
    let pb = product(solid(b));
    assert(pa <= pa * (s * pb) && pb <= pa * (s * pb) && s <= pa * (s * pb)) by (nonlinear_arith)
        requires
            pa >= 1,
            pb >= 1,
            s >= 1,
    ;
    assert(0 <= product(a) * d * product(b) <= pa * (s * pb)) by (nonlinear_arith)
        requires
            0 <= product(a) <= pa,
            0 <= product(b) <= pb,
            0 <= d <= s,
    ;
}

/// The product of the extents from `from` up to, not with, `to`.
fn extents_between(dims: &Vec<i64>, from: usize, to: usize) -> (r: usize)
    requires
        from <= to <= dims.len(),
        cuttable(dims@),
    ensures
        r == product(dims@.subrange(from as int, to as int)),
{
    let ghost part = dims@.subrange(from as int, to as int);
    let mut i: usize = from;
    while i < to
        invariant
            from <= i <= to <= dims.len(),
            part == dims@.subrange(from as int, to as int),
            cuttable(dims@),
            forall|k: int| from <= k < i ==> #[trigger] dims@[k] >= 1,
        decreases to - i,
    {
        if dims[i] == 0 {
            proof {
                assert(part[i - from] == 0);
                crate::validation::lemma_zero_product(part, i - from);
            }
            return 0;
        }
        assert(!(dims@[i as int] < 0));
        i += 1;
    }
    let mut acc: usize = 1;
    i = from;
    while i < to
        invariant
            from <= i <= to <= dims.len(),
            part == dims@.subrange(from as int, to as int),
            cuttable(dims@),
            forall|k: int| from <= k < to ==> #[trigger] dims@[k] >= 1,
            acc == product(dims@.subrange(from as int, i as int)),
        decreases to - i,
    {
        proof {
            let next = dims@.subrange(from as int, i + 1);
            assert(next.drop_last() =~= dims@.subrange(from as int, i as int));
            lemma_part_fits(dims@, from as int, i + 1);
        }
        acc = acc * (dims[i] as usize);
        i += 1;
    }
    acc
}

proof fn lemma_part_fits(dims: Seq<i64>, from: int, to: int)
    requires
        0 <= from < to <= dims.len(),
        cuttable(dims),
    ensures
        0 <= product(dims.subrange(from, to)) <= usize::MAX,
        0 <= dims[to - 1] <= usize::MAX,
{
    let a = dims.take(from);
    let m = dims.subrange(from, to);
    let b = dims.skip(to);
    assert forall|i: int| 0 <= i < m.len() implies #[trigger] m[i] >= 0 by {
        assert(dims[from + i] >= 0);
    }
    lemma_product_below_solid(m);
    lemma_solid_positive(a);
    lemma_solid_positive(b);
    lemma_solid_positive(m);
    assert(solid(dims) =~= solid(a) + (solid(m) + solid(b)));
    lemma_product_splits(solid(a), solid(m) + solid(b));
    lemma_product_splits(solid(m), solid(b));
    let (pa, pm, pb) = (product(solid(a)), product(solid(m)), product(solid(b)));
    assert(pm <= pa * (pm * pb)) by (nonlinear_arith)
        requires
            pa >= 1,
            pm >= 1,
            pb >= 1,
    ;
    lemma_axis_products(dims, to - 1);
}

/// A tensor cut down to `len` positions along an axis, from `start` on. The shape is left to the
/// caller.
pub open spec fn cut(t: TensorModel, axis: int, start: int, len: int) -> DataModel {
    sliced_data(
        t.data,
        product(t.dims.take(axis)),
        t.dims[axis] as int,
        product(t.dims.skip(axis + 1)),
        start,
        len,
    )
}

/// Takes `len` positions along an axis, from `start` on, in row-major order.
fn slice_axis(t: &TensorValue, axis: usize, start: usize, len: usize) -> (r: TensorData)
    requires
        cuttable(t@.dims),
        axis < t@.dims.len(),
        start + len <= t@.dims[axis as int],
    ensures
        r@ == cut(t@, axis as int, start as int, len as int),
{
    proof {
        lemma_axis_products(t@.dims, axis as int);
        assert(t@.dims.take(axis as int) =~= t@.dims.subrange(0, axis as int));
        assert(t@.dims.skip(axis + 1) =~= t@.dims.subrange(axis + 1, t@.dims.len() as int));
    }
    let rank: usize = t.dims.len();
    assert(axis < rank);
    let outer: usize = extents_between(&t.dims, 0, axis);
    let extent: usize = t.dims[axis] as usize;
    let inner: usize = extents_between(&t.dims, axis + 1, rank);
    slice_data(&t.data, outer, extent, inner, start, len)
}

// ---- moves ----

/// One way to make a case simpler.
#[derive(Debug, Clone, Copy, PartialEq, Eq, Structural)]
pub enum Step {
    /// Every value of every data input becomes zero, or one.
    Fill { one: bool },
    /// An axis of every data input is cut to half its extent, or to one, and one end is kept.
    Shorten { axis: usize, back: bool, half: bool },
    /// An axis of every data input is removed.
    DropAxis { axis: usize },
    /// The last input is removed.
    DropInput,
    /// One element of one input becomes zero.
    ZeroElement { input: usize, position: usize },
    /// The opset version becomes the lowest at which the operator has its form.
    LowerOpset,
}

/// Data of the same type and length in which every value is zero, or one. Booleans all become
/// false.
pub open spec fn filled(d: DataModel, one: bool) -> DataModel {
    let n: int = if one {
        1
    } else {
        0
    };
    match d {
        DataModel::F32(v) => DataModel::F32(
            Seq::new(v.len(), |k: int| if one { F32_ONE } else { F32_ZERO }),
        ),
        DataModel::F64(v) => DataModel::F64(
            Seq::new(v.len(), |k: int| if one { F64_ONE } else { 0u64 }),
        ),
        DataModel::I32(v) => DataModel::I32(Seq::new(v.len(), |k: int| n as i32)),
        DataModel::I64(v) => DataModel::I64(Seq::new(v.len(), |k: int| n as i64)),
        DataModel::I8(v) => DataModel::I8(Seq::new(v.len(), |k: int| n as i8)),
        DataModel::U8(v) => DataModel::U8(Seq::new(v.len(), |k: int| n as u8)),
        DataModel::Bool(v) => DataModel::Bool(Seq::new(v.len(), |k: int| false)),
    }
}

/// Data with one value made zero.
pub open spec fn zeroed(d: DataModel, k: int) -> DataModel {
    match d {
        DataModel::F32(v) => DataModel::F32(v.update(k, F32_ZERO)),
        DataModel::F64(v) => DataModel::F64(v.update(k, 0u64)),
        DataModel::I32(v) => DataModel::I32(v.update(k, 0i32)),
        DataModel::I64(v) => DataModel::I64(v.update(k, 0i64)),
        DataModel::I8(v) => DataModel::I8(v.update(k, 0i8)),
        DataModel::U8(v) => DataModel::U8(v.update(k, 0u8)),
        DataModel::Bool(v) => DataModel::Bool(v.update(k, false)),
    }
}

/// The extent that an axis is cut to.
pub open spec fn shorter(extent: i64, half: bool) -> int {
    if half {
        extent as int / 2
    } else if extent >= 1 {
        1
    } else {
        extent as int
    }
}

/// A tensor with an axis cut. An initializer is configuration, so it stays as it is, and so does a
/// tensor without that axis.
pub open spec fn shortened(t: TensorModel, axis: int, back: bool, half: bool) -> TensorModel {
    if t.initializer() || axis >= t.dims.len() || shorter(t.dims[axis], half) == t.dims[axis] {
        t
    } else {
        let len = shorter(t.dims[axis], half);
        let start = if back {
            t.dims[axis] - len
        } else {
            0
        };
        TensorModel { dims: t.dims.update(axis, len as i64), data: cut(t, axis, start, len), ..t }
    }
}

/// A tensor without an axis: what lay at the front of it is kept. The last axis is not removed.
pub open spec fn without_axis(t: TensorModel, axis: int) -> TensorModel {
    if t.initializer() || axis >= t.dims.len() || t.dims.len() <= 1 {
        t
    } else {
        let len: int = if t.dims[axis] >= 1 {
            1
        } else {
            0
        };
        TensorModel { dims: t.dims.remove(axis), data: cut(t, axis, 0, len), ..t }
    }
}

/// The rank of the first data input, or zero.
pub open spec fn first_rank(inputs: Seq<TensorModel>) -> nat
    decreases inputs.len(),
{
    if inputs.len() == 0 {
        0
    } else if !inputs[0].initializer() {
        inputs[0].dims.len()
    } else {
        first_rank(inputs.skip(1))
    }
}

/// The permutation that reverses the axes.
pub open spec fn reversing(rank: nat) -> Seq<i64> {
    Seq::new(rank, |i: int| (rank - 1 - i) as i64)
}

/// The attributes of a case whose first data input now has the given rank: a permutation is one of
/// the rank, so it is made anew.
pub open spec fn refitted(attrs: Seq<(Seq<char>, AttrModel)>, rank: nat) -> Seq<
    (Seq<char>, AttrModel),
> {
    if lookup(attrs, "perm"@) matches Some(AttrModel::Ints(_)) {
        Seq::new(
            attrs.len(),
            |i: int|
                if attrs[i].0 == "perm"@ {
                    ("perm"@, AttrModel::Ints(reversing(rank)))
                } else {
                    attrs[i]
                },
        )
    } else {
        attrs
    }
}

/// A case after a move.
pub open spec fn moved(c: CaseModel, step: Step) -> CaseModel {
    match step {
        Step::Fill { one } => CaseModel {
            inputs: Seq::new(
                c.inputs.len(),
                |i: int|
                    if c.inputs[i].initializer() {
                        c.inputs[i]
                    } else {
                        TensorModel { data: filled(c.inputs[i].data, one), ..c.inputs[i] }
                    },
            ),
            ..c
        },
        Step::Shorten { axis, back, half } => CaseModel {
            inputs: Seq::new(
                c.inputs.len(),
                |i: int| shortened(c.inputs[i], axis as int, back, half),
            ),
            ..c
        },
        Step::DropAxis { axis } => {
            let inputs = Seq::new(c.inputs.len(), |i: int| without_axis(c.inputs[i], axis as int));
            CaseModel { inputs, attrs: refitted(c.attrs, first_rank(inputs)), ..c }
        },
        Step::DropInput => CaseModel { inputs: c.inputs.drop_last(), ..c },
        Step::ZeroElement { input, position } => CaseModel {
            inputs: c.inputs.update(
                input as int,
                TensorModel {
                    data: zeroed(c.inputs[input as int].data, position as int),
                    ..c.inputs[input as int]
                },
            ),
            ..c
        },
        Step::LowerOpset => CaseModel { opset: c.op.since(), ..c },
    }
}

fn constant_data(data: &TensorData, one: bool) -> (r: TensorData)
    ensures
        r@ == filled(data@, one),
{
    let n: usize = data.len();
    let ghost model = filled(data@, one);
    match data {
        TensorData::F32(_) => {
            let v: Vec<u32> = repeated(if one { F32_ONE } else { F32_ZERO }, n);
            assert(v@ =~= model->F32_0);
            TensorData::F32(v)
        },
        TensorData::F64(_) => {
            let v: Vec<u64> = repeated(if one { F64_ONE } else { 0 }, n);
            assert(v@ =~= model->F64_0);
            TensorData::F64(v)
        },
        TensorData::I32(_) => {
            let v: Vec<i32> = repeated(if one { 1 } else { 0 }, n);
            assert(v@ =~= model->I32_0);
            TensorData::I32(v)
        },
        TensorData::I64(_) => {
            let v: Vec<i64> = repeated(if one { 1 } else { 0 }, n);
            assert(v@ =~= model->I64_0);
            TensorData::I64(v)
        },
        TensorData::I8(_) => {
            let v: Vec<i8> = repeated(if one { 1 } else { 0 }, n);
            assert(v@ =~= model->I8_0);
            TensorData::I8(v)
        },
        TensorData::U8(_) => {
            let v: Vec<u8> = repeated(if one { 1 } else { 0 }, n);
            assert(v@ =~= model->U8_0);
            TensorData::U8(v)
        },
        TensorData::Bool(_) => {
            let v: Vec<bool> = repeated(false, n);
            assert(v@ =~= model->Bool_0);
            TensorData::Bool(v)
        },
    }
}

fn repeated<T: Copy>(value: T, n: usize) -> (r: Vec<T>)
    ensures
        r@ == Seq::new(n as nat, |k: int| value),
{
    let mut out: Vec<T> = Vec::new();
    while out.len() < n
        invariant
            out.len() <= n,
            forall|k: int| 0 <= k < out.len() ==> #[trigger] out@[k] == value,
        decreases n - out.len(),
    {
        out.push(value);
    }
    assert(out@ =~= Seq::new(n as nat, |k: int| value));
    out
}

fn zero_at(data: TensorData, k: usize) -> (r: TensorData)
    requires
        k < data@.len(),
    ensures
        r@ == zeroed(data@, k as int),
{
    match data {
        TensorData::F32(v) => {
            let mut v: Vec<u32> = v;
            v.set(k, F32_ZERO);
            TensorData::F32(v)
        },
        TensorData::F64(v) => {
            let mut v: Vec<u64> = v;
            v.set(k, 0);
            TensorData::F64(v)
        },
        TensorData::I32(v) => {
            let mut v: Vec<i32> = v;
            v.set(k, 0);
            TensorData::I32(v)
        },
        TensorData::I64(v) => {
            let mut v: Vec<i64> = v;
            v.set(k, 0);
            TensorData::I64(v)
        },
        TensorData::I8(v) => {
            let mut v: Vec<i8> = v;
            v.set(k, 0);
            TensorData::I8(v)
        },
        TensorData::U8(v) => {
            let mut v: Vec<u8> = v;
            v.set(k, 0);
            TensorData::U8(v)
        },
        TensorData::Bool(v) => {
            let mut v: Vec<bool> = v;
            v.set(k, false);
            TensorData::Bool(v)
        },
    }
}

/// A tensor with an axis cut.
fn reshape_axis(t: &TensorValue, axis: usize, back: bool, half: bool) -> (r: TensorValue)
    requires
        cuttable(t@.dims),
    ensures
        r@ == shortened(t@, axis as int, back, half),
{
    if t.is_initializer() || axis >= t.dims.len() {
        return t.clone();
    }
    let extent: i64 = t.dims[axis];
    proof {
        assert(t@.dims[axis as int] == extent);
        lemma_axis_products(t@.dims, axis as int);
    }
    let len: i64 = if half {
        extent / 2
    } else if extent >= 1 {
        1
    } else {
        extent
    };
    if len == extent {
        return t.clone();
    }
    let start: i64 = if back {
        extent - len
    } else {
        0
    };
    let data: TensorData = slice_axis(t, axis, start as usize, len as usize);
    let mut dims: Vec<i64> = copy_dims(&t.dims);
    dims.set(axis, len);
    TensorValue { name: t.name.clone(), dims, data, role: t.role }
}

/// A tensor without an axis.
fn drop_tensor_axis(t: &TensorValue, axis: usize) -> (r: TensorValue)
    requires
        cuttable(t@.dims),
    ensures
        r@ == without_axis(t@, axis as int),
{
    if t.is_initializer() || axis >= t.dims.len() || t.dims.len() <= 1 {
        return t.clone();
    }
    let extent: i64 = t.dims[axis];
    proof {
        assert(t@.dims[axis as int] == extent);
        lemma_axis_products(t@.dims, axis as int);
    }
    let len: usize = if extent >= 1 {
        1
    } else {
        0
    };
    let data: TensorData = slice_axis(t, axis, 0, len);
    let mut dims: Vec<i64> = copy_dims(&t.dims);
    dims.remove(axis);
    TensorValue { name: t.name.clone(), dims, data, role: t.role }
}

fn rank_of_first(inputs: &Vec<TensorValue>) -> (r: usize)
    ensures
        r == first_rank(tensors_model(inputs@)),
{
    let ghost all = tensors_model(inputs@);
    let mut i: usize = 0;
    assert(all.skip(0) =~= all);
    while i < inputs.len()
        invariant
            i <= inputs.len(),
            all == tensors_model(inputs@),
            first_rank(all.skip(i as int)) == first_rank(all),
        decreases inputs.len() - i,
    {
        assert(all.skip(i as int)[0] == inputs@[i as int]@);
        if !inputs[i].is_initializer() {
            return inputs[i].dims.len();
        }
        assert(all.skip(i as int).skip(1) =~= all.skip(i + 1));
        i += 1;
    }
    0
}

/// The attributes with a permutation made anew for a rank.
fn refit(attrs: &Attrs, rank: usize) -> (r: Attrs)
    requires
        rank <= i64::MAX,
    ensures
        r@ == refitted(attrs@, rank as nat),
{
    let rebuild: bool = match attrs.get("perm") {
        Some(AttrValue::Ints(_)) => true,
        _ => false,
    };
    if !rebuild {
        return attrs.clone();
    }
    let mut out: Attrs = Attrs::new();
    let total: usize = attrs.len();
    let mut i: usize = 0;
    while i < total
        invariant
            i <= total == attrs@.len(),
            rank <= i64::MAX,
            out@.len() == i,
            forall|k: int|
                0 <= k < i ==> #[trigger] out@[k] == (if attrs@[k].0 == "perm"@ {
                    ("perm"@, AttrModel::Ints(reversing(rank as nat)))
                } else {
                    attrs@[k]
                }),
        decreases total - i,
    {
        let (name, value): (&str, &AttrValue) = attrs.at(i);
        if same_text(name, "perm") {
            let mut order: Vec<i64> = Vec::new();
            let mut k: usize = rank;
            while k > 0
                invariant
                    k <= rank <= i64::MAX,
                    order.len() == rank - k,
                    forall|j: int| 0 <= j < order.len() ==> #[trigger] order@[j] == rank - 1 - j,
                decreases k,
            {
                k -= 1;
                order.push(k as i64);
            }
            assert(order@ =~= reversing(rank as nat));
            out = out.ints("perm", order);
        } else {
            out = out.with(name, value.clone());
        }
        i += 1;
    }
    assert(out@ =~= refitted(attrs@, rank as nat));
    out
}

/// Whether a move can be made: it names an axis, an input and an element that are there.
pub open spec fn applicable(c: CaseModel, step: Step) -> bool {
    match step {
        Step::DropInput => c.inputs.len() > 0,
        Step::ZeroElement { input, position } => input < c.inputs.len() && position
            < c.inputs[input as int].data.len(),
        _ => true,
    }
}

/// Whether the ranks of a case can be counted as attributes are.
pub open spec fn ranked(c: CaseModel) -> bool {
    forall|i: int| 0 <= i < c.inputs.len() ==> (#[trigger] c.inputs[i]).dims.len() <= i64::MAX
}

proof fn lemma_first_rank_bound(inputs: Seq<TensorModel>)
    requires
        forall|i: int| 0 <= i < inputs.len() ==> (#[trigger] inputs[i]).dims.len() <= i64::MAX,
    ensures
        first_rank(inputs) <= i64::MAX,
    decreases inputs.len(),
{
    if inputs.len() > 0 && inputs[0].initializer() {
        let rest = inputs.skip(1);
        assert forall|i: int| 0 <= i < rest.len() implies (#[trigger] rest[i]).dims.len()
            <= i64::MAX by {
            assert(inputs[i + 1].dims.len() <= i64::MAX);
        }
        lemma_first_rank_bound(rest);
    }
}

/// Removes an axis, and makes a permutation anew.
pub fn drop_axis(case: &OnnxCase, axis: usize) -> (r: OnnxCase)
    requires
        reducible(case@),
        ranked(case@),
    ensures
        r@ == moved(case@, Step::DropAxis { axis }),
{
    let ghost goal = moved(case@, Step::DropAxis { axis });
    let mut inputs: Vec<TensorValue> = Vec::new();
    while inputs.len() < case.inputs.len()
        invariant
            inputs.len() <= case.inputs.len(),
            reducible(case@),
            forall|k: int|
                0 <= k < inputs.len() ==> (#[trigger] inputs@[k])@ == without_axis(
                    case@.inputs[k],
                    axis as int,
                ),
        decreases case.inputs.len() - inputs.len(),
    {
        let i: usize = inputs.len();
        assert(case@.inputs[i as int] == case.inputs@[i as int]@);
        inputs.push(drop_tensor_axis(&case.inputs[i], axis));
    }
    assert(tensors_model(inputs@) =~= goal.inputs);
    proof {
        assert forall|i: int| 0 <= i < goal.inputs.len() implies (
        #[trigger] goal.inputs[i]).dims.len() <= i64::MAX by {
            assert(case@.inputs[i].dims.len() <= i64::MAX);
        }
        lemma_first_rank_bound(goal.inputs);
    }
    let rank: usize = rank_of_first(&inputs);
    let attrs: Attrs = refit(&case.attrs, rank);
    OnnxCase { opset: case.opset, op: case.op, inputs, attrs }
}

/// Makes a move.
pub fn apply(case: &OnnxCase, step: Step) -> (r: OnnxCase)
    requires
        reducible(case@),
        ranked(case@),
        applicable(case@, step),
    ensures
        r@ == moved(case@, step),
{
    let ghost goal = moved(case@, step);
    match step {
        Step::DropAxis { axis } => drop_axis(case, axis),
        Step::Fill { one } => {
            let mut inputs: Vec<TensorValue> = Vec::new();
            while inputs.len() < case.inputs.len()
                invariant
                    inputs.len() <= case.inputs.len(),
                    forall|k: int|
                        0 <= k < inputs.len() ==> (#[trigger] inputs@[k])@
                            == (if case@.inputs[k].initializer() {
                            case@.inputs[k]
                        } else {
                            TensorModel { data: filled(case@.inputs[k].data, one), ..case@.inputs[k]
                            }
                        }),
                decreases case.inputs.len() - inputs.len(),
            {
                let t: &TensorValue = &case.inputs[inputs.len()];
                assert(case@.inputs[inputs.len() as int] == t@);
                if t.is_initializer() {
                    inputs.push(t.clone());
                } else {
                    inputs.push(
                        TensorValue {
                            name: t.name.clone(),
                            dims: copy_dims(&t.dims),
                            data: constant_data(&t.data, one),
                            role: t.role,
                        },
                    );
                }
            }
            assert(tensors_model(inputs@) =~= goal.inputs);
            OnnxCase { opset: case.opset, op: case.op, inputs, attrs: case.attrs.clone() }
        },
        Step::Shorten { axis, back, half } => {
            let mut inputs: Vec<TensorValue> = Vec::new();
            while inputs.len() < case.inputs.len()
                invariant
                    inputs.len() <= case.inputs.len(),
                    reducible(case@),
                    forall|k: int|
                        0 <= k < inputs.len() ==> (#[trigger] inputs@[k])@ == shortened(
                            case@.inputs[k],
                            axis as int,
                            back,
                            half,
                        ),
                decreases case.inputs.len() - inputs.len(),
            {
                let i: usize = inputs.len();
                assert(case@.inputs[i as int] == case.inputs@[i as int]@);
                inputs.push(reshape_axis(&case.inputs[i], axis, back, half));
            }
            assert(tensors_model(inputs@) =~= goal.inputs);
            OnnxCase { opset: case.opset, op: case.op, inputs, attrs: case.attrs.clone() }
        },
        Step::DropInput => {
            let mut inputs: Vec<TensorValue> = clone_tensors(&case.inputs);
            assert(tensors_model(inputs@).len() == inputs@.len());
            let ghost before = inputs@;
            inputs.pop();
            assert(inputs@ =~= before.drop_last());
            assert(tensors_model(inputs@) =~= tensors_model(before).drop_last());
            OnnxCase { opset: case.opset, op: case.op, inputs, attrs: case.attrs.clone() }
        },
        Step::ZeroElement { input, position } => {
            let mut inputs: Vec<TensorValue> = clone_tensors(&case.inputs);
            let ghost before = inputs@;
            assert(tensors_model(before) == case@.inputs);
            assert(tensors_model(before).len() == before.len());
            let t: TensorValue = case.inputs[input].clone();
            assert(t@ == case@.inputs[input as int]);
            let changed: TensorValue = TensorValue {
                name: t.name,
                dims: t.dims,
                data: zero_at(t.data, position),
                role: t.role,
            };
            inputs.set(input, changed);
            proof {
                assert forall|k: int| 0 <= k < inputs@.len() implies tensors_model(inputs@)[k]
                    == goal.inputs[k] by {
                    if k != input {
                        assert(inputs@[k] == before[k]);
                        assert(tensors_model(before)[k] == before[k]@);
                    }
                }
                assert(tensors_model(inputs@) =~= goal.inputs);
            }
            OnnxCase { opset: case.opset, op: case.op, inputs, attrs: case.attrs.clone() }
        },
        Step::LowerOpset => {
            let mut r: OnnxCase = case.clone();
            r.opset = op_spec(case.op).since;
            r
        },
    }
}

// ---- which moves are tried ----

/// The most candidates that are offered. The front of the list is kept, where the bold moves are.
pub const MAX_CANDIDATES: usize = 48;

/// The highest rank among the first `n` inputs that are data.
pub open spec fn highest_rank(inputs: Seq<TensorModel>, n: nat) -> nat
    decreases n,
{
    if n == 0 {
        0
    } else {
        let rest = highest_rank(inputs, (n - 1) as nat);
        if inputs[n - 1].initializer() || inputs[n - 1].dims.len() <= rest {
            rest
        } else {
            inputs[n - 1].dims.len()
        }
    }
}

/// The moves along the first `n` axes. Each cut is tried from both ends: a defect that lives past
/// the cut would be lost if only the front were kept.
pub open spec fn axis_steps(n: nat) -> Seq<Step>
    decreases n,
{
    if n == 0 {
        Seq::empty()
    } else {
        let axis = (n - 1) as usize;
        axis_steps((n - 1) as nat) + seq![
            Step::Shorten { axis, back: false, half: true },
            Step::Shorten { axis, back: false, half: false },
            Step::Shorten { axis, back: true, half: true },
            Step::Shorten { axis, back: true, half: false },
            Step::DropAxis { axis },
        ]
    }
}

/// The moves that zero single elements of the first `n` inputs: the first eight of each data input.
pub open spec fn element_steps(inputs: Seq<TensorModel>, n: nat) -> Seq<Step>
    decreases n,
{
    if n == 0 {
        Seq::empty()
    } else {
        let rest = element_steps(inputs, (n - 1) as nat);
        if inputs[n - 1].initializer() {
            rest
        } else {
            let count: nat = if inputs[n - 1].data.len() < 8 {
                inputs[n - 1].data.len()
            } else {
                8
            };
            rest + Seq::new(
                count,
                |p: int| Step::ZeroElement { input: (n - 1) as usize, position: p as usize },
            )
        }
    }
}

/// The moves that are tried, the boldest first.
pub open spec fn steps_of(c: CaseModel) -> Seq<Step> {
    let start = seq![Step::Fill { one: false }, Step::Fill { one: true }] + axis_steps(
        highest_rank(c.inputs, c.inputs.len()),
    );
    let dropped = if c.inputs.len() > 2 {
        start.push(Step::DropInput)
    } else {
        start
    };
    let zeroed = dropped + element_steps(c.inputs, c.inputs.len());
    if c.opset > c.op.since() {
        zeroed.push(Step::LowerOpset)
    } else {
        zeroed
    }
}

fn highest_data_rank(inputs: &Vec<TensorValue>) -> (r: usize)
    ensures
        r == highest_rank(tensors_model(inputs@), inputs@.len()),
{
    let ghost all = tensors_model(inputs@);
    let mut best: usize = 0;
    let mut i: usize = 0;
    while i < inputs.len()
        invariant
            i <= inputs.len(),
            all == tensors_model(inputs@),
            best == highest_rank(all, i as nat),
        decreases inputs.len() - i,
    {
        assert(all[i as int] == inputs@[i as int]@);
        if !inputs[i].is_initializer() && inputs[i].dims.len() > best {
            best = inputs[i].dims.len();
        }
        i += 1;
    }
    best
}

/// The moves that are tried.
pub fn steps(case: &OnnxCase) -> (r: Vec<Step>)
    ensures
        r@ == steps_of(case@),
        forall|k: int| 0 <= k < r.len() ==> applicable(case@, #[trigger] r@[k]),
{
    let mut out: Vec<Step> = Vec::new();
    out.push(Step::Fill { one: false });
    out.push(Step::Fill { one: true });
    let ghost head = out@;
    let ranks: usize = highest_data_rank(&case.inputs);
    assert(case@.inputs.len() == case.inputs@.len());
    let mut axis: usize = 0;
    assert(out@ =~= head + axis_steps(0));
    while axis < ranks
        invariant
            axis <= ranks,
            head == seq![Step::Fill { one: false }, Step::Fill { one: true }],
            out@ == head + axis_steps(axis as nat),
            forall|k: int| 0 <= k < out.len() ==> applicable(case@, #[trigger] out@[k]),
        decreases ranks - axis,
    {
        let ghost before = out@;
        out.push(Step::Shorten { axis, back: false, half: true });
        out.push(Step::Shorten { axis, back: false, half: false });
        out.push(Step::Shorten { axis, back: true, half: true });
        out.push(Step::Shorten { axis, back: true, half: false });
        out.push(Step::DropAxis { axis });
        proof {
            assert(axis_steps((axis + 1) as nat) == axis_steps(axis as nat) + seq![
                Step::Shorten { axis, back: false, half: true },
                Step::Shorten { axis, back: false, half: false },
                Step::Shorten { axis, back: true, half: true },
                Step::Shorten { axis, back: true, half: false },
                Step::DropAxis { axis },
            ]);
            assert(out@ =~= head + axis_steps((axis + 1) as nat));
        }
        axis += 1;
    }
    if case.inputs.len() > 2 {
        out.push(Step::DropInput);
    }
    let ghost start = out@;
    let mut i: usize = 0;
    assert(out@ =~= start + element_steps(case@.inputs, 0));
    while i < case.inputs.len()
        invariant
            i <= case.inputs.len(),
            out@ == start + element_steps(case@.inputs, i as nat),
            forall|k: int| 0 <= k < out.len() ==> applicable(case@, #[trigger] out@[k]),
        decreases case.inputs.len() - i,
    {
        let t: &TensorValue = &case.inputs[i];
        assert(case@.inputs[i as int] == t@);
        if !t.is_initializer() {
            let count: usize = if t.data.len() < 8 {
                t.data.len()
            } else {
                8
            };
            let ghost before = out@;
            let ghost tail = Seq::new(
                count as nat,
                |p: int| Step::ZeroElement { input: i, position: p as usize },
            );
            let mut p: usize = 0;
            assert(out@ =~= before + tail.take(0));
            while p < count
                invariant
                    p <= count <= t@.data.len(),
                    i < case.inputs.len(),
                    case@.inputs[i as int] == t@,
                    tail == Seq::new(
                        count as nat,
                        |p: int| Step::ZeroElement { input: i, position: p as usize },
                    ),
                    out@ == before + tail.take(p as int),
                    forall|k: int| 0 <= k < out.len() ==> applicable(case@, #[trigger] out@[k]),
                decreases count - p,
            {
                out.push(Step::ZeroElement { input: i, position: p });
                assert(tail.take(p + 1) =~= tail.take(p as int).push(tail[p as int]));
                p += 1;
            }
            assert(tail.take(count as int) =~= tail);
            assert(out@ =~= start + element_steps(case@.inputs, (i + 1) as nat));
        }
        i += 1;
    }
    if case.opset > op_spec(case.op).since {
        out.push(Step::LowerOpset);
    }
    assert(out@ =~= steps_of(case@));
    out
}

// ---- candidates ----

/// Whether a case may be offered as a reduction of another: it can be weighed, it is strictly
/// simpler, and it is legal.
pub open spec fn admissible(candidate: CaseModel, parent: CaseModel) -> bool {
    weighable(candidate) && simpler(measure_of(candidate), measure_of(parent)) && valid(candidate)
}

/// The reductions among the first `n` moves, one that is the same as an earlier one left out. The
/// signs of zero are told apart: a case may diverge on one of them alone.
pub open spec fn offered_upto(c: CaseModel, n: nat) -> Seq<CaseModel>
    decreases n,
{
    if n == 0 {
        Seq::empty()
    } else {
        let rest = offered_upto(c, (n - 1) as nat);
        let next = moved(c, steps_of(c)[n - 1]);
        if admissible(next, c) && !rest.contains(next) {
            rest.push(next)
        } else {
            rest
        }
    }
}

/// The reductions of a case.
pub open spec fn candidates_of(c: CaseModel) -> Seq<CaseModel> {
    let all = offered_upto(c, steps_of(c).len());
    if all.len() > MAX_CANDIDATES {
        all.take(MAX_CANDIDATES as int)
    } else {
        all
    }
}

/// The models of a sequence of cases.
pub open spec fn case_models(v: Seq<OnnxCase>) -> Seq<CaseModel> {
    Seq::new(v.len(), |i: int| v[i]@)
}

proof fn lemma_offers_grow(c: CaseModel, a: nat, b: nat)
    requires
        a <= b,
    ensures
        offered_upto(c, a).len() <= offered_upto(c, b).len(),
        offered_upto(c, b).take(offered_upto(c, a).len() as int) == offered_upto(c, a),
    decreases b,
{
    if a < b {
        lemma_offers_grow(c, a, (b - 1) as nat);
        let rest = offered_upto(c, (b - 1) as nat);
        let all = offered_upto(c, b);
        assert(all.take(offered_upto(c, a).len() as int) =~= rest.take(
            offered_upto(c, a).len() as int,
        ));
    } else {
        assert(offered_upto(c, b).take(offered_upto(c, a).len() as int) =~= offered_upto(c, a));
    }
}

/// What is offered is offered once.
proof fn lemma_offers_are_distinct(c: CaseModel, n: nat)
    ensures
        offered_upto(c, n).no_duplicates(),
    decreases n,
{
    if n > 0 {
        lemma_offers_are_distinct(c, (n - 1) as nat);
    }
}

fn is_offered(offered: &Vec<OnnxCase>, next: &OnnxCase) -> (r: bool)
    ensures
        r == case_models(offered@).contains(next@),
{
    let ghost models = case_models(offered@);
    let mut i: usize = 0;
    while i < offered.len()
        invariant
            i <= offered.len(),
            models == case_models(offered@),
            forall|k: int| 0 <= k < i ==> #[trigger] models[k] != next@,
        decreases offered.len() - i,
    {
        assert(models[i as int] == offered@[i as int]@);
        if offered[i].same(next) {
            return true;
        }
        i += 1;
    }
    false
}

impl OnnxCase {
    /// The reductions of a case, the boldest first. Each is strictly simpler and legal, and none is
    /// offered twice.
    pub fn candidates(&self) -> (r: Vec<OnnxCase>)
        requires
            weighable(self@),
            reducible(self@),
            ranked(self@),
        ensures
            case_models(r@) == candidates_of(self@),
            r.len() <= MAX_CANDIDATES,
            case_models(r@).no_duplicates(),
            forall|i: int|
                0 <= i < r.len() ==> simpler(
                    measure_of((#[trigger] r@[i])@),
                    measure_of(self@),
                ) && valid(r@[i]@),
    {
        let parent: Complexity = complexity(self);
        let moves: Vec<Step> = steps(self);
        let mut out: Vec<OnnxCase> = Vec::new();
        let mut n: usize = 0;
        assert(case_models(out@) =~= offered_upto(self@, 0));
        while n < moves.len() && out.len() < MAX_CANDIDATES
            invariant
                n <= moves.len(),
                weighable(self@),
                reducible(self@),
                ranked(self@),
                parent@ == measure_of(self@),
                moves@ == steps_of(self@),
                forall|k: int| 0 <= k < moves.len() ==> applicable(self@, #[trigger] moves@[k]),
                case_models(out@) == offered_upto(self@, n as nat),
                out.len() <= MAX_CANDIDATES,
                forall|i: int|
                    0 <= i < out.len() ==> simpler(
                        measure_of((#[trigger] out@[i])@),
                        measure_of(self@),
                    ) && valid(out@[i]@),
            decreases moves.len() - n,
        {
            assert(applicable(self@, moves@[n as int]));
            let next: OnnxCase = apply(self, moves[n]);
            let lighter: bool = match weigh(&next) {
                Some(w) => w.is_below(&parent),
                None => false,
            };
            let admitted: bool = lighter && is_valid(&next);
            assert(admitted == admissible(next@, self@));
            let ghost before = out@;
            if admitted && !is_offered(&out, &next) {
                out.push(next);
                assert(case_models(out@) =~= case_models(before).push(next@));
            }
            n += 1;
        }
        proof {
            let all = offered_upto(self@, steps_of(self@).len());
            lemma_offers_are_distinct(self@, n as nat);
            lemma_offers_grow(self@, n as nat, steps_of(self@).len());
            assert(case_models(out@).len() == out.len());
            if n < moves.len() {
                assert(out.len() == MAX_CANDIDATES);
                if all.len() == MAX_CANDIDATES {
                    assert(all.take(MAX_CANDIDATES as int) =~= all);
                }
            } else {
                assert(all == case_models(out@));
            }
        }
        out
    }
}

/// Whether a case still shows the finding that is being reduced: the same signature, and not just
/// any divergence. A case can shrink out of one defect and into another.
pub fn still_shows(target: &str, signature: &Option<String>) -> (r: bool)
    ensures
        r == (signature matches Some(s) && s@ == target@),
{
    match signature {
        Some(s) => same_text(s.as_str(), target),
        None => false,
    }
}

// ---- laws ----

/// Being simpler is a strict order, so a search that only moves to simpler cases never comes back.
pub proof fn lemma_simpler_is_a_strict_order(a: Measure, b: Measure, c: Measure)
    ensures
        !simpler(a, a),
        simpler(a, b) ==> !simpler(b, a),
        simpler(a, b) && simpler(b, c) ==> simpler(a, c),
        simpler(a, b) || simpler(b, a) || a == b,
{
}

/// A search that only moves to simpler cases comes to an end: with every move the parts of the
/// measure go down, the first that differs counting, and none of them can do so forever.
pub proof fn lemma_simplifying_comes_to_an_end(from: CaseModel, to: CaseModel)
    requires
        simpler(measure_of(to), measure_of(from)),
    ensures
        ({
            let a = measure_of(from);
            let b = measure_of(to);
            decreases_to!(
                a.elements, a.rank_sum, a.inputs, a.nontrivial_values, a.attribute_weight,
                    a.opset - i64::MIN => b.elements, b.rank_sum, b.inputs, b.nontrivial_values,
                    b.attribute_weight, b.opset - i64::MIN)
        }),
{
}

/// A move never changes an initializer: it is configuration, and to simplify it would make a
/// different case.
pub proof fn lemma_moves_keep_initializers(c: CaseModel, k: int, i: int)
    requires
        c.inputs.len() <= usize::MAX,
        0 <= k < steps_of(c).len(),
        0 <= i < c.inputs.len(),
        c.inputs[i].initializer(),
        i < moved(c, steps_of(c)[k]).inputs.len(),
    ensures
        moved(c, steps_of(c)[k]).inputs[i] == c.inputs[i],
{
    match steps_of(c)[k] {
        Step::ZeroElement { input, position } => {
            lemma_zeroed_inputs_are_data(c, k);
        },
        _ => {},
    }
}

proof fn lemma_axis_steps_are_cuts(n: nat, k: int)
    requires
        0 <= k < axis_steps(n).len(),
    ensures
        !(axis_steps(n)[k] is ZeroElement),
    decreases n,
{
    if n > 0 && k < axis_steps((n - 1) as nat).len() {
        lemma_axis_steps_are_cuts((n - 1) as nat, k);
    }
}

proof fn lemma_element_steps_are_data(inputs: Seq<TensorModel>, n: nat, k: int)
    requires
        n <= inputs.len() <= usize::MAX,
        0 <= k < element_steps(inputs, n).len(),
    ensures
        element_steps(inputs, n)[k] matches Step::ZeroElement { input, position } && input < n
            && !inputs[input as int].initializer(),
    decreases n,
{
    if n > 0 {
        let rest = element_steps(inputs, (n - 1) as nat);
        if k < rest.len() {
            lemma_element_steps_are_data(inputs, (n - 1) as nat, k);
        }
    }
}

proof fn lemma_zeroed_inputs_are_data(c: CaseModel, k: int)
    requires
        0 <= k < steps_of(c).len(),
        steps_of(c)[k] is ZeroElement,
        c.inputs.len() <= usize::MAX,
    ensures
        steps_of(c)[k] matches Step::ZeroElement { input, position } && input < c.inputs.len()
            && !c.inputs[input as int].initializer(),
{
    let axes = axis_steps(highest_rank(c.inputs, c.inputs.len()));
    let start = seq![Step::Fill { one: false }, Step::Fill { one: true }] + axes;
    let dropped = if c.inputs.len() > 2 {
        start.push(Step::DropInput)
    } else {
        start
    };
    let elements = element_steps(c.inputs, c.inputs.len());
    if k < start.len() {
        if k >= 2 {
            lemma_axis_steps_are_cuts(highest_rank(c.inputs, c.inputs.len()), k - 2);
            assert(steps_of(c)[k] == axes[k - 2]);
        }
    } else if dropped.len() <= k < dropped.len() + elements.len() {
        lemma_element_steps_are_data(c.inputs, c.inputs.len(), k - dropped.len());
        assert(steps_of(c)[k] == elements[k - dropped.len()]);
    }
}

} // verus!
