//! What makes a case a legal one.
//!
//! This is the one definition of legality. Generation meets it by construction, and a reduction
//! step that breaks it is thrown away. An operator's inputs are coupled in many ways: a
//! permutation is one of the input's rank, a reshape keeps the element count, joined tensors agree
//! on every axis but one.

use vstd::prelude::*;

use crate::attrs::{lookup, AttrModel, AttrValue};
use crate::bits::{f32_exact, f32_of, f64_exact, f64_of, top_bit};
use crate::case::{any_negative, has_negative, lemma_product_nonnegative, lemma_wire_round_trip};
use crate::case::{product, product_fits};
use crate::case::{product_of, CaseModel, DataModel, ElemType, InputRole, OnnxCase};
use crate::case::{OpKind, TensorData, TensorModel, TensorValue};
use crate::ops::{arity_range, axis_of, copy_dims, data_elem_of, data_elem_type};
use crate::ops::{input_agreement, integers_at, op_spec, output_dims, probe_exists, probe_inputs};
use crate::ops::{probe_model, probe_shape, reshaped, sample_inputs, Family, OpSpec};
use crate::text::{decimal, decimal_text, same_text};

verus! {

// ---- the rules ----

/// One way in which a case can be illegal.
#[derive(Debug, Clone, Copy, PartialEq, Eq, Structural)]
pub enum Problem {
    /// The operator does not take that many inputs.
    Arity,
    /// The operator does not exist in this form at that opset version.
    Opset,
    /// An extent is negative.
    NegativeExtent,
    /// A tensor does not hold as many elements as its shape calls for.
    DataLength,
    /// Two inputs have one name.
    DuplicateName,
    /// The operator does not accept the element type.
    ElementType,
    /// Inputs that must agree in shape or type do not.
    Disagreement,
    /// A parameter does not fit the data: a permutation, a target shape, an axis, an index.
    Parameter,
}

/// Every way in which a case can be illegal, in the order in which they are reported.
pub const PROBLEMS: [Problem; 8] = [
    Problem::Arity,
    Problem::Opset,
    Problem::NegativeExtent,
    Problem::DataLength,
    Problem::DuplicateName,
    Problem::ElementType,
    Problem::Disagreement,
    Problem::Parameter,
];

/// Whether the operator takes that many inputs.
pub open spec fn arity_holds(c: CaseModel) -> bool {
    c.op.arity().0 <= c.inputs.len() <= c.op.arity().1
}

/// Whether no extent is negative.
pub open spec fn extents_hold(c: CaseModel) -> bool {
    forall|i: int| 0 <= i < c.inputs.len() ==> !any_negative((#[trigger] c.inputs[i]).dims)
}

/// Whether every tensor holds what its shape calls for.
pub open spec fn lengths_hold(c: CaseModel) -> bool {
    forall|i: int|
        0 <= i < c.inputs.len() ==> (any_negative((#[trigger] c.inputs[i]).dims)
            || c.inputs[i].data.len() == product(c.inputs[i].dims))
}

/// Whether no two inputs share a name.
pub open spec fn names_hold(c: CaseModel) -> bool {
    forall|i: int, j: int|
        0 <= i < j < c.inputs.len() ==> (#[trigger] c.inputs[i]).name != (
        #[trigger] c.inputs[j]).name
}

/// Whether the inputs agree where the operator asks them to.
pub open spec fn agreement_holds(c: CaseModel) -> bool {
    &&& c.op.agreement().shapes ==> forall|i: int|
        0 <= i < c.inputs.len() ==> (#[trigger] c.inputs[i]).dims == c.inputs[0].dims
    &&& c.op.agreement().elem_types ==> forall|i: int|
        0 <= i < c.inputs.len() ==> (#[trigger] c.inputs[i]).elem_type() == c.inputs[0].elem_type()
}

/// Whether a list is a permutation of the first `rank` axes.
pub open spec fn is_permutation(perm: Seq<i64>, rank: nat) -> bool {
    &&& perm.len() == rank
    &&& forall|i: int| 0 <= i < perm.len() ==> 0 <= #[trigger] perm[i] < rank
    &&& forall|i: int, j: int| 0 <= i < j < perm.len() ==> #[trigger] perm[i] != #[trigger] perm[j]
}

/// Whether the `axis` attribute, counted from either end, names an axis.
pub open spec fn axis_holds(attrs: Seq<(Seq<char>, AttrModel)>, rank: nat) -> bool {
    match lookup(attrs, "axis"@) {
        Some(AttrModel::Int(v)) => -rank <= v < rank,
        Some(_) => false,
        None => rank > 0,
    }
}

/// Whether two shapes are the same but for one axis.
pub open spec fn same_but_for(a: Seq<i64>, b: Seq<i64>, axis: int) -> bool {
    &&& a.len() == b.len()
    &&& forall|k: int| 0 <= k < a.len() && k != axis ==> #[trigger] a[k] == b[k]
}

/// Whether a tensor is a scalar of a quantized type.
pub open spec fn is_zero_point(t: TensorModel) -> bool {
    t.dims.len() == 0 && (t.elem_type() == ElemType::I8 || t.elem_type() == ElemType::U8)
}

/// Whether a tensor is a single-precision scalar.
pub open spec fn is_scale(t: TensorModel) -> bool {
    t.dims.len() == 0 && t.elem_type() == ElemType::F32
}

/// Whether the type that a `Cast` converts to is one that the library knows.
pub open spec fn target_holds(attrs: Seq<(Seq<char>, AttrModel)>) -> bool {
    match lookup(attrs, "to"@) {
        Some(AttrModel::Int(w)) => i32::MIN <= w <= i32::MAX && ElemType::of_wire(w as i32) is Some,
        _ => false,
    }
}

/// Whether a reshape keeps the element count.
pub open spec fn reshape_holds(c: CaseModel) -> bool {
    c.inputs[1].data is I64 && !any_negative(output_dims(c)) && product(output_dims(c))
        == c.inputs[0].data.len()
}

/// Whether a transposition's permutation is one of the input's rank. Without one the axes are
/// reversed.
pub open spec fn transpose_holds(c: CaseModel) -> bool {
    match lookup(c.attrs, "perm"@) {
        Some(AttrModel::Ints(perm)) => is_permutation(perm, c.inputs[0].dims.len()),
        Some(_) => false,
        None => true,
    }
}

/// Whether joined tensors agree on every axis but the one they are joined along.
pub open spec fn concat_holds(c: CaseModel) -> bool {
    let dims = c.inputs[0].dims;
    &&& lookup(c.attrs, "axis"@) is Some
    &&& axis_holds(c.attrs, dims.len())
    &&& forall|i: int|
        0 <= i < c.inputs.len() ==> same_but_for(
            (#[trigger] c.inputs[i]).dims,
            dims,
            axis_of(c.attrs, dims.len()),
        )
}

/// Whether every index lies within the axis that is indexed.
pub open spec fn gather_holds(c: CaseModel) -> bool {
    let dims = c.inputs[0].dims;
    &&& axis_holds(c.attrs, dims.len())
    &&& c.inputs[1].data is I64
    &&& forall|k: int|
        #![trigger integers_at(c, 1)[k]]
        0 <= k < integers_at(c, 1).len() ==> -dims[axis_of(c.attrs, dims.len())] <= integers_at(
            c,
            1,
        )[k] < dims[axis_of(c.attrs, dims.len())]
}

/// Whether every axis that is removed has extent one.
pub open spec fn squeeze_holds(c: CaseModel) -> bool {
    let dims = c.inputs[0].dims;
    c.inputs.len() == 2 ==> {
        &&& c.inputs[1].data is I64
        &&& forall|k: int|
            #![trigger integers_at(c, 1)[k]]
            0 <= k < integers_at(c, 1).len() ==> {
                &&& 0 <= integers_at(c, 1)[k] < dims.len()
                &&& dims[integers_at(c, 1)[k] as int] == 1
            }
    }
}

/// Whether every axis that is inserted is one of the result's, and none is inserted twice.
pub open spec fn unsqueeze_holds(c: CaseModel) -> bool {
    let axes = integers_at(c, 1);
    &&& c.inputs[1].data is I64
    &&& forall|k: int| 0 <= k < axes.len() ==> 0 <= #[trigger] axes[k] < c.inputs[0].dims.len()
        + axes.len()
    &&& forall|i: int, j: int| 0 <= i < j < axes.len() ==> #[trigger] axes[i] != #[trigger] axes[j]
}

/// Whether a list of axes is that of the leading ones, which is what leaving the list out means.
pub open spec fn leading_axes(axes: Seq<i64>, count: nat) -> bool {
    axes.len() == count && forall|k: int| 0 <= k < axes.len() ==> #[trigger] axes[k] == k
}

/// Whether every range that is cut out lies within its axis. Axes and steps may be given, and then
/// say what is meant without them: the leading axes, and every element.
pub open spec fn slice_holds(c: CaseModel) -> bool {
    let dims = c.inputs[0].dims;
    let starts = integers_at(c, 1);
    let ends = integers_at(c, 2);
    &&& c.inputs[1].data is I64 && c.inputs[2].data is I64
    &&& starts.len() == ends.len() && starts.len() <= dims.len()
    &&& forall|k: int| 0 <= k < starts.len() ==> 0 <= #[trigger] starts[k] <= ends[k] <= dims[k]
    &&& c.inputs.len() > 3 ==> c.inputs[3].data is I64 && leading_axes(
        integers_at(c, 3),
        starts.len(),
    )
    &&& c.inputs.len() > 4 ==> c.inputs[4].data is I64 && single_steps(
        integers_at(c, 4),
        starts.len(),
    )
}

/// Whether a list of steps takes every element.
pub open spec fn single_steps(steps: Seq<i64>, count: nat) -> bool {
    steps.len() == count && forall|k: int| 0 <= k < steps.len() ==> #[trigger] steps[k] == 1
}

/// Whether there are two amounts of padding for each axis, and none is negative. The value that is
/// filled in may be given, as a scalar of the data's type, and so may the axes, which are then all
/// of them in order.
pub open spec fn pad_holds(c: CaseModel) -> bool {
    &&& c.inputs[1].data is I64 && integers_at(c, 1).len() == 2 * c.inputs[0].dims.len()
        && !any_negative(integers_at(c, 1))
    &&& c.inputs.len() > 2 ==> c.inputs[2].dims.len() == 0 && c.inputs[2].elem_type()
        == c.inputs[0].elem_type()
    &&& c.inputs.len() > 3 ==> c.inputs[3].data is I64 && leading_axes(
        integers_at(c, 3),
        c.inputs[0].dims.len(),
    )
}

/// Whether two matrices can be multiplied, and each comes with a zero point of its own type.
pub open spec fn matmul_holds(c: CaseModel) -> bool {
    &&& c.inputs[0].dims.len() == 2 && c.inputs[1].dims.len() == 2
    &&& c.inputs[0].dims[1] == c.inputs[1].dims[0]
    &&& is_zero_point(c.inputs[2]) && is_zero_point(c.inputs[3])
    &&& c.inputs[2].elem_type() == c.inputs[0].elem_type()
    &&& c.inputs[3].elem_type() == c.inputs[1].elem_type()
}

/// Whether the operator's parameters fit its data.
pub open spec fn parameters_hold(c: CaseModel) -> bool {
    match c.op.family() {
        Family::Select => c.inputs[0].elem_type() == ElemType::Bool && c.inputs[1].elem_type()
            == c.inputs[2].elem_type(),
        Family::Cast => target_holds(c.attrs),
        Family::Reshape => reshape_holds(c),
        Family::Transpose => transpose_holds(c),
        Family::Concat => concat_holds(c),
        Family::Gather => gather_holds(c),
        Family::Squeeze => squeeze_holds(c),
        Family::Unsqueeze => unsqueeze_holds(c),
        Family::Slice => slice_holds(c),
        Family::Pad => pad_holds(c),
        Family::Quantize => is_scale(c.inputs[1]) && is_zero_point(c.inputs[2]),
        Family::Dequantize => is_scale(c.inputs[1]) && is_zero_point(c.inputs[2])
            && c.inputs[2].elem_type() == c.inputs[0].elem_type(),
        Family::MatMulInteger => matmul_holds(c),
        Family::DynamicQuantize => c.inputs[0].data.len() > 0,
        _ => true,
    }
}

/// Whether a case is free of one kind of problem. Parameters are looked at only where there are as
/// many inputs as there should be.
pub open spec fn free_of(c: CaseModel, p: Problem) -> bool {
    match p {
        Problem::Arity => arity_holds(c),
        Problem::Opset => c.op.since() <= c.opset,
        Problem::NegativeExtent => extents_hold(c),
        Problem::DataLength => lengths_hold(c),
        Problem::DuplicateName => names_hold(c),
        Problem::ElementType => c.op.data_types().contains(data_elem_of(c)),
        Problem::Disagreement => agreement_holds(c),
        Problem::Parameter => !arity_holds(c) || parameters_hold(c),
    }
}

/// The problems of a case.
pub open spec fn problems_of(c: CaseModel) -> Seq<Problem> {
    PROBLEMS@.filter(|p: Problem| !free_of(c, p))
}

/// Whether a case is legal.
pub open spec fn valid(c: CaseModel) -> bool {
    forall|p: Problem| #[trigger] free_of(c, p)
}

// ---- counting ----

proof fn lemma_longer_product(dims: Seq<i64>, k: int)
    requires
        0 <= k <= dims.len(),
        forall|i: int| 0 <= i < dims.len() ==> #[trigger] dims[i] >= 1,
    ensures
        1 <= product(dims.take(k)) <= product(dims),
    decreases dims.len(),
{
    if k < dims.len() {
        let front = dims.drop_last();
        assert forall|i: int| 0 <= i < front.len() implies #[trigger] front[i] >= 1 by {
            assert(dims[i] >= 1);
        }
        lemma_longer_product(front, k);
        assert(front.take(k) =~= dims.take(k));
        assert(dims.last() >= 1);
        assert(product(front) <= product(front) * dims.last()) by (nonlinear_arith)
            requires
                product(front) >= 1,
                dims.last() >= 1,
        ;
    } else {
        assert(dims.take(k) =~= dims);
        if dims.len() > 0 {
            let front = dims.drop_last();
            assert forall|i: int| 0 <= i < front.len() implies #[trigger] front[i] >= 1 by {
                assert(dims[i] >= 1);
            }
            lemma_longer_product(front, front.len() as int);
            assert(front.take(front.len() as int) =~= front);
            assert(dims.last() >= 1);
            assert(product(front) * dims.last() >= 1) by (nonlinear_arith)
                requires
                    product(front) >= 1,
                    dims.last() >= 1,
            ;
        }
    }
}

pub proof fn lemma_zero_product(dims: Seq<i64>, at: int)
    requires
        0 <= at < dims.len(),
        dims[at] == 0,
    ensures
        product(dims) == 0,
    decreases dims.len(),
{
    if at < dims.len() - 1 {
        assert(dims.drop_last()[at] == 0);
        lemma_zero_product(dims.drop_last(), at);
        assert(0 * dims.last() == 0) by (nonlinear_arith);
    } else {
        assert(product(dims.drop_last()) * 0 == 0) by (nonlinear_arith);
    }
}

/// Whether a shape holds a given number of elements.
pub fn holds_elements(dims: &Vec<i64>, count: usize) -> (r: bool)
    requires
        !any_negative(dims@),
    ensures
        r == (product(dims@) == count),
{
    let mut i: usize = 0;
    while i < dims.len()
        invariant
            i <= dims.len(),
            !any_negative(dims@),
            forall|k: int| 0 <= k < i ==> #[trigger] dims@[k] >= 1,
        decreases dims.len() - i,
    {
        if dims[i] == 0 {
            proof {
                lemma_zero_product(dims@, i as int);
            }
            return count == 0;
        }
        assert(!(dims@[i as int] < 0));
        i += 1;
    }
    let mut acc: u128 = 1;
    i = 0;
    while i < dims.len()
        invariant
            i <= dims.len(),
            forall|k: int| 0 <= k < dims.len() ==> #[trigger] dims@[k] >= 1,
            acc == product(dims@.take(i as int)),
            1 <= acc,
            i > 0 ==> acc <= count,
            i == 0 ==> acc == 1,
        decreases dims.len() - i,
    {
        let extent: i64 = dims[i];
        assert(dims@[i as int] >= 1);
        assert(dims@.take(i + 1).drop_last() =~= dims@.take(i as int));
        assert(1 <= acc * extent <= 0xffff_ffff_ffff_ffff * 0x7fff_ffff_ffff_ffff) by (
            nonlinear_arith)
            requires
                1 <= acc <= 0xffff_ffff_ffff_ffff,
                1 <= extent <= 0x7fff_ffff_ffff_ffff,
        ;
        acc = acc * (extent as u128);
        i += 1;
        proof {
            lemma_longer_product(dims@, i as int);
        }
        if acc > count as u128 {
            return false;
        }
    }
    assert(dims@.take(i as int) =~= dims@);
    acc == count as u128
}

// ---- checking ----

fn check_extents(case: &OnnxCase) -> (r: bool)
    ensures
        r == extents_hold(case@),
{
    let mut i: usize = 0;
    while i < case.inputs.len()
        invariant
            i <= case.inputs.len(),
            forall|k: int| 0 <= k < i ==> !any_negative((#[trigger] case@.inputs[k]).dims),
        decreases case.inputs.len() - i,
    {
        if has_negative(&case.inputs[i].dims) {
            assert(any_negative(case@.inputs[i as int].dims));
            return false;
        }
        i += 1;
    }
    true
}

fn check_lengths(case: &OnnxCase) -> (r: bool)
    ensures
        r == lengths_hold(case@),
{
    let mut i: usize = 0;
    while i < case.inputs.len()
        invariant
            i <= case.inputs.len(),
            forall|k: int|
                0 <= k < i ==> (any_negative((#[trigger] case@.inputs[k]).dims)
                    || case@.inputs[k].data.len() == product(case@.inputs[k].dims)),
        decreases case.inputs.len() - i,
    {
        assert(case@.inputs[i as int] == case.inputs@[i as int]@);
        if !has_negative(&case.inputs[i].dims) && !holds_elements(
            &case.inputs[i].dims,
            case.inputs[i].data.len(),
        ) {
            return false;
        }
        i += 1;
    }
    true
}

fn check_names(case: &OnnxCase) -> (r: bool)
    ensures
        r == names_hold(case@),
{
    let mut i: usize = 0;
    while i < case.inputs.len()
        invariant
            i <= case.inputs.len(),
            forall|a: int, b: int|
                0 <= a < b < case@.inputs.len() && a < i ==> (#[trigger] case@.inputs[a]).name != (
                #[trigger] case@.inputs[b]).name,
        decreases case.inputs.len() - i,
    {
        let mut j: usize = i + 1;
        while j < case.inputs.len()
            invariant
                i < j <= case.inputs.len(),
                forall|b: int|
                    i < b < j ==> case@.inputs[i as int].name != (#[trigger] case@.inputs[b]).name,
            decreases case.inputs.len() - j,
        {
            if same_text(case.inputs[i].name.as_str(), case.inputs[j].name.as_str()) {
                assert(case@.inputs[i as int].name == case@.inputs[j as int].name);
                return false;
            }
            assert(case@.inputs[i as int].name == case.inputs@[i as int].name@);
            assert(case@.inputs[j as int].name == case.inputs@[j as int].name@);
            j += 1;
        }
        i += 1;
    }
    true
}

fn same_extents(a: &Vec<i64>, b: &Vec<i64>) -> (r: bool)
    ensures
        r == (a@ == b@),
{
    let r: bool = *a == *b;
    assert(r ==> a@ =~= b@);
    r
}

fn check_agreement(case: &OnnxCase) -> (r: bool)
    ensures
        r == agreement_holds(case@),
{
    let rule: crate::ops::InputAgreement = input_agreement(case.op);
    let mut i: usize = 0;
    while i < case.inputs.len()
        invariant
            i <= case.inputs.len(),
            rule == case@.op.agreement(),
            rule.shapes ==> forall|k: int|
                0 <= k < i ==> (#[trigger] case@.inputs[k]).dims == case@.inputs[0].dims,
            rule.elem_types ==> forall|k: int|
                0 <= k < i ==> (#[trigger] case@.inputs[k]).elem_type()
                    == case@.inputs[0].elem_type(),
        decreases case.inputs.len() - i,
    {
        assert(case@.inputs[i as int] == case.inputs@[i as int]@);
        assert(case@.inputs[0] == case.inputs@[0]@);
        if rule.shapes && !same_extents(&case.inputs[i].dims, &case.inputs[0].dims) {
            return false;
        }
        if rule.elem_types && case.inputs[i].elem_type() != case.inputs[0].elem_type() {
            return false;
        }
        i += 1;
    }
    true
}

fn check_permutation(perm: &Vec<i64>, rank: usize) -> (r: bool)
    ensures
        r == is_permutation(perm@, rank as nat),
{
    if perm.len() != rank {
        return false;
    }
    let mut i: usize = 0;
    while i < perm.len()
        invariant
            i <= perm.len() == rank,
            forall|k: int| 0 <= k < i ==> 0 <= #[trigger] perm@[k] < rank,
            forall|a: int, b: int| 0 <= a < b < i ==> #[trigger] perm@[a] != #[trigger] perm@[b],
        decreases perm.len() - i,
    {
        if perm[i] < 0 || perm[i] as u64 >= rank as u64 {
            return false;
        }
        let mut j: usize = 0;
        while j < i
            invariant
                j <= i < perm.len(),
                forall|a: int| 0 <= a < j ==> #[trigger] perm@[a] != perm@[i as int],
            decreases i - j,
        {
            if perm[j] == perm[i] {
                return false;
            }
            j += 1;
        }
        i += 1;
    }
    true
}

/// The axis that the `axis` attribute names, if there is one.
fn named_axis(case: &OnnxCase, rank: usize) -> (r: Option<usize>)
    ensures
        r is Some == axis_holds(case@.attrs, rank as nat),
        r matches Some(a) ==> a == axis_of(case@.attrs, rank as nat) && a < rank,
{
    match case.attrs.get("axis") {
        Some(AttrValue::Int(v)) => {
            let raw: i128 = *v as i128;
            let width: i128 = rank as i128;
            if raw < -width || raw >= width {
                None
            } else if raw < 0 {
                Some((raw + width) as usize)
            } else {
                Some(raw as usize)
            }
        },
        Some(_) => None,
        None => if rank > 0 {
            Some(0)
        } else {
            None
        },
    }
}

fn check_target(case: &OnnxCase) -> (r: bool)
    ensures
        r == target_holds(case@.attrs),
{
    match case.attrs.get("to") {
        Some(AttrValue::Int(w)) => *w >= i32::MIN as i64 && *w <= i32::MAX as i64
            && ElemType::from_wire(*w as i32).is_some(),
        _ => false,
    }
}

fn check_reshape(case: &OnnxCase) -> (r: bool)
    requires
        case@.op.family() == Family::Reshape,
        case.inputs.len() == 2,
    ensures
        r == reshape_holds(case@),
{
    assert(case@.inputs[1] == case.inputs@[1]@);
    assert(case@.inputs[0] == case.inputs@[0]@);
    match &case.inputs[1].data {
        TensorData::I64(_) => {
            let out: Vec<i64> = reshaped(case, &case.inputs[0].dims);
            !has_negative(&out) && holds_elements(&out, case.inputs[0].data.len())
        },
        _ => false,
    }
}

fn check_transpose(case: &OnnxCase) -> (r: bool)
    requires
        case.inputs.len() == 1,
    ensures
        r == transpose_holds(case@),
{
    assert(case@.inputs[0] == case.inputs@[0]@);
    match case.attrs.get("perm") {
        Some(AttrValue::Ints(perm)) => check_permutation(perm, case.inputs[0].dims.len()),
        Some(_) => false,
        None => true,
    }
}

fn check_same_but_for(a: &Vec<i64>, b: &Vec<i64>, axis: usize) -> (r: bool)
    ensures
        r == same_but_for(a@, b@, axis as int),
{
    if a.len() != b.len() {
        return false;
    }
    let mut k: usize = 0;
    while k < a.len()
        invariant
            k <= a.len() == b.len(),
            forall|i: int| 0 <= i < k && i != axis ==> #[trigger] a@[i] == b@[i],
        decreases a.len() - k,
    {
        if k != axis && a[k] != b[k] {
            return false;
        }
        k += 1;
    }
    true
}

fn check_concat(case: &OnnxCase) -> (r: bool)
    requires
        case.inputs.len() >= 1,
    ensures
        r == concat_holds(case@),
{
    assert(case@.inputs[0] == case.inputs@[0]@);
    if case.attrs.get("axis").is_none() {
        return false;
    }
    match named_axis(case, case.inputs[0].dims.len()) {
        None => false,
        Some(axis) => {
            let mut i: usize = 0;
            while i < case.inputs.len()
                invariant
                    i <= case.inputs.len(),
                    case.inputs.len() >= 1,
                    axis == axis_of(case@.attrs, case@.inputs[0].dims.len()),
                    forall|k: int|
                        0 <= k < i ==> same_but_for(
                            (#[trigger] case@.inputs[k]).dims,
                            case@.inputs[0].dims,
                            axis as int,
                        ),
                decreases case.inputs.len() - i,
            {
                assert(case@.inputs[i as int] == case.inputs@[i as int]@);
                assert(case@.inputs[0] == case.inputs@[0]@);
                if !check_same_but_for(&case.inputs[i].dims, &case.inputs[0].dims, axis) {
                    return false;
                }
                i += 1;
            }
            true
        },
    }
}

fn check_gather(case: &OnnxCase) -> (r: bool)
    requires
        case.inputs.len() == 2,
    ensures
        r == gather_holds(case@),
{
    assert(case@.inputs[0] == case.inputs@[0]@);
    assert(case@.inputs[1] == case.inputs@[1]@);
    match named_axis(case, case.inputs[0].dims.len()) {
        None => false,
        Some(axis) => match &case.inputs[1].data {
            TensorData::I64(indices) => {
                let extent: i128 = case.inputs[0].dims[axis] as i128;
                let mut k: usize = 0;
                while k < indices.len()
                    invariant
                        k <= indices.len(),
                        integers_at(case@, 1) == indices@,
                        extent == case@.inputs[0].dims[axis as int],
                        axis == axis_of(case@.attrs, case@.inputs[0].dims.len()),
                        forall|j: int|
                            #![trigger integers_at(case@, 1)[j]]
                            0 <= j < k ==> -extent <= integers_at(case@, 1)[j] < extent,
                    decreases indices.len() - k,
                {
                    let index: i128 = indices[k] as i128;
                    assert(integers_at(case@, 1)[k as int] == index);
                    if index < -extent || index >= extent {
                        return false;
                    }
                    k += 1;
                }
                true
            },
            _ => false,
        },
    }
}

fn check_squeeze(case: &OnnxCase) -> (r: bool)
    requires
        1 <= case.inputs.len() <= 2,
    ensures
        r == squeeze_holds(case@),
{
    if case.inputs.len() < 2 {
        return true;
    }
    assert(case@.inputs[0] == case.inputs@[0]@);
    assert(case@.inputs[1] == case.inputs@[1]@);
    let dims: &Vec<i64> = &case.inputs[0].dims;
    match &case.inputs[1].data {
        TensorData::I64(axes) => {
            let mut k: usize = 0;
            while k < axes.len()
                invariant
                    k <= axes.len(),
                    case.inputs.len() == 2,
                    integers_at(case@, 1) == axes@,
                    dims@ == case@.inputs[0].dims,
                    forall|j: int|
                        #![trigger integers_at(case@, 1)[j]]
                        0 <= j < k ==> 0 <= integers_at(case@, 1)[j] < dims@.len()
                            && dims@[integers_at(case@, 1)[j] as int] == 1,
                decreases axes.len() - k,
            {
                let axis: i64 = axes[k];
                assert(integers_at(case@, 1)[k as int] == axis);
                if axis < 0 || axis as u64 >= dims.len() as u64 || dims[axis as usize] != 1 {
                    return false;
                }
                k += 1;
            }
            true
        },
        _ => false,
    }
}

fn check_unsqueeze(case: &OnnxCase) -> (r: bool)
    requires
        case.inputs.len() == 2,
    ensures
        r == unsqueeze_holds(case@),
{
    assert(case@.inputs[0] == case.inputs@[0]@);
    assert(case@.inputs[1] == case.inputs@[1]@);
    match &case.inputs[1].data {
        TensorData::I64(axes) => {
            let limit: u128 = case.inputs[0].dims.len() as u128 + axes.len() as u128;
            let mut i: usize = 0;
            while i < axes.len()
                invariant
                    i <= axes.len(),
                    integers_at(case@, 1) == axes@,
                    limit == case@.inputs[0].dims.len() + axes@.len(),
                    forall|k: int| 0 <= k < i ==> 0 <= #[trigger] axes@[k] < limit,
                    forall|a: int, b: int|
                        0 <= a < b < i ==> #[trigger] axes@[a] != #[trigger] axes@[b],
                decreases axes.len() - i,
            {
                if axes[i] < 0 || axes[i] as u128 >= limit {
                    return false;
                }
                let mut j: usize = 0;
                while j < i
                    invariant
                        j <= i < axes.len(),
                        integers_at(case@, 1) == axes@,
                        forall|a: int| 0 <= a < j ==> #[trigger] axes@[a] != axes@[i as int],
                    decreases i - j,
                {
                    if axes[j] == axes[i] {
                        return false;
                    }
                    j += 1;
                }
                i += 1;
            }
            true
        },
        _ => false,
    }
}

fn check_leading(axes: &Vec<i64>, count: usize) -> (r: bool)
    ensures
        r == leading_axes(axes@, count as nat),
{
    if axes.len() != count {
        return false;
    }
    let mut k: usize = 0;
    while k < axes.len()
        invariant
            k <= axes.len() == count,
            forall|j: int| 0 <= j < k ==> #[trigger] axes@[j] == j,
        decreases axes.len() - k,
    {
        if axes[k] < 0 || axes[k] as u64 != k as u64 {
            assert(axes@[k as int] != k);
            return false;
        }
        k += 1;
    }
    true
}

fn check_steps(steps: &Vec<i64>, count: usize) -> (r: bool)
    ensures
        r == single_steps(steps@, count as nat),
{
    if steps.len() != count {
        return false;
    }
    let mut k: usize = 0;
    while k < steps.len()
        invariant
            k <= steps.len() == count,
            forall|j: int| 0 <= j < k ==> #[trigger] steps@[j] == 1,
        decreases steps.len() - k,
    {
        if steps[k] != 1 {
            assert(steps@[k as int] != 1);
            return false;
        }
        k += 1;
    }
    true
}

/// Whether the input at a position, if there is one, lists the leading axes.
fn check_axes_input(case: &OnnxCase, index: usize, count: usize) -> (r: bool)
    ensures
        r == (case@.inputs.len() > index ==> case@.inputs[index as int].data is I64
            && leading_axes(integers_at(case@, index as int), count as nat)),
{
    if index >= case.inputs.len() {
        return true;
    }
    assert(case@.inputs[index as int] == case.inputs@[index as int]@);
    match &case.inputs[index].data {
        TensorData::I64(axes) => check_leading(axes, count),
        _ => false,
    }
}

fn check_slice(case: &OnnxCase) -> (r: bool)
    requires
        case.inputs.len() >= 3,
    ensures
        r == slice_holds(case@),
{
    assert(case@.inputs[0] == case.inputs@[0]@);
    assert(case@.inputs[1] == case.inputs@[1]@);
    assert(case@.inputs[2] == case.inputs@[2]@);
    let dims: &Vec<i64> = &case.inputs[0].dims;
    match (&case.inputs[1].data, &case.inputs[2].data) {
        (TensorData::I64(starts), TensorData::I64(ends)) => {
            if starts.len() != ends.len() || starts.len() > dims.len() {
                return false;
            }
            let mut k: usize = 0;
            while k < starts.len()
                invariant
                    k <= starts.len() == ends.len(),
                    starts.len() <= dims.len(),
                    integers_at(case@, 1) == starts@,
                    integers_at(case@, 2) == ends@,
                    dims@ == case@.inputs[0].dims,
                    forall|j: int|
                        0 <= j < k ==> 0 <= #[trigger] starts@[j] <= ends@[j] <= dims@[j],
                decreases starts.len() - k,
            {
                let (start, end, extent): (i64, i64, i64) = (starts[k], ends[k], dims[k]);
                if start < 0 || start > end || end > extent {
                    assert(!(0 <= starts@[k as int] <= ends@[k as int] <= dims@[k as int]));
                    return false;
                }
                k += 1;
            }
            if !check_axes_input(case, 3, starts.len()) {
                return false;
            }
            if case.inputs.len() <= 4 {
                return true;
            }
            assert(case@.inputs[4] == case.inputs@[4]@);
            match &case.inputs[4].data {
                TensorData::I64(steps) => check_steps(steps, starts.len()),
                _ => false,
            }
        },
        _ => false,
    }
}

fn check_pad(case: &OnnxCase) -> (r: bool)
    requires
        case.inputs.len() >= 2,
    ensures
        r == pad_holds(case@),
{
    assert(case@.inputs[0] == case.inputs@[0]@);
    assert(case@.inputs[1] == case.inputs@[1]@);
    let amounts: bool = match &case.inputs[1].data {
        TensorData::I64(pads) => pads.len() % 2 == 0 && pads.len() / 2 == case.inputs[0].dims.len()
            && !has_negative(pads),
        _ => false,
    };
    if !amounts {
        return false;
    }
    if case.inputs.len() > 2 {
        assert(case@.inputs[2] == case.inputs@[2]@);
        if case.inputs[2].dims.len() != 0 || case.inputs[2].elem_type()
            != case.inputs[0].elem_type() {
            return false;
        }
    }
    check_axes_input(case, 3, case.inputs[0].dims.len())
}

fn check_zero_point(t: &TensorValue) -> (r: bool)
    ensures
        r == is_zero_point(t@),
{
    t.dims.len() == 0 && (t.elem_type() == ElemType::I8 || t.elem_type() == ElemType::U8)
}

fn check_scale(t: &TensorValue) -> (r: bool)
    ensures
        r == is_scale(t@),
{
    t.dims.len() == 0 && t.elem_type() == ElemType::F32
}

fn check_matmul(case: &OnnxCase) -> (r: bool)
    requires
        case.inputs.len() == 4,
    ensures
        r == matmul_holds(case@),
{
    assert(case@.inputs[0] == case.inputs@[0]@);
    assert(case@.inputs[1] == case.inputs@[1]@);
    assert(case@.inputs[2] == case.inputs@[2]@);
    assert(case@.inputs[3] == case.inputs@[3]@);
    case.inputs[0].dims.len() == 2 && case.inputs[1].dims.len() == 2 && case.inputs[0].dims[1]
        == case.inputs[1].dims[0] && check_zero_point(&case.inputs[2]) && check_zero_point(
        &case.inputs[3],
    ) && case.inputs[2].elem_type() == case.inputs[0].elem_type() && case.inputs[3].elem_type()
        == case.inputs[1].elem_type()
}

fn check_parameters(case: &OnnxCase, family: Family) -> (r: bool)
    requires
        family == case@.op.family(),
        arity_holds(case@),
    ensures
        r == parameters_hold(case@),
{
    assert(case@.inputs.len() == case.inputs.len());
    match family {
        Family::Select => {
            assert(case@.inputs[0] == case.inputs@[0]@);
            assert(case@.inputs[1] == case.inputs@[1]@);
            assert(case@.inputs[2] == case.inputs@[2]@);
            case.inputs[0].elem_type() == ElemType::Bool && case.inputs[1].elem_type()
                == case.inputs[2].elem_type()
        },
        Family::Cast => check_target(case),
        Family::Reshape => check_reshape(case),
        Family::Transpose => check_transpose(case),
        Family::Concat => check_concat(case),
        Family::Gather => check_gather(case),
        Family::Squeeze => check_squeeze(case),
        Family::Unsqueeze => check_unsqueeze(case),
        Family::Slice => check_slice(case),
        Family::Pad => check_pad(case),
        Family::Quantize => {
            assert(case@.inputs[1] == case.inputs@[1]@);
            assert(case@.inputs[2] == case.inputs@[2]@);
            check_scale(&case.inputs[1]) && check_zero_point(&case.inputs[2])
        },
        Family::Dequantize => {
            assert(case@.inputs[0] == case.inputs@[0]@);
            assert(case@.inputs[1] == case.inputs@[1]@);
            assert(case@.inputs[2] == case.inputs@[2]@);
            check_scale(&case.inputs[1]) && check_zero_point(&case.inputs[2])
                && case.inputs[2].elem_type() == case.inputs[0].elem_type()
        },
        Family::MatMulInteger => check_matmul(case),
        Family::DynamicQuantize => {
            assert(case@.inputs[0] == case.inputs@[0]@);
            case.inputs[0].data.len() > 0
        },
        _ => true,
    }
}

fn check_type(case: &OnnxCase, spec: &OpSpec) -> (r: bool)
    requires
        spec.data_types@ == case@.op.data_types(),
    ensures
        r == case@.op.data_types().contains(data_elem_of(case@)),
{
    crate::ops::contains_type(&spec.data_types, data_elem_type(case))
}

/// Whether a case is free of one kind of problem.
pub fn check(case: &OnnxCase, problem: Problem) -> (r: bool)
    ensures
        r == free_of(case@, problem),
{
    let spec: OpSpec = op_spec(case.op);
    let (least, most): (usize, usize) = arity_range(case.op);
    let arity: bool = least <= case.inputs.len() && case.inputs.len() <= most;
    assert(arity == arity_holds(case@));
    match problem {
        Problem::Arity => arity,
        Problem::Opset => spec.since <= case.opset,
        Problem::NegativeExtent => check_extents(case),
        Problem::DataLength => check_lengths(case),
        Problem::DuplicateName => check_names(case),
        Problem::ElementType => check_type(case, &spec),
        Problem::Disagreement => check_agreement(case),
        Problem::Parameter => !arity || check_parameters(case, spec.family),
    }
}

/// What is wrong with a case. Nothing is, exactly when it is legal.
pub fn validate(case: &OnnxCase) -> (r: Vec<Problem>)
    ensures
        r@ == problems_of(case@),
        (r.len() == 0) == valid(case@),
{
    let ghost bad = |p: Problem| !free_of(case@, p);
    let mut out: Vec<Problem> = Vec::new();
    proof {
        reveal(Seq::filter);
    }
    assert(PROBLEMS@.take(0).filter(bad) =~= Seq::empty());
    let mut k: usize = 0;
    while k < 8
        invariant
            k <= 8,
            PROBLEMS@.len() == 8,
            bad == (|p: Problem| !free_of(case@, p)),
            out@ == PROBLEMS@.take(k as int).filter(bad),
            (out.len() == 0) == (forall|j: int|
                0 <= j < k ==> free_of(case@, #[trigger] PROBLEMS@[j])),
        decreases 8 - k,
    {
        let p: Problem = PROBLEMS[k];
        proof {
            assert(PROBLEMS@.take(k + 1) =~= PROBLEMS@.take(k as int).push(p));
            PROBLEMS@.take(k as int).lemma_filter_push(p, bad);
        }
        if !check(case, p) {
            out.push(p);
        }
        k += 1;
    }
    assert(PROBLEMS@.take(8) =~= PROBLEMS@);
    proof {
        if out.len() == 0 {
            assert forall|p: Problem| #[trigger] free_of(case@, p) by {
                lemma_every_problem_is_listed(p);
            }
        }
    }
    out
}

proof fn lemma_every_problem_is_listed(p: Problem)
    ensures
        exists|j: int| 0 <= j < 8 && #[trigger] PROBLEMS@[j] == p,
{
    assert(PROBLEMS@[0] == Problem::Arity);
    assert(PROBLEMS@[1] == Problem::Opset);
    assert(PROBLEMS@[2] == Problem::NegativeExtent);
    assert(PROBLEMS@[3] == Problem::DataLength);
    assert(PROBLEMS@[4] == Problem::DuplicateName);
    assert(PROBLEMS@[5] == Problem::ElementType);
    assert(PROBLEMS@[6] == Problem::Disagreement);
    assert(PROBLEMS@[7] == Problem::Parameter);
}

// ---- samples ----

/// The conventional name of the input at a position: a letter, while there are letters.
pub open spec fn input_name_text(index: nat) -> Seq<char> {
    if index < 26 {
        seq![(97 + index) as char]
    } else {
        "input"@ + decimal_text(index)
    }
}

/// The conventional name of the input at a position.
pub fn input_name(index: usize) -> (r: String)
    ensures
        r@ == input_name_text(index as nat),
{
    let mut out: String = String::new();
    if index < 26 {
        out.push((97 + index as u8) as char);
        assert(out@ =~= input_name_text(index as nat));
    } else {
        out.append("input");
        out.append(decimal(index as u64).as_str());
        assert(out@ =~= input_name_text(index as nat));
    }
    out
}

/// A small positive number that differs from element to element and from input to input.
pub open spec fn sample_number(k: int, input: nat) -> int {
    1 + (k % 100 + 10 * input) % 100
}

/// The elements of a sample tensor.
pub open spec fn sample_data(elem: ElemType, count: nat, input: nat) -> DataModel {
    match elem {
        ElemType::F32 => DataModel::F32(
            Seq::new(count, |k: int| f32_exact(false, sample_number(k, input) as nat, 0)),
        ),
        ElemType::F64 => DataModel::F64(
            Seq::new(count, |k: int| f64_exact(false, sample_number(k, input) as nat, 0)),
        ),
        ElemType::I32 => DataModel::I32(Seq::new(count, |k: int| sample_number(k, input) as i32)),
        ElemType::I64 => DataModel::I64(Seq::new(count, |k: int| sample_number(k, input) as i64)),
        ElemType::Bool => DataModel::Bool(
            Seq::new(count, |k: int| sample_number(k, input) % 2 == 0),
        ),
        ElemType::I8 => DataModel::I8(Seq::new(count, |k: int| sample_number(k, input) as i8)),
        ElemType::U8 => DataModel::U8(Seq::new(count, |k: int| sample_number(k, input) as u8)),
    }
}

/// A case in which every input of an operator has one shape and one type.
pub open spec fn sample_case(op: OpKind, dims: Seq<i64>, opset: i64, elem: ElemType) -> CaseModel {
    CaseModel {
        opset,
        op,
        inputs: Seq::new(
            op.sample_arity() as nat,
            |i: int|
                TensorModel {
                    name: input_name_text(i as nat),
                    dims,
                    data: sample_data(elem, product(dims) as nat, i as nat),
                    role: InputRole::Data,
                },
        ),
        attrs: Seq::empty(),
    }
}

proof fn lemma_sample_top_bit(m: nat)
    requires
        0 < m <= 100,
    ensures
        0 <= top_bit(m) <= 6,
{
    reveal_with_fuel(top_bit, 8);
}

/// The sample number as an integer.
fn number_at(k: usize, input: usize) -> (r: u32)
    requires
        input < 100,
    ensures
        r == sample_number(k as int, input as nat),
        1 <= r <= 100,
{
    1 + ((k % 100) as u32 + 10 * input as u32) % 100
}

fn samples(elem: ElemType, count: usize, input: usize) -> (r: TensorData)
    requires
        input < 100,
    ensures
        r@ == sample_data(elem, count as nat, input as nat),
{
    let ghost model = sample_data(elem, count as nat, input as nat);
    match elem {
        ElemType::F32 => {
            let mut v: Vec<u32> = Vec::new();
            let mut k: usize = 0;
            while k < count
                invariant
                    k <= count,
                    input < 100,
                    v.len() == k,
                    forall|j: int|
                        0 <= j < k ==> #[trigger] v@[j] == f32_exact(
                            false,
                            sample_number(j, input as nat) as nat,
                            0,
                        ),
                decreases count - k,
            {
                let n: u32 = number_at(k, input);
                proof {
                    lemma_sample_top_bit(n as nat);
                }
                v.push(f32_of(false, n, 0));
                k += 1;
            }
            assert(v@ =~= model->F32_0);
            TensorData::F32(v)
        },
        ElemType::F64 => {
            let mut v: Vec<u64> = Vec::new();
            let mut k: usize = 0;
            while k < count
                invariant
                    k <= count,
                    input < 100,
                    v.len() == k,
                    forall|j: int|
                        0 <= j < k ==> #[trigger] v@[j] == f64_exact(
                            false,
                            sample_number(j, input as nat) as nat,
                            0,
                        ),
                decreases count - k,
            {
                let n: u32 = number_at(k, input);
                v.push(f64_of(false, n, 0));
                k += 1;
            }
            assert(v@ =~= model->F64_0);
            TensorData::F64(v)
        },
        ElemType::I32 => {
            let mut v: Vec<i32> = Vec::new();
            let mut k: usize = 0;
            while k < count
                invariant
                    k <= count,
                    input < 100,
                    v.len() == k,
                    forall|j: int|
                        0 <= j < k ==> #[trigger] v@[j] == sample_number(j, input as nat) as i32,
                decreases count - k,
            {
                v.push(number_at(k, input) as i32);
                k += 1;
            }
            assert(v@ =~= model->I32_0);
            TensorData::I32(v)
        },
        ElemType::I64 => {
            let mut v: Vec<i64> = Vec::new();
            let mut k: usize = 0;
            while k < count
                invariant
                    k <= count,
                    input < 100,
                    v.len() == k,
                    forall|j: int|
                        0 <= j < k ==> #[trigger] v@[j] == sample_number(j, input as nat) as i64,
                decreases count - k,
            {
                v.push(number_at(k, input) as i64);
                k += 1;
            }
            assert(v@ =~= model->I64_0);
            TensorData::I64(v)
        },
        ElemType::Bool => {
            let mut v: Vec<bool> = Vec::new();
            let mut k: usize = 0;
            while k < count
                invariant
                    k <= count,
                    input < 100,
                    v.len() == k,
                    forall|j: int|
                        0 <= j < k ==> #[trigger] v@[j] == (sample_number(j, input as nat) % 2
                            == 0),
                decreases count - k,
            {
                v.push(number_at(k, input) % 2 == 0);
                k += 1;
            }
            assert(v@ =~= model->Bool_0);
            TensorData::Bool(v)
        },
        ElemType::I8 => {
            let mut v: Vec<i8> = Vec::new();
            let mut k: usize = 0;
            while k < count
                invariant
                    k <= count,
                    input < 100,
                    v.len() == k,
                    forall|j: int|
                        0 <= j < k ==> #[trigger] v@[j] == sample_number(j, input as nat) as i8,
                decreases count - k,
            {
                v.push(number_at(k, input) as i8);
                k += 1;
            }
            assert(v@ =~= model->I8_0);
            TensorData::I8(v)
        },
        ElemType::U8 => {
            let mut v: Vec<u8> = Vec::new();
            let mut k: usize = 0;
            while k < count
                invariant
                    k <= count,
                    input < 100,
                    v.len() == k,
                    forall|j: int|
                        0 <= j < k ==> #[trigger] v@[j] == sample_number(j, input as nat) as u8,
                decreases count - k,
            {
                v.push(number_at(k, input) as u8);
                k += 1;
            }
            assert(v@ =~= model->U8_0);
            TensorData::U8(v)
        },
    }
}

/// A sample case in which every input of an operator has one shape and one type. It is legal for
/// the operators that ask for just that.
pub fn well_formed_typed(op: OpKind, dims: &Vec<i64>, opset: i64, elem: ElemType) -> (r: OnnxCase)
    requires
        !any_negative(dims@),
        product_fits(dims@),
        product(dims@) <= usize::MAX,
    ensures
        r@ == sample_case(op, dims@, opset, elem),
{
    proof {
        lemma_product_nonnegative(dims@);
    }
    let count: usize = product_of(dims) as usize;
    let total: usize = sample_inputs(op);
    let mut inputs: Vec<TensorValue> = Vec::new();
    let mut i: usize = 0;
    while i < total
        invariant
            i <= total <= 4,
            count == product(dims@),
            inputs.len() == i,
            forall|k: int|
                0 <= k < i ==> (#[trigger] inputs@[k])@ == (TensorModel {
                    name: input_name_text(k as nat),
                    dims: dims@,
                    data: sample_data(elem, count as nat, k as nat),
                    role: InputRole::Data,
                }),
        decreases total - i,
    {
        inputs.push(
            TensorValue::new(input_name(i).as_str(), copy_dims(dims), samples(elem, count, i)),
        );
        i += 1;
    }
    let r: OnnxCase = OnnxCase::new(op, opset, inputs);
    assert(r@.inputs =~= sample_case(op, dims@, opset, elem).inputs);
    r
}

/// A single-precision sample case.
pub fn well_formed(op: OpKind, dims: &Vec<i64>, opset: i64) -> (r: OnnxCase)
    requires
        !any_negative(dims@),
        product_fits(dims@),
        product(dims@) <= usize::MAX,
    ensures
        r@ == sample_case(op, dims@, opset, ElemType::F32),
{
    well_formed_typed(op, dims, opset, ElemType::F32)
}

// ---- laws ----

/// A sample case is legal for every operator whose inputs must have one shape and one type, at
/// every type and opset version that the operator admits.
pub proof fn lemma_samples_are_valid(op: OpKind, dims: Seq<i64>, opset: i64, elem: ElemType)
    requires
        !any_negative(dims),
        op.admits(elem, opset),
        op.family() == Family::UnaryElementwise || op.family() == Family::BinaryElementwise
            || op.family() == Family::Comparison,
    ensures
        valid(sample_case(op, dims, opset, elem)),
{
    let c = sample_case(op, dims, opset, elem);
    lemma_product_nonnegative(dims);
    assert forall|i: int, j: int| 0 <= i < j < c.inputs.len() implies (#[trigger] c.inputs[i]).name
        != (#[trigger] c.inputs[j]).name by {
        assert(input_name_text(i as nat)[0] == (97 + i) as char);
        assert(input_name_text(j as nat)[0] == (97 + j) as char);
    }
    assert(lengths_hold(c));
    assert(data_elem_of(c) == elem);
}

pub proof fn lemma_product_one(a: i64)
    ensures
        product(seq![a]) == a,
{
    reveal_with_fuel(product, 2);
    assert(seq![a].drop_last() =~= Seq::empty());
    assert(1 * a == a) by (nonlinear_arith);
}

pub proof fn lemma_product_two(a: i64, b: i64)
    ensures
        product(seq![a, b]) == a * b,
{
    lemma_product_one(a);
    assert(seq![a, b].drop_last() =~= seq![a]);
}

proof fn lemma_product_three(a: i64, b: i64, c: i64)
    ensures
        product(seq![a, b, c]) == a * b * c,
{
    lemma_product_two(a, b);
    assert(seq![a, b, c].drop_last() =~= seq![a, b]);
}

proof fn lemma_probe_product(rank: nat)
    ensures
        1 <= product(probe_shape(rank)) <= 12,
        !any_negative(probe_shape(rank)),
        rank > 0 ==> probe_shape(rank).len() > 0,
        rank > 0 ==> product(probe_shape(rank).update(0, 1)) >= 1,
        rank > 0 ==> !any_negative(probe_shape(rank).update(0, 1)),
        product(seq![2i64, 3i64]) == 6,
        product(seq![3i64, 2i64]) == 6,
        product(seq![1i64]) == 1,
        product(Seq::<i64>::empty()) == 1,
{
    let dims = probe_shape(rank);
    lemma_product_one(1);
    lemma_product_one(3);
    lemma_product_two(2, 3);
    lemma_product_two(3, 2);
    lemma_product_two(1, 3);
    lemma_product_three(2, 3, 2);
    lemma_product_three(1, 3, 2);
    if rank == 1 {
        assert(dims.update(0, 1) =~= seq![1i64]);
    } else if rank == 2 {
        assert(dims.update(0, 1) =~= seq![1i64, 3i64]);
    } else if rank > 2 {
        assert(dims.update(0, 1) =~= seq![1i64, 3i64, 2i64]);
    }
}

proof fn lemma_probe_names(op: OpKind, elem: ElemType, rank: nat, i: int, j: int)
    requires
        0 <= i < j < probe_inputs(op, elem, rank).len(),
    ensures
        probe_inputs(op, elem, rank)[i].name != probe_inputs(op, elem, rank)[j].name,
{
    reveal_strlit("a");
    reveal_strlit("b");
    reveal_strlit("c");
    reveal_strlit("scale");
    reveal_strlit("zp");
    reveal_strlit("a_zp");
    reveal_strlit("b_zp");
    assert("a"@[0] == 'a' && "b"@[0] == 'b' && "c"@[0] == 'c' && "scale"@[0] == 's' && "zp"@[0]
        == 'z' && "a_zp"@[1] == '_' && "b_zp"@[0] == 'b' && "a"@.len() == 1 && "b"@.len() == 1
        && "a_zp"@.len() == 4 && "b_zp"@.len() == 4 && "a_zp"@[0] == 'a');
}

proof fn lemma_single_attribute(name: Seq<char>, value: AttrModel)
    ensures
        lookup(seq![(name, value)], name) == Some(value),
{
}

proof fn lemma_probe_parameters(op: OpKind, elem: ElemType, opset: i64, rank: nat)
    requires
        probe_exists(op, elem, opset, rank),
    ensures
        parameters_hold(probe_model(op, elem, opset, rank)),
{
    let c = probe_model(op, elem, opset, rank);
    let dims = probe_shape(rank);
    lemma_probe_product(rank);
    match op.family() {
        Family::Cast => {
            let target = if elem == ElemType::I64 {
                ElemType::F32
            } else {
                ElemType::I64
            };
            lemma_single_attribute("to"@, AttrModel::Int(target.wire_number() as i64));
            lemma_wire_round_trip(target);
        },
        Family::Reshape => {
            lemma_no_attributes("allowzero"@);
            assert(output_dims(c) =~= seq![product(dims) as i64]);
            lemma_product_one(product(dims) as i64);
            assert(c.inputs[0].data.len() == product(dims));
        },
        Family::Transpose => {
            let perm = Seq::new(dims.len(), |i: int| (dims.len() - 1 - i) as i64);
            lemma_single_attribute("perm"@, AttrModel::Ints(perm));
            assert(is_permutation(perm, dims.len()));
        },
        Family::Concat => {
            lemma_single_attribute("axis"@, AttrModel::Int(0));
        },
        Family::Gather => {
            lemma_single_attribute("axis"@, AttrModel::Int(0));
            assert(integers_at(c, 1) =~= seq![0i64]);
        },
        Family::Squeeze => {
            assert(integers_at(c, 1) =~= seq![0i64]);
        },
        Family::Unsqueeze => {
            assert(integers_at(c, 1) =~= seq![0i64]);
        },
        Family::Slice => {
            assert(integers_at(c, 1) =~= seq![0i64]);
            assert(integers_at(c, 2) =~= seq![1i64]);
        },
        _ => {},
    }
}

proof fn lemma_no_attributes(name: Seq<char>)
    ensures
        lookup(Seq::<(Seq<char>, AttrModel)>::empty(), name) is None,
{
}

/// Every probe is legal.
pub proof fn lemma_probes_are_valid(op: OpKind, elem: ElemType, opset: i64, rank: nat)
    requires
        probe_exists(op, elem, opset, rank),
    ensures
        valid(probe_model(op, elem, opset, rank)),
{
    let c = probe_model(op, elem, opset, rank);
    lemma_probe_product(rank);
    lemma_probe_parameters(op, elem, opset, rank);
    assert forall|i: int, j: int| 0 <= i < j < c.inputs.len() implies (#[trigger] c.inputs[i]).name
        != (#[trigger] c.inputs[j]).name by {
        lemma_probe_names(op, elem, rank, i, j);
    }
    assert(extents_hold(c));
    lemma_product_one((2 * probe_shape(rank).len()) as i64);
    assert(lengths_hold(c));
    assert(data_elem_of(c) == elem);
    assert(agreement_holds(c));
    assert forall|p: Problem| #[trigger] free_of(c, p) by {}
}

/// Whether a case is legal.
pub fn is_valid(case: &OnnxCase) -> (r: bool)
    ensures
        r == valid(case@),
{
    validate(case).len() == 0
}

} // verus!
