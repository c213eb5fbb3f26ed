//! What each operator is: its type constraints, its arity, the shape and type of its output, and
//! a minimal model that exercises it.
//!
//! Output inference is what a model declares as its output, so a mistake here would make every
//! runtime reject a perfectly good case. It follows the operator's own definition and repairs
//! nothing: a case whose inputs make no sense gets an output that makes no sense, and the
//! validator is what says so.

use vstd::prelude::*;

use crate::attrs::{lookup, AttrModel, AttrValue, Attrs};
use crate::bits::{f32_exact, f32_of, f64_exact, f64_of, top_bit};
use crate::case::{product, product_fits, product_of, tensors_model};
use crate::case::{CaseModel, DataModel, ElemType, InputRole, OnnxCase, OpKind};
use crate::case::{TensorData, TensorModel, TensorValue};
use crate::order::{sort_i64, sort_integers};

verus! {

// ---- the table of operators ----

/// How an operator's results may be compared: exactly, within IEEE 754's rules, or after
/// quantization.
#[derive(Debug, Clone, Copy, PartialEq, Eq, Structural)]
pub enum Tier {
    A,
    B,
    Q,
}

/// Operators that share a calling convention.
#[derive(Debug, Clone, Copy, PartialEq, Eq, Structural)]
pub enum Family {
    UnaryElementwise,
    BinaryElementwise,
    Comparison,
    Select,
    Cast,
    Reshape,
    Transpose,
    Concat,
    Gather,
    Squeeze,
    Unsqueeze,
    Shape,
    Size,
    Slice,
    Pad,
    Quantize,
    Dequantize,
    MatMulInteger,
    DynamicQuantize,
}

/// What is known of one operator.
#[derive(Debug)]
pub struct OpSpec {
    pub kind: OpKind,
    pub tier: Tier,
    pub family: Family,
    /// The opset version that introduced the form this library builds.
    pub since: i64,
    /// The element types its data inputs may have.
    pub data_types: Vec<ElemType>,
    /// Whether the output depends on the values of the inputs and not on their shapes alone.
    pub value_dependent: bool,
}

impl OpKind {
    pub open spec fn tier(self) -> Tier {
        match self {
            OpKind::Identity | OpKind::Reshape | OpKind::Transpose | OpKind::Concat
            | OpKind::Squeeze | OpKind::Unsqueeze | OpKind::Shape | OpKind::Size | OpKind::Slice
            | OpKind::Pad | OpKind::Gather | OpKind::Where | OpKind::Cast | OpKind::Equal
            | OpKind::Greater | OpKind::Less | OpKind::And | OpKind::Or | OpKind::Xor
            | OpKind::Not => Tier::A,
            OpKind::QuantizeLinear | OpKind::DequantizeLinear | OpKind::MatMulInteger
            | OpKind::DynamicQuantizeLinear => Tier::Q,
            _ => Tier::B,
        }
    }

    pub open spec fn family(self) -> Family {
        match self {
            OpKind::Reshape => Family::Reshape,
            OpKind::Transpose => Family::Transpose,
            OpKind::Concat => Family::Concat,
            OpKind::Squeeze => Family::Squeeze,
            OpKind::Unsqueeze => Family::Unsqueeze,
            OpKind::Shape => Family::Shape,
            OpKind::Size => Family::Size,
            OpKind::Slice => Family::Slice,
            OpKind::Pad => Family::Pad,
            OpKind::Gather => Family::Gather,
            OpKind::Where => Family::Select,
            OpKind::Cast => Family::Cast,
            OpKind::Equal | OpKind::Greater | OpKind::Less => Family::Comparison,
            OpKind::And | OpKind::Or | OpKind::Xor | OpKind::Add | OpKind::Sub | OpKind::Mul
            | OpKind::Div | OpKind::Min | OpKind::Max => Family::BinaryElementwise,
            OpKind::QuantizeLinear => Family::Quantize,
            OpKind::DequantizeLinear => Family::Dequantize,
            OpKind::MatMulInteger => Family::MatMulInteger,
            OpKind::DynamicQuantizeLinear => Family::DynamicQuantize,
            OpKind::Identity | OpKind::Not | OpKind::Abs | OpKind::Neg | OpKind::Sign
            | OpKind::Sqrt | OpKind::Floor | OpKind::Ceil | OpKind::Round
                => Family::UnaryElementwise,
        }
    }

    pub open spec fn since(self) -> i64 {
        match self {
            OpKind::Identity | OpKind::Reshape | OpKind::Transpose | OpKind::Squeeze
            | OpKind::Unsqueeze | OpKind::Shape | OpKind::Size | OpKind::Pad | OpKind::Cast
            | OpKind::QuantizeLinear | OpKind::DequantizeLinear => 21,
            OpKind::Concat | OpKind::Slice | OpKind::Gather | OpKind::Greater | OpKind::Less
            | OpKind::Min | OpKind::Max | OpKind::Abs | OpKind::Neg | OpKind::Sign | OpKind::Sqrt
            | OpKind::Floor | OpKind::Ceil => 13,
            OpKind::Where => 16,
            OpKind::Equal => 19,
            OpKind::And | OpKind::Or | OpKind::Xor => 7,
            OpKind::Not => 1,
            OpKind::Add | OpKind::Sub | OpKind::Mul | OpKind::Div => 14,
            OpKind::Round => 22,
            OpKind::MatMulInteger => 10,
            OpKind::DynamicQuantizeLinear => 11,
        }
    }

    pub open spec fn data_types(self) -> Seq<ElemType> {
        match self {
            OpKind::Greater | OpKind::Less | OpKind::Add | OpKind::Sub | OpKind::Mul | OpKind::Div
            | OpKind::Min | OpKind::Max | OpKind::Abs | OpKind::Neg | OpKind::Sign => seq![
                ElemType::F32,
                ElemType::F64,
                ElemType::I32,
                ElemType::I64,
            ],
            OpKind::And | OpKind::Or | OpKind::Xor | OpKind::Not => seq![ElemType::Bool],
            OpKind::Sqrt | OpKind::Floor | OpKind::Ceil | OpKind::Round => seq![
                ElemType::F32,
                ElemType::F64,
            ],
            OpKind::QuantizeLinear | OpKind::DynamicQuantizeLinear => seq![ElemType::F32],
            OpKind::DequantizeLinear | OpKind::MatMulInteger => seq![ElemType::I8, ElemType::U8],
            _ => seq![
                ElemType::F32,
                ElemType::F64,
                ElemType::I32,
                ElemType::I64,
                ElemType::Bool,
            ],
        }
    }

    pub open spec fn value_dependent(self) -> bool {
        match self {
            OpKind::Identity | OpKind::Reshape | OpKind::Transpose | OpKind::Concat
            | OpKind::Squeeze | OpKind::Unsqueeze | OpKind::Shape | OpKind::Size | OpKind::Slice
            | OpKind::Pad => false,
            _ => true,
        }
    }

    /// Whether data inputs of a type are allowed at an opset version.
    pub open spec fn admits(self, elem: ElemType, opset: i64) -> bool {
        self.data_types().contains(elem) && opset >= self.since()
    }

    /// The fewest and the most inputs the operator takes. `Concat`, `Min` and `Max` take one or
    /// more, which is capped at what is ever built.
    pub open spec fn arity(self) -> (usize, usize) {
        match self.family() {
            Family::UnaryElementwise | Family::Shape | Family::Size | Family::Cast
            | Family::Transpose | Family::DynamicQuantize => (1, 1),
            Family::BinaryElementwise => if self == OpKind::Min || self == OpKind::Max {
                (1, 8)
            } else {
                (2, 2)
            },
            Family::Comparison | Family::Reshape | Family::Gather | Family::Unsqueeze => (2, 2),
            Family::Select | Family::Quantize | Family::Dequantize => (3, 3),
            Family::Concat => (1, 8),
            Family::Squeeze => (1, 2),
            Family::Slice => (3, 5),
            Family::Pad => (2, 4),
            Family::MatMulInteger => (4, 4),
        }
    }

    /// How many inputs a sample of the operator has: the fewest that it takes, but two where it
    /// combines elements, since of one there is nothing to combine.
    pub open spec fn sample_arity(self) -> usize {
        if self.family() == Family::BinaryElementwise {
            2
        } else {
            self.arity().0
        }
    }

    /// The fewest and the most inputs the operator takes.
    pub fn arity_range(self) -> (r: (usize, usize))
        ensures
            r == self.arity(),
    {
        arity_range(self)
    }

    pub fn is_value_dependent(self) -> (r: bool)
        ensures
            r == self.value_dependent(),
    {
        op_spec(self).value_dependent
    }
}

/// What is known of one operator.
pub fn op_spec(kind: OpKind) -> (r: OpSpec)
    ensures
        r.kind == kind,
        r.tier == kind.tier(),
        r.family == kind.family(),
        r.since == kind.since(),
        r.data_types@ == kind.data_types(),
        r.value_dependent == kind.value_dependent(),
{
    let any: Vec<ElemType> = vec![
        ElemType::F32,
        ElemType::F64,
        ElemType::I32,
        ElemType::I64,
        ElemType::Bool,
    ];
    let numeric: Vec<ElemType> = vec![ElemType::F32, ElemType::F64, ElemType::I32, ElemType::I64];
    let floats: Vec<ElemType> = vec![ElemType::F32, ElemType::F64];
    let bools: Vec<ElemType> = vec![ElemType::Bool];
    let quantized: Vec<ElemType> = vec![ElemType::I8, ElemType::U8];
    let single: Vec<ElemType> = vec![ElemType::F32];
    let (tier, family, since, data_types, value_dependent): (
        Tier,
        Family,
        i64,
        Vec<ElemType>,
        bool,
    ) = match kind {
        OpKind::Identity => (Tier::A, Family::UnaryElementwise, 21, any, false),
        OpKind::Reshape => (Tier::A, Family::Reshape, 21, any, false),
        OpKind::Transpose => (Tier::A, Family::Transpose, 21, any, false),
        OpKind::Concat => (Tier::A, Family::Concat, 13, any, false),
        OpKind::Squeeze => (Tier::A, Family::Squeeze, 21, any, false),
        OpKind::Unsqueeze => (Tier::A, Family::Unsqueeze, 21, any, false),
        OpKind::Shape => (Tier::A, Family::Shape, 21, any, false),
        OpKind::Size => (Tier::A, Family::Size, 21, any, false),
        OpKind::Slice => (Tier::A, Family::Slice, 13, any, false),
        OpKind::Pad => (Tier::A, Family::Pad, 21, any, false),
        OpKind::Gather => (Tier::A, Family::Gather, 13, any, true),
        OpKind::Where => (Tier::A, Family::Select, 16, any, true),
        OpKind::Cast => (Tier::A, Family::Cast, 21, any, true),
        OpKind::Equal => (Tier::A, Family::Comparison, 19, any, true),
        OpKind::Greater | OpKind::Less => (Tier::A, Family::Comparison, 13, numeric, true),
        OpKind::And | OpKind::Or | OpKind::Xor => (
            Tier::A,
            Family::BinaryElementwise,
            7,
            bools,
            true,
        ),
        OpKind::Not => (Tier::A, Family::UnaryElementwise, 1, bools, true),
        OpKind::Add | OpKind::Sub | OpKind::Mul | OpKind::Div => (
            Tier::B,
            Family::BinaryElementwise,
            14,
            numeric,
            true,
        ),
        OpKind::Min | OpKind::Max => (Tier::B, Family::BinaryElementwise, 13, numeric, true),
        OpKind::Abs | OpKind::Neg | OpKind::Sign => (
            Tier::B,
            Family::UnaryElementwise,
            13,
            numeric,
            true,
        ),
        OpKind::Sqrt | OpKind::Floor | OpKind::Ceil => (
            Tier::B,
            Family::UnaryElementwise,
            13,
            floats,
            true,
        ),
        OpKind::Round => (Tier::B, Family::UnaryElementwise, 22, floats, true),
        OpKind::QuantizeLinear => (Tier::Q, Family::Quantize, 21, single, true),
        OpKind::DequantizeLinear => (Tier::Q, Family::Dequantize, 21, quantized, true),
        OpKind::MatMulInteger => (Tier::Q, Family::MatMulInteger, 10, quantized, true),
        OpKind::DynamicQuantizeLinear => (Tier::Q, Family::DynamicQuantize, 11, single, true),
    };
    assert(data_types@ =~= kind.data_types());
    OpSpec { kind, tier, family, since, data_types, value_dependent }
}

/// The fewest and the most inputs an operator takes.
pub fn arity_range(kind: OpKind) -> (r: (usize, usize))
    ensures
        r == kind.arity(),
{
    match op_spec(kind).family {
        Family::UnaryElementwise
        | Family::Shape
        | Family::Size
        | Family::Cast
        | Family::Transpose
        | Family::DynamicQuantize => (1, 1),
        Family::BinaryElementwise => if kind == OpKind::Min || kind == OpKind::Max {
            (1, 8)
        } else {
            (2, 2)
        },
        Family::Comparison | Family::Reshape | Family::Gather | Family::Unsqueeze => (2, 2),
        Family::Select | Family::Quantize | Family::Dequantize => (3, 3),
        Family::Concat => (1, 8),
        Family::Squeeze => (1, 2),
        Family::Slice => (3, 5),
        Family::Pad => (2, 4),
        Family::MatMulInteger => (4, 4),
    }
}

/// How many inputs a sample of an operator has.
pub fn sample_inputs(kind: OpKind) -> (r: usize)
    ensures
        r == kind.sample_arity(),
        r <= 4,
{
    match op_spec(kind).family {
        Family::BinaryElementwise => 2,
        _ => arity_range(kind).0,
    }
}

/// Every operator takes at least one input, and its range of arities is not empty.
pub proof fn lemma_arity_is_a_range(op: OpKind)
    ensures
        1 <= op.arity().0 <= op.sample_arity() <= op.arity().1,
{
}

/// Whether an operator's inputs must have one shape, and whether they must have one type.
#[derive(Debug, Clone, Copy, PartialEq, Eq, Structural)]
pub struct InputAgreement {
    pub shapes: bool,
    pub elem_types: bool,
}

impl OpKind {
    /// What an operator's inputs must agree on. A shape vector, an index tensor or a zero point
    /// has a shape and a type of its own, so most families ask for nothing.
    pub open spec fn agreement(self) -> InputAgreement {
        match self.family() {
            Family::UnaryElementwise | Family::BinaryElementwise | Family::Comparison
            | Family::DynamicQuantize => InputAgreement { shapes: true, elem_types: true },
            Family::Concat => InputAgreement { shapes: false, elem_types: true },
            Family::Select => InputAgreement { shapes: true, elem_types: false },
            _ => InputAgreement { shapes: false, elem_types: false },
        }
    }
}

/// What an operator's inputs must agree on.
pub fn input_agreement(kind: OpKind) -> (r: InputAgreement)
    ensures
        r == kind.agreement(),
{
    let (shapes, elem_types): (bool, bool) = match op_spec(kind).family {
        Family::UnaryElementwise | Family::BinaryElementwise | Family::Comparison => (true, true),
        Family::Concat => (false, true),
        Family::Select => (true, false),
        Family::DynamicQuantize => (true, true),
        _ => (false, false),
    };
    InputAgreement { shapes, elem_types }
}

/// The opset versions at which an operator has the form this library builds: from the version
/// that introduced it up to the newest one used.
pub fn opset_span(kind: OpKind) -> (r: (i64, i64))
    ensures
        r == (kind.since(), 22i64),
        r.0 <= r.1,
{
    (op_spec(kind).since, 22)
}

// ---- what a case's inputs say ----

/// The shape of the first input.
pub open spec fn first_dims(c: CaseModel) -> Seq<i64> {
    if c.inputs.len() > 0 {
        c.inputs[0].dims
    } else {
        Seq::empty()
    }
}

/// The element type of the first input.
pub open spec fn first_elem(c: CaseModel) -> ElemType {
    if c.inputs.len() > 0 {
        c.inputs[0].elem_type()
    } else {
        ElemType::F32
    }
}

/// The axis an `axis` attribute names, counted from the front. A negative one counts from the
/// back, and one before the first axis means the first.
pub open spec fn axis_of(attrs: Seq<(Seq<char>, AttrModel)>, rank: nat) -> int {
    let raw: int = match lookup(attrs, "axis"@) {
        Some(AttrModel::Int(v)) => v as int,
        _ => 0,
    };
    if raw >= 0 {
        raw
    } else if rank + raw >= 0 {
        rank + raw
    } else {
        0
    }
}

/// The contents of an `int64` input, or nothing where there is no such input.
pub open spec fn integers_at(c: CaseModel, index: int) -> Seq<i64> {
    if index < c.inputs.len() {
        match c.inputs[index].data {
            DataModel::I64(v) => v,
            _ => Seq::empty(),
        }
    } else {
        Seq::empty()
    }
}

/// The extent at a position, or a default past the end.
pub open spec fn extent_or(dims: Seq<i64>, index: int, default: i64) -> i64 {
    if 0 <= index < dims.len() {
        dims[index]
    } else {
        default
    }
}

/// The sum of the extents along one axis.
pub open spec fn joined_extent(inputs: Seq<TensorModel>, axis: int) -> int
    decreases inputs.len(),
{
    if inputs.len() == 0 {
        0
    } else {
        joined_extent(inputs.drop_last(), axis) + extent_or(inputs.last().dims, axis, 0)
    }
}

/// The extents at positions that are not listed among the axes, from position `at` on.
pub open spec fn without_axes(dims: Seq<i64>, axes: Seq<i64>) -> Seq<i64>
    decreases dims.len(),
{
    if dims.len() == 0 {
        Seq::empty()
    } else {
        let rest = without_axes(dims.drop_last(), axes);
        if exists|k: int| 0 <= k < axes.len() && #[trigger] axes[k] == dims.len() - 1 {
            rest
        } else {
            rest.push(dims.last())
        }
    }
}

/// The extents that a squeeze without axes keeps.
pub open spec fn not_one() -> spec_fn(i64) -> bool {
    |extent: i64| extent != 1
}

/// Where an extent is inserted for an axis: at the axis, or at the end if it lies outside.
pub open spec fn insertion_point(axis: i64, len: nat) -> int {
    if 0 <= axis < len {
        axis as int
    } else {
        len as int
    }
}

/// A shape with an extent of one inserted at each axis in turn.
pub open spec fn with_ones(dims: Seq<i64>, axes: Seq<i64>) -> Seq<i64>
    decreases axes.len(),
{
    if axes.len() == 0 {
        dims
    } else {
        let before = with_ones(dims, axes.drop_last());
        before.insert(insertion_point(axes.last(), before.len()), 1)
    }
}

/// The extent left by a slice of one axis.
pub open spec fn sliced_extent(extent: i64, start: i64, end: i64) -> int {
    let kept = if extent <= end { extent - start } else { end - start };
    if kept < 0 {
        0
    } else {
        kept
    }
}

/// The extent of a padded axis.
pub open spec fn padded_extent(dims: Seq<i64>, pads: Seq<i64>, index: int) -> int {
    dims[index] + extent_or(pads, index, 0) + extent_or(pads, index + dims.len(), 0)
}

// ---- output inference ----

/// The element type of the first output.
pub open spec fn output_elem(c: CaseModel) -> ElemType {
    match c.op.family() {
        Family::Comparison => ElemType::Bool,
        Family::Quantize => if c.inputs.len() > 2 { c.inputs[2].elem_type() } else { ElemType::I8 },
        Family::Dequantize => if c.inputs.len() > 1 {
            c.inputs[1].elem_type()
        } else {
            ElemType::F32
        },
        Family::MatMulInteger => ElemType::I32,
        Family::DynamicQuantize => ElemType::U8,
        Family::Select => if c.inputs.len() > 1 { c.inputs[1].elem_type() } else { first_elem(c) },
        Family::Cast => match lookup(c.attrs, "to"@) {
            Some(AttrModel::Int(wire)) => match ElemType::of_wire(wire as i32) {
                Some(t) => t,
                None => first_elem(c),
            },
            _ => first_elem(c),
        },
        Family::Shape | Family::Size => ElemType::I64,
        _ => first_elem(c),
    }
}

/// The shape of the first output.
pub open spec fn output_dims(c: CaseModel) -> Seq<i64> {
    let dims = first_dims(c);
    match c.op.family() {
        Family::UnaryElementwise | Family::BinaryElementwise | Family::Comparison
        | Family::Quantize | Family::Dequantize | Family::DynamicQuantize | Family::Cast => dims,
        Family::MatMulInteger => {
            let n = if c.inputs.len() > 1 && c.inputs[1].dims.len() > 0 {
                c.inputs[1].dims.last()
            } else {
                1
            };
            if dims.len() == 0 {
                dims
            } else {
                dims.drop_last().push(n)
            }
        },
        Family::Select => if c.inputs.len() > 1 { c.inputs[1].dims } else { dims },
        Family::Reshape => {
            let allow_zero = lookup(c.attrs, "allowzero"@) == Some(AttrModel::Int(1));
            let target = if c.inputs.len() > 1 && c.inputs[1].data is I64 {
                c.inputs[1].data->I64_0
            } else {
                dims
            };
            Seq::new(
                target.len(),
                |i: int|
                    if target[i] == 0 && !allow_zero {
                        extent_or(dims, i, 0)
                    } else {
                        target[i]
                    },
            )
        },
        Family::Transpose => match lookup(c.attrs, "perm"@) {
            Some(AttrModel::Ints(perm)) => Seq::new(
                perm.len(),
                |i: int| extent_or(dims, perm[i] as int, 0),
            ),
            _ => dims.reverse(),
        },
        Family::Concat => {
            let axis = axis_of(c.attrs, dims.len());
            if axis < dims.len() {
                dims.update(axis, joined_extent(c.inputs, axis) as i64)
            } else {
                dims
            }
        },
        Family::Gather => {
            let axis = axis_of(c.attrs, dims.len());
            let index = if c.inputs.len() > 1 { c.inputs[1].dims } else { Seq::empty() };
            if axis < dims.len() {
                dims.take(axis) + index + dims.skip(axis + 1)
            } else {
                dims + index
            }
        },
        Family::Squeeze => if c.inputs.len() < 2 {
            dims.filter(not_one())
        } else {
            without_axes(dims, integers_at(c, 1))
        },
        Family::Unsqueeze => with_ones(dims, sort_integers(integers_at(c, 1))),
        Family::Shape => seq![dims.len() as i64],
        Family::Size => Seq::empty(),
        Family::Slice => {
            let starts = integers_at(c, 1);
            let ends = integers_at(c, 2);
            Seq::new(
                dims.len(),
                |i: int|
                    if i < starts.len() && i < ends.len() {
                        sliced_extent(dims[i], starts[i], ends[i]) as i64
                    } else {
                        dims[i]
                    },
            )
        },
        Family::Pad => {
            let pads = integers_at(c, 1);
            Seq::new(dims.len(), |i: int| padded_extent(dims, pads, i) as i64)
        },
    }
}

/// Whether a number is in the range of `i64`.
pub open spec fn in_i64(n: int) -> bool {
    i64::MIN <= n <= i64::MAX
}

/// Whether the output shape can be computed in 64-bit arithmetic. Ranks count, and so do the
/// sums that three families form.
pub open spec fn output_fits(c: CaseModel) -> bool {
    let dims = first_dims(c);
    &&& dims.len() <= i64::MAX
    &&& match c.op.family() {
        Family::Concat => {
            let axis = axis_of(c.attrs, dims.len());
            forall|k: int|
                0 <= k <= c.inputs.len() ==> in_i64(joined_extent(#[trigger] c.inputs.take(k), axis))
        },
        Family::Slice => {
            let starts = integers_at(c, 1);
            let ends = integers_at(c, 2);
            forall|i: int|
                #![trigger starts[i]]
                0 <= i < dims.len() && i < starts.len() && i < ends.len() ==> in_i64(
                    (if dims[i] <= ends[i] { dims[i] } else { ends[i] }) - starts[i],
                )
        },
        Family::Pad => {
            let pads = integers_at(c, 1);
            forall|i: int|
                #![trigger dims[i]]
                0 <= i < dims.len() ==> in_i64(dims[i] + extent_or(pads, i, 0)) && in_i64(
                    padded_extent(dims, pads, i),
                )
        },
        _ => true,
    }
}

pub(crate) fn copy_dims(dims: &Vec<i64>) -> (r: Vec<i64>)
    ensures
        r@ == dims@,
{
    let r: Vec<i64> = dims.clone();
    assert(r@ =~= dims@);
    r
}

/// The contents of an `int64` input, or nothing where there is no such input.
pub(crate) fn i64_input(case: &OnnxCase, index: usize) -> (r: Vec<i64>)
    ensures
        r@ == integers_at(case@, index as int),
{
    if index < case.inputs.len() {
        match &case.inputs[index].data {
            TensorData::I64(v) => copy_dims(v),
            _ => {
                let none: Vec<i64> = Vec::new();
                assert(none@ =~= integers_at(case@, index as int));
                none
            },
        }
    } else {
        let none: Vec<i64> = Vec::new();
        assert(none@ =~= integers_at(case@, index as int));
        none
    }
}

/// The axis an `axis` attribute names, counted from the front.
pub fn normalized_axis(attrs: &Attrs, rank: usize) -> (r: i64)
    requires
        rank <= i64::MAX,
    ensures
        r == axis_of(attrs@, rank as nat),
        r >= 0,
{
    let raw: i64 = match attrs.get("axis") {
        Some(AttrValue::Int(v)) => *v,
        _ => 0,
    };
    if raw < 0 {
        let shifted: i64 = rank as i64 + raw;
        if shifted < 0 {
            0
        } else {
            shifted
        }
    } else {
        raw
    }
}

pub(crate) fn reshaped(case: &OnnxCase, dims: &Vec<i64>) -> (r: Vec<i64>)
    requires
        case@.op.family() == Family::Reshape,
        dims@ == first_dims(case@),
    ensures
        r@ == output_dims(case@),
{
    let allow_zero: bool = match case.attrs.get("allowzero") {
        Some(AttrValue::Int(v)) => *v == 1,
        _ => false,
    };
    let target: Vec<i64> = if case.inputs.len() > 1 {
        match &case.inputs[1].data {
            TensorData::I64(v) => copy_dims(v),
            _ => copy_dims(dims),
        }
    } else {
        copy_dims(dims)
    };
    let mut out: Vec<i64> = Vec::new();
    let mut i: usize = 0;
    while i < target.len()
        invariant
            i <= target.len(),
            out.len() == i,
            forall|k: int|
                0 <= k < i ==> #[trigger] out@[k] == (if target@[k] == 0 && !allow_zero {
                    extent_or(dims@, k, 0)
                } else {
                    target@[k]
                }),
        decreases target.len() - i,
    {
        let extent: i64 = if target[i] == 0 && !allow_zero {
            if i < dims.len() { dims[i] } else { 0 }
        } else {
            target[i]
        };
        out.push(extent);
        i += 1;
    }
    assert(out@ =~= output_dims(case@));
    out
}

fn transposed(case: &OnnxCase, dims: &Vec<i64>) -> (r: Vec<i64>)
    requires
        case@.op.family() == Family::Transpose,
        dims@ == first_dims(case@),
        dims.len() <= i64::MAX,
    ensures
        r@ == output_dims(case@),
{
    let mut out: Vec<i64> = Vec::new();
    match case.attrs.get("perm") {
        Some(AttrValue::Ints(perm)) => {
            let mut i: usize = 0;
            while i < perm.len()
                invariant
                    i <= perm.len(),
                    dims.len() <= i64::MAX,
                    out.len() == i,
                    forall|k: int|
                        0 <= k < i ==> #[trigger] out@[k] == extent_or(dims@, perm@[k] as int, 0),
                decreases perm.len() - i,
            {
                let p: i64 = perm[i];
                let extent: i64 = if 0 <= p && p < dims.len() as i64 { dims[p as usize] } else { 0 };
                out.push(extent);
                i += 1;
            }
            assert(out@ =~= output_dims(case@));
        },
        _ => {
            let mut i: usize = dims.len();
            while i > 0
                invariant
                    i <= dims.len(),
                    out.len() == dims.len() - i,
                    forall|k: int| 0 <= k < out.len() ==> #[trigger] out@[k] == dims@[dims@.len() - 1 - k],
                decreases i,
            {
                i -= 1;
                out.push(dims[i]);
            }
            assert(out@ =~= dims@.reverse());
        },
    }
    out
}

fn concatenated(case: &OnnxCase, dims: Vec<i64>) -> (r: Vec<i64>)
    requires
        case@.op.family() == Family::Concat,
        dims@ == first_dims(case@),
        output_fits(case@),
    ensures
        r@ == output_dims(case@),
{
    let axis: i64 = normalized_axis(&case.attrs, dims.len());
    if axis >= dims.len() as i64 {
        return dims;
    }
    let at: usize = axis as usize;
    let mut sum: i64 = 0;
    let mut i: usize = 0;
    while i < case.inputs.len()
        invariant
            i <= case.inputs.len(),
            axis == at,
            axis == axis_of(case@.attrs, first_dims(case@).len()),
            case@.op.family() == Family::Concat,
            output_fits(case@),
            sum == joined_extent(case@.inputs.take(i as int), at as int),
        decreases case.inputs.len() - i,
    {
        assert(case@.inputs.take(i + 1).drop_last() =~= case@.inputs.take(i as int));
        assert(in_i64(joined_extent(case@.inputs.take(i + 1), at as int)));
        let extent: i64 = if at < case.inputs[i].dims.len() { case.inputs[i].dims[at] } else { 0 };
        sum = sum + extent;
        i += 1;
    }
    assert(case@.inputs.take(case@.inputs.len() as int) =~= case@.inputs);
    let mut out: Vec<i64> = dims;
    out.set(at, sum);
    assert(out@ =~= output_dims(case@));
    out
}

fn gathered(case: &OnnxCase, dims: &Vec<i64>) -> (r: Vec<i64>)
    requires
        case@.op.family() == Family::Gather,
        dims@ == first_dims(case@),
        dims.len() <= i64::MAX,
    ensures
        r@ == output_dims(case@),
{
    let axis: i64 = normalized_axis(&case.attrs, dims.len());
    let mut index: Vec<i64> = if case.inputs.len() > 1 {
        copy_dims(&case.inputs[1].dims)
    } else {
        Vec::new()
    };
    let ghost index_dims = index@;
    assert(index_dims =~= (if case@.inputs.len() > 1 {
        case@.inputs[1].dims
    } else {
        Seq::empty()
    }));
    let mut out: Vec<i64> = Vec::new();
    let mut i: usize = 0;
    while i < dims.len() && (i as i64) < axis
        invariant
            i <= dims.len() <= i64::MAX,
            0 <= i <= axis,
            out@ == dims@.take(i as int),
        ensures
            i == dims.len() || i == axis,
            out@ == dims@.take(i as int),
        decreases dims.len() - i,
    {
        out.push(dims[i]);
        assert(dims@.take(i + 1) =~= dims@.take(i as int).push(dims@[i as int]));
        i += 1;
    }
    out.append(&mut index);
    if i < dims.len() {
        i += 1;
        let ghost head = out@;
        let ghost start = i as int;
        while i < dims.len()
            invariant
                0 <= start <= i <= dims.len(),
                out@ == head + dims@.subrange(start, i as int),
            decreases dims.len() - i,
        {
            out.push(dims[i]);
            assert(dims@.subrange(start, i + 1) =~= dims@.subrange(start, i as int).push(
                dims@[i as int],
            ));
            i += 1;
        }
    }
    assert(out@ =~= output_dims(case@));
    out
}

fn without_ones(dims: &Vec<i64>) -> (r: Vec<i64>)
    ensures
        r@ == dims@.filter(not_one()),
{
    let mut out: Vec<i64> = Vec::new();
    let mut i: usize = 0;
    proof {
        reveal(Seq::filter);
    }
    assert(dims@.take(0).filter(not_one()) =~= Seq::empty());
    while i < dims.len()
        invariant
            i <= dims.len(),
            out@ == dims@.take(i as int).filter(not_one()),
        decreases dims.len() - i,
    {
        proof {
            assert(dims@.take(i + 1) =~= dims@.take(i as int).push(dims@[i as int]));
            dims@.take(i as int).lemma_filter_push(dims@[i as int], not_one());
        }
        if dims[i] != 1 {
            out.push(dims[i]);
        }
        i += 1;
    }
    assert(dims@.take(i as int) =~= dims@);
    out
}

fn squeezed(dims: &Vec<i64>, axes: &Vec<i64>) -> (r: Vec<i64>)
    requires
        dims.len() <= i64::MAX,
    ensures
        r@ == without_axes(dims@, axes@),
{
    let mut out: Vec<i64> = Vec::new();
    let mut i: usize = 0;
    while i < dims.len()
        invariant
            i <= dims.len() <= i64::MAX,
            out@ == without_axes(dims@.take(i as int), axes@),
        decreases dims.len() - i,
    {
        let mut listed: bool = false;
        let mut k: usize = 0;
        while k < axes.len()
            invariant
                k <= axes.len(),
                i < dims.len() <= i64::MAX,
                listed == exists|j: int| 0 <= j < k && #[trigger] axes@[j] == i,
            decreases axes.len() - k,
        {
            if axes[k] == i as i64 {
                listed = true;
            }
            k += 1;
        }
        assert(dims@.take(i + 1).drop_last() =~= dims@.take(i as int));
        if !listed {
            out.push(dims[i]);
        }
        i += 1;
    }
    assert(dims@.take(dims@.len() as int) =~= dims@);
    out
}

fn unsqueezed(dims: Vec<i64>, axes: &Vec<i64>) -> (r: Vec<i64>)
    ensures
        r@ == with_ones(dims@, axes@),
{
    let mut out: Vec<i64> = dims;
    let mut i: usize = 0;
    while i < axes.len()
        invariant
            i <= axes.len(),
            out@ == with_ones(dims@, axes@.take(i as int)),
        decreases axes.len() - i,
    {
        assert(axes@.take(i + 1).drop_last() =~= axes@.take(i as int));
        let axis: i64 = axes[i];
        let at: usize = if axis >= 0 && (axis as u64) < (out.len() as u64) {
            axis as usize
        } else {
            out.len()
        };
        out.insert(at, 1);
        i += 1;
    }
    assert(axes@.take(axes@.len() as int) =~= axes@);
    out
}

fn sliced(case: &OnnxCase, dims: &Vec<i64>) -> (r: Vec<i64>)
    requires
        case@.op.family() == Family::Slice,
        dims@ == first_dims(case@),
        output_fits(case@),
    ensures
        r@ == output_dims(case@),
{
    let starts: Vec<i64> = i64_input(case, 1);
    let ends: Vec<i64> = i64_input(case, 2);
    let mut out: Vec<i64> = Vec::new();
    let mut i: usize = 0;
    while i < dims.len()
        invariant
            i <= dims.len(),
            out.len() == i,
            case@.op.family() == Family::Slice,
            dims@ == first_dims(case@),
            starts@ == integers_at(case@, 1),
            ends@ == integers_at(case@, 2),
            output_fits(case@),
            forall|k: int|
                0 <= k < i ==> #[trigger] out@[k] == (if k < starts.len() && k < ends.len() {
                    sliced_extent(dims@[k], starts@[k], ends@[k]) as i64
                } else {
                    dims@[k]
                }),
        decreases dims.len() - i,
    {
        if i < starts.len() && i < ends.len() {
            let start: i64 = starts[i];
            let reach: i64 = if dims[i] <= ends[i] { dims[i] } else { ends[i] };
            assert(starts@[i as int] == start);
            let kept: i64 = reach - start;
            out.push(if kept < 0 { 0 } else { kept });
        } else {
            out.push(dims[i]);
        }
        i += 1;
    }
    assert(out@ =~= output_dims(case@));
    out
}

fn padded(case: &OnnxCase, dims: &Vec<i64>) -> (r: Vec<i64>)
    requires
        case@.op.family() == Family::Pad,
        dims@ == first_dims(case@),
        output_fits(case@),
    ensures
        r@ == output_dims(case@),
{
    let pads: Vec<i64> = i64_input(case, 1);
    let rank: usize = dims.len();
    let mut out: Vec<i64> = Vec::new();
    let mut i: usize = 0;
    while i < rank
        invariant
            i <= rank == dims.len(),
            out.len() == i,
            case@.op.family() == Family::Pad,
            dims@ == first_dims(case@),
            pads@ == integers_at(case@, 1),
            output_fits(case@),
            forall|k: int| 0 <= k < i ==> #[trigger] out@[k] == padded_extent(dims@, pads@, k) as i64,
        decreases rank - i,
    {
        let before: i64 = if i < pads.len() { pads[i] } else { 0 };
        let after: i64 = if rank <= pads.len() && i < pads.len() - rank { pads[i + rank] } else { 0 };
        assert(in_i64(dims@[i as int] + extent_or(pads@, i as int, 0)));
        out.push(dims[i] + before + after);
        i += 1;
    }
    assert(out@ =~= output_dims(case@));
    out
}

/// The element type and shape of the first output.
pub fn output_spec(case: &OnnxCase) -> (r: (ElemType, Vec<i64>))
    requires
        output_fits(case@),
    ensures
        r.0 == output_elem(case@),
        r.1@ == output_dims(case@),
{
    let family: Family = op_spec(case.op).family;
    let dims: Vec<i64> = if case.inputs.len() > 0 {
        copy_dims(&case.inputs[0].dims)
    } else {
        Vec::new()
    };
    assert(dims@ =~= first_dims(case@));
    let elem: ElemType = if case.inputs.len() > 0 {
        case.inputs[0].elem_type()
    } else {
        ElemType::F32
    };
    match family {
        Family::UnaryElementwise | Family::BinaryElementwise => (elem, dims),
        Family::Comparison => (ElemType::Bool, dims),
        Family::Quantize => {
            let target: ElemType = if case.inputs.len() > 2 {
                case.inputs[2].elem_type()
            } else {
                ElemType::I8
            };
            (target, dims)
        },
        Family::Dequantize => {
            let target: ElemType = if case.inputs.len() > 1 {
                case.inputs[1].elem_type()
            } else {
                ElemType::F32
            };
            (target, dims)
        },
        Family::MatMulInteger => {
            let n: i64 = if case.inputs.len() > 1 && case.inputs[1].dims.len() > 0 {
                case.inputs[1].dims[case.inputs[1].dims.len() - 1]
            } else {
                1
            };
            let mut shape: Vec<i64> = dims;
            if shape.len() > 0 {
                let last: usize = shape.len() - 1;
                shape.set(last, n);
            }
            assert(shape@ =~= output_dims(case@));
            (ElemType::I32, shape)
        },
        Family::DynamicQuantize => (ElemType::U8, dims),
        Family::Select => {
            if case.inputs.len() > 1 {
                (case.inputs[1].elem_type(), copy_dims(&case.inputs[1].dims))
            } else {
                (elem, dims)
            }
        },
        Family::Cast => {
            let target: ElemType = match case.attrs.get("to") {
                Some(AttrValue::Int(wire)) => {
                    let number: i32 = #[verifier::truncate] (*wire as i32);
                    match ElemType::from_wire(number) {
                        Some(t) => t,
                        None => elem,
                    }
                },
                _ => elem,
            };
            (target, dims)
        },
        Family::Reshape => (elem, reshaped(case, &dims)),
        Family::Transpose => (elem, transposed(case, &dims)),
        Family::Concat => (elem, concatenated(case, dims)),
        Family::Gather => (elem, gathered(case, &dims)),
        Family::Squeeze => if case.inputs.len() < 2 {
            (elem, without_ones(&dims))
        } else {
            let axes: Vec<i64> = i64_input(case, 1);
            (elem, squeezed(&dims, &axes))
        },
        Family::Unsqueeze => {
            let axes: Vec<i64> = sort_i64(&i64_input(case, 1));
            (elem, unsqueezed(dims, &axes))
        },
        Family::Shape => {
            let rank: Vec<i64> = vec![dims.len() as i64];
            assert(rank@ =~= output_dims(case@));
            (ElemType::I64, rank)
        },
        Family::Size => {
            let scalar: Vec<i64> = Vec::new();
            assert(scalar@ =~= output_dims(case@));
            (ElemType::I64, scalar)
        },
        Family::Slice => (elem, sliced(case, &dims)),
        Family::Pad => (elem, padded(case, &dims)),
    }
}

/// The outputs after the first, with their types and shapes.
pub fn extra_outputs(case: &OnnxCase) -> (r: Vec<(&'static str, ElemType, Vec<i64>)>)
    ensures
        case@.op.family() != Family::DynamicQuantize ==> r.len() == 0,
        case@.op.family() == Family::DynamicQuantize ==> {
            &&& r.len() == 2
            &&& r@[0].0@ == "out_scale"@ && r@[0].1 == ElemType::F32 && r@[0].2.len() == 0
            &&& r@[1].0@ == "out_zero_point"@ && r@[1].1 == ElemType::U8 && r@[1].2.len() == 0
        },
{
    let mut out: Vec<(&'static str, ElemType, Vec<i64>)> = Vec::new();
    match op_spec(case.op).family {
        Family::DynamicQuantize => {
            out.push(("out_scale", ElemType::F32, Vec::new()));
            out.push(("out_zero_point", ElemType::U8, Vec::new()));
        },
        _ => {},
    }
    out
}

// ---- what a case is about ----

/// The position of the first input that is fed at run time, or `inputs.len()`.
pub open spec fn first_fed(inputs: Seq<TensorModel>) -> int
    decreases inputs.len(),
{
    if inputs.len() == 0 || !inputs[0].initializer() {
        0
    } else {
        1 + first_fed(inputs.skip(1))
    }
}

/// The rank of the first input that is fed at run time, or zero if none is.
pub open spec fn data_rank_of(c: CaseModel) -> nat {
    let at = first_fed(c.inputs);
    if at < c.inputs.len() {
        c.inputs[at].dims.len()
    } else {
        0
    }
}

/// The element type a case is about: that of its data. The first input of `Where` is its
/// condition, so there the second one decides.
pub open spec fn data_elem_of(c: CaseModel) -> ElemType {
    if c.op.family() == Family::Select && c.inputs.len() > 1 {
        c.inputs[1].elem_type()
    } else {
        first_elem(c)
    }
}

/// The rank of the first input that is fed at run time.
pub fn data_rank(case: &OnnxCase) -> (r: usize)
    ensures
        r == data_rank_of(case@),
{
    let mut i: usize = 0;
    assert(case@.inputs.skip(0) =~= case@.inputs);
    while i < case.inputs.len()
        invariant
            i <= case.inputs.len(),
            i + first_fed(case@.inputs.skip(i as int)) == first_fed(case@.inputs),
        decreases case.inputs.len() - i,
    {
        if !case.inputs[i].is_initializer() {
            return case.inputs[i].dims.len();
        }
        assert(case@.inputs.skip(i as int).skip(1) =~= case@.inputs.skip(i + 1));
        i += 1;
    }
    0
}

/// The element type a case is about.
pub fn data_elem_type(case: &OnnxCase) -> (r: ElemType)
    ensures
        r == data_elem_of(case@),
{
    let index: usize = match op_spec(case.op).family {
        Family::Select => 1,
        _ => 0,
    };
    if index < case.inputs.len() {
        case.inputs[index].elem_type()
    } else if case.inputs.len() > 0 {
        case.inputs[0].elem_type()
    } else {
        ElemType::F32
    }
}

/// Whether a runtime must be able to hold a type to run a case: some input has it, or the output.
pub open spec fn requires_type(c: CaseModel, t: ElemType) -> bool {
    output_elem(c) == t || exists|i: int|
        0 <= i < c.inputs.len() && (#[trigger] c.inputs[i]).elem_type() == t
}

/// The types a runtime must be able to hold to run a case, each once, in the order of their
/// declaration.
pub fn required_elem_types(case: &OnnxCase) -> (r: Vec<ElemType>)
    requires
        output_fits(case@),
    ensures
        r@ == ElemType::ALL@.filter(|t: ElemType| requires_type(case@, t)),
{
    let ghost needed = |t: ElemType| requires_type(case@, t);
    let output: ElemType = output_spec(case).0;
    let mut out: Vec<ElemType> = Vec::new();
    let mut k: usize = 0;
    proof {
        reveal(Seq::filter);
    }
    assert(ElemType::ALL@.take(0).filter(needed) =~= Seq::empty());
    while k < 7
        invariant
            k <= 7,
            ElemType::ALL@.len() == 7,
            output == output_elem(case@),
            needed == (|t: ElemType| requires_type(case@, t)),
            out@ == ElemType::ALL@.take(k as int).filter(needed),
        decreases 7 - k,
    {
        let t: ElemType = ElemType::ALL[k];
        let mut found: bool = output == t;
        let mut i: usize = 0;
        while i < case.inputs.len()
            invariant
                i <= case.inputs.len(),
                output == output_elem(case@),
                found == (output == t || exists|j: int|
                    0 <= j < i && (#[trigger] case@.inputs[j]).elem_type() == t),
            decreases case.inputs.len() - i,
        {
            assert(case@.inputs[i as int] == case.inputs@[i as int]@);
            if case.inputs[i].elem_type() == t {
                found = true;
            }
            i += 1;
        }
        proof {
            reveal(Seq::filter);
            assert(ElemType::ALL@.take(k + 1).drop_last() =~= ElemType::ALL@.take(k as int));
            assert(ElemType::ALL@.take(k + 1).last() == t);
            assert(found == needed(t));
        }
        if found {
            out.push(t);
        }
        k += 1;
    }
    assert(ElemType::ALL@.take(7) =~= ElemType::ALL@);
    out
}

// ---- probes ----

/// The ranks at which an operator is probed.
pub const PROBED_RANKS: [usize; 4] = [0, 1, 2, 3];

/// The shape a probe of a given rank uses.
pub open spec fn probe_shape(rank: nat) -> Seq<i64> {
    if rank == 0 {
        Seq::empty()
    } else if rank == 1 {
        seq![3i64]
    } else if rank == 2 {
        seq![2i64, 3i64]
    } else {
        seq![2i64, 3i64, 2i64]
    }
}

/// The elements of a probe's data tensor: consecutive small numbers, starting higher for each
/// further input so that no two inputs are the same.
pub open spec fn probe_data(elem: ElemType, count: nat, offset: nat) -> DataModel {
    let base = (offset + 1) * 10;
    match elem {
        ElemType::F32 => DataModel::F32(
            Seq::new(count, |i: int| f32_exact(false, (base + i) as nat, 0)),
        ),
        ElemType::F64 => DataModel::F64(
            Seq::new(count, |i: int| f64_exact(false, (base + i) as nat, 0)),
        ),
        ElemType::I32 => DataModel::I32(Seq::new(count, |i: int| (base + i) as i32)),
        ElemType::I64 => DataModel::I64(Seq::new(count, |i: int| (base + i) as i64)),
        ElemType::Bool => DataModel::Bool(Seq::new(count, |i: int| (i + offset) % 2 == 0)),
        ElemType::I8 => DataModel::I8(Seq::new(count, |i: int| ((base + i) % 127) as i8)),
        ElemType::U8 => DataModel::U8(Seq::new(count, |i: int| ((base + i) % 255) as u8)),
    }
}

/// A tensor that is fed at run time.
pub open spec fn fed(name: Seq<char>, dims: Seq<i64>, data: DataModel) -> TensorModel {
    TensorModel { name, dims, data, role: InputRole::Data }
}

/// A tensor that is a constant inside the model.
pub open spec fn constant(name: Seq<char>, dims: Seq<i64>, data: DataModel) -> TensorModel {
    TensorModel { name, dims, data, role: InputRole::Initializer }
}

/// A probe's data tensor of a given shape.
pub open spec fn probe_tensor(
    name: Seq<char>,
    dims: Seq<i64>,
    elem: ElemType,
    offset: nat,
) -> TensorModel {
    fed(name, dims, probe_data(elem, product(dims) as nat, offset))
}

/// A scalar `int64` vector of length one.
pub open spec fn one_integer(name: Seq<char>, value: i64) -> TensorModel {
    constant(name, seq![1i64], DataModel::I64(seq![value]))
}

/// A zero point for a quantized type, near the middle of its range.
pub open spec fn zero_point(name: Seq<char>, elem: ElemType, offset: nat) -> TensorModel {
    fed(
        name,
        Seq::empty(),
        if elem == ElemType::U8 {
            DataModel::U8(seq![(128 + offset) as u8])
        } else {
            DataModel::I8(seq![offset as i8])
        },
    )
}

/// The scale a quantized probe uses: one half.
pub open spec fn probe_scale() -> TensorModel {
    fed("scale"@, Seq::empty(), DataModel::F32(seq![0x3f00_0000u32]))
}

/// Whether a family works along an axis, and so has nothing to do on a scalar.
pub open spec fn needs_an_axis(family: Family) -> bool {
    match family {
        Family::Transpose | Family::Concat | Family::Gather | Family::Squeeze | Family::Slice
        | Family::Pad => true,
        _ => false,
    }
}

/// Whether an operator can be probed at a type, an opset version and a rank.
pub open spec fn probe_exists(op: OpKind, elem: ElemType, opset: i64, rank: nat) -> bool {
    op.admits(elem, opset) && !(rank == 0 && needs_an_axis(op.family()))
}

/// The inputs of a probe.
pub open spec fn probe_inputs(op: OpKind, elem: ElemType, rank: nat) -> Seq<TensorModel> {
    let dims = probe_shape(rank);
    match op.family() {
        Family::UnaryElementwise | Family::Cast | Family::Transpose | Family::Shape | Family::Size
        | Family::DynamicQuantize => seq![probe_tensor("a"@, dims, elem, 0)],
        Family::BinaryElementwise | Family::Comparison | Family::Concat => seq![
            probe_tensor("a"@, dims, elem, 0),
            probe_tensor("b"@, dims, elem, 1),
        ],
        Family::Select => seq![
            probe_tensor("a"@, dims, ElemType::Bool, 0),
            probe_tensor("b"@, dims, elem, 1),
            probe_tensor("c"@, dims, elem, 2),
        ],
        Family::Reshape => seq![
            probe_tensor("a"@, dims, elem, 0),
            one_integer("b"@, product(dims) as i64),
        ],
        Family::Gather => seq![
            probe_tensor("a"@, dims, elem, 0),
            fed("b"@, seq![1i64], DataModel::I64(seq![0i64])),
        ],
        Family::Squeeze => seq![
            probe_tensor("a"@, dims.update(0, 1), elem, 0),
            one_integer("b"@, 0),
        ],
        Family::Unsqueeze => seq![probe_tensor("a"@, dims, elem, 0), one_integer("b"@, 0)],
        Family::Slice => seq![
            probe_tensor("a"@, dims, elem, 0),
            one_integer("b"@, 0),
            one_integer("c"@, 1),
        ],
        Family::Quantize => seq![
            probe_tensor("a"@, dims, elem, 0),
            probe_scale(),
            zero_point("zp"@, ElemType::I8, 0),
        ],
        Family::Dequantize => seq![
            probe_tensor("a"@, dims, elem, 0),
            probe_scale(),
            zero_point("zp"@, elem, 0),
        ],
        Family::MatMulInteger => seq![
            probe_tensor("a"@, seq![2i64, 3i64], elem, 0),
            probe_tensor("b"@, seq![3i64, 2i64], elem, 1),
            zero_point("a_zp"@, elem, 0),
            zero_point("b_zp"@, elem, 1),
        ],
        Family::Pad => seq![
            probe_tensor("a"@, dims, elem, 0),
            constant(
                "b"@,
                seq![(2 * dims.len()) as i64],
                DataModel::I64(Seq::new(2 * dims.len(), |i: int| 1i64)),
            ),
        ],
    }
}

/// The attributes of a probe.
pub open spec fn probe_attrs(op: OpKind, elem: ElemType, rank: nat) -> Seq<
    (Seq<char>, AttrModel),
> {
    match op.family() {
        Family::Cast => seq![
            (
                "to"@,
                AttrModel::Int(
                    (if elem == ElemType::I64 { ElemType::F32 } else { ElemType::I64 }).wire_number() as i64,
                ),
            ),
        ],
        Family::Transpose => seq![
            (
                "perm"@,
                AttrModel::Ints(
                    Seq::new(
                        probe_shape(rank).len(),
                        |i: int| (probe_shape(rank).len() - 1 - i) as i64,
                    ),
                ),
            ),
        ],
        Family::Concat | Family::Gather => seq![("axis"@, AttrModel::Int(0))],
        Family::Pad => seq![("mode"@, AttrModel::Text("constant"@))],
        _ => Seq::empty(),
    }
}

/// The minimal model that exercises an operator.
pub open spec fn probe_model(op: OpKind, elem: ElemType, opset: i64, rank: nat) -> CaseModel {
    CaseModel {
        opset,
        op,
        inputs: probe_inputs(op, elem, rank),
        attrs: probe_attrs(op, elem, rank),
    }
}

fn shape_at(rank: usize) -> (r: Vec<i64>)
    ensures
        r@ == probe_shape(rank as nat),
        product(r@) <= 12,
        product_fits(r@),
        product(r@) >= 1,
        rank > 0 ==> r.len() > 0,
        r.len() <= 3,
{
    let dims: Vec<i64> = if rank == 0 {
        Vec::new()
    } else if rank == 1 {
        vec![3]
    } else if rank == 2 {
        vec![2, 3]
    } else {
        vec![2, 3, 2]
    };
    assert(dims@ =~= probe_shape(rank as nat));
    proof {
        lemma_small_product(dims@);
    }
    dims
}

proof fn lemma_small_product(dims: Seq<i64>)
    requires
        dims.len() <= 3,
        forall|i: int| 0 <= i < dims.len() ==> 1 <= #[trigger] dims[i] <= 3,
        dims.len() == 3 ==> dims[0] * dims[1] * dims[2] <= 12,
    ensures
        1 <= product(dims) <= 12,
        product_fits(dims),
{
    reveal_with_fuel(product, 4);
    assert forall|k: int| 0 <= k <= dims.len() implies 1 <= product(#[trigger] dims.take(k))
        <= 12 by {
        let t = dims.take(k);
        if k >= 1 {
            assert(t.drop_last().len() == k - 1);
        }
        if k == 1 {
            assert(product(t) == 1 * t[0]);
        } else if k == 2 {
            assert(t.drop_last()[0] == t[0]);
            assert(product(t) == 1 * t[0] * t[1]);
            assert(1 <= 1 * t[0] * t[1] <= 9) by (nonlinear_arith)
                requires
                    1 <= t[0] <= 3,
                    1 <= t[1] <= 3,
            ;
        } else if k == 3 {
            assert(t.drop_last()[0] == t[0]);
            assert(t.drop_last()[1] == t[1]);
            assert(t.drop_last().drop_last()[0] == t[0]);
            assert(product(t) == 1 * t[0] * t[1] * t[2]);
            assert(1 <= 1 * t[0] * t[1] * t[2]) by (nonlinear_arith)
                requires
                    1 <= t[0],
                    1 <= t[1],
                    1 <= t[2],
            ;
            assert(1 * t[0] * t[1] * t[2] == t[0] * t[1] * t[2]) by (nonlinear_arith);
        }
    }
    assert(dims.take(dims.len() as int) =~= dims);
}

/// A probe's data tensor of a given shape.
fn data(name: &str, dims: &Vec<i64>, elem: ElemType, offset: usize) -> (r: TensorValue)
    requires
        product_fits(dims@),
        0 <= product(dims@) <= 12,
        offset <= 2,
    ensures
        r@ == probe_tensor(name@, dims@, elem, offset as nat),
{
    let count: usize = product_of(dims) as usize;
    let base: u32 = (offset as u32 + 1) * 10;
    let ghost model = probe_data(elem, count as nat, offset as nat);
    let payload: TensorData = match elem {
        ElemType::F32 => {
            let mut v: Vec<u32> = Vec::new();
            let mut i: usize = 0;
            while i < count
                invariant
                    i <= count <= 12,
                    10 <= base <= 30,
                    v.len() == i,
                    forall|k: int| 0 <= k < i ==> #[trigger] v@[k] == f32_exact(false, (base + k) as nat, 0),
                decreases count - i,
            {
                proof {
                    lemma_small_top_bit((base + i) as nat);
                }
                v.push(f32_of(false, base + i as u32, 0));
                i += 1;
            }
            assert(v@ =~= model->F32_0);
            TensorData::F32(v)
        },
        ElemType::F64 => {
            let mut v: Vec<u64> = Vec::new();
            let mut i: usize = 0;
            while i < count
                invariant
                    i <= count <= 12,
                    10 <= base <= 30,
                    v.len() == i,
                    forall|k: int| 0 <= k < i ==> #[trigger] v@[k] == f64_exact(false, (base + k) as nat, 0),
                decreases count - i,
            {
                v.push(f64_of(false, base + i as u32, 0));
                i += 1;
            }
            assert(v@ =~= model->F64_0);
            TensorData::F64(v)
        },
        ElemType::I32 => {
            let mut v: Vec<i32> = Vec::new();
            let mut i: usize = 0;
            while i < count
                invariant
                    i <= count <= 12,
                    10 <= base <= 30,
                    v.len() == i,
                    forall|k: int| 0 <= k < i ==> #[trigger] v@[k] == (base + k) as i32,
                decreases count - i,
            {
                v.push((base + i as u32) as i32);
                i += 1;
            }
            assert(v@ =~= model->I32_0);
            TensorData::I32(v)
        },
        ElemType::I64 => {
            let mut v: Vec<i64> = Vec::new();
            let mut i: usize = 0;
            while i < count
                invariant
                    i <= count <= 12,
                    10 <= base <= 30,
                    v.len() == i,
                    forall|k: int| 0 <= k < i ==> #[trigger] v@[k] == (base + k) as i64,
                decreases count - i,
            {
                v.push((base + i as u32) as i64);
                i += 1;
            }
            assert(v@ =~= model->I64_0);
            TensorData::I64(v)
        },
        ElemType::Bool => {
            let mut v: Vec<bool> = Vec::new();
            let mut i: usize = 0;
            while i < count
                invariant
                    i <= count <= 12,
                    offset <= 2,
                    v.len() == i,
                    forall|k: int| 0 <= k < i ==> #[trigger] v@[k] == ((k + offset) % 2 == 0),
                decreases count - i,
            {
                v.push((i + offset) % 2 == 0);
                i += 1;
            }
            assert(v@ =~= model->Bool_0);
            TensorData::Bool(v)
        },
        ElemType::I8 => {
            let mut v: Vec<i8> = Vec::new();
            let mut i: usize = 0;
            while i < count
                invariant
                    i <= count <= 12,
                    10 <= base <= 30,
                    v.len() == i,
                    forall|k: int| 0 <= k < i ==> #[trigger] v@[k] == ((base + k) % 127) as i8,
                decreases count - i,
            {
                v.push(((base + i as u32) % 127) as i8);
                i += 1;
            }
            assert(v@ =~= model->I8_0);
            TensorData::I8(v)
        },
        ElemType::U8 => {
            let mut v: Vec<u8> = Vec::new();
            let mut i: usize = 0;
            while i < count
                invariant
                    i <= count <= 12,
                    10 <= base <= 30,
                    v.len() == i,
                    forall|k: int| 0 <= k < i ==> #[trigger] v@[k] == ((base + k) % 255) as u8,
                decreases count - i,
            {
                v.push(((base + i as u32) % 255) as u8);
                i += 1;
            }
            assert(v@ =~= model->U8_0);
            TensorData::U8(v)
        },
    };
    assert(payload@ == model);
    TensorValue::new(name, copy_dims(dims), payload)
}

proof fn lemma_small_top_bit(m: nat)
    requires
        0 < m < 64,
    ensures
        0 <= top_bit(m) <= 5,
{
    reveal_with_fuel(top_bit, 7);
}

fn quantized_scalar(name: &str, elem: ElemType, offset: usize) -> (r: TensorValue)
    requires
        offset <= 2,
    ensures
        r@ == zero_point(name@, elem, offset as nat),
{
    let payload: TensorData = match elem {
        ElemType::U8 => TensorData::U8(vec![128 + offset as u8]),
        _ => TensorData::I8(vec![offset as i8]),
    };
    let dims: Vec<i64> = Vec::new();
    assert(dims@ =~= Seq::empty());
    assert(payload@ =~= zero_point(name@, elem, offset as nat).data);
    TensorValue::new(name, dims, payload)
}

fn half_scale() -> (r: TensorValue)
    ensures
        r@ == probe_scale(),
{
    let dims: Vec<i64> = Vec::new();
    let values: Vec<u32> = vec![0x3f00_0000u32];
    assert(dims@ =~= Seq::empty());
    assert(values@ =~= seq![0x3f00_0000u32]);
    TensorValue::from_f32("scale", dims, values)
}

fn integer_constant(name: &str, value: i64) -> (r: TensorValue)
    ensures
        r@ == one_integer(name@, value),
{
    let dims: Vec<i64> = vec![1];
    let values: Vec<i64> = vec![value];
    assert(dims@ =~= seq![1i64]);
    assert(values@ =~= seq![value]);
    TensorValue::new(name, dims, TensorData::I64(values)).as_initializer()
}

fn squeezable(dims: &Vec<i64>) -> (r: Vec<i64>)
    requires
        dims.len() > 0,
    ensures
        r@ == dims@.update(0, 1),
{
    let mut shape: Vec<i64> = copy_dims(dims);
    shape.set(0, 1);
    shape
}

fn probe_tensors(op: OpKind, elem: ElemType, rank: usize) -> (r: Vec<TensorValue>)
    requires
        !(rank == 0 && needs_an_axis(op.family())),
    ensures
        tensors_model(r@) == probe_inputs(op, elem, rank as nat),
{
    let dims: Vec<i64> = shape_at(rank);
    let ghost goal = probe_inputs(op, elem, rank as nat);
    let inputs: Vec<TensorValue> = match op_spec(op).family {
        Family::UnaryElementwise
        | Family::Cast
        | Family::Transpose
        | Family::Shape
        | Family::Size
        | Family::DynamicQuantize => vec![data("a", &dims, elem, 0)],
        Family::BinaryElementwise | Family::Comparison | Family::Concat => vec![
            data("a", &dims, elem, 0),
            data("b", &dims, elem, 1),
        ],
        Family::Select => vec![
            data("a", &dims, ElemType::Bool, 0),
            data("b", &dims, elem, 1),
            data("c", &dims, elem, 2),
        ],
        Family::Reshape => vec![
            data("a", &dims, elem, 0),
            integer_constant("b", product_of(&dims)),
        ],
        Family::Gather => {
            let index_dims: Vec<i64> = vec![1];
            let index: Vec<i64> = vec![0];
            assert(index_dims@ =~= seq![1i64]);
            assert(index@ =~= seq![0i64]);
            vec![
                data("a", &dims, elem, 0),
                TensorValue::new("b", index_dims, TensorData::I64(index)),
            ]
        },
        Family::Squeeze => {
            let shape: Vec<i64> = squeezable(&dims);
            proof {
                reveal_with_fuel(product, 4);
                if rank >= 3 {
                    assert(shape@[0] * shape@[1] * shape@[2] == 6) by (nonlinear_arith)
                        requires
                            shape@[0] == 1,
                            shape@[1] == 3,
                            shape@[2] == 2,
                    ;
                }
                lemma_small_product(shape@);
            }
            vec![data("a", &shape, elem, 0), integer_constant("b", 0)]
        },
        Family::Unsqueeze => vec![data("a", &dims, elem, 0), integer_constant("b", 0)],
        Family::Slice => vec![
            data("a", &dims, elem, 0),
            integer_constant("b", 0),
            integer_constant("c", 1),
        ],
        Family::Quantize => vec![
            data("a", &dims, elem, 0),
            half_scale(),
            quantized_scalar("zp", ElemType::I8, 0),
        ],
        Family::Dequantize => vec![
            data("a", &dims, elem, 0),
            half_scale(),
            quantized_scalar("zp", elem, 0),
        ],
        Family::MatMulInteger => {
            let left: Vec<i64> = vec![2, 3];
            let right: Vec<i64> = vec![3, 2];
            proof {
                lemma_small_product(left@);
                lemma_small_product(right@);
                assert(left@ =~= seq![2i64, 3i64]);
                assert(right@ =~= seq![3i64, 2i64]);
            }
            vec![
                data("a", &left, elem, 0),
                data("b", &right, elem, 1),
                quantized_scalar("a_zp", elem, 0),
                quantized_scalar("b_zp", elem, 1),
            ]
        },
        Family::Pad => {
            let n: usize = 2 * dims.len();
            let mut pads: Vec<i64> = Vec::new();
            let mut i: usize = 0;
            while i < n
                invariant
                    i <= n,
                    pads@ == Seq::new(i as nat, |i: int| 1i64),
                decreases n - i,
            {
                pads.push(1);
                i += 1;
                assert(pads@ =~= Seq::new(i as nat, |i: int| 1i64));
            }
            let pads_dims: Vec<i64> = vec![n as i64];
            assert(pads_dims@ =~= seq![n as i64]);
            vec![
                data("a", &dims, elem, 0),
                TensorValue::new("b", pads_dims, TensorData::I64(pads)).as_initializer(),
            ]
        },
    };
    assert(tensors_model(inputs@) =~= goal);
    inputs
}

/// The minimal model that exercises an operator at a type, an opset version and a rank.
///
/// There is none where the operator does not take the type, does not exist at the version in the
/// form this library builds, or would need an axis of a scalar.
pub fn probe_at(op: OpKind, elem: ElemType, opset: i64, rank: usize) -> (r: Option<OnnxCase>)
    ensures
        r is Some <==> probe_exists(op, elem, opset, rank as nat),
        r matches Some(case) ==> case@ == probe_model(op, elem, opset, rank as nat),
{
    let known: OpSpec = op_spec(op);
    if !contains_type(&known.data_types, elem) || opset < known.since {
        return None;
    }
    let axis_needed: bool = match known.family {
        Family::Transpose
        | Family::Concat
        | Family::Gather
        | Family::Squeeze
        | Family::Slice
        | Family::Pad => true,
        _ => false,
    };
    if rank == 0 && axis_needed {
        return None;
    }
    let case: OnnxCase = OnnxCase::new(op, opset, probe_tensors(op, elem, rank));
    let ghost goal = probe_attrs(op, elem, rank as nat);
    let attrs: Attrs = match known.family {
        Family::Cast => {
            let target: ElemType = if elem == ElemType::I64 { ElemType::F32 } else { ElemType::I64 };
            Attrs::new().with_int("to", target.wire() as i64)
        },
        Family::Transpose => {
            let n: usize = shape_at(rank).len();
            let mut perm: Vec<i64> = Vec::new();
            let mut i: usize = n;
            while i > 0
                invariant
                    i <= n <= 3,
                    perm.len() == n - i,
                    forall|k: int| 0 <= k < perm.len() ==> #[trigger] perm@[k] == n - 1 - k,
                decreases i,
            {
                i -= 1;
                perm.push(i as i64);
            }
            assert(perm@ =~= Seq::new(
                probe_shape(rank as nat).len(),
                |i: int| (probe_shape(rank as nat).len() - 1 - i) as i64,
            ));
            Attrs::new().ints("perm", perm)
        },
        Family::Concat | Family::Gather => Attrs::new().with_int("axis", 0),
        Family::Pad => Attrs::new().string("mode", "constant"),
        _ => Attrs::new(),
    };
    assert(attrs@ =~= goal);
    Some(case.with_attrs(attrs))
}

/// Whether a list of types holds a type.
pub fn contains_type(types: &Vec<ElemType>, elem: ElemType) -> (r: bool)
    ensures
        r == types@.contains(elem),
{
    let mut i: usize = 0;
    while i < types.len()
        invariant
            i <= types.len(),
            forall|k: int| 0 <= k < i ==> #[trigger] types@[k] != elem,
        decreases types.len() - i,
    {
        if types[i] == elem {
            return true;
        }
        i += 1;
    }
    false
}

/// The minimal model that exercises an operator at a type, on matrices.
pub fn probe(op: OpKind, elem: ElemType, opset: i64) -> (r: Option<OnnxCase>)
    ensures
        r is Some <==> op.admits(elem, opset),
        r matches Some(case) ==> case@ == probe_model(op, elem, opset, 2),
{
    probe_at(op, elem, opset, 2)
}

// ---- the surface ----

/// The `k`-th pair of an operator and an element type.
pub open spec fn pair_at(k: int) -> (OpKind, ElemType) {
    (OpKind::ALL[k / 7], ElemType::ALL[k % 7])
}

/// The pairs among the first `n` that an opset version admits.
pub open spec fn admitted_pairs(opset: i64, n: nat) -> Seq<(OpKind, ElemType)>
    decreases n,
{
    if n == 0 {
        Seq::empty()
    } else {
        let rest = admitted_pairs(opset, (n - 1) as nat);
        let (op, elem) = pair_at(n - 1);
        if op.admits(elem, opset) {
            rest.push((op, elem))
        } else {
            rest
        }
    }
}

/// The `k`-th combination of an operator, an element type and a probed rank.
pub open spec fn cell_at(k: int) -> (OpKind, ElemType, usize) {
    (OpKind::ALL[k / 28], ElemType::ALL[(k / 4) % 7], PROBED_RANKS[k % 4])
}

/// The combinations among the first `n` that have a probe.
pub open spec fn probed_cells(opset: i64, n: nat) -> Seq<(OpKind, ElemType, usize)>
    decreases n,
{
    if n == 0 {
        Seq::empty()
    } else {
        let rest = probed_cells(opset, (n - 1) as nat);
        let (op, elem, rank) = cell_at(n - 1);
        if probe_exists(op, elem, opset, rank as nat) {
            rest.push((op, elem, rank))
        } else {
            rest
        }
    }
}

/// The pairs of an operator and an element type that can be probed at some rank.
pub fn candidates(opset: i64) -> (r: Vec<(OpKind, ElemType)>)
    ensures
        r@ == admitted_pairs(opset, 259),
{
    let mut pairs: Vec<(OpKind, ElemType)> = Vec::new();
    let mut k: usize = 0;
    while k < 259
        invariant
            k <= 259,
            OpKind::ALL@.len() == 37,
            ElemType::ALL@.len() == 7,
            PROBED_RANKS@.len() == 4,
            pairs@ == admitted_pairs(opset, k as nat),
        decreases 259 - k,
    {
        let op: OpKind = OpKind::ALL[k / 7];
        let elem: ElemType = ElemType::ALL[k % 7];
        let mut found: bool = false;
        let mut j: usize = 0;
        while j < 4
            invariant
                j <= 4,
                PROBED_RANKS@.len() == 4,
                found ==> op.admits(elem, opset),
                j >= 2 ==> found == op.admits(elem, opset),
            decreases 4 - j,
        {
            assert(PROBED_RANKS[1] == 1);
            if probe_at(op, elem, opset, PROBED_RANKS[j]).is_some() {
                found = true;
            }
            j += 1;
        }
        if found {
            pairs.push((op, elem));
        }
        k += 1;
    }
    pairs
}

/// The combinations of an operator, an element type and a rank that can be probed.
pub fn candidates_by_rank(opset: i64) -> (r: Vec<(OpKind, ElemType, usize)>)
    ensures
        r@ == probed_cells(opset, 1036),
{
    let mut cells: Vec<(OpKind, ElemType, usize)> = Vec::new();
    let mut k: usize = 0;
    while k < 1036
        invariant
            k <= 1036,
            OpKind::ALL@.len() == 37,
            ElemType::ALL@.len() == 7,
            PROBED_RANKS@.len() == 4,
            cells@ == probed_cells(opset, k as nat),
        decreases 1036 - k,
    {
        let op: OpKind = OpKind::ALL[k / 28];
        let elem: ElemType = ElemType::ALL[(k / 4) % 7];
        let rank: usize = PROBED_RANKS[k % 4];
        if probe_at(op, elem, opset, rank).is_some() {
            cells.push((op, elem, rank));
        }
        k += 1;
    }
    cells
}

proof fn lemma_admitted_pair_listed(opset: i64, n: nat, k: int)
    requires
        0 <= k < n,
        pair_at(k).0.admits(pair_at(k).1, opset),
    ensures
        admitted_pairs(opset, n).contains(pair_at(k)),
    decreases n,
{
    let rest = admitted_pairs(opset, (n - 1) as nat);
    let all = admitted_pairs(opset, n);
    if k == n - 1 {
        assert(all[all.len() - 1] == pair_at(k));
    } else {
        lemma_admitted_pair_listed(opset, (n - 1) as nat, k);
        let at = choose|i: int| 0 <= i < rest.len() && rest[i] == pair_at(k);
        assert(all[at] == pair_at(k));
    }
}

/// The candidates are exactly the pairs that the operators' type constraints and versions admit:
/// nothing is dropped and nothing is made up.
pub proof fn lemma_candidates_are_the_admitted_pairs(opset: i64, op: OpKind, elem: ElemType)
    ensures
        admitted_pairs(opset, 259).contains((op, elem)) <==> op.admits(elem, opset),
{
    if op.admits(elem, opset) {
        crate::case::lemma_every_operator_is_listed(op);
        crate::case::lemma_every_elem_type_is_listed(elem);
        let a = choose|a: int| 0 <= a < 37 && #[trigger] OpKind::ALL[a] == op;
        let k = a * 7 + elem.position() as int;
        assert(k / 7 == a && k % 7 == elem.position());
        lemma_admitted_pair_listed(opset, 259, k);
    }
    if admitted_pairs(opset, 259).contains((op, elem)) {
        lemma_listed_pair_admitted(opset, 259, op, elem);
    }
}

proof fn lemma_listed_pair_admitted(opset: i64, n: nat, op: OpKind, elem: ElemType)
    requires
        admitted_pairs(opset, n).contains((op, elem)),
    ensures
        op.admits(elem, opset),
    decreases n,
{
    let rest = admitted_pairs(opset, (n - 1) as nat);
    let all = admitted_pairs(opset, n);
    let at = choose|i: int| 0 <= i < all.len() && all[i] == (op, elem);
    if at < rest.len() {
        assert(rest[at] == (op, elem));
        lemma_listed_pair_admitted(opset, (n - 1) as nat, op, elem);
    }
}

// ---- the order of the surface ----

/// Where an operator stands in the list of all.
pub open spec fn place(op: OpKind) -> int {
    match op {
        OpKind::Identity => 0,
        OpKind::Reshape => 1,
        OpKind::Transpose => 2,
        OpKind::Concat => 3,
        OpKind::Squeeze => 4,
        OpKind::Unsqueeze => 5,
        OpKind::Shape => 6,
        OpKind::Size => 7,
        OpKind::Slice => 8,
        OpKind::Pad => 9,
        OpKind::Gather => 10,
        OpKind::Where => 11,
        OpKind::Cast => 12,
        OpKind::Equal => 13,
        OpKind::Greater => 14,
        OpKind::Less => 15,
        OpKind::And => 16,
        OpKind::Or => 17,
        OpKind::Xor => 18,
        OpKind::Not => 19,
        OpKind::Add => 20,
        OpKind::Sub => 21,
        OpKind::Mul => 22,
        OpKind::Div => 23,
        OpKind::Min => 24,
        OpKind::Max => 25,
        OpKind::Abs => 26,
        OpKind::Neg => 27,
        OpKind::Sign => 28,
        OpKind::Sqrt => 29,
        OpKind::Floor => 30,
        OpKind::Ceil => 31,
        OpKind::Round => 32,
        OpKind::QuantizeLinear => 33,
        OpKind::DequantizeLinear => 34,
        OpKind::MatMulInteger => 35,
        OpKind::DynamicQuantizeLinear => 36,
    }
}

/// Where a pair stands: by the operator first, then by the type.
pub open spec fn pair_place(pair: (OpKind, ElemType)) -> int {
    place(pair.0) * 7 + pair.1.position()
}

/// Where a combination stands: by the operator, then by the type, then by the rank.
pub open spec fn cell_place(cell: (OpKind, ElemType, usize)) -> int {
    pair_place((cell.0, cell.1)) * 4 + cell.2
}

proof fn lemma_place(k: int)
    requires
        0 <= k < 37,
    ensures
        place(OpKind::ALL[k]) == k,
{
    if k == 0 {
        assert(OpKind::ALL[0] == OpKind::Identity);
    }
    if k == 1 {
        assert(OpKind::ALL[1] == OpKind::Reshape);
    }
    if k == 2 {
        assert(OpKind::ALL[2] == OpKind::Transpose);
    }
    if k == 3 {
        assert(OpKind::ALL[3] == OpKind::Concat);
    }
    if k == 4 {
        assert(OpKind::ALL[4] == OpKind::Squeeze);
    }
    if k == 5 {
        assert(OpKind::ALL[5] == OpKind::Unsqueeze);
    }
    if k == 6 {
        assert(OpKind::ALL[6] == OpKind::Shape);
    }
    if k == 7 {
        assert(OpKind::ALL[7] == OpKind::Size);
    }
    if k == 8 {
        assert(OpKind::ALL[8] == OpKind::Slice);
    }
    if k == 9 {
        assert(OpKind::ALL[9] == OpKind::Pad);
    }
    if k == 10 {
        assert(OpKind::ALL[10] == OpKind::Gather);
    }
    if k == 11 {
        assert(OpKind::ALL[11] == OpKind::Where);
    }
    if k == 12 {
        assert(OpKind::ALL[12] == OpKind::Cast);
    }
    if k == 13 {
        assert(OpKind::ALL[13] == OpKind::Equal);
    }
    if k == 14 {
        assert(OpKind::ALL[14] == OpKind::Greater);
    }
    if k == 15 {
        assert(OpKind::ALL[15] == OpKind::Less);
    }
    if k == 16 {
        assert(OpKind::ALL[16] == OpKind::And);
    }
    if k == 17 {
        assert(OpKind::ALL[17] == OpKind::Or);
    }
    if k == 18 {
        assert(OpKind::ALL[18] == OpKind::Xor);
    }
    if k == 19 {
        assert(OpKind::ALL[19] == OpKind::Not);
    }
    if k == 20 {
        assert(OpKind::ALL[20] == OpKind::Add);
    }
    if k == 21 {
        assert(OpKind::ALL[21] == OpKind::Sub);
    }
    if k == 22 {
        assert(OpKind::ALL[22] == OpKind::Mul);
    }
    if k == 23 {
        assert(OpKind::ALL[23] == OpKind::Div);
    }
    if k == 24 {
        assert(OpKind::ALL[24] == OpKind::Min);
    }
    if k == 25 {
        assert(OpKind::ALL[25] == OpKind::Max);
    }
    if k == 26 {
        assert(OpKind::ALL[26] == OpKind::Abs);
    }
    if k == 27 {
        assert(OpKind::ALL[27] == OpKind::Neg);
    }
    if k == 28 {
        assert(OpKind::ALL[28] == OpKind::Sign);
    }
    if k == 29 {
        assert(OpKind::ALL[29] == OpKind::Sqrt);
    }
    if k == 30 {
        assert(OpKind::ALL[30] == OpKind::Floor);
    }
    if k == 31 {
        assert(OpKind::ALL[31] == OpKind::Ceil);
    }
    if k == 32 {
        assert(OpKind::ALL[32] == OpKind::Round);
    }
    if k == 33 {
        assert(OpKind::ALL[33] == OpKind::QuantizeLinear);
    }
    if k == 34 {
        assert(OpKind::ALL[34] == OpKind::DequantizeLinear);
    }
    if k == 35 {
        assert(OpKind::ALL[35] == OpKind::MatMulInteger);
    }
    if k == 36 {
        assert(OpKind::ALL[36] == OpKind::DynamicQuantizeLinear);
    }
}

proof fn lemma_position(k: int)
    requires
        0 <= k < 7,
    ensures
        ElemType::ALL[k].position() == k,
{
    if k == 0 {
        assert(ElemType::ALL[0] == ElemType::F32);
    }
    if k == 1 {
        assert(ElemType::ALL[1] == ElemType::F64);
    }
    if k == 2 {
        assert(ElemType::ALL[2] == ElemType::I32);
    }
    if k == 3 {
        assert(ElemType::ALL[3] == ElemType::I64);
    }
    if k == 4 {
        assert(ElemType::ALL[4] == ElemType::Bool);
    }
    if k == 5 {
        assert(ElemType::ALL[5] == ElemType::I8);
    }
    if k == 6 {
        assert(ElemType::ALL[6] == ElemType::U8);
    }
}

proof fn lemma_pair_place(k: int)
    requires
        0 <= k < 259,
    ensures
        pair_place(pair_at(k)) == k,
{
    lemma_place(k / 7);
    lemma_position(k % 7);
}

proof fn lemma_place_pair(op: OpKind, elem: ElemType)
    ensures
        0 <= pair_place((op, elem)) < 259,
        pair_at(pair_place((op, elem))) == (op, elem),
{
    crate::case::lemma_every_operator_is_listed(op);
    crate::case::lemma_every_elem_type_is_listed(elem);
    let a = choose|a: int| 0 <= a < 37 && #[trigger] OpKind::ALL[a] == op;
    lemma_place(a);
    let k = pair_place((op, elem));
    assert(k / 7 == a && k % 7 == elem.position());
}

proof fn lemma_pairs_in_order(opset: i64, n: nat)
    requires
        n <= 259,
    ensures
        forall|a: int|
            0 <= a < admitted_pairs(opset, n).len() ==> pair_place(
                #[trigger] admitted_pairs(opset, n)[a],
            ) < n,
        forall|a: int, b: int|
            0 <= a < b < admitted_pairs(opset, n).len() ==> pair_place(
                #[trigger] admitted_pairs(opset, n)[a],
            ) < pair_place(#[trigger] admitted_pairs(opset, n)[b]),
    decreases n,
{
    if n > 0 {
        lemma_pairs_in_order(opset, (n - 1) as nat);
        lemma_pair_place(n - 1);
        let rest = admitted_pairs(opset, (n - 1) as nat);
        let all = admitted_pairs(opset, n);
        assert forall|a: int| 0 <= a < all.len() implies pair_place(#[trigger] all[a]) < n by {
            if a < rest.len() {
                assert(all[a] == rest[a]);
            }
        }
        assert forall|a: int, b: int| 0 <= a < b < all.len() implies pair_place(#[trigger] all[a])
            < pair_place(#[trigger] all[b]) by {
            assert(all[a] == rest[a]);
            if b < rest.len() {
                assert(all[b] == rest[b]);
            }
        }
    }
}

/// The candidates come in the order of the operators, and of one operator in the order of the
/// types; no pair comes twice.
pub proof fn lemma_candidates_come_in_order(opset: i64, a: int, b: int)
    requires
        0 <= a < b < admitted_pairs(opset, 259).len(),
    ensures
        pair_place(admitted_pairs(opset, 259)[a]) < pair_place(admitted_pairs(opset, 259)[b]),
        admitted_pairs(opset, 259)[a] != admitted_pairs(opset, 259)[b],
{
    lemma_pairs_in_order(opset, 259);
}

/// What is a candidate at one opset version is one at every later version.
pub proof fn lemma_candidates_grow_with_the_opset(
    earlier: i64,
    later: i64,
    op: OpKind,
    elem: ElemType,
)
    requires
        earlier <= later,
        admitted_pairs(earlier, 259).contains((op, elem)),
    ensures
        admitted_pairs(later, 259).contains((op, elem)),
{
    lemma_candidates_are_the_admitted_pairs(earlier, op, elem);
    lemma_candidates_are_the_admitted_pairs(later, op, elem);
}

spec fn admitted_at(opset: i64, k: int, j: int) -> nat {
    if OpKind::ALL[k].admits(ElemType::ALL[j], opset) {
        1
    } else {
        0
    }
}

/// How many types of an operator are admitted.
proof fn lemma_width(opset: i64, k: int)
    requires
        0 <= k < 37,
    ensures
        admitted_pairs(opset, (7 * k + 7) as nat).len() == admitted_pairs(
            opset,
            (7 * k) as nat,
        ).len() + admitted_at(opset, k, 0) + admitted_at(opset, k, 1) + admitted_at(opset, k, 2)
            + admitted_at(opset, k, 3) + admitted_at(opset, k, 4) + admitted_at(opset, k, 5)
            + admitted_at(opset, k, 6),
{
    reveal_with_fuel(admitted_pairs, 8);
    assert forall|j: int| 0 <= j < 7 implies #[trigger] pair_at(7 * k + j) == (
        OpKind::ALL[k],
        ElemType::ALL[j],
    ) by {
        assert((7 * k + j) / 7 == k && (7 * k + j) % 7 == j);
    }
    assert(pair_at(7 * k) == pair_at(7 * k + 0));
    assert(pair_at(7 * k + 1) == (OpKind::ALL[k], ElemType::ALL[1]));
    assert(pair_at(7 * k + 2) == (OpKind::ALL[k], ElemType::ALL[2]));
    assert(pair_at(7 * k + 3) == (OpKind::ALL[k], ElemType::ALL[3]));
    assert(pair_at(7 * k + 4) == (OpKind::ALL[k], ElemType::ALL[4]));
    assert(pair_at(7 * k + 5) == (OpKind::ALL[k], ElemType::ALL[5]));
    assert(pair_at(7 * k + 6) == (OpKind::ALL[k], ElemType::ALL[6]));
}

/// The types that an operator admits are among those that it lists.
proof fn lemma_types_of(op: OpKind)
    ensures
        forall|i: int|
            0 <= i < op.data_types().len() ==> op.data_types().contains(
                #[trigger] op.data_types()[i],
            ),
        ElemType::ALL[0] == ElemType::F32,
        ElemType::ALL[1] == ElemType::F64,
        ElemType::ALL[2] == ElemType::I32,
        ElemType::ALL[3] == ElemType::I64,
        ElemType::ALL[4] == ElemType::Bool,
        op.data_types() == seq![
            ElemType::F32,
            ElemType::F64,
            ElemType::I32,
            ElemType::I64,
            ElemType::Bool,
        ] ==> op.data_types().contains(ElemType::F32) && op.data_types().contains(ElemType::F64)
            && op.data_types().contains(ElemType::I32) && op.data_types().contains(ElemType::I64)
            && op.data_types().contains(ElemType::Bool),
        op.data_types() == seq![ElemType::F32, ElemType::F64, ElemType::I32, ElemType::I64]
            ==> op.data_types().contains(ElemType::F32) && op.data_types().contains(ElemType::F64)
            && op.data_types().contains(ElemType::I32) && op.data_types().contains(ElemType::I64),
        op.data_types() == seq![ElemType::Bool] ==> op.data_types().contains(ElemType::Bool),
{
    let types = op.data_types();
    if types.len() == 5 {
        assert(types.contains(types[0]) && types.contains(types[1]) && types.contains(types[2]));
        assert(types.contains(types[3]) && types.contains(types[4]));
    }
    if types.len() == 4 {
        assert(types.contains(types[0]) && types.contains(types[1]) && types.contains(types[2]));
        assert(types.contains(types[3]));
    }
    if types.len() == 1 {
        assert(types.contains(types[0]));
    }
}

proof fn lemma_pairs_grow(opset: i64, m: nat, n: nat)
    requires
        m <= n,
    ensures
        admitted_pairs(opset, m).len() <= admitted_pairs(opset, n).len(),
    decreases n,
{
    if m < n {
        lemma_pairs_grow(opset, m, (n - 1) as nat);
    }
}

/// The surface at the version that everything exists in is wide: more than eighty pairs.
#[verifier::rlimit(60)]
pub proof fn lemma_the_surface_is_wide()
    ensures
        admitted_pairs(22, 259).len() > 80,
{
    lemma_width(22, 0);
    assert(OpKind::ALL[0] == OpKind::Identity);
    lemma_types_of(OpKind::Identity);
    assert(admitted_pairs(22, 7).len() >= 5);
    lemma_width(22, 1);
    assert(OpKind::ALL[1] == OpKind::Reshape);
    lemma_types_of(OpKind::Reshape);
    assert(admitted_pairs(22, 14).len() >= 10);
    lemma_width(22, 2);
    assert(OpKind::ALL[2] == OpKind::Transpose);
    lemma_types_of(OpKind::Transpose);
    assert(admitted_pairs(22, 21).len() >= 15);
    lemma_width(22, 3);
    assert(OpKind::ALL[3] == OpKind::Concat);
    lemma_types_of(OpKind::Concat);
    assert(admitted_pairs(22, 28).len() >= 20);
    lemma_width(22, 4);
    assert(OpKind::ALL[4] == OpKind::Squeeze);
    lemma_types_of(OpKind::Squeeze);
    assert(admitted_pairs(22, 35).len() >= 25);
    lemma_width(22, 5);
    assert(OpKind::ALL[5] == OpKind::Unsqueeze);
    lemma_types_of(OpKind::Unsqueeze);
    assert(admitted_pairs(22, 42).len() >= 30);
    lemma_width(22, 6);
    assert(OpKind::ALL[6] == OpKind::Shape);
    lemma_types_of(OpKind::Shape);
    assert(admitted_pairs(22, 49).len() >= 35);
    lemma_width(22, 7);
    assert(OpKind::ALL[7] == OpKind::Size);
    lemma_types_of(OpKind::Size);
    assert(admitted_pairs(22, 56).len() >= 40);
    lemma_width(22, 8);
    assert(OpKind::ALL[8] == OpKind::Slice);
    lemma_types_of(OpKind::Slice);
    assert(admitted_pairs(22, 63).len() >= 45);
    lemma_width(22, 9);
    assert(OpKind::ALL[9] == OpKind::Pad);
    lemma_types_of(OpKind::Pad);
    assert(admitted_pairs(22, 70).len() >= 50);
    lemma_width(22, 10);
    assert(OpKind::ALL[10] == OpKind::Gather);
    lemma_types_of(OpKind::Gather);
    assert(admitted_pairs(22, 77).len() >= 55);
    lemma_width(22, 11);
    assert(OpKind::ALL[11] == OpKind::Where);
    lemma_types_of(OpKind::Where);
    assert(admitted_pairs(22, 84).len() >= 60);
    lemma_width(22, 12);
    assert(OpKind::ALL[12] == OpKind::Cast);
    lemma_types_of(OpKind::Cast);
    assert(admitted_pairs(22, 91).len() >= 65);
    lemma_width(22, 13);
    assert(OpKind::ALL[13] == OpKind::Equal);
    lemma_types_of(OpKind::Equal);
    assert(admitted_pairs(22, 98).len() >= 70);
    lemma_width(22, 14);
    assert(OpKind::ALL[14] == OpKind::Greater);
    lemma_types_of(OpKind::Greater);
    assert(admitted_pairs(22, 105).len() >= 74);
    lemma_width(22, 15);
    assert(OpKind::ALL[15] == OpKind::Less);
    lemma_types_of(OpKind::Less);
    assert(admitted_pairs(22, 112).len() >= 78);
    lemma_width(22, 16);
    assert(OpKind::ALL[16] == OpKind::And);
    lemma_types_of(OpKind::And);
    assert(admitted_pairs(22, 119).len() >= 79);
    lemma_width(22, 17);
    assert(OpKind::ALL[17] == OpKind::Or);
    lemma_types_of(OpKind::Or);
    assert(admitted_pairs(22, 126).len() >= 80);
    lemma_width(22, 18);
    assert(OpKind::ALL[18] == OpKind::Xor);
    lemma_types_of(OpKind::Xor);
    assert(admitted_pairs(22, 133).len() >= 81);
    lemma_width(22, 19);
    assert(OpKind::ALL[19] == OpKind::Not);
    lemma_types_of(OpKind::Not);
    assert(admitted_pairs(22, 140).len() >= 82);
    lemma_pairs_grow(22, 140, 259);
}

/// Every type is on the surface.
pub proof fn lemma_every_type_is_probed(elem: ElemType)
    ensures
        exists|op: OpKind| #[trigger] admitted_pairs(22, 259).contains((op, elem)),
{
    let op = match elem {
        ElemType::I8 | ElemType::U8 => OpKind::DequantizeLinear,
        _ => OpKind::Identity,
    };
    let types = op.data_types();
    if elem == ElemType::I8 {
        assert(types[0] == elem);
    } else if elem == ElemType::U8 {
        assert(types[1] == elem);
    } else {
        assert(types[elem.position() as int] == elem);
    }
    lemma_candidates_are_the_admitted_pairs(22, op, elem);
}

proof fn lemma_cell_at(p: int, r: int)
    requires
        0 <= p < 259,
        0 <= r < 4,
    ensures
        cell_at(4 * p + r) == (pair_at(p).0, pair_at(p).1, r as usize),
        cell_place(cell_at(4 * p + r)) == 4 * p + r,
{
    let k = 4 * p + r;
    assert(k / 4 == p && k % 4 == r);
    assert(k / 28 == p / 7);
    assert(PROBED_RANKS[r] == r) by {
        assert(PROBED_RANKS[0] == 0 && PROBED_RANKS[1] == 1);
        assert(PROBED_RANKS[2] == 2 && PROBED_RANKS[3] == 3);
    }
    lemma_pair_place(p);
}

proof fn lemma_cells_in_order(opset: i64, n: nat)
    requires
        n <= 1036,
    ensures
        forall|a: int|
            0 <= a < probed_cells(opset, n).len() ==> {
                let cell = #[trigger] probed_cells(opset, n)[a];
                &&& 0 <= cell_place(cell) < n
                &&& cell.2 < 4
                &&& probe_exists(cell.0, cell.1, opset, cell.2 as nat)
            },
        forall|a: int, b: int|
            0 <= a < b < probed_cells(opset, n).len() ==> cell_place(
                #[trigger] probed_cells(opset, n)[a],
            ) < cell_place(#[trigger] probed_cells(opset, n)[b]),
    decreases n,
{
    if n > 0 {
        lemma_cells_in_order(opset, (n - 1) as nat);
        lemma_cell_at((n - 1) / 4, (n - 1) % 4);
        let rest = probed_cells(opset, (n - 1) as nat);
        let all = probed_cells(opset, n);
        assert forall|a: int| 0 <= a < all.len() implies {
            let cell = #[trigger] all[a];
            &&& 0 <= cell_place(cell) < n
            &&& cell.2 < 4
            &&& probe_exists(cell.0, cell.1, opset, cell.2 as nat)
        } by {
            if a < rest.len() {
                assert(all[a] == rest[a]);
            }
        }
        assert forall|a: int, b: int| 0 <= a < b < all.len() implies cell_place(#[trigger] all[a])
            < cell_place(#[trigger] all[b]) by {
            assert(all[a] == rest[a]);
            if b < rest.len() {
                assert(all[b] == rest[b]);
            }
        }
    }
}

proof fn lemma_probed_cell_listed(opset: i64, n: nat, k: int)
    requires
        0 <= k < n,
        probe_exists(cell_at(k).0, cell_at(k).1, opset, cell_at(k).2 as nat),
    ensures
        probed_cells(opset, n).contains(cell_at(k)),
    decreases n,
{
    let rest = probed_cells(opset, (n - 1) as nat);
    let all = probed_cells(opset, n);
    if k == n - 1 {
        assert(all[all.len() - 1] == cell_at(k));
    } else {
        lemma_probed_cell_listed(opset, (n - 1) as nat, k);
        let at = choose|i: int| 0 <= i < rest.len() && rest[i] == cell_at(k);
        assert(all[at] == cell_at(k));
    }
}

/// The combinations with a rank are exactly the candidates at every probed rank, but for the scalar
/// of an operator that needs an axis.
pub proof fn lemma_ranked_candidates_are_the_probes(
    opset: i64,
    op: OpKind,
    elem: ElemType,
    rank: usize,
)
    ensures
        probed_cells(opset, 1036).contains((op, elem, rank)) <==> rank <= 3 && admitted_pairs(
            opset,
            259,
        ).contains((op, elem)) && !(rank == 0 && needs_an_axis(op.family())),
{
    lemma_candidates_are_the_admitted_pairs(opset, op, elem);
    lemma_cells_in_order(opset, 1036);
    let cells = probed_cells(opset, 1036);
    if cells.contains((op, elem, rank)) {
        let a = choose|a: int| 0 <= a < cells.len() && cells[a] == (op, elem, rank);
        assert(cells[a].2 < 4);
    }
    if rank <= 3 && probe_exists(op, elem, opset, rank as nat) {
        lemma_place_pair(op, elem);
        let p = pair_place((op, elem));
        lemma_cell_at(p, rank as int);
        lemma_probed_cell_listed(opset, 1036, 4 * p + rank);
    }
}

/// They come in the order of the operators, the types and the ranks; none comes twice.
pub proof fn lemma_ranked_candidates_come_in_order(opset: i64, a: int, b: int)
    requires
        0 <= a < b < probed_cells(opset, 1036).len(),
    ensures
        cell_place(probed_cells(opset, 1036)[a]) < cell_place(probed_cells(opset, 1036)[b]),
        probed_cells(opset, 1036)[a] != probed_cells(opset, 1036)[b],
{
    lemma_cells_in_order(opset, 1036);
}

/// Combinations without their ranks, a pair that was just named left out.
pub open spec fn without_ranks(cells: Seq<(OpKind, ElemType, usize)>) -> Seq<(OpKind, ElemType)>
    decreases cells.len(),
{
    if cells.len() == 0 {
        Seq::empty()
    } else {
        let rest = without_ranks(cells.drop_last());
        let pair = (cells.last().0, cells.last().1);
        if rest.len() > 0 && rest.last() == pair {
            rest
        } else {
            rest.push(pair)
        }
    }
}

proof fn lemma_without_the_next_rank(
    cells: Seq<(OpKind, ElemType, usize)>,
    cell: (OpKind, ElemType, usize),
)
    ensures
        without_ranks(cells.push(cell)) == if without_ranks(cells).len() > 0 && without_ranks(
            cells,
        ).last() == (cell.0, cell.1) {
            without_ranks(cells)
        } else {
            without_ranks(cells).push((cell.0, cell.1))
        },
{
    assert(cells.push(cell).drop_last() =~= cells);
}

proof fn lemma_ranks_drop(opset: i64, p: nat)
    requires
        p <= 259,
    ensures
        without_ranks(probed_cells(opset, 4 * p)) == admitted_pairs(opset, p),
    decreases p,
{
    if p > 0 {
        let q = (p - 1) as nat;
        lemma_ranks_drop(opset, q);
        let rest = admitted_pairs(opset, q);
        let (op, elem) = pair_at(q as int);
        if rest.len() > 0 {
            lemma_pairs_in_order(opset, q);
            lemma_pair_place(q as int);
            assert(pair_place(rest[rest.len() - 1]) < q);
            assert(rest.last() != (op, elem));
        }
        lemma_cell_at(q as int, 0);
        lemma_cell_at(q as int, 1);
        lemma_cell_at(q as int, 2);
        lemma_cell_at(q as int, 3);
        let c0 = probed_cells(opset, 4 * q);
        let c1 = probed_cells(opset, (4 * q + 1) as nat);
        let c2 = probed_cells(opset, (4 * q + 2) as nat);
        let c3 = probed_cells(opset, (4 * q + 3) as nat);
        assert(4 * q + 4 == 4 * p);
        assert(cell_at((4 * q) as int) == cell_at(4 * (q as int) + 0));
        lemma_without_the_next_rank(c0, (op, elem, 0));
        lemma_without_the_next_rank(c1, (op, elem, 1));
        lemma_without_the_next_rank(c2, (op, elem, 2));
        lemma_without_the_next_rank(c3, (op, elem, 3));
    }
}

/// Without their ranks, the combinations are the candidates.
pub proof fn lemma_ranked_candidates_without_ranks(opset: i64)
    ensures
        without_ranks(probed_cells(opset, 1036)) == admitted_pairs(opset, 259),
{
    lemma_ranks_drop(opset, 259);
}

} // verus!
