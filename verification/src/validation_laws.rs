//! When a case is legal, operator by operator.

use vstd::prelude::*;

use crate::attrs::{lookup, AttrModel};
use crate::case::{any_negative, product, CaseModel, DataModel, ElemType, OpKind, TensorModel};
use crate::ops::{integers_at, output_dims};
use crate::validation::{axis_holds, concat_holds, free_of, gather_holds, is_permutation, pad_holds};
use crate::validation::{problems_of, squeeze_holds, unsqueeze_holds, valid, Problem};
use crate::validation::PROBLEMS;

verus! {

// ---- the whole ----

/// A case is legal exactly where no problem is found, and a problem is found once if at all.
pub proof fn lemma_legal_is_free_of_problems(c: CaseModel, p: Problem)
    ensures
        valid(c) == (problems_of(c).len() == 0),
        problems_of(c).contains(p) == !free_of(c, p),
        problems_of(c).no_duplicates(),
{
    reveal(Seq::filter);
    let f = |p: Problem| !free_of(c, p);
    assert forall|p: Problem| #[trigger] PROBLEMS@.contains(p) by {
        assert(PROBLEMS@[0] == Problem::Arity);
        assert(PROBLEMS@[1] == Problem::Opset);
        assert(PROBLEMS@[2] == Problem::NegativeExtent);
        assert(PROBLEMS@[3] == Problem::DataLength);
        assert(PROBLEMS@[4] == Problem::DuplicateName);
        assert(PROBLEMS@[5] == Problem::ElementType);
        assert(PROBLEMS@[6] == Problem::Disagreement);
        assert(PROBLEMS@[7] == Problem::Parameter);
    }
    assert forall|p: Problem| #[trigger] problems_of(c).contains(p) == !free_of(c, p) by {
        assert(PROBLEMS@.contains(p));
        if !free_of(c, p) {
            let i = choose|i: int| 0 <= i < PROBLEMS@.len() && PROBLEMS@[i] == p;
            PROBLEMS@.lemma_filter_contains(f, i);
        }
        if problems_of(c).contains(p) {
            let i = choose|i: int| 0 <= i < problems_of(c).len() && problems_of(c)[i] == p;
            PROBLEMS@.lemma_filter_pred(f, i);
        }
    }
    if valid(c) && problems_of(c).len() > 0 {
        assert(problems_of(c).contains(problems_of(c)[0]));
        assert(free_of(c, problems_of(c)[0]));
    }
    if problems_of(c).len() == 0 {
        assert forall|p: Problem| #[trigger] free_of(c, p) by {
            assert(!problems_of(c).contains(p));
        }
    }
    assert(PROBLEMS@.no_duplicates());
    lemma_filter_keeps_distinct(PROBLEMS@, f);
}

proof fn lemma_filter_keeps_distinct(s: Seq<Problem>, f: spec_fn(Problem) -> bool)
    requires
        s.no_duplicates(),
    ensures
        s.filter(f).no_duplicates(),
    decreases s.len(),
{
    reveal(Seq::filter);
    if s.len() > 0 {
        let front = s.drop_last();
        lemma_filter_keeps_distinct(front, f);
        assert forall|i: int| 0 <= i < front.filter(f).len() implies #[trigger] front.filter(f)[i]
            != s.last() by {
            front.lemma_filter_contains_rev(f, front.filter(f)[i]);
        }
    }
}

// ---- what every case must keep ----

/// How many inputs each operator takes, at least and at most.
pub open spec fn inputs_taken(op: OpKind) -> (int, int) {
    if op == OpKind::Concat || op == OpKind::Min || op == OpKind::Max {
        (1, 8)
    } else if op == OpKind::Slice {
        (3, 5)
    } else if op == OpKind::Pad {
        (2, 4)
    } else if op == OpKind::Squeeze {
        (1, 2)
    } else if op == OpKind::MatMulInteger {
        (4, 4)
    } else if op == OpKind::Where || op == OpKind::QuantizeLinear || op
        == OpKind::DequantizeLinear {
        (3, 3)
    } else if op == OpKind::Reshape || op == OpKind::Unsqueeze || op == OpKind::Gather || op
        == OpKind::Equal || op == OpKind::Greater || op == OpKind::Less || op == OpKind::And || op
        == OpKind::Or || op == OpKind::Xor || op == OpKind::Add || op == OpKind::Sub || op
        == OpKind::Mul || op == OpKind::Div {
        (2, 2)
    } else {
        (1, 1)
    }
}

/// The version from which each operator has its present form.
pub open spec fn first_version(op: OpKind) -> int {
    if op == OpKind::Not {
        1
    } else if op == OpKind::And || op == OpKind::Or || op == OpKind::Xor {
        7
    } else if op == OpKind::MatMulInteger {
        10
    } else if op == OpKind::DynamicQuantizeLinear {
        11
    } else if op == OpKind::Add || op == OpKind::Sub || op == OpKind::Mul || op == OpKind::Div {
        14
    } else if op == OpKind::Where {
        16
    } else if op == OpKind::Equal {
        19
    } else if op == OpKind::Round {
        22
    } else if op == OpKind::Identity || op == OpKind::Reshape || op == OpKind::Transpose || op
        == OpKind::Squeeze || op == OpKind::Unsqueeze || op == OpKind::Shape || op == OpKind::Size
        || op == OpKind::Pad || op == OpKind::Cast || op == OpKind::QuantizeLinear || op
        == OpKind::DequantizeLinear {
        21
    } else {
        13
    }
}

/// Whether an operator takes data of a type: the logical ones truth values alone, those on numbers
/// no truth values, those on fractions no integers, and only the quantized ones single bytes.
pub open spec fn takes_type(op: OpKind, t: ElemType) -> bool {
    let logical = op == OpKind::And || op == OpKind::Or || op == OpKind::Xor || op == OpKind::Not;
    let numeric = op == OpKind::Greater || op == OpKind::Less || op == OpKind::Add || op
        == OpKind::Sub || op == OpKind::Mul || op == OpKind::Div || op == OpKind::Min || op
        == OpKind::Max || op == OpKind::Abs || op == OpKind::Neg || op == OpKind::Sign;
    let fractional = op == OpKind::Sqrt || op == OpKind::Floor || op == OpKind::Ceil || op
        == OpKind::Round;
    if logical {
        t == ElemType::Bool
    } else if op == OpKind::QuantizeLinear || op == OpKind::DynamicQuantizeLinear {
        t == ElemType::F32
    } else if op == OpKind::DequantizeLinear || op == OpKind::MatMulInteger {
        t == ElemType::I8 || t == ElemType::U8
    } else if fractional {
        t == ElemType::F32 || t == ElemType::F64
    } else if numeric {
        t == ElemType::F32 || t == ElemType::F64 || t == ElemType::I32 || t == ElemType::I64
    } else {
        t != ElemType::I8 && t != ElemType::U8
    }
}

/// What an operator takes: how many inputs, from which version, of which types.
pub proof fn lemma_what_operators_take(op: OpKind, t: ElemType, opset: i64)
    ensures
        op.arity().0 == inputs_taken(op).0,
        op.arity().1 == inputs_taken(op).1,
        op.since() == first_version(op),
        op.data_types().contains(t) == takes_type(op, t),
        op.admits(t, opset) == (takes_type(op, t) && opset >= first_version(op)),
{
    let s = op.data_types();
    if s.len() > 0 {
        assert(s.contains(s[0]));
    }
    if s.len() > 1 {
        assert(s.contains(s[1]));
    }
    if s.len() > 2 {
        assert(s.contains(s[2]));
        assert(s.contains(s[3]));
    }
    if s.len() > 4 {
        assert(s.contains(s[4]));
    }
}

/// A legal case has as many inputs as its operator takes, is of a version that has it, and holds
/// data of a type that it takes.
pub proof fn lemma_a_legal_case_suits_its_operator(c: CaseModel)
    ensures
        free_of(c, Problem::Arity) == (inputs_taken(c.op).0 <= c.inputs.len() <= inputs_taken(
            c.op,
        ).1),
        free_of(c, Problem::Opset) == (c.opset >= first_version(c.op)),
        c.inputs.len() > 0 && (c.op == OpKind::Where ==> c.inputs.len() > 1) ==> free_of(
            c,
            Problem::ElementType,
        ) == takes_type(
            c.op,
            crate::metamorphic_laws::kind_of(
                if c.op == OpKind::Where {
                    c.inputs[1].data
                } else {
                    c.inputs[0].data
                },
            ),
        ),
{
    lemma_what_operators_take(c.op, crate::ops::data_elem_of(c), c.opset);
}

/// No extent of a legal case is negative, every tensor holds as many elements as its extents
/// multiply to, and no two inputs have one name.
pub proof fn lemma_a_legal_case_is_well_made(c: CaseModel, i: int, j: int, k: int)
    requires
        valid(c),
        0 <= i < c.inputs.len(),
        0 <= j < c.inputs.len(),
    ensures
        0 <= k < c.inputs[i].dims.len() ==> c.inputs[i].dims[k] >= 0,
        c.inputs[i].data.len() == product(c.inputs[i].dims),
        i != j ==> c.inputs[i].name != c.inputs[j].name,
{
    assert(free_of(c, Problem::NegativeExtent));
    assert(free_of(c, Problem::DataLength));
    assert(free_of(c, Problem::DuplicateName));
    assert(!any_negative(c.inputs[i].dims));
    if i < j {
        assert(c.inputs[i].name != c.inputs[j].name);
    } else if j < i {
        assert(c.inputs[j].name != c.inputs[i].name);
    }
}

/// What each of these problems is found for.
pub proof fn lemma_ill_made_cases_are_refused(c: CaseModel, i: int, j: int, k: int)
    requires
        0 <= i < c.inputs.len(),
        0 <= j < c.inputs.len(),
    ensures
        0 <= k < c.inputs[i].dims.len() && c.inputs[i].dims[k] < 0 ==> !free_of(
            c,
            Problem::NegativeExtent,
        ),
        !any_negative(c.inputs[i].dims) && c.inputs[i].data.len() != product(c.inputs[i].dims)
            ==> !free_of(c, Problem::DataLength),
        i != j && c.inputs[i].name == c.inputs[j].name ==> !free_of(c, Problem::DuplicateName),
{
    if 0 <= k < c.inputs[i].dims.len() && c.inputs[i].dims[k] < 0 {
        assert(any_negative(c.inputs[i].dims));
    }
    if i != j && c.inputs[i].name == c.inputs[j].name {
        if i < j {
            assert(c.inputs[i].name == c.inputs[j].name);
        } else {
            assert(c.inputs[j].name == c.inputs[i].name);
        }
    }
}

/// Whether the inputs of an operator must have one shape.
pub open spec fn wants_one_shape(op: OpKind) -> bool {
    op != OpKind::Reshape && op != OpKind::Transpose && op != OpKind::Concat && op
        != OpKind::Squeeze && op != OpKind::Unsqueeze && op != OpKind::Shape && op != OpKind::Size
        && op != OpKind::Slice && op != OpKind::Pad && op != OpKind::Gather && op != OpKind::Cast
        && op != OpKind::QuantizeLinear && op != OpKind::DequantizeLinear && op
        != OpKind::MatMulInteger
}

/// Inputs agree where the operator combines them element by element, in shape and in type. The
/// condition of `Where` has a type of its own, and what is joined may differ in shape.
pub proof fn lemma_inputs_agree(c: CaseModel)
    ensures
        free_of(c, Problem::Disagreement) <==> (forall|i: int, j: int|
            0 <= i < c.inputs.len() && 0 <= j < c.inputs.len() ==> (wants_one_shape(c.op) ==> (
            #[trigger] c.inputs[i]).dims == (#[trigger] c.inputs[j]).dims) && ((wants_one_shape(
                c.op,
            ) && c.op != OpKind::Where || c.op == OpKind::Concat) ==> crate::metamorphic_laws::kind_of(
                c.inputs[i].data,
            ) == crate::metamorphic_laws::kind_of(c.inputs[j].data))),
{
    if free_of(c, Problem::Disagreement) {
        assert forall|i: int, j: int|
            0 <= i < c.inputs.len() && 0 <= j < c.inputs.len() implies (wants_one_shape(c.op) ==> (
            #[trigger] c.inputs[i]).dims == (#[trigger] c.inputs[j]).dims) && ((wants_one_shape(
            c.op,
        ) && c.op != OpKind::Where || c.op == OpKind::Concat) ==> crate::metamorphic_laws::kind_of(
            c.inputs[i].data,
        ) == crate::metamorphic_laws::kind_of(c.inputs[j].data)) by {
            assert(c.inputs[i].elem_type() == crate::metamorphic_laws::kind_of(c.inputs[i].data));
        }
    }
}

// ---- operator by operator ----

/// The integers of a stored list.
pub open spec fn list_of(t: TensorModel) -> Seq<i64> {
    match t.data {
        DataModel::I64(v) => v,
        _ => Seq::empty(),
    }
}

proof fn lemma_list_of(c: CaseModel, i: int)
    requires
        0 <= i < c.inputs.len(),
    ensures
        integers_at(c, i) == list_of(c.inputs[i]),
{
}

/// An axis is one of the tensor's, counted from the front or from the back. It is the first one
/// where none is given, and a scalar has none.
pub proof fn lemma_an_axis_is_in_range(attrs: Seq<(Seq<char>, AttrModel)>, rank: nat)
    ensures
        axis_holds(attrs, rank) <==> (lookup(attrs, "axis"@) is None && rank > 0) || (exists|v: i64|
            #[trigger] lookup(attrs, "axis"@) == Some(AttrModel::Int(v)) && (0 <= v < rank || -rank
                <= v < 0)),
{
    match lookup(attrs, "axis"@) {
        Some(AttrModel::Int(v)) => {
            assert(lookup(attrs, "axis"@) == Some(AttrModel::Int(v)));
        },
        _ => {},
    }
}

/// A permutation of a transposition names every axis once.
pub proof fn lemma_a_legal_transposition(c: CaseModel, perm: Seq<i64>)
    requires
        c.op == OpKind::Transpose,
        c.inputs.len() == 1,
        lookup(c.attrs, "perm"@) == Some(AttrModel::Ints(perm)),
    ensures
        free_of(c, Problem::Parameter) <==> perm.len() == c.inputs[0].dims.len()
            && perm.no_duplicates() && (forall|i: int|
            0 <= i < perm.len() ==> 0 <= #[trigger] perm[i] < perm.len()),
{
    if is_permutation(perm, c.inputs[0].dims.len()) {
        assert forall|i: int, j: int| 0 <= i < perm.len() && 0 <= j < perm.len() && i
            != j implies perm[i] != perm[j] by {
            if i < j {
                assert(perm[i] != perm[j]);
            } else {
                assert(perm[j] != perm[i]);
            }
        }
    }
}

/// A transposition without a permutation is legal, and one whose `perm` is no list is not.
pub proof fn lemma_a_bare_transposition_is_legal(c: CaseModel)
    requires
        c.op == OpKind::Transpose,
        c.inputs.len() == 1,
    ensures
        lookup(c.attrs, "perm"@) is None ==> free_of(c, Problem::Parameter),
        (lookup(c.attrs, "perm"@) matches Some(a) && !(a is Ints)) ==> !free_of(
            c,
            Problem::Parameter,
        ),
{
}

/// A reshape keeps the number of elements, and its target is a list of integers.
pub proof fn lemma_a_legal_reshape(c: CaseModel)
    requires
        c.op == OpKind::Reshape,
        c.inputs.len() == 2,
    ensures
        free_of(c, Problem::Parameter) <==> c.inputs[1].data is I64 && (forall|k: int|
            0 <= k < output_dims(c).len() ==> #[trigger] output_dims(c)[k] >= 0) && product(
            output_dims(c),
        ) == c.inputs[0].data.len(),
{
    if !any_negative(output_dims(c)) {
        assert forall|k: int| 0 <= k < output_dims(c).len() implies #[trigger] output_dims(c)[k]
            >= 0 by {}
    }
}

/// Every index of a gathering is a place on its axis, counted from the front or from the back.
pub proof fn lemma_a_legal_gathering(c: CaseModel, axis: i64)
    requires
        c.op == OpKind::Gather,
        c.inputs.len() == 2,
        lookup(c.attrs, "axis"@) == Some(AttrModel::Int(axis)),
        -c.inputs[0].dims.len() <= axis < c.inputs[0].dims.len(),
    ensures
        ({
            let dims = c.inputs[0].dims;
            let at = if axis < 0 {
                axis + dims.len()
            } else {
                axis as int
            };
            free_of(c, Problem::Parameter) <==> c.inputs[1].data is I64 && (forall|k: int|
                0 <= k < list_of(c.inputs[1]).len() ==> 0 <= #[trigger] list_of(c.inputs[1])[k]
                    < dims[at] || -dims[at] <= list_of(c.inputs[1])[k] < 0)
        }),
{
    let dims = c.inputs[0].dims;
    let at = if axis < 0 {
        axis + dims.len()
    } else {
        axis as int
    };
    lemma_list_of(c, 1);
    assert(crate::ops::axis_of(c.attrs, dims.len()) == at);
    if gather_holds(c) {
        assert forall|k: int| 0 <= k < list_of(c.inputs[1]).len() implies 0 <= #[trigger] list_of(
            c.inputs[1],
        )[k] < dims[at] || -dims[at] <= list_of(c.inputs[1])[k] < 0 by {
            assert(integers_at(c, 1)[k] == list_of(c.inputs[1])[k]);
        }
    }
}

/// Joined tensors have one rank and the same extents away from the axis that they are joined
/// along, which has to be given.
pub proof fn lemma_a_legal_concatenation(c: CaseModel, axis: i64)
    requires
        c.op == OpKind::Concat,
        1 <= c.inputs.len() <= 8,
        lookup(c.attrs, "axis"@) == Some(AttrModel::Int(axis)),
        -c.inputs[0].dims.len() <= axis < c.inputs[0].dims.len(),
    ensures
        ({
            let rank = c.inputs[0].dims.len();
            let at = if axis < 0 {
                axis + rank
            } else {
                axis as int
            };
            free_of(c, Problem::Parameter) <==> (forall|i: int|
                0 <= i < c.inputs.len() ==> (#[trigger] c.inputs[i]).dims.len() == rank) && (forall|
                i: int,
                k: int,
            |
                0 <= i < c.inputs.len() && 0 <= k < rank && k != at ==> #[trigger] c.inputs[i].dims[k]
                    == c.inputs[0].dims[k])
        }),
{
    let rank = c.inputs[0].dims.len();
    let at = if axis < 0 {
        axis + rank
    } else {
        axis as int
    };
    assert(crate::ops::axis_of(c.attrs, rank) == at);
    if concat_holds(c) {
        assert forall|i: int, k: int|
            0 <= i < c.inputs.len() && 0 <= k < rank && k
                != at implies #[trigger] c.inputs[i].dims[k] == c.inputs[0].dims[k] by {
            assert(crate::validation::same_but_for(c.inputs[i].dims, c.inputs[0].dims, at));
        }
    }
}

/// Only axes of extent one are squeezed away.
pub proof fn lemma_a_legal_squeeze(c: CaseModel)
    requires
        c.op == OpKind::Squeeze,
    ensures
        c.inputs.len() == 1 ==> free_of(c, Problem::Parameter),
        c.inputs.len() == 2 ==> (free_of(c, Problem::Parameter) <==> c.inputs[1].data is I64 && (
        forall|k: int|
            0 <= k < list_of(c.inputs[1]).len() ==> 0 <= #[trigger] list_of(c.inputs[1])[k]
                < c.inputs[0].dims.len() && c.inputs[0].dims[list_of(c.inputs[1])[k] as int] == 1)),
{
    if c.inputs.len() == 2 {
        lemma_list_of(c, 1);
        if squeeze_holds(c) {
            assert forall|k: int| 0 <= k < list_of(c.inputs[1]).len() implies 0
                <= #[trigger] list_of(c.inputs[1])[k] < c.inputs[0].dims.len()
                && c.inputs[0].dims[list_of(c.inputs[1])[k] as int] == 1 by {
                assert(integers_at(c, 1)[k] == list_of(c.inputs[1])[k]);
            }
        }
    }
}

/// An inserted axis is one of the result's, and is inserted once.
pub proof fn lemma_a_legal_unsqueeze(c: CaseModel)
    requires
        c.op == OpKind::Unsqueeze,
        c.inputs.len() == 2,
    ensures
        free_of(c, Problem::Parameter) <==> c.inputs[1].data is I64 && list_of(
            c.inputs[1],
        ).no_duplicates() && (forall|k: int|
            0 <= k < list_of(c.inputs[1]).len() ==> 0 <= #[trigger] list_of(c.inputs[1])[k]
                < c.inputs[0].dims.len() + list_of(c.inputs[1]).len()),
{
    lemma_list_of(c, 1);
    let axes = list_of(c.inputs[1]);
    if unsqueeze_holds(c) {
        assert forall|i: int, j: int| 0 <= i < axes.len() && 0 <= j < axes.len() && i
            != j implies axes[i] != axes[j] by {
            if i < j {
                assert(axes[i] != axes[j]);
            } else {
                assert(axes[j] != axes[i]);
            }
        }
    }
}

/// A slice names, for each leading axis that it cuts, a start and an end that lie in order within
/// it.
pub proof fn lemma_a_legal_slice(c: CaseModel)
    requires
        c.op == OpKind::Slice,
        c.inputs.len() == 3,
    ensures
        ({
            let (starts, ends) = (list_of(c.inputs[1]), list_of(c.inputs[2]));
            free_of(c, Problem::Parameter) <==> c.inputs[1].data is I64 && c.inputs[2].data is I64
                && starts.len() == ends.len() && starts.len() <= c.inputs[0].dims.len() && (forall|
                k: int,
            |
                0 <= k < starts.len() ==> 0 <= #[trigger] starts[k] && starts[k] <= ends[k]
                    && ends[k] <= c.inputs[0].dims[k])
        }),
{
    lemma_list_of(c, 1);
    lemma_list_of(c, 2);
}

/// The axes and the steps of a slice, where they are given, are the leading axes and steps of one.
pub proof fn lemma_a_legal_slice_with_axes(c: CaseModel, k: int)
    requires
        c.op == OpKind::Slice,
        4 <= c.inputs.len() <= 5,
        free_of(c, Problem::Parameter),
        0 <= k < list_of(c.inputs[1]).len(),
    ensures
        list_of(c.inputs[3]).len() == list_of(c.inputs[1]).len(),
        list_of(c.inputs[3])[k] == k,
        c.inputs.len() == 5 ==> list_of(c.inputs[4]).len() == list_of(c.inputs[1]).len() && list_of(
            c.inputs[4],
        )[k] == 1,
        0 <= list_of(c.inputs[1])[k] <= list_of(c.inputs[2])[k] <= c.inputs[0].dims[k],
{
    lemma_list_of(c, 1);
    lemma_list_of(c, 2);
    lemma_list_of(c, 3);
    if c.inputs.len() == 5 {
        lemma_list_of(c, 4);
    }
}

/// Padding gives an amount for both ends of every axis, and none is negative. What is filled in is
/// a scalar of the data's type.
pub proof fn lemma_a_legal_padding(c: CaseModel)
    requires
        c.op == OpKind::Pad,
        2 <= c.inputs.len() <= 3,
    ensures
        free_of(c, Problem::Parameter) <==> c.inputs[1].data is I64 && list_of(c.inputs[1]).len()
            == c.inputs[0].dims.len() + c.inputs[0].dims.len() && (forall|k: int|
            0 <= k < list_of(c.inputs[1]).len() ==> #[trigger] list_of(c.inputs[1])[k] >= 0) && (
        c.inputs.len() == 3 ==> c.inputs[2].dims.len() == 0 && crate::metamorphic_laws::kind_of(
            c.inputs[2].data,
        ) == crate::metamorphic_laws::kind_of(c.inputs[0].data)),
{
    lemma_list_of(c, 1);
    let pads = list_of(c.inputs[1]);
    if pad_holds(c) {
        assert forall|k: int| 0 <= k < pads.len() implies #[trigger] pads[k] >= 0 by {
            assert(!any_negative(pads));
        }
    }
    if forall|k: int| 0 <= k < pads.len() ==> #[trigger] pads[k] >= 0 {
        assert(!any_negative(pads));
    }
    assert(c.inputs[0].elem_type() == crate::metamorphic_laws::kind_of(c.inputs[0].data));
}

/// The axes of a padding, where they are given, are all of them in order.
pub proof fn lemma_a_legal_padding_with_axes(c: CaseModel, k: int)
    requires
        c.op == OpKind::Pad,
        c.inputs.len() == 4,
        free_of(c, Problem::Parameter),
        0 <= k < c.inputs[0].dims.len(),
    ensures
        list_of(c.inputs[3]).len() == c.inputs[0].dims.len(),
        list_of(c.inputs[3])[k] == k,
{
    lemma_list_of(c, 3);
}

/// The condition of `Where` is of truth values, and what it selects from is of one type.
pub proof fn lemma_a_legal_selection(c: CaseModel)
    requires
        c.op == OpKind::Where,
        c.inputs.len() == 3,
    ensures
        free_of(c, Problem::Parameter) <==> c.inputs[0].data is Bool
            && crate::metamorphic_laws::kind_of(c.inputs[1].data)
            == crate::metamorphic_laws::kind_of(c.inputs[2].data),
{
    assert(c.inputs[1].elem_type() == crate::metamorphic_laws::kind_of(c.inputs[1].data));
    assert(c.inputs[2].elem_type() == crate::metamorphic_laws::kind_of(c.inputs[2].data));
}

/// A conversion names the number of a type.
pub proof fn lemma_a_legal_conversion(c: CaseModel)
    requires
        c.op == OpKind::Cast,
        c.inputs.len() == 1,
    ensures
        free_of(c, Problem::Parameter) <==> exists|t: ElemType|
            lookup(c.attrs, "to"@) == Some(
                AttrModel::Int(#[trigger] crate::shape_laws::standard_number(t) as i64),
            ),
{
    if free_of(c, Problem::Parameter) {
        let w = lookup(c.attrs, "to"@)->0->Int_0;
        let t = ElemType::of_wire(w as i32)->0;
        assert(crate::shape_laws::standard_number(t) == w);
    }
}

/// A quantization has a single-precision scale and a zero point of one byte, both scalars. Where
/// bytes come in, the zero point has their type.
pub proof fn lemma_a_legal_quantization(c: CaseModel)
    requires
        c.op == OpKind::QuantizeLinear || c.op == OpKind::DequantizeLinear,
        c.inputs.len() == 3,
    ensures
        free_of(c, Problem::Parameter) <==> c.inputs[1].data is F32 && c.inputs[1].dims.len() == 0
            && c.inputs[2].dims.len() == 0 && (c.inputs[2].data is I8 || c.inputs[2].data is U8)
            && (c.op == OpKind::DequantizeLinear ==> crate::metamorphic_laws::kind_of(
            c.inputs[2].data,
        ) == crate::metamorphic_laws::kind_of(c.inputs[0].data)),
{
    assert(c.inputs[0].elem_type() == crate::metamorphic_laws::kind_of(c.inputs[0].data));
    assert(c.inputs[2].elem_type() == crate::metamorphic_laws::kind_of(c.inputs[2].data));
}

/// Two matrices are multiplied where the columns of one are as many as the rows of the other, and
/// each has a scalar zero point of its own type.
pub proof fn lemma_a_legal_product(c: CaseModel)
    requires
        c.op == OpKind::MatMulInteger,
        c.inputs.len() == 4,
    ensures
        free_of(c, Problem::Parameter) <==> c.inputs[0].dims.len() == 2 && c.inputs[1].dims.len()
            == 2 && c.inputs[0].dims[1] == c.inputs[1].dims[0] && (forall|i: int|
            2 <= i < 4 ==> (#[trigger] c.inputs[i]).dims.len() == 0 && (c.inputs[i].data is I8
                || c.inputs[i].data is U8) && crate::metamorphic_laws::kind_of(c.inputs[i].data)
                == crate::metamorphic_laws::kind_of(c.inputs[i - 2].data)),
{
    assert(c.inputs[0].elem_type() == crate::metamorphic_laws::kind_of(c.inputs[0].data));
    assert(c.inputs[1].elem_type() == crate::metamorphic_laws::kind_of(c.inputs[1].data));
    assert(c.inputs[2].elem_type() == crate::metamorphic_laws::kind_of(c.inputs[2].data));
    assert(c.inputs[3].elem_type() == crate::metamorphic_laws::kind_of(c.inputs[3].data));
}

/// A dynamic quantization needs an element to look at. What has no parameters asks for nothing.
pub proof fn lemma_operators_without_parameters(c: CaseModel)
    requires
        inputs_taken(c.op).0 <= c.inputs.len() <= inputs_taken(c.op).1,
    ensures
        c.op == OpKind::DynamicQuantizeLinear ==> (free_of(c, Problem::Parameter) <==> c.inputs[0].data.len()
            > 0),
        c.op == OpKind::Shape || c.op == OpKind::Size || wants_one_shape(c.op) && c.op
            != OpKind::Where && c.op != OpKind::DynamicQuantizeLinear ==> free_of(
            c,
            Problem::Parameter,
        ),
{
    lemma_what_operators_take(c.op, ElemType::F32, c.opset);
}

} // verus!
