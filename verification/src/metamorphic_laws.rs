//! Why the relations that hold one implementation against itself are sound.

use vstd::prelude::*;

use crate::attrs::{lookup, AttrModel};
use crate::case::{CaseModel, DataModel, ElemType, OpKind, TensorModel};
use crate::metamorphic::{earlier_case, follow_up, inverse_of, last_position, shape_verdict, undoing};
use crate::metamorphic::{lemma_a_permutation_and_its_inverse_cancel, widened, Tally, Verdict};
use crate::ops::{output_dims, output_elem};
use crate::shape_laws::{lemma_a_transposition_moves_extents, standard_number};
use crate::validation::is_permutation;

verus! {

// ---- conversion ----

/// Whether the values of a type are floating point numbers.
pub open spec fn of_fractions(t: ElemType) -> bool {
    t == ElemType::F32 || t == ElemType::F64
}

/// Whether the values of a type are signed integers.
pub open spec fn of_signed_integers(t: ElemType) -> bool {
    t == ElemType::I8 || t == ElemType::I32 || t == ElemType::I64
}

/// How many bits a value of a type takes.
pub open spec fn bits_in(t: ElemType) -> int {
    if t == ElemType::F64 || t == ElemType::I64 {
        64
    } else if t == ElemType::F32 || t == ElemType::I32 {
        32
    } else {
        8
    }
}

/// The type of the elements of a tensor.
pub open spec fn kind_of(d: DataModel) -> ElemType {
    match d {
        DataModel::F32(_) => ElemType::F32,
        DataModel::F64(_) => ElemType::F64,
        DataModel::I32(_) => ElemType::I32,
        DataModel::I64(_) => ElemType::I64,
        DataModel::U8(_) => ElemType::U8,
        DataModel::I8(_) => ElemType::I8,
        DataModel::Bool(_) => ElemType::Bool,
    }
}

/// Whether a type holds every value of another one exactly, with room to spare: both are of
/// floating point numbers or both of signed integers, and it is wider.
pub open spec fn holds_all_of(wide: ElemType, narrow: ElemType) -> bool {
    &&& of_fractions(wide) == of_fractions(narrow)
    &&& of_signed_integers(wide) == of_signed_integers(narrow)
    &&& of_fractions(wide) || of_signed_integers(wide)
    &&& bits_in(wide) > bits_in(narrow)
}

/// A conversion there and back goes through a type that holds every value of the source exactly,
/// on the same tensor, and comes back to the type that it started from. It is made for the four
/// byte types alone.
pub proof fn lemma_a_round_trip_goes_through_a_wider_type(c: CaseModel)
    ensures
        match widened(c) {
            Some((out, back)) => {
                &&& c.op == OpKind::Cast && c.inputs.len() > 0
                &&& out.op == OpKind::Cast
                &&& out.opset == c.opset
                &&& out.inputs == seq![c.inputs[0]]
                &&& back == kind_of(c.inputs[0].data)
                &&& holds_all_of(output_elem(out), back)
                &&& lookup(out.attrs, "to"@) == Some(
                    AttrModel::Int(standard_number(output_elem(out)) as i64),
                )
            },
            None => c.op != OpKind::Cast || c.inputs.len() == 0 || bits_in(
                kind_of(c.inputs[0].data),
            ) != 32,
        },
{
    if let Some((out, back)) = widened(c) {
        let wide = if back == ElemType::F32 { ElemType::F64 } else { ElemType::I64 };
        assert(out.attrs[0] == ("to"@, AttrModel::Int(standard_number(wide) as i64)));
        assert(lookup(out.attrs, "to"@) == Some(AttrModel::Int(standard_number(wide) as i64)));
    }
}

/// The narrowing half of a conversion there and back takes what was produced and answers in the
/// type that it is told to come back to.
pub proof fn lemma_the_way_back_ends_where_it_began(
    produced: TensorModel,
    back: ElemType,
    opset: i64,
)
    ensures
        ({
            let attrs = seq![("to"@, AttrModel::Int(back.wire_number() as i64))];
            let c = follow_up(OpKind::Cast, opset, produced, attrs);
            &&& output_elem(c) == back
            &&& c.inputs.len() == 1
            &&& c.inputs[0].dims == produced.dims
            &&& c.inputs[0].data == produced.data
            &&& output_dims(c) == produced.dims
            &&& c.op == OpKind::Cast
            &&& c.opset == opset
        }),
{
    let attrs = seq![("to"@, AttrModel::Int(back.wire_number() as i64))];
    assert(attrs[0] == ("to"@, AttrModel::Int(back.wire_number() as i64)));
    assert(lookup(attrs, "to"@) == Some(AttrModel::Int(back.wire_number() as i64)));
}

// ---- transposition ----

proof fn lemma_every_axis_is_somewhere(perm: Seq<i64>, axis: int, n: nat)
    requires
        n <= perm.len(),
        exists|i: int| 0 <= i < n && perm[i] == axis,
    ensures
        0 <= last_position(perm, axis, n) < n,
        perm[last_position(perm, axis, n)] == axis,
    decreases n,
{
    if perm[n - 1] != axis {
        let i = choose|i: int| 0 <= i < n && perm[i] == axis;
        assert(0 <= i < n - 1);
        lemma_every_axis_is_somewhere(perm, axis, (n - 1) as nat);
    }
}

/// A permutation names every axis.
pub proof fn lemma_every_axis_is_named(perm: Seq<i64>, axis: int)
    requires
        is_permutation(perm, perm.len()),
        0 <= axis < perm.len(),
    ensures
        exists|i: int| 0 <= i < perm.len() && perm[i] == axis,
{
    let axes = Seq::new(perm.len(), |i: int| perm[i] as int);
    let all = vstd::set_lib::set_int_range(0, perm.len() as int);
    assert forall|i: int, j: int| 0 <= i < j < axes.len() implies axes[i] != axes[j] by {
        assert(perm[i] != perm[j]);
    }
    axes.unique_seq_to_set();
    vstd::set_lib::lemma_int_range(0, perm.len() as int);
    assert forall|x: int| axes.to_set().contains(x) implies all.contains(x) by {
        let i = choose|i: int| 0 <= i < axes.len() && axes[i] == x;
        assert(0 <= perm[i] < perm.len());
    }
    vstd::set_lib::lemma_subset_equality(axes.to_set(), all);
    assert(axes.to_set().contains(axis));
    let i = choose|i: int| 0 <= i < axes.len() && axes[i] == axis;
    assert(perm[i] == axis);
}

/// The case that undoes a transposition takes what was produced, and transposes it to the shape
/// that the transposition started from, whatever the permutation.
pub proof fn lemma_an_undone_transposition_has_the_first_shape(
    c: CaseModel,
    produced: TensorModel,
    perm: Seq<i64>,
    i: int,
)
    requires
        c.op == OpKind::Transpose,
        c.inputs.len() > 0,
        lookup(c.attrs, "perm"@) == Some(AttrModel::Ints(perm)),
        is_permutation(perm, c.inputs[0].dims.len()),
        perm.len() <= i64::MAX,
        produced.dims == output_dims(c),
        0 <= i < perm.len(),
    ensures
        undoing(c, produced) is Some,
        ({
            let back = undoing(c, produced)->0;
            &&& back.op == OpKind::Transpose
            &&& back.opset == c.opset
            &&& back.inputs.len() == 1
            &&& back.inputs[0].dims == produced.dims
            &&& back.inputs[0].data == produced.data
            &&& output_dims(back).len() == c.inputs[0].dims.len()
            &&& output_dims(back)[i] == c.inputs[0].dims[i]
        }),
{
    let back = undoing(c, produced)->0;
    let order = inverse_of(perm);
    assert(crate::metamorphic::names_axes(perm));
    assert(back.attrs[0] == ("perm"@, AttrModel::Ints(order)));
    assert(lookup(back.attrs, "perm"@) == Some(AttrModel::Ints(order)));
    lemma_every_axis_is_named(perm, i);
    lemma_every_axis_is_somewhere(perm, i, perm.len());
    let k = order[i] as int;
    assert(0 <= k < perm.len() && perm[k] == i);
    lemma_a_transposition_moves_extents(c, k);
}

/// The case that undoes a transposition names, for every axis, where the transposition put it.
pub proof fn lemma_an_undone_transposition_reverses_the_moves(
    c: CaseModel,
    produced: TensorModel,
    perm: Seq<i64>,
    i: int,
)
    requires
        c.op == OpKind::Transpose,
        lookup(c.attrs, "perm"@) == Some(AttrModel::Ints(perm)),
        is_permutation(perm, perm.len()),
        perm.len() <= i64::MAX,
        0 <= i < perm.len(),
    ensures
        ({
            let back = undoing(c, produced)->0;
            &&& lookup(back.attrs, "perm"@) matches Some(AttrModel::Ints(order))
            &&& order.len() == perm.len()
            &&& order[perm[i] as int] == i
        }),
{
    let back = undoing(c, produced)->0;
    assert(crate::metamorphic::names_axes(perm));
    assert(back.attrs[0] == ("perm"@, AttrModel::Ints(inverse_of(perm))));
    lemma_a_permutation_and_its_inverse_cancel(perm, i);
}

/// Nothing undoes another operator, nor a transposition that names no axis or one that is not
/// there.
pub proof fn lemma_only_transpositions_are_undone(c: CaseModel, produced: TensorModel)
    ensures
        undoing(c, produced) is Some ==> c.op == OpKind::Transpose && (lookup(
            c.attrs,
            "perm"@,
        ) is Some) && (lookup(c.attrs, "perm"@)->0 matches AttrModel::Ints(perm) && forall|i: int|
            0 <= i < perm.len() ==> 0 <= #[trigger] perm[i] < perm.len()),
{
}

// ---- shape ----

/// The shape relation tells first outputs apart by shape and type alone: what it holds for, it
/// holds for no first output of another shape or of another type.
pub proof fn lemma_the_shape_relation_tells_shapes_and_types(
    c: CaseModel,
    left: Seq<TensorModel>,
    right: Seq<TensorModel>,
)
    requires
        left.len() > 0,
        right.len() > 0,
        shape_verdict(c, left) == Verdict::Held,
    ensures
        shape_verdict(c, right) == (if left[0].dims == right[0].dims && kind_of(left[0].data)
            == kind_of(right[0].data) {
            Verdict::Held
        } else {
            Verdict::Violated
        }),
        left[0].dims == output_dims(c),
        kind_of(left[0].data) == output_elem(c),
{
}

/// The shape relation does not apply where nothing was produced or no shape is inferred, and
/// nowhere else. What has the inferred shape and type is never a violation.
pub proof fn lemma_the_shape_relation_applies(c: CaseModel, produced: Seq<TensorModel>, i: int)
    ensures
        produced.len() == 0 ==> shape_verdict(c, produced) == Verdict::NotApplicable,
        0 <= i < output_dims(c).len() && output_dims(c)[i] < 0 ==> shape_verdict(c, produced)
            == Verdict::NotApplicable,
        produced.len() > 0 && (forall|k: int|
            0 <= k < output_dims(c).len() ==> #[trigger] output_dims(c)[k] >= 0) ==> shape_verdict(
            c,
            produced,
        ) != Verdict::NotApplicable,
        produced.len() > 0 && produced[0].dims == output_dims(c) && kind_of(produced[0].data)
            == output_elem(c) ==> shape_verdict(c, produced) != Verdict::Violated,
{
}

// ---- opset ----

/// The opset relation moves a case down to one version for each operator, whatever version it was
/// written for, and there the relation stops.
pub proof fn lemma_the_opset_relation_reaches_the_first_version(a: CaseModel, b: CaseModel)
    requires
        a.op == b.op,
        earlier_case(a) is Some,
        earlier_case(b) is Some,
    ensures
        earlier_case(a)->0.opset == earlier_case(b)->0.opset,
        earlier_case(a)->0.opset < a.opset,
        earlier_case(earlier_case(a)->0) is None,
{
}

// ---- counting ----

/// A verdict adds one to its own count and leaves the others as they are.
pub proof fn lemma_a_verdict_is_counted_once(t: Tally, verdict: Verdict)
    requires
        t.held < usize::MAX,
        t.violated < usize::MAX,
        t.not_applicable < usize::MAX,
    ensures
        t.with(verdict).held == t.held + (if verdict == Verdict::Held {
            1int
        } else {
            0
        }),
        t.with(verdict).violated == t.violated + (if verdict == Verdict::Violated {
            1int
        } else {
            0
        }),
        t.with(verdict).not_applicable == t.not_applicable + (if verdict == Verdict::NotApplicable {
            1int
        } else {
            0
        }),
{
}

} // verus!
