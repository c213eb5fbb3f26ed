//! What shape inference gives, operator by operator, said of the extents themselves.

use vstd::prelude::*;

use crate::attrs::{lookup, AttrModel};
use crate::case::{product, CaseModel, DataModel, ElemType, OpKind, TensorModel};
use crate::ops::{output_dims, output_elem};
use crate::order::sort_integers;
use crate::validation::is_permutation;

verus! {

// ---- attributes ----

/// An attribute that is found stands in the list under its name, with no other of that name before
/// it; where none is found, none of that name stands there.
pub proof fn lemma_lookup_finds_what_is_there(
    attrs: Seq<(Seq<char>, AttrModel)>,
    name: Seq<char>,
)
    ensures
        match lookup(attrs, name) {
            Some(v) => exists|i: int|
                0 <= i < attrs.len() && (#[trigger] attrs[i]) == (name, v) && forall|j: int|
                    0 <= j < i ==> (#[trigger] attrs[j]).0 != name,
            None => forall|i: int| 0 <= i < attrs.len() ==> (#[trigger] attrs[i]).0 != name,
        },
    decreases attrs.len(),
{
    if attrs.len() > 0 && attrs[0].0 != name {
        let rest = attrs.skip(1);
        lemma_lookup_finds_what_is_there(rest, name);
        match lookup(rest, name) {
            Some(v) => {
                let i = choose|i: int|
                    0 <= i < rest.len() && (#[trigger] rest[i]) == (name, v) && forall|j: int|
                        0 <= j < i ==> (#[trigger] rest[j]).0 != name;
                assert(attrs[i + 1] == (name, v));
                assert forall|j: int| 0 <= j < i + 1 implies (#[trigger] attrs[j]).0 != name by {
                    if j > 0 {
                        assert(rest[j - 1] == attrs[j]);
                    }
                }
            },
            None => {
                assert forall|i: int| 0 <= i < attrs.len() implies (#[trigger] attrs[i]).0 != name by {
                    if i > 0 {
                        assert(rest[i - 1] == attrs[i]);
                    }
                }
            },
        }
    }
}

// ---- operators that keep the shape ----

/// Whether an operator gives its output the shape of its first input.
pub open spec fn keeps_the_shape(op: OpKind) -> bool {
    !(op == OpKind::Reshape || op == OpKind::Transpose || op == OpKind::Concat || op
        == OpKind::Squeeze || op == OpKind::Unsqueeze || op == OpKind::Shape || op == OpKind::Size
        || op == OpKind::Slice || op == OpKind::Pad || op == OpKind::Gather || op == OpKind::Where
        || op == OpKind::MatMulInteger)
}

/// An operator that works element by element, or converts every element, gives the shape of its
/// first input.
pub proof fn lemma_elements_keep_their_places(c: CaseModel)
    requires
        keeps_the_shape(c.op),
        c.inputs.len() > 0,
    ensures
        output_dims(c) == c.inputs[0].dims,
{
}

/// A selection has the shape and the type of what it selects from.
pub proof fn lemma_a_selection_is_like_its_branches(c: CaseModel)
    requires
        c.op == OpKind::Where,
        c.inputs.len() > 1,
    ensures
        output_dims(c) == c.inputs[1].dims,
        output_elem(c) == c.inputs[1].elem_type(),
{
}

// ---- the type of the output ----

/// Comparisons answer with truth values, and shapes and sizes are counted in 64 bits. A product of
/// quantized matrices is summed in 32 bits. A dynamic quantization gives unsigned bytes, a
/// quantization the type of its zero point and the way back the type of the scale.
pub proof fn lemma_the_type_of_the_answer(c: CaseModel)
    ensures
        c.op == OpKind::Equal || c.op == OpKind::Greater || c.op == OpKind::Less ==> output_elem(c)
            == ElemType::Bool,
        c.op == OpKind::Shape || c.op == OpKind::Size ==> output_elem(c) == ElemType::I64,
        c.op == OpKind::MatMulInteger ==> output_elem(c) == ElemType::I32,
        c.op == OpKind::DynamicQuantizeLinear ==> output_elem(c) == ElemType::U8,
        c.op == OpKind::QuantizeLinear && c.inputs.len() == 3 ==> output_elem(c)
            == c.inputs[2].elem_type(),
        c.op == OpKind::DequantizeLinear && c.inputs.len() >= 2 ==> output_elem(c)
            == c.inputs[1].elem_type(),
{
}

/// Every other operator but a conversion answers in the type of its first input.
pub proof fn lemma_the_type_is_kept(c: CaseModel)
    requires
        c.inputs.len() > 0,
        !(c.op == OpKind::Equal || c.op == OpKind::Greater || c.op == OpKind::Less || c.op
            == OpKind::Shape || c.op == OpKind::Size || c.op == OpKind::MatMulInteger || c.op
            == OpKind::DynamicQuantizeLinear || c.op == OpKind::QuantizeLinear || c.op
            == OpKind::DequantizeLinear || c.op == OpKind::Where || c.op == OpKind::Cast),
    ensures
        output_elem(c) == c.inputs[0].elem_type(),
{
}

/// The number that the standard gives a type.
pub open spec fn standard_number(t: ElemType) -> int {
    if t == ElemType::F32 {
        1
    } else if t == ElemType::F64 {
        11
    } else if t == ElemType::U8 {
        2
    } else if t == ElemType::I8 {
        3
    } else if t == ElemType::Bool {
        9
    } else if t == ElemType::I32 {
        6
    } else {
        7
    }
}

/// A type is written as the number that the standard gives it, and read back from no other.
pub proof fn lemma_types_have_their_standard_numbers(t: ElemType, n: i32)
    ensures
        t.wire_number() == standard_number(t),
        ElemType::of_wire(n) == Some(t) <==> n == standard_number(t),
{
}

/// A conversion answers in the type whose number it names.
pub proof fn lemma_a_conversion_gives_what_it_names(c: CaseModel, t: ElemType)
    requires
        c.op == OpKind::Cast,
        lookup(c.attrs, "to"@) == Some(AttrModel::Int(standard_number(t) as i64)),
    ensures
        output_elem(c) == t,
{
}

/// A conversion that names no type, or none that is known, leaves the type as it is.
pub proof fn lemma_a_conversion_to_nothing_keeps_the_type(c: CaseModel, n: i64)
    requires
        c.op == OpKind::Cast,
        c.inputs.len() > 0,
        lookup(c.attrs, "to"@) is None || (lookup(c.attrs, "to"@) == Some(AttrModel::Int(n))
            && i32::MIN <= n <= i32::MAX && forall|t: ElemType| #[trigger] standard_number(t) != n),
    ensures
        output_elem(c) == c.inputs[0].elem_type(),
{
    assert(standard_number(ElemType::F32) == 1 && standard_number(ElemType::U8) == 2
        && standard_number(ElemType::I8) == 3 && standard_number(ElemType::I32) == 6
        && standard_number(ElemType::I64) == 7 && standard_number(ElemType::Bool) == 9
        && standard_number(ElemType::F64) == 11);
}

// ---- shape and size ----

/// The shape of a tensor is a vector with one number for each axis, and its size is one number.
pub proof fn lemma_the_shape_is_a_vector(c: CaseModel)
    requires
        c.inputs.len() > 0,
        c.inputs[0].dims.len() <= i64::MAX,
    ensures
        c.op == OpKind::Shape ==> output_dims(c).len() == 1 && output_dims(c)[0]
            == c.inputs[0].dims.len(),
        c.op == OpKind::Size ==> output_dims(c).len() == 0,
{
}

// ---- transposition ----

/// A transposition moves extents about: the axis at a position of the output is the one that the
/// permutation names there. Without a permutation the axes are reversed.
pub proof fn lemma_a_transposition_moves_extents(c: CaseModel, i: int)
    requires
        c.op == OpKind::Transpose,
        c.inputs.len() > 0,
        0 <= i < c.inputs[0].dims.len(),
    ensures
        match lookup(c.attrs, "perm"@) {
            Some(AttrModel::Ints(perm)) => is_permutation(perm, c.inputs[0].dims.len())
                ==> output_dims(c).len() == c.inputs[0].dims.len() && output_dims(c)[i]
                == c.inputs[0].dims[perm[i] as int],
            _ => output_dims(c).len() == c.inputs[0].dims.len() && output_dims(c)[i]
                == c.inputs[0].dims[c.inputs[0].dims.len() - 1 - i],
        },
{
}

// ---- concatenation ----

/// A concatenation of one tensor is that tensor, along any axis.
pub proof fn lemma_one_tensor_is_its_own_concatenation(c: CaseModel, axis: i64)
    requires
        c.op == OpKind::Concat,
        lookup(c.attrs, "axis"@) == Some(AttrModel::Int(axis)),
        c.inputs.len() == 1,
        0 <= axis < c.inputs[0].dims.len(),
    ensures
        output_dims(c) == c.inputs[0].dims,
{
    let inputs = c.inputs;
    assert(inputs.drop_last() =~= Seq::empty());
    assert(crate::ops::joined_extent(inputs.drop_last(), axis as int) == 0);
    assert(output_dims(c) =~= c.inputs[0].dims);
}

/// Each further tensor adds its extent along the axis, and leaves the other axes alone.
pub proof fn lemma_a_concatenation_adds_extents(c: CaseModel, next: TensorModel, axis: i64, j: int)
    requires
        c.op == OpKind::Concat,
        lookup(c.attrs, "axis"@) == Some(AttrModel::Int(axis)),
        c.inputs.len() > 0,
        0 <= axis < c.inputs[0].dims.len(),
        next.dims.len() == c.inputs[0].dims.len(),
        0 <= j < c.inputs[0].dims.len(),
        i64::MIN <= crate::ops::joined_extent(c.inputs, axis as int) <= i64::MAX,
        i64::MIN <= crate::ops::joined_extent(c.inputs, axis as int) + next.dims[axis as int]
            <= i64::MAX,
    ensures
        output_dims(CaseModel { inputs: c.inputs.push(next), ..c }).len() == output_dims(c).len(),
        output_dims(CaseModel { inputs: c.inputs.push(next), ..c })[j] == output_dims(c)[j] + (if j
            == axis {
            next.dims[axis as int] as int
        } else {
            0
        }),
{
    assert(c.inputs.push(next).drop_last() =~= c.inputs);
}

/// An axis that is counted from the back names the same axis as one that is counted from the front.
pub proof fn lemma_axes_count_from_either_end(c: CaseModel, from_front: CaseModel, k: i64)
    requires
        c.op == OpKind::Concat || c.op == OpKind::Gather,
        c.inputs.len() > 0,
        1 <= k <= c.inputs[0].dims.len() <= i64::MAX,
        lookup(c.attrs, "axis"@) == Some(AttrModel::Int((-k) as i64)),
        from_front.op == c.op,
        from_front.inputs == c.inputs,
        lookup(from_front.attrs, "axis"@) == Some(
            AttrModel::Int((c.inputs[0].dims.len() - k) as i64),
        ),
    ensures
        output_dims(c) == output_dims(from_front),
{
}

// ---- gathering ----

/// Gathering puts the shape of the indices in the place of the axis.
pub proof fn lemma_gathering_replaces_an_axis(c: CaseModel, axis: i64)
    requires
        c.op == OpKind::Gather,
        c.inputs.len() == 2,
        lookup(c.attrs, "axis"@) == Some(AttrModel::Int(axis)),
        0 <= axis < c.inputs[0].dims.len(),
    ensures
        ({
            let d = c.inputs[0].dims;
            let q = c.inputs[1].dims;
            let out = output_dims(c);
            &&& out.len() == d.len() - 1 + q.len()
            &&& forall|i: int| 0 <= i < axis ==> #[trigger] out[i] == d[i]
            &&& forall|i: int| 0 <= i < q.len() ==> #[trigger] out[axis + i] == q[i]
            &&& forall|i: int|
                axis < i < d.len() ==> out[i - 1 + q.len()] == #[trigger] d[i]
        }),
{
}

/// Gathering without an axis is along the first.
pub proof fn lemma_gathering_is_along_the_first_axis(c: CaseModel)
    requires
        c.op == OpKind::Gather,
        c.inputs.len() == 2,
        lookup(c.attrs, "axis"@) is None,
        c.inputs[0].dims.len() > 0,
    ensures
        output_dims(c) == c.inputs[1].dims + c.inputs[0].dims.skip(1),
{
    assert(c.inputs[0].dims.take(0) =~= Seq::empty());
}

// ---- reshaping ----

/// A target without zeros is the shape. A zero copies the extent at its place, unless zeros are
/// allowed, and then it stays.
pub proof fn lemma_a_reshape_gives_its_target(c: CaseModel, i: int)
    requires
        c.op == OpKind::Reshape,
        c.inputs.len() == 2,
        c.inputs[1].data is I64,
        0 <= i < c.inputs[1].data->I64_0.len(),
    ensures
        output_dims(c).len() == c.inputs[1].data->I64_0.len(),
        c.inputs[1].data->I64_0[i] != 0 ==> output_dims(c)[i] == c.inputs[1].data->I64_0[i],
        c.inputs[1].data->I64_0[i] == 0 && lookup(c.attrs, "allowzero"@) == Some(AttrModel::Int(1))
            ==> output_dims(c)[i] == 0,
        c.inputs[1].data->I64_0[i] == 0 && lookup(c.attrs, "allowzero"@) is None && i
            < c.inputs[0].dims.len() ==> output_dims(c)[i] == c.inputs[0].dims[i],
{
}

// ---- slicing and padding ----

/// A slice from one position up to, not with, another leaves as many positions as lie between
/// them. An end past the axis means the end of the axis, and an end before the start leaves
/// nothing. An axis that is not sliced keeps its extent.
pub proof fn lemma_a_slice_keeps_what_lies_between(c: CaseModel, i: int)
    requires
        c.op == OpKind::Slice,
        c.inputs.len() >= 3,
        c.inputs[1].data is I64,
        c.inputs[2].data is I64,
        0 <= i < c.inputs[0].dims.len(),
    ensures
        output_dims(c).len() == c.inputs[0].dims.len(),
        ({
            let d = c.inputs[0].dims[i];
            let starts = c.inputs[1].data->I64_0;
            let ends = c.inputs[2].data->I64_0;
            if i < starts.len() && i < ends.len() {
                &&& 0 <= starts[i] <= ends[i] <= d ==> output_dims(c)[i] == ends[i] - starts[i]
                    && output_dims(c)[i] == vstd::set_lib::set_int_range(
                    starts[i] as int,
                    ends[i] as int,
                ).len()
                &&& 0 <= starts[i] <= d < ends[i] ==> output_dims(c)[i] == d - starts[i]
                &&& 0 <= ends[i] <= d && ends[i] < starts[i] ==> output_dims(c)[i] == 0
            } else {
                output_dims(c)[i] == d
            }
        }),
{
    let starts = c.inputs[1].data->I64_0;
    let ends = c.inputs[2].data->I64_0;
    if i < starts.len() && i < ends.len() && 0 <= starts[i] <= ends[i] {
        vstd::set_lib::lemma_int_range(starts[i] as int, ends[i] as int);
    }
}

/// Padding adds what is put before an axis and what is put behind it. The numbers for the front of
/// every axis come first.
pub proof fn lemma_padding_adds_to_both_ends(c: CaseModel, i: int)
    requires
        c.op == OpKind::Pad,
        c.inputs.len() >= 2,
        c.inputs[1].data is I64,
        c.inputs[1].data->I64_0.len() == 2 * c.inputs[0].dims.len(),
        0 <= i < c.inputs[0].dims.len(),
        i64::MIN <= c.inputs[0].dims[i] + c.inputs[1].data->I64_0[i]
            + c.inputs[1].data->I64_0[c.inputs[0].dims.len() + i] <= i64::MAX,
    ensures
        output_dims(c).len() == c.inputs[0].dims.len(),
        output_dims(c)[i] == c.inputs[0].dims[i] + c.inputs[1].data->I64_0[i]
            + c.inputs[1].data->I64_0[c.inputs[0].dims.len() + i],
{
}

/// A slice of what padding added, and of nothing else, gives the shape back.
pub proof fn lemma_slicing_undoes_padding(c: CaseModel, back: CaseModel, i: int)
    requires
        c.op == OpKind::Pad && back.op == OpKind::Slice,
        c.inputs.len() == 2 && back.inputs.len() == 3,
        c.inputs[1].data is I64,
        c.inputs[1].data->I64_0.len() == 2 * c.inputs[0].dims.len(),
        0 <= i < c.inputs[0].dims.len(),
        c.inputs[0].dims[i] >= 0,
        0 <= c.inputs[1].data->I64_0[i] <= 0x4000_0000,
        0 <= c.inputs[1].data->I64_0[c.inputs[0].dims.len() + i] <= 0x4000_0000,
        c.inputs[0].dims[i] <= 0x4000_0000,
        back.inputs[0].dims == output_dims(c),
        back.inputs[1].data is I64 && back.inputs[2].data is I64,
        back.inputs[1].data->I64_0.len() == c.inputs[0].dims.len(),
        back.inputs[2].data->I64_0.len() == c.inputs[0].dims.len(),
        back.inputs[1].data->I64_0[i] == c.inputs[1].data->I64_0[i],
        back.inputs[2].data->I64_0[i] == c.inputs[1].data->I64_0[i] + c.inputs[0].dims[i],
    ensures
        output_dims(back)[i] == c.inputs[0].dims[i],
{
    lemma_padding_adds_to_both_ends(c, i);
    lemma_a_slice_keeps_what_lies_between(back, i);
}

// ---- products of matrices ----

/// A matrix of `m` rows by one of `n` columns is one of `m` rows and `n` columns.
pub proof fn lemma_a_product_has_the_outer_extents(c: CaseModel, m: i64, k: i64, n: i64)
    requires
        c.op == OpKind::MatMulInteger,
        c.inputs.len() >= 2,
        c.inputs[0].dims == seq![m, k],
        c.inputs[1].dims == seq![k, n],
    ensures
        output_dims(c) == seq![m, n],
{
    assert(output_dims(c) =~= seq![m, n]);
}

// ---- squeezing ----

/// The positions of the axes that are not listed, in order.
pub open spec fn unlisted(rank: nat, axes: Seq<i64>) -> Seq<int> {
    Seq::new(rank, |i: int| i).filter(|i: int| !axes.contains(i as i64))
}

/// Whether a shape holds the extents of another at some positions, in order.
pub open spec fn picks(out: Seq<i64>, dims: Seq<i64>, kept: Seq<int>) -> bool {
    &&& out.len() == kept.len()
    &&& forall|j: int|
        0 <= j < kept.len() ==> 0 <= (#[trigger] kept[j]) < dims.len() && out[j] == dims[kept[j]]
}

proof fn lemma_unlisted_grows(rank: nat, axes: Seq<i64>)
    requires
        rank > 0,
    ensures
        unlisted(rank, axes) == if axes.contains((rank - 1) as i64) {
            unlisted((rank - 1) as nat, axes)
        } else {
            unlisted((rank - 1) as nat, axes).push(rank - 1)
        },
{
    let f = |i: int| !axes.contains(i as i64);
    let front = Seq::new((rank - 1) as nat, |i: int| i);
    assert(Seq::new(rank, |i: int| i) =~= front.push(rank - 1));
    front.lemma_filter_push(rank - 1, f);
}

proof fn lemma_without_axes(dims: Seq<i64>, axes: Seq<i64>)
    requires
        dims.len() <= i64::MAX,
    ensures
        picks(crate::ops::without_axes(dims, axes), dims, unlisted(dims.len(), axes)),
    decreases dims.len(),
{
    reveal(Seq::filter);
    if dims.len() > 0 {
        let front = dims.drop_last();
        lemma_without_axes(front, axes);
        lemma_unlisted_grows(dims.len(), axes);
        let last = (dims.len() - 1) as i64;
        assert((exists|k: int| 0 <= k < axes.len() && #[trigger] axes[k] == dims.len() - 1)
            == axes.contains(last));
        let all = crate::ops::without_axes(dims, axes);
        let rest = crate::ops::without_axes(front, axes);
        let kept = unlisted(dims.len(), axes);
        let old_kept = unlisted(front.len(), axes);
        assert forall|j: int| 0 <= j < kept.len() implies 0 <= (#[trigger] kept[j]) < dims.len()
            && all[j] == dims[kept[j]] by {
            if j < old_kept.len() {
                assert(kept[j] == old_kept[j]);
                assert(rest[j] == front[old_kept[j]]);
            }
        }
    } else {
        assert(unlisted(0, axes) =~= Seq::empty());
    }
}

/// Squeezing listed axes leaves the others, in their order.
pub proof fn lemma_a_squeeze_leaves_the_other_axes(c: CaseModel)
    requires
        c.op == OpKind::Squeeze,
        c.inputs.len() == 2,
        c.inputs[1].data is I64,
        c.inputs[0].dims.len() <= i64::MAX,
    ensures
        picks(
            output_dims(c),
            c.inputs[0].dims,
            unlisted(c.inputs[0].dims.len(), c.inputs[1].data->I64_0),
        ),
{
    lemma_without_axes(c.inputs[0].dims, c.inputs[1].data->I64_0);
}

proof fn lemma_ones_do_not_count(dims: Seq<i64>)
    ensures
        product(dims.filter(|d: i64| d != 1)) == product(dims),
    decreases dims.len(),
{
    reveal(Seq::filter);
    let f = |d: i64| d != 1;
    if dims.len() > 0 {
        let front = dims.drop_last();
        lemma_ones_do_not_count(front);
        assert(dims =~= front.push(dims.last()));
        front.lemma_filter_push(dims.last(), f);
        if dims.last() != 1 {
            assert(dims.filter(f).drop_last() =~= front.filter(f));
        } else {
            assert(product(front) * 1 == product(front)) by (nonlinear_arith);
        }
    } else {
        assert(dims.filter(f) =~= dims);
    }
}

/// A squeeze without axes leaves no extent of one, and no element is gained or lost.
pub proof fn lemma_a_bare_squeeze_leaves_no_ones(c: CaseModel)
    requires
        c.op == OpKind::Squeeze,
        c.inputs.len() == 1,
    ensures
        !output_dims(c).contains(1i64),
        product(output_dims(c)) == product(c.inputs[0].dims),
        output_dims(c) == c.inputs[0].dims.filter(|d: i64| d != 1),
{
    let dims = c.inputs[0].dims;
    let f = |d: i64| d != 1;
    assert(crate::ops::not_one() =~= f);
    lemma_ones_do_not_count(dims);
    assert forall|j: int| 0 <= j < dims.filter(f).len() implies dims.filter(f)[j] != 1 by {
        dims.lemma_filter_pred(f, j);
    }
}

// ---- unsqueezing ----

/// Unsqueezing one axis puts an extent of one in its place and moves the later ones back.
pub proof fn lemma_an_unsqueeze_inserts_a_one(c: CaseModel, axis: i64)
    requires
        c.op == OpKind::Unsqueeze,
        c.inputs.len() == 2,
        c.inputs[1].data == DataModel::I64(seq![axis]),
        0 <= axis <= c.inputs[0].dims.len(),
    ensures
        output_dims(c) == c.inputs[0].dims.insert(axis as int, 1i64),
{
    let axes = seq![axis];
    lemma_sorting_one(axis);
    assert(axes.drop_last() =~= Seq::empty());
    assert(crate::ops::with_ones(c.inputs[0].dims, axes.drop_last()) == c.inputs[0].dims);
}

proof fn lemma_sorting_one(axis: i64)
    ensures
        sort_integers(seq![axis]) == seq![axis],
{
    lemma_sorted_is_kept(seq![axis]);
}

/// A list in ascending order is sorted already.
proof fn lemma_sorted_is_kept(s: Seq<i64>)
    requires
        forall|i: int, j: int| 0 <= i < j < s.len() ==> #[trigger] s[i] < #[trigger] s[j],
    ensures
        sort_integers(s) == s,
{
    let leq = crate::order::integer_order();
    assert(vstd::relations::total_ordering(leq));
    s.lemma_sort_by_ensures(leq);
    assert(vstd::relations::sorted_by(s, leq));
    vstd::seq_lib::lemma_sorted_unique(sort_integers(s), s, leq);
}

/// Unsqueezing several axes is unsqueezing them one after another, in ascending order.
pub proof fn lemma_unsqueezes_compose(c: CaseModel, first: CaseModel, second: CaseModel)
    requires
        c.op == OpKind::Unsqueeze && first.op == OpKind::Unsqueeze && second.op
            == OpKind::Unsqueeze,
        c.inputs.len() == 2 && first.inputs.len() == 2 && second.inputs.len() == 2,
        c.inputs[1].data is I64,
        c.inputs[1].data->I64_0.len() > 0,
        forall|i: int, j: int|
            0 <= i < j < c.inputs[1].data->I64_0.len() ==> #[trigger] c.inputs[1].data->I64_0[i]
                < #[trigger] c.inputs[1].data->I64_0[j],
        first.inputs[0].dims == c.inputs[0].dims,
        first.inputs[1].data == DataModel::I64(c.inputs[1].data->I64_0.drop_last()),
        second.inputs[0].dims == output_dims(first),
        second.inputs[1].data == DataModel::I64(seq![c.inputs[1].data->I64_0.last()]),
    ensures
        output_dims(c) == output_dims(second),
        output_dims(c).len() == output_dims(first).len() + 1,
{
    let axes = c.inputs[1].data->I64_0;
    lemma_sorted_is_kept(axes);
    lemma_sorted_is_kept(axes.drop_last());
    lemma_sorting_one(axes.last());
    let one = seq![axes.last()];
    assert(one.drop_last() =~= Seq::empty());
    assert(crate::ops::with_ones(output_dims(first), one.drop_last()) == output_dims(first));
}

/// The order in which the axes are listed does not matter.
pub proof fn lemma_unsqueezed_axes_have_no_order(a: CaseModel, b: CaseModel)
    requires
        a.op == OpKind::Unsqueeze && b.op == OpKind::Unsqueeze,
        a.inputs.len() == 2 && b.inputs.len() == 2,
        a.inputs[0].dims == b.inputs[0].dims,
        a.inputs[1].data is I64 && b.inputs[1].data is I64,
        a.inputs[1].data->I64_0.to_multiset() == b.inputs[1].data->I64_0.to_multiset(),
    ensures
        output_dims(a) == output_dims(b),
{
    let x = a.inputs[1].data->I64_0;
    let y = b.inputs[1].data->I64_0;
    let leq = crate::order::integer_order();
    assert(vstd::relations::total_ordering(leq));
    x.lemma_sort_by_ensures(leq);
    y.lemma_sort_by_ensures(leq);
    vstd::seq_lib::lemma_sorted_unique(sort_integers(x), sort_integers(y), leq);
}

/// Squeezing the axis that was unsqueezed gives the shape back.
pub proof fn lemma_a_squeeze_undoes_an_unsqueeze(c: CaseModel, back: CaseModel, axis: i64)
    requires
        c.op == OpKind::Unsqueeze && back.op == OpKind::Squeeze,
        c.inputs.len() == 2 && back.inputs.len() == 2,
        c.inputs[1].data == DataModel::I64(seq![axis]),
        back.inputs[1].data == DataModel::I64(seq![axis]),
        0 <= axis <= c.inputs[0].dims.len() < i64::MAX,
        back.inputs[0].dims == output_dims(c),
    ensures
        output_dims(back) == c.inputs[0].dims,
{
    lemma_an_unsqueeze_inserts_a_one(c, axis);
    lemma_skipping(output_dims(c), axis);
    assert(output_dims(c).remove(axis as int) =~= c.inputs[0].dims);
}

proof fn lemma_skipping(dims: Seq<i64>, axis: i64)
    requires
        0 <= axis < dims.len() <= i64::MAX,
    ensures
        crate::ops::without_axes(dims, seq![axis]) == dims.remove(axis as int),
    decreases dims.len(),
{
    let axes = seq![axis];
    let front = dims.drop_last();
    assert(axes[0] == axis);
    if axis < front.len() {
        lemma_skipping(front, axis);
        assert(dims.remove(axis as int) =~= front.remove(axis as int).push(dims.last()));
    } else {
        lemma_nothing_skipped(front, axis);
        assert(dims.remove(axis as int) =~= front);
    }
}

proof fn lemma_nothing_skipped(dims: Seq<i64>, axis: i64)
    requires
        axis >= dims.len(),
    ensures
        crate::ops::without_axes(dims, seq![axis]) == dims,
    decreases dims.len(),
{
    if dims.len() > 0 {
        lemma_nothing_skipped(dims.drop_last(), axis);
        assert(dims.drop_last().push(dims.last()) =~= dims);
    }
}

} // verus!
