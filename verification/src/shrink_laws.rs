//! What the moves of the shrinker do, said of single elements and of where they stand.

use vstd::prelude::*;

use crate::attrs::{lookup, AttrModel};
use crate::case::{product, CaseModel, DataModel, ElemType, TensorModel};
use crate::shrink::{admissible, axis_steps, candidates_of, offered_upto, weighable};
use crate::shrink::{cut, filled, first_rank, highest_rank, is_trivial, lemma_product_splits};
use crate::shrink::{measure_of, moved, refitted, shortened, sliced, source_index, steps_of};
use crate::shrink::{magnitudes_upto, simpler, weights_upto, without_axis, zeroed, Measure, Step};
use crate::validation::{is_permutation, valid};

verus! {

// ---- positions ----

/// Where the element with the given index in every axis stands, the last axis running fastest.
pub open spec fn flat(dims: Seq<i64>, at: Seq<int>) -> int
    decreases dims.len(),
{
    if dims.len() == 0 {
        0
    } else {
        flat(dims.drop_last(), at.drop_last()) * dims.last() + at.last()
    }
}

/// Whether an index names an element of a shape.
pub open spec fn inside(dims: Seq<i64>, at: Seq<int>) -> bool {
    at.len() == dims.len() && forall|i: int| 0 <= i < at.len() ==> 0 <= #[trigger] at[i] < dims[i]
}

proof fn lemma_flat_bound(dims: Seq<i64>, at: Seq<int>)
    requires
        inside(dims, at),
    ensures
        0 <= flat(dims, at) < product(dims),
    decreases dims.len(),
{
    if dims.len() > 0 {
        let d = dims.drop_last();
        let x = at.drop_last();
        assert forall|i: int| 0 <= i < x.len() implies 0 <= #[trigger] x[i] < d[i] by {
            assert(0 <= at[i] < dims[i]);
        }
        lemma_flat_bound(d, x);
        let n = dims.last() as int;
        let k = at[at.len() - 1];
        assert(0 <= k < n);
        let f = flat(d, x);
        let p = product(d);
        assert(0 <= f * n + k < p * n) by (nonlinear_arith)
            requires
                0 <= f < p,
                0 <= k < n,
        ;
    }
}

proof fn lemma_flat_splits(a: Seq<i64>, b: Seq<i64>, x: Seq<int>, y: Seq<int>)
    requires
        a.len() == x.len(),
        b.len() == y.len(),
    ensures
        flat(a + b, x + y) == flat(a, x) * product(b) + flat(b, y),
    decreases b.len(),
{
    if b.len() == 0 {
        assert(a + b =~= a);
        assert(x + y =~= x);
        assert(flat(a, x) * 1 == flat(a, x)) by (nonlinear_arith);
    } else {
        let b0 = b.drop_last();
        let y0 = y.drop_last();
        lemma_flat_splits(a, b0, x, y0);
        assert((a + b).drop_last() =~= a + b0);
        assert((x + y).drop_last() =~= x + y0);
        let f = flat(a, x);
        let p = product(b0);
        let g = flat(b0, y0);
        let n = b.last() as int;
        assert((f * p + g) * n == f * (p * n) + g * n) by (nonlinear_arith);
    }
}

proof fn lemma_flat_of_one(n: i64, k: int)
    ensures
        flat(seq![n], seq![k]) == k,
        product(seq![n]) == n,
{
    crate::validation::lemma_product_one(n);
    assert(seq![n].drop_last() =~= Seq::empty());
    assert(flat(seq![n].drop_last(), seq![k].drop_last()) == 0);
}

/// The position of an element, by what lies before an axis, at it and behind it.
proof fn lemma_flat_at(dims: Seq<i64>, at: Seq<int>, axis: int)
    requires
        0 <= axis < dims.len(),
        at.len() == dims.len(),
    ensures
        flat(dims, at) == (flat(dims.take(axis), at.take(axis)) * dims[axis] + at[axis]) * product(
            dims.skip(axis + 1),
        ) + flat(dims.skip(axis + 1), at.skip(axis + 1)),
{
    let a = dims.take(axis);
    let m = seq![dims[axis]];
    let b = dims.skip(axis + 1);
    let x = at.take(axis);
    let j = seq![at[axis]];
    let y = at.skip(axis + 1);
    assert(dims =~= (a + m) + b);
    assert(at =~= (x + j) + y);
    lemma_flat_splits(a + m, b, x + j, y);
    lemma_flat_splits(a, m, x, j);
    lemma_flat_of_one(dims[axis], at[axis]);
}

proof fn lemma_source(o: int, j: int, i: int, extent: int, inner: int, start: int, len: int)
    requires
        0 <= o,
        0 <= j < len,
        0 <= i < inner,
    ensures
        source_index((o * len + j) * inner + i, extent, inner, start, len) == (o * extent + start
            + j) * inner + i,
{
    let t = (o * len + j) * inner + i;
    vstd::arithmetic::div_mod::lemma_fundamental_div_mod_converse(t, inner, o * len + j, i);
    vstd::arithmetic::div_mod::lemma_fundamental_div_mod_converse(o * len + j, len, o, j);
    let block = len * inner;
    assert(t == o * block + (j * inner + i)) by (nonlinear_arith)
        requires
            t == (o * len + j) * inner + i,
            block == len * inner,
    ;
    assert(0 <= j * inner + i < block) by (nonlinear_arith)
        requires
            0 <= j < len,
            0 <= i < inner,
            block == len * inner,
    ;
    vstd::arithmetic::div_mod::lemma_fundamental_div_mod_converse(t, block, o, j * inner + i);
    assert(o * extent + start + j == o * extent + j + start);
}

/// The element of a slice with an index along the axis is the element of the whole that stands
/// `start` further on.
proof fn lemma_sliced<T>(
    v: Seq<T>,
    zero: T,
    dims: Seq<i64>,
    axis: int,
    start: int,
    len: int,
    at: Seq<int>,
)
    requires
        0 <= axis < dims.len(),
        0 <= start,
        0 <= len <= i64::MAX,
        start + len <= dims[axis],
        v.len() == product(dims),
        inside(dims.update(axis, len as i64), at),
    ensures
        ({
            let s = sliced(
                v,
                zero,
                product(dims.take(axis)),
                dims[axis] as int,
                product(dims.skip(axis + 1)),
                start,
                len,
            );
            let new = dims.update(axis, len as i64);
            &&& s.len() == product(new)
            &&& 0 <= flat(new, at) < s.len()
            &&& s[flat(new, at)] == v[flat(dims, at.update(axis, start + at[axis]))]
        }),
{
    let new = dims.update(axis, len as i64);
    let from = at.update(axis, start + at[axis]);
    let a = dims.take(axis);
    let b = dims.skip(axis + 1);
    let x = at.take(axis);
    let y = at.skip(axis + 1);
    let outer = product(a);
    let inner = product(b);
    assert(new.take(axis) =~= a);
    assert(new.skip(axis + 1) =~= b);
    assert(from.take(axis) =~= x);
    assert(from.skip(axis + 1) =~= y);
    assert(0 <= at[axis] < new[axis]);
    assert forall|i: int| 0 <= i < from.len() implies 0 <= #[trigger] from[i] < dims[i] by {
        assert(0 <= at[i] < new[i]);
    }
    lemma_flat_at(new, at, axis);
    lemma_flat_at(dims, from, axis);
    lemma_flat_bound(new, at);
    lemma_flat_bound(dims, from);
    assert forall|i: int| 0 <= i < x.len() implies 0 <= #[trigger] x[i] < a[i] by {
        assert(0 <= at[i] < new[i]);
    }
    assert forall|i: int| 0 <= i < y.len() implies 0 <= #[trigger] y[i] < b[i] by {
        assert(0 <= at[axis + 1 + i] < new[axis + 1 + i]);
    }
    lemma_flat_bound(a, x);
    lemma_flat_bound(b, y);
    let o = flat(a, x);
    let i = flat(b, y);
    let j = at[axis];
    let extent = dims[axis] as int;
    lemma_source(o, j, i, extent, inner, start, len);
    assert(o * extent + start + j == o * extent + (start + j));
    assert(new =~= (a + seq![len as i64]) + b);
    lemma_product_splits(a + seq![len as i64], b);
    lemma_product_splits(a, seq![len as i64]);
    crate::validation::lemma_product_one(len as i64);
}

/// A cut keeps a stretch of an axis where it stood: the element at an index of the result is the
/// element of the tensor whose index along that axis is further on by where the stretch begins.
pub proof fn lemma_a_cut_keeps_a_stretch(
    t: TensorModel,
    axis: int,
    start: int,
    len: int,
    at: Seq<int>,
)
    requires
        0 <= axis < t.dims.len(),
        0 <= start,
        0 <= len <= i64::MAX,
        start + len <= t.dims[axis],
        t.data.len() == product(t.dims),
        inside(t.dims.update(axis, len as i64), at),
    ensures
        cut(t, axis, start, len).elem_type() == t.elem_type(),
        cut(t, axis, start, len).len() == product(t.dims.update(axis, len as i64)),
        cut(t, axis, start, len).bits(flat(t.dims.update(axis, len as i64), at)) == t.data.bits(
            flat(t.dims, at.update(axis, start + at[axis])),
        ),
{
    match t.data {
        DataModel::F32(v) => lemma_sliced(v, 0u32, t.dims, axis, start, len, at),
        DataModel::F64(v) => lemma_sliced(v, 0u64, t.dims, axis, start, len, at),
        DataModel::I32(v) => lemma_sliced(v, 0i32, t.dims, axis, start, len, at),
        DataModel::I64(v) => lemma_sliced(v, 0i64, t.dims, axis, start, len, at),
        DataModel::Bool(v) => lemma_sliced(v, false, t.dims, axis, start, len, at),
        DataModel::I8(v) => lemma_sliced(v, 0i8, t.dims, axis, start, len, at),
        DataModel::U8(v) => lemma_sliced(v, 0u8, t.dims, axis, start, len, at),
    }
}

// ---- moves on one tensor ----

/// Shortening an axis keeps half of it, or one position, from its front or from its back. What is
/// kept from the back are the last positions, in their order.
pub proof fn lemma_shortening_keeps_one_end(
    t: TensorModel,
    axis: int,
    back: bool,
    half: bool,
    at: Seq<int>,
)
    requires
        !t.initializer(),
        0 <= axis < t.dims.len(),
        t.dims[axis] >= 2,
        t.data.len() == product(t.dims),
        inside(shortened(t, axis, back, half).dims, at),
    ensures
        ({
            let s = shortened(t, axis, back, half);
            let kept = s.dims[axis];
            &&& s.name == t.name && s.role == t.role && s.elem_type() == t.elem_type()
            &&& s.dims.len() == t.dims.len()
            &&& forall|i: int|
                0 <= i < t.dims.len() && i != axis ==> #[trigger] s.dims[i] == t.dims[i]
            &&& if half {
                2 * kept <= t.dims[axis] < 2 * (kept + 1)
            } else {
                kept == 1
            }
            &&& s.data.len() == product(s.dims)
            &&& !back ==> s.data.bits(flat(s.dims, at)) == t.data.bits(flat(t.dims, at))
            &&& back ==> s.data.bits(flat(s.dims, at)) == t.data.bits(
                flat(t.dims, at.update(axis, t.dims[axis] - kept + at[axis])),
            )
        }),
{
    let s = shortened(t, axis, back, half);
    let kept: int = s.dims[axis] as int;
    let start: int = if back {
        t.dims[axis] - kept
    } else {
        0
    };
    assert(s.dims == t.dims.update(axis, kept as i64));
    lemma_a_cut_keeps_a_stretch(t, axis, start, kept, at);
    if !back {
        assert(at.update(axis, 0 + at[axis]) =~= at);
    }
}

/// A constant is not shortened, and neither is a tensor without the axis.
pub proof fn lemma_shortening_leaves_the_rest(t: TensorModel, axis: int, back: bool, half: bool)
    requires
        t.initializer() || axis >= t.dims.len(),
    ensures
        shortened(t, axis, back, half) == t,
{
}

/// Removing an axis keeps what stood at its front.
pub proof fn lemma_removing_an_axis_keeps_its_front(t: TensorModel, axis: int, at: Seq<int>)
    requires
        !t.initializer(),
        0 <= axis < t.dims.len(),
        t.dims.len() >= 2,
        t.dims[axis] >= 1,
        t.data.len() == product(t.dims),
        inside(t.dims.remove(axis), at),
    ensures
        ({
            let s = without_axis(t, axis);
            &&& s.name == t.name && s.role == t.role && s.elem_type() == t.elem_type()
            &&& s.dims == t.dims.remove(axis)
            &&& s.data.len() == product(s.dims)
            &&& s.data.bits(flat(s.dims, at)) == t.data.bits(flat(t.dims, at.insert(axis, 0)))
        }),
{
    let s = without_axis(t, axis);
    let thin = t.dims.update(axis, 1i64);
    let full = at.insert(axis, 0);
    assert forall|i: int| 0 <= i < full.len() implies 0 <= #[trigger] full[i] < thin[i] by {
        if i < axis {
            assert(0 <= at[i] < t.dims.remove(axis)[i]);
        } else if i > axis {
            assert(0 <= at[i - 1] < t.dims.remove(axis)[i - 1]);
        }
    }
    lemma_a_cut_keeps_a_stretch(t, axis, 0, 1, full);
    assert(full.update(axis, 0 + full[axis]) =~= full);
    let a = t.dims.take(axis);
    let b = t.dims.skip(axis + 1);
    assert(t.dims.remove(axis) =~= a + b);
    assert(thin =~= (a + seq![1i64]) + b);
    lemma_product_splits(a, b);
    lemma_product_splits(a + seq![1i64], b);
    lemma_product_splits(a, seq![1i64]);
    crate::validation::lemma_product_one(1i64);
    assert(product(a) * 1 == product(a)) by (nonlinear_arith);
    let x = at.take(axis);
    let y = at.skip(axis);
    assert(at =~= x + y);
    assert(thin.take(axis) =~= a && thin.skip(axis + 1) =~= b);
    assert(full.take(axis) =~= x && full.skip(axis + 1) =~= y);
    lemma_flat_splits(a, b, x, y);
    lemma_flat_at(thin, full, axis);
    assert(flat(a, x) * 1 + 0 == flat(a, x)) by (nonlinear_arith);
}

/// The pattern of the number one in a type.
pub open spec fn one_pattern(t: ElemType) -> u64 {
    if t == ElemType::F32 {
        0x3f80_0000
    } else if t == ElemType::F64 {
        0x3ff0_0000_0000_0000
    } else {
        1
    }
}

/// Filling keeps the type and the number of elements, and makes every element zero, or one. Truth
/// values all become false.
pub proof fn lemma_filling_makes_all_alike(d: DataModel, one: bool, k: int)
    requires
        0 <= k < d.len(),
    ensures
        filled(d, one).elem_type() == d.elem_type(),
        filled(d, one).len() == d.len(),
        !one || d is Bool ==> filled(d, one).bits(k) == 0,
        one && !(d is Bool) ==> filled(d, one).bits(k) == one_pattern(d.elem_type()),
{
}

/// Zeroing an element changes that element alone.
pub proof fn lemma_zeroing_changes_one_element(d: DataModel, k: int, j: int)
    requires
        0 <= k < d.len(),
        0 <= j < d.len(),
    ensures
        zeroed(d, k).elem_type() == d.elem_type(),
        zeroed(d, k).len() == d.len(),
        zeroed(d, k).bits(j) == if j == k {
            0
        } else {
            d.bits(j)
        },
{
}

// ---- moves on a case ----

/// No move changes the operator, and only two of them change anything but the inputs: a lower
/// version is the version alone, and without an axis a permutation is made anew.
pub proof fn lemma_moves_change_what_they_name(c: CaseModel, step: Step)
    requires
        step matches Step::ZeroElement { input, position } ==> input < c.inputs.len(),
    ensures
        moved(c, step).op == c.op,
        !(step is LowerOpset) ==> moved(c, step).opset == c.opset,
        !(step is DropAxis) ==> moved(c, step).attrs == c.attrs,
        step is LowerOpset ==> moved(c, step).inputs == c.inputs && moved(c, step).opset
            == c.op.since(),
        step is DropInput && c.inputs.len() > 0 ==> moved(c, step).inputs.len() == c.inputs.len()
            - 1 && forall|i: int|
            0 <= i < c.inputs.len() - 1 ==> #[trigger] moved(c, step).inputs[i] == c.inputs[i],
        !(step is DropInput) ==> moved(c, step).inputs.len() == c.inputs.len(),
{
}

/// Filling touches the data of every input that is fed, and neither its shape nor its name.
pub proof fn lemma_a_fill_touches_data_alone(c: CaseModel, one: bool, i: int)
    requires
        0 <= i < c.inputs.len(),
    ensures
        ({
            let t = moved(c, Step::Fill { one }).inputs[i];
            &&& t.name == c.inputs[i].name && t.dims == c.inputs[i].dims && t.role
                == c.inputs[i].role
            &&& c.inputs[i].initializer() ==> t == c.inputs[i]
            &&& !c.inputs[i].initializer() ==> t.data == filled(c.inputs[i].data, one)
        }),
{
}

/// Zeroing an element touches the input that it names alone.
pub proof fn lemma_a_zero_touches_one_input(c: CaseModel, input: usize, position: usize, i: int)
    requires
        0 <= i < c.inputs.len(),
        input < c.inputs.len(),
    ensures
        ({
            let t = moved(c, Step::ZeroElement { input, position }).inputs[i];
            &&& i != input ==> t == c.inputs[i]
            &&& i == input ==> t.name == c.inputs[i].name && t.dims == c.inputs[i].dims && t.role
                == c.inputs[i].role && t.data == zeroed(c.inputs[i].data, position as int)
        }),
{
}

/// Where an axis is removed, a permutation becomes one of the new rank, and every other attribute
/// stays as it is.
pub proof fn lemma_a_permutation_is_refitted(
    attrs: Seq<(Seq<char>, AttrModel)>,
    rank: nat,
    i: int,
)
    requires
        rank <= i64::MAX,
        0 <= i < attrs.len(),
    ensures
        refitted(attrs, rank).len() == attrs.len(),
        refitted(attrs, rank)[i].0 == attrs[i].0,
        attrs[i].0 != "perm"@ ==> refitted(attrs, rank)[i] == attrs[i],
        attrs[i].0 == "perm"@ && lookup(attrs, "perm"@) is Some && lookup(attrs, "perm"@)->0 is Ints
            ==> refitted(attrs, rank)[i].1 is Ints && is_permutation(
            refitted(attrs, rank)[i].1->Ints_0,
            rank,
        ) && forall|k: int|
            0 <= k < rank ==> #[trigger] refitted(attrs, rank)[i].1->Ints_0[k] == rank - 1 - k,
{
}

/// The rank that a permutation is refitted to is that of the first input that is fed.
pub proof fn lemma_the_first_fed_rank(inputs: Seq<TensorModel>, i: int)
    requires
        0 <= i < inputs.len(),
        !inputs[i].initializer(),
        forall|j: int| 0 <= j < i ==> (#[trigger] inputs[j]).initializer(),
    ensures
        first_rank(inputs) == inputs[i].dims.len(),
    decreases i,
{
    if i > 0 {
        assert(inputs[0].initializer());
        let rest = inputs.skip(1);
        assert forall|j: int| 0 <= j < i - 1 implies (#[trigger] rest[j]).initializer() by {
            assert(inputs[j + 1].initializer());
        }
        lemma_the_first_fed_rank(rest, i - 1);
    }
}

// ---- how complex a case is ----

/// A value counts as simple where its pattern is that of zero or of one; of truth values only false
/// does. Minus zero has a pattern of its own and is not simple.
pub proof fn lemma_simple_values_are_zero_and_one(d: DataModel, k: int)
    requires
        0 <= k < d.len(),
    ensures
        is_trivial(d, k) <==> d.bits(k) == 0 || (!(d is Bool) && d.bits(k) == one_pattern(
            d.elem_type(),
        )),
{
}

proof fn lemma_sums_of_front(inputs: Seq<TensorModel>, next: TensorModel, n: nat)
    requires
        n <= inputs.len(),
    ensures
        crate::shrink::elements_upto(inputs.push(next), n) == crate::shrink::elements_upto(inputs, n),
        crate::shrink::ranks_upto(inputs.push(next), n) == crate::shrink::ranks_upto(inputs, n),
        crate::shrink::values_upto(inputs.push(next), n) == crate::shrink::values_upto(inputs, n),
    decreases n,
{
    if n > 0 {
        lemma_sums_of_front(inputs, next, (n - 1) as nat);
        assert(inputs.push(next)[n - 1] == inputs[n - 1]);
    }
}

/// How many elements of a tensor are not simple.
pub open spec fn awkward(d: DataModel) -> nat {
    Seq::new(d.len(), |k: int| k).filter(|k: int| !is_trivial(d, k)).len()
}

proof fn lemma_awkward(d: DataModel, n: nat)
    ensures
        crate::shrink::nontrivial_upto(d, n) == Seq::new(n, |k: int| k).filter(
            |k: int| !is_trivial(d, k),
        ).len(),
    decreases n,
{
    reveal(Seq::filter);
    let f = |k: int| !is_trivial(d, k);
    if n > 0 {
        lemma_awkward(d, (n - 1) as nat);
        let front = Seq::new((n - 1) as nat, |k: int| k);
        assert(Seq::new(n, |k: int| k) =~= front.push(n - 1));
        front.lemma_filter_push(n - 1, f);
    }
}

/// Every input adds its elements, its rank, itself and its awkward values to how complex a case is.
/// A case without inputs has none of these.
pub proof fn lemma_every_input_weighs(c: CaseModel, next: TensorModel)
    ensures
        ({
            let a = measure_of(c);
            let b = measure_of(CaseModel { inputs: c.inputs.push(next), ..c });
            &&& b.elements == a.elements + next.data.len()
            &&& b.rank_sum == a.rank_sum + next.dims.len()
            &&& b.inputs == a.inputs + 1
            &&& b.nontrivial_values == a.nontrivial_values + awkward(next.data)
            &&& b.attribute_weight == a.attribute_weight
            &&& b.opset == a.opset == c.opset
        }),
        c.inputs.len() == 0 ==> measure_of(c).elements == 0 && measure_of(c).rank_sum == 0
            && measure_of(c).inputs == 0 && measure_of(c).nontrivial_values == 0,
{
    lemma_sums_of_front(c.inputs, next, c.inputs.len());
    lemma_awkward(next.data, next.data.len());
}

/// Every integer of an attribute adds its magnitude to how complex a case is, and nothing else
/// that an attribute holds does.
pub proof fn lemma_every_attribute_weighs(
    c: CaseModel,
    name: Seq<char>,
    v: Seq<i64>,
    next: i64,
    bits: u32,
    text: Seq<char>,
)
    ensures
        ({
            let with = |a: AttrModel|
                measure_of(CaseModel { attrs: c.attrs.push((name, a)), ..c }).attribute_weight;
            let size = if next < 0 {
                -next
            } else {
                next as int
            };
            let before = measure_of(c).attribute_weight;
            &&& with(AttrModel::Int(next)) == before + size
            &&& with(AttrModel::Ints(Seq::empty())) == before
            &&& with(AttrModel::Ints(v.push(next))) == with(AttrModel::Ints(v)) + size
            &&& with(AttrModel::Float(bits)) == before
            &&& with(AttrModel::Text(text)) == before
        }),
        c.attrs.len() == 0 ==> measure_of(c).attribute_weight == 0,
{
    lemma_weights_of_front(c.attrs, (name, AttrModel::Int(next)), c.attrs.len());
    lemma_weights_of_front(c.attrs, (name, AttrModel::Ints(Seq::empty())), c.attrs.len());
    lemma_weights_of_front(c.attrs, (name, AttrModel::Ints(v.push(next))), c.attrs.len());
    lemma_weights_of_front(c.attrs, (name, AttrModel::Ints(v)), c.attrs.len());
    lemma_weights_of_front(c.attrs, (name, AttrModel::Float(bits)), c.attrs.len());
    lemma_weights_of_front(c.attrs, (name, AttrModel::Text(text)), c.attrs.len());
    lemma_magnitudes_of_front(v, next, v.len());
}

proof fn lemma_weights_of_front(
    attrs: Seq<(Seq<char>, AttrModel)>,
    next: (Seq<char>, AttrModel),
    n: nat,
)
    requires
        n <= attrs.len(),
    ensures
        weights_upto(attrs.push(next), n) == weights_upto(attrs, n),
    decreases n,
{
    if n > 0 {
        lemma_weights_of_front(attrs, next, (n - 1) as nat);
    }
}

proof fn lemma_magnitudes_of_front(v: Seq<i64>, next: i64, n: nat)
    requires
        n <= v.len(),
    ensures
        magnitudes_upto(v.push(next), n) == magnitudes_upto(v, n),
    decreases n,
{
    if n > 0 {
        lemma_magnitudes_of_front(v, next, (n - 1) as nat);
    }
}

/// The parts of a measure, in the order in which they count: elements, ranks, inputs, awkward
/// values, attributes, version.
pub open spec fn part(m: Measure, k: int) -> int {
    if k == 0 {
        m.elements
    } else if k == 1 {
        m.rank_sum
    } else if k == 2 {
        m.inputs
    } else if k == 3 {
        m.nontrivial_values
    } else if k == 4 {
        m.attribute_weight
    } else {
        m.opset
    }
}

/// One case is simpler than another where it has less of the first part in which they differ.
pub proof fn lemma_measures_are_weighed_in_order(a: Measure, b: Measure)
    ensures
        simpler(a, b) <==> exists|k: int|
            0 <= k < 6 && #[trigger] part(a, k) < part(b, k) && forall|j: int|
                0 <= j < k ==> #[trigger] part(a, j) == part(b, j),
{
    if simpler(a, b) {
        let k: int = if part(a, 0) != part(b, 0) {
            0
        } else if part(a, 1) != part(b, 1) {
            1
        } else if part(a, 2) != part(b, 2) {
            2
        } else if part(a, 3) != part(b, 3) {
            3
        } else if part(a, 4) != part(b, 4) {
            4
        } else {
            5
        };
        assert(part(a, k) < part(b, k));
    }
    if exists|k: int|
        0 <= k < 6 && #[trigger] part(a, k) < part(b, k) && forall|j: int|
            0 <= j < k ==> #[trigger] part(a, j) == part(b, j) {
        let k = choose|k: int|
            0 <= k < 6 && #[trigger] part(a, k) < part(b, k) && forall|j: int|
                0 <= j < k ==> #[trigger] part(a, j) == part(b, j);
        assert(part(a, 0) == part(b, 0) || k == 0);
        assert(part(a, 1) == part(b, 1) || k <= 1);
        assert(part(a, 2) == part(b, 2) || k <= 2);
        assert(part(a, 3) == part(b, 3) || k <= 3);
        assert(part(a, 4) == part(b, 4) || k <= 4);
    }
}

// ---- which moves are tried ----

/// The moves along the axes are those of every axis up to the highest rank of a fed input: half and
/// one position, from both ends, and without the axis.
proof fn lemma_axis_steps_list(n: nat, step: Step)
    requires
        n <= usize::MAX,
    ensures
        crate::shrink::axis_steps(n).contains(step) <==> match step {
            Step::Shorten { axis, back, half } => axis < n,
            Step::DropAxis { axis } => axis < n,
            _ => false,
        },
    decreases n,
{
    if n > 0 {
        let axis = (n - 1) as usize;
        let rest = crate::shrink::axis_steps((n - 1) as nat);
        let here = seq![
            Step::Shorten { axis, back: false, half: true },
            Step::Shorten { axis, back: false, half: false },
            Step::Shorten { axis, back: true, half: true },
            Step::Shorten { axis, back: true, half: false },
            Step::DropAxis { axis },
        ];
        lemma_axis_steps_list((n - 1) as nat, step);
        let all = crate::shrink::axis_steps(n);
        assert(all == rest + here);
        lemma_contains_joined(rest, here, step);
        assert(here.contains(step) <==> match step {
            Step::Shorten { axis: a, back, half } => a == axis,
            Step::DropAxis { axis: a } => a == axis,
            _ => false,
        }) by {
            assert(here.contains(here[0]) && here.contains(here[1]) && here.contains(here[2]));
            assert(here.contains(here[3]) && here.contains(here[4]));
        }
    }
}

proof fn lemma_contains_joined(a: Seq<Step>, b: Seq<Step>, step: Step)
    ensures
        (a + b).contains(step) <==> a.contains(step) || b.contains(step),
{
    if a.contains(step) {
        let i = choose|i: int| 0 <= i < a.len() && a[i] == step;
        assert((a + b)[i] == step);
    }
    if b.contains(step) {
        let i = choose|i: int| 0 <= i < b.len() && b[i] == step;
        assert((a + b)[a.len() + i] == step);
    }
}

proof fn lemma_element_steps_list(inputs: Seq<TensorModel>, n: nat, step: Step)
    requires
        n <= inputs.len() <= usize::MAX,
    ensures
        crate::shrink::element_steps(inputs, n).contains(step) <==> match step {
            Step::ZeroElement { input, position } => input < n && !inputs[input as int].initializer()
                && position < 8 && position < inputs[input as int].data.len(),
            _ => false,
        },
    decreases n,
{
    if n > 0 {
        let rest = crate::shrink::element_steps(inputs, (n - 1) as nat);
        lemma_element_steps_list(inputs, (n - 1) as nat, step);
        if !inputs[n - 1].initializer() {
            let count: nat = if inputs[n - 1].data.len() < 8 {
                inputs[n - 1].data.len()
            } else {
                8
            };
            let here = Seq::new(
                count,
                |p: int| Step::ZeroElement { input: (n - 1) as usize, position: p as usize },
            );
            lemma_contains_joined(rest, here, step);
            match step {
                Step::ZeroElement { input, position } => {
                    if input == n - 1 && position < count {
                        assert(here[position as int] == step);
                    }
                },
                _ => {},
            }
        }
    }
}

/// The moves that are tried: filling with zeros and with ones; along every axis, half of it and one
/// position, from both ends, and without it; one input less where there are more than two; each of
/// the first eight elements of every input that is fed; and a lower version where there is one.
pub proof fn lemma_the_moves_that_are_tried(c: CaseModel, step: Step)
    requires
        c.inputs.len() <= usize::MAX,
        highest_rank(c.inputs, c.inputs.len()) <= usize::MAX,
    ensures
        steps_of(c).contains(step) <==> match step {
            Step::Fill { one } => true,
            Step::Shorten { axis, back, half } => axis < highest_rank(c.inputs, c.inputs.len()),
            Step::DropAxis { axis } => axis < highest_rank(c.inputs, c.inputs.len()),
            Step::DropInput => c.inputs.len() >= 3,
            Step::ZeroElement { input, position } => input < c.inputs.len()
                && !c.inputs[input as int].initializer() && position < 8 && position
                < c.inputs[input as int].data.len(),
            Step::LowerOpset => c.opset > c.op.since(),
        },
{
    let fills = seq![Step::Fill { one: false }, Step::Fill { one: true }];
    let axes = crate::shrink::axis_steps(highest_rank(c.inputs, c.inputs.len()));
    let elements = crate::shrink::element_steps(c.inputs, c.inputs.len());
    let drops: Seq<Step> = if c.inputs.len() > 2 {
        seq![Step::DropInput]
    } else {
        Seq::empty()
    };
    let lowers: Seq<Step> = if c.opset > c.op.since() {
        seq![Step::LowerOpset]
    } else {
        Seq::empty()
    };
    assert(steps_of(c) =~= fills + axes + drops + elements + lowers);
    lemma_axis_steps_list(highest_rank(c.inputs, c.inputs.len()), step);
    lemma_element_steps_list(c.inputs, c.inputs.len(), step);
    lemma_contains_joined(fills + axes + drops + elements, lowers, step);
    lemma_contains_joined(fills + axes + drops, elements, step);
    lemma_contains_joined(fills + axes, drops, step);
    lemma_contains_joined(fills, axes, step);
    assert(fills.contains(fills[0]) && fills.contains(fills[1]));
    if c.inputs.len() > 2 {
        assert(drops.contains(drops[0]));
    }
    if c.opset > c.op.since() {
        assert(lowers.contains(lowers[0]));
    }
}

/// The highest rank is that of some fed input, and no fed input has a higher one.
pub proof fn lemma_the_highest_rank(inputs: Seq<TensorModel>, n: nat, i: int)
    requires
        n <= inputs.len(),
    ensures
        0 <= i < n && !inputs[i].initializer() ==> inputs[i].dims.len() <= highest_rank(inputs, n),
        highest_rank(inputs, n) > 0 ==> exists|k: int|
            0 <= k < n && !(#[trigger] inputs[k]).initializer() && inputs[k].dims.len()
                == highest_rank(inputs, n),
    decreases n,
{
    if n > 0 {
        lemma_the_highest_rank(inputs, (n - 1) as nat, i);
        let rest = highest_rank(inputs, (n - 1) as nat);
        if inputs[n - 1].initializer() || inputs[n - 1].dims.len() <= rest {
            if rest > 0 {
                let k = choose|k: int|
                    0 <= k < n - 1 && !(#[trigger] inputs[k]).initializer() && inputs[k].dims.len()
                        == rest;
                assert(!inputs[k].initializer());
            }
        } else {
            assert(!inputs[n - 1].initializer());
        }
    }
}

proof fn lemma_axis_steps_places(n: nat, axis: int)
    requires
        0 <= axis < n,
    ensures
        axis_steps(n).len() == 5 * n,
        axis_steps(n)[5 * axis] == (Step::Shorten {
            axis: axis as usize,
            back: false,
            half: true,
        }),
        axis_steps(n)[5 * axis + 1] == (Step::Shorten {
            axis: axis as usize,
            back: false,
            half: false,
        }),
        axis_steps(n)[5 * axis + 2] == (Step::Shorten {
            axis: axis as usize,
            back: true,
            half: true,
        }),
        axis_steps(n)[5 * axis + 3] == (Step::Shorten {
            axis: axis as usize,
            back: true,
            half: false,
        }),
        axis_steps(n)[5 * axis + 4] == (Step::DropAxis { axis: axis as usize }),
    decreases n,
{
    if axis < n - 1 {
        lemma_axis_steps_places((n - 1) as nat, axis);
    } else if n > 1 {
        lemma_axis_steps_places((n - 1) as nat, 0);
    } else {
        assert(axis_steps(0).len() == 0);
    }
}

/// The boldest moves come first: everything zero, everything one, and then axis by axis half of it,
/// one position, the same from the back, and without it. A lower version is tried last.
pub proof fn lemma_the_boldest_moves_come_first(c: CaseModel, axis: int)
    requires
        0 <= axis < highest_rank(c.inputs, c.inputs.len()),
    ensures
        ({
            let s = steps_of(c);
            let at = 2 + 5 * axis;
            &&& s[0] == Step::Fill { one: false }
            &&& s[1] == Step::Fill { one: true }
            &&& s[at] == (Step::Shorten { axis: axis as usize, back: false, half: true })
            &&& s[at + 1] == (Step::Shorten { axis: axis as usize, back: false, half: false })
            &&& s[at + 2] == (Step::Shorten { axis: axis as usize, back: true, half: true })
            &&& s[at + 3] == (Step::Shorten { axis: axis as usize, back: true, half: false })
            &&& s[at + 4] == (Step::DropAxis { axis: axis as usize })
            &&& c.opset > c.op.since() ==> s.last() == Step::LowerOpset
        }),
{
    lemma_axis_steps_places(highest_rank(c.inputs, c.inputs.len()), axis);
    let fills = seq![Step::Fill { one: false }, Step::Fill { one: true }];
    let axes = axis_steps(highest_rank(c.inputs, c.inputs.len()));
    let start = fills + axes;
    let s = steps_of(c);
    assert forall|k: int| 0 <= k < start.len() implies #[trigger] s[k] == start[k] by {}
    assert(start[2 + 5 * axis] == axes[5 * axis]);
    assert(start[3 + 5 * axis] == axes[5 * axis + 1]);
    assert(start[4 + 5 * axis] == axes[5 * axis + 2]);
    assert(start[5 + 5 * axis] == axes[5 * axis + 3]);
    assert(start[6 + 5 * axis] == axes[5 * axis + 4]);
}

/// A move along an axis is made on every input, from the end and by the amount that it names, and
/// without an axis a permutation is refitted to the rank that is left.
pub proof fn lemma_axis_moves_are_made_on_every_input(
    c: CaseModel,
    axis: usize,
    back: bool,
    half: bool,
    i: int,
)
    requires
        0 <= i < c.inputs.len(),
    ensures
        moved(c, Step::Shorten { axis, back, half }).inputs[i] == shortened(
            c.inputs[i],
            axis as int,
            back,
            half,
        ),
        moved(c, Step::DropAxis { axis }).inputs[i] == without_axis(c.inputs[i], axis as int),
        moved(c, Step::DropAxis { axis }).attrs == refitted(
            c.attrs,
            first_rank(moved(c, Step::DropAxis { axis }).inputs),
        ),
{
}

// ---- what is offered ----

proof fn lemma_offered(c: CaseModel, n: nat, x: CaseModel)
    requires
        n <= steps_of(c).len(),
    ensures
        offered_upto(c, n).contains(x) <==> exists|k: int|
            0 <= k < n && moved(c, #[trigger] steps_of(c)[k]) == x && admissible(x, c),
    decreases n,
{
    if n > 0 {
        lemma_offered(c, (n - 1) as nat, x);
        let rest = offered_upto(c, (n - 1) as nat);
        let all = offered_upto(c, n);
        let next = moved(c, steps_of(c)[n - 1]);
        if rest.contains(x) {
            let i = choose|i: int| 0 <= i < rest.len() && rest[i] == x;
            assert(all[i] == x);
            let k = choose|k: int|
                0 <= k < n - 1 && moved(c, #[trigger] steps_of(c)[k]) == x && admissible(x, c);
            assert(moved(c, steps_of(c)[k]) == x);
        }
        if next == x && admissible(x, c) {
            if !rest.contains(x) {
                assert(all[rest.len() as int] == x);
            }
            assert(moved(c, steps_of(c)[n - 1]) == x);
        }
        if all.contains(x) {
            let i = choose|i: int| 0 <= i < all.len() && all[i] == x;
            if i < rest.len() {
                assert(rest[i] == x);
            }
        }
    }
}

/// What is offered as a reduction of a case is what one of the moves makes of it, where that can be
/// weighed, is simpler in the first part in which they differ, and is legal. All of it is offered,
/// or the first forty-eight.
pub proof fn lemma_every_admissible_move_is_offered(c: CaseModel, x: CaseModel)
    ensures
        offered_upto(c, steps_of(c).len()).contains(x) <==> {
            &&& exists|step: Step| #[trigger] steps_of(c).contains(step) && moved(c, step) == x
            &&& weighable(x)
            &&& valid(x)
            &&& exists|k: int|
                0 <= k < 6 && #[trigger] part(measure_of(x), k) < part(measure_of(c), k) && forall|
                    j: int,
                |
                    0 <= j < k ==> #[trigger] part(measure_of(x), j) == part(measure_of(c), j)
        },
        offered_upto(c, steps_of(c).len()).len() <= 48 ==> candidates_of(c) == offered_upto(
            c,
            steps_of(c).len(),
        ),
        offered_upto(c, steps_of(c).len()).len() > 48 ==> candidates_of(c) == offered_upto(
            c,
            steps_of(c).len(),
        ).take(48),
{
    let s = steps_of(c);
    lemma_offered(c, s.len(), x);
    lemma_measures_are_weighed_in_order(measure_of(x), measure_of(c));
    if exists|k: int| 0 <= k < s.len() && moved(c, #[trigger] s[k]) == x {
        let k = choose|k: int| 0 <= k < s.len() && moved(c, #[trigger] s[k]) == x;
        assert(s.contains(s[k]));
    }
    if exists|step: Step| #[trigger] s.contains(step) && moved(c, step) == x {
        let step = choose|step: Step| #[trigger] s.contains(step) && moved(c, step) == x;
        let k = choose|k: int| 0 <= k < s.len() && s[k] == step;
        assert(moved(c, s[k]) == x);
    }
}

} // verus!
