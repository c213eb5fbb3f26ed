//! What the features of a case say, in terms of the bits of its numbers, its extents and its
//! types.

use vstd::prelude::*;

use crate::attrs::AttrModel;
use crate::case::{count_of, product, CaseModel, DataModel, InputRole, OpKind};
use crate::features::{axis_at_bound, data_has_boundary, data_has_inf, data_has_nan};
use crate::features::{data_has_negative_zero, data_has_subnormal, feature_word, has_bit, holds};
use crate::features::{lemma_no_bit, lemma_set_bit, word_upto};
use crate::ops::{data_rank_of, first_fed, output_dims};

verus! {

// ---- bits ----

proof fn lemma_word_upto(c: CaseModel, n: nat, k: u64)
    requires
        n <= 55,
        k < 64,
    ensures
        has_bit(word_upto(c, n), k) == (k < n && holds(c, k as int)),
    decreases n,
{
    if n == 0 {
        lemma_no_bit(k);
    } else {
        lemma_word_upto(c, (n - 1) as nat, k);
        lemma_set_bit(word_upto(c, (n - 1) as nat), (n - 1) as u64, k);
    }
}

/// A bit of the word of a case is set exactly where its feature holds.
pub proof fn lemma_a_bit_is_a_feature(c: CaseModel, k: u64)
    requires
        k < 64,
    ensures
        has_bit(feature_word(c), k) == (k < 55 && holds(c, k as int)),
{
    lemma_word_upto(c, 55, k);
}

// ---- what is in the numbers ----

/// The exponent field of a floating point pattern, its fraction, and whether it is negative.
pub open spec fn fields(d: DataModel, e: int) -> (int, int, bool) {
    match d {
        DataModel::F32(v) => (
            (v[e] as int / 0x80_0000) % 0x100,
            v[e] as int % 0x80_0000,
            v[e] as int / 0x8000_0000 == 1,
        ),
        DataModel::F64(v) => (
            (v[e] as int / 0x10_0000_0000_0000) % 0x800,
            v[e] as int % 0x10_0000_0000_0000,
            v[e] as int / 0x8000_0000_0000_0000 == 1,
        ),
        _ => (0, 0, false),
    }
}

/// The exponent field of ones, and the largest fraction.
pub open spec fn ends_of(d: DataModel) -> (int, int) {
    if d is F32 {
        (0xff, 0x7f_ffff)
    } else {
        (0x7ff, 0xf_ffff_ffff_ffff)
    }
}

/// How many elements a floating point tensor holds, and zero for any other.
pub open spec fn fractions_in(d: DataModel) -> int {
    match d {
        DataModel::F32(v) => v.len() as int,
        DataModel::F64(v) => v.len() as int,
        _ => 0,
    }
}

/// Whether an element is not a number.
pub open spec fn undefined_at(d: DataModel, e: int) -> bool {
    fields(d, e).0 == ends_of(d).0 && fields(d, e).1 != 0
}

/// Whether an element is infinite.
pub open spec fn infinite_at(d: DataModel, e: int) -> bool {
    fields(d, e).0 == ends_of(d).0 && fields(d, e).1 == 0
}

/// Whether an element is the zero with a sign.
pub open spec fn signed_zero_at(d: DataModel, e: int) -> bool {
    fields(d, e).0 == 0 && fields(d, e).1 == 0 && fields(d, e).2
}

/// Whether an element has no exponent and is not zero.
pub open spec fn tiny_at(d: DataModel, e: int) -> bool {
    fields(d, e).0 == 0 && fields(d, e).1 != 0
}

/// Whether an element is as far from zero as a number can be.
pub open spec fn huge_at(d: DataModel, e: int) -> bool {
    fields(d, e).0 == ends_of(d).0 - 1 && fields(d, e).1 == ends_of(d).1
}

proof fn lemma_fields_single(b: u32)
    ensures
        crate::bits::f32_is_nan(b) == ((b as int / 0x80_0000) % 0x100 == 0xff && b as int % 0x80_0000
            != 0),
        crate::bits::f32_is_infinite(b) == ((b as int / 0x80_0000) % 0x100 == 0xff && b as int
            % 0x80_0000 == 0),
        (b == 0x8000_0000u32) == ((b as int / 0x80_0000) % 0x100 == 0 && b as int % 0x80_0000 == 0
            && b as int / 0x8000_0000 == 1),
        crate::bits::f32_is_subnormal(b) == ((b as int / 0x80_0000) % 0x100 == 0 && b as int
            % 0x80_0000 != 0),
        crate::bits::f32_is_extreme(b) == ((b as int / 0x80_0000) % 0x100 == 0xfe && b as int
            % 0x80_0000 == 0x7f_ffff),
{
}

proof fn lemma_fields_double(b: u64)
    ensures
        crate::bits::f64_is_nan(b) == ((b as int / 0x10_0000_0000_0000) % 0x800 == 0x7ff && b as int
            % 0x10_0000_0000_0000 != 0),
        crate::bits::f64_is_infinite(b) == ((b as int / 0x10_0000_0000_0000) % 0x800 == 0x7ff
            && b as int % 0x10_0000_0000_0000 == 0),
        (b == 0x8000_0000_0000_0000u64) == ((b as int / 0x10_0000_0000_0000) % 0x800 == 0 && b as int
            % 0x10_0000_0000_0000 == 0 && b as int / 0x8000_0000_0000_0000 == 1),
        crate::bits::f64_is_subnormal(b) == ((b as int / 0x10_0000_0000_0000) % 0x800 == 0
            && b as int % 0x10_0000_0000_0000 != 0),
        crate::bits::f64_is_extreme(b) == ((b as int / 0x10_0000_0000_0000) % 0x800 == 0x7fe
            && b as int % 0x10_0000_0000_0000 == 0xf_ffff_ffff_ffff),
{
}

/// What is said of the numbers of a tensor is said of the fields of some element's pattern.
pub proof fn lemma_numbers_are_read_from_their_fields(d: DataModel)
    ensures
        data_has_nan(d) <==> exists|e: int| 0 <= e < fractions_in(d) && #[trigger] undefined_at(d, e),
        data_has_inf(d) <==> exists|e: int| 0 <= e < fractions_in(d) && #[trigger] infinite_at(d, e),
        data_has_negative_zero(d) <==> exists|e: int|
            0 <= e < fractions_in(d) && #[trigger] signed_zero_at(d, e),
        data_has_subnormal(d) <==> exists|e: int|
            0 <= e < fractions_in(d) && #[trigger] tiny_at(d, e),
        (d is F32 || d is F64) ==> (data_has_boundary(d) <==> exists|e: int|
            0 <= e < fractions_in(d) && #[trigger] huge_at(d, e)),
{
    match d {
        DataModel::F32(v) => lemma_witnesses_single(v),
        DataModel::F64(v) => lemma_witnesses_double(v),
        _ => {},
    }
}

proof fn lemma_witnesses_single(v: Seq<u32>)
    ensures
        ({
            let d = DataModel::F32(v);
            &&& data_has_nan(d) <==> exists|e: int| 0 <= e < v.len() && #[trigger] undefined_at(d, e)
            &&& data_has_inf(d) <==> exists|e: int| 0 <= e < v.len() && #[trigger] infinite_at(d, e)
            &&& data_has_negative_zero(d) <==> exists|e: int|
                0 <= e < v.len() && #[trigger] signed_zero_at(d, e)
            &&& data_has_subnormal(d) <==> exists|e: int| 0 <= e < v.len() && #[trigger] tiny_at(d, e)
            &&& data_has_boundary(d) <==> exists|e: int| 0 <= e < v.len() && #[trigger] huge_at(d, e)
        }),
{
    let d = DataModel::F32(v);
    if data_has_nan(d) {
        let e = choose|e: int| 0 <= e < v.len() && crate::bits::f32_is_nan(#[trigger] v[e]);
        lemma_fields_single(v[e]);
        assert(undefined_at(d, e));
    }
    if data_has_inf(d) {
        let e = choose|e: int| 0 <= e < v.len() && crate::bits::f32_is_infinite(#[trigger] v[e]);
        lemma_fields_single(v[e]);
        assert(infinite_at(d, e));
    }
    if data_has_negative_zero(d) {
        let e = choose|e: int| 0 <= e < v.len() && #[trigger] v[e] == 0x8000_0000u32;
        lemma_fields_single(v[e]);
        assert(signed_zero_at(d, e));
    }
    if data_has_subnormal(d) {
        let e = choose|e: int| 0 <= e < v.len() && crate::bits::f32_is_subnormal(#[trigger] v[e]);
        lemma_fields_single(v[e]);
        assert(tiny_at(d, e));
    }
    if data_has_boundary(d) {
        let e = choose|e: int| 0 <= e < v.len() && crate::bits::f32_is_extreme(#[trigger] v[e]);
        lemma_fields_single(v[e]);
        assert(huge_at(d, e));
    }
    assert forall|e: int| 0 <= e < v.len() && #[trigger] undefined_at(d, e) implies data_has_nan(
        d,
    ) by {
        lemma_fields_single(v[e]);
    }
    assert forall|e: int| 0 <= e < v.len() && #[trigger] infinite_at(d, e) implies data_has_inf(
        d,
    ) by {
        lemma_fields_single(v[e]);
    }
    assert forall|e: int|
        0 <= e < v.len() && #[trigger] signed_zero_at(d, e) implies data_has_negative_zero(d) by {
        lemma_fields_single(v[e]);
    }
    assert forall|e: int| 0 <= e < v.len() && #[trigger] tiny_at(d, e) implies data_has_subnormal(
        d,
    ) by {
        lemma_fields_single(v[e]);
    }
    assert forall|e: int| 0 <= e < v.len() && #[trigger] huge_at(d, e) implies data_has_boundary(
        d,
    ) by {
        lemma_fields_single(v[e]);
    }
}

proof fn lemma_witnesses_double(v: Seq<u64>)
    ensures
        ({
            let d = DataModel::F64(v);
            &&& data_has_nan(d) <==> exists|e: int| 0 <= e < v.len() && #[trigger] undefined_at(d, e)
            &&& data_has_inf(d) <==> exists|e: int| 0 <= e < v.len() && #[trigger] infinite_at(d, e)
            &&& data_has_negative_zero(d) <==> exists|e: int|
                0 <= e < v.len() && #[trigger] signed_zero_at(d, e)
            &&& data_has_subnormal(d) <==> exists|e: int| 0 <= e < v.len() && #[trigger] tiny_at(d, e)
            &&& data_has_boundary(d) <==> exists|e: int| 0 <= e < v.len() && #[trigger] huge_at(d, e)
        }),
{
    let d = DataModel::F64(v);
    if data_has_nan(d) {
        let e = choose|e: int| 0 <= e < v.len() && crate::bits::f64_is_nan(#[trigger] v[e]);
        lemma_fields_double(v[e]);
        assert(undefined_at(d, e));
    }
    if data_has_inf(d) {
        let e = choose|e: int| 0 <= e < v.len() && crate::bits::f64_is_infinite(#[trigger] v[e]);
        lemma_fields_double(v[e]);
        assert(infinite_at(d, e));
    }
    if data_has_negative_zero(d) {
        let e = choose|e: int| 0 <= e < v.len() && #[trigger] v[e] == 0x8000_0000_0000_0000u64;
        lemma_fields_double(v[e]);
        assert(signed_zero_at(d, e));
    }
    if data_has_subnormal(d) {
        let e = choose|e: int| 0 <= e < v.len() && crate::bits::f64_is_subnormal(#[trigger] v[e]);
        lemma_fields_double(v[e]);
        assert(tiny_at(d, e));
    }
    if data_has_boundary(d) {
        let e = choose|e: int| 0 <= e < v.len() && crate::bits::f64_is_extreme(#[trigger] v[e]);
        lemma_fields_double(v[e]);
        assert(huge_at(d, e));
    }
    assert forall|e: int| 0 <= e < v.len() && #[trigger] undefined_at(d, e) implies data_has_nan(
        d,
    ) by {
        lemma_fields_double(v[e]);
    }
    assert forall|e: int| 0 <= e < v.len() && #[trigger] infinite_at(d, e) implies data_has_inf(
        d,
    ) by {
        lemma_fields_double(v[e]);
    }
    assert forall|e: int|
        0 <= e < v.len() && #[trigger] signed_zero_at(d, e) implies data_has_negative_zero(d) by {
        lemma_fields_double(v[e]);
    }
    assert forall|e: int| 0 <= e < v.len() && #[trigger] tiny_at(d, e) implies data_has_subnormal(
        d,
    ) by {
        lemma_fields_double(v[e]);
    }
    assert forall|e: int| 0 <= e < v.len() && #[trigger] huge_at(d, e) implies data_has_boundary(
        d,
    ) by {
        lemma_fields_double(v[e]);
    }
}

/// An integer tensor stands at a boundary where an element is the least or the greatest of its
/// type. A truth value never does.
pub proof fn lemma_integers_stand_at_their_ends(d: DataModel)
    ensures
        match d {
            DataModel::I32(v) => data_has_boundary(d) <==> exists|e: int|
                0 <= e < v.len() && (#[trigger] v[e] == -0x8000_0000int || v[e] == 0x7fff_ffffint),
            DataModel::I64(v) => data_has_boundary(d) <==> exists|e: int|
                0 <= e < v.len() && (#[trigger] v[e] == -0x8000_0000_0000_0000int || v[e]
                    == 0x7fff_ffff_ffff_ffffint),
            DataModel::I8(v) => data_has_boundary(d) <==> exists|e: int|
                0 <= e < v.len() && (#[trigger] v[e] == -128int || v[e] == 127int),
            DataModel::U8(v) => data_has_boundary(d) <==> exists|e: int|
                0 <= e < v.len() && (#[trigger] v[e] == 0 || v[e] == 255int),
            DataModel::Bool(_) => !data_has_boundary(d),
            _ => true,
        },
{
    match d {
        DataModel::I32(v) => {
            assert forall|e: int|
                0 <= e < v.len() && (#[trigger] v[e] == -0x8000_0000int || v[e]
                    == 0x7fff_ffffint) implies data_has_boundary(d) by {
                assert(v.contains(v[e]));
            }
        },
        DataModel::I64(v) => {
            assert forall|e: int|
                0 <= e < v.len() && (#[trigger] v[e] == -0x8000_0000_0000_0000int || v[e]
                    == 0x7fff_ffff_ffff_ffffint) implies data_has_boundary(d) by {
                assert(v.contains(v[e]));
            }
        },
        DataModel::I8(v) => {
            assert forall|e: int|
                0 <= e < v.len() && (#[trigger] v[e] == -128int || v[e]
                    == 127int) implies data_has_boundary(d) by {
                assert(v.contains(v[e]));
            }
        },
        DataModel::U8(v) => {
            assert forall|e: int|
                0 <= e < v.len() && (#[trigger] v[e] == 0 || v[e] == 255int) implies data_has_boundary(
                d,
            ) by {
                assert(v.contains(v[e]));
            }
        },
        _ => {},
    }
}

/// Each of the first five features holds of a case where it holds of the numbers of some input.
pub proof fn lemma_the_numbers_of_every_input_count(c: CaseModel)
    ensures
        holds(c, 0) <==> exists|i: int|
            0 <= i < c.inputs.len() && data_has_nan((#[trigger] c.inputs[i]).data),
        holds(c, 1) <==> exists|i: int|
            0 <= i < c.inputs.len() && data_has_inf((#[trigger] c.inputs[i]).data),
        holds(c, 2) <==> exists|i: int|
            0 <= i < c.inputs.len() && data_has_negative_zero((#[trigger] c.inputs[i]).data),
        holds(c, 3) <==> exists|i: int|
            0 <= i < c.inputs.len() && data_has_subnormal((#[trigger] c.inputs[i]).data),
        holds(c, 4) <==> exists|i: int|
            0 <= i < c.inputs.len() && data_has_boundary((#[trigger] c.inputs[i]).data),
{
}

// ---- what the tensors look like ----

proof fn lemma_a_zero_empties(dims: Seq<i64>)
    ensures
        (product(dims) == 0) == (exists|k: int| 0 <= k < dims.len() && #[trigger] dims[k] == 0),
    decreases dims.len(),
{
    if dims.len() > 0 {
        let front = dims.drop_last();
        lemma_a_zero_empties(front);
        let (p, x) = (product(front), dims.last() as int);
        assert(p * x == 0 <==> (p == 0 || x == 0)) by (nonlinear_arith);
        if product(dims) == 0 {
            if x == 0 {
                assert(dims[dims.len() - 1] == 0);
            } else {
                let k = choose|k: int| 0 <= k < front.len() && #[trigger] front[k] == 0;
                assert(dims[k] == 0);
            }
        }
        if exists|k: int| 0 <= k < dims.len() && #[trigger] dims[k] == 0 {
            let k = choose|k: int| 0 <= k < dims.len() && #[trigger] dims[k] == 0;
            if k < dims.len() - 1 {
                assert(front[k] == 0);
            }
        }
    }
}

/// A shape holds no element exactly where some extent is zero or negative.
pub proof fn lemma_a_shape_is_empty_by_its_extents(dims: Seq<i64>)
    ensures
        (count_of(dims) == 0) == (exists|k: int| 0 <= k < dims.len() && #[trigger] dims[k] <= 0),
{
    lemma_a_zero_empties(dims);
    if exists|k: int| 0 <= k < dims.len() && #[trigger] dims[k] <= 0 {
        let k = choose|k: int| 0 <= k < dims.len() && #[trigger] dims[k] <= 0;
        if dims[k] < 0 {
            assert(crate::case::any_negative(dims));
        } else {
            assert(dims[k] == 0);
        }
    }
    if count_of(dims) == 0 && !crate::case::any_negative(dims) {
        let k = choose|k: int| 0 <= k < dims.len() && #[trigger] dims[k] == 0;
        assert(dims[k] <= 0);
    }
}

/// An axis of some extent multiplies the number of elements by that extent, wherever it stands,
/// and a scalar is one element.
pub proof fn lemma_an_axis_multiplies(a: Seq<i64>, n: i64, b: Seq<i64>)
    ensures
        product(a.push(n) + b) == n * product(a + b),
        product(Seq::<i64>::empty()) == 1,
    decreases b.len(),
{
    if b.len() == 0 {
        assert(a.push(n) + b =~= a.push(n));
        assert(a + b =~= a);
        assert(a.push(n).drop_last() =~= a);
        assert(product(a) * n == n * product(a)) by (nonlinear_arith);
    } else {
        lemma_an_axis_multiplies(a, n, b.drop_last());
        assert((a.push(n) + b).drop_last() =~= a.push(n) + b.drop_last());
        assert((a + b).drop_last() =~= a + b.drop_last());
        let (p, x) = (product(a + b.drop_last()), b.last() as int);
        assert((n * p) * x == n * (p * x)) by (nonlinear_arith);
    }
}

/// What is said of shapes: some input is empty, some axis has extent one, two inputs differ in
/// shape.
pub proof fn lemma_what_is_said_of_shapes(c: CaseModel)
    ensures
        holds(c, 5) <==> exists|i: int, k: int|
            0 <= i < c.inputs.len() && 0 <= k < c.inputs[i].dims.len()
                && #[trigger] c.inputs[i].dims[k] <= 0,
        holds(c, 7) <==> exists|i: int, k: int|
            0 <= i < c.inputs.len() && 0 <= k < c.inputs[i].dims.len()
                && #[trigger] c.inputs[i].dims[k] == 1,
        holds(c, 8) <==> exists|i: int, j: int|
            0 <= i < c.inputs.len() && 0 <= j < c.inputs.len() && (#[trigger] c.inputs[i]).dims != (
            #[trigger] c.inputs[j]).dims,
{
    if holds(c, 5) {
        let i = choose|i: int|
            0 <= i < c.inputs.len() && count_of((#[trigger] c.inputs[i]).dims) == 0;
        lemma_a_shape_is_empty_by_its_extents(c.inputs[i].dims);
    }
    assert forall|i: int, k: int|
        0 <= i < c.inputs.len() && 0 <= k < c.inputs[i].dims.len()
            && #[trigger] c.inputs[i].dims[k] <= 0 implies holds(c, 5) by {
        lemma_a_shape_is_empty_by_its_extents(c.inputs[i].dims);
        assert(count_of(c.inputs[i].dims) == 0);
    }
    if holds(c, 7) {
        let i = choose|i: int| 0 <= i < c.inputs.len() && (#[trigger] c.inputs[i]).dims.contains(1);
        let k = choose|k: int| 0 <= k < c.inputs[i].dims.len() && c.inputs[i].dims[k] == 1;
        assert(c.inputs[i].dims[k] == 1);
    }
    assert forall|i: int, k: int|
        0 <= i < c.inputs.len() && 0 <= k < c.inputs[i].dims.len()
            && #[trigger] c.inputs[i].dims[k] == 1 implies holds(c, 7) by {
        assert(c.inputs[i].dims.contains(1));
    }
    if holds(c, 8) {
        let i = choose|i: int|
            0 <= i < c.inputs.len() && (#[trigger] c.inputs[i]).dims != c.inputs[0].dims;
        assert(c.inputs[i].dims != c.inputs[0].dims);
    }
    assert forall|i: int, j: int|
        0 <= i < c.inputs.len() && 0 <= j < c.inputs.len() && (#[trigger] c.inputs[i]).dims != (
        #[trigger] c.inputs[j]).dims implies holds(c, 8) by {
        if c.inputs[i].dims == c.inputs[0].dims {
            assert(c.inputs[j].dims != c.inputs[0].dims);
        }
    }
}

proof fn lemma_first_fed(inputs: Seq<crate::case::TensorModel>, i: int)
    requires
        0 <= i < inputs.len(),
        inputs[i].role == InputRole::Data,
        forall|k: int| 0 <= k < i ==> (#[trigger] inputs[k]).role == InputRole::Initializer,
    ensures
        first_fed(inputs) == i,
    decreases i,
{
    if i > 0 {
        assert(inputs[0].role == InputRole::Initializer);
        let rest = inputs.skip(1);
        assert forall|k: int| 0 <= k < i - 1 implies (#[trigger] rest[k]).role
            == InputRole::Initializer by {
            assert(inputs[k + 1].role == InputRole::Initializer);
        }
        lemma_first_fed(rest, i - 1);
    }
}

proof fn lemma_none_fed(inputs: Seq<crate::case::TensorModel>)
    requires
        forall|k: int| 0 <= k < inputs.len() ==> (#[trigger] inputs[k]).role
            == InputRole::Initializer,
    ensures
        first_fed(inputs) == inputs.len(),
    decreases inputs.len(),
{
    if inputs.len() > 0 {
        assert(inputs[0].role == InputRole::Initializer);
        let rest = inputs.skip(1);
        assert forall|k: int| 0 <= k < rest.len() implies (#[trigger] rest[k]).role
            == InputRole::Initializer by {
            assert(inputs[k + 1].role == InputRole::Initializer);
        }
        lemma_none_fed(rest);
    }
}

/// The rank of a case is that of the first input that is fed and not stored, and a case is of rank
/// zero where that input is a scalar.
pub proof fn lemma_the_rank_is_that_of_what_is_fed(c: CaseModel, i: int)
    requires
        0 <= i < c.inputs.len(),
        c.inputs[i].role == InputRole::Data,
        forall|k: int| 0 <= k < i ==> (#[trigger] c.inputs[k]).role == InputRole::Initializer,
    ensures
        data_rank_of(c) == c.inputs[i].dims.len(),
        holds(c, 6) == (c.inputs[i].dims.len() == 0),
{
    lemma_first_fed(c.inputs, i);
}

/// Where every input is stored, the rank is zero.
pub proof fn lemma_nothing_fed_has_no_rank(c: CaseModel)
    requires
        forall|k: int| 0 <= k < c.inputs.len() ==> (#[trigger] c.inputs[k]).role
            == InputRole::Initializer,
    ensures
        data_rank_of(c) == 0,
        holds(c, 6),
{
    lemma_none_fed(c.inputs);
}

/// The output is larger than the input where it has more elements than the first one.
pub proof fn lemma_the_output_is_larger(c: CaseModel)
    requires
        c.inputs.len() > 0,
        forall|k: int| 0 <= k < output_dims(c).len() ==> #[trigger] output_dims(c)[k] >= 0,
        forall|k: int| 0 <= k < c.inputs[0].dims.len() ==> #[trigger] c.inputs[0].dims[k] >= 0,
    ensures
        holds(c, 9) == (product(output_dims(c)) > product(c.inputs[0].dims)),
        output_dims(c) == c.inputs[0].dims ==> !holds(c, 9),
{
    crate::case::lemma_product_nonnegative(output_dims(c));
}

// ---- types, operators and versions ----

/// The type that a case is about, as far as the features tell: that of the second input for
/// `Where`, whose first is the condition, and of the first one otherwise.
pub proof fn lemma_what_is_said_of_types(c: CaseModel)
    requires
        c.inputs.len() > 0,
        c.op == OpKind::Where ==> c.inputs.len() > 1,
    ensures
        ({
            let d = if c.op == OpKind::Where {
                c.inputs[1].data
            } else {
                c.inputs[0].data
            };
            &&& holds(c, 10) == (d is I32 || d is I64 || d is I8 || d is U8)
            &&& holds(c, 11) == (d is F32 || d is F64)
            &&& !(holds(c, 10) && holds(c, 11))
        }),
{
}

/// Four operators are quantized ones.
pub proof fn lemma_four_operators_quantize(c: CaseModel)
    ensures
        holds(c, 12) <==> c.op == OpKind::QuantizeLinear || c.op == OpKind::DequantizeLinear || c.op
            == OpKind::MatMulInteger || c.op == OpKind::DynamicQuantizeLinear,
{
}

/// An axis is at a bound where it is the first or the last one, counted from either end.
pub proof fn lemma_an_axis_is_at_a_bound(name: Seq<char>, raw: i64, rank: int)
    requires
        rank > 0,
    ensures
        axis_at_bound((name, AttrModel::Int(raw)), rank) <==> name == "axis"@ && (raw == 0 || raw
            == rank - 1 || raw == -1 || raw == -rank),
        !axis_at_bound((name, AttrModel::Int(raw)), 0),
{
}

/// Every attribute can be the one that is at a bound, and only an integer can.
pub proof fn lemma_some_attribute_is_at_a_bound(c: CaseModel)
    ensures
        holds(c, 13) <==> exists|i: int|
            0 <= i < c.attrs.len() && (#[trigger] c.attrs[i]).1 is Int && axis_at_bound(
                c.attrs[i],
                data_rank_of(c) as int,
            ),
{
    if holds(c, 13) {
        let i = choose|i: int|
            0 <= i < c.attrs.len() && axis_at_bound(#[trigger] c.attrs[i], data_rank_of(c) as int);
        assert(c.attrs[i].1 is Int);
    }
}

/// Of the operator features exactly one holds of a case, the one at the operator's place among
/// all of them, and cases of two operators share none.
pub proof fn lemma_one_operator_feature_holds(a: CaseModel, b: CaseModel, k: int)
    requires
        14 <= k < 51,
    ensures
        holds(a, k) <==> OpKind::ALL[k - 14] == a.op,
        holds(a, k) && holds(b, k) ==> a.op == b.op,
        a.op == b.op ==> holds(a, k) == holds(b, k),
        exists|j: int| 14 <= j < 51 && #[trigger] holds(a, j),
{
    crate::case::lemma_every_operator_is_listed(a.op);
    let at = choose|at: int| 0 <= at < 37 && #[trigger] OpKind::ALL[at] == a.op;
    assert(holds(a, at + 14));
}

/// The version features say that the version has reached 13, 14, 19 and 21, so a later one
/// holding brings the earlier ones with it.
pub proof fn lemma_versions_are_reached(c: CaseModel)
    ensures
        holds(c, 51) <==> c.opset >= 13,
        holds(c, 52) <==> c.opset >= 14,
        holds(c, 53) <==> c.opset >= 19,
        holds(c, 54) <==> c.opset >= 21,
{
}

} // verus!
