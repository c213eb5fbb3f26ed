//! Building one legal case for an operator.
//!
//! Every case satisfies its operator's rules as it is built. Nothing is drawn and then filtered: a
//! rejected case would test the validator and not the operator.

use vstd::prelude::*;

use crate::attrs::{lookup, AttrModel, Attrs};
use crate::bits::{f32_exact, f32_of, lemma_f32_exact_fields, lemma_top_bit, lemma_top_bit_below};
use crate::bits::{lemma_two_to, lemma_two_to_increases, top_bit, two_to, F32_ONE, F32_ZERO};
use crate::case::{any_negative, lemma_wire_round_trip, product, product_fits, tensors_model};
use crate::case::{CaseModel, DataModel};
use crate::case::{ElemType, InputRole, OnnxCase, OpKind, TensorData, TensorModel, TensorValue};
use crate::gen_shape::Bounds;
use crate::gen_value::{cast_safe, declined, decline_min_over_negative_one};
use crate::gen_value::{divisor_data, divides, nonzero, ordinary, ordinary_data, single_at};
use crate::gen_value::{rated_cast, rated_data, single_between, singles_from};
use crate::gen_value::{undetermined, undetermined_for, varied};
use crate::gen_value::{double_between, excludes, lemma_grid_doubles_are_tame};
use crate::gen_value::{lemma_grid_values_are_tame, lemma_open_values_are_not_drawn};
use crate::gen_value::{with_specials, REACH};
use crate::ops::{constant, contains_type, copy_dims, fed, op_spec, one_integer, opset_span};
use crate::ops::{integers_at, output_dims, Family, OpSpec};
use crate::rng::SeededRng;
use crate::shapes::{budget, draw_permutation, element_count, factorization, lemma_product_update};
use crate::shapes::{shape, shape_bounded, shape_nonempty, shape_within, widest};
use crate::validation::{agreement_holds, concat_holds, extents_hold, free_of, gather_holds};
use crate::validation::{input_name, input_name_text, is_permutation, lemma_product_one};
use crate::validation::{lengths_hold, matmul_holds, names_hold, pad_holds, parameters_hold};
use crate::validation::{reshape_holds, same_but_for, slice_holds, squeeze_holds, target_holds};
use crate::validation::{unsqueeze_holds, valid, Problem};

verus! {

// ---- tensors ----

/// Whether data were drawn by the rule that the configuration sets for an operator.
pub open spec fn drawn_data(d: DataModel, op: OpKind, b: Bounds) -> bool {
    if b.special_values {
        rated_data(d, undetermined(op), b.special_value_rate as nat)
    } else {
        ordinary_data(d) && varied(d)
    }
}

/// Whether a tensor is data of a given name, shape and type.
pub open spec fn holds_data(t: TensorModel, name: Seq<char>, dims: Seq<i64>, elem: ElemType) -> bool {
    &&& t.name == name
    &&& t.dims == dims
    &&& t.role == InputRole::Data
    &&& t.elem_type() == elem
    &&& t.data.len() == product(dims)
}

/// Whether a tensor is one that [`tensor`] draws.
pub open spec fn drawn_tensor(
    t: TensorModel,
    name: Seq<char>,
    dims: Seq<i64>,
    elem: ElemType,
    op: OpKind,
    b: Bounds,
) -> bool {
    holds_data(t, name, dims, elem) && drawn_data(t.data, op, b)
}

/// A tensor of the given shape and type, filled as the configuration asks. This is the one place
/// that decides how data are filled.
fn tensor(
    name: &str,
    dims: &Vec<i64>,
    elem: ElemType,
    op: OpKind,
    bounds: &Bounds,
    rng: &mut SeededRng,
) -> (r: TensorValue)
    requires
        !any_negative(dims@),
        product_fits(dims@),
        product(dims@) <= usize::MAX,
        bounds.special_value_rate <= 100,
    ensures
        drawn_tensor(r@, name@, dims@, elem, op, *bounds),
{
    let count: usize = element_count(dims);
    let data: TensorData = if bounds.special_values {
        with_specials(elem, count, bounds.special_value_rate, undetermined_for(op), rng)
    } else {
        ordinary(elem, count, rng)
    };
    TensorValue::new(name, copy_dims(dims), data)
}

/// A vector of integers that is a constant inside the model.
fn integer_vector(name: &str, values: Vec<i64>) -> (r: TensorValue)
    requires
        values.len() <= i64::MAX,
    ensures
        r@ == constant(name@, seq![values@.len() as i64], DataModel::I64(values@)),
{
    let dims: Vec<i64> = vec![values.len() as i64];
    assert(dims@ =~= seq![values@.len() as i64]);
    TensorValue::new(name, dims, TensorData::I64(values)).as_initializer()
}

fn single_integer(name: &str, value: i64) -> (r: TensorValue)
    ensures
        r@ == one_integer(name@, value),
{
    let values: Vec<i64> = vec![value];
    assert(values@ =~= seq![value]);
    integer_vector(name, values)
}

// ---- quantization parameters ----

/// The scales that are powers of two. Only for these does `(n + 0.5) * scale` divide back to
/// exactly `n + 0.5`, so only these make a rounding tie an exact one.
pub const POWERS_OF_TWO: [u32; 8] = [
    0x3b80_0000,
    0x3c80_0000,
    0x3d80_0000,
    0x3e80_0000,
    0x3f00_0000,
    0x3f80_0000,
    0x4000_0000,
    0x4080_0000,
];

/// Other scales: a thousandth, a hundredth, one half, one and a hundred.
pub const OTHER_SCALES: [u32; 5] = [
    0x3a83_126f,
    0x3c23_d70a,
    0x3f00_0000,
    0x3f80_0000,
    0x42c8_0000,
];

/// The steps of a hundredth, rounded up, and of two.
pub const SCALE_FLOOR: i64 = 656;

pub const SCALE_CEILING: i64 = 131072;

/// Whether a scale is one that is drawn. Each is positive and finite.
pub open spec fn drawn_scale(s: u32) -> bool {
    POWERS_OF_TWO@.contains(s) || OTHER_SCALES@.contains(s) || single_between(
        s,
        SCALE_FLOOR as int,
        SCALE_CEILING as int,
    )
}

/// Whether a pattern is that of a power of two: a positive normal number without a fraction.
pub open spec fn power_of_two(b: u32) -> bool {
    0 < b < 0x7f80_0000 && b % 0x80_0000 == 0
}

/// The exponent of a power of two.
pub open spec fn exponent_of(b: u32) -> int {
    b / 0x80_0000 - 127
}

/// A scale is positive, finite, and far from the ends of the exponent's range.
pub proof fn lemma_scales_are_positive(s: u32)
    requires
        drawn_scale(s),
    ensures
        0x3a80_0000 <= s <= 0x42c8_0000,
{
    if POWERS_OF_TWO@.contains(s) {
        let i = choose|i: int| 0 <= i < POWERS_OF_TWO@.len() && POWERS_OF_TWO@[i] == s;
        assert(i == 0 || i == 1 || i == 2 || i == 3 || i == 4 || i == 5 || i == 6 || i == 7);
    } else if OTHER_SCALES@.contains(s) {
        let i = choose|i: int| 0 <= i < OTHER_SCALES@.len() && OTHER_SCALES@[i] == s;
        assert(i == 0 || i == 1 || i == 2 || i == 3 || i == 4);
    } else {
        let q = choose|q: int| SCALE_FLOOR <= q < SCALE_CEILING && s == #[trigger] single_at(q);
        let m = q as nat;
        lemma_two_to();
        assert(two_to(17) == 0x2_0000) by {
            reveal_with_fuel(two_to, 3);
        }
        lemma_top_bit_below(m, 17);
        lemma_top_bit(m);
        if top_bit(m) < 9 {
            lemma_two_to_increases(top_bit(m) + 1, 9);
            assert(two_to(9) == 0x200) by {
                reveal_with_fuel(two_to, 3);
            }
        }
        lemma_f32_exact_fields(false, m, -16);
    }
}

/// Draws a scale.
fn draw_scale(bounds: &Bounds, rng: &mut SeededRng) -> (r: u32)
    requires
        bounds.special_value_rate <= 100,
    ensures
        drawn_scale(r),
        0x3a80_0000 <= r <= 0x42c8_0000,
{
    let s: u32 = if bounds.special_values && rng.percent(50) {
        let at: usize = rng.index(8);
        assert(POWERS_OF_TWO@.contains(POWERS_OF_TWO@[at as int]));
        POWERS_OF_TWO[at]
    } else if bounds.special_values && rng.percent(bounds.special_value_rate) {
        let at: usize = rng.index(5);
        assert(OTHER_SCALES@.contains(OTHER_SCALES@[at as int]));
        OTHER_SCALES[at]
    } else {
        let q: i64 = rng.between(SCALE_FLOOR, SCALE_CEILING - 1);
        proof {
            lemma_two_to();
            lemma_top_bit_below(q as nat, 24);
        }
        let s: u32 = f32_of(false, q as u32, -16);
        assert(s == single_at(q as int));
        s
    };
    proof {
        lemma_scales_are_positive(s);
    }
    s
}

/// A tensor that holds a scale.
fn scale_tensor(scale: u32) -> (r: TensorValue)
    ensures
        r@ == fed("scale"@, Seq::empty(), DataModel::F32(seq![scale])),
{
    let dims: Vec<i64> = Vec::new();
    let values: Vec<u32> = vec![scale];
    assert(dims@ =~= Seq::empty());
    assert(values@ =~= seq![scale]);
    TensorValue::from_f32("scale", dims, values)
}

/// Whether a tensor is a scale that is drawn.
pub open spec fn is_drawn_scale(t: TensorModel) -> bool {
    exists|s: u32|
        #[trigger] drawn_scale(s) && t == fed("scale"@, Seq::empty(), DataModel::F32(seq![s]))
}

/// Whether a tensor is a zero point of a quantized type.
pub open spec fn is_drawn_zero_point(t: TensorModel, name: Seq<char>, elem: ElemType) -> bool {
    &&& elem == ElemType::I8 || elem == ElemType::U8
    &&& holds_data(t, name, Seq::empty(), elem)
}

/// A zero point within the range of its type.
fn zero_point_tensor(name: &str, target: ElemType, rng: &mut SeededRng) -> (r: TensorValue)
    requires
        target == ElemType::I8 || target == ElemType::U8,
    ensures
        is_drawn_zero_point(r@, name@, target),
{
    let dims: Vec<i64> = Vec::new();
    assert(dims@ =~= Seq::empty());
    let payload: TensorData = match target {
        ElemType::U8 => TensorData::U8(vec![rng.between(0, 255) as u8]),
        _ => TensorData::I8(vec![rng.between(-128, 127) as i8]),
    };
    TensorValue::new(name, dims, payload)
}

/// The value halfway between two quantization levels, `(n + 0.5)` times a power of two.
pub open spec fn tie_at(n: int, exponent: int) -> u32 {
    let odd = 2 * n + 1;
    f32_exact(odd < 0, (if odd < 0 { -odd } else { odd }) as nat, exponent - 1)
}

/// Whether a value is an exact rounding tie of a scale.
pub open spec fn is_tie(b: u32, scale: u32) -> bool {
    power_of_two(scale) && exists|n: int|
        -60 <= n < 60 && b == #[trigger] tie_at(n, exponent_of(scale))
}

/// Whether a quantizer's values are ordinary, or exact ties where special values are on.
pub open spec fn quantizer_data(d: DataModel, scale: u32, b: Bounds) -> bool {
    d is F32 && forall|k: int|
        0 <= k < d->F32_0.len() ==> single_between(#[trigger] d->F32_0[k], -REACH, REACH as int)
            || (b.special_values && is_tie(d->F32_0[k], scale))
}

proof fn lemma_small_bits(m: nat)
    requires
        0 < m < 0x80,
    ensures
        top_bit(m) <= 6,
{
    lemma_two_to();
    lemma_top_bit_below(m, 7);
}

/// Values for a quantizer. Where special values are on and the scale is a power of two, some of
/// them lie exactly halfway between two levels: that is where rounding modes differ.
fn quantize_input(
    name: &str,
    dims: &Vec<i64>,
    scale: u32,
    bounds: &Bounds,
    rng: &mut SeededRng,
) -> (r: TensorValue)
    requires
        !any_negative(dims@),
        product_fits(dims@),
        product(dims@) <= usize::MAX,
        bounds.special_value_rate <= 100,
        0x3a80_0000 <= scale <= 0x42c8_0000,
    ensures
        holds_data(r@, name@, dims@, ElemType::F32),
        quantizer_data(r@.data, scale, *bounds),
{
    let count: usize = element_count(dims);
    let data: TensorData = ordinary(ElemType::F32, count, rng);
    let data: TensorData = match data {
        TensorData::F32(values) => {
            assert(singles_from(values@, Seq::empty(), -REACH, REACH as int));
            let mut values: Vec<u32> = values;
            if bounds.special_values && scale % 0x80_0000 == 0 {
                let exponent: i32 = (scale / 0x80_0000) as i32 - 127;
                let mut k: usize = 0;
                while k < values.len()
                    invariant
                        k <= values.len() == count,
                        bounds.special_value_rate <= 100,
                        bounds.special_values,
                        power_of_two(scale),
                        exponent == exponent_of(scale),
                        -10 <= exponent <= 10,
                        forall|j: int|
                            0 <= j < values.len() ==> single_between(
                                #[trigger] values@[j],
                                -REACH,
                                REACH as int,
                            ) || is_tie(values@[j], scale),
                    decreases values.len() - k,
                {
                    if rng.percent(bounds.special_value_rate) {
                        let n: i64 = rng.between(-60, 59);
                        let odd: i64 = 2 * n + 1;
                        let m: u32 = (if odd < 0 { -odd } else { odd }) as u32;
                        proof {
                            lemma_small_bits(m as nat);
                        }
                        let tie: u32 = f32_of(odd < 0, m, exponent - 1);
                        assert(tie == tie_at(n as int, exponent as int));
                        assert(is_tie(tie, scale));
                        values.set(k, tie);
                    }
                    k += 1;
                }
            }
            TensorData::F32(values)
        },
        other => other,
    };
    TensorValue::new(name, copy_dims(dims), data)
}

/// The exponents of the scales that are arranged for a dynamic quantizer.
pub const EXPONENTS: [i32; 6] = [-6, -4, -2, -1, 0, 1];

/// The pattern of `j` steps of `2^(exponent - 8)`: 256 steps to a quantization level.
pub open spec fn level_at(j: int, exponent: int) -> u32 {
    f32_exact(j < 0, (if j < 0 { -j } else { j }) as nat, exponent - 8)
}

/// Whether values make a dynamic quantizer derive a scale that is a power of two: the least and the
/// greatest of them are 255 levels apart, zero lies between them, and the others lie within.
pub open spec fn arranged(v: Seq<u32>, levels: Seq<i64>, exponent: int, below: int) -> bool {
    &&& -6 <= exponent <= 1
    &&& 1 <= below <= 254
    &&& levels.len() == v.len()
    &&& levels.contains((-256 * below) as i64)
    &&& levels.contains((256 * (255 - below)) as i64)
    &&& forall|k: int|
        0 <= k < levels.len() ==> -256 * below <= #[trigger] levels[k] <= 256 * (255 - below)
    &&& forall|k: int| 0 <= k < v.len() ==> #[trigger] v[k] == level_at(levels[k] as int, exponent)
}

/// Whether values are arranged, for some levels.
pub open spec fn is_arranged(v: Seq<u32>) -> bool {
    exists|levels: Seq<i64>, exponent: int, below: int| #[trigger]
        arranged(v, levels, exponent, below)
}

/// Whether values are ordinary and not all zero.
pub open spec fn spread(v: Seq<u32>) -> bool {
    &&& singles_from(v, seq![F32_ONE], -REACH, REACH as int)
    &&& exists|k: int| 0 <= k < v.len() && #[trigger] v[k] != F32_ZERO
}

/// Whether a dynamic quantizer's values span a range.
pub open spec fn dynamic_data(d: DataModel, b: Bounds) -> bool {
    d is F32 && (if b.special_values && d->F32_0.len() >= 2 {
        is_arranged(d->F32_0)
    } else {
        spread(d->F32_0)
    })
}

/// Ordinary values that are not all zero.
fn spread_values(count: usize, rng: &mut SeededRng) -> (r: Vec<u32>)
    requires
        count >= 1,
    ensures
        r.len() == count,
        spread(r@),
{
    let data: TensorData = ordinary(ElemType::F32, count, rng);
    match data {
        TensorData::F32(values) => {
            assert(singles_from(values@, Seq::empty(), -REACH, REACH as int));
            let mut values: Vec<u32> = values;
            let mut k: usize = 0;
            let mut zero: bool = true;
            while k < values.len()
                invariant
                    k <= values.len(),
                    zero == (forall|j: int| 0 <= j < k ==> #[trigger] values@[j] == F32_ZERO),
                decreases values.len() - k,
            {
                if values[k] != F32_ZERO {
                    zero = false;
                }
                k += 1;
            }
            let ghost before = values@;
            if zero {
                values.set(0, F32_ONE);
                assert(values@[0] != F32_ZERO);
                assert(seq![F32_ONE][0] == F32_ONE);
                assert(seq![F32_ONE].contains(F32_ONE));
            }
            assert forall|j: int| 0 <= j < values@.len() implies single_between(
                #[trigger] values@[j],
                -REACH,
                REACH as int,
            ) || seq![F32_ONE].contains(values@[j]) by {
                if !(zero && j == 0) {
                    assert(values@[j] == before[j]);
                }
            }
            values
        },
        _ => Vec::new(),
    }
}

/// Levels between two ends that are 255 apart, both ends among them, in no particular order.
fn draw_levels(count: usize, below: i64, rate: u32, rng: &mut SeededRng) -> (r: Vec<i64>)
    requires
        2 <= count <= i64::MAX,
        1 <= below <= 254,
        rate <= 100,
    ensures
        r.len() == count,
        r@.contains((-256 * below) as i64),
        r@.contains((256 * (255 - below)) as i64),
        forall|k: int|
            0 <= k < r.len() ==> -256 * below <= #[trigger] r@[k] <= 256 * (255 - below),
{
    let least: i64 = -256 * below;
    let most: i64 = 256 * (255 - below);
    let mut levels: Vec<i64> = vec![least, most];
    let share: u32 = if rate > 50 {
        rate
    } else {
        50
    };
    assert(levels@[0] == least && levels@[1] == most);
    while levels.len() < count
        invariant
            2 <= levels.len() <= count,
            1 <= below <= 254,
            share <= 100,
            least == -256 * below,
            most == 256 * (255 - below),
            levels@[0] == least && levels@[1] == most,
            forall|k: int| 0 <= k < levels.len() ==> least <= #[trigger] levels@[k] <= most,
        decreases count - levels.len(),
    {
        let level: i64 = if rng.percent(share) {
            256 * rng.between(-below + 1, 254 - below) + 128
        } else {
            rng.between(least, most - 1)
        };
        levels.push(level);
    }
    assert(levels@.contains(least) && levels@.contains(most));
    let mut i: usize = count;
    while i > 1
        invariant
            i <= count == levels.len(),
            count <= i64::MAX,
            levels@.contains(least) && levels@.contains(most),
            forall|k: int| 0 <= k < levels.len() ==> least <= #[trigger] levels@[k] <= most,
        decreases i,
    {
        i -= 1;
        let j: usize = rng.index(i + 1);
        let (a, b): (i64, i64) = (levels[i], levels[j]);
        let ghost before = levels@;
        levels.set(i, b);
        levels.set(j, a);
        proof {
            assert(levels@[i as int] == before[j as int] && levels@[j as int] == before[i as int]);
            lemma_swap_keeps(before, levels@, i as int, j as int, least);
            lemma_swap_keeps(before, levels@, i as int, j as int, most);
        }
    }
    levels
}

proof fn lemma_swap_keeps(before: Seq<i64>, after: Seq<i64>, i: int, j: int, x: i64)
    requires
        before.contains(x),
        before.len() == after.len(),
        0 <= i < before.len(),
        0 <= j < before.len(),
        after[i] == before[j],
        after[j] == before[i],
        forall|k: int| 0 <= k < before.len() && k != i && k != j ==> #[trigger] after[k] == before[k],
    ensures
        after.contains(x),
{
    let k = choose|k: int| 0 <= k < before.len() && before[k] == x;
    if k == i {
        assert(after[j] == x);
    } else if k == j {
        assert(after[i] == x);
    } else {
        assert(after[k] == x);
    }
}

/// Values for a dynamic quantizer, which derives its scale from them. They are arranged so that it
/// derives a power of two, and many of them lie exactly halfway between two levels.
fn dynamic_quantize_input(
    name: &str,
    dims: &Vec<i64>,
    bounds: &Bounds,
    rng: &mut SeededRng,
) -> (r: TensorValue)
    requires
        !any_negative(dims@),
        product_fits(dims@),
        1 <= product(dims@) <= usize::MAX,
        product(dims@) <= i64::MAX,
        bounds.special_value_rate <= 100,
    ensures
        holds_data(r@, name@, dims@, ElemType::F32),
        dynamic_data(r@.data, *bounds),
{
    let count: usize = element_count(dims);
    if !bounds.special_values || count < 2 {
        return TensorValue::new(name, copy_dims(dims), TensorData::F32(spread_values(count, rng)));
    }
    let exponent: i32 = EXPONENTS[rng.index(6)];
    let below: i64 = rng.between(1, 254);
    let levels: Vec<i64> = draw_levels(count, below, bounds.special_value_rate, rng);
    assert(-6 <= exponent <= 1);
    let mut values: Vec<u32> = Vec::new();
    while values.len() < levels.len()
        invariant
            values.len() <= levels.len(),
            -6 <= exponent <= 1,
            1 <= below <= 254,
            forall|k: int|
                0 <= k < levels.len() ==> -256 * below <= #[trigger] levels@[k] <= 256 * (255
                    - below),
            forall|k: int|
                0 <= k < values.len() ==> #[trigger] values@[k] == level_at(
                    levels@[k] as int,
                    exponent as int,
                ),
        decreases levels.len() - values.len(),
    {
        let j: i64 = levels[values.len()];
        let m: u32 = (if j < 0 { -j } else { j }) as u32;
        proof {
            if m > 0 {
                lemma_two_to();
                lemma_top_bit_below(m as nat, 16);
            }
        }
        values.push(f32_of(j < 0, m, exponent - 8));
    }
    assert(arranged(values@, levels@, exponent as int, below as int));
    TensorValue::new(name, copy_dims(dims), TensorData::F32(values))
}

// ---- what is generated ----

/// Whether the shapes of a configuration can be counted on this machine. Padding names two numbers
/// for every axis, and these are counted as well.
pub open spec fn usable(b: Bounds) -> bool {
    &&& b.special_value_rate <= 100
    &&& 2 * b.max_rank <= usize::MAX
    &&& 2 * b.max_rank <= i64::MAX
    &&& b.element_budget <= i64::MAX
}

/// Whether a configuration permits a type to convert to.
pub open spec fn has_target(b: Bounds, elem: ElemType) -> bool {
    exists|i: int| 0 <= i < b.types().len() && #[trigger] b.types()[i] != elem
}

/// Whether a case is generated for an operator and a type: the operator admits it at the
/// configuration's opset version and, for a conversion, there is another type to convert to.
pub open spec fn can_generate(op: OpKind, elem: ElemType, b: Bounds) -> bool {
    op.admits(elem, b.opset) && (op.family() == Family::Cast ==> has_target(b, elem))
}

/// Whether the opset version is the configuration's or, where it varies, one of the operator's
/// span.
pub open spec fn drawn_opset(opset: i64, op: OpKind, b: Bounds) -> bool {
    if b.vary_opset {
        op.since() <= opset <= 22
    } else {
        opset == b.opset
    }
}

pub open spec fn unary_case(c: CaseModel, elem: ElemType, b: Bounds) -> bool {
    &&& c.inputs.len() == 1
    &&& shape_within(c.inputs[0].dims, b, 0, b.degenerate_shapes)
    &&& drawn_tensor(c.inputs[0], "a"@, c.inputs[0].dims, elem, c.op, b)
    &&& c.attrs == Seq::<(Seq<char>, AttrModel)>::empty()
}

pub open spec fn binary_case(c: CaseModel, elem: ElemType, b: Bounds) -> bool {
    &&& c.inputs.len() == 2
    &&& shape_within(c.inputs[0].dims, b, 0, b.degenerate_shapes)
    &&& drawn_tensor(c.inputs[0], "a"@, c.inputs[0].dims, elem, c.op, b)
    &&& if c.op == OpKind::Div {
        holds_data(c.inputs[1], "b"@, c.inputs[0].dims, elem) && divisor_data(c.inputs[1].data)
    } else {
        drawn_tensor(c.inputs[1], "b"@, c.inputs[0].dims, elem, c.op, b)
    }
    &&& c.attrs == Seq::<(Seq<char>, AttrModel)>::empty()
}

pub open spec fn select_case(c: CaseModel, elem: ElemType, b: Bounds) -> bool {
    &&& c.inputs.len() == 3
    &&& shape_within(c.inputs[0].dims, b, 0, b.degenerate_shapes)
    &&& drawn_tensor(c.inputs[0], "a"@, c.inputs[0].dims, ElemType::Bool, c.op, b)
    &&& drawn_tensor(c.inputs[1], "b"@, c.inputs[0].dims, elem, c.op, b)
    &&& drawn_tensor(c.inputs[2], "c"@, c.inputs[0].dims, elem, c.op, b)
    &&& c.attrs == Seq::<(Seq<char>, AttrModel)>::empty()
}

/// Whether a conversion's values are in the target's range, where that matters.
pub open spec fn converted_data(d: DataModel, elem: ElemType, target: ElemType, b: Bounds) -> bool {
    if !target.floating() && elem.floating() {
        rated_cast(d, target, b.special_value_rate as nat)
    } else {
        drawn_data(d, OpKind::Cast, b)
    }
}

pub open spec fn cast_case_to(c: CaseModel, elem: ElemType, b: Bounds, target: ElemType) -> bool {
    &&& target != elem
    &&& b.types().contains(target)
    &&& c.attrs == seq![("to"@, AttrModel::Int(target.wire_number() as i64))]
    &&& c.inputs.len() == 1
    &&& shape_within(c.inputs[0].dims, b, 0, b.degenerate_shapes)
    &&& holds_data(c.inputs[0], "a"@, c.inputs[0].dims, elem)
    &&& converted_data(c.inputs[0].data, elem, target, b)
}

pub open spec fn cast_case(c: CaseModel, elem: ElemType, b: Bounds) -> bool {
    exists|target: ElemType| #[trigger] cast_case_to(c, elem, b, target)
}

pub open spec fn transpose_case_by(
    c: CaseModel,
    elem: ElemType,
    b: Bounds,
    perm: Seq<i64>,
) -> bool {
    &&& c.inputs.len() == 1
    &&& shape_within(c.inputs[0].dims, b, 1, b.degenerate_shapes)
    &&& drawn_tensor(c.inputs[0], "a"@, c.inputs[0].dims, elem, c.op, b)
    &&& is_permutation(perm, c.inputs[0].dims.len())
    &&& c.attrs == seq![("perm"@, AttrModel::Ints(perm))]
}

pub open spec fn transpose_case(c: CaseModel, elem: ElemType, b: Bounds) -> bool {
    exists|perm: Seq<i64>| #[trigger] transpose_case_by(c, elem, b, perm)
}

pub open spec fn concat_case_along(c: CaseModel, elem: ElemType, b: Bounds, axis: int) -> bool {
    &&& 2 <= c.inputs.len() <= 3
    &&& 0 <= axis < c.inputs[0].dims.len()
    &&& axis <= i64::MAX
    &&& c.attrs == seq![("axis"@, AttrModel::Int(axis as i64))]
    &&& forall|i: int|
        0 <= i < c.inputs.len() ==> drawn_tensor(
            #[trigger] c.inputs[i],
            input_name_text(i as nat),
            c.inputs[i].dims,
            elem,
            c.op,
            b,
        ) && same_but_for(c.inputs[i].dims, c.inputs[0].dims, axis) && !any_negative(
            c.inputs[i].dims,
        ) && product(c.inputs[i].dims) <= budget(b)
}

pub open spec fn concat_case(c: CaseModel, elem: ElemType, b: Bounds) -> bool {
    exists|axis: int| #[trigger] concat_case_along(c, elem, b, axis)
}

pub open spec fn gather_case_along(
    c: CaseModel,
    elem: ElemType,
    b: Bounds,
    axis: int,
    indices: Seq<i64>,
) -> bool {
    &&& c.inputs.len() == 2
    &&& shape_within(c.inputs[0].dims, b, 1, false)
    &&& 0 <= axis < c.inputs[0].dims.len()
    &&& axis <= i64::MAX
    &&& drawn_tensor(c.inputs[0], "a"@, c.inputs[0].dims, elem, c.op, b)
    &&& 1 <= indices.len() <= 3
    &&& c.inputs[1] == fed("b"@, seq![indices.len() as i64], DataModel::I64(indices))
    &&& forall|k: int|
        0 <= k < indices.len() ==> 0 <= #[trigger] indices[k] < c.inputs[0].dims[axis]
    &&& c.attrs == seq![("axis"@, AttrModel::Int(axis as i64))]
}

pub open spec fn gather_case(c: CaseModel, elem: ElemType, b: Bounds) -> bool {
    exists|axis: int, indices: Seq<i64>| #[trigger] gather_case_along(c, elem, b, axis, indices)
}

pub open spec fn reshape_case_to(c: CaseModel, elem: ElemType, b: Bounds, target: Seq<i64>) -> bool {
    &&& c.inputs.len() == 2
    &&& shape_within(c.inputs[0].dims, b, 0, b.degenerate_shapes)
    &&& drawn_tensor(c.inputs[0], "a"@, c.inputs[0].dims, elem, c.op, b)
    &&& !any_negative(target)
    &&& product(target) == product(c.inputs[0].dims)
    &&& c.inputs[1] == constant("b"@, seq![target.len() as i64], DataModel::I64(target))
    &&& target.len() <= i64::MAX
    &&& c.attrs == (if target.contains(0i64) {
        seq![("allowzero"@, AttrModel::Int(1))]
    } else {
        Seq::empty()
    })
}

pub open spec fn reshape_case(c: CaseModel, elem: ElemType, b: Bounds) -> bool {
    exists|target: Seq<i64>| #[trigger] reshape_case_to(c, elem, b, target)
}

pub open spec fn squeeze_case_at(c: CaseModel, elem: ElemType, b: Bounds, axis: int) -> bool {
    &&& c.inputs.len() == 2
    &&& shape_within(c.inputs[0].dims, b, 1, false)
    &&& 0 <= axis < c.inputs[0].dims.len()
    &&& c.inputs[0].dims[axis] == 1
    &&& drawn_tensor(c.inputs[0], "a"@, c.inputs[0].dims, elem, c.op, b)
    &&& c.inputs[1] == one_integer("b"@, axis as i64)
    &&& axis <= i64::MAX
    &&& c.attrs == Seq::<(Seq<char>, AttrModel)>::empty()
}

pub open spec fn squeeze_case(c: CaseModel, elem: ElemType, b: Bounds) -> bool {
    exists|axis: int| #[trigger] squeeze_case_at(c, elem, b, axis)
}

pub open spec fn unsqueeze_case_at(c: CaseModel, elem: ElemType, b: Bounds, axis: int) -> bool {
    &&& c.inputs.len() == 2
    &&& shape_within(c.inputs[0].dims, b, 0, b.degenerate_shapes)
    &&& 0 <= axis <= c.inputs[0].dims.len()
    &&& drawn_tensor(c.inputs[0], "a"@, c.inputs[0].dims, elem, c.op, b)
    &&& c.inputs[1] == one_integer("b"@, axis as i64)
    &&& axis <= i64::MAX
    &&& c.attrs == Seq::<(Seq<char>, AttrModel)>::empty()
}

pub open spec fn unsqueeze_case(c: CaseModel, elem: ElemType, b: Bounds) -> bool {
    exists|axis: int| #[trigger] unsqueeze_case_at(c, elem, b, axis)
}

pub open spec fn slice_case_of(
    c: CaseModel,
    elem: ElemType,
    b: Bounds,
    start: i64,
    end: i64,
) -> bool {
    &&& c.inputs.len() == 3
    &&& shape_within(c.inputs[0].dims, b, 1, false)
    &&& 0 <= start < end <= c.inputs[0].dims[0]
    &&& drawn_tensor(c.inputs[0], "a"@, c.inputs[0].dims, elem, c.op, b)
    &&& c.inputs[1] == one_integer("b"@, start)
    &&& c.inputs[2] == one_integer("c"@, end)
    &&& c.attrs == Seq::<(Seq<char>, AttrModel)>::empty()
}

pub open spec fn slice_case(c: CaseModel, elem: ElemType, b: Bounds) -> bool {
    exists|start: i64, end: i64| #[trigger] slice_case_of(c, elem, b, start, end)
}

pub open spec fn pad_case_by(c: CaseModel, elem: ElemType, b: Bounds, pads: Seq<i64>) -> bool {
    &&& c.inputs.len() == 2
    &&& shape_within(c.inputs[0].dims, b, 1, b.degenerate_shapes)
    &&& drawn_tensor(c.inputs[0], "a"@, c.inputs[0].dims, elem, c.op, b)
    &&& pads.len() == 2 * c.inputs[0].dims.len()
    &&& pads.len() <= i64::MAX
    &&& forall|k: int| 0 <= k < pads.len() ==> 0 <= #[trigger] pads[k] <= 2
    &&& c.inputs[1] == constant("b"@, seq![pads.len() as i64], DataModel::I64(pads))
    &&& c.attrs == seq![("mode"@, AttrModel::Text("constant"@))]
}

pub open spec fn pad_case(c: CaseModel, elem: ElemType, b: Bounds) -> bool {
    exists|pads: Seq<i64>| #[trigger] pad_case_by(c, elem, b, pads)
}

pub open spec fn quantize_case(c: CaseModel, elem: ElemType, b: Bounds) -> bool {
    &&& c.inputs.len() == 3
    &&& shape_within(c.inputs[0].dims, b, 0, b.degenerate_shapes)
    &&& holds_data(c.inputs[0], "a"@, c.inputs[0].dims, ElemType::F32)
    &&& is_drawn_scale(c.inputs[1])
    &&& quantizer_data(c.inputs[0].data, c.inputs[1].data->F32_0[0], b)
    &&& is_drawn_zero_point(c.inputs[2], "zero_point"@, c.inputs[2].elem_type())
    &&& c.attrs == Seq::<(Seq<char>, AttrModel)>::empty()
}

pub open spec fn dequantize_case(c: CaseModel, elem: ElemType, b: Bounds) -> bool {
    &&& c.inputs.len() == 3
    &&& shape_within(c.inputs[0].dims, b, 0, b.degenerate_shapes)
    &&& drawn_tensor(c.inputs[0], "a"@, c.inputs[0].dims, elem, c.op, b)
    &&& is_drawn_scale(c.inputs[1])
    &&& is_drawn_zero_point(c.inputs[2], "zero_point"@, elem)
    &&& c.attrs == Seq::<(Seq<char>, AttrModel)>::empty()
}

pub open spec fn matmul_case_of(
    c: CaseModel,
    elem: ElemType,
    b: Bounds,
    m: i64,
    k: i64,
    n: i64,
) -> bool {
    &&& c.inputs.len() == 4
    &&& 1 <= m <= widest(b) && 1 <= k <= widest(b) && 1 <= n <= widest(b)
    &&& m * k <= budget(b) && k * n <= budget(b)
    &&& drawn_tensor(c.inputs[0], "a"@, seq![m, k], elem, c.op, b)
    &&& drawn_tensor(c.inputs[1], "b"@, seq![k, n], elem, c.op, b)
    &&& is_drawn_zero_point(c.inputs[2], "a_zero_point"@, elem)
    &&& is_drawn_zero_point(c.inputs[3], "b_zero_point"@, elem)
    &&& c.attrs == Seq::<(Seq<char>, AttrModel)>::empty()
}

pub open spec fn matmul_case(c: CaseModel, elem: ElemType, b: Bounds) -> bool {
    exists|m: i64, k: i64, n: i64| #[trigger] matmul_case_of(c, elem, b, m, k, n)
}

pub open spec fn dynamic_case(c: CaseModel, elem: ElemType, b: Bounds) -> bool {
    &&& c.inputs.len() == 1
    &&& shape_within(c.inputs[0].dims, b, 1, false)
    &&& product(c.inputs[0].dims) >= 1
    &&& holds_data(c.inputs[0], "a"@, c.inputs[0].dims, ElemType::F32)
    &&& dynamic_data(c.inputs[0].data, b)
    &&& c.attrs == Seq::<(Seq<char>, AttrModel)>::empty()
}

/// Whether a case is one that is generated for an operator and a type.
pub open spec fn generated(c: CaseModel, op: OpKind, elem: ElemType, b: Bounds) -> bool {
    &&& c.op == op
    &&& drawn_opset(c.opset, op, b)
    &&& match op.family() {
        Family::UnaryElementwise | Family::Shape | Family::Size => unary_case(c, elem, b),
        Family::BinaryElementwise | Family::Comparison => binary_case(c, elem, b),
        Family::Select => select_case(c, elem, b),
        Family::Cast => cast_case(c, elem, b),
        Family::Transpose => transpose_case(c, elem, b),
        Family::Concat => concat_case(c, elem, b),
        Family::Gather => gather_case(c, elem, b),
        Family::Reshape => reshape_case(c, elem, b),
        Family::Squeeze => squeeze_case(c, elem, b),
        Family::Unsqueeze => unsqueeze_case(c, elem, b),
        Family::Slice => slice_case(c, elem, b),
        Family::Pad => pad_case(c, elem, b),
        Family::Quantize => quantize_case(c, elem, b),
        Family::Dequantize => dequantize_case(c, elem, b),
        Family::MatMulInteger => matmul_case(c, elem, b),
        Family::DynamicQuantize => dynamic_case(c, elem, b),
    }
}

// ---- building ----

fn build_unary(
    op: OpKind,
    opset: i64,
    elem: ElemType,
    bounds: &Bounds,
    rng: &mut SeededRng,
) -> (r: OnnxCase)
    requires
        usable(*bounds),
    ensures
        r@.op == op && r@.opset == opset,
        unary_case(r@, elem, *bounds),
{
    let dims: Vec<i64> = shape(bounds, rng);
    let inputs: Vec<TensorValue> = vec![tensor("a", &dims, elem, op, bounds, rng)];
    assert(tensors_model(inputs@)[0] == inputs@[0]@);
    let r: OnnxCase = OnnxCase::new(op, opset, inputs);
    assert(r@.attrs =~= Seq::empty());
    r
}

fn build_binary(
    op: OpKind,
    opset: i64,
    elem: ElemType,
    bounds: &Bounds,
    rng: &mut SeededRng,
) -> (r: OnnxCase)
    requires
        usable(*bounds),
    ensures
        r@.op == op && r@.opset == opset,
        binary_case(r@, elem, *bounds),
{
    let dims: Vec<i64> = shape(bounds, rng);
    let left: TensorValue = tensor("a", &dims, elem, op, bounds, rng);
    let inputs: Vec<TensorValue> = if op == OpKind::Div {
        let count: usize = element_count(&dims);
        let divisor: TensorValue = TensorValue::new(
            "b",
            copy_dims(&dims),
            nonzero(elem, count, rng),
        );
        let data: TensorData = decline_min_over_negative_one(left.data, &divisor.data);
        proof {
            lemma_ordinary_divisors_decline_nothing(left@.data, divisor@.data);
        }
        let left: TensorValue = TensorValue::new("a", copy_dims(&dims), data);
        vec![left, divisor]
    } else {
        let right: TensorValue = tensor("b", &dims, elem, op, bounds, rng);
        vec![left, right]
    };
    assert(tensors_model(inputs@)[0] == inputs@[0]@);
    assert(tensors_model(inputs@)[1] == inputs@[1]@);
    let r: OnnxCase = OnnxCase::new(op, opset, inputs);
    assert(r@.attrs =~= Seq::empty());
    r
}

proof fn lemma_ordinary_divisors_decline_nothing(dividend: DataModel, divisor: DataModel)
    requires
        divisor_data(divisor),
        dividend.len() == divisor.len(),
    ensures
        declined(dividend, divisor) == dividend,
{
    match (dividend, divisor) {
        (DataModel::I32(a), DataModel::I32(b)) => {
            assert forall|k: int| 0 <= k < a.len() implies b[k] != -1 by {
                assert(divides(b[k] as int));
            }
            assert(declined(dividend, divisor)->I32_0 =~= a);
        },
        (DataModel::I64(a), DataModel::I64(b)) => {
            assert forall|k: int| 0 <= k < a.len() implies b[k] != -1 by {
                assert(divides(b[k] as int));
            }
            assert(declined(dividend, divisor)->I64_0 =~= a);
        },
        _ => {},
    }
}

fn build_select(
    op: OpKind,
    opset: i64,
    elem: ElemType,
    bounds: &Bounds,
    rng: &mut SeededRng,
) -> (r: OnnxCase)
    requires
        usable(*bounds),
    ensures
        r@.op == op && r@.opset == opset,
        select_case(r@, elem, *bounds),
{
    let dims: Vec<i64> = shape(bounds, rng);
    let a: TensorValue = tensor("a", &dims, ElemType::Bool, op, bounds, rng);
    let b: TensorValue = tensor("b", &dims, elem, op, bounds, rng);
    let c: TensorValue = tensor("c", &dims, elem, op, bounds, rng);
    let inputs: Vec<TensorValue> = vec![a, b, c];
    assert(tensors_model(inputs@)[0] == inputs@[0]@);
    assert(tensors_model(inputs@)[1] == inputs@[1]@);
    assert(tensors_model(inputs@)[2] == inputs@[2]@);
    let r: OnnxCase = OnnxCase::new(op, opset, inputs);
    assert(r@.attrs =~= Seq::empty());
    r
}

/// The permitted types other than the given one.
fn other_types(bounds: &Bounds, elem: ElemType) -> (r: Vec<ElemType>)
    ensures
        r.len() <= 7,
        r.len() > 0 <==> has_target(*bounds, elem),
        forall|k: int|
            0 <= k < r.len() ==> #[trigger] r@[k] != elem && bounds.types().contains(r@[k]),
{
    let types: Vec<ElemType> = bounds.element_types();
    let mut out: Vec<ElemType> = Vec::new();
    let mut i: usize = 0;
    while i < types.len()
        invariant
            i <= types.len() <= 7,
            types@ == bounds.types(),
            out.len() <= i,
            out.len() > 0 <==> exists|j: int| 0 <= j < i && #[trigger] bounds.types()[j] != elem,
            forall|k: int|
                0 <= k < out.len() ==> #[trigger] out@[k] != elem && bounds.types().contains(
                    out@[k],
                ),
        decreases types.len() - i,
    {
        assert(bounds.types().contains(bounds.types()[i as int]));
        if types[i] != elem {
            out.push(types[i]);
        }
        i += 1;
    }
    out
}

fn build_cast(
    op: OpKind,
    opset: i64,
    elem: ElemType,
    target: ElemType,
    bounds: &Bounds,
    rng: &mut SeededRng,
) -> (r: OnnxCase)
    requires
        usable(*bounds),
        op == OpKind::Cast,
        target != elem,
        bounds.types().contains(target),
    ensures
        r@.op == op && r@.opset == opset,
        cast_case(r@, elem, *bounds),
{
    let dims: Vec<i64> = shape(bounds, rng);
    let count: usize = element_count(&dims);
    let data: TensorData = if !target.is_floating() && elem.is_floating() {
        cast_safe(elem, target, count, bounds.special_value_rate, rng)
    } else if bounds.special_values {
        with_specials(elem, count, bounds.special_value_rate, undetermined_for(op), rng)
    } else {
        ordinary(elem, count, rng)
    };
    let inputs: Vec<TensorValue> = vec![TensorValue::new("a", copy_dims(&dims), data)];
    assert(tensors_model(inputs@)[0] == inputs@[0]@);
    let attrs: Attrs = Attrs::new().with_int("to", target.wire() as i64);
    let r: OnnxCase = OnnxCase::new(op, opset, inputs).with_attrs(attrs);
    assert(r@.attrs =~= seq![("to"@, AttrModel::Int(target.wire_number() as i64))]);
    assert(cast_case_to(r@, elem, *bounds, target));
    r
}

fn build_transpose(
    op: OpKind,
    opset: i64,
    elem: ElemType,
    bounds: &Bounds,
    rng: &mut SeededRng,
) -> (r: OnnxCase)
    requires
        usable(*bounds),
    ensures
        r@.op == op && r@.opset == opset,
        transpose_case(r@, elem, *bounds),
{
    let dims: Vec<i64> = shape_bounded(bounds, 1, bounds.degenerate_shapes, rng);
    let perm: Vec<i64> = draw_permutation(dims.len(), rng);
    let ghost order = perm@;
    let inputs: Vec<TensorValue> = vec![tensor("a", &dims, elem, op, bounds, rng)];
    assert(tensors_model(inputs@)[0] == inputs@[0]@);
    let r: OnnxCase = OnnxCase::new(op, opset, inputs).with_attrs(
        Attrs::new().ints("perm", perm),
    );
    assert(r@.attrs =~= seq![("perm"@, AttrModel::Ints(order))]);
    assert(transpose_case_by(r@, elem, *bounds, order));
    r
}

fn build_concat(
    op: OpKind,
    opset: i64,
    elem: ElemType,
    bounds: &Bounds,
    rng: &mut SeededRng,
) -> (r: OnnxCase)
    requires
        usable(*bounds),
    ensures
        r@.op == op && r@.opset == opset,
        concat_case(r@, elem, *bounds),
{
    let dims: Vec<i64> = shape_nonempty(bounds, rng);
    let axis: usize = rng.index(dims.len());
    let total: i64 = element_count(&dims) as i64;
    let extent: i64 = dims[axis];
    assert(extent >= 1);
    let rest: i64 = total / extent;
    let cap: i64 = if bounds.element_budget >= 1 {
        bounds.element_budget as i64
    } else {
        1
    };
    proof {
        lemma_product_update(dims@, axis as int, 1);
        let outer = product(dims@.update(axis as int, 1));
        assert(rest == outer && 1 <= rest <= cap) by (nonlinear_arith)
            requires
                outer * extent == total,
                rest == total / extent,
                1 <= extent,
                1 <= total <= cap,
        ;
    }
    let room: i64 = cap / rest;
    proof {
        assert(room >= 1 && rest * room <= cap) by (nonlinear_arith)
            requires
                1 <= rest <= cap,
                room == cap / rest,
        ;
    }
    let ceiling: i64 = if bounds.max_dim < room {
        bounds.max_dim
    } else {
        room
    };
    let top: i64 = if ceiling >= 1 {
        ceiling
    } else {
        1
    };
    let count: usize = rng.between(2, 3) as usize;
    let mut inputs: Vec<TensorValue> = Vec::new();
    while inputs.len() < count
        invariant
            inputs.len() <= count <= 3,
            usable(*bounds),
            axis < dims.len(),
            forall|i: int| 0 <= i < dims.len() ==> #[trigger] dims@[i] >= 1,
            extent == dims@[axis as int],
            product(dims@) == rest * extent,
            1 <= top <= room,
            1 <= rest <= cap,
            rest * room <= cap,
            cap == budget(*bounds),
            cap <= usize::MAX,
            forall|i: int|
                0 <= i < inputs.len() ==> drawn_tensor(
                    (#[trigger] inputs@[i])@,
                    input_name_text(i as nat),
                    inputs@[i].dims@,
                    elem,
                    op,
                    *bounds,
                ) && same_but_for(inputs@[i].dims@, dims@, axis as int) && !any_negative(
                    inputs@[i].dims@,
                ) && product(inputs@[i].dims@) <= cap,
        decreases count - inputs.len(),
    {
        let own_extent: i64 = rng.between(1, top);
        let mut own: Vec<i64> = copy_dims(&dims);
        own.set(axis, own_extent);
        proof {
            lemma_product_update(dims@, axis as int, own_extent);
            let p = product(own@);
            assert(p == rest * own_extent) by (nonlinear_arith)
                requires
                    p * extent == (rest * extent) * own_extent,
                    extent >= 1,
            ;
            assert(rest * own_extent <= rest * room) by (nonlinear_arith)
                requires
                    1 <= rest,
                    own_extent <= room,
            ;
            crate::shapes::lemma_positive_product_fits(own@);
        }
        let name: String = input_name(inputs.len());
        let t: TensorValue = tensor(name.as_str(), &own, elem, op, bounds, rng);
        inputs.push(t);
    }
    let r: OnnxCase = OnnxCase::new(op, opset, inputs).with_attrs(
        Attrs::new().with_int("axis", axis as i64),
    );
    proof {
        assert(r@.inputs == tensors_model(inputs@));
        assert(r@.attrs =~= seq![("axis"@, AttrModel::Int(axis as i64))]);
        assert(r@.inputs[0].dims == inputs@[0].dims@);
        assert forall|i: int| 0 <= i < r@.inputs.len() implies drawn_tensor(
            #[trigger] r@.inputs[i],
            input_name_text(i as nat),
            r@.inputs[i].dims,
            elem,
            op,
            *bounds,
        ) && same_but_for(r@.inputs[i].dims, r@.inputs[0].dims, axis as int) && !any_negative(
            r@.inputs[i].dims,
        ) && product(r@.inputs[i].dims) <= budget(*bounds) by {
            assert(r@.inputs[i] == inputs@[i]@);
            assert(same_but_for(inputs@[i].dims@, dims@, axis as int));
            assert(same_but_for(inputs@[0].dims@, dims@, axis as int));
        }
        assert(concat_case_along(r@, elem, *bounds, axis as int));
    }
    r
}

fn build_gather(
    op: OpKind,
    opset: i64,
    elem: ElemType,
    bounds: &Bounds,
    rng: &mut SeededRng,
) -> (r: OnnxCase)
    requires
        usable(*bounds),
    ensures
        r@.op == op && r@.opset == opset,
        gather_case(r@, elem, *bounds),
{
    let dims: Vec<i64> = shape_nonempty(bounds, rng);
    let axis: usize = rng.index(dims.len());
    let extent: i64 = dims[axis];
    assert(extent >= 1);
    let count: usize = rng.between(1, 3) as usize;
    let mut indices: Vec<i64> = Vec::new();
    while indices.len() < count
        invariant
            indices.len() <= count <= 3,
            extent >= 1,
            forall|k: int| 0 <= k < indices.len() ==> 0 <= #[trigger] indices@[k] < extent,
        decreases count - indices.len(),
    {
        indices.push(rng.between(0, extent - 1));
    }
    let ghost list = indices@;
    let data: TensorValue = tensor("a", &dims, elem, op, bounds, rng);
    let index_dims: Vec<i64> = vec![count as i64];
    assert(index_dims@ =~= seq![list.len() as i64]);
    let index: TensorValue = TensorValue::new("b", index_dims, TensorData::I64(indices));
    let inputs: Vec<TensorValue> = vec![data, index];
    assert(tensors_model(inputs@)[0] == inputs@[0]@);
    assert(tensors_model(inputs@)[1] == inputs@[1]@);
    let r: OnnxCase = OnnxCase::new(op, opset, inputs).with_attrs(
        Attrs::new().with_int("axis", axis as i64),
    );
    assert(r@.attrs =~= seq![("axis"@, AttrModel::Int(axis as i64))]);
    assert(gather_case_along(r@, elem, *bounds, axis as int, list));
    r
}

fn build_reshape(
    op: OpKind,
    opset: i64,
    elem: ElemType,
    bounds: &Bounds,
    rng: &mut SeededRng,
) -> (r: OnnxCase)
    requires
        usable(*bounds),
    ensures
        r@.op == op && r@.opset == opset,
        reshape_case(r@, elem, *bounds),
{
    let dims: Vec<i64> = shape(bounds, rng);
    let total: i64 = element_count(&dims) as i64;
    let target: Vec<i64> = factorization(total, bounds, rng);
    let ghost goal = target@;
    let data: TensorValue = tensor("a", &dims, elem, op, bounds, rng);
    let inputs: Vec<TensorValue> = vec![data, integer_vector("b", target)];
    assert(tensors_model(inputs@)[0] == inputs@[0]@);
    assert(tensors_model(inputs@)[1] == inputs@[1]@);
    let attrs: Attrs = if total == 0 {
        Attrs::new().with_int("allowzero", 1)
    } else {
        Attrs::new()
    };
    let r: OnnxCase = OnnxCase::new(op, opset, inputs).with_attrs(attrs);
    assert(r@.attrs =~= (if goal.contains(0i64) {
        seq![("allowzero"@, AttrModel::Int(1))]
    } else {
        Seq::empty()
    }));
    assert(reshape_case_to(r@, elem, *bounds, goal));
    r
}

fn build_squeeze(
    op: OpKind,
    opset: i64,
    elem: ElemType,
    bounds: &Bounds,
    rng: &mut SeededRng,
) -> (r: OnnxCase)
    requires
        usable(*bounds),
    ensures
        r@.op == op && r@.opset == opset,
        squeeze_case(r@, elem, *bounds),
{
    let mut dims: Vec<i64> = shape_nonempty(bounds, rng);
    let axis: usize = rng.index(dims.len());
    let ghost before = dims@;
    dims.set(axis, 1);
    proof {
        lemma_product_update(before, axis as int, 1);
        assert(before[axis as int] >= 1);
        let p = product(dims@);
        assert(p <= product(before)) by (nonlinear_arith)
            requires
                p * before[axis as int] == product(before) * 1,
                before[axis as int] >= 1,
                product(before) >= 1,
        ;
        crate::shapes::lemma_positive_product_fits(dims@);
    }
    let data: TensorValue = tensor("a", &dims, elem, op, bounds, rng);
    let inputs: Vec<TensorValue> = vec![data, single_integer("b", axis as i64)];
    assert(tensors_model(inputs@)[0] == inputs@[0]@);
    assert(tensors_model(inputs@)[1] == inputs@[1]@);
    let r: OnnxCase = OnnxCase::new(op, opset, inputs);
    assert(r@.attrs =~= Seq::empty());
    assert(squeeze_case_at(r@, elem, *bounds, axis as int));
    r
}

fn build_unsqueeze(
    op: OpKind,
    opset: i64,
    elem: ElemType,
    bounds: &Bounds,
    rng: &mut SeededRng,
) -> (r: OnnxCase)
    requires
        usable(*bounds),
    ensures
        r@.op == op && r@.opset == opset,
        unsqueeze_case(r@, elem, *bounds),
{
    let dims: Vec<i64> = shape(bounds, rng);
    let axis: usize = rng.index(dims.len() + 1);
    let data: TensorValue = tensor("a", &dims, elem, op, bounds, rng);
    let inputs: Vec<TensorValue> = vec![data, single_integer("b", axis as i64)];
    assert(tensors_model(inputs@)[0] == inputs@[0]@);
    assert(tensors_model(inputs@)[1] == inputs@[1]@);
    let r: OnnxCase = OnnxCase::new(op, opset, inputs);
    assert(r@.attrs =~= Seq::empty());
    assert(unsqueeze_case_at(r@, elem, *bounds, axis as int));
    r
}

fn build_slice(
    op: OpKind,
    opset: i64,
    elem: ElemType,
    bounds: &Bounds,
    rng: &mut SeededRng,
) -> (r: OnnxCase)
    requires
        usable(*bounds),
    ensures
        r@.op == op && r@.opset == opset,
        slice_case(r@, elem, *bounds),
{
    let dims: Vec<i64> = shape_nonempty(bounds, rng);
    let extent: i64 = dims[0];
    assert(extent >= 1);
    let start: i64 = rng.between(0, extent - 1);
    let end: i64 = rng.between(start + 1, extent);
    let data: TensorValue = tensor("a", &dims, elem, op, bounds, rng);
    let inputs: Vec<TensorValue> = vec![
        data,
        single_integer("b", start),
        single_integer("c", end),
    ];
    assert(tensors_model(inputs@)[0] == inputs@[0]@);
    assert(tensors_model(inputs@)[1] == inputs@[1]@);
    assert(tensors_model(inputs@)[2] == inputs@[2]@);
    let r: OnnxCase = OnnxCase::new(op, opset, inputs);
    assert(r@.attrs =~= Seq::empty());
    assert(slice_case_of(r@, elem, *bounds, start, end));
    r
}

fn build_pad(
    op: OpKind,
    opset: i64,
    elem: ElemType,
    bounds: &Bounds,
    rng: &mut SeededRng,
) -> (r: OnnxCase)
    requires
        usable(*bounds),
    ensures
        r@.op == op && r@.opset == opset,
        pad_case(r@, elem, *bounds),
{
    let dims: Vec<i64> = shape_bounded(bounds, 1, bounds.degenerate_shapes, rng);
    let mut pads: Vec<i64> = Vec::new();
    let total: usize = dims.len() * 2;
    while pads.len() < total
        invariant
            pads.len() <= total,
            forall|k: int| 0 <= k < pads.len() ==> 0 <= #[trigger] pads@[k] <= 2,
        decreases total - pads.len(),
    {
        pads.push(rng.between(0, 2));
    }
    let ghost amounts = pads@;
    let data: TensorValue = tensor("a", &dims, elem, op, bounds, rng);
    let inputs: Vec<TensorValue> = vec![data, integer_vector("b", pads)];
    assert(tensors_model(inputs@)[0] == inputs@[0]@);
    assert(tensors_model(inputs@)[1] == inputs@[1]@);
    let r: OnnxCase = OnnxCase::new(op, opset, inputs).with_attrs(
        Attrs::new().string("mode", "constant"),
    );
    assert(r@.attrs =~= seq![("mode"@, AttrModel::Text("constant"@))]);
    assert(pad_case_by(r@, elem, *bounds, amounts));
    r
}

fn build_quantize(op: OpKind, opset: i64, bounds: &Bounds, rng: &mut SeededRng) -> (r: OnnxCase)
    requires
        usable(*bounds),
    ensures
        r@.op == op && r@.opset == opset,
        quantize_case(r@, ElemType::F32, *bounds),
{
    let dims: Vec<i64> = shape(bounds, rng);
    let target: ElemType = ElemType::QUANTIZED[rng.index(2)];
    // The scale comes first, so that values can be aligned to it.
    let scale: u32 = draw_scale(bounds, rng);
    let data: TensorValue = quantize_input("a", &dims, scale, bounds, rng);
    let zero: TensorValue = zero_point_tensor("zero_point", target, rng);
    let inputs: Vec<TensorValue> = vec![data, scale_tensor(scale), zero];
    assert(tensors_model(inputs@)[0] == inputs@[0]@);
    assert(tensors_model(inputs@)[1] == inputs@[1]@);
    assert(tensors_model(inputs@)[2] == inputs@[2]@);
    let r: OnnxCase = OnnxCase::new(op, opset, inputs);
    assert(r@.attrs =~= Seq::empty());
    r
}

fn build_dequantize(
    op: OpKind,
    opset: i64,
    elem: ElemType,
    bounds: &Bounds,
    rng: &mut SeededRng,
) -> (r: OnnxCase)
    requires
        usable(*bounds),
        elem == ElemType::I8 || elem == ElemType::U8,
    ensures
        r@.op == op && r@.opset == opset,
        dequantize_case(r@, elem, *bounds),
{
    let dims: Vec<i64> = shape(bounds, rng);
    let data: TensorValue = tensor("a", &dims, elem, op, bounds, rng);
    let scale: u32 = draw_scale(bounds, rng);
    let zero: TensorValue = zero_point_tensor("zero_point", elem, rng);
    let inputs: Vec<TensorValue> = vec![data, scale_tensor(scale), zero];
    assert(tensors_model(inputs@)[0] == inputs@[0]@);
    assert(tensors_model(inputs@)[1] == inputs@[1]@);
    assert(tensors_model(inputs@)[2] == inputs@[2]@);
    let r: OnnxCase = OnnxCase::new(op, opset, inputs);
    assert(r@.attrs =~= Seq::empty());
    r
}

/// A single extent within the configured bound and at most `most`.
fn bounded_dim(bounds: &Bounds, most: i64, rng: &mut SeededRng) -> (r: i64)
    requires
        most >= 1,
    ensures
        1 <= r <= widest(*bounds),
        r <= most,
{
    let ceiling: i64 = if bounds.max_dim < most {
        bounds.max_dim
    } else {
        most
    };
    let top: i64 = if ceiling >= 1 {
        ceiling
    } else {
        1
    };
    rng.between(1, top)
}

/// The other extent of a matrix whose one extent is given, within the bounds and the budget.
fn paired_dim(bounds: &Bounds, other: i64, rng: &mut SeededRng) -> (r: i64)
    requires
        usable(*bounds),
        1 <= other <= budget(*bounds),
    ensures
        1 <= r <= widest(*bounds),
        other * r <= budget(*bounds),
        r <= budget(*bounds),
{
    let total: i64 = if bounds.element_budget >= 1 {
        bounds.element_budget as i64
    } else {
        1
    };
    let most: i64 = total / other;
    assert(most >= 1 && other * most <= total && most <= total) by (nonlinear_arith)
        requires
            most == total / other,
            1 <= other <= total,
    ;
    let r: i64 = bounded_dim(bounds, most, rng);
    assert(other * r <= other * most) by (nonlinear_arith)
        requires
            1 <= r <= most,
            other >= 1,
    ;
    r
}

/// The shape of a matrix.
fn matrix(rows: i64, columns: i64, bounds: &Bounds) -> (r: Vec<i64>)
    requires
        usable(*bounds),
        1 <= rows,
        1 <= columns,
        rows * columns <= budget(*bounds),
    ensures
        r@ == seq![rows, columns],
        !any_negative(r@),
        product_fits(r@),
        product(r@) == rows * columns,
        product(r@) <= usize::MAX,
{
    let r: Vec<i64> = vec![rows, columns];
    proof {
        assert(r@ =~= seq![rows, columns]);
        crate::validation::lemma_product_two(rows, columns);
        crate::shapes::lemma_positive_product_fits(r@);
    }
    r
}

fn build_matmul(
    op: OpKind,
    opset: i64,
    elem: ElemType,
    bounds: &Bounds,
    rng: &mut SeededRng,
) -> (r: OnnxCase)
    requires
        usable(*bounds),
        elem == ElemType::I8 || elem == ElemType::U8,
    ensures
        r@.op == op && r@.opset == opset,
        matmul_case(r@, elem, *bounds),
{
    let m: i64 = paired_dim(bounds, 1, rng);
    let k: i64 = paired_dim(bounds, m, rng);
    let n: i64 = paired_dim(bounds, k, rng);
    let a: TensorValue = tensor("a", &matrix(m, k, bounds), elem, op, bounds, rng);
    let b: TensorValue = tensor("b", &matrix(k, n, bounds), elem, op, bounds, rng);
    let a_zero: TensorValue = zero_point_tensor("a_zero_point", elem, rng);
    let b_zero: TensorValue = zero_point_tensor("b_zero_point", elem, rng);
    let inputs: Vec<TensorValue> = vec![a, b, a_zero, b_zero];
    assert(tensors_model(inputs@)[0] == inputs@[0]@);
    assert(tensors_model(inputs@)[1] == inputs@[1]@);
    assert(tensors_model(inputs@)[2] == inputs@[2]@);
    assert(tensors_model(inputs@)[3] == inputs@[3]@);
    let r: OnnxCase = OnnxCase::new(op, opset, inputs);
    assert(r@.attrs =~= Seq::empty());
    assert(matmul_case_of(r@, elem, *bounds, m, k, n));
    r
}

fn build_dynamic(op: OpKind, opset: i64, bounds: &Bounds, rng: &mut SeededRng) -> (r: OnnxCase)
    requires
        usable(*bounds),
    ensures
        r@.op == op && r@.opset == opset,
        dynamic_case(r@, ElemType::F32, *bounds),
{
    let dims: Vec<i64> = shape_nonempty(bounds, rng);
    let inputs: Vec<TensorValue> = vec![dynamic_quantize_input("a", &dims, bounds, rng)];
    assert(tensors_model(inputs@)[0] == inputs@[0]@);
    let r: OnnxCase = OnnxCase::new(op, opset, inputs);
    assert(r@.attrs =~= Seq::empty());
    r
}

/// Builds a case of any family but the conversions.
#[verifier::rlimit(60)]
fn build(
    op: OpKind,
    family: Family,
    opset: i64,
    elem: ElemType,
    bounds: &Bounds,
    rng: &mut SeededRng,
) -> (r: OnnxCase)
    requires
        usable(*bounds),
        family == op.family(),
        family != Family::Cast,
        op.data_types().contains(elem),
        drawn_opset(opset, op, *bounds),
    ensures
        generated(r@, op, elem, *bounds),
{
    match family {
        Family::UnaryElementwise | Family::Shape | Family::Size => build_unary(
            op,
            opset,
            elem,
            bounds,
            rng,
        ),
        Family::BinaryElementwise | Family::Comparison => build_binary(
            op,
            opset,
            elem,
            bounds,
            rng,
        ),
        Family::Select => build_select(op, opset, elem, bounds, rng),
        Family::Transpose => build_transpose(op, opset, elem, bounds, rng),
        Family::Concat => build_concat(op, opset, elem, bounds, rng),
        Family::Gather => build_gather(op, opset, elem, bounds, rng),
        Family::Reshape => build_reshape(op, opset, elem, bounds, rng),
        Family::Squeeze => build_squeeze(op, opset, elem, bounds, rng),
        Family::Unsqueeze => build_unsqueeze(op, opset, elem, bounds, rng),
        Family::Slice => build_slice(op, opset, elem, bounds, rng),
        Family::Pad => build_pad(op, opset, elem, bounds, rng),
        Family::Quantize => {
            assert(elem == ElemType::F32);
            build_quantize(op, opset, bounds, rng)
        },
        Family::Dequantize => {
            assert(elem == ElemType::I8 || elem == ElemType::U8);
            build_dequantize(op, opset, elem, bounds, rng)
        },
        Family::MatMulInteger => {
            assert(elem == ElemType::I8 || elem == ElemType::U8);
            build_matmul(op, opset, elem, bounds, rng)
        },
        Family::DynamicQuantize | Family::Cast => {
            assert(elem == ElemType::F32);
            build_dynamic(op, opset, bounds, rng)
        },
    }
}

/// Builds one legal case for an operator at a type, within a configuration. There is none exactly
/// when the operator does not admit the type or does not exist yet at the opset version, or when a
/// conversion has nothing to convert to.
pub fn generate_case(op: OpKind, elem: ElemType, bounds: &Bounds, rng: &mut SeededRng) -> (r: Option<
    OnnxCase,
>)
    requires
        usable(*bounds),
    ensures
        r is Some <==> can_generate(op, elem, *bounds),
        r matches Some(case) ==> generated(case@, op, elem, *bounds) && valid(case@),
        r matches Some(case) ==> product(case@.inputs[0].dims) <= budget(*bounds),
{
    let spec: OpSpec = op_spec(op);
    if !contains_type(&spec.data_types, elem) || bounds.opset < spec.since {
        return None;
    }
    let opset: i64 = if bounds.vary_opset {
        let (least, most): (i64, i64) = opset_span(op);
        rng.between(least, most)
    } else {
        bounds.opset
    };
    if spec.family == Family::Cast {
        let targets: Vec<ElemType> = other_types(bounds, elem);
        if targets.len() == 0 {
            return None;
        }
        let target: ElemType = targets[rng.index(targets.len())];
        let case: OnnxCase = build_cast(op, opset, elem, target, bounds, rng);
        proof {
            lemma_generated_cases_are_valid(case@, op, elem, *bounds);
            lemma_generated_cases_keep_the_budget(case@, op, elem, *bounds);
        }
        return Some(case);
    }
    let case: OnnxCase = build(op, spec.family, opset, elem, bounds, rng);
    proof {
        lemma_generated_cases_are_valid(case@, op, elem, *bounds);
        lemma_generated_cases_keep_the_budget(case@, op, elem, *bounds);
    }
    Some(case)
}

// ---- laws ----

proof fn lemma_letters()
    ensures
        "a"@ != "b"@,
        "a"@ != "c"@,
        "b"@ != "c"@,
        "a"@ != "scale"@,
        "a"@ != "zero_point"@,
        "scale"@ != "zero_point"@,
        "a"@ != "a_zero_point"@,
        "a"@ != "b_zero_point"@,
        "b"@ != "a_zero_point"@,
        "b"@ != "b_zero_point"@,
        "a_zero_point"@ != "b_zero_point"@,
{
    reveal_strlit("a");
    reveal_strlit("b");
    reveal_strlit("c");
    reveal_strlit("scale");
    reveal_strlit("zero_point");
    reveal_strlit("a_zero_point");
    reveal_strlit("b_zero_point");
    assert("a"@[0] == 'a' && "b"@[0] == 'b' && "c"@[0] == 'c');
    assert("scale"@[0] == 's' && "zero_point"@[0] == 'z');
    assert("a_zero_point"@[0] == 'a' && "b_zero_point"@[0] == 'b');
    assert("a"@.len() == 1 && "b"@.len() == 1 && "a_zero_point"@.len() == 12
        && "b_zero_point"@.len() == 12);
}

proof fn lemma_nonnegative_shape(dims: Seq<i64>, b: Bounds, min_rank: nat, allow_zero: bool)
    requires
        shape_within(dims, b, min_rank, allow_zero),
    ensures
        !any_negative(dims),
{
}

proof fn lemma_lookup_single(name: Seq<char>, value: AttrModel)
    ensures
        lookup(seq![(name, value)], name) == Some(value),
{
}

proof fn lemma_lookup_nothing(name: Seq<char>)
    ensures
        lookup(Seq::<(Seq<char>, AttrModel)>::empty(), name) is None,
{
}

proof fn lemma_plain_families_are_valid(c: CaseModel, op: OpKind, elem: ElemType, b: Bounds)
    requires
        generated(c, op, elem, b),
        op.admits(elem, b.opset),
        op.family() == Family::UnaryElementwise || op.family() == Family::Shape || op.family()
            == Family::Size || op.family() == Family::BinaryElementwise || op.family()
            == Family::Comparison || op.family() == Family::Select,
    ensures
        valid(c),
{
    lemma_letters();
    lemma_nonnegative_shape(c.inputs[0].dims, b, 0, b.degenerate_shapes);
    assert(extents_hold(c));
    assert(lengths_hold(c));
    assert(names_hold(c));
    assert(agreement_holds(c));
    assert forall|p: Problem| #[trigger] free_of(c, p) by {}
}

proof fn lemma_cast_is_valid(c: CaseModel, elem: ElemType, b: Bounds)
    requires
        generated(c, OpKind::Cast, elem, b),
        OpKind::Cast.admits(elem, b.opset),
    ensures
        valid(c),
{
    let target = choose|target: ElemType| #[trigger] cast_case_to(c, elem, b, target);
    lemma_nonnegative_shape(c.inputs[0].dims, b, 0, b.degenerate_shapes);
    lemma_lookup_single("to"@, AttrModel::Int(target.wire_number() as i64));
    lemma_wire_round_trip(target);
    assert(extents_hold(c));
    assert(lengths_hold(c));
    assert(target_holds(c.attrs));
    assert forall|p: Problem| #[trigger] free_of(c, p) by {}
}

proof fn lemma_transpose_is_valid(c: CaseModel, elem: ElemType, b: Bounds)
    requires
        generated(c, OpKind::Transpose, elem, b),
        OpKind::Transpose.admits(elem, b.opset),
    ensures
        valid(c),
{
    let perm = choose|perm: Seq<i64>| #[trigger] transpose_case_by(c, elem, b, perm);
    lemma_nonnegative_shape(c.inputs[0].dims, b, 1, b.degenerate_shapes);
    lemma_lookup_single("perm"@, AttrModel::Ints(perm));
    assert(extents_hold(c));
    assert(lengths_hold(c));
    assert forall|p: Problem| #[trigger] free_of(c, p) by {}
}

proof fn lemma_concat_is_valid(c: CaseModel, elem: ElemType, b: Bounds)
    requires
        generated(c, OpKind::Concat, elem, b),
        OpKind::Concat.admits(elem, b.opset),
        usable(b),
    ensures
        valid(c),
{
    let axis = choose|axis: int| #[trigger] concat_case_along(c, elem, b, axis);
    lemma_lookup_single("axis"@, AttrModel::Int(axis as i64));
    assert(c.inputs[0].dims == c.inputs[0].dims);
    assert(extents_hold(c));
    assert(lengths_hold(c));
    assert forall|i: int, j: int| 0 <= i < j < c.inputs.len() implies (#[trigger] c.inputs[i]).name
        != (#[trigger] c.inputs[j]).name by {
        assert(input_name_text(i as nat)[0] == (97 + i) as char);
        assert(input_name_text(j as nat)[0] == (97 + j) as char);
    }
    assert(agreement_holds(c));
    assert(concat_holds(c));
    assert forall|p: Problem| #[trigger] free_of(c, p) by {}
}

proof fn lemma_gather_is_valid(c: CaseModel, elem: ElemType, b: Bounds)
    requires
        generated(c, OpKind::Gather, elem, b),
        OpKind::Gather.admits(elem, b.opset),
    ensures
        valid(c),
{
    let (axis, indices) = choose|axis: int, indices: Seq<i64>| #[trigger]
        gather_case_along(c, elem, b, axis, indices);
    lemma_letters();
    lemma_nonnegative_shape(c.inputs[0].dims, b, 1, false);
    lemma_lookup_single("axis"@, AttrModel::Int(axis as i64));
    lemma_product_one(indices.len() as i64);
    assert(extents_hold(c));
    assert(lengths_hold(c));
    assert(integers_at(c, 1) == indices);
    assert(gather_holds(c)) by {
        assert forall|k: int|
            #![trigger integers_at(c, 1)[k]]
            0 <= k < integers_at(c, 1).len() implies -c.inputs[0].dims[axis] <= integers_at(
            c,
            1,
        )[k] < c.inputs[0].dims[axis] by {
            assert(0 <= indices[k] < c.inputs[0].dims[axis]);
        }
    }
    assert forall|p: Problem| #[trigger] free_of(c, p) by {}
}

proof fn lemma_reshape_is_valid(c: CaseModel, elem: ElemType, b: Bounds)
    requires
        generated(c, OpKind::Reshape, elem, b),
        OpKind::Reshape.admits(elem, b.opset),
    ensures
        valid(c),
{
    let target = choose|target: Seq<i64>| #[trigger] reshape_case_to(c, elem, b, target);
    lemma_letters();
    lemma_nonnegative_shape(c.inputs[0].dims, b, 0, b.degenerate_shapes);
    lemma_lookup_single("allowzero"@, AttrModel::Int(1));
    lemma_lookup_nothing("allowzero"@);
    lemma_product_one(target.len() as i64);
    assert(output_dims(c) =~= target) by {
        if !target.contains(0i64) {
            assert forall|i: int| 0 <= i < target.len() implies target[i] != 0 by {}
        }
    }
    assert(extents_hold(c));
    assert(lengths_hold(c));
    assert(reshape_holds(c));
    assert forall|p: Problem| #[trigger] free_of(c, p) by {}
}

proof fn lemma_axis_families_are_valid(c: CaseModel, op: OpKind, elem: ElemType, b: Bounds)
    requires
        generated(c, op, elem, b),
        op.admits(elem, b.opset),
        op.family() == Family::Squeeze || op.family() == Family::Unsqueeze || op.family()
            == Family::Slice,
    ensures
        valid(c),
{
    lemma_letters();
    lemma_product_one(1);
    if op.family() == Family::Squeeze {
        let axis = choose|axis: int| #[trigger] squeeze_case_at(c, elem, b, axis);
        lemma_nonnegative_shape(c.inputs[0].dims, b, 1, false);
        assert(integers_at(c, 1) =~= seq![axis as i64]);
        assert(squeeze_holds(c));
    } else if op.family() == Family::Unsqueeze {
        let axis = choose|axis: int| #[trigger] unsqueeze_case_at(c, elem, b, axis);
        lemma_nonnegative_shape(c.inputs[0].dims, b, 0, b.degenerate_shapes);
        assert(integers_at(c, 1) =~= seq![axis as i64]);
        assert(unsqueeze_holds(c));
    } else {
        let (start, end) = choose|start: i64, end: i64| #[trigger]
            slice_case_of(c, elem, b, start, end);
        lemma_nonnegative_shape(c.inputs[0].dims, b, 1, false);
        assert(integers_at(c, 1) =~= seq![start]);
        assert(integers_at(c, 2) =~= seq![end]);
        assert(slice_holds(c));
    }
    assert(extents_hold(c));
    assert(lengths_hold(c));
    assert forall|p: Problem| #[trigger] free_of(c, p) by {}
}

proof fn lemma_pad_is_valid(c: CaseModel, elem: ElemType, b: Bounds)
    requires
        generated(c, OpKind::Pad, elem, b),
        OpKind::Pad.admits(elem, b.opset),
    ensures
        valid(c),
{
    let pads = choose|pads: Seq<i64>| #[trigger] pad_case_by(c, elem, b, pads);
    lemma_letters();
    lemma_nonnegative_shape(c.inputs[0].dims, b, 1, b.degenerate_shapes);
    lemma_product_one(pads.len() as i64);
    assert(integers_at(c, 1) == pads);
    assert(extents_hold(c));
    assert(lengths_hold(c));
    assert(pad_holds(c));
    assert forall|p: Problem| #[trigger] free_of(c, p) by {}
}

proof fn lemma_quantized_families_are_valid(c: CaseModel, op: OpKind, elem: ElemType, b: Bounds)
    requires
        generated(c, op, elem, b),
        op.admits(elem, b.opset),
        op.family() == Family::Quantize || op.family() == Family::Dequantize || op.family()
            == Family::MatMulInteger || op.family() == Family::DynamicQuantize,
    ensures
        valid(c),
{
    lemma_letters();
    assert(product(Seq::<i64>::empty()) == 1);
    if op.family() == Family::MatMulInteger {
        let (m, k, n) = choose|m: i64, k: i64, n: i64| #[trigger]
            matmul_case_of(c, elem, b, m, k, n);
        assert(c.inputs[0].dims =~= seq![m, k]);
        assert(c.inputs[1].dims =~= seq![k, n]);
        assert(matmul_holds(c));
    } else if op.family() == Family::DynamicQuantize {
        lemma_nonnegative_shape(c.inputs[0].dims, b, 1, false);
    } else {
        lemma_nonnegative_shape(c.inputs[0].dims, b, 0, b.degenerate_shapes);
    }
    assert(extents_hold(c));
    assert(lengths_hold(c));
    assert(names_hold(c));
    assert(parameters_hold(c));
    assert forall|p: Problem| #[trigger] free_of(c, p) by {}
}

/// Every case that is generated is legal.
pub proof fn lemma_generated_cases_are_valid(c: CaseModel, op: OpKind, elem: ElemType, b: Bounds)
    requires
        generated(c, op, elem, b),
        op.admits(elem, b.opset),
        usable(b),
    ensures
        valid(c),
{
    match op.family() {
        Family::UnaryElementwise
        | Family::Shape
        | Family::Size
        | Family::BinaryElementwise
        | Family::Comparison
        | Family::Select => lemma_plain_families_are_valid(c, op, elem, b),
        Family::Cast => lemma_cast_is_valid(c, elem, b),
        Family::Transpose => lemma_transpose_is_valid(c, elem, b),
        Family::Concat => lemma_concat_is_valid(c, elem, b),
        Family::Gather => lemma_gather_is_valid(c, elem, b),
        Family::Reshape => lemma_reshape_is_valid(c, elem, b),
        Family::Squeeze | Family::Unsqueeze | Family::Slice => lemma_axis_families_are_valid(
            c,
            op,
            elem,
            b,
        ),
        Family::Pad => lemma_pad_is_valid(c, elem, b),
        Family::Quantize
        | Family::Dequantize
        | Family::MatMulInteger
        | Family::DynamicQuantize => lemma_quantized_families_are_valid(c, op, elem, b),
    }
}

/// What a case works on keeps the budget of elements, whatever the operator.
pub proof fn lemma_generated_cases_keep_the_budget(c: CaseModel, op: OpKind, elem: ElemType, b: Bounds)
    requires
        generated(c, op, elem, b),
    ensures
        c.inputs.len() > 0,
        product(c.inputs[0].dims) <= budget(b),
        b.element_budget >= 1 ==> product(c.inputs[0].dims) <= b.element_budget,
        op.family() == Family::MatMulInteger ==> product(c.inputs[1].dims) <= budget(b),
{
    if op.family() == Family::MatMulInteger {
        let (m, k, n) = choose|m: i64, k: i64, n: i64| #[trigger]
            matmul_case_of(c, elem, b, m, k, n);
        crate::validation::lemma_product_two(m, k);
        crate::validation::lemma_product_two(k, n);
    }
}

/// A value for which an operator's definition leaves the answer open is never generated for it, in
/// single or in double precision.
pub proof fn lemma_open_values_are_not_generated(
    c: CaseModel,
    op: OpKind,
    elem: ElemType,
    b: Bounds,
    i: int,
    k: int,
)
    requires
        generated(c, op, elem, b),
        0 <= i < c.inputs.len(),
        0 <= k < c.inputs[i].data.len(),
    ensures
        !excludes(undetermined(op), c.inputs[i].data, k),
{
    if op == OpKind::Max || op == OpKind::Min || op == OpKind::Sign {
        if b.special_values {
            lemma_open_values_are_not_drawn(c.inputs[i].data, undetermined(op), k);
        } else {
            match c.inputs[i].data {
                DataModel::F32(v) => {
                    assert(single_between(v[k], -REACH, REACH as int));
                    lemma_grid_values_are_tame(v[k], -REACH, REACH as int);
                },
                DataModel::F64(v) => {
                    assert(double_between(v[k], -REACH, REACH as int));
                    lemma_grid_doubles_are_tame(v[k], -REACH, REACH as int);
                },
                _ => {},
            }
        }
    }
}

/// Whether an integer division by a value leaves the answer open, or may leave the type's range.
pub open spec fn open_divisor(d: DataModel, k: int) -> bool {
    match d {
        DataModel::I32(v) => v[k] == 0 || v[k] == -1,
        DataModel::I64(v) => v[k] == 0 || v[k] == -1,
        _ => false,
    }
}

/// An integer division is never generated with a divisor for which the answer is left open.
pub proof fn lemma_open_quotients_are_not_generated(
    c: CaseModel,
    elem: ElemType,
    b: Bounds,
    k: int,
)
    requires
        generated(c, OpKind::Div, elem, b),
        0 <= k < c.inputs[1].data.len(),
    ensures
        !open_divisor(c.inputs[1].data, k),
{
    match c.inputs[1].data {
        DataModel::I32(v) => {
            assert(divides(v[k] as int));
        },
        DataModel::I64(v) => {
            assert(divides(v[k] as int));
        },
        _ => {},
    }
}

/// Arranged values make a dynamic quantizer derive exactly the scale that they were arranged for:
/// their ends are 255 levels of it apart, and zero lies strictly between them.
pub proof fn lemma_arranged_values_fix_the_scale(
    v: Seq<u32>,
    levels: Seq<i64>,
    exponent: int,
    below: int,
)
    requires
        arranged(v, levels, exponent, below),
    ensures
        v.contains(level_at(-256 * below, exponent)),
        v.contains(level_at(256 * (255 - below), exponent)),
        256 * (255 - below) - (-256 * below) == 255 * 256,
        -256 * below < 0 < 256 * (255 - below),
{
    let i = choose|i: int| 0 <= i < levels.len() && levels[i] == (-256 * below) as i64;
    let j = choose|j: int| 0 <= j < levels.len() && levels[j] == (256 * (255 - below)) as i64;
    assert(v[i] == level_at(-256 * below, exponent));
    assert(v[j] == level_at(256 * (255 - below), exponent));
}

} // verus!
