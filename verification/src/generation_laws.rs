//! What is drawn and what is not: the values of the patterns, the special values, and what a
//! configuration lets through.

use vstd::prelude::*;
use vstd::arithmetic::power2::{lemma_pow2_unfold, pow2};

use crate::attrs::{lookup, AttrModel};
use crate::bits::{f32_exact, f64_exact, lemma_f32_exact_fields, lemma_f64_exact_fields};
use crate::bits::{lemma_top_bit_below, lemma_two_to, lemma_two_to_adds, top_bit, two_to};
use crate::case::{product, CaseModel, DataModel, ElemType, InputRole, OpKind};
use crate::evidence_laws::concerns;
use crate::gen_case::{can_generate, has_target};
use crate::gen_case::{cast_case_to, concat_case_along, drawn_data, drawn_opset, gather_case_along};
use crate::gen_case::{generated, pad_case_by, reshape_case_to, slice_case_of, squeeze_case_at};
use crate::gen_case::{level_at, tie_at, transpose_case_by, unsqueeze_case_at, POWERS_OF_TWO};
use crate::gen_shape::{default_bounds, power, Bounds};
use crate::gen_value::{declined, double_pool, single_pool, Excluded};
use crate::gen_value::{cast_data, divides, integer_pool, only_special, ordinary_data};
use crate::gen_value::{double_at, single_at, single_between, undetermined, CAST_SAFE_F32, CAST_SAFE_F64};
use crate::gen_value::{REACH, SPECIAL_F32, SPECIAL_F64, SPECIAL_I64};
use crate::shapes::shape_within;
use crate::validation_laws::list_of;

verus! {

// ---- patterns ----

proof fn lemma_powers(k: nat)
    ensures
        two_to(k) == pow2(k),
    decreases k,
{
    if k > 0 {
        lemma_powers((k - 1) as nat);
        lemma_pow2_unfold(k);
    } else {
        vstd::arithmetic::power2::lemma2_to64();
    }
}

/// The pattern of a number `m` times a power of two holds that number: its significand, with the
/// hidden bit, is `m` times a power of two that its exponent takes back, and its sign is set where
/// the number is negative.
pub proof fn lemma_a_pattern_holds_its_number(negative: bool, m: nat, e: int)
    requires
        0 < m < 0x100_0000,
        1 <= 127 + top_bit(m) + e <= 254,
    ensures
        ({
            let b = f32_exact(negative, m, e) as int;
            let exponent = (b / 0x80_0000) % 0x100;
            let significand = 0x80_0000 + b % 0x80_0000;
            &&& (b >= 0x8000_0000) == negative
            &&& 150 + e - exponent >= 0
            &&& significand == m * pow2((150 + e - exponent) as nat)
        }),
{
    lemma_f32_exact_fields(negative, m, e);
    let h = top_bit(m);
    let up = (23 - h) as nat;
    lemma_powers(up);
    let b = f32_exact(negative, m, e) as int;
    let low = m * two_to(up) - 0x80_0000;
    let field = 127 + h + e;
    let magnitude = field * 0x80_0000 + low;
    assert(0 <= low < 0x80_0000);
    assert(b == magnitude || b == magnitude + 0x8000_0000);
    assert((b / 0x80_0000) % 0x100 == field);
    assert(b % 0x80_0000 == low);
    assert(150 + e - field == up);
}

/// The double-precision pattern of a number `m` times a power of two holds that number too.
pub proof fn lemma_a_double_holds_its_number(negative: bool, m: nat, e: int)
    requires
        0 < m < 0x100_0000,
        1 <= 1023 + top_bit(m) + e <= 2046,
    ensures
        ({
            let b = f64_exact(negative, m, e) as int;
            let exponent = (b / 0x10_0000_0000_0000) % 0x800;
            let significand = 0x10_0000_0000_0000 + b % 0x10_0000_0000_0000;
            &&& (b >= 0x8000_0000_0000_0000) == negative
            &&& 1075 + e - exponent >= 0
            &&& significand == m * pow2((1075 + e - exponent) as nat)
        }),
{
    lemma_f64_exact_fields(m, e);
    lemma_two_to();
    let h = top_bit(m);
    let up = (52 - h) as nat;
    lemma_powers(up);
    lemma_two_to_adds(h, up);
    let b = f64_exact(negative, m, e) as int;
    let low = (m - two_to(h)) * two_to(up);
    assert(low == m * two_to(up) - two_to(h) * two_to(up)) by (nonlinear_arith)
        requires
            low == (m - two_to(h)) * two_to(up),
    ;
    assert(h + up == 52);
    let field = 1023 + h + e;
    let magnitude = field * 0x10_0000_0000_0000 + low;
    assert(0 <= low < 0x10_0000_0000_0000);
    assert(b == magnitude || b == magnitude + 0x8000_0000_0000_0000);
    assert((b / 0x10_0000_0000_0000) % 0x800 == field);
    assert(b % 0x10_0000_0000_0000 == low);
    assert(1075 + e - field == up);
}

/// An ordinary value is the same number of steps in double precision.
pub proof fn lemma_ordinary_doubles_are_steps(q: int)
    requires
        -6553600 <= q <= 6553600,
    ensures
        ({
            let b = double_at(q) as int;
            let exponent = (b / 0x10_0000_0000_0000) % 0x800;
            let significand = 0x10_0000_0000_0000 + b % 0x10_0000_0000_0000;
            &&& q == 0 ==> b == 0
            &&& q != 0 ==> {
                &&& (b >= 0x8000_0000_0000_0000) == (q < 0)
                &&& exponent <= 1059
                &&& significand == (if q < 0 {
                    -q
                } else {
                    q
                }) * pow2((1059 - exponent) as nat)
            }
        }),
{
    let m = (if q < 0 { -q } else { q }) as nat;
    if m > 0 {
        lemma_two_to();
        lemma_top_bit_below(m, 24);
        lemma_a_double_holds_its_number(q < 0, m, -16);
    }
}

/// An ordinary value is some number of steps of a 65536th: the pattern that is drawn for `q` steps
/// holds `q` of them, and is no further from zero than a hundred.
pub proof fn lemma_ordinary_values_are_steps(q: int)
    requires
        -6553600 <= q <= 6553600,
    ensures
        ({
            let b = single_at(q) as int;
            let exponent = (b / 0x80_0000) % 0x100;
            let significand = 0x80_0000 + b % 0x80_0000;
            &&& q == 0 ==> b == 0
            &&& q != 0 ==> {
                &&& (b >= 0x8000_0000) == (q < 0)
                &&& exponent <= 134
                &&& significand == (if q < 0 {
                    -q
                } else {
                    q
                }) * pow2((134 - exponent) as nat)
            }
            &&& b % 0x8000_0000 <= 0x42c8_0000
        }),
{
    let m = (if q < 0 { -q } else { q }) as nat;
    if m > 0 {
        lemma_two_to();
        lemma_top_bit_below(m, 24);
        lemma_a_pattern_holds_its_number(q < 0, m, -16);
        lemma_f32_exact_fields(q < 0, m, -16);
        let h = top_bit(m);
        crate::bits::lemma_top_bit(m);
        if h >= 23 {
            crate::bits::lemma_two_to_increases(23, h);
        }
        reveal_with_fuel(two_to, 2);
        let b = single_at(q) as int;
        let magnitude = (111 + h) * 0x80_0000 + (m * two_to((23 - h) as nat) - 0x80_0000);
        assert(b == magnitude || b == magnitude + 0x8000_0000);
        if h == 22 {
            assert(two_to(1) == 2);
            assert(m * two_to(1) == 2 * m) by (nonlinear_arith)
                requires
                    two_to(1) == 2,
            ;
        }
        assert(magnitude <= 0x42c8_0000);
    }
}

/// Ordinary data are numbers within a hundred of zero: no infinity, nothing undefined, and no
/// minus zero.
pub proof fn lemma_ordinary_data_are_modest(d: DataModel, k: int)
    requires
        ordinary_data(d),
        0 <= k < d.len(),
    ensures
        match d {
            DataModel::F32(v) => v[k] as int % 0x8000_0000 <= 0x42c8_0000 && v[k] != 0x8000_0000u32,
            DataModel::I32(v) => -100 <= v[k] <= 99,
            DataModel::I64(v) => -100 <= v[k] <= 99,
            DataModel::I8(v) => -100 <= v[k] <= 99,
            DataModel::U8(v) => 0 <= v[k] <= 99,
            _ => true,
        },
{
    match d {
        DataModel::F32(v) => {
            assert(single_between(v[k], -REACH, REACH as int));
            let q = choose|q: int| -REACH <= q < REACH && v[k] == #[trigger] single_at(q);
            lemma_ordinary_values_are_steps(q);
            crate::gen_value::lemma_grid_values_are_tame(v[k], -REACH, REACH as int);
        },
        _ => {},
    }
}

/// A tie is an odd number of halves of its scale, a power of two.
pub proof fn lemma_ties_are_odd_halves(n: int, exponent: int)
    requires
        -60 <= n < 60,
        -100 <= exponent <= 100,
    ensures
        ({
            let b = tie_at(n, exponent) as int;
            let field = (b / 0x80_0000) % 0x100;
            let odd = if n < 0 {
                -(2 * n + 1)
            } else {
                2 * n + 1
            };
            &&& (b >= 0x8000_0000) == (n < 0)
            &&& 149 + exponent - field >= 0
            &&& 0x80_0000 + b % 0x80_0000 == odd * pow2((149 + exponent - field) as nat)
        }),
{
    let odd = (if n < 0 { -(2 * n + 1) } else { 2 * n + 1 }) as nat;
    lemma_two_to();
    lemma_top_bit_below(odd, 7);
    lemma_a_pattern_holds_its_number(n < 0, odd, exponent - 1);
}

/// A step of an arranged value is a 256th of its scale, a power of two.
pub proof fn lemma_levels_are_parts_of_the_scale(j: int, exponent: int)
    requires
        j != 0,
        -0x1_0000 <= j <= 0x1_0000,
        -6 <= exponent <= 1,
    ensures
        ({
            let b = level_at(j, exponent) as int;
            let field = (b / 0x80_0000) % 0x100;
            &&& (b >= 0x8000_0000) == (j < 0)
            &&& 142 + exponent - field >= 0
            &&& 0x80_0000 + b % 0x80_0000 == (if j < 0 {
                -j
            } else {
                j
            }) * pow2((142 + exponent - field) as nat)
        }),
{
    let m = (if j < 0 { -j } else { j }) as nat;
    lemma_two_to();
    lemma_top_bit_below(m, 23);
    lemma_a_pattern_holds_its_number(j < 0, m, exponent - 8);
}

/// The scales that are powers of two have no fraction, and run from a 256th to four.
pub proof fn lemma_scales_that_are_powers_of_two(s: u32)
    requires
        POWERS_OF_TWO@.contains(s),
    ensures
        s % 0x80_0000 == 0,
        127 - 8 <= s / 0x80_0000 <= 127 + 2,
{
    let i = choose|i: int| 0 <= i < POWERS_OF_TWO@.len() && POWERS_OF_TWO@[i] == s;
    assert(i == 0 || i == 1 || i == 2 || i == 3 || i == 4 || i == 5 || i == 6 || i == 7);
}

// ---- special values ----

/// A special value is a zero, a one, an infinity, the undefined value, the least normal number or
/// the greatest number, of either sign where it has one.
pub proof fn lemma_the_special_singles(b: u32)
    ensures
        SPECIAL_F32@.contains(b) <==> b == 0x0000_0000 || b == 0x8000_0000 || b == 0x3f80_0000 || b
            == 0xbf80_0000 || b == 0x7f80_0000 || b == 0xff80_0000 || b == 0x7fc0_0000 || b
            == 0x0080_0000 || b == 0x7f7f_ffff || b == 0xff7f_ffff,
{
    assert(SPECIAL_F32@[0] == 0x0000_0000u32 && SPECIAL_F32@[1] == 0x8000_0000u32 && SPECIAL_F32@[2]
        == 0x3f80_0000u32 && SPECIAL_F32@[3] == 0xbf80_0000u32 && SPECIAL_F32@[4] == 0x7f80_0000u32
        && SPECIAL_F32@[5] == 0xff80_0000u32 && SPECIAL_F32@[6] == 0x7fc0_0000u32 && SPECIAL_F32@[7]
        == 0x0080_0000u32 && SPECIAL_F32@[8] == 0x7f7f_ffffu32 && SPECIAL_F32@[9]
        == 0xff7f_ffffu32);
}

/// Whether a double-precision pattern holds what a single-precision one does: the same sign, zero
/// for zero, an exponent of ones for one of ones, and otherwise the same exponent once the biases
/// are taken off, with the fraction carried to the front.
pub open spec fn holds_the_same(single: int, double: int) -> bool {
    let (e, f) = ((single / 0x80_0000) % 0x100, single % 0x80_0000);
    let (g, h) = ((double / 0x10_0000_0000_0000) % 0x800, double % 0x10_0000_0000_0000);
    &&& single / 0x8000_0000 == double / 0x8000_0000_0000_0000
    &&& h == f * 0x2000_0000
    &&& if e == 0 {
        f == 0 && g == 0
    } else if e == 0xff {
        g == 0x7ff
    } else {
        g - 1023 == e - 127
    }
}

/// The special values of double precision are those of single precision.
pub proof fn lemma_the_special_doubles(i: int)
    ensures
        0 <= i < 10 ==> holds_the_same(SPECIAL_F32@[i] as int, SPECIAL_F64@[i] as int),
        0 <= i < 5 ==> holds_the_same(CAST_SAFE_F32@[i] as int, CAST_SAFE_F64@[i] as int),
{
    lemma_the_special_singles(0);
    assert(SPECIAL_F64@[0] == 0x0000_0000_0000_0000u64 && SPECIAL_F64@[1]
        == 0x8000_0000_0000_0000u64 && SPECIAL_F64@[2] == 0x3ff0_0000_0000_0000u64 && SPECIAL_F64@[3]
        == 0xbff0_0000_0000_0000u64 && SPECIAL_F64@[4] == 0x7ff0_0000_0000_0000u64 && SPECIAL_F64@[5]
        == 0xfff0_0000_0000_0000u64 && SPECIAL_F64@[6] == 0x7ff8_0000_0000_0000u64 && SPECIAL_F64@[7]
        == 0x3810_0000_0000_0000u64 && SPECIAL_F64@[8] == 0x47ef_ffff_e000_0000u64 && SPECIAL_F64@[9]
        == 0xc7ef_ffff_e000_0000u64);
    assert(SPECIAL_F32@[0] == 0x0000_0000u32 && SPECIAL_F32@[1] == 0x8000_0000u32 && SPECIAL_F32@[2]
        == 0x3f80_0000u32 && SPECIAL_F32@[3] == 0xbf80_0000u32 && SPECIAL_F32@[4] == 0x7f80_0000u32
        && SPECIAL_F32@[5] == 0xff80_0000u32 && SPECIAL_F32@[6] == 0x7fc0_0000u32 && SPECIAL_F32@[7]
        == 0x0080_0000u32 && SPECIAL_F32@[8] == 0x7f7f_ffffu32 && SPECIAL_F32@[9]
        == 0xff7f_ffffu32);
    assert(CAST_SAFE_F32@[0] == 0x0000_0000u32 && CAST_SAFE_F32@[1] == 0x8000_0000u32
        && CAST_SAFE_F32@[2] == 0x3f80_0000u32 && CAST_SAFE_F32@[3] == 0x0080_0000u32
        && CAST_SAFE_F32@[4] == 0xbf80_0000u32);
    assert(CAST_SAFE_F64@[0] == 0x0000_0000_0000_0000u64 && CAST_SAFE_F64@[1]
        == 0x8000_0000_0000_0000u64 && CAST_SAFE_F64@[2] == 0x3ff0_0000_0000_0000u64
        && CAST_SAFE_F64@[3] == 0x3810_0000_0000_0000u64 && CAST_SAFE_F64@[4]
        == 0xbff0_0000_0000_0000u64);
}

/// The special values that may be drawn for an operator are all but those that are kept from it.
pub proof fn lemma_special_values_that_may_be_drawn(ex: Excluded, b: u32, d: u64)
    ensures
        single_pool(ex).contains(b) <==> SPECIAL_F32@.contains(b) && !(ex.nan && b == 0x7fc0_0000)
            && !(ex.negative_zero && b == 0x8000_0000),
        double_pool(ex).contains(d) <==> SPECIAL_F64@.contains(d) && !(ex.nan && d
            == 0x7ff8_0000_0000_0000) && !(ex.negative_zero && d == 0x8000_0000_0000_0000),
{
    lemma_the_special_singles(b);
    let f = |b: u32| !crate::gen_value::excludes_single(ex, b);
    let g = |b: u64| !crate::gen_value::excludes_double(ex, b);
    if SPECIAL_F32@.contains(b) && f(b) {
        let i = choose|i: int| 0 <= i < SPECIAL_F32@.len() && SPECIAL_F32@[i] == b;
        SPECIAL_F32@.lemma_filter_contains(f, i);
    }
    if single_pool(ex).contains(b) {
        let i = choose|i: int| 0 <= i < single_pool(ex).len() && single_pool(ex)[i] == b;
        SPECIAL_F32@.lemma_filter_pred(f, i);
        SPECIAL_F32@.lemma_filter_contains_rev(f, b);
    }
    if SPECIAL_F64@.contains(d) {
        let i = choose|i: int| 0 <= i < SPECIAL_F64@.len() && SPECIAL_F64@[i] == d;
        assert(0 <= i < 10);
        assert(SPECIAL_F64@[0] == 0x0000_0000_0000_0000u64 && SPECIAL_F64@[1]
            == 0x8000_0000_0000_0000u64 && SPECIAL_F64@[2] == 0x3ff0_0000_0000_0000u64
            && SPECIAL_F64@[3] == 0xbff0_0000_0000_0000u64 && SPECIAL_F64@[4]
            == 0x7ff0_0000_0000_0000u64 && SPECIAL_F64@[5] == 0xfff0_0000_0000_0000u64
            && SPECIAL_F64@[6] == 0x7ff8_0000_0000_0000u64 && SPECIAL_F64@[7]
            == 0x3810_0000_0000_0000u64 && SPECIAL_F64@[8] == 0x47ef_ffff_e000_0000u64
            && SPECIAL_F64@[9] == 0xc7ef_ffff_e000_0000u64);
        if g(d) {
            SPECIAL_F64@.lemma_filter_contains(g, i);
        }
    }
    if double_pool(ex).contains(d) {
        let i = choose|i: int| 0 <= i < double_pool(ex).len() && double_pool(ex)[i] == d;
        SPECIAL_F64@.lemma_filter_pred(g, i);
        SPECIAL_F64@.lemma_filter_contains_rev(g, d);
    }
}

/// Ordinary numbers do not repeat while there are a hundred of them at most.
pub proof fn lemma_ordinary_numbers_do_not_repeat(
    d: DataModel,
    op: OpKind,
    b: Bounds,
    i: int,
    j: int,
)
    requires
        drawn_data(d, op, b),
        !b.special_values || b.special_value_rate == 0,
        !(d is Bool),
        0 <= i < j < d.len() <= 100,
    ensures
        d.bits(i) != d.bits(j),
{
    match d {
        DataModel::I32(v) => {
            assert(v[i] != v[j]);
        },
        DataModel::I64(v) => {
            assert(v[i] != v[j]);
        },
        DataModel::I8(v) => {
            assert(v[i] != v[j]);
        },
        DataModel::F32(v) => {
            assert(v[i] != v[j]);
        },
        DataModel::F64(v) => {
            assert(v[i] != v[j]);
        },
        DataModel::U8(v) => {
            assert(v[i] != v[j]);
        },
        _ => {},
    }
}

/// A dividend whose quotient would overflow gives way to the next greater number.
pub proof fn lemma_declined_dividends_give_way(a: Seq<i32>, b: Seq<i32>, k: int)
    requires
        0 <= k < a.len(),
        k < b.len(),
    ensures
        declined(DataModel::I32(a), DataModel::I32(b))->I32_0[k] == (if a[k] == -0x8000_0000int
            && b[k] == -1 {
            a[k] + 1
        } else {
            a[k] as int
        }),
{
}

/// A dividend of eight bytes gives way in the same way.
pub proof fn lemma_declined_wide_dividends_give_way(a: Seq<i64>, b: Seq<i64>, k: int)
    requires
        0 <= k < a.len(),
        k < b.len(),
    ensures
        declined(DataModel::I64(a), DataModel::I64(b))->I64_0[k] == (if a[k]
            == -0x8000_0000_0000_0000int && b[k] == -1 {
            a[k] + 1
        } else {
            a[k] as int
        }),
{
}

/// The special integers of a type are its two ends, zero, one and minus one, and the ends of the
/// four byte type, as far as they are in its range.
pub proof fn lemma_the_special_integers(low: int, high: int, n: int)
    requires
        i64::MIN <= low <= 0,
        1 <= high <= i64::MAX,
    ensures
        exists|j: int| 0 <= j < 7 && integer_pool(low, high)[j] == low,
        exists|j: int| 0 <= j < 7 && integer_pool(low, high)[j] == high,
        exists|j: int| 0 <= j < 7 && integer_pool(low, high)[j] == 0,
        exists|j: int| 0 <= j < 7 && integer_pool(low, high)[j] == 1,
        integer_pool(low, high).len() == 7,
        forall|j: int| 0 <= j < 7 ==> low <= #[trigger] integer_pool(low, high)[j] <= high,
        low < 0 ==> exists|j: int| 0 <= j < 7 && integer_pool(low, high)[j] == -1,
{
    let p = integer_pool(low, high);
    assert(SPECIAL_I64[0] == 0 && SPECIAL_I64[1] == 1 && SPECIAL_I64[2] == -1 && SPECIAL_I64[3]
        == i64::MAX && SPECIAL_I64[4] == i64::MIN);
    assert(p[0] == 0 && p[1] == 1 && p[3] == high && p[4] == low);
    if low < 0 {
        assert(p[2] == -1);
    }
}

/// What is kept from an operator is what the catalog of legal differences says of it: undefined
/// values from those whose answer to them is open, and minus zero from those that may lose its
/// sign.
pub proof fn lemma_what_is_open_is_kept_away(op: OpKind)
    ensures
        undetermined(op).nan <==> concerns("max-min-nan"@, op) || concerns("sign-of-nan"@, op),
        undetermined(op).negative_zero <==> concerns("max-min-signed-zero"@, op),
{
    reveal_strlit("max-min-nan");
    reveal_strlit("sign-of-nan");
    reveal_strlit("max-min-signed-zero");
    reveal_strlit("integer-division-by-zero");
    reveal_strlit("integer-division-overflow");
    assert("max-min-nan"@.len() == 11 && "sign-of-nan"@.len() == 11 && "max-min-signed-zero"@.len()
        == 19 && "integer-division-by-zero"@.len() == 24 && "integer-division-overflow"@.len()
        == 25);
    assert("max-min-nan"@[0] == 'm' && "sign-of-nan"@[0] == 's');
}

/// What is converted to an integer type is in its range: within a hundred of zero, and for the
/// unsigned type not below zero.
pub proof fn lemma_conversions_stay_in_range(v: Seq<u32>, target: ElemType, k: int)
    requires
        cast_data(DataModel::F32(v), target),
        0 <= k < v.len(),
    ensures
        v[k] as int % 0x8000_0000 <= 0x42c8_0000,
        target == ElemType::U8 ==> v[k] <= 0x8000_0000,
{
    let floor = crate::gen_value::floor_for(target);
    let n = crate::gen_value::safe_count(target);
    assert(CAST_SAFE_F32@[0] == 0x0000_0000u32 && CAST_SAFE_F32@[1] == 0x8000_0000u32
        && CAST_SAFE_F32@[2] == 0x3f80_0000u32 && CAST_SAFE_F32@[3] == 0x0080_0000u32
        && CAST_SAFE_F32@[4] == 0xbf80_0000u32);
    if single_between(v[k], floor, REACH as int) {
        let q = choose|q: int| floor <= q < REACH && v[k] == #[trigger] single_at(q);
        lemma_ordinary_values_are_steps(q);
    } else {
        let i = choose|i: int|
            0 <= i < CAST_SAFE_F32@.take(n).len() && CAST_SAFE_F32@.take(n)[i] == v[k];
        assert(CAST_SAFE_F32@[i] == v[k]);
    }
}

/// An integer that divides is neither zero nor minus one, so that every quotient is there and fits
/// the type of the dividend.
pub proof fn lemma_quotients_fit(a: int, n: int, low: int, high: int)
    requires
        divides(n),
        low <= a <= high,
        low == -high - 1,
        high >= 1,
    ensures
        n != 0,
        low <= a / n <= high,
{
    if n > 0 {
        assert(low <= a / n <= high) by (nonlinear_arith)
            requires
                n > 0,
                low <= a <= high,
                low == -high - 1,
                high >= 1,
        ;
    } else {
        assert(low <= a / n <= high) by (nonlinear_arith)
            requires
                n <= -2,
                low <= a <= high,
                low == -high - 1,
                high >= 1,
        ;
    }
}

// ---- configurations ----

/// Which types a configuration permits: single precision always, and each other one by its switch.
pub proof fn lemma_types_by_their_switches(b: Bounds, t: ElemType)
    ensures
        b.types().contains(t) <==> t == ElemType::F32 || (t == ElemType::F64 && b.float64) || ((t
            == ElemType::I32 || t == ElemType::I64) && b.integer_types) || (t == ElemType::Bool
            && b.bool_type) || ((t == ElemType::I8 || t == ElemType::U8) && b.quantized),
{
    let single = seq![ElemType::F32];
    let floats = if b.float64 {
        single.push(ElemType::F64)
    } else {
        single
    };
    let numbers = if b.integer_types {
        floats.push(ElemType::I32).push(ElemType::I64)
    } else {
        floats
    };
    let plain = if b.bool_type {
        numbers.push(ElemType::Bool)
    } else {
        numbers
    };
    let all = b.types();
    assert(all[0] == ElemType::F32);
    if b.float64 {
        assert(all[1] == ElemType::F64);
    }
    if b.integer_types {
        assert(all[floats.len() as int] == ElemType::I32);
        assert(all[floats.len() as int + 1] == ElemType::I64);
    }
    if b.bool_type {
        assert(all[numbers.len() as int] == ElemType::Bool);
    }
    if b.quantized {
        assert(all[plain.len() as int] == ElemType::I8);
        assert(all[plain.len() as int + 1] == ElemType::U8);
    }
}

/// The switch that covers an operator.
pub open spec fn switched_on(b: Bounds, op: OpKind) -> bool {
    if op == OpKind::And || op == OpKind::Or || op == OpKind::Xor || op == OpKind::Not {
        b.logical
    } else if op == OpKind::Equal || op == OpKind::Greater || op == OpKind::Less {
        b.comparisons
    } else if op == OpKind::QuantizeLinear || op == OpKind::DequantizeLinear || op
        == OpKind::MatMulInteger || op == OpKind::DynamicQuantizeLinear {
        b.quantized
    } else if op == OpKind::Reshape || op == OpKind::Squeeze || op == OpKind::Unsqueeze || op
        == OpKind::Slice || op == OpKind::Pad {
        b.shape_input_operators
    } else if op == OpKind::Identity || op == OpKind::Transpose || op == OpKind::Concat || op
        == OpKind::Shape || op == OpKind::Size || op == OpKind::Gather || op == OpKind::Where || op
        == OpKind::Cast {
        b.structural
    } else {
        b.float_elementwise
    }
}

/// An operator is offered exactly where its switch is on, it is of the version, and it takes a type
/// that is permitted.
pub proof fn lemma_operators_by_their_switches(b: Bounds, op: OpKind)
    ensures
        b.covers(op) == switched_on(b, op),
        b.offers(op) <==> switched_on(b, op) && b.opset >= crate::validation_laws::first_version(op)
            && exists|t: ElemType|
            b.types().contains(t) && #[trigger] crate::validation_laws::takes_type(op, t),
{
    let only = seq![ElemType::Bool];
    if op.data_types().len() != 1 {
        assert(op.data_types() != only);
    } else {
        assert(op.data_types()[0] == ElemType::Bool ==> op.data_types() =~= only);
        assert(only[0] == ElemType::Bool);
    }
    if b.offers(op) {
        let i = choose|i: int|
            0 <= i < b.types().len() && op.admits(#[trigger] b.types()[i], b.opset);
        crate::validation_laws::lemma_what_operators_take(op, b.types()[i], b.opset);
        assert(b.types().contains(b.types()[i]));
    }
    if switched_on(b, op) && b.opset >= crate::validation_laws::first_version(op) && exists|
        t: ElemType,
    |
        b.types().contains(t) && #[trigger] crate::validation_laws::takes_type(op, t) {
        let t = choose|t: ElemType|
            b.types().contains(t) && #[trigger] crate::validation_laws::takes_type(op, t);
        crate::validation_laws::lemma_what_operators_take(op, t, b.opset);
        let i = choose|i: int| 0 <= i < b.types().len() && b.types()[i] == t;
        assert(op.admits(b.types()[i], b.opset));
    }
}

/// The starting configuration offers everything but the quantized operators, at version 22 and
/// without special values.
pub proof fn lemma_the_starting_configuration(op: OpKind, t: ElemType)
    ensures
        default_bounds().covers(op) <==> op != OpKind::QuantizeLinear && op
            != OpKind::DequantizeLinear && op != OpKind::MatMulInteger && op
            != OpKind::DynamicQuantizeLinear,
        default_bounds().types().contains(t) <==> t != ElemType::I8 && t != ElemType::U8,
        default_bounds().opset == 22,
        !default_bounds().special_values,
        !default_bounds().vary_opset,
        default_bounds().degenerate_shapes,
        default_bounds().max_rank == 4,
        default_bounds().max_dim == 8,
        default_bounds().element_budget == 256,
        default_bounds().special_value_rate == 25,
{
    lemma_operators_by_their_switches(default_bounds(), op);
    lemma_types_by_their_switches(default_bounds(), t);
}

/// Without a budget a tensor could have as many elements as the largest extent to the power of the
/// highest rank: one more rank multiplies them by that extent.
pub proof fn lemma_the_worst_case_multiplies(b: Bounds)
    requires
        b.max_rank < usize::MAX,
        b.max_dim >= 1,
    ensures
        (Bounds { max_rank: (b.max_rank + 1) as usize, ..b }).worst_case() == b.max_dim
            * b.worst_case(),
        (Bounds { max_rank: 0, ..b }).worst_case() == 1,
{
    let more = Bounds { max_rank: (b.max_rank + 1) as usize, ..b };
    assert(power(b.max_dim as nat, (b.max_rank + 1) as nat) == b.max_dim as nat * power(
        b.max_dim as nat,
        b.max_rank as nat,
    ));
    assert(more.worst_case() == power(b.max_dim as nat, (b.max_rank + 1) as nat));
}

/// A shape that is drawn has no more axes than the highest rank, no longer ones than the largest
/// extent, and no more elements than the budget. It is a scalar or empty only where degenerate
/// shapes are on.
pub proof fn lemma_drawn_shapes_keep_the_bounds(dims: Seq<i64>, b: Bounds, i: int)
    requires
        shape_within(dims, b, 0, b.degenerate_shapes),
        b.max_rank >= 1,
        b.max_dim >= 1,
        b.element_budget >= 1,
        0 <= i < dims.len(),
    ensures
        dims.len() <= b.max_rank,
        0 <= dims[i] <= b.max_dim,
        product(dims) <= b.element_budget,
        !b.degenerate_shapes ==> dims[i] >= 1,
{
}

/// Without degenerate shapes nothing that is drawn is a scalar.
pub proof fn lemma_scalars_are_degenerate(dims: Seq<i64>, b: Bounds)
    requires
        shape_within(dims, b, 0, b.degenerate_shapes),
        !b.degenerate_shapes,
    ensures
        dims.len() >= 1,
{
}

// ---- cases ----

/// A case is of the configuration's version unless versions vary, and then of one at which its
/// operator has its present form.
pub proof fn lemma_versions_that_are_drawn(opset: i64, op: OpKind, b: Bounds)
    ensures
        drawn_opset(opset, op, b) <==> (!b.vary_opset && opset == b.opset) || (b.vary_opset
            && crate::validation_laws::first_version(op) <= opset <= 22),
{
    crate::validation_laws::lemma_what_operators_take(op, ElemType::F32, opset);
}

/// A case is generated for an operator and a type exactly where the operator takes the type at the
/// version and, for a conversion, another type is permitted.
pub proof fn lemma_what_can_be_generated(op: OpKind, elem: ElemType, b: Bounds)
    ensures
        can_generate(op, elem, b) <==> crate::validation_laws::takes_type(op, elem) && b.opset
            >= crate::validation_laws::first_version(op) && (op == OpKind::Cast ==> exists|
            t: ElemType,
        |
            #[trigger] b.types().contains(t) && t != elem),
{
    crate::validation_laws::lemma_what_operators_take(op, elem, b.opset);
    if has_target(b, elem) {
        let i = choose|i: int| 0 <= i < b.types().len() && #[trigger] b.types()[i] != elem;
        assert(b.types().contains(b.types()[i]));
    }
    if exists|t: ElemType| #[trigger] b.types().contains(t) && t != elem {
        let t = choose|t: ElemType| #[trigger] b.types().contains(t) && t != elem;
        let i = choose|i: int| 0 <= i < b.types().len() && b.types()[i] == t;
        assert(b.types()[i] != elem);
    }
}

/// Without special values all data are ordinary; at a rate of zero so are they with them; and at a
/// rate of a hundred nothing else is drawn.
pub proof fn lemma_special_values_by_rate(d: DataModel, op: OpKind, b: Bounds)
    requires
        drawn_data(d, op, b),
    ensures
        !b.special_values || b.special_value_rate == 0 ==> ordinary_data(d),
        b.special_values && b.special_value_rate == 100 ==> only_special(d, undetermined(op)),
{
}

/// Which inputs are stored in the model: the second and later ones of the operators that take a
/// shape, axes or amounts of padding. All others are fed.
pub proof fn lemma_what_is_stored(c: CaseModel, op: OpKind, elem: ElemType, b: Bounds, i: int)
    requires
        generated(c, op, elem, b),
        0 <= i < c.inputs.len(),
    ensures
        c.inputs[i].role == InputRole::Initializer <==> i >= 1 && (op == OpKind::Reshape || op
            == OpKind::Squeeze || op == OpKind::Unsqueeze || op == OpKind::Slice || op
            == OpKind::Pad),
{
    if op == OpKind::Cast {
        let t = choose|t: ElemType| #[trigger] cast_case_to(c, elem, b, t);
    } else if op == OpKind::Transpose {
        let p = choose|p: Seq<i64>| #[trigger] transpose_case_by(c, elem, b, p);
    } else if op == OpKind::Concat {
        let axis = choose|axis: int| #[trigger] concat_case_along(c, elem, b, axis);
        assert(c.inputs[i].role == InputRole::Data);
    } else if op == OpKind::Gather {
        let (axis, indices) = choose|axis: int, indices: Seq<i64>| #[trigger]
            gather_case_along(c, elem, b, axis, indices);
    } else if op == OpKind::Reshape {
        let t = choose|t: Seq<i64>| #[trigger] reshape_case_to(c, elem, b, t);
    } else if op == OpKind::Squeeze {
        let axis = choose|axis: int| #[trigger] squeeze_case_at(c, elem, b, axis);
    } else if op == OpKind::Unsqueeze {
        let axis = choose|axis: int| #[trigger] unsqueeze_case_at(c, elem, b, axis);
    } else if op == OpKind::Slice {
        let (s, e) = choose|s: i64, e: i64| #[trigger] slice_case_of(c, elem, b, s, e);
    } else if op == OpKind::Pad {
        let p = choose|p: Seq<i64>| #[trigger] pad_case_by(c, elem, b, p);
    } else if op == OpKind::MatMulInteger {
        let (m, k, n) = choose|m: i64, k: i64, n: i64| #[trigger]
            crate::gen_case::matmul_case_of(c, elem, b, m, k, n);
    } else if op == OpKind::QuantizeLinear || op == OpKind::DequantizeLinear {
        let s = choose|s: u32| #[trigger]
            crate::gen_case::drawn_scale(s) && c.inputs[1] == crate::ops::fed(
                "scale"@,
                Seq::empty(),
                DataModel::F32(seq![s]),
            );
    }
}

/// What the parameters of a generated case are: a padding of no more than two at any end, one to
/// three indices of an axis that it has, a slice that keeps something of the first axis, two or
/// three tensors to join, and a reshape to as many elements as there were.
pub proof fn lemma_what_parameters_are_drawn(c: CaseModel, op: OpKind, elem: ElemType, b: Bounds)
    requires
        generated(c, op, elem, b),
    ensures
        op == OpKind::Pad ==> list_of(c.inputs[1]).len() == 2 * c.inputs[0].dims.len() && forall|
            k: int,
        |
            0 <= k < list_of(c.inputs[1]).len() ==> 0 <= #[trigger] list_of(c.inputs[1])[k] <= 2,
        op == OpKind::Gather ==> 1 <= list_of(c.inputs[1]).len() <= 3 && forall|k: int|
            0 <= k < list_of(c.inputs[1]).len() ==> #[trigger] list_of(c.inputs[1])[k] >= 0,
        op == OpKind::Slice ==> list_of(c.inputs[1]).len() == 1 && list_of(c.inputs[2]).len() == 1
            && 0 <= list_of(c.inputs[1])[0] < list_of(c.inputs[2])[0] <= c.inputs[0].dims[0],
        op == OpKind::Concat ==> 2 <= c.inputs.len() <= 3,
        op == OpKind::Reshape ==> product(list_of(c.inputs[1])) == product(c.inputs[0].dims),
        op == OpKind::Reshape ==> (lookup(c.attrs, "allowzero"@) == Some(AttrModel::Int(1)) <==> list_of(
            c.inputs[1],
        ).contains(0)),
{
    if op == OpKind::Concat {
        let axis = choose|axis: int| #[trigger] concat_case_along(c, elem, b, axis);
    } else if op == OpKind::Gather {
        let (axis, indices) = choose|axis: int, indices: Seq<i64>| #[trigger]
            gather_case_along(c, elem, b, axis, indices);
        assert(list_of(c.inputs[1]) == indices);
    } else if op == OpKind::Reshape {
        let t = choose|t: Seq<i64>| #[trigger] reshape_case_to(c, elem, b, t);
        assert(list_of(c.inputs[1]) == t);
        if t.contains(0) {
            assert(c.attrs[0] == ("allowzero"@, AttrModel::Int(1)));
        }
    } else if op == OpKind::Slice {
        let (s, e) = choose|s: i64, e: i64| #[trigger] slice_case_of(c, elem, b, s, e);
        assert(list_of(c.inputs[1]) == seq![s]);
        assert(list_of(c.inputs[2]) == seq![e]);
    } else if op == OpKind::Pad {
        let p = choose|p: Seq<i64>| #[trigger] pad_case_by(c, elem, b, p);
        assert(list_of(c.inputs[1]) == p);
    }
}

} // verus!
