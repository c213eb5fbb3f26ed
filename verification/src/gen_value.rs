//! The numbers of a generated case, once its shapes and types are decided.
//!
//! Kept apart from the shapes so that the rate of special values can vary on its own. Values whose
//! answer the operator's definition leaves open are not drawn at all: two runtimes may differ on
//! them without either being wrong.

use vstd::prelude::*;

use crate::bits::{f32_abs, f32_exact, f32_is_finite, f32_is_nan, f32_magnitude, f32_of, f64_exact};
use crate::bits::{f64_abs, f64_is_finite, f64_is_nan, f64_of, lemma_f32_exact_fields};
use crate::bits::{lemma_f64_exact_fields, lemma_top_bit_below, lemma_two_to};
use crate::bits::{lemma_two_to_increases, top_bit, two_to};
use crate::bits::{F32_INFINITY, F32_MAX, F32_MIN, F32_MINUS_ONE, F32_MIN_POSITIVE, F32_NAN};
use crate::bits::{F32_NEGATIVE_INFINITY, F32_NEGATIVE_ZERO, F32_ONE, F32_ZERO, F64_NEGATIVE_ZERO};
use crate::case::{DataModel, ElemType, OpKind, TensorData};
use crate::rng::SeededRng;

verus! {

// ---- ordinary values ----

/// The grid that ordinary floating-point values lie on has that many steps to the unit.
pub const STEPS: i64 = 0x1_0000;

/// Ordinary values stay below a hundred in magnitude: large enough to be real arithmetic, small
/// enough that a product rarely overflows.
pub const REACH: i64 = 6553600;

/// The single-precision pattern of `q` steps.
pub open spec fn single_at(q: int) -> u32 {
    f32_exact(q < 0, (if q < 0 { -q } else { q }) as nat, -16)
}

/// The double-precision pattern of `q` steps.
pub open spec fn double_at(q: int) -> u64 {
    f64_exact(q < 0, (if q < 0 { -q } else { q }) as nat, -16)
}

/// Whether a pattern is that of a number of steps from `low` up to, not with, `high`.
pub open spec fn single_between(b: u32, low: int, high: int) -> bool {
    exists|q: int| low <= q < high && b == #[trigger] single_at(q)
}

/// Whether a pattern is that of a number of steps from `low` up to, not with, `high`.
pub open spec fn double_between(b: u64, low: int, high: int) -> bool {
    exists|q: int| low <= q < high && b == #[trigger] double_at(q)
}

/// Whether every value is on the grid, within the bounds, or in the pool.
pub open spec fn singles_from(v: Seq<u32>, pool: Seq<u32>, low: int, high: int) -> bool {
    forall|k: int|
        0 <= k < v.len() ==> single_between(#[trigger] v[k], low, high) || pool.contains(v[k])
}

/// Whether every value is on the grid, within the bounds, or in the pool.
pub open spec fn doubles_from(v: Seq<u64>, pool: Seq<u64>, low: int, high: int) -> bool {
    forall|k: int|
        0 <= k < v.len() ==> double_between(#[trigger] v[k], low, high) || pool.contains(v[k])
}

/// Whether a number is in the pool.
pub open spec fn integer_among(n: int, pool: Seq<i64>) -> bool {
    exists|j: int| 0 <= j < pool.len() && #[trigger] pool[j] == n
}

/// Whether a number is within the bounds or in the pool.
pub open spec fn integer_from(n: int, pool: Seq<i64>, low: int, high: int) -> bool {
    low <= n < high || integer_among(n, pool)
}

/// Whether a tensor holds ordinary values only.
pub open spec fn ordinary_data(d: DataModel) -> bool {
    match d {
        DataModel::F32(v) => singles_from(v, Seq::empty(), -REACH, REACH as int),
        DataModel::F64(v) => doubles_from(v, Seq::empty(), -REACH, REACH as int),
        DataModel::I32(v) => forall|k: int| 0 <= k < v.len() ==> -100 <= #[trigger] v[k] < 100,
        DataModel::I64(v) => forall|k: int| 0 <= k < v.len() ==> -100 <= #[trigger] v[k] < 100,
        DataModel::I8(v) => forall|k: int| 0 <= k < v.len() ==> -100 <= #[trigger] v[k] < 100,
        DataModel::U8(v) => forall|k: int| 0 <= k < v.len() ==> #[trigger] v[k] < 100,
        DataModel::Bool(_) => true,
    }
}

/// The pattern of some number of steps.
pub(crate) fn draw_single(low: i64, high: i64, rng: &mut SeededRng) -> (r: u32)
    requires
        -REACH <= low < high <= REACH,
    ensures
        single_between(r, low as int, high as int),
{
    let q: i64 = rng.between(low, high - 1);
    let m: u32 = (if q < 0 { -q } else { q }) as u32;
    proof {
        if m > 0 {
            lemma_two_to();
            lemma_top_bit_below(m as nat, 24);
        }
    }
    let r: u32 = f32_of(q < 0, m, -16);
    assert(r == single_at(q as int));
    r
}

/// The pattern of some number of steps.
fn draw_double(low: i64, high: i64, rng: &mut SeededRng) -> (r: u64)
    requires
        -REACH <= low < high <= REACH,
    ensures
        double_between(r, low as int, high as int),
{
    let q: i64 = rng.between(low, high - 1);
    let m: u32 = (if q < 0 { -q } else { q }) as u32;
    let r: u64 = f64_of(q < 0, m, -16);
    assert(r == double_at(q as int));
    r
}

/// Single-precision values: from the pool that many times in a hundred, else from the grid.
fn fill_singles(
    count: usize,
    rate: u32,
    pool: &Vec<u32>,
    low: i64,
    high: i64,
    rng: &mut SeededRng,
) -> (r: Vec<u32>)
    requires
        rate <= 100,
        rate > 0 ==> 0 < pool.len() <= i64::MAX,
        -REACH <= low < high <= REACH,
    ensures
        r.len() == count,
        singles_from(r@, pool@, low as int, high as int),
        rate == 0 ==> singles_from(r@, Seq::empty(), low as int, high as int),
        rate == 100 ==> forall|k: int| 0 <= k < r.len() ==> pool@.contains(#[trigger] r@[k]),
{
    let mut out: Vec<u32> = Vec::new();
    while out.len() < count
        invariant
            out.len() <= count,
            rate <= 100,
            rate > 0 ==> 0 < pool.len() <= i64::MAX,
            -REACH <= low < high <= REACH,
            singles_from(out@, pool@, low as int, high as int),
            rate == 0 ==> singles_from(out@, Seq::empty(), low as int, high as int),
            rate == 100 ==> forall|k: int|
                0 <= k < out.len() ==> pool@.contains(#[trigger] out@[k]),
        decreases count - out.len(),
    {
        let value: u32 = if rng.percent(rate) {
            let at: usize = rng.index(pool.len());
            assert(pool@.contains(pool@[at as int]));
            pool[at]
        } else {
            draw_single(low, high, rng)
        };
        out.push(value);
    }
    out
}

/// Double-precision values: from the pool that many times in a hundred, else from the grid.
fn fill_doubles(
    count: usize,
    rate: u32,
    pool: &Vec<u64>,
    low: i64,
    high: i64,
    rng: &mut SeededRng,
) -> (r: Vec<u64>)
    requires
        rate <= 100,
        rate > 0 ==> 0 < pool.len() <= i64::MAX,
        -REACH <= low < high <= REACH,
    ensures
        r.len() == count,
        doubles_from(r@, pool@, low as int, high as int),
        rate == 0 ==> doubles_from(r@, Seq::empty(), low as int, high as int),
        rate == 100 ==> forall|k: int| 0 <= k < r.len() ==> pool@.contains(#[trigger] r@[k]),
{
    let mut out: Vec<u64> = Vec::new();
    while out.len() < count
        invariant
            out.len() <= count,
            rate <= 100,
            rate > 0 ==> 0 < pool.len() <= i64::MAX,
            -REACH <= low < high <= REACH,
            doubles_from(out@, pool@, low as int, high as int),
            rate == 0 ==> doubles_from(out@, Seq::empty(), low as int, high as int),
            rate == 100 ==> forall|k: int|
                0 <= k < out.len() ==> pool@.contains(#[trigger] out@[k]),
        decreases count - out.len(),
    {
        let value: u64 = if rng.percent(rate) {
            let at: usize = rng.index(pool.len());
            assert(pool@.contains(pool@[at as int]));
            pool[at]
        } else {
            draw_double(low, high, rng)
        };
        out.push(value);
    }
    out
}

/// Integers: from the pool that many times in a hundred, else from the range.
fn fill_integers(
    count: usize,
    rate: u32,
    pool: &Vec<i64>,
    low: i64,
    high: i64,
    rng: &mut SeededRng,
) -> (r: Vec<i64>)
    requires
        rate <= 100,
        rate > 0 ==> 0 < pool.len() <= i64::MAX,
        low < high,
    ensures
        r.len() == count,
        forall|k: int|
            0 <= k < r.len() ==> integer_from(
                #[trigger] r@[k] as int,
                pool@,
                low as int,
                high as int,
            ),
        rate == 100 ==> forall|k: int|
            0 <= k < r.len() ==> integer_among(#[trigger] r@[k] as int, pool@),
{
    let mut out: Vec<i64> = Vec::new();
    while out.len() < count
        invariant
            out.len() <= count,
            rate <= 100,
            rate > 0 ==> 0 < pool.len() <= i64::MAX,
            low < high,
            forall|k: int|
                0 <= k < out.len() ==> integer_from(
                    #[trigger] out@[k] as int,
                    pool@,
                    low as int,
                    high as int,
                ),
            rate == 100 ==> forall|k: int|
                0 <= k < out.len() ==> integer_among(#[trigger] out@[k] as int, pool@),
        decreases count - out.len(),
    {
        let value: i64 = if rng.percent(rate) {
            let at: usize = rng.index(pool.len());
            assert(pool@[at as int] == pool@[at as int]);
            pool[at]
        } else {
            rng.between(low, high - 1)
        };
        out.push(value);
    }
    out
}

/// Truth values, each as likely as the other.
fn fill_bools(count: usize, rng: &mut SeededRng) -> (r: Vec<bool>)
    ensures
        r.len() == count,
{
    let mut out: Vec<bool> = Vec::new();
    while out.len() < count
        invariant
            out.len() <= count,
        decreases count - out.len(),
    {
        out.push(rng.percent(50));
    }
    out
}

fn narrow_i32(v: &Vec<i64>) -> (r: Vec<i32>)
    requires
        forall|k: int| 0 <= k < v.len() ==> i32::MIN <= #[trigger] v@[k] <= i32::MAX,
    ensures
        r.len() == v.len(),
        forall|k: int| 0 <= k < r.len() ==> #[trigger] r@[k] == v@[k],
{
    let mut out: Vec<i32> = Vec::new();
    while out.len() < v.len()
        invariant
            out.len() <= v.len(),
            forall|k: int| 0 <= k < v.len() ==> i32::MIN <= #[trigger] v@[k] <= i32::MAX,
            forall|k: int| 0 <= k < out.len() ==> #[trigger] out@[k] == v@[k],
        decreases v.len() - out.len(),
    {
        let n: i64 = v[out.len()];
        out.push(n as i32);
    }
    out
}

fn narrow_i8(v: &Vec<i64>) -> (r: Vec<i8>)
    requires
        forall|k: int| 0 <= k < v.len() ==> i8::MIN <= #[trigger] v@[k] <= i8::MAX,
    ensures
        r.len() == v.len(),
        forall|k: int| 0 <= k < r.len() ==> #[trigger] r@[k] == v@[k],
{
    let mut out: Vec<i8> = Vec::new();
    while out.len() < v.len()
        invariant
            out.len() <= v.len(),
            forall|k: int| 0 <= k < v.len() ==> i8::MIN <= #[trigger] v@[k] <= i8::MAX,
            forall|k: int| 0 <= k < out.len() ==> #[trigger] out@[k] == v@[k],
        decreases v.len() - out.len(),
    {
        let n: i64 = v[out.len()];
        out.push(n as i8);
    }
    out
}

fn narrow_u8(v: &Vec<i64>) -> (r: Vec<u8>)
    requires
        forall|k: int| 0 <= k < v.len() ==> 0 <= #[trigger] v@[k] <= u8::MAX,
    ensures
        r.len() == v.len(),
        forall|k: int| 0 <= k < r.len() ==> #[trigger] r@[k] == v@[k],
{
    let mut out: Vec<u8> = Vec::new();
    while out.len() < v.len()
        invariant
            out.len() <= v.len(),
            forall|k: int| 0 <= k < v.len() ==> 0 <= #[trigger] v@[k] <= u8::MAX,
            forall|k: int| 0 <= k < out.len() ==> #[trigger] out@[k] == v@[k],
        decreases v.len() - out.len(),
    {
        let n: i64 = v[out.len()];
        out.push(n as u8);
    }
    out
}

/// Whether no value of a tensor of numbers occurs twice.
pub open spec fn all_differ(d: DataModel) -> bool {
    match d {
        DataModel::F32(v) => v.no_duplicates(),
        DataModel::F64(v) => v.no_duplicates(),
        DataModel::I32(v) => v.no_duplicates(),
        DataModel::I64(v) => v.no_duplicates(),
        DataModel::I8(v) => v.no_duplicates(),
        DataModel::U8(v) => v.no_duplicates(),
        DataModel::Bool(_) => true,
    }
}

/// How many different ordinary values a type has. Truth values are not counted: two of them are
/// not enough to tell one order from another.
pub open spec fn variety(elem: ElemType) -> nat {
    match elem {
        ElemType::F32 | ElemType::F64 => (2 * REACH) as nat,
        ElemType::I32 | ElemType::I64 | ElemType::I8 => 200,
        ElemType::U8 => 100,
        ElemType::Bool => 0,
    }
}

/// Whether a tensor repeats no value although its type has values enough.
pub open spec fn varied(d: DataModel) -> bool {
    d.len() <= variety(d.elem_type()) ==> all_differ(d)
}

/// The number that stands `k` places after another in a range that starts over at its end.
spec fn around(start: int, k: int, low: int, high: int) -> int {
    if start + k < high {
        start + k
    } else {
        start + k - (high - low)
    }
}

/// A list that is shorter than a range does not hold the whole range.
proof fn lemma_a_range_has_room(used: Seq<i64>, start: int, low: int, high: int)
    requires
        low <= start < high,
        used.len() < high - low,
    ensures
        exists|k: int|
            0 <= k < high - low && !integer_among(#[trigger] around(start, k, low, high), used),
{
    let values = Seq::new(used.len(), |j: int| used[j] as int);
    let range = vstd::set_lib::set_int_range(low, high);
    vstd::set_lib::lemma_int_range(low, high);
    vstd::seq_lib::seq_to_set_is_finite(values);
    values.lemma_cardinality_of_set();
    if forall|k: int|
        0 <= k < high - low ==> integer_among(#[trigger] around(start, k, low, high), used) {
        assert forall|v: int| range.contains(v) implies values.to_set().contains(v) by {
            let k = if v >= start {
                v - start
            } else {
                v - start + (high - low)
            };
            assert(around(start, k, low, high) == v);
            let j = choose|j: int| 0 <= j < used.len() && #[trigger] used[j] == v;
            assert(values[j] == v);
        }
        vstd::set_lib::lemma_len_subset(range, values.to_set());
    }
}

fn is_among(n: i64, used: &Vec<i64>) -> (r: bool)
    ensures
        r == integer_among(n as int, used@),
{
    let mut j: usize = 0;
    while j < used.len()
        invariant
            j <= used.len(),
            forall|i: int| 0 <= i < j ==> #[trigger] used@[i] != n,
        decreases used.len() - j,
    {
        if used[j] == n {
            return true;
        }
        j += 1;
    }
    false
}

/// The first number, from `start` on and around the range, that is not used yet.
fn first_unused(used: &Vec<i64>, start: i64, low: i64, high: i64) -> (r: i64)
    requires
        -REACH <= low <= start < high <= REACH,
        used.len() < high - low,
    ensures
        low <= r < high,
        !integer_among(r as int, used@),
{
    let mut n: i64 = start;
    let mut tried: i64 = 0;
    while is_among(n, used)
        invariant
            -REACH <= low <= start < high <= REACH,
            used.len() < high - low,
            low <= n < high,
            0 <= tried < high - low,
            n == around(start as int, tried as int, low as int, high as int),
            forall|k: int|
                0 <= k < tried ==> integer_among(
                    #[trigger] around(start as int, k, low as int, high as int),
                    used@,
                ),
        decreases high - low - tried,
    {
        proof {
            lemma_a_range_has_room(used@, start as int, low as int, high as int);
        }
        n = if n + 1 < high {
            n + 1
        } else {
            low
        };
        tried += 1;
    }
    n
}

/// Numbers from `low` up to, not with, `high`. None occurs twice where the range has room for all
/// of them: a tensor of equal values cannot show that an operator put them in another order.
fn fill_steps(count: usize, low: i64, high: i64, rng: &mut SeededRng) -> (r: Vec<i64>)
    requires
        -REACH <= low < high <= REACH,
    ensures
        r.len() == count,
        forall|k: int| 0 <= k < r.len() ==> low <= #[trigger] r@[k] < high,
        count <= high - low ==> r@.no_duplicates(),
{
    let roomy: bool = count as u128 <= (high - low) as u128;
    let mut out: Vec<i64> = Vec::new();
    while out.len() < count
        invariant
            out.len() <= count,
            -REACH <= low < high <= REACH,
            roomy == (count <= high - low),
            forall|k: int| 0 <= k < out.len() ==> low <= #[trigger] out@[k] < high,
            roomy ==> out@.no_duplicates(),
        decreases count - out.len(),
    {
        let start: i64 = rng.between(low, high - 1);
        let n: i64 = if roomy {
            first_unused(&out, start, low, high)
        } else {
            start
        };
        out.push(n);
    }
    out
}

fn singles_at(steps: &Vec<i64>) -> (r: Vec<u32>)
    requires
        forall|k: int| 0 <= k < steps.len() ==> -REACH <= #[trigger] steps@[k] < REACH,
    ensures
        r.len() == steps.len(),
        forall|k: int| 0 <= k < r.len() ==> #[trigger] r@[k] == single_at(steps@[k] as int),
{
    let mut out: Vec<u32> = Vec::new();
    while out.len() < steps.len()
        invariant
            out.len() <= steps.len(),
            forall|k: int| 0 <= k < steps.len() ==> -REACH <= #[trigger] steps@[k] < REACH,
            forall|k: int| 0 <= k < out.len() ==> #[trigger] out@[k] == single_at(steps@[k] as int),
        decreases steps.len() - out.len(),
    {
        let q: i64 = steps[out.len()];
        let m: u32 = (if q < 0 { -q } else { q }) as u32;
        proof {
            if m > 0 {
                lemma_two_to();
                lemma_top_bit_below(m as nat, 24);
            }
        }
        out.push(f32_of(q < 0, m, -16));
    }
    out
}

fn doubles_at(steps: &Vec<i64>) -> (r: Vec<u64>)
    requires
        forall|k: int| 0 <= k < steps.len() ==> -REACH <= #[trigger] steps@[k] < REACH,
    ensures
        r.len() == steps.len(),
        forall|k: int| 0 <= k < r.len() ==> #[trigger] r@[k] == double_at(steps@[k] as int),
{
    let mut out: Vec<u64> = Vec::new();
    while out.len() < steps.len()
        invariant
            out.len() <= steps.len(),
            forall|k: int| 0 <= k < steps.len() ==> -REACH <= #[trigger] steps@[k] < REACH,
            forall|k: int| 0 <= k < out.len() ==> #[trigger] out@[k] == double_at(steps@[k] as int),
        decreases steps.len() - out.len(),
    {
        let q: i64 = steps[out.len()];
        let m: u32 = (if q < 0 { -q } else { q }) as u32;
        out.push(f64_of(q < 0, m, -16));
    }
    out
}

proof fn lemma_scaled_alike(m: int, n: int, up: int)
    by (nonlinear_arith)
    requires
        up >= 1,
        m * up == n * up,
    ensures
        m == n,
{
}

/// Different numbers of steps are different values.
pub proof fn lemma_grid_values_differ(p: int, q: int)
    requires
        -REACH <= p <= REACH,
        -REACH <= q <= REACH,
        p != q,
    ensures
        single_at(p) != single_at(q),
        double_at(p) != double_at(q),
{
    let m = (if p < 0 { -p } else { p }) as nat;
    let n = (if q < 0 { -q } else { q }) as nat;
    lemma_two_to();
    if m > 0 {
        lemma_top_bit_below(m, 24);
        lemma_f32_exact_fields(p < 0, m, -16);
        lemma_f64_exact_fields(m, -16);
        lemma_two_to_increases(0, (23 - top_bit(m)) as nat);
        lemma_two_to_increases(0, (52 - top_bit(m)) as nat);
    }
    if n > 0 {
        lemma_top_bit_below(n, 24);
        lemma_f32_exact_fields(q < 0, n, -16);
        lemma_f64_exact_fields(n, -16);
    }
    if m > 0 && n > 0 {
        if single_at(p) == single_at(q) {
            assert(top_bit(m) == top_bit(n));
            lemma_scaled_alike(m as int, n as int, two_to((23 - top_bit(m)) as nat) as int);
        }
        if double_at(p) == double_at(q) {
            assert(top_bit(m) == top_bit(n));
            lemma_scaled_alike(
                m - two_to(top_bit(m)),
                n - two_to(top_bit(m)),
                two_to((52 - top_bit(m)) as nat) as int,
            );
        }
    }
}

fn ordinary_singles(count: usize, rng: &mut SeededRng) -> (r: Vec<u32>)
    ensures
        r.len() == count,
        singles_from(r@, Seq::empty(), -REACH, REACH as int),
        count <= 2 * REACH ==> r@.no_duplicates(),
{
    let steps: Vec<i64> = fill_steps(count, -REACH, REACH, rng);
    let r: Vec<u32> = singles_at(&steps);
    assert forall|i: int, j: int|
        count <= 2 * REACH && 0 <= i < r.len() && 0 <= j < r.len() && i != j implies r@[i]
        != r@[j] by {
        lemma_grid_values_differ(steps@[i] as int, steps@[j] as int);
    }
    r
}

fn ordinary_doubles(count: usize, rng: &mut SeededRng) -> (r: Vec<u64>)
    ensures
        r.len() == count,
        doubles_from(r@, Seq::empty(), -REACH, REACH as int),
        count <= 2 * REACH ==> r@.no_duplicates(),
{
    let steps: Vec<i64> = fill_steps(count, -REACH, REACH, rng);
    let r: Vec<u64> = doubles_at(&steps);
    assert forall|i: int, j: int|
        count <= 2 * REACH && 0 <= i < r.len() && 0 <= j < r.len() && i != j implies r@[i]
        != r@[j] by {
        lemma_grid_values_differ(steps@[i] as int, steps@[j] as int);
    }
    r
}

/// Ordinary values: finite, of modest magnitude, and distinct where the type has values enough.
pub fn ordinary(elem: ElemType, count: usize, rng: &mut SeededRng) -> (r: TensorData)
    ensures
        r@.elem_type() == elem,
        r@.len() == count,
        ordinary_data(r@),
        varied(r@),
{
    match elem {
        ElemType::F32 => TensorData::F32(ordinary_singles(count, rng)),
        ElemType::F64 => TensorData::F64(ordinary_doubles(count, rng)),
        ElemType::I32 => TensorData::I32(narrow_i32(&fill_steps(count, -100, 100, rng))),
        ElemType::I64 => TensorData::I64(fill_steps(count, -100, 100, rng)),
        ElemType::Bool => TensorData::Bool(fill_bools(count, rng)),
        ElemType::I8 => TensorData::I8(narrow_i8(&fill_steps(count, -100, 100, rng))),
        ElemType::U8 => TensorData::U8(narrow_u8(&fill_steps(count, 0, 100, rng))),
    }
}

// ---- special values ----

/// Values that an operator must not be given, because its definition leaves the answer open.
#[derive(Debug, Clone, Copy, PartialEq, Eq, Structural)]
pub struct Excluded {
    /// `NaN` must not appear.
    pub nan: bool,
    /// `-0.0` must not appear.
    pub negative_zero: bool,
}

impl Default for Excluded {
    fn default() -> (r: Self)
        ensures
            r == (Excluded { nan: false, negative_zero: false }),
    {
        Excluded { nan: false, negative_zero: false }
    }
}

/// What an operator's definition leaves open. `Max` and `Min` mention neither `NaN` nor the sign
/// of zero; `Sign` says what happens above, below and at zero, and a `NaN` is none of these.
pub open spec fn undetermined(op: OpKind) -> Excluded {
    match op {
        OpKind::Max | OpKind::Min => Excluded { nan: true, negative_zero: true },
        OpKind::Sign => Excluded { nan: true, negative_zero: false },
        _ => Excluded { nan: false, negative_zero: false },
    }
}

/// What an operator's definition leaves open.
pub fn undetermined_for(op: OpKind) -> (r: Excluded)
    ensures
        r == undetermined(op),
{
    match op {
        OpKind::Max | OpKind::Min => Excluded { nan: true, negative_zero: true },
        OpKind::Sign => Excluded { nan: true, negative_zero: false },
        _ => Excluded { nan: false, negative_zero: false },
    }
}

/// The values that sampling never produces and that have broken something somewhere: the signs
/// of zero, the units, the infinities, `NaN`, the edge of the subnormals and the largest
/// magnitudes.
pub const SPECIAL_F32: [u32; 10] = [
    F32_ZERO,
    F32_NEGATIVE_ZERO,
    F32_ONE,
    F32_MINUS_ONE,
    F32_INFINITY,
    F32_NEGATIVE_INFINITY,
    F32_NAN,
    F32_MIN_POSITIVE,
    F32_MAX,
    F32_MIN,
];

/// The same values in double precision.
pub const SPECIAL_F64: [u64; 10] = [
    0x0000_0000_0000_0000,
    0x8000_0000_0000_0000,
    0x3ff0_0000_0000_0000,
    0xbff0_0000_0000_0000,
    0x7ff0_0000_0000_0000,
    0xfff0_0000_0000_0000,
    0x7ff8_0000_0000_0000,
    0x3810_0000_0000_0000,
    0x47ef_ffff_e000_0000,
    0xc7ef_ffff_e000_0000,
];

/// The integers at which wrapping and saturation differ.
pub const SPECIAL_I64: [i64; 7] = [0, 1, -1, i64::MAX, i64::MIN, 0x7fff_ffff, -0x8000_0000];

/// Whether a single-precision value must not be drawn.
pub open spec fn excludes_single(ex: Excluded, b: u32) -> bool {
    (ex.nan && f32_is_nan(b)) || (ex.negative_zero && b == F32_NEGATIVE_ZERO)
}

/// Whether a double-precision value must not be drawn.
pub open spec fn excludes_double(ex: Excluded, b: u64) -> bool {
    (ex.nan && f64_is_nan(b)) || (ex.negative_zero && b == F64_NEGATIVE_ZERO)
}

/// The special values that may be drawn.
pub open spec fn single_pool(ex: Excluded) -> Seq<u32> {
    SPECIAL_F32@.filter(|b: u32| !excludes_single(ex, b))
}

/// The special values that may be drawn.
pub open spec fn double_pool(ex: Excluded) -> Seq<u64> {
    SPECIAL_F64@.filter(|b: u64| !excludes_double(ex, b))
}

/// A number brought into a range: the boundary of a wider type lands on the boundary of a narrower
/// one.
pub open spec fn clamped(n: int, low: int, high: int) -> int {
    if n < low {
        low
    } else if n > high {
        high
    } else {
        n
    }
}

/// The special integers of a type with the given range.
pub open spec fn integer_pool(low: int, high: int) -> Seq<i64> {
    Seq::new(7, |i: int| clamped(SPECIAL_I64[i] as int, low, high) as i64)
}

/// Whether a tensor holds ordinary values and special ones that may be drawn.
pub open spec fn special_data(d: DataModel, ex: Excluded) -> bool {
    match d {
        DataModel::F32(v) => singles_from(v, single_pool(ex), -REACH, REACH as int),
        DataModel::F64(v) => doubles_from(v, double_pool(ex), -REACH, REACH as int),
        DataModel::I32(v) => forall|k: int|
            0 <= k < v.len() ==> integer_from(
                #[trigger] v[k] as int,
                integer_pool(i32::MIN as int, i32::MAX as int),
                -100,
                100,
            ),
        DataModel::I64(v) => forall|k: int|
            0 <= k < v.len() ==> integer_from(
                #[trigger] v[k] as int,
                integer_pool(i64::MIN as int, i64::MAX as int),
                -100,
                100,
            ),
        DataModel::I8(v) => forall|k: int|
            0 <= k < v.len() ==> integer_from(
                #[trigger] v[k] as int,
                integer_pool(i8::MIN as int, i8::MAX as int),
                -100,
                100,
            ),
        DataModel::U8(v) => forall|k: int|
            0 <= k < v.len() ==> integer_from(
                #[trigger] v[k] as int,
                integer_pool(0, u8::MAX as int),
                0,
                100,
            ),
        DataModel::Bool(_) => true,
    }
}

/// Whether a tensor of numbers holds special values only.
pub open spec fn only_special(d: DataModel, ex: Excluded) -> bool {
    match d {
        DataModel::F32(v) => forall|k: int|
            0 <= k < v.len() ==> single_pool(ex).contains(#[trigger] v[k]),
        DataModel::F64(v) => forall|k: int|
            0 <= k < v.len() ==> double_pool(ex).contains(#[trigger] v[k]),
        DataModel::I32(v) => forall|k: int|
            0 <= k < v.len() ==> integer_among(
                #[trigger] v[k] as int,
                integer_pool(i32::MIN as int, i32::MAX as int),
            ),
        DataModel::I64(v) => forall|k: int|
            0 <= k < v.len() ==> integer_among(
                #[trigger] v[k] as int,
                integer_pool(i64::MIN as int, i64::MAX as int),
            ),
        DataModel::I8(v) => forall|k: int|
            0 <= k < v.len() ==> integer_among(
                #[trigger] v[k] as int,
                integer_pool(i8::MIN as int, i8::MAX as int),
            ),
        DataModel::U8(v) => forall|k: int|
            0 <= k < v.len() ==> integer_among(
                #[trigger] v[k] as int,
                integer_pool(0, u8::MAX as int),
            ),
        DataModel::Bool(_) => true,
    }
}

/// Whether a tensor holds special values at a rate: none at zero, nothing else at a hundred.
pub open spec fn rated_data(d: DataModel, ex: Excluded, rate: nat) -> bool {
    &&& special_data(d, ex)
    &&& rate == 0 ==> ordinary_data(d) && varied(d)
    &&& rate == 100 ==> only_special(d, ex)
}

/// The special values that may be drawn.
fn singles_allowed(ex: Excluded) -> (r: Vec<u32>)
    ensures
        r@ == single_pool(ex),
        0 < r.len() <= 10,
{
    let ghost f = |b: u32| !excludes_single(ex, b);
    let mut out: Vec<u32> = Vec::new();
    proof {
        reveal(Seq::filter);
    }
    assert(SPECIAL_F32@.take(0).filter(f) =~= Seq::empty());
    let mut k: usize = 0;
    while k < 10
        invariant
            k <= 10,
            SPECIAL_F32@.len() == 10,
            SPECIAL_F32@[0] == F32_ZERO,
            f == (|b: u32| !excludes_single(ex, b)),
            out@ == SPECIAL_F32@.take(k as int).filter(f),
            out.len() <= k,
            k > 0 ==> out.len() > 0,
        decreases 10 - k,
    {
        let b: u32 = SPECIAL_F32[k];
        proof {
            assert(SPECIAL_F32@.take(k + 1) =~= SPECIAL_F32@.take(k as int).push(b));
            SPECIAL_F32@.take(k as int).lemma_filter_push(b, f);
        }
        if !((ex.nan && f32_abs(b) > F32_INFINITY) || (ex.negative_zero && b
            == F32_NEGATIVE_ZERO)) {
            out.push(b);
        }
        k += 1;
    }
    assert(SPECIAL_F32@.take(10) =~= SPECIAL_F32@);
    out
}

/// The special values that may be drawn.
fn doubles_allowed(ex: Excluded) -> (r: Vec<u64>)
    ensures
        r@ == double_pool(ex),
        0 < r.len() <= 10,
{
    let ghost f = |b: u64| !excludes_double(ex, b);
    let mut out: Vec<u64> = Vec::new();
    proof {
        reveal(Seq::filter);
    }
    assert(SPECIAL_F64@.take(0).filter(f) =~= Seq::empty());
    let mut k: usize = 0;
    while k < 10
        invariant
            k <= 10,
            SPECIAL_F64@.len() == 10,
            SPECIAL_F64@[0] == 0,
            f == (|b: u64| !excludes_double(ex, b)),
            out@ == SPECIAL_F64@.take(k as int).filter(f),
            out.len() <= k,
            k > 0 ==> out.len() > 0,
        decreases 10 - k,
    {
        let b: u64 = SPECIAL_F64[k];
        proof {
            assert(SPECIAL_F64@.take(k + 1) =~= SPECIAL_F64@.take(k as int).push(b));
            SPECIAL_F64@.take(k as int).lemma_filter_push(b, f);
        }
        if !((ex.nan && f64_abs(b) > 0x7ff0_0000_0000_0000) || (ex.negative_zero && b
            == F64_NEGATIVE_ZERO)) {
            out.push(b);
        }
        k += 1;
    }
    assert(SPECIAL_F64@.take(10) =~= SPECIAL_F64@);
    out
}

/// The special integers of a type with the given range.
fn integers_allowed(low: i64, high: i64) -> (r: Vec<i64>)
    requires
        low <= high,
    ensures
        r@ == integer_pool(low as int, high as int),
        r.len() == 7,
        forall|k: int| 0 <= k < r.len() ==> low <= #[trigger] r@[k] <= high,
{
    let mut out: Vec<i64> = Vec::new();
    while out.len() < 7
        invariant
            out.len() <= 7,
            SPECIAL_I64@.len() == 7,
            low <= high,
            forall|k: int|
                0 <= k < out.len() ==> #[trigger] out@[k] == clamped(
                    SPECIAL_I64[k] as int,
                    low as int,
                    high as int,
                ),
        decreases 7 - out.len(),
    {
        let n: i64 = SPECIAL_I64[out.len()];
        out.push(
            if n < low {
                low
            } else if n > high {
                high
            } else {
                n
            },
        );
    }
    assert(out@ =~= integer_pool(low as int, high as int));
    out
}

/// Values with special ones among them, that many times in a hundred.
pub fn with_specials(
    elem: ElemType,
    count: usize,
    rate: u32,
    exclude: Excluded,
    rng: &mut SeededRng,
) -> (r: TensorData)
    requires
        rate <= 100,
    ensures
        r@.elem_type() == elem,
        r@.len() == count,
        special_data(r@, exclude),
        rate == 0 ==> ordinary_data(r@) && varied(r@),
        rate == 100 ==> only_special(r@, exclude),
        rated_data(r@, exclude, rate as nat),
{
    if rate == 0 {
        return ordinary(elem, count, rng);
    }
    match elem {
        ElemType::F32 => TensorData::F32(
            fill_singles(count, rate, &singles_allowed(exclude), -REACH, REACH, rng),
        ),
        ElemType::F64 => TensorData::F64(
            fill_doubles(count, rate, &doubles_allowed(exclude), -REACH, REACH, rng),
        ),
        ElemType::I32 => TensorData::I32(
            narrow_i32(
                &fill_integers(
                    count,
                    rate,
                    &integers_allowed(i32::MIN as i64, i32::MAX as i64),
                    -100,
                    100,
                    rng,
                ),
            ),
        ),
        ElemType::I64 => TensorData::I64(
            fill_integers(count, rate, &integers_allowed(i64::MIN, i64::MAX), -100, 100, rng),
        ),
        ElemType::I8 => TensorData::I8(
            narrow_i8(
                &fill_integers(
                    count,
                    rate,
                    &integers_allowed(i8::MIN as i64, i8::MAX as i64),
                    -100,
                    100,
                    rng,
                ),
            ),
        ),
        ElemType::U8 => TensorData::U8(
            narrow_u8(
                &fill_integers(count, rate, &integers_allowed(0, u8::MAX as i64), 0, 100, rng),
            ),
        ),
        ElemType::Bool => TensorData::Bool(fill_bools(count, rng)),
    }
}

// ---- values for a conversion to integers ----

/// The special values that are in the range of every signed integer type.
pub const CAST_SAFE_F32: [u32; 5] = [
    F32_ZERO,
    F32_NEGATIVE_ZERO,
    F32_ONE,
    F32_MIN_POSITIVE,
    F32_MINUS_ONE,
];

/// The same values in double precision.
pub const CAST_SAFE_F64: [u64; 5] = [
    0x0000_0000_0000_0000,
    0x8000_0000_0000_0000,
    0x3ff0_0000_0000_0000,
    0x3810_0000_0000_0000,
    0xbff0_0000_0000_0000,
];

/// The fewest steps that a target type can hold. An unsigned one holds no negative number.
pub open spec fn floor_for(target: ElemType) -> int {
    if target == ElemType::U8 {
        0
    } else {
        -REACH
    }
}

/// How many of the special values are in the target's range: the last one is negative.
pub open spec fn safe_count(target: ElemType) -> int {
    if target == ElemType::U8 {
        4
    } else {
        5
    }
}

/// Whether every value of a floating-point tensor is in the range of the integer type that it is
/// converted to.
pub open spec fn cast_data(d: DataModel, target: ElemType) -> bool {
    match d {
        DataModel::F32(v) => singles_from(
            v,
            CAST_SAFE_F32@.take(safe_count(target)),
            floor_for(target),
            REACH as int,
        ),
        DataModel::F64(v) => doubles_from(
            v,
            CAST_SAFE_F64@.take(safe_count(target)),
            floor_for(target),
            REACH as int,
        ),
        _ => ordinary_data(d),
    }
}

/// Whether a floating-point tensor that is converted holds special values at a rate: none at zero,
/// nothing else at a hundred.
pub open spec fn rated_cast(d: DataModel, target: ElemType, rate: nat) -> bool {
    &&& cast_data(d, target)
    &&& match d {
        DataModel::F32(v) => {
            &&& rate == 0 ==> singles_from(v, Seq::empty(), floor_for(target), REACH as int)
            &&& rate == 100 ==> forall|k: int|
                0 <= k < v.len() ==> CAST_SAFE_F32@.take(safe_count(target)).contains(
                    #[trigger] v[k],
                )
        },
        DataModel::F64(v) => {
            &&& rate == 0 ==> doubles_from(v, Seq::empty(), floor_for(target), REACH as int)
            &&& rate == 100 ==> forall|k: int|
                0 <= k < v.len() ==> CAST_SAFE_F64@.take(safe_count(target)).contains(
                    #[trigger] v[k],
                )
        },
        _ => true,
    }
}

/// Values for a conversion to an integer type. A conversion of a number out of the target's range
/// has no determined answer, so every value stays within it. The special values that do are kept.
pub fn cast_safe(
    elem: ElemType,
    target: ElemType,
    count: usize,
    rate: u32,
    rng: &mut SeededRng,
) -> (r: TensorData)
    requires
        rate <= 100,
    ensures
        r@.elem_type() == elem,
        r@.len() == count,
        cast_data(r@, target),
        rated_cast(r@, target, rate as nat),
{
    let (floor, safe): (i64, usize) = if target == ElemType::U8 {
        (0, 4)
    } else {
        (-REACH, 5)
    };
    match elem {
        ElemType::F32 => {
            let mut pool: Vec<u32> = Vec::new();
            while pool.len() < safe
                invariant
                    pool.len() <= safe <= 5,
                    CAST_SAFE_F32@.len() == 5,
                    pool@ == CAST_SAFE_F32@.take(pool.len() as int),
                decreases safe - pool.len(),
            {
                let b: u32 = CAST_SAFE_F32[pool.len()];
                assert(CAST_SAFE_F32@.take(pool.len() + 1) =~= CAST_SAFE_F32@.take(
                    pool.len() as int,
                ).push(b));
                pool.push(b);
            }
            TensorData::F32(fill_singles(count, rate, &pool, floor, REACH, rng))
        },
        ElemType::F64 => {
            let mut pool: Vec<u64> = Vec::new();
            while pool.len() < safe
                invariant
                    pool.len() <= safe <= 5,
                    CAST_SAFE_F64@.len() == 5,
                    pool@ == CAST_SAFE_F64@.take(pool.len() as int),
                decreases safe - pool.len(),
            {
                let b: u64 = CAST_SAFE_F64[pool.len()];
                assert(CAST_SAFE_F64@.take(pool.len() + 1) =~= CAST_SAFE_F64@.take(
                    pool.len() as int,
                ).push(b));
                pool.push(b);
            }
            TensorData::F64(fill_doubles(count, rate, &pool, floor, REACH, rng))
        },
        _ => ordinary(elem, count, rng),
    }
}

// ---- divisors ----

/// Whether an integer may divide: neither zero, by which no quotient is determined, nor minus one,
/// by which that of the smallest integer overflows.
pub open spec fn divides(n: int) -> bool {
    -100 <= n < 100 && n != 0 && n != -1
}

/// Whether a tensor may divide. Division by a floating-point zero is determined, so there nothing
/// is left out.
pub open spec fn divisor_data(d: DataModel) -> bool {
    match d {
        DataModel::I32(v) => forall|k: int| 0 <= k < v.len() ==> divides(#[trigger] v[k] as int),
        DataModel::I64(v) => forall|k: int| 0 <= k < v.len() ==> divides(#[trigger] v[k] as int),
        _ => ordinary_data(d),
    }
}

fn fill_divisors(count: usize, rng: &mut SeededRng) -> (r: Vec<i64>)
    ensures
        r.len() == count,
        forall|k: int| 0 <= k < r.len() ==> divides(#[trigger] r@[k] as int),
{
    let mut out: Vec<i64> = Vec::new();
    while out.len() < count
        invariant
            out.len() <= count,
            forall|k: int| 0 <= k < out.len() ==> divides(#[trigger] out@[k] as int),
        decreases count - out.len(),
    {
        let n: i64 = rng.between(-100, 97);
        let value: i64 = if n < -1 {
            n
        } else {
            n + 2
        };
        out.push(value);
    }
    out
}

/// Ordinary values for a divisor.
pub fn nonzero(elem: ElemType, count: usize, rng: &mut SeededRng) -> (r: TensorData)
    ensures
        r@.elem_type() == elem,
        r@.len() == count,
        divisor_data(r@),
{
    match elem {
        ElemType::I32 => TensorData::I32(narrow_i32(&fill_divisors(count, rng))),
        ElemType::I64 => TensorData::I64(fill_divisors(count, rng)),
        _ => ordinary(elem, count, rng),
    }
}

/// A dividend in which the smallest integer does not meet a divisor of minus one: there it gives
/// way to its neighbour.
pub open spec fn declined(dividend: DataModel, divisor: DataModel) -> DataModel {
    match (dividend, divisor) {
        (DataModel::I32(a), DataModel::I32(b)) => DataModel::I32(
            Seq::new(
                a.len(),
                |k: int|
                    if k < b.len() && a[k] == i32::MIN && b[k] == -1 {
                        (i32::MIN + 1) as i32
                    } else {
                        a[k]
                    },
            ),
        ),
        (DataModel::I64(a), DataModel::I64(b)) => DataModel::I64(
            Seq::new(
                a.len(),
                |k: int|
                    if k < b.len() && a[k] == i64::MIN && b[k] == -1 {
                        (i64::MIN + 1) as i64
                    } else {
                        a[k]
                    },
            ),
        ),
        _ => dividend,
    }
}

/// Keeps the smallest integer from meeting a divisor of minus one. That quotient does not fit, and
/// the definition of division is silent on it.
pub fn decline_min_over_negative_one(dividend: TensorData, divisor: &TensorData) -> (r: TensorData)
    ensures
        r@ == declined(dividend@, divisor@),
        r@.elem_type() == dividend@.elem_type(),
        r@.len() == dividend@.len(),
{
    let ghost model = declined(dividend@, divisor@);
    match (dividend, divisor) {
        (TensorData::I32(a), TensorData::I32(b)) => {
            let mut out: Vec<i32> = Vec::new();
            while out.len() < a.len()
                invariant
                    out.len() <= a.len(),
                    forall|k: int|
                        0 <= k < out.len() ==> #[trigger] out@[k] == (if k < b@.len() && a@[k]
                            == i32::MIN && b@[k] == -1 {
                            (i32::MIN + 1) as i32
                        } else {
                            a@[k]
                        }),
                decreases a.len() - out.len(),
            {
                let k: usize = out.len();
                out.push(
                    if k < b.len() && a[k] == i32::MIN && b[k] == -1 {
                        i32::MIN + 1
                    } else {
                        a[k]
                    },
                );
            }
            assert(out@ =~= model->I32_0);
            TensorData::I32(out)
        },
        (TensorData::I64(a), TensorData::I64(b)) => {
            let mut out: Vec<i64> = Vec::new();
            while out.len() < a.len()
                invariant
                    out.len() <= a.len(),
                    forall|k: int|
                        0 <= k < out.len() ==> #[trigger] out@[k] == (if k < b@.len() && a@[k]
                            == i64::MIN && b@[k] == -1 {
                            (i64::MIN + 1) as i64
                        } else {
                            a@[k]
                        }),
                decreases a.len() - out.len(),
            {
                let k: usize = out.len();
                out.push(
                    if k < b.len() && a[k] == i64::MIN && b[k] == -1 {
                        i64::MIN + 1
                    } else {
                        a[k]
                    },
                );
            }
            assert(out@ =~= model->I64_0);
            TensorData::I64(out)
        },
        (data, _) => data,
    }
}

// ---- laws ----

/// A value of the grid is finite, and it is not minus zero.
pub proof fn lemma_grid_values_are_tame(b: u32, low: int, high: int)
    requires
        single_between(b, low, high),
        -REACH <= low,
        high <= REACH,
    ensures
        f32_is_finite(b),
        b != F32_NEGATIVE_ZERO,
{
    let q = choose|q: int| low <= q < high && b == #[trigger] single_at(q);
    let m = (if q < 0 { -q } else { q }) as nat;
    if m > 0 {
        lemma_two_to();
        lemma_top_bit_below(m, 24);
        lemma_f32_exact_fields(q < 0, m, -16);
        assert(f32_magnitude(b) >= 1);
    }
}

/// A value of the grid is finite, and it is not minus zero, in double precision too.
pub proof fn lemma_grid_doubles_are_tame(b: u64, low: int, high: int)
    requires
        double_between(b, low, high),
        -REACH <= low,
        high <= REACH,
    ensures
        f64_is_finite(b),
        b != F64_NEGATIVE_ZERO,
{
    let q = choose|q: int| low <= q < high && b == #[trigger] double_at(q);
    let m = (if q < 0 { -q } else { q }) as nat;
    if m > 0 {
        lemma_f64_exact_fields(m, -16);
    }
}

/// Whether a value of a tensor must not be drawn.
pub open spec fn excludes(ex: Excluded, d: DataModel, k: int) -> bool {
    match d {
        DataModel::F32(v) => excludes_single(ex, v[k]),
        DataModel::F64(v) => excludes_double(ex, v[k]),
        _ => false,
    }
}

/// A value that an operator's definition leaves open is never drawn for it, whatever the rate.
pub proof fn lemma_open_values_are_not_drawn(d: DataModel, ex: Excluded, k: int)
    requires
        special_data(d, ex),
        0 <= k < d.len(),
    ensures
        !excludes(ex, d, k),
{
    match d {
        DataModel::F32(v) => {
            let f = |b: u32| !excludes_single(ex, b);
            if single_between(v[k], -REACH, REACH as int) {
                lemma_grid_values_are_tame(v[k], -REACH, REACH as int);
            } else {
                let i = choose|i: int| 0 <= i < single_pool(ex).len() && single_pool(ex)[i] == v[k];
                SPECIAL_F32@.lemma_filter_pred(f, i);
            }
        },
        DataModel::F64(v) => {
            let f = |b: u64| !excludes_double(ex, b);
            if double_between(v[k], -REACH, REACH as int) {
                lemma_grid_doubles_are_tame(v[k], -REACH, REACH as int);
            } else {
                let i = choose|i: int| 0 <= i < double_pool(ex).len() && double_pool(ex)[i] == v[k];
                SPECIAL_F64@.lemma_filter_pred(f, i);
            }
        },
        _ => {},
    }
}

/// Whether a quotient leaves the range of its type: the smallest integer by minus one.
pub open spec fn overflows(dividend: DataModel, divisor: DataModel, k: int) -> bool {
    match (dividend, divisor) {
        (DataModel::I32(a), DataModel::I32(b)) => a[k] == i32::MIN && b[k] == -1,
        (DataModel::I64(a), DataModel::I64(b)) => a[k] == i64::MIN && b[k] == -1,
        _ => false,
    }
}

/// No quotient of a declined dividend by its divisor overflows, and the other dividends are as they
/// were.
pub proof fn lemma_declined_quotients_fit(a: DataModel, b: DataModel, k: int)
    requires
        0 <= k < a.len(),
        k < b.len(),
    ensures
        !overflows(declined(a, b), b, k),
        declined(a, b).len() == a.len(),
        !overflows(a, b, k) ==> declined(a, b).bits(k) == a.bits(k),
{
}

} // verus!
