//! Which cases can be handled in 64-bit arithmetic.
//!
//! Shapes are products and sums of extents, and a case can be written down whose shapes have no
//! count on any machine. Functions that count ask for a case without such shapes; here is how a
//! caller finds out.

use vstd::prelude::*;

use crate::case::{any_negative, count_fits, product, product_fits, OnnxCase};
use crate::features::measurable;
use crate::gen_case::usable;
use crate::gen_shape::{lemma_power_grows, power, Bounds};
use crate::generator::OnnxGenerator;
use crate::normalize::{element_total, elements_upto, lemma_elements_grow, Canonical};
use crate::ops::{data_rank, extent_or, first_dims, i64_input, in_i64, integers_at};
use crate::ops::{joined_extent, normalized_axis, op_spec, output_fits, output_spec};
use crate::ops::{padded_extent, Family};
use crate::oracle::{answers, countable, NamedOutput};
use crate::shrink::{cuttable, ranked, reducible, solid, weigh, weighable};

verus! {

/// Whether every product of leading extents is in the range of `i64`.
pub fn product_is_countable(dims: &Vec<i64>) -> (r: bool)
    ensures
        r == product_fits(dims@),
{
    let mut total: i64 = 1;
    let mut i: usize = 0;
    assert(dims@.take(0) =~= Seq::empty());
    while i < dims.len()
        invariant
            i <= dims.len(),
            total == product(dims@.take(i as int)),
            forall|k: int|
                0 <= k <= i ==> i64::MIN <= product(#[trigger] dims@.take(k)) <= i64::MAX,
        decreases dims.len() - i,
    {
        let ghost next = dims@.take(i + 1);
        assert(next.drop_last() =~= dims@.take(i as int));
        assert(next.last() == dims@[i as int]);
        let wide: i128 = mul_wide(total, dims[i]);
        assert(wide == product(next));
        if wide < i64::MIN as i128 || wide > i64::MAX as i128 {
            return false;
        }
        total = wide as i64;
        i += 1;
    }
    true
}

fn mul_wide(a: i64, b: i64) -> (r: i128)
    ensures
        r == a * b,
{
    let x: i128 = a as i128;
    let y: i128 = b as i128;
    assert(-0x4000_0000_0000_0000_0000_0000_0000_0000 <= x * y
        <= 0x4000_0000_0000_0000_0000_0000_0000_0000) by (nonlinear_arith)
        requires
            -0x8000_0000_0000_0000 <= x <= 0x7fff_ffff_ffff_ffff,
            -0x8000_0000_0000_0000 <= y <= 0x7fff_ffff_ffff_ffff,
    ;
    x * y
}

/// Whether the elements of a shape can be counted.
pub fn shape_is_countable(dims: &Vec<i64>) -> (r: bool)
    ensures
        r == count_fits(dims@),
{
    let mut i: usize = 0;
    while i < dims.len()
        invariant
            i <= dims.len(),
            forall|k: int| 0 <= k < i ==> #[trigger] dims@[k] >= 0,
        decreases dims.len() - i,
    {
        if dims[i] < 0 {
            assert(any_negative(dims@));
            return true;
        }
        i += 1;
    }
    if !product_is_countable(dims) {
        return false;
    }
    let mut total: i64 = 1;
    let mut k: usize = 0;
    assert(dims@.take(0) =~= Seq::empty());
    while k < dims.len()
        invariant
            k <= dims.len(),
            product_fits(dims@),
            total == product(dims@.take(k as int)),
        decreases dims.len() - k,
    {
        assert(dims@.take(k + 1).drop_last() =~= dims@.take(k as int));
        let wide: i128 = mul_wide(total, dims[k]);
        total = wide as i64;
        k += 1;
    }
    assert(dims@.take(dims@.len() as int) =~= dims@);
    (total as i128) <= (usize::MAX as i128)
}

fn joins(case: &OnnxCase, axis: i64) -> (r: bool)
    requires
        axis >= 0,
    ensures
        r == forall|k: int|
            0 <= k <= case@.inputs.len() ==> in_i64(
                joined_extent(#[trigger] case@.inputs.take(k), axis as int),
            ),
{
    let mut sum: i64 = 0;
    let mut i: usize = 0;
    while i < case.inputs.len()
        invariant
            i <= case.inputs.len(),
            axis >= 0,
            sum == joined_extent(case@.inputs.take(i as int), axis as int),
            forall|k: int|
                0 <= k <= i ==> in_i64(
                    joined_extent(#[trigger] case@.inputs.take(k), axis as int),
                ),
        decreases case.inputs.len() - i,
    {
        let ghost next = case@.inputs.take(i + 1);
        assert(next.drop_last() =~= case@.inputs.take(i as int));
        assert(next.last() == case.inputs@[i as int]@);
        let rank: usize = case.inputs[i].dims.len();
        let extent: i64 = if (axis as u64) < (rank as u64) {
            case.inputs[i].dims[axis as usize]
        } else {
            0
        };
        let wide: i128 = sum as i128 + extent as i128;
        assert(wide == joined_extent(next, axis as int));
        if wide < i64::MIN as i128 || wide > i64::MAX as i128 {
            return false;
        }
        sum = wide as i64;
        i += 1;
    }
    true
}

fn slices(case: &OnnxCase, dims: &Vec<i64>) -> (r: bool)
    requires
        dims@ == first_dims(case@),
    ensures
        r == ({
            let starts = integers_at(case@, 1);
            let ends = integers_at(case@, 2);
            forall|i: int|
                #![trigger starts[i]]
                0 <= i < dims@.len() && i < starts.len() && i < ends.len() ==> in_i64(
                    (if dims@[i] <= ends[i] { dims@[i] } else { ends[i] }) - starts[i],
                )
        }),
{
    let starts: Vec<i64> = i64_input(case, 1);
    let ends: Vec<i64> = i64_input(case, 2);
    let mut i: usize = 0;
    while i < dims.len() && i < starts.len() && i < ends.len()
        invariant
            i <= dims.len(),
            starts@ == integers_at(case@, 1),
            ends@ == integers_at(case@, 2),
            forall|k: int|
                #![trigger starts@[k]]
                0 <= k < i && k < dims@.len() && k < starts@.len() && k < ends@.len() ==> in_i64(
                    (if dims@[k] <= ends@[k] { dims@[k] } else { ends@[k] }) - starts@[k],
                ),
        decreases dims.len() - i,
    {
        let start: i64 = starts[i];
        let reach: i64 = if dims[i] <= ends[i] { dims[i] } else { ends[i] };
        let wide: i128 = reach as i128 - start as i128;
        if wide < i64::MIN as i128 || wide > i64::MAX as i128 {
            assert(starts@[i as int] == start);
            return false;
        }
        i += 1;
    }
    true
}

fn pads(case: &OnnxCase, dims: &Vec<i64>) -> (r: bool)
    requires
        dims@ == first_dims(case@),
    ensures
        r == ({
            let padding = integers_at(case@, 1);
            forall|i: int|
                #![trigger dims@[i]]
                0 <= i < dims@.len() ==> in_i64(dims@[i] + extent_or(padding, i, 0)) && in_i64(
                    padded_extent(dims@, padding, i),
                )
        }),
{
    let padding: Vec<i64> = i64_input(case, 1);
    let rank: usize = dims.len();
    let mut i: usize = 0;
    while i < rank
        invariant
            i <= rank == dims.len(),
            padding@ == integers_at(case@, 1),
            forall|k: int|
                #![trigger dims@[k]]
                0 <= k < i ==> in_i64(dims@[k] + extent_or(padding@, k, 0)) && in_i64(
                    padded_extent(dims@, padding@, k),
                ),
        decreases rank - i,
    {
        let before: i64 = if i < padding.len() { padding[i] } else { 0 };
        let after: i64 = if rank <= padding.len() && i < padding.len() - rank {
            padding[i + rank]
        } else {
            0
        };
        let half: i128 = dims[i] as i128 + before as i128;
        let whole: i128 = half + after as i128;
        assert(half == dims@[i as int] + extent_or(padding@, i as int, 0));
        assert(whole == padded_extent(dims@, padding@, i as int));
        if half < i64::MIN as i128 || half > i64::MAX as i128 || whole < i64::MIN as i128 || whole
            > i64::MAX as i128 {
            return false;
        }
        i += 1;
    }
    true
}

/// Whether the output shape of a case can be computed in 64-bit arithmetic.
pub fn output_is_computable(case: &OnnxCase) -> (r: bool)
    ensures
        r == output_fits(case@),
{
    let empty: Vec<i64> = Vec::new();
    let dims: &Vec<i64> = if case.inputs.len() > 0 { &case.inputs[0].dims } else { &empty };
    assert(dims@ =~= first_dims(case@));
    if (dims.len() as u64) > (i64::MAX as u64) {
        return false;
    }
    match op_spec(case.op).family {
        Family::Concat => {
            let axis: i64 = normalized_axis(&case.attrs, dims.len());
            joins(case, axis)
        },
        Family::Slice => slices(case, dims),
        Family::Pad => pads(case, dims),
        _ => true,
    }
}

/// Whether a case's features can be computed in 64-bit arithmetic.
pub fn is_measurable(case: &OnnxCase) -> (r: bool)
    ensures
        r == measurable(case@),
{
    if !output_is_computable(case) {
        return false;
    }
    let (_, dims): (_, Vec<i64>) = output_spec(case);
    if !product_is_countable(&dims) || (data_rank(case) as u64) > (i64::MAX as u64) {
        return false;
    }
    let mut i: usize = 0;
    while i < case.inputs.len()
        invariant
            i <= case.inputs.len(),
            forall|k: int| 0 <= k < i ==> count_fits((#[trigger] case@.inputs[k]).dims),
        decreases case.inputs.len() - i,
    {
        assert(case@.inputs[i as int] == case.inputs@[i as int]@);
        if !shape_is_countable(&case.inputs[i].dims) {
            return false;
        }
        i += 1;
    }
    true
}

proof fn lemma_products_grow(s: Seq<i64>, n: int)
    requires
        0 <= n <= s.len(),
        forall|k: int| 0 <= k < s.len() ==> #[trigger] s[k] >= 1,
    ensures
        1 <= product(s.take(n)) <= product(s),
    decreases s.len(),
{
    if n == s.len() {
        assert(s.take(n) =~= s);
        if n > 0 {
            lemma_products_grow(s.drop_last(), n - 1);
            assert(s.drop_last().take(n - 1) =~= s.drop_last());
            assert(product(s.drop_last()) * s.last() >= 1) by (nonlinear_arith)
                requires
                    product(s.drop_last()) >= 1,
                    s.last() >= 1,
            ;
        }
    } else {
        lemma_products_grow(s.drop_last(), n);
        assert(s.drop_last().take(n) =~= s.take(n));
        let before = product(s.drop_last());
        assert(before * s.last() >= before) by (nonlinear_arith)
            requires
                before >= 1,
                s.last() >= 1,
        ;
    }
}

fn can_be_cut(dims: &Vec<i64>) -> (r: bool)
    ensures
        r == cuttable(dims@),
{
    let ghost s = solid(dims@);
    let mut total: u128 = 1;
    let mut i: usize = 0;
    assert(s.take(0) =~= Seq::empty());
    while i < dims.len()
        invariant
            i <= dims.len(),
            s == solid(dims@),
            total == product(s.take(i as int)),
            total <= usize::MAX,
            forall|k: int| 0 <= k < i ==> #[trigger] dims@[k] >= 0,
        decreases dims.len() - i,
    {
        if dims[i] < 0 {
            assert(any_negative(dims@));
            return false;
        }
        let factor: u128 = if dims[i] < 1 { 1 } else { dims[i] as u128 };
        let ghost next = s.take(i + 1);
        assert(next.drop_last() =~= s.take(i as int));
        assert(next.last() == factor);
        assert(total * factor <= 0x7fff_ffff_ffff_ffff * 0xffff_ffff_ffff_ffff) by (nonlinear_arith)
            requires
                total <= 0xffff_ffff_ffff_ffff,
                factor <= 0x7fff_ffff_ffff_ffff,
        ;
        total = total * factor;
        if total > usize::MAX as u128 {
            proof {
                lemma_products_grow(s, i + 1);
            }
            return false;
        }
        i += 1;
    }
    assert(s.take(s.len() as int) =~= s);
    true
}

/// Whether a case's reductions can be listed on this machine.
pub fn is_reducible(case: &OnnxCase) -> (r: bool)
    ensures
        r == (weighable(case@) && reducible(case@) && ranked(case@)),
{
    if weigh(case).is_none() {
        return false;
    }
    let mut i: usize = 0;
    while i < case.inputs.len()
        invariant
            i <= case.inputs.len(),
            forall|k: int| 0 <= k < i ==> cuttable((#[trigger] case@.inputs[k]).dims),
            forall|k: int| 0 <= k < i ==> (#[trigger] case@.inputs[k]).dims.len() <= i64::MAX,
        decreases case.inputs.len() - i,
    {
        assert(case@.inputs[i as int] == case.inputs@[i as int]@);
        if !can_be_cut(&case.inputs[i].dims) || (case.inputs[i].dims.len() as u64) > (i64::MAX
            as u64) {
            return false;
        }
        i += 1;
    }
    true
}

proof fn lemma_small_powers(base: nat, n: nat)
    requires
        base <= 1,
    ensures
        power(base, n) <= 1,
    decreases n,
{
    if n > 0 {
        lemma_small_powers(base, (n - 1) as nat);
        assert(base * power(base, (n - 1) as nat) <= 1) by (nonlinear_arith)
            requires
                0 <= base <= 1,
                0 <= power(base, (n - 1) as nat) <= 1,
        ;
    }
}

fn power_is_at_most(base: u64, n: usize, limit: u64) -> (r: bool)
    requires
        limit >= 1,
    ensures
        r == (power(base as nat, n as nat) <= limit),
{
    if base <= 1 {
        proof {
            lemma_small_powers(base as nat, n as nat);
        }
        return true;
    }
    let mut total: u128 = 1;
    let mut k: usize = 0;
    while k < n
        invariant
            k <= n,
            base >= 2,
            total == power(base as nat, k as nat),
            total <= limit,
        decreases n - k,
    {
        assert(base * total <= 0xffff_ffff_ffff_ffff * 0xffff_ffff_ffff_ffff) by (nonlinear_arith)
            requires
                base <= 0xffff_ffff_ffff_ffff,
                total <= 0xffff_ffff_ffff_ffff,
        ;
        assert(base * total == power(base as nat, (k + 1) as nat));
        total = (base as u128) * total;
        if total > limit as u128 {
            proof {
                lemma_power_grows(base as nat, (k + 1) as nat, n as nat);
            }
            return false;
        }
        k += 1;
    }
    true
}

fn limit_of_counts() -> (r: u64)
    ensures
        r >= 1,
        r <= i64::MAX && r <= usize::MAX,
        r == i64::MAX || r == usize::MAX,
{
    if usize::MAX as u64 <= i64::MAX as u64 {
        usize::MAX as u64
    } else {
        i64::MAX as u64
    }
}

fn is_usable(bounds: &Bounds) -> (r: bool)
    ensures
        r == usable(*bounds),
{
    bounds.special_value_rate <= 100 && bounds.max_rank <= usize::MAX / 2 && (bounds.max_rank as u64)
        <= (i64::MAX as u64) / 2 && (bounds.element_budget as u64) <= (i64::MAX as u64)
}

/// Whether a generator can draw on this machine: it has operators, its configuration offers each of
/// them, and the shapes that it permits can be counted.
pub fn is_ready(generator: &OnnxGenerator) -> (r: bool)
    ensures
        r == generator.ready(),
{
    if generator.operators.len() == 0 || (generator.operators.len() as u64) > (i64::MAX as u64) {
        return false;
    }
    match &generator.bounds {
        None => {
            if generator.special_value_rate > 100 || (generator.max_rank as u64) > (i64::MAX as u64)
                || generator.max_dim < 0 {
                return false;
            }
            let limit: u64 = limit_of_counts();
            power_is_at_most(generator.max_dim as u64, generator.max_rank, limit)
        },
        Some(bounds) => {
            if !is_usable(bounds) {
                return false;
            }
            let types: usize = bounds.element_types().len();
            let mut i: usize = 0;
            while i < generator.operators.len()
                invariant
                    i <= generator.operators.len(),
                    generator.bounds == Some(*bounds),
                    types == bounds.types().len(),
                    forall|k: int|
                        0 <= k < i ==> bounds.offers(#[trigger] generator.operators@[k]) && (
                        generator.operators@[k].family() == Family::Cast ==> bounds.types().len()
                            > 1),
                decreases generator.operators.len() - i,
            {
                let op = generator.operators[i];
                if !bounds.offers_operator(op) {
                    return false;
                }
                match op_spec(op).family {
                    Family::Cast => {
                        if types <= 1 {
                            return false;
                        }
                    },
                    _ => {},
                }
                i += 1;
            }
            true
        },
    }
}

/// Whether the elements of an answer can be counted.
pub fn answer_is_countable(answer: &Canonical) -> (r: bool)
    ensures
        r == (element_total(answer@) <= usize::MAX),
{
    let mut total: usize = 0;
    let mut i: usize = 0;
    while i < answer.tensors.len()
        invariant
            i <= answer.tensors.len(),
            total == elements_upto(answer@.tensors, i as nat),
        decreases answer.tensors.len() - i,
    {
        assert(answer@.tensors[i as int] == answer.tensors@[i as int]@);
        if answer.tensors[i].bits.len() > usize::MAX - total {
            proof {
                lemma_elements_grow(answer@.tensors, (i + 1) as nat, answer@.tensors.len());
            }
            return false;
        }
        total = total + answer.tensors[i].bits.len();
        i += 1;
    }
    true
}

/// Whether the elements of every answer can be counted.
pub fn answers_are_countable(outputs: &Vec<NamedOutput>) -> (r: bool)
    ensures
        r == countable(answers(outputs@)),
{
    let mut i: usize = 0;
    while i < outputs.len()
        invariant
            i <= outputs.len(),
            forall|k: int|
                0 <= k < i ==> element_total((#[trigger] answers(outputs@)[k]).output)
                    <= usize::MAX,
        decreases outputs.len() - i,
    {
        assert(answers(outputs@)[i as int] == outputs@[i as int]@);
        if !answer_is_countable(&outputs[i].output) {
            return false;
        }
        i += 1;
    }
    true
}

} // verus!
