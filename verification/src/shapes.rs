//! Drawing shapes within a budget of elements.
//!
//! Every shape goes through one place, so that the budget holds wherever a shape comes from.
//! Whether an extent may be zero is decided before the shape is drawn and not mended afterwards: a
//! zero hides the other extents from the budget, and raising it later would break it.

use vstd::prelude::*;

use crate::case::{any_negative, product, product_fits, product_of};
use crate::gen_shape::Bounds;
use crate::rng::SeededRng;
use crate::validation::is_permutation;

verus! {

// ---- products ----

/// Replacing one extent scales the product.
pub proof fn lemma_product_update(dims: Seq<i64>, at: int, extent: i64)
    requires
        0 <= at < dims.len(),
    ensures
        product(dims.update(at, extent)) * dims[at] == product(dims) * extent,
    decreases dims.len(),
{
    let changed = dims.update(at, extent);
    if at == dims.len() - 1 {
        assert(changed.drop_last() =~= dims.drop_last());
        let p = product(dims.drop_last());
        assert((p * extent) * dims[at] == (p * dims[at]) * extent) by (nonlinear_arith);
    } else {
        lemma_product_update(dims.drop_last(), at, extent);
        assert(changed.drop_last() =~= dims.drop_last().update(at, extent));
        let p = product(dims.drop_last());
        let q = product(changed.drop_last());
        assert((q * dims.last()) * dims[at] == (p * dims.last()) * extent) by (nonlinear_arith)
            requires
                q * dims[at] == p * extent,
        ;
    }
}

pub proof fn lemma_product_push(dims: Seq<i64>, extent: i64)
    ensures
        product(dims.push(extent)) == product(dims) * extent,
{
    assert(dims.push(extent).drop_last() =~= dims);
}

/// Every prefix of a shape without negative extents holds no more than the whole, if no extent is
/// zero.
proof fn lemma_prefix_product(dims: Seq<i64>, k: int)
    requires
        0 <= k <= dims.len(),
        forall|i: int| 0 <= i < dims.len() ==> #[trigger] dims[i] >= 1,
    ensures
        1 <= product(dims.take(k)) <= product(dims),
    decreases dims.len(),
{
    if dims.len() == 0 {
        assert(dims.take(k) =~= dims);
    } else {
        let front = dims.drop_last();
        assert forall|i: int| 0 <= i < front.len() implies #[trigger] front[i] >= 1 by {
            assert(dims[i] >= 1);
        }
        lemma_prefix_product(front, if k < dims.len() { k } else { k - 1 });
        lemma_prefix_product(front, front.len() as int);
        assert(front.take(front.len() as int) =~= front);
        assert(dims.last() >= 1);
        assert(product(front) <= product(front) * dims.last()) by (nonlinear_arith)
            requires
                product(front) >= 1,
                dims.last() >= 1,
        ;
        if k < dims.len() {
            assert(front.take(k) =~= dims.take(k));
        } else {
            assert(dims.take(k) =~= dims);
        }
    }
}

/// A shape without zeros whose product is in range can be counted from left to right.
pub proof fn lemma_positive_product_fits(dims: Seq<i64>)
    requires
        forall|i: int| 0 <= i < dims.len() ==> #[trigger] dims[i] >= 1,
        product(dims) <= i64::MAX,
    ensures
        product_fits(dims),
        product(dims) >= 1,
        !any_negative(dims),
{
    assert forall|k: int| 0 <= k <= dims.len() implies i64::MIN <= product(#[trigger] dims.take(k))
        <= i64::MAX by {
        lemma_prefix_product(dims, k);
    }
    lemma_prefix_product(dims, dims.len() as int);
    assert(dims.take(dims.len() as int) =~= dims);
}

/// How many elements a shape holds.
pub fn element_count(dims: &Vec<i64>) -> (r: usize)
    requires
        !any_negative(dims@),
        product_fits(dims@),
        product(dims@) <= usize::MAX,
    ensures
        r == product(dims@),
{
    proof {
        crate::case::lemma_product_nonnegative(dims@);
    }
    product_of(dims) as usize
}

// ---- drawing ----

/// The most elements that a shape may hold.
pub open spec fn budget(b: Bounds) -> int {
    if b.element_budget >= 1 {
        b.element_budget as int
    } else {
        1
    }
}

/// The lowest rank that is drawn. Scalars are drawn only where degenerate shapes are.
pub open spec fn lowest_rank(b: Bounds, min_rank: nat) -> nat {
    if b.degenerate_shapes || min_rank >= 1 {
        min_rank
    } else {
        1
    }
}

/// Whether a shape is one that may be drawn.
pub open spec fn shape_within(dims: Seq<i64>, b: Bounds, min_rank: nat, allow_zero: bool) -> bool {
    let low: int = if allow_zero {
        0
    } else {
        1
    };
    let lowest = lowest_rank(b, min_rank);
    &&& lowest <= dims.len()
    &&& dims.len() <= b.max_rank || dims.len() == lowest
    &&& forall|i: int|
        0 <= i < dims.len() ==> low <= #[trigger] dims[i] && (dims[i] <= b.max_dim || dims[i] == low)
    &&& product(dims) <= budget(b)
    &&& product_fits(dims)
}

/// Draws a shape. Each extent is bounded by what the extents before it leave of the budget.
pub fn shape_bounded(
    bounds: &Bounds,
    min_rank: usize,
    allow_zero: bool,
    rng: &mut SeededRng,
) -> (r: Vec<i64>)
    requires
        bounds.max_rank <= i64::MAX,
        bounds.element_budget <= i64::MAX,
        min_rank <= 1,
    ensures
        shape_within(r@, *bounds, min_rank as nat, allow_zero),
        !any_negative(r@),
        !allow_zero ==> product(r@) >= 1,
{
    let lowest: usize = if bounds.degenerate_shapes || min_rank >= 1 {
        min_rank
    } else {
        1
    };
    let highest: usize = if bounds.max_rank >= lowest {
        bounds.max_rank
    } else {
        lowest
    };
    let rank: usize = rng.between(lowest as i64, highest as i64) as usize;
    let total: i64 = if bounds.element_budget >= 1 {
        bounds.element_budget as i64
    } else {
        1
    };
    let low: i64 = if allow_zero {
        0
    } else {
        1
    };
    let mut dims: Vec<i64> = Vec::new();
    let mut remaining: i64 = total;
    let ghost mut empty = false;
    assert(product_fits(dims@)) by {
        assert forall|k: int| 0 <= k <= dims@.len() implies i64::MIN <= product(
            #[trigger] dims@.take(k),
        ) <= i64::MAX by {
            assert(dims@.take(k) =~= Seq::<i64>::empty());
        }
    }
    while dims.len() < rank
        invariant
            dims.len() <= rank,
            total == budget(*bounds),
            1 <= remaining <= total,
            low == (if allow_zero {
                0int
            } else {
                1int
            }),
            forall|i: int|
                0 <= i < dims.len() ==> low <= #[trigger] dims@[i] && (dims@[i] <= bounds.max_dim
                    || dims@[i] == low),
            empty ==> product(dims@) == 0,
            !empty ==> product(dims@) >= 1 && product(dims@) * remaining <= total,
            empty ==> allow_zero,
            product_fits(dims@),
        decreases rank - dims.len(),
    {
        let ceiling: i64 = if bounds.max_dim < remaining {
            bounds.max_dim
        } else {
            remaining
        };
        let top: i64 = if ceiling >= low {
            ceiling
        } else {
            low
        };
        let dim: i64 = rng.between(low, top);
        let ghost before = dims@;
        proof {
            lemma_product_push(before, dim);
            if empty {
                assert(0 * dim == 0) by (nonlinear_arith);
            } else if dim == 0 {
                assert(product(before) * 0 == 0) by (nonlinear_arith);
            } else {
                let rest = remaining / dim;
                assert(rest >= 1 && dim * rest <= remaining) by (nonlinear_arith)
                    requires
                        1 <= dim <= remaining,
                        rest == remaining / dim,
                ;
                assert((product(before) * dim) * rest <= product(before) * remaining)
                    by (nonlinear_arith)
                    requires
                        product(before) >= 1,
                        dim * rest <= remaining,
                ;
                assert(product(before) * dim >= 1) by (nonlinear_arith)
                    requires
                        product(before) >= 1,
                        dim >= 1,
                ;
                assert(product(before) * dim <= (product(before) * dim) * rest) by (nonlinear_arith)
                    requires
                        product(before) * dim >= 1,
                        rest >= 1,
                ;
            }
        }
        dims.push(dim);
        if dim == 0 {
            proof {
                empty = true;
            }
            remaining = total;
        } else {
            proof {
                assert(1 <= remaining / dim <= remaining) by (nonlinear_arith)
                    requires
                        1 <= dim <= remaining,
                ;
            }
            remaining = remaining / dim;
        }
        proof {
            assert forall|k: int| 0 <= k <= dims@.len() implies i64::MIN <= product(
                #[trigger] dims@.take(k),
            ) <= i64::MAX by {
                if k < dims@.len() {
                    assert(dims@.take(k) =~= before.take(k));
                } else {
                    assert(dims@.take(k) =~= dims@);
                    if !empty {
                        assert(product(dims@) <= product(dims@) * remaining) by (nonlinear_arith)
                            requires
                                product(dims@) >= 1,
                                remaining >= 1,
                        ;
                    }
                }
            }
        }
    }
    proof {
        if !empty {
            assert(product(dims@) <= product(dims@) * remaining) by (nonlinear_arith)
                requires
                    product(dims@) >= 1,
                    remaining >= 1,
            ;
        }
    }
    dims
}

/// A shape, with extents of zero where degenerate shapes are on.
pub fn shape(bounds: &Bounds, rng: &mut SeededRng) -> (r: Vec<i64>)
    requires
        bounds.max_rank <= i64::MAX,
        bounds.element_budget <= i64::MAX,
    ensures
        shape_within(r@, *bounds, 0, bounds.degenerate_shapes),
        !any_negative(r@),
{
    shape_bounded(bounds, 0, bounds.degenerate_shapes, rng)
}

/// A shape with an axis and without extents of zero.
pub fn shape_nonempty(bounds: &Bounds, rng: &mut SeededRng) -> (r: Vec<i64>)
    requires
        bounds.max_rank <= i64::MAX,
        bounds.element_budget <= i64::MAX,
    ensures
        shape_within(r@, *bounds, 1, false),
        !any_negative(r@),
        product(r@) >= 1,
        r.len() >= 1,
{
    shape_bounded(bounds, 1, false, rng)
}

/// The largest extent of a matrix that a configuration lets through.
pub open spec fn widest(b: Bounds) -> nat {
    if b.max_dim >= 1 {
        b.max_dim as nat
    } else {
        1
    }
}

// ---- other draws ----

/// A shape that holds exactly `total` elements, built by splitting off one divisor after another.
pub fn factorization(total: i64, bounds: &Bounds, rng: &mut SeededRng) -> (r: Vec<i64>)
    requires
        total >= 0,
        bounds.max_rank <= i64::MAX,
    ensures
        product(r@) == total,
        !any_negative(r@),
        r.len() >= 1,
        r.len() <= bounds.max_rank || r.len() == 1,
        r@.contains(0i64) == (total == 0),
{
    if total == 0 {
        let r: Vec<i64> = vec![0];
        proof {
            crate::validation::lemma_product_one(0);
            assert(r@ =~= seq![0i64]);
            assert(r@[0] == 0);
        }
        return r;
    }
    let limit: usize = if bounds.max_rank >= 1 {
        bounds.max_rank
    } else {
        1
    };
    let mut remaining: i64 = total;
    let mut dims: Vec<i64> = Vec::new();
    while remaining > 1 && dims.len() + 1 < limit
        invariant
            1 <= remaining <= total,
            dims.len() < limit <= i64::MAX,
            product(dims@) * remaining == total,
            forall|i: int| 0 <= i < dims.len() ==> #[trigger] dims@[i] >= 1,
        decreases limit - dims.len(),
    {
        let divisor: i64 = draw_divisor(remaining, rng);
        proof {
            lemma_product_push(dims@, divisor);
            let p = product(dims@);
            let rest = remaining / divisor;
            assert(1 <= rest <= remaining && (p * divisor) * rest == p * remaining)
                by (nonlinear_arith)
                requires
                    divisor >= 1,
                    remaining >= 1,
                    remaining % divisor == 0,
                    rest == remaining / divisor,
                    divisor <= remaining,
            ;
        }
        dims.push(divisor);
        remaining = remaining / divisor;
    }
    proof {
        lemma_product_push(dims@, remaining);
    }
    dims.push(remaining);
    assert forall|i: int| 0 <= i < dims.len() implies #[trigger] dims@[i] >= 1 by {}
    dims
}

/// Some divisor of a positive number.
fn draw_divisor(n: i64, rng: &mut SeededRng) -> (r: i64)
    requires
        n >= 1,
    ensures
        1 <= r <= n,
        n % r == 0,
{
    let mut divisors: Vec<i64> = Vec::new();
    let mut d: i64 = 1;
    while d < n
        invariant
            1 <= d <= n,
            divisors.len() < d,
            forall|k: int|
                0 <= k < divisors.len() ==> 1 <= #[trigger] divisors@[k] <= n && n % divisors@[k]
                    == 0,
        decreases n - d,
    {
        if n % d == 0 {
            divisors.push(d);
        }
        d += 1;
    }
    assert(n % n == 0) by (nonlinear_arith)
        requires
            n >= 1,
    ;
    divisors.push(n);
    let at: usize = rng.index(divisors.len());
    divisors[at]
}

/// Some permutation of the first `rank` axes, each as likely as any other.
pub fn draw_permutation(rank: usize, rng: &mut SeededRng) -> (r: Vec<i64>)
    requires
        rank <= i64::MAX,
    ensures
        is_permutation(r@, rank as nat),
{
    let mut perm: Vec<i64> = Vec::new();
    while perm.len() < rank
        invariant
            perm.len() <= rank <= i64::MAX,
            forall|k: int| 0 <= k < perm.len() ==> #[trigger] perm@[k] == k,
        decreases rank - perm.len(),
    {
        let next: i64 = perm.len() as i64;
        perm.push(next);
    }
    let mut i: usize = rank;
    while i > 1
        invariant
            i <= rank <= i64::MAX,
            is_permutation(perm@, rank as nat),
        decreases i,
    {
        i -= 1;
        let j: usize = rng.index(i + 1);
        let (a, b): (i64, i64) = (perm[i], perm[j]);
        let ghost before = perm@;
        perm.set(i, b);
        perm.set(j, a);
        assert(perm@ =~= before.update(i as int, b).update(j as int, a));
    }
    perm
}

} // verus!
