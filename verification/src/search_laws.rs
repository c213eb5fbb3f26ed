//! What the search for rules picks, said with bits, counts of findings and counts of features.

use vstd::prelude::*;

use crate::features::{has_bit, lemma_no_bit, lemma_set_bit};
use crate::negatives::Source;
use crate::predicate::{fires, rule_size, Predicate};
use crate::search::{all_rules, best_of, best_upto, coverage, covers, eligible, explanation, left_by};
use crate::search::{lemma_best_is_eligible, lemma_coverage_splits, pairs, pairs_with, sign_count};
use crate::search::{signed, signed_upto, singles, ties_upto, triples, triples_from, triples_with};

verus! {

// ---- when a rule fires ----

/// The digit of a word at a binary place.
pub open spec fn digit(word: u64, k: u64) -> int {
    ((word >> k) % 2) as int
}

proof fn lemma_digit(word: u64, k: u64)
    requires
        k < 64,
    ensures
        has_bit(word, k) == (digit(word, k) == 1),
        digit(word, k) == 0 || digit(word, k) == 1,
{
    assert((word & (1u64 << k) != 0) == ((word >> k) % 2 == 1)) by (bit_vector)
        requires
            k < 64,
    ;
}

/// Whether what a rule requires is there and what it forbids is not, place by place.
pub open spec fn accepts(p: Predicate, word: u64) -> bool {
    forall|k: u64|
        k < 64 ==> (digit(p.required, k) == 1 ==> #[trigger] digit(word, k) == 1) && (digit(
            p.forbidden,
            k,
        ) == 1 ==> digit(word, k) == 0)
}

/// A rule fires exactly where every feature that it requires holds and none that it forbids does.
pub proof fn lemma_a_rule_fires_place_by_place(p: Predicate, word: u64)
    ensures
        fires(p, word) == accepts(p, word),
{
    assert forall|k: u64| k < 64 implies has_bit(word, k) == (digit(word, k) == 1) && has_bit(
        p.required,
        k,
    ) == (digit(p.required, k) == 1) && has_bit(p.forbidden, k) == (digit(p.forbidden, k) == 1)
        && (digit(word, k) == 0 || #[trigger] digit(word, k) == 1) by {
        lemma_digit(word, k);
        lemma_digit(p.required, k);
        lemma_digit(p.forbidden, k);
    }
    if accepts(p, word) {
        assert forall|k: u64| k < 64 implies (has_bit(p.required, k) ==> #[trigger] has_bit(
            word,
            k,
        )) && (has_bit(p.forbidden, k) ==> !has_bit(word, k)) by {
            assert(digit(word, k) == 0 || digit(word, k) == 1);
        }
    }
    if fires(p, word) {
        assert forall|k: u64| k < 64 implies (digit(p.required, k) == 1 ==> #[trigger] digit(word, k)
            == 1) && (digit(p.forbidden, k) == 1 ==> digit(word, k) == 0) by {
            assert(digit(word, k) == 0 || digit(word, k) == 1);
            assert(has_bit(word, k) == (digit(word, k) == 1));
        }
    }
}

/// How many places of a word hold a one.
pub open spec fn ones_in(word: u64) -> nat {
    Seq::new(64, |k: int| k as u64).filter(|k: u64| digit(word, k) == 1).len()
}

proof fn lemma_ones_in(word: u64, n: nat)
    requires
        n <= 64,
    ensures
        crate::features::ones(word, n) == Seq::new(n, |k: int| k as u64).filter(
            |k: u64| digit(word, k) == 1,
        ).len(),
    decreases n,
{
    reveal(Seq::filter);
    let f = |k: u64| digit(word, k) == 1;
    if n > 0 {
        lemma_ones_in(word, (n - 1) as nat);
        let front = Seq::new((n - 1) as nat, |k: int| k as u64);
        assert(Seq::new(n, |k: int| k as u64) =~= front.push((n - 1) as u64));
        front.lemma_filter_push((n - 1) as u64, f);
        lemma_digit(word, (n - 1) as u64);
    }
}

/// The size of a rule is how many features it requires and how many it forbids.
pub proof fn lemma_the_size_of_a_rule(p: Predicate)
    ensures
        rule_size(p) == ones_in(p.required) + ones_in(p.forbidden),
{
    lemma_ones_in(p.required, 64);
    lemma_ones_in(p.forbidden, 64);
}

// ---- what is picked ----

/// How many of the remaining findings a rule fires on.
pub open spec fn reach(p: Predicate, positives: Seq<u64>, remaining: Seq<usize>) -> nat {
    remaining.filter(|x: usize| accepts(p, positives[x as int])).len()
}

/// Whether a rule fires on no case of the pool.
pub open spec fn harmless(p: Predicate, negatives: Seq<u64>) -> bool {
    forall|k: int| 0 <= k < negatives.len() ==> !accepts(p, #[trigger] negatives[k])
}

proof fn lemma_reach(p: Predicate, positives: Seq<u64>, remaining: Seq<usize>)
    ensures
        coverage(p, positives, remaining) == remaining.filter(
            |x: usize| accepts(p, positives[x as int]),
        ),
        coverage(p, positives, remaining).len() == reach(p, positives, remaining),
{
    let f = covers(p, positives);
    let g = |x: usize| accepts(p, positives[x as int]);
    assert forall|x: usize| f(x) == #[trigger] g(x) by {
        lemma_a_rule_fires_place_by_place(p, positives[x as int]);
    }
    assert(f =~= g);
}

proof fn lemma_harmless(p: Predicate, negatives: Seq<u64>)
    ensures
        crate::search::clean(p, negatives) == harmless(p, negatives),
{
    assert forall|k: int| 0 <= k < negatives.len() implies fires(p, #[trigger] negatives[k])
        == accepts(p, negatives[k]) by {
        lemma_a_rule_fires_place_by_place(p, negatives[k]);
    }
}

/// The rule that is picked is one of the rules, spares the pool, and covers exactly the findings
/// that it fires on, at least one. No rule that spares the pool covers more of what remains, and
/// none that covers as much speaks of fewer features.
pub proof fn lemma_the_pick_covers_the_most(
    rules: Seq<Predicate>,
    positives: Seq<u64>,
    remaining: Seq<usize>,
    sources: Seq<Source>,
    negatives: Seq<u64>,
    i: int,
)
    requires
        0 <= i < rules.len(),
    ensures
        match best_of(rules, positives, remaining, sources, negatives) {
            Some(c) => {
                &&& rules.contains(c.predicate)
                &&& harmless(c.predicate, negatives)
                &&& reach(c.predicate, positives, remaining) > 0
                &&& c.covered == remaining.filter(
                    |x: usize| accepts(c.predicate, positives[x as int]),
                )
                &&& harmless(rules[i], negatives) ==> {
                    &&& reach(rules[i], positives, remaining) <= reach(
                        c.predicate,
                        positives,
                        remaining,
                    )
                    &&& reach(rules[i], positives, remaining) == reach(
                        c.predicate,
                        positives,
                        remaining,
                    ) ==> ones_in(rules[i].required) + ones_in(rules[i].forbidden) >= ones_in(
                        c.predicate.required,
                    ) + ones_in(c.predicate.forbidden)
                }
            },
            None => harmless(rules[i], negatives) ==> reach(rules[i], positives, remaining) == 0,
        },
{
    let b = best_upto(rules, positives, remaining, negatives, rules.len());
    lemma_best_is_eligible(rules, positives, remaining, negatives, rules.len());
    lemma_reach(rules[i], positives, remaining);
    lemma_harmless(rules[i], negatives);
    lemma_the_size_of_a_rule(rules[i]);
    if b >= 0 {
        lemma_reach(rules[b], positives, remaining);
        lemma_harmless(rules[b], negatives);
        lemma_the_size_of_a_rule(rules[b]);
    }
}

/// Whether a rule spares the pool, covers as many findings as another, at least one, and speaks of
/// as many features.
pub open spec fn as_good_as(
    p: Predicate,
    best: Predicate,
    positives: Seq<u64>,
    remaining: Seq<usize>,
    negatives: Seq<u64>,
) -> bool {
    &&& harmless(p, negatives)
    &&& reach(p, positives, remaining) > 0
    &&& reach(p, positives, remaining) == reach(best, positives, remaining)
    &&& ones_in(p.required) + ones_in(p.forbidden) == ones_in(best.required) + ones_in(
        best.forbidden,
    )
}

/// The rules that are reported beside the one that is picked are those that come later, spare the
/// pool, and neither cover another number of findings nor speak of another number of features.
pub proof fn lemma_ties_are_reported(
    rules: Seq<Predicate>,
    positives: Seq<u64>,
    remaining: Seq<usize>,
    negatives: Seq<u64>,
    b: int,
    q: Predicate,
)
    requires
        0 <= b < rules.len(),
    ensures
        ties_upto(rules, positives, remaining, negatives, b, rules.len() as int).contains(q)
            <==> exists|i: int|
            b < i < rules.len() && #[trigger] rules[i] == q && as_good_as(
                q,
                rules[b],
                positives,
                remaining,
                negatives,
            ),
{
    lemma_ties_upto(rules, positives, remaining, negatives, b, rules.len() as int, q);
}

proof fn lemma_ties_upto(
    rules: Seq<Predicate>,
    positives: Seq<u64>,
    remaining: Seq<usize>,
    negatives: Seq<u64>,
    b: int,
    n: int,
    q: Predicate,
)
    requires
        0 <= b < n <= rules.len(),
    ensures
        ties_upto(rules, positives, remaining, negatives, b, n).contains(q) <==> exists|i: int|
            b < i < n && #[trigger] rules[i] == q && as_good_as(
                q,
                rules[b],
                positives,
                remaining,
                negatives,
            ),
    decreases n,
{
    if n > b + 1 {
        lemma_ties_upto(rules, positives, remaining, negatives, b, n - 1, q);
        let rest = ties_upto(rules, positives, remaining, negatives, b, n - 1);
        let all = ties_upto(rules, positives, remaining, negatives, b, n);
        let p = rules[n - 1];
        lemma_reach(p, positives, remaining);
        lemma_reach(rules[b], positives, remaining);
        lemma_harmless(p, negatives);
        lemma_the_size_of_a_rule(p);
        lemma_the_size_of_a_rule(rules[b]);
        if rest.contains(q) {
            let k = choose|k: int| 0 <= k < rest.len() && rest[k] == q;
            assert(all[k] == q);
            let i = choose|i: int|
                b < i < n - 1 && #[trigger] rules[i] == q && as_good_as(
                    q,
                    rules[b],
                    positives,
                    remaining,
                    negatives,
                );
            assert(rules[i] == q);
        }
        if p == q && as_good_as(q, rules[b], positives, remaining, negatives) {
            assert(all[rest.len() as int] == q);
        }
        if all.contains(q) {
            let k = choose|k: int| 0 <= k < all.len() && all[k] == q;
            if k < rest.len() {
                assert(rest[k] == q);
            } else {
                assert(rules[n - 1] == q);
            }
        }
    }
}

/// An explanation begins with the best rule for all findings and goes on with those that it does
/// not fire on. Where no rule is left, the findings that remain are unexplained.
pub proof fn lemma_an_explanation_takes_the_best_first(
    rules: Seq<Predicate>,
    positives: Seq<u64>,
    remaining: Seq<usize>,
    sources: Seq<Source>,
    negatives: Seq<u64>,
)
    ensures
        ({
            let (classes, unexplained) = explanation(rules, positives, remaining, sources, negatives);
            match best_of(rules, positives, remaining, sources, negatives) {
                Some(best) => {
                    let left = remaining.filter(
                        |x: usize| !accepts(best.predicate, positives[x as int]),
                    );
                    let rest = explanation(rules, positives, left, sources, negatives);
                    &&& classes.len() == 1 + rest.0.len()
                    &&& classes[0] == best
                    &&& classes.skip(1) == rest.0
                    &&& unexplained == rest.1
                },
                None => classes.len() == 0 && unexplained == remaining,
            }
        }),
{
    let b = best_upto(rules, positives, remaining, negatives, rules.len());
    lemma_best_is_eligible(rules, positives, remaining, negatives, rules.len());
    if b >= 0 {
        let p = rules[b];
        let f = |x: usize| !accepts(p, positives[x as int]);
        let g = |i: usize| !fires(p, positives[i as int]);
        assert forall|x: usize| #[trigger] f(x) == g(x) by {
            lemma_a_rule_fires_place_by_place(p, positives[x as int]);
        }
        assert(f =~= g);
        lemma_coverage_splits(p, positives, remaining);
        let rest = explanation(rules, positives, left_by(p, positives, remaining), sources, negatives);
        assert(explanation(rules, positives, remaining, sources, negatives).0.skip(1) =~= rest.0);
    }
}

/// A finding is left unexplained only where every rule that fires on it fires on the pool as well.
pub proof fn lemma_the_unexplained_cannot_be_explained(
    rules: Seq<Predicate>,
    positives: Seq<u64>,
    remaining: Seq<usize>,
    sources: Seq<Source>,
    negatives: Seq<u64>,
    x: usize,
    i: int,
)
    requires
        explanation(rules, positives, remaining, sources, negatives).1.contains(x),
        0 <= i < rules.len(),
        accepts(rules[i], positives[x as int]),
    ensures
        !harmless(rules[i], negatives),
    decreases remaining.len(),
{
    let b = best_upto(rules, positives, remaining, negatives, rules.len());
    lemma_best_is_eligible(rules, positives, remaining, negatives, rules.len());
    if remaining.len() == 0 || b < 0 {
        if harmless(rules[i], negatives) {
            lemma_harmless(rules[i], negatives);
            lemma_reach(rules[i], positives, remaining);
            let f = |x: usize| accepts(rules[i], positives[x as int]);
            let k = choose|k: int| 0 <= k < remaining.len() && remaining[k] == x;
            remaining.lemma_filter_contains(f, k);
            assert(eligible(rules[i], positives, remaining, negatives));
        }
    } else {
        lemma_coverage_splits(rules[b], positives, remaining);
        lemma_the_unexplained_cannot_be_explained(
            rules,
            positives,
            left_by(rules[b], positives, remaining),
            sources,
            negatives,
            x,
            i,
        );
    }
}

// ---- the search space ----

/// Whether a feature is listed, as one to require or as one to forbid.
pub open spec fn listed(bits: Seq<usize>, wanted: Seq<bool>, k: u64, sign: bool) -> bool {
    exists|i: int| 0 <= i < bits.len() && #[trigger] bits[i] == k && wanted[i] == sign
}

/// Whether a rule does with one feature what the list says.
pub open spec fn speaks_at(p: Predicate, bits: Seq<usize>, wanted: Seq<bool>, k: u64) -> bool {
    &&& has_bit(p.required, k) == listed(bits, wanted, k, true)
    &&& has_bit(p.forbidden, k) == listed(bits, wanted, k, false)
}

/// Whether a rule requires or forbids, as said, exactly the listed features.
pub open spec fn speaks_of(p: Predicate, bits: Seq<usize>, wanted: Seq<bool>) -> bool {
    forall|k: u64| k < 64 ==> #[trigger] speaks_at(p, bits, wanted, k)
}

proof fn lemma_listed_step(bits: Seq<usize>, wanted: Seq<bool>, n: int, k: u64, sign: bool)
    requires
        0 < n <= bits.len(),
    ensures
        listed(bits.take(n), wanted, k, sign) == (listed(bits.take(n - 1), wanted, k, sign) || (
        bits[n - 1] == k && wanted[n - 1] == sign)),
{
    let few = bits.take(n - 1);
    let more = bits.take(n);
    if listed(few, wanted, k, sign) {
        let i = choose|i: int| 0 <= i < few.len() && #[trigger] few[i] == k && wanted[i] == sign;
        assert(more[i] == k);
    }
    if bits[n - 1] == k && wanted[n - 1] == sign {
        assert(more[n - 1] == k);
    }
    if listed(more, wanted, k, sign) {
        let i = choose|i: int| 0 <= i < more.len() && #[trigger] more[i] == k && wanted[i] == sign;
        if i < n - 1 {
            assert(few[i] == k);
        }
    }
}

proof fn lemma_signed_speaks(bits: Seq<usize>, signs: u32, wanted: Seq<bool>, n: nat)
    requires
        n <= bits.len() <= 3,
        wanted.len() == bits.len(),
        forall|i: int| 0 <= i < bits.len() ==> #[trigger] bits[i] < 55,
        forall|i: int|
            0 <= i < bits.len() ==> (#[trigger] wanted[i]) == (signs & (1u32 << (i as u32)) == 0),
    ensures
        speaks_of(signed_upto(bits, signs, n), bits.take(n as int), wanted),
    decreases n,
{
    let p = signed_upto(bits, signs, n);
    if n > 0 {
        lemma_signed_speaks(bits, signs, wanted, (n - 1) as nat);
    }
    let few = bits.take(n as int);
    assert forall|k: u64| k < 64 implies #[trigger] speaks_at(p, few, wanted, k) by {
        if n == 0 {
            lemma_no_bit(k);
        } else {
            let rest = signed_upto(bits, signs, (n - 1) as nat);
            let bit = bits[n - 1] as u64;
            assert(bits[n - 1] < 55);
            assert(wanted[n - 1] == (signs & (1u32 << ((n - 1) as u32)) == 0));
            lemma_listed_step(bits, wanted, n as int, k, true);
            lemma_listed_step(bits, wanted, n as int, k, false);
            lemma_set_bit(rest.required, bit, k);
            lemma_set_bit(rest.forbidden, bit, k);
            assert(speaks_at(rest, bits.take(n - 1), wanted, k));
        }
    }
}

proof fn lemma_signs(s: u32)
    requires
        s < 8,
    ensures
        (s & (1u32 << 0u32) == 0) == (s % 2 == 0),
        (s & (1u32 << 1u32) == 0) == ((s / 2) % 2 == 0),
        (s & (1u32 << 2u32) == 0) == ((s / 4) % 2 == 0),
{
    assert(((s & (1u32 << 0u32)) == 0) == (s % 2 == 0) && ((s & (1u32 << 1u32)) == 0) == ((s / 2) % 2
        == 0) && ((s & (1u32 << 2u32)) == 0) == ((s / 4) % 2 == 0)) by (bit_vector)
        requires
            s < 8,
    ;
}

/// Among the sign assignments over some features is one for every choice of what is required.
proof fn lemma_every_sign(bits: Seq<usize>, wanted: Seq<bool>)
    requires
        1 <= bits.len() <= 3,
        wanted.len() == bits.len(),
        forall|i: int| 0 <= i < bits.len() ==> #[trigger] bits[i] < 55,
    ensures
        exists|s: int| 0 <= s < signed(bits).len() && speaks_of(#[trigger] signed(bits)[s], bits, wanted),
{
    reveal_with_fuel(sign_count, 4);
    let s: int = (if wanted[0] { 0int } else { 1 }) + (if bits.len() > 1 && !wanted[1] { 2int } else { 0 })
        + (if bits.len() > 2 && !wanted[2] { 4int } else { 0 });
    lemma_signs(s as u32);
    assert forall|i: int| 0 <= i < bits.len() implies (#[trigger] wanted[i]) == ((s as u32) & (1u32
        << (i as u32)) == 0) by {
        if i == 0 {
        } else if i == 1 {
        } else {
        }
    }
    lemma_signed_speaks(bits, s as u32, wanted, bits.len());
    assert(bits.take(bits.len() as int) =~= bits);
    assert(signed(bits)[s] == signed_upto(bits, s as u32, bits.len()));
}

proof fn lemma_single_listed(a: nat, n: nat, s: int)
    requires
        a < n <= 55,
        0 <= s < signed(seq![a as usize]).len(),
    ensures
        singles(n).contains(signed(seq![a as usize])[s]),
    decreases n,
{
    let rest = singles((n - 1) as nat);
    let here = signed(seq![(n - 1) as usize]);
    let all = singles(n);
    if a == n - 1 {
        assert(all[rest.len() + s] == here[s]);
    } else {
        lemma_single_listed(a, (n - 1) as nat, s);
        let x = signed(seq![a as usize])[s];
        let i = choose|i: int| 0 <= i < rest.len() && rest[i] == x;
        assert(all[i] == x);
    }
}

proof fn lemma_pair_listed(a: nat, b: nat, m: nat, s: int)
    requires
        a < b < m <= 55,
        0 <= s < signed(seq![a as usize, b as usize]).len(),
    ensures
        pairs_with(a, m).contains(signed(seq![a as usize, b as usize])[s]),
    decreases m,
{
    let rest = pairs_with(a, (m - 1) as nat);
    let here = signed(seq![a as usize, (m - 1) as usize]);
    let all = pairs_with(a, m);
    let x = signed(seq![a as usize, b as usize])[s];
    if b == m - 1 {
        assert(all[rest.len() + s] == here[s]);
    } else {
        lemma_pair_listed(a, b, (m - 1) as nat, s);
        let i = choose|i: int| 0 <= i < rest.len() && rest[i] == x;
        assert(all[i] == x);
    }
}

proof fn lemma_pairs_listed(a: nat, n: nat, x: Predicate)
    requires
        a < n <= 55,
        pairs_with(a, 55).contains(x),
    ensures
        pairs(n).contains(x),
    decreases n,
{
    let rest = pairs((n - 1) as nat);
    let all = pairs(n);
    if a == n - 1 {
        let i = choose|i: int| 0 <= i < pairs_with(a, 55).len() && pairs_with(a, 55)[i] == x;
        assert(all[rest.len() + i] == x);
    } else {
        lemma_pairs_listed(a, (n - 1) as nat, x);
        let i = choose|i: int| 0 <= i < rest.len() && rest[i] == x;
        assert(all[i] == x);
    }
}

proof fn lemma_triple_listed(a: nat, b: nat, c: nat, m: nat, s: int)
    requires
        a < b < c < m <= 55,
        0 <= s < signed(seq![a as usize, b as usize, c as usize]).len(),
    ensures
        triples_with(a, b, m).contains(signed(seq![a as usize, b as usize, c as usize])[s]),
    decreases m,
{
    let rest = triples_with(a, b, (m - 1) as nat);
    let here = signed(seq![a as usize, b as usize, (m - 1) as usize]);
    let all = triples_with(a, b, m);
    let x = signed(seq![a as usize, b as usize, c as usize])[s];
    if c == m - 1 {
        assert(all[rest.len() + s] == here[s]);
    } else {
        lemma_triple_listed(a, b, c, (m - 1) as nat, s);
        let i = choose|i: int| 0 <= i < rest.len() && rest[i] == x;
        assert(all[i] == x);
    }
}

proof fn lemma_triples_from_listed(a: nat, b: nat, m: nat, x: Predicate)
    requires
        a < b < m <= 55,
        triples_with(a, b, 55).contains(x),
    ensures
        triples_from(a, m).contains(x),
    decreases m,
{
    let rest = triples_from(a, (m - 1) as nat);
    let all = triples_from(a, m);
    if b == m - 1 {
        let i = choose|i: int| 0 <= i < triples_with(a, b, 55).len() && triples_with(a, b, 55)[i] == x;
        assert(all[rest.len() + i] == x);
    } else {
        lemma_triples_from_listed(a, b, (m - 1) as nat, x);
        let i = choose|i: int| 0 <= i < rest.len() && rest[i] == x;
        assert(all[i] == x);
    }
}

proof fn lemma_triples_listed(a: nat, n: nat, x: Predicate)
    requires
        a < n <= 55,
        triples_from(a, 55).contains(x),
    ensures
        triples(n).contains(x),
    decreases n,
{
    let rest = triples((n - 1) as nat);
    let all = triples(n);
    if a == n - 1 {
        let i = choose|i: int| 0 <= i < triples_from(a, 55).len() && triples_from(a, 55)[i] == x;
        assert(all[rest.len() + i] == x);
    } else {
        lemma_triples_listed(a, (n - 1) as nat, x);
        let i = choose|i: int| 0 <= i < rest.len() && rest[i] == x;
        assert(all[i] == x);
    }
}

/// Every conjunction of one, two or three features is considered, with every choice of which of
/// them are required and which forbidden.
pub proof fn lemma_every_conjunction_is_considered(bits: Seq<usize>, wanted: Seq<bool>)
    requires
        1 <= bits.len() <= 3,
        wanted.len() == bits.len(),
        forall|i: int| 0 <= i < bits.len() ==> #[trigger] bits[i] < 55,
        forall|i: int, j: int| 0 <= i < j < bits.len() ==> #[trigger] bits[i] < #[trigger] bits[j],
    ensures
        exists|i: int|
            0 <= i < all_rules().len() && speaks_of(#[trigger] all_rules()[i], bits, wanted),
{
    lemma_every_sign(bits, wanted);
    let s = choose|s: int|
        0 <= s < signed(bits).len() && speaks_of(#[trigger] signed(bits)[s], bits, wanted);
    let x = signed(bits)[s];
    let (one, two, three) = (singles(55), pairs(55), triples(55));
    let a = bits[0] as nat;
    assert(bits[0] < 55);
    if bits.len() == 1 {
        assert(bits =~= seq![a as usize]);
        lemma_single_listed(a, 55, s);
        let i = choose|i: int| 0 <= i < one.len() && one[i] == x;
        assert(all_rules()[i] == x);
    } else if bits.len() == 2 {
        let b = bits[1] as nat;
        assert(bits[0] < bits[1] && bits[1] < 55);
        assert(bits =~= seq![a as usize, b as usize]);
        lemma_pair_listed(a, b, 55, s);
        lemma_pairs_listed(a, 55, x);
        let i = choose|i: int| 0 <= i < two.len() && two[i] == x;
        assert(all_rules()[one.len() + i] == x);
    } else {
        let b = bits[1] as nat;
        let c = bits[2] as nat;
        assert(bits[0] < bits[1] && bits[1] < bits[2] && bits[2] < 55);
        assert(bits =~= seq![a as usize, b as usize, c as usize]);
        lemma_triple_listed(a, b, c, 55, s);
        lemma_triples_from_listed(a, b, 55, x);
        lemma_triples_listed(a, 55, x);
        let i = choose|i: int| 0 <= i < three.len() && three[i] == x;
        assert(all_rules()[one.len() + two.len() + i] == x);
    }
}

} // verus!
