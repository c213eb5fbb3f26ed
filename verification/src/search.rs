//! A search for rules that explain a set of findings.
//!
//! Given cases that diverged and a pool of cases that did not, every conjunction of at most three
//! features is scored and a covering set of rules is picked greedily. A rule that fires on any
//! case of the pool is out, however much it covers: it has been shown not to describe a trigger.
//! What no rule covers is reported as unexplained. It marks a gap in the vocabulary of features.

use vstd::prelude::*;

use crate::case::{CaseModel, OnnxCase};
use crate::features::{feature_word, features, has_bit, lemma_set_bit, measurable, ones};
use crate::features::{FeatureVec, FEATURE_COUNT};
use crate::negatives::{breakdown, breakdown_of, Negative, NegativeModel, Pool, Source};
use crate::negatives::{negatives_model, sources_of};
use crate::predicate::{fires, rule_size, Predicate};

verus! {

/// The largest conjunction that is considered. A rule that names four properties of an input has
/// usually stopped describing a mechanism and started describing its sample.
pub const MAX_FEATURES: usize = 3;

/// How many rules there are.
pub const RULE_COUNT: usize = 215930;

// ---- the search space ----

/// The rule over the first `n` of the given features in which bit `i` of `signs` says whether
/// feature `i` is forbidden.
pub open spec fn signed_upto(bits: Seq<usize>, signs: u32, n: nat) -> Predicate
    decreases n,
{
    if n == 0 {
        Predicate { required: 0, forbidden: 0 }
    } else {
        let rest = signed_upto(bits, signs, (n - 1) as nat);
        let mask = 1u64 << (bits[n - 1] as u64);
        if signs & (1u32 << ((n - 1) as u32)) == 0 {
            Predicate { required: rest.required | mask, forbidden: rest.forbidden }
        } else {
            Predicate { required: rest.required, forbidden: rest.forbidden | mask }
        }
    }
}

/// The number of ways to sign that many features.
pub open spec fn sign_count(n: nat) -> nat
    decreases n,
{
    if n == 0 {
        1
    } else {
        2 * sign_count((n - 1) as nat)
    }
}

/// Every sign assignment over the given features.
pub open spec fn signed(bits: Seq<usize>) -> Seq<Predicate> {
    Seq::new(sign_count(bits.len()), |s: int| signed_upto(bits, s as u32, bits.len()))
}

/// The rules over one of the first `n` features.
pub open spec fn singles(n: nat) -> Seq<Predicate>
    decreases n,
{
    if n == 0 {
        Seq::empty()
    } else {
        singles((n - 1) as nat) + signed(seq![(n - 1) as usize])
    }
}

/// The rules over feature `a` and a later one below `m`.
pub open spec fn pairs_with(a: nat, m: nat) -> Seq<Predicate>
    decreases m,
{
    if m <= a + 1 {
        Seq::empty()
    } else {
        pairs_with(a, (m - 1) as nat) + signed(seq![a as usize, (m - 1) as usize])
    }
}

/// The rules over two features, the first of them below `n`.
pub open spec fn pairs(n: nat) -> Seq<Predicate>
    decreases n,
{
    if n == 0 {
        Seq::empty()
    } else {
        pairs((n - 1) as nat) + pairs_with((n - 1) as nat, 55)
    }
}

/// The rules over features `a`, `b` and a later one below `m`.
pub open spec fn triples_with(a: nat, b: nat, m: nat) -> Seq<Predicate>
    decreases m,
{
    if m <= b + 1 {
        Seq::empty()
    } else {
        triples_with(a, b, (m - 1) as nat) + signed(
            seq![a as usize, b as usize, (m - 1) as usize],
        )
    }
}

/// The rules over feature `a` and two later ones, the first of them below `m`.
pub open spec fn triples_from(a: nat, m: nat) -> Seq<Predicate>
    decreases m,
{
    if m <= a + 1 {
        Seq::empty()
    } else {
        triples_from(a, (m - 1) as nat) + triples_with(a, (m - 1) as nat, 55)
    }
}

/// The rules over three features, the first of them below `n`.
pub open spec fn triples(n: nat) -> Seq<Predicate>
    decreases n,
{
    if n == 0 {
        Seq::empty()
    } else {
        triples((n - 1) as nat) + triples_from((n - 1) as nat, 55)
    }
}

/// Every rule that is considered: over one feature, then over two, then over three.
pub open spec fn all_rules() -> Seq<Predicate> {
    singles(55) + pairs(55) + triples(55)
}

/// The number of pairs whose first feature is below `n`.
spec fn pair_count(n: nat) -> int
    decreases n,
{
    if n == 0 {
        0
    } else {
        pair_count((n - 1) as nat) + (55 - n)
    }
}

/// The number of triples with first feature `a` and second below `m`.
spec fn triple_row(a: nat, m: nat) -> int
    decreases m,
{
    if m <= a + 1 {
        0
    } else {
        triple_row(a, (m - 1) as nat) + (55 - m)
    }
}

/// The number of triples whose first feature is below `n`.
spec fn triple_count(n: nat) -> int
    decreases n,
{
    if n == 0 {
        0
    } else {
        triple_count((n - 1) as nat) + triple_row((n - 1) as nat, 55)
    }
}

proof fn lemma_sign_counts()
    ensures
        sign_count(1) == 2,
        sign_count(2) == 4,
        sign_count(3) == 8,
{
    reveal_with_fuel(sign_count, 4);
}

proof fn lemma_singles_len(n: nat)
    ensures
        singles(n).len() == 2 * n,
    decreases n,
{
    lemma_sign_counts();
    if n > 0 {
        lemma_singles_len((n - 1) as nat);
    }
}

proof fn lemma_pairs_with_len(a: nat, m: nat)
    requires
        a < m,
    ensures
        pairs_with(a, m).len() == 4 * (m - a - 1),
    decreases m,
{
    lemma_sign_counts();
    if m > a + 1 {
        lemma_pairs_with_len(a, (m - 1) as nat);
    }
}

proof fn lemma_pairs_len(n: nat)
    requires
        n <= 55,
    ensures
        pairs(n).len() == 4 * pair_count(n),
    decreases n,
{
    if n > 0 {
        lemma_pairs_len((n - 1) as nat);
        lemma_pairs_with_len((n - 1) as nat, 55);
    }
}

proof fn lemma_triples_with_len(a: nat, b: nat, m: nat)
    requires
        b < m,
    ensures
        triples_with(a, b, m).len() == 8 * (m - b - 1),
    decreases m,
{
    lemma_sign_counts();
    if m > b + 1 {
        lemma_triples_with_len(a, b, (m - 1) as nat);
    }
}

proof fn lemma_triples_from_len(a: nat, m: nat)
    requires
        m <= 55,
    ensures
        triples_from(a, m).len() == 8 * triple_row(a, m),
    decreases m,
{
    if m > a + 1 {
        lemma_triples_from_len(a, (m - 1) as nat);
        lemma_triples_with_len(a, (m - 1) as nat, 55);
    }
}

proof fn lemma_triple_row(a: nat, m: nat)
    requires
        a < m,
    ensures
        2 * triple_row(a, m) == 2 * (54 * (m - a - 1)) - (m - a - 1) * (m + a),
    decreases m,
{
    if m > a + 1 {
        lemma_triple_row(a, (m - 1) as nat);
        assert(2 * (54 * (m - a - 1)) - (m - a - 1) * (m + a) == 2 * (54 * (m - 1 - a - 1)) - (m - 1
            - a - 1) * (m - 1 + a) + 2 * (55 - m)) by (nonlinear_arith);
    } else {
        assert((m - a - 1) * (m + a) == 0) by (nonlinear_arith)
            requires
                m == a + 1,
        ;
    }
}

proof fn lemma_triples_len(n: nat)
    requires
        n <= 55,
    ensures
        triples(n).len() == 8 * triple_count(n),
        3 * triples(n).len() == 2 * (17172 * n - 321 * (n * (n - 1)) + n * (n - 1) * (2 * n - 1)),
    decreases n,
{
    if n > 0 {
        let a = (n - 1) as nat;
        lemma_triples_len(a);
        lemma_triples_from_len(a, 55);
        lemma_triple_row(a, 55);
        assert(3 * (4 * (2 * (54 * (55 - a - 1)) - (55 - a - 1) * (55 + a))) + 2 * (17172 * a - 321 * (
        a * (a - 1)) + a * (a - 1) * (2 * a - 1)) == 2 * (17172 * n - 321 * (n * (n - 1)) + n * (n
            - 1) * (2 * n - 1))) by (nonlinear_arith)
            requires
                n == a + 1,
        ;
    } else {
        assert(n * (n - 1) == 0 && n * (n - 1) * (2 * n - 1) == 0) by (nonlinear_arith)
            requires
                n == 0,
        ;
    }
}

/// The search space has as many rules as it claims.
pub proof fn lemma_the_search_space_has_its_size()
    ensures
        all_rules().len() == RULE_COUNT,
{
    lemma_singles_len(55);
    lemma_pairs_len(55);
    lemma_triples_len(55);
    assert(pair_count(55) == 1485) by {
        reveal_with_fuel(pair_count, 56);
    }
}

/// Setting a bit adds at most one to a word's bits.
proof fn lemma_one_more_bit(word: u64, bit: u64, n: nat)
    requires
        bit < 64,
        n <= 64,
    ensures
        ones(word | (1u64 << bit), n) <= ones(word, n) + if bit < n {
            1nat
        } else {
            0nat
        },
    decreases n,
{
    if n > 0 {
        lemma_one_more_bit(word, bit, (n - 1) as nat);
        lemma_set_bit(word, bit, (n - 1) as u64);
    }
}

proof fn lemma_no_ones(n: nat)
    requires
        n <= 64,
    ensures
        ones(0, n) == 0,
    decreases n,
{
    if n > 0 {
        lemma_no_ones((n - 1) as nat);
        crate::features::lemma_no_bit((n - 1) as u64);
    }
}

proof fn lemma_signed_size(bits: Seq<usize>, signs: u32, n: nat)
    requires
        n <= bits.len(),
        forall|k: int| 0 <= k < bits.len() ==> #[trigger] bits[k] < 55,
    ensures
        rule_size(signed_upto(bits, signs, n)) <= n,
        n > 0 ==> has_bit(signed_upto(bits, signs, n).required, bits[n - 1] as u64) || has_bit(
            signed_upto(bits, signs, n).forbidden,
            bits[n - 1] as u64,
        ),
    decreases n,
{
    if n == 0 {
        lemma_no_ones(64);
    } else {
        lemma_signed_size(bits, signs, (n - 1) as nat);
        let rest = signed_upto(bits, signs, (n - 1) as nat);
        let bit = bits[n - 1] as u64;
        assert(bits[n - 1] < 55);
        lemma_one_more_bit(rest.required, bit, 64);
        lemma_one_more_bit(rest.forbidden, bit, 64);
        lemma_set_bit(rest.required, bit, bit);
        lemma_set_bit(rest.forbidden, bit, bit);
    }
}

/// A rule that is worth considering: it claims something, of few features.
pub open spec fn modest(p: Predicate) -> bool {
    1 <= rule_size(p) <= MAX_FEATURES
}

proof fn lemma_some_ones(word: u64, bit: u64, n: nat)
    requires
        bit < n <= 64,
        has_bit(word, bit),
    ensures
        ones(word, n) >= 1,
    decreases n,
{
    if bit < n - 1 {
        lemma_some_ones(word, bit, (n - 1) as nat);
    }
}

proof fn lemma_signed_modest(bits: Seq<usize>)
    requires
        1 <= bits.len() <= 3,
        forall|k: int| 0 <= k < bits.len() ==> #[trigger] bits[k] < 55,
    ensures
        forall|i: int| 0 <= i < signed(bits).len() ==> modest(#[trigger] signed(bits)[i]),
{
    assert forall|i: int| 0 <= i < signed(bits).len() implies modest(#[trigger] signed(bits)[i]) by {
        lemma_signed_size(bits, i as u32, bits.len());
        let p = signed_upto(bits, i as u32, bits.len());
        let bit = bits[bits.len() - 1];
        assert(bit < 55);
        if has_bit(p.required, bit as u64) {
            lemma_some_ones(p.required, bit as u64, 64);
        } else {
            lemma_some_ones(p.forbidden, bit as u64, 64);
        }
    }
}

/// Adds every sign assignment over the given features.
fn push_signed(out: &mut Vec<Predicate>, bits: &[usize])
    requires
        1 <= bits@.len() <= 3,
        forall|k: int| 0 <= k < bits@.len() ==> #[trigger] bits@[k] < 55,
        forall|i: int| 0 <= i < old(out).len() ==> modest(#[trigger] old(out)@[i]),
    ensures
        final(out)@ == old(out)@ + signed(bits@),
        forall|i: int| 0 <= i < final(out).len() ==> modest(#[trigger] final(out)@[i]),
{
    proof {
        lemma_sign_counts();
        lemma_signed_modest(bits@);
    }
    let total: u32 = if bits.len() == 1 {
        2
    } else if bits.len() == 2 {
        4
    } else {
        8
    };
    let ghost start = out@;
    let mut signs: u32 = 0;
    while signs < total
        invariant
            signs <= total,
            total == sign_count(bits@.len()),
            1 <= bits@.len() <= 3,
            forall|k: int| 0 <= k < bits@.len() ==> #[trigger] bits@[k] < 55,
            out@ == start + signed(bits@).take(signs as int),
        decreases total - signs,
    {
        let mut predicate: Predicate = Predicate { required: 0, forbidden: 0 };
        let mut i: usize = 0;
        while i < bits.len()
            invariant
                i <= bits@.len() <= 3,
                forall|k: int| 0 <= k < bits@.len() ==> #[trigger] bits@[k] < 55,
                predicate == signed_upto(bits@, signs, i as nat),
            decreases bits@.len() - i,
        {
            let mask: u64 = 1u64 << (bits[i] as u64);
            if signs & (1u32 << (i as u32)) == 0 {
                predicate.required = predicate.required | mask;
            } else {
                predicate.forbidden = predicate.forbidden | mask;
            }
            i += 1;
        }
        out.push(predicate);
        proof {
            assert(signed(bits@).take(signs + 1) =~= signed(bits@).take(signs as int).push(
                predicate,
            ));
        }
        signs += 1;
    }
    assert(signed(bits@).take(total as int) =~= signed(bits@));
    proof {
        assert forall|i: int| 0 <= i < out.len() implies modest(#[trigger] out@[i]) by {
            if i >= start.len() {
                assert(out@[i] == signed(bits@)[i - start.len()]);
            }
        }
    }
}

/// Adds the rules over `a`, `b` and a later feature.
fn push_triples_with(out: &mut Vec<Predicate>, a: usize, b: usize)
    requires
        a < b < 55,
        forall|i: int| 0 <= i < old(out).len() ==> modest(#[trigger] old(out)@[i]),
    ensures
        final(out)@ == old(out)@ + triples_with(a as nat, b as nat, 55),
        forall|i: int| 0 <= i < final(out).len() ==> modest(#[trigger] final(out)@[i]),
{
    let ghost start = out@;
    let mut c: usize = b + 1;
    while c < FEATURE_COUNT
        invariant
            a < b < c <= 55,
            out@ == start + triples_with(a as nat, b as nat, c as nat),
            forall|i: int| 0 <= i < out.len() ==> modest(#[trigger] out@[i]),
        decreases 55 - c,
    {
        let bits: [usize; 3] = [a, b, c];
        assert(bits@ =~= seq![a, b, c]);
        push_signed(out, &bits);
        assert(out@ =~= start + triples_with(a as nat, b as nat, (c + 1) as nat));
        c += 1;
    }
}

/// Every rule over at least one and at most [`MAX_FEATURES`] features, each of them required or
/// forbidden. The empty rule is not among them: it fires on everything and claims nothing.
pub fn enumerate() -> (r: Vec<Predicate>)
    ensures
        r@ == all_rules(),
        r.len() == RULE_COUNT,
        forall|i: int| 0 <= i < r.len() ==> modest(#[trigger] r@[i]),
{
    let mut out: Vec<Predicate> = Vec::new();
    let mut a: usize = 0;
    while a < FEATURE_COUNT
        invariant
            a <= 55,
            out@ == singles(a as nat),
            forall|i: int| 0 <= i < out.len() ==> modest(#[trigger] out@[i]),
        decreases 55 - a,
    {
        let bits: [usize; 1] = [a];
        assert(bits@ =~= seq![a]);
        push_signed(&mut out, &bits);
        a += 1;
    }
    a = 0;
    while a < FEATURE_COUNT
        invariant
            a <= 55,
            out@ == singles(55) + pairs(a as nat),
            forall|i: int| 0 <= i < out.len() ==> modest(#[trigger] out@[i]),
        decreases 55 - a,
    {
        let ghost start = out@;
        let mut b: usize = a + 1;
        while b < FEATURE_COUNT
            invariant
                a < b <= 55,
                out@ == start + pairs_with(a as nat, b as nat),
                forall|i: int| 0 <= i < out.len() ==> modest(#[trigger] out@[i]),
            decreases 55 - b,
        {
            let bits: [usize; 2] = [a, b];
            assert(bits@ =~= seq![a, b]);
            push_signed(&mut out, &bits);
            assert(out@ =~= start + pairs_with(a as nat, (b + 1) as nat));
            b += 1;
        }
        assert(out@ =~= singles(55) + pairs((a + 1) as nat));
        a += 1;
    }
    a = 0;
    while a < FEATURE_COUNT
        invariant
            a <= 55,
            out@ == singles(55) + pairs(55) + triples(a as nat),
            forall|i: int| 0 <= i < out.len() ==> modest(#[trigger] out@[i]),
        decreases 55 - a,
    {
        let ghost start = out@;
        let mut b: usize = a + 1;
        while b < FEATURE_COUNT
            invariant
                a < b <= 55,
                out@ == start + triples_from(a as nat, b as nat),
                forall|i: int| 0 <= i < out.len() ==> modest(#[trigger] out@[i]),
            decreases 55 - b,
        {
            push_triples_with(&mut out, a, b);
            assert(out@ =~= start + triples_from(a as nat, (b + 1) as nat));
            b += 1;
        }
        assert(out@ =~= singles(55) + pairs(55) + triples((a + 1) as nat));
        a += 1;
    }
    proof {
        lemma_the_search_space_has_its_size();
    }
    out
}

// ---- scoring ----

/// A rule, with the evidence for and against it.
#[derive(Debug)]
pub struct Candidate {
    pub predicate: Predicate,
    /// The positions of the findings that it fires on.
    pub covered: Vec<usize>,
    /// How many cases of the pool it fires on, and of how many, for each source.
    pub negatives_by_source: Vec<(Source, usize, usize)>,
    /// The other rules that score the same and come later. Nothing that the search can see tells
    /// them apart, so they are all reported.
    pub tied_with: Vec<Predicate>,
}

/// What a [`Candidate`] holds.
#[verifier::ext_equal]
pub struct CandidateModel {
    pub predicate: Predicate,
    pub covered: Seq<usize>,
    pub negatives_by_source: Seq<(Source, usize, usize)>,
    pub tied_with: Seq<Predicate>,
}

impl View for Candidate {
    type V = CandidateModel;

    open spec fn view(&self) -> CandidateModel {
        CandidateModel {
            predicate: self.predicate,
            covered: self.covered@,
            negatives_by_source: self.negatives_by_source@,
            tied_with: self.tied_with@,
        }
    }
}

/// What the search concluded.
#[derive(Debug)]
pub struct SearchResult {
    /// The rules, in the order in which they were picked.
    pub classes: Vec<Candidate>,
    /// The positions of the findings that no rule explains.
    pub unexplained: Vec<usize>,
    /// How many rules were considered.
    pub considered: usize,
}

/// The models of a sequence of candidates.
pub open spec fn candidates_model(v: Seq<Candidate>) -> Seq<CandidateModel> {
    Seq::new(v.len(), |i: int| v[i]@)
}

/// Whether a rule fires on the finding at a position.
pub open spec fn covers(p: Predicate, positives: Seq<u64>) -> spec_fn(usize) -> bool {
    |i: usize| fires(p, positives[i as int])
}

/// The findings of `remaining` that a rule fires on.
pub open spec fn coverage(p: Predicate, positives: Seq<u64>, remaining: Seq<usize>) -> Seq<usize> {
    remaining.filter(covers(p, positives))
}

/// Whether a rule fires on no case of the pool.
pub open spec fn clean(p: Predicate, negatives: Seq<u64>) -> bool {
    forall|k: int| 0 <= k < negatives.len() ==> !fires(p, #[trigger] negatives[k])
}

/// Whether a rule may be picked.
pub open spec fn eligible(
    p: Predicate,
    positives: Seq<u64>,
    remaining: Seq<usize>,
    negatives: Seq<u64>,
) -> bool {
    coverage(p, positives, remaining).len() > 0 && clean(p, negatives)
}

/// Whether a rule scores above another: it covers more, or as much with fewer features.
pub open spec fn beats(
    p: Predicate,
    q: Predicate,
    positives: Seq<u64>,
    remaining: Seq<usize>,
) -> bool {
    let mine = coverage(p, positives, remaining).len();
    let theirs = coverage(q, positives, remaining).len();
    mine > theirs || (mine == theirs && rule_size(p) < rule_size(q))
}

/// Whether two rules score the same.
pub open spec fn level(
    p: Predicate,
    q: Predicate,
    positives: Seq<u64>,
    remaining: Seq<usize>,
) -> bool {
    coverage(p, positives, remaining).len() == coverage(q, positives, remaining).len()
        && rule_size(p) == rule_size(q)
}

/// The position of the first best eligible rule among the first `n`, or -1.
pub open spec fn best_upto(
    rules: Seq<Predicate>,
    positives: Seq<u64>,
    remaining: Seq<usize>,
    negatives: Seq<u64>,
    n: nat,
) -> int
    decreases n,
{
    if n == 0 {
        -1
    } else {
        let b = best_upto(rules, positives, remaining, negatives, (n - 1) as nat);
        let p = rules[n - 1];
        if eligible(p, positives, remaining, negatives) && (b < 0 || beats(
            p,
            rules[b],
            positives,
            remaining,
        )) {
            n - 1
        } else {
            b
        }
    }
}

/// The eligible rules that come after position `b`, within the first `n`, and score the same.
pub open spec fn ties_upto(
    rules: Seq<Predicate>,
    positives: Seq<u64>,
    remaining: Seq<usize>,
    negatives: Seq<u64>,
    b: int,
    n: int,
) -> Seq<Predicate>
    decreases n,
{
    if n <= b + 1 || n <= 0 {
        Seq::empty()
    } else {
        let rest = ties_upto(rules, positives, remaining, negatives, b, n - 1);
        let p = rules[n - 1];
        if eligible(p, positives, remaining, negatives) && level(p, rules[b], positives, remaining) {
            rest.push(p)
        } else {
            rest
        }
    }
}

/// A breakdown of a pool by source in which nothing is hit.
pub open spec fn no_hits(sources: Seq<Source>) -> Seq<(Source, usize, usize)> {
    breakdown_of(sources, Seq::new(sources.len(), |k: int| false))
}

/// The best rule for the findings that remain, if there is one.
pub open spec fn best_of(
    rules: Seq<Predicate>,
    positives: Seq<u64>,
    remaining: Seq<usize>,
    sources: Seq<Source>,
    negatives: Seq<u64>,
) -> Option<CandidateModel> {
    let b = best_upto(rules, positives, remaining, negatives, rules.len());
    if b < 0 {
        None
    } else {
        Some(
            CandidateModel {
                predicate: rules[b],
                covered: coverage(rules[b], positives, remaining),
                negatives_by_source: no_hits(sources),
                tied_with: ties_upto(
                    rules,
                    positives,
                    remaining,
                    negatives,
                    b,
                    rules.len() as int,
                ),
            },
        )
    }
}

/// The words of a list of feature vectors.
pub open spec fn words(v: Seq<FeatureVec>) -> Seq<u64> {
    Seq::new(v.len(), |i: int| v[i].0)
}

/// The findings of `remaining` that a rule fires on.
fn covered_by(p: Predicate, positives: &Vec<FeatureVec>, remaining: &Vec<usize>) -> (r: Vec<usize>)
    requires
        forall|k: int| 0 <= k < remaining.len() ==> #[trigger] remaining@[k] < positives.len(),
    ensures
        r@ == coverage(p, words(positives@), remaining@),
{
    let ghost f = covers(p, words(positives@));
    let mut out: Vec<usize> = Vec::new();
    let mut k: usize = 0;
    proof {
        reveal(Seq::filter);
        assert(remaining@.take(0) =~= Seq::empty());
    }
    while k < remaining.len()
        invariant
            k <= remaining.len(),
            f == covers(p, words(positives@)),
            forall|k: int| 0 <= k < remaining.len() ==> #[trigger] remaining@[k] < positives.len(),
            out@ == remaining@.take(k as int).filter(f),
        decreases remaining.len() - k,
    {
        let i: usize = remaining[k];
        proof {
            assert(remaining@.take(k + 1) =~= remaining@.take(k as int).push(i));
            remaining@.take(k as int).lemma_filter_push(i, f);
            assert(words(positives@)[i as int] == positives@[i as int].0);
        }
        if p.matches(positives[i]) {
            out.push(i);
        }
        k += 1;
    }
    assert(remaining@.take(k as int) =~= remaining@);
    out
}

/// Whether a rule fires on no case of the pool.
fn spares(p: Predicate, negatives: &Vec<FeatureVec>) -> (r: bool)
    ensures
        r == clean(p, words(negatives@)),
{
    let mut k: usize = 0;
    while k < negatives.len()
        invariant
            k <= negatives.len(),
            forall|j: int| 0 <= j < k ==> !fires(p, #[trigger] words(negatives@)[j]),
        decreases negatives.len() - k,
    {
        if p.matches(negatives[k]) {
            assert(words(negatives@)[k as int] == negatives@[k as int].0);
            return false;
        }
        k += 1;
    }
    true
}

/// The best rule for the findings that remain, or nothing if every rule that covers one of them
/// also fires on the pool.
pub fn best_for(
    predicates: &Vec<Predicate>,
    positives: &Vec<FeatureVec>,
    remaining: &Vec<usize>,
    sources: &Vec<Source>,
    negatives: &Vec<FeatureVec>,
) -> (r: Option<Candidate>)
    requires
        forall|k: int| 0 <= k < remaining.len() ==> #[trigger] remaining@[k] < positives.len(),
        sources.len() == negatives.len(),
    ensures
        match r {
            Some(c) => best_of(
                predicates@,
                words(positives@),
                remaining@,
                sources@,
                words(negatives@),
            ) == Some(c@),
            None => best_of(
                predicates@,
                words(positives@),
                remaining@,
                sources@,
                words(negatives@),
            ) is None,
        },
{
    let ghost pos = words(positives@);
    let ghost neg = words(negatives@);
    let mut best: Option<(usize, Vec<usize>)> = None;
    let mut tied: Vec<Predicate> = Vec::new();
    let mut n: usize = 0;
    while n < predicates.len()
        invariant
            n <= predicates.len(),
            pos == words(positives@),
            neg == words(negatives@),
            forall|k: int| 0 <= k < remaining.len() ==> #[trigger] remaining@[k] < positives.len(),
            match best {
                Some((b, covered)) => {
                    &&& b < n
                    &&& best_upto(predicates@, pos, remaining@, neg, n as nat) == b
                    &&& covered@ == coverage(predicates@[b as int], pos, remaining@)
                    &&& tied@ == ties_upto(predicates@, pos, remaining@, neg, b as int, n as int)
                },
                None => best_upto(predicates@, pos, remaining@, neg, n as nat) == -1 && tied.len()
                    == 0,
            },
        decreases predicates.len() - n,
    {
        let p: Predicate = predicates[n];
        let covered: Vec<usize> = covered_by(p, positives, remaining);
        if covered.len() > 0 && spares(p, negatives) {
            let (wins, draws): (bool, bool) = match &best {
                None => (true, false),
                Some((b, current)) => {
                    let mine: u32 = p.size();
                    let theirs: u32 = predicates[*b].size();
                    (
                        covered.len() > current.len() || (covered.len() == current.len() && mine
                            < theirs),
                        covered.len() == current.len() && mine == theirs,
                    )
                },
            };
            if wins {
                tied = Vec::new();
                best = Some((n, covered));
            } else if draws {
                tied.push(p);
            }
        }
        n += 1;
    }
    match best {
        None => None,
        Some((b, covered)) => {
            let mut hits: Vec<bool> = Vec::new();
            let mut k: usize = 0;
            while k < sources.len()
                invariant
                    k <= sources.len(),
                    hits.len() == k,
                    forall|j: int| 0 <= j < k ==> !#[trigger] hits@[j],
                decreases sources.len() - k,
            {
                hits.push(false);
                k += 1;
            }
            assert(hits@ =~= Seq::new(sources@.len(), |k: int| false));
            Some(
                Candidate {
                    predicate: predicates[b],
                    covered,
                    negatives_by_source: breakdown(sources, &hits),
                    tied_with: tied,
                },
            )
        },
    }
}

// ---- covering ----

/// The findings of `remaining` that a rule leaves.
pub open spec fn left_by(p: Predicate, positives: Seq<u64>, remaining: Seq<usize>) -> Seq<usize> {
    remaining.filter(|i: usize| !fires(p, positives[i as int]))
}

proof fn lemma_filter_splits(s: Seq<usize>, f: spec_fn(usize) -> bool, g: spec_fn(usize) -> bool)
    requires
        forall|x: usize| #[trigger] g(x) == !f(x),
    ensures
        s.filter(f).len() + s.filter(g).len() == s.len(),
    decreases s.len(),
{
    reveal(Seq::filter);
    if s.len() > 0 {
        lemma_filter_splits(s.drop_last(), f, g);
        assert(g(s.last()) == !f(s.last()));
    }
}

/// What a rule covers and what it leaves are together all that remained.
pub proof fn lemma_coverage_splits(p: Predicate, positives: Seq<u64>, remaining: Seq<usize>)
    ensures
        coverage(p, positives, remaining).len() + left_by(p, positives, remaining).len()
            == remaining.len(),
{
    lemma_filter_splits(
        remaining,
        covers(p, positives),
        |i: usize| !fires(p, positives[i as int]),
    );
}

/// The best rule may be picked, and no rule that may be picked beats it.
pub proof fn lemma_best_is_eligible(
    rules: Seq<Predicate>,
    positives: Seq<u64>,
    remaining: Seq<usize>,
    negatives: Seq<u64>,
    n: nat,
)
    ensures
        ({
            let b = best_upto(rules, positives, remaining, negatives, n);
            &&& -1 <= b < n
            &&& b >= 0 ==> eligible(rules[b], positives, remaining, negatives)
            &&& forall|i: int|
                0 <= i < n && eligible(#[trigger] rules[i], positives, remaining, negatives) ==> b
                    >= 0 && !beats(rules[i], rules[b], positives, remaining)
        }),
    decreases n,
{
    if n > 0 {
        lemma_best_is_eligible(rules, positives, remaining, negatives, (n - 1) as nat);
    }
}

/// The rules that are picked for the findings that remain, and the findings that are left.
pub open spec fn explanation(
    rules: Seq<Predicate>,
    positives: Seq<u64>,
    remaining: Seq<usize>,
    sources: Seq<Source>,
    negatives: Seq<u64>,
) -> (Seq<CandidateModel>, Seq<usize>)
    decreases remaining.len(),
{
    let b = best_upto(rules, positives, remaining, negatives, rules.len());
    proof {
        lemma_best_is_eligible(rules, positives, remaining, negatives, rules.len());
        if b >= 0 {
            lemma_coverage_splits(rules[b], positives, remaining);
        }
    }
    if remaining.len() == 0 || b < 0 {
        (Seq::empty(), remaining)
    } else {
        let (classes, unexplained) = explanation(
            rules,
            positives,
            left_by(rules[b], positives, remaining),
            sources,
            negatives,
        );
        (
            seq![best_of(rules, positives, remaining, sources, negatives)->0] + classes,
            unexplained,
        )
    }
}

/// The feature words of a sequence of cases.
pub open spec fn words_of(cases: Seq<CaseModel>) -> Seq<u64> {
    Seq::new(cases.len(), |i: int| feature_word(cases[i]))
}

/// The cases of a sequence of negatives.
pub open spec fn cases_of(v: Seq<NegativeModel>) -> Seq<CaseModel> {
    Seq::new(v.len(), |i: int| v[i].case)
}

/// The models of a sequence of cases.
pub open spec fn cases_model(v: Seq<OnnxCase>) -> Seq<CaseModel> {
    Seq::new(v.len(), |i: int| v[i]@)
}

/// The positions of `n` findings.
pub open spec fn positions(n: nat) -> Seq<usize> {
    Seq::new(n, |i: int| i as usize)
}

/// The findings of `remaining` that a rule leaves.
fn retain_left(p: Predicate, positives: &Vec<FeatureVec>, remaining: &Vec<usize>) -> (r: Vec<
    usize,
>)
    requires
        forall|k: int| 0 <= k < remaining.len() ==> #[trigger] remaining@[k] < positives.len(),
    ensures
        r@ == left_by(p, words(positives@), remaining@),
        forall|k: int| 0 <= k < r.len() ==> #[trigger] r@[k] < positives.len(),
{
    let ghost pos = words(positives@);
    let ghost f = |i: usize| !fires(p, pos[i as int]);
    let mut out: Vec<usize> = Vec::new();
    let mut k: usize = 0;
    proof {
        reveal(Seq::filter);
        assert(remaining@.take(0) =~= Seq::empty());
    }
    while k < remaining.len()
        invariant
            k <= remaining.len(),
            pos == words(positives@),
            f == (|i: usize| !fires(p, pos[i as int])),
            forall|k: int| 0 <= k < remaining.len() ==> #[trigger] remaining@[k] < positives.len(),
            forall|k: int| 0 <= k < out.len() ==> #[trigger] out@[k] < positives.len(),
            out@ == remaining@.take(k as int).filter(f),
        decreases remaining.len() - k,
    {
        let i: usize = remaining[k];
        proof {
            assert(remaining@.take(k + 1) =~= remaining@.take(k as int).push(i));
            remaining@.take(k as int).lemma_filter_push(i, f);
            assert(pos[i as int] == positives@[i as int].0);
        }
        if !p.matches(positives[i]) {
            out.push(i);
        }
        k += 1;
    }
    assert(remaining@.take(k as int) =~= remaining@);
    out
}

/// Covers the findings that remain, one rule at a time.
fn cover(
    predicates: &Vec<Predicate>,
    positives: &Vec<FeatureVec>,
    sources: &Vec<Source>,
    negatives: &Vec<FeatureVec>,
    all: Vec<usize>,
) -> (r: (Vec<Candidate>, Vec<usize>))
    requires
        forall|k: int| 0 <= k < all.len() ==> #[trigger] all@[k] < positives.len(),
        sources.len() == negatives.len(),
    ensures
        (candidates_model(r.0@), r.1@) == explanation(
            predicates@,
            words(positives@),
            all@,
            sources@,
            words(negatives@),
        ),
{
    let ghost pos = words(positives@);
    let ghost neg = words(negatives@);
    let ghost whole = explanation(predicates@, pos, all@, sources@, neg);
    let mut classes: Vec<Candidate> = Vec::new();
    let mut remaining: Vec<usize> = all;
    assert(candidates_model(classes@) + whole.0 =~= whole.0);
    while remaining.len() > 0
        invariant
            forall|k: int| 0 <= k < remaining.len() ==> #[trigger] remaining@[k] < positives.len(),
            sources.len() == negatives.len(),
            pos == words(positives@),
            neg == words(negatives@),
            whole == explanation(predicates@, pos, all@, sources@, neg),
            ({
                let rest = explanation(predicates@, pos, remaining@, sources@, neg);
                whole == (candidates_model(classes@) + rest.0, rest.1)
            }),
        decreases remaining.len(),
    {
        let ghost before = candidates_model(classes@);
        let ghost rest = explanation(predicates@, pos, remaining@, sources@, neg);
        match best_for(predicates, positives, &remaining, sources, negatives) {
            None => {
                assert(before + rest.0 =~= before);
                return (classes, remaining);
            },
            Some(best) => {
                let p: Predicate = best.predicate;
                let left: Vec<usize> = retain_left(p, positives, &remaining);
                proof {
                    let b = best_upto(predicates@, pos, remaining@, neg, predicates@.len());
                    lemma_best_is_eligible(predicates@, pos, remaining@, neg, predicates@.len());
                    lemma_coverage_splits(p, pos, remaining@);
                    let tail = explanation(predicates@, pos, left@, sources@, neg);
                    assert(rest.0 == seq![best@] + tail.0);
                    assert(before + (seq![best@] + tail.0) =~= before.push(best@) + tail.0);
                }
                classes.push(best);
                assert(candidates_model(classes@) =~= before.push(best@));
                remaining = left;
            },
        }
    }
    let ghost rest = explanation(predicates@, pos, remaining@, sources@, neg);
    assert(candidates_model(classes@) + rest.0 =~= candidates_model(classes@));
    (classes, remaining)
}

/// Explains the findings by rules that spare the pool.
///
/// Each pass picks the best rule for what is still unexplained, so that one run can find several
/// classes. It ends when everything is explained or no rule is left that qualifies.
pub fn search(findings: &[OnnxCase], pool: &Pool) -> (r: SearchResult)
    requires
        forall|i: int| 0 <= i < findings@.len() ==> measurable((#[trigger] findings@[i])@),
        forall|i: int| 0 <= i < pool@.len() ==> measurable((#[trigger] pool@[i]).case),
    ensures
        (candidates_model(r.classes@), r.unexplained@) == explanation(
            all_rules(),
            words_of(cases_model(findings@)),
            positions(findings@.len()),
            sources_of(pool@),
            words_of(cases_of(pool@)),
        ),
        r.considered == RULE_COUNT,
{
    let mut positives: Vec<FeatureVec> = Vec::new();
    let mut remaining: Vec<usize> = Vec::new();
    let mut i: usize = 0;
    while i < findings.len()
        invariant
            i <= findings.len(),
            forall|i: int| 0 <= i < findings@.len() ==> measurable((#[trigger] findings@[i])@),
            positives.len() == i,
            remaining.len() == i,
            forall|k: int|
                0 <= k < i ==> (#[trigger] positives@[k]).0 == feature_word(findings@[k]@),
            forall|k: int| 0 <= k < i ==> #[trigger] remaining@[k] == k,
        decreases findings.len() - i,
    {
        positives.push(features(&findings[i]));
        remaining.push(i);
        i += 1;
    }
    let all: &[Negative] = pool.negatives();
    let mut sources: Vec<Source> = Vec::new();
    let mut negatives: Vec<FeatureVec> = Vec::new();
    let mut j: usize = 0;
    while j < all.len()
        invariant
            j <= all.len(),
            negatives_model(all@) == pool@,
            forall|i: int| 0 <= i < pool@.len() ==> measurable((#[trigger] pool@[i]).case),
            sources.len() == j,
            negatives.len() == j,
            forall|k: int| 0 <= k < j ==> #[trigger] sources@[k] == pool@[k].source,
            forall|k: int|
                0 <= k < j ==> (#[trigger] negatives@[k]).0 == feature_word(pool@[k].case),
        decreases all.len() - j,
    {
        assert(pool@[j as int] == all@[j as int]@);
        sources.push(all[j].source);
        negatives.push(features(&all[j].case));
        j += 1;
    }
    let predicates: Vec<Predicate> = enumerate();
    proof {
        assert(pool@.len() == all@.len());
        assert(words(positives@) =~= words_of(cases_model(findings@)));
        assert(words(negatives@) =~= words_of(cases_of(pool@)));
        assert(sources@ =~= sources_of(pool@));
        assert(remaining@ =~= positions(findings@.len()));
    }
    let (classes, unexplained): (Vec<Candidate>, Vec<usize>) = cover(
        &predicates,
        &positives,
        &sources,
        &negatives,
        remaining,
    );
    SearchResult { classes, unexplained, considered: predicates.len() }
}

// ---- laws ----

/// A rule that is committed fires on no case of the pool and covers something.
pub proof fn lemma_committed_rules_spare_the_pool(
    rules: Seq<Predicate>,
    positives: Seq<u64>,
    remaining: Seq<usize>,
    sources: Seq<Source>,
    negatives: Seq<u64>,
    i: int,
)
    requires
        0 <= i < explanation(rules, positives, remaining, sources, negatives).0.len(),
    ensures
        ({
            let c = explanation(rules, positives, remaining, sources, negatives).0[i];
            clean(c.predicate, negatives) && c.covered.len() > 0 && rules.contains(c.predicate)
        }),
    decreases remaining.len(),
{
    let b = best_upto(rules, positives, remaining, negatives, rules.len());
    lemma_best_is_eligible(rules, positives, remaining, negatives, rules.len());
    lemma_coverage_splits(rules[b], positives, remaining);
    if i > 0 {
        lemma_committed_rules_spare_the_pool(
            rules,
            positives,
            left_by(rules[b], positives, remaining),
            sources,
            negatives,
            i - 1,
        );
    }
}

/// No rule of the space covers more than the one that is picked while sparing the pool, nor as
/// much with fewer features; and if none is picked, every rule that covers something fires on the
/// pool.
pub proof fn lemma_the_best_rule_is_best(
    rules: Seq<Predicate>,
    positives: Seq<u64>,
    remaining: Seq<usize>,
    sources: Seq<Source>,
    negatives: Seq<u64>,
    i: int,
)
    requires
        0 <= i < rules.len(),
        eligible(rules[i], positives, remaining, negatives),
    ensures
        best_of(rules, positives, remaining, sources, negatives) is Some,
        !beats(
            rules[i],
            best_of(rules, positives, remaining, sources, negatives)->0.predicate,
            positives,
            remaining,
        ),
{
    lemma_best_is_eligible(rules, positives, remaining, negatives, rules.len());
}

/// A rule that is tied with the one that is picked spares the pool and scores the same.
pub proof fn lemma_a_tie_is_a_tie(
    rules: Seq<Predicate>,
    positives: Seq<u64>,
    remaining: Seq<usize>,
    negatives: Seq<u64>,
    b: int,
    n: int,
    i: int,
)
    requires
        n <= rules.len(),
        0 <= i < ties_upto(rules, positives, remaining, negatives, b, n).len(),
    ensures
        ({
            let p = ties_upto(rules, positives, remaining, negatives, b, n)[i];
            eligible(p, positives, remaining, negatives) && level(
                p,
                rules[b],
                positives,
                remaining,
            )
        }),
    decreases n,
{
    if n > b + 1 && n > 0 && i < ties_upto(
        rules,
        positives,
        remaining,
        negatives,
        b,
        n - 1,
    ).len() {
        lemma_a_tie_is_a_tie(rules, positives, remaining, negatives, b, n - 1, i);
    }
}

/// Whether some rule of a list covers a finding.
pub open spec fn is_covered(classes: Seq<CandidateModel>, x: usize) -> bool {
    exists|k: int| 0 <= k < classes.len() && (#[trigger] classes[k]).covered.contains(x)
}

/// Every finding is either covered by a committed rule or reported as unexplained, and never both.
pub proof fn lemma_every_finding_is_accounted_for(
    rules: Seq<Predicate>,
    positives: Seq<u64>,
    remaining: Seq<usize>,
    sources: Seq<Source>,
    negatives: Seq<u64>,
    x: usize,
)
    ensures
        ({
            let (classes, unexplained) = explanation(
                rules,
                positives,
                remaining,
                sources,
                negatives,
            );
            &&& remaining.contains(x) == (is_covered(classes, x) || unexplained.contains(x))
            &&& !(is_covered(classes, x) && unexplained.contains(x))
        }),
    decreases remaining.len(),
{
    let (classes, unexplained) = explanation(rules, positives, remaining, sources, negatives);
    let b = best_upto(rules, positives, remaining, negatives, rules.len());
    lemma_best_is_eligible(rules, positives, remaining, negatives, rules.len());
    if remaining.len() > 0 && b >= 0 {
        let p = rules[b];
        lemma_coverage_splits(p, positives, remaining);
        let left = left_by(p, positives, remaining);
        lemma_every_finding_is_accounted_for(rules, positives, left, sources, negatives, x);
        let tail = explanation(rules, positives, left, sources, negatives);
        let f = covers(p, positives);
        let g = |i: usize| !fires(p, positives[i as int]);
        lemma_filter_membership(remaining, f, x);
        lemma_filter_membership(remaining, g, x);
        assert(g(x) == !f(x));
        assert(classes[0].covered == remaining.filter(f));
        assert forall|k: int| 0 <= k < tail.0.len() implies #[trigger] classes[k + 1]
            == tail.0[k] by {}
        if is_covered(tail.0, x) {
            let k = choose|k: int|
                0 <= k < tail.0.len() && (#[trigger] tail.0[k]).covered.contains(x);
            assert(classes[k + 1].covered.contains(x));
        }
        if is_covered(classes, x) {
            let k = choose|k: int|
                0 <= k < classes.len() && (#[trigger] classes[k]).covered.contains(x);
            if k > 0 {
                assert(classes[k] == tail.0[k - 1]);
                assert(tail.0[k - 1].covered.contains(x));
            }
        }
    }
}

proof fn lemma_filter_membership(s: Seq<usize>, f: spec_fn(usize) -> bool, x: usize)
    ensures
        s.filter(f).contains(x) == (s.contains(x) && f(x)),
{
    if s.contains(x) && f(x) {
        let i = choose|i: int| 0 <= i < s.len() && s[i] == x;
        s.lemma_filter_contains(f, i);
    }
    if s.filter(f).contains(x) {
        let i = choose|i: int| 0 <= i < s.filter(f).len() && s.filter(f)[i] == x;
        s.lemma_filter_pred(f, i);
        s.lemma_filter_contains_rev(f, x);
    }
}

} // verus!
