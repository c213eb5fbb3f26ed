//! Testing a rule against cases it was never fitted to.
//!
//! A rule that fits some findings can always be found. The honest test of a claimed trigger is the
//! one it invites: draw cases that nobody has seen, keep those that the rule matches, and see
//! whether they diverge. A rule that nothing matched is reported as out of reach and not as
//! refuted, and a handful of matches gives no verdict.

use vstd::prelude::*;

use crate::case::{CaseModel, OnnxCase};
use crate::features::{feature_word, features, has_bit, measurable};
use crate::generator::OnnxGenerator;
use crate::limits::is_measurable;
use crate::predicate::{fires, Predicate};
use crate::rng::SeededRng;
use crate::text::{decimal, decimal_wide, decimal_text};

verus! {

/// Of a hundred matched cases, how many must diverge for a rule to count as a trigger. Half is
/// where a match says anything at all.
pub const TRIGGER_PERCENT: usize = 50;

/// How many matched cases are needed for a verdict.
pub const MIN_MATCHED: usize = 30;

/// What sampling concluded about a rule.
#[derive(Debug, Clone, Copy, PartialEq, Eq, Structural)]
pub enum Outcome {
    /// The matched cases diverge often enough.
    Trigger,
    /// The matched cases mostly do not diverge. The rule fitted the findings only.
    Coincidence,
    /// Too few cases matched to judge.
    Inconclusive,
    /// No case matched: the generator does not reach what the rule describes.
    NeverSampled,
}

impl Outcome {
    /// What a report says of an outcome.
    pub open spec fn text(self) -> Seq<char> {
        match self {
            Outcome::Trigger => "TRIGGER"@,
            Outcome::Coincidence => "COINCIDENCE, discard"@,
            Outcome::Inconclusive => "INCONCLUSIVE, too few matched"@,
            Outcome::NeverSampled => "NOT REACHABLE by this generator"@,
        }
    }

    fn label(self) -> (r: &'static str)
        ensures
            r@ == self.text(),
    {
        match self {
            Outcome::Trigger => "TRIGGER",
            Outcome::Coincidence => "COINCIDENCE, discard",
            Outcome::Inconclusive => "INCONCLUSIVE, too few matched",
            Outcome::NeverSampled => "NOT REACHABLE by this generator",
        }
    }
}

/// What the counts say about a rule.
pub open spec fn outcome_of(matched: nat, diverged: nat) -> Outcome {
    if matched == 0 {
        Outcome::NeverSampled
    } else if matched < MIN_MATCHED {
        Outcome::Inconclusive
    } else if 100 * diverged >= TRIGGER_PERCENT * matched {
        Outcome::Trigger
    } else {
        Outcome::Coincidence
    }
}

/// The evidence behind an [`Outcome`].
#[derive(Debug, Clone, Copy, PartialEq, Eq, Structural)]
pub struct Validation {
    pub predicate: Predicate,
    /// The seed that the sampling ran from.
    pub seed: u64,
    /// How many cases were drawn.
    pub sampled: usize,
    /// How many of those the rule matched.
    pub matched: usize,
    /// How many of those diverged.
    pub diverged: usize,
    pub outcome: Outcome,
}

/// A ratio in percent, to the nearest whole number and to an even one where two are as near.
pub open spec fn percent(part: nat, whole: nat) -> nat {
    let hundredfold = 100 * part;
    let low = hundredfold / whole;
    let twice = 2 * (hundredfold % whole);
    if twice < whole || (twice == whole && low % 2 == 0) {
        low
    } else {
        low + 1
    }
}

impl Validation {
    /// How many of how many matched cases diverged, or nothing where no case matched: that is not a
    /// rate of zero.
    pub fn rate(&self) -> (r: Option<(usize, usize)>)
        ensures
            r == if self.matched > 0 {
                Some((self.diverged, self.matched))
            } else {
                None
            },
    {
        if self.matched > 0 {
            Some((self.diverged, self.matched))
        } else {
            None
        }
    }

    /// The counts in words.
    pub open spec fn head_text(self) -> Seq<char> {
        if self.matched > 0 {
            decimal_text(self.diverged as nat) + "/"@ + decimal_text(self.matched as nat)
                + " matched cases diverged ("@ + decimal_text(
                percent(self.diverged as nat, self.matched as nat),
            ) + "%)"@
        } else {
            "no case matched"@
        }
    }

    /// The evidence as one line.
    pub open spec fn text(self) -> Seq<char> {
        self.head_text() + ", from "@ + decimal_text(self.sampled as nat) + " sampled, seed "@
            + decimal_text(self.seed as nat) + " — "@ + self.outcome.text()
    }

    /// The evidence as one line, the numbers before the verdict.
    pub fn describe(&self) -> (r: String)
        ensures
            r@ == self.text(),
    {
        let mut out: String = String::new();
        if self.matched > 0 {
            out.append(decimal(self.diverged as u64).as_str());
            out.append("/");
            out.append(decimal(self.matched as u64).as_str());
            out.append(" matched cases diverged (");
            let hundredfold: u128 = 100 * (self.diverged as u128);
            let whole: u128 = self.matched as u128;
            let low: u128 = hundredfold / whole;
            let twice: u128 = 2 * (hundredfold % whole);
            assert(low <= hundredfold) by (nonlinear_arith)
                requires
                    low == hundredfold / whole,
                    whole > 0,
                    hundredfold >= 0,
            ;
            let rounded: u128 = if twice < whole || (twice == whole && low % 2 == 0) {
                low
            } else {
                low + 1
            };
            assert(rounded == percent(self.diverged as nat, self.matched as nat));
            out.append(decimal_wide(rounded).as_str());
            out.append("%)");
        } else {
            out.append("no case matched");
        }
        assert(out@ =~= self.head_text());
        out.append(", from ");
        out.append(decimal(self.sampled as u64).as_str());
        out.append(" sampled, seed ");
        out.append(decimal(self.seed).as_str());
        out.append(" — ");
        out.append(self.outcome.label());
        assert(out@ =~= self.text());
        out
    }
}

/// Whether a rule matches a case. Of a case whose shapes cannot be counted it says nothing.
pub open spec fn selects(p: Predicate, c: CaseModel) -> bool {
    measurable(c) && fires(p, feature_word(c))
}

/// Whether a rule matches a case.
pub fn is_selected(predicate: Predicate, case: &OnnxCase) -> (r: bool)
    ensures
        r == selects(predicate, case@),
{
    is_measurable(case) && predicate.matches(features(case))
}

/// The verdict on a rule, given what was counted.
pub fn conclude(
    predicate: Predicate,
    seed: u64,
    sampled: usize,
    matched: usize,
    diverged: usize,
) -> (r: Validation)
    ensures
        r == (Validation {
            predicate,
            seed,
            sampled,
            matched,
            diverged,
            outcome: outcome_of(matched as nat, diverged as nat),
        }),
{
    let outcome: Outcome = if matched == 0 {
        Outcome::NeverSampled
    } else if matched < MIN_MATCHED {
        Outcome::Inconclusive
    } else if 100 * (diverged as u128) >= (TRIGGER_PERCENT as u128) * (matched as u128) {
        Outcome::Trigger
    } else {
        Outcome::Coincidence
    };
    Validation { predicate, seed, sampled, matched, diverged, outcome }
}

/// How many of the first `n` cases a rule matches.
pub open spec fn matched_among(p: Predicate, cases: Seq<OnnxCase>, n: nat) -> nat
    decreases n,
{
    if n == 0 {
        0
    } else {
        matched_among(p, cases, (n - 1) as nat) + if selects(p, cases[n - 1]@) {
            1nat
        } else {
            0nat
        }
    }
}

/// How many of the first `n` cases a rule matches and were said to diverge.
pub open spec fn diverged_among(p: Predicate, cases: Seq<OnnxCase>, verdicts: Seq<bool>, n: nat) -> nat
    decreases n,
{
    if n == 0 {
        0
    } else {
        diverged_among(p, cases, verdicts, (n - 1) as nat) + if selects(p, cases[n - 1]@)
            && verdicts[n - 1] {
            1nat
        } else {
            0nat
        }
    }
}

/// Draws `budget` cases and measures how often those that a rule matches diverge. `diverges` is
/// asked about the matched cases only, once about each.
///
/// Which cases are drawn is a matter of chance. All are cases that the generator draws, and what is
/// counted is exact for them.
pub fn validate<F: Fn(&OnnxCase) -> bool>(
    predicate: Predicate,
    generator: &OnnxGenerator,
    seed: u64,
    budget: usize,
    diverges: F,
) -> (r: Validation)
    requires
        generator.ready(),
        forall|c: &OnnxCase|
            generator.draws(c@) && selects(predicate, c@) ==> #[trigger] call_requires(
                diverges,
                (c,),
            ),
    ensures
        r.predicate == predicate,
        r.seed == seed,
        r.sampled == budget,
        r.diverged <= r.matched <= r.sampled,
        r.outcome == outcome_of(r.matched as nat, r.diverged as nat),
        exists|cases: Seq<OnnxCase>, verdicts: Seq<bool>|
            {
                &&& cases.len() == budget
                &&& verdicts.len() == budget
                &&& forall|i: int|
                    0 <= i < budget ==> generator.draws((#[trigger] cases[i])@)
                &&& forall|i: int|
                    0 <= i < budget && selects(predicate, (#[trigger] cases[i])@) ==> call_ensures(
                        diverges,
                        (&cases[i],),
                        verdicts[i],
                    )
                &&& r.matched == #[trigger] matched_among(predicate, cases, budget as nat)
                &&& r.diverged == #[trigger] diverged_among(
                    predicate,
                    cases,
                    verdicts,
                    budget as nat,
                )
            },
{
    let mut rng: SeededRng = SeededRng::from_seed(seed);
    let mut matched: usize = 0;
    let mut diverged: usize = 0;
    let ghost mut cases: Seq<OnnxCase> = Seq::empty();
    let ghost mut verdicts: Seq<bool> = Seq::empty();
    let mut drawn: usize = 0;
    while drawn < budget
        invariant
            drawn <= budget,
            generator.ready(),
            forall|c: &OnnxCase|
                generator.draws(c@) && selects(predicate, c@) ==> #[trigger] call_requires(
                    diverges,
                    (c,),
                ),
            diverged <= matched <= drawn,
            cases.len() == drawn,
            verdicts.len() == drawn,
            forall|i: int| 0 <= i < drawn ==> generator.draws((#[trigger] cases[i])@),
            forall|i: int|
                0 <= i < drawn && selects(predicate, (#[trigger] cases[i])@) ==> call_ensures(
                    diverges,
                    (&cases[i],),
                    verdicts[i],
                ),
            matched == matched_among(predicate, cases, drawn as nat),
            diverged == diverged_among(predicate, cases, verdicts, drawn as nat),
        decreases budget - drawn,
    {
        let case: OnnxCase = generator.generate(&mut rng);
        let ghost earlier = cases;
        let ghost said = verdicts;
        let mut verdict: bool = false;
        if is_selected(predicate, &case) {
            matched += 1;
            verdict = diverges(&case);
            if verdict {
                diverged += 1;
            }
        }
        proof {
            cases = cases.push(case);
            verdicts = verdicts.push(verdict);
            lemma_counts_look_back(predicate, earlier, said, case, verdict, drawn as nat);
        }
        drawn += 1;
    }
    conclude(predicate, seed, budget, matched, diverged)
}

proof fn lemma_counts_look_back(
    p: Predicate,
    cases: Seq<OnnxCase>,
    verdicts: Seq<bool>,
    case: OnnxCase,
    verdict: bool,
    n: nat,
)
    requires
        n <= cases.len(),
        n <= verdicts.len(),
    ensures
        matched_among(p, cases.push(case), n) == matched_among(p, cases, n),
        diverged_among(p, cases.push(case), verdicts.push(verdict), n) == diverged_among(
            p,
            cases,
            verdicts,
            n,
        ),
    decreases n,
{
    if n > 0 {
        lemma_counts_look_back(p, cases, verdicts, case, verdict, (n - 1) as nat);
    }
}

// ---- laws ----

/// No match is not a rate of zero: a rule that nothing matched is never called a coincidence, and a
/// rule with too few matches is given no verdict either way.
pub proof fn lemma_verdicts_need_matches(matched: nat, diverged: nat)
    requires
        diverged <= matched,
    ensures
        outcome_of(matched, diverged) is Trigger || outcome_of(matched, diverged) is Coincidence
            <==> matched >= MIN_MATCHED,
        outcome_of(matched, diverged) is NeverSampled <==> matched == 0,
{
}

/// More divergences among the same matches never turn a trigger into a coincidence.
pub proof fn lemma_divergence_speaks_for_a_trigger(matched: nat, fewer: nat, more: nat)
    requires
        fewer <= more <= matched,
        outcome_of(matched, fewer) is Trigger,
    ensures
        outcome_of(matched, more) is Trigger,
{
}

/// The rule that claims nothing matches every case that can be measured, so that sampling alone
/// cannot refute it: where every case diverges it counts as a trigger.
pub proof fn lemma_the_empty_rule_selects_everything(p: Predicate, c: CaseModel, matched: nat)
    requires
        p.required == 0,
        p.forbidden == 0,
        measurable(c),
    ensures
        selects(p, c),
        matched >= MIN_MATCHED ==> outcome_of(matched, matched) is Trigger,
{
    assert forall|k: u64| k < 64 implies !has_bit(0, k) by {
        assert(0u64 & (1u64 << k) == 0) by (bit_vector);
    }
}

} // verus!
