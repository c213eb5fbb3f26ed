//! A rule about inputs: features that must hold and features that must not.

use vstd::prelude::*;

use crate::features::{count_bits, feature_index, has_bit, lemma_no_bit};
use crate::features::{lemma_set_bit, lemma_some_bit, ones, position_of, FeatureVec, FEATURES};
use crate::features::FEATURE_COUNT;
use crate::text::{join, join_text, texts};

verus! {

/// A conjunction of features, each required or forbidden.
#[derive(Debug, Clone, Copy, PartialEq, Eq, Structural)]
pub struct Predicate {
    pub required: u64,
    pub forbidden: u64,
}

impl Default for Predicate {
    fn default() -> (r: Self)
        ensures
            r.required == 0,
            r.forbidden == 0,
    {
        Predicate { required: 0, forbidden: 0 }
    }
}

/// Whether a rule fires on a feature vector: all that it requires is there, and nothing that it
/// forbids.
pub open spec fn fires(p: Predicate, word: u64) -> bool {
    forall|k: u64|
        k < 64 ==> (has_bit(p.required, k) ==> #[trigger] has_bit(word, k)) && (has_bit(
            p.forbidden,
            k,
        ) ==> !has_bit(word, k))
}

/// How many features a rule speaks of.
pub open spec fn rule_size(p: Predicate) -> nat {
    ones(p.required, 64) + ones(p.forbidden, 64)
}

/// Whether one of a list of names is the feature at a position.
pub open spec fn names_feature(names: Seq<&str>, k: int) -> bool {
    exists|i: int| 0 <= i < names.len() && feature_index((#[trigger] names[i])@) == k
}

/// The parts of a rule's description, from the first `n` features.
pub open spec fn parts_upto(p: Predicate, n: nat) -> Seq<Seq<char>>
    decreases n,
{
    if n == 0 {
        Seq::empty()
    } else {
        let k = (n - 1) as u64;
        let rest = parts_upto(p, (n - 1) as nat);
        let with_required = if has_bit(p.required, k) {
            rest.push(FEATURES[n - 1]@)
        } else {
            rest
        };
        if has_bit(p.forbidden, k) {
            with_required.push("¬"@ + FEATURES[n - 1]@)
        } else {
            with_required
        }
    }
}

/// How a rule is written.
pub open spec fn rule_text(p: Predicate) -> Seq<char> {
    if p.required == 0 && p.forbidden == 0 {
        "(matches everything)"@
    } else {
        join_text(parts_upto(p, 55), " ∧ "@)
    }
}

proof fn lemma_fires(p: Predicate, word: u64)
    ensures
        (word & p.required == p.required && word & p.forbidden == 0) == fires(p, word),
{
    let req = p.required;
    let forb = p.forbidden;
    if word & req == req && word & forb == 0 {
        assert forall|k: u64| k < 64 implies (has_bit(req, k) ==> #[trigger] has_bit(word, k)) && (
        has_bit(forb, k) ==> !has_bit(word, k)) by {
            assert((req & (1u64 << k) != 0 ==> word & (1u64 << k) != 0) && (forb & (1u64 << k) != 0
                ==> word & (1u64 << k) == 0)) by (bit_vector)
                requires
                    k < 64,
                    word & req == req,
                    word & forb == 0,
            ;
        }
    } else if fires(p, word) {
        let missing = req & !word;
        let clash = forb & word;
        assert((missing == 0) == (word & req == req)) by (bit_vector)
            requires
                missing == req & !word,
        ;
        assert((clash == 0) == (word & forb == 0)) by (bit_vector)
            requires
                clash == forb & word,
        ;
        if missing != 0 {
            lemma_some_bit(missing, 64);
            let k = choose|k: u64| k < 64 && #[trigger] has_bit(missing, k);
            assert(req & (1u64 << k) != 0 && word & (1u64 << k) == 0) by (bit_vector)
                requires
                    missing == req & !word,
                    missing & (1u64 << k) != 0,
            ;
            assert(has_bit(req, k) && !has_bit(word, k));
        } else {
            lemma_some_bit(clash, 64);
            let k = choose|k: u64| k < 64 && #[trigger] has_bit(clash, k);
            assert(forb & (1u64 << k) != 0 && word & (1u64 << k) != 0) by (bit_vector)
                requires
                    clash == forb & word,
                    clash & (1u64 << k) != 0,
            ;
            assert(has_bit(forb, k) && has_bit(word, k));
        }
    }
}

fn mask(names: &[&str]) -> (r: u64)
    ensures
        forall|k: int| 0 <= k < 55 ==> #[trigger] has_bit(r, k as u64) == names_feature(names@, k),
        forall|k: int| 55 <= k < 64 ==> !#[trigger] has_bit(r, k as u64),
{
    let mut word: u64 = 0;
    let mut i: usize = 0;
    proof {
        assert forall|j: int| 0 <= j < 64 implies !#[trigger] has_bit(0, j as u64) by {
            lemma_no_bit(j as u64);
        }
    }
    while i < names.len()
        invariant
            i <= names.len(),
            forall|k: int|
                0 <= k < 55 ==> #[trigger] has_bit(word, k as u64) == exists|j: int|
                    0 <= j < i && feature_index((#[trigger] names@[j])@) == k,
            forall|k: int| 55 <= k < 64 ==> !#[trigger] has_bit(word, k as u64),
        decreases names.len() - i,
    {
        let bit: usize = position_of(names[i]);
        let ghost before = word;
        if bit < FEATURE_COUNT {
            proof {
                assert forall|j: int| 0 <= j < 64 implies #[trigger] has_bit(
                    before | (1u64 << (bit as u64)),
                    j as u64,
                ) == (j == bit || has_bit(before, j as u64)) by {
                    lemma_set_bit(before, bit as u64, j as u64);
                }
            }
            word = word | (1u64 << (bit as u64));
        }
        i += 1;
    }
    word
}

impl Predicate {
    /// The rule with the named features. A name that is not in the vocabulary is left out: it may
    /// come from a rule that was recorded under another one. A feature that is named in both lists
    /// is required, so that no feature is ever both.
    pub fn new(required: &[&str], forbidden: &[&str]) -> (r: Self)
        ensures
            forall|k: int|
                0 <= k < 55 ==> #[trigger] has_bit(r.required, k as u64) == names_feature(
                    required@,
                    k,
                ),
            forall|k: int|
                0 <= k < 55 ==> #[trigger] has_bit(r.forbidden, k as u64) == (names_feature(
                    forbidden@,
                    k,
                ) && !names_feature(required@, k)),
            forall|k: int| 55 <= k < 64 ==> !#[trigger] has_bit(r.required, k as u64),
            forall|k: int| 55 <= k < 64 ==> !#[trigger] has_bit(r.forbidden, k as u64),
            r.required & r.forbidden == 0,
    {
        let required: u64 = mask(required);
        let named: u64 = mask(forbidden);
        let forbidden: u64 = named & !required;
        proof {
            assert(required & forbidden == 0) by (bit_vector)
                requires
                    forbidden == named & !required,
            ;
            assert forall|k: int| 0 <= k < 64 implies #[trigger] has_bit(forbidden, k as u64) == (
            has_bit(named, k as u64) && !has_bit(required, k as u64)) by {
                let bit = k as u64;
                assert((forbidden & (1u64 << bit) != 0) == (named & (1u64 << bit) != 0 && required
                    & (1u64 << bit) == 0)) by (bit_vector)
                    requires
                        forbidden == named & !required,
                        bit < 64,
                ;
            }
        }
        Predicate { required, forbidden }
    }

    /// Whether the rule fires on a case's features.
    pub fn matches(&self, features: FeatureVec) -> (r: bool)
        ensures
            r == fires(*self, features.0),
    {
        proof {
            lemma_fires(*self, features.0);
        }
        features.0 & self.required == self.required && features.0 & self.forbidden == 0
    }

    /// How many features the rule speaks of.
    pub fn size(&self) -> (r: u32)
        ensures
            r == rule_size(*self),
    {
        count_bits(self.required) + count_bits(self.forbidden)
    }

    /// Whether the rule says nothing, and so fires on everything.
    pub fn is_vacuous(&self) -> (r: bool)
        ensures
            r == (self.required == 0 && self.forbidden == 0),
    {
        self.required == 0 && self.forbidden == 0
    }

    /// The rule in words.
    pub fn describe(&self) -> (r: String)
        ensures
            r@ == rule_text(*self),
    {
        if self.is_vacuous() {
            return "(matches everything)".to_owned();
        }
        let mut parts: Vec<String> = Vec::new();
        let mut k: usize = 0;
        assert(texts(parts@) =~= Seq::empty());
        while k < FEATURE_COUNT
            invariant
                k <= 55,
                FEATURES@.len() == 55,
                texts(parts@) == parts_upto(*self, k as nat),
            decreases 55 - k,
        {
            let ghost before = texts(parts@);
            if self.required & (1u64 << (k as u64)) != 0 {
                parts.push(FEATURES[k].to_owned());
                assert(texts(parts@) =~= before.push(FEATURES[k as int]@));
            }
            let ghost middle = texts(parts@);
            if self.forbidden & (1u64 << (k as u64)) != 0 {
                let mut part: String = "¬".to_owned();
                part.append(FEATURES[k]);
                parts.push(part);
                assert(texts(parts@) =~= middle.push("¬"@ + FEATURES[k as int]@));
            }
            k += 1;
        }
        join(&parts, " ∧ ")
    }
}

/// The rule that says nothing fires on everything.
pub proof fn lemma_the_vacuous_rule_fires_on_everything(p: Predicate, word: u64)
    requires
        p.required == 0,
        p.forbidden == 0,
    ensures
        fires(p, word),
{
    assert forall|k: u64| k < 64 implies (has_bit(p.required, k) ==> #[trigger] has_bit(word, k))
        && (has_bit(p.forbidden, k) ==> !has_bit(word, k)) by {
        lemma_no_bit(k);
    }
}

/// A rule with more demands fires on fewer cases.
pub proof fn lemma_a_stricter_rule_fires_less(p: Predicate, q: Predicate, word: u64)
    requires
        forall|k: u64| k < 64 && has_bit(p.required, k) ==> #[trigger] has_bit(q.required, k),
        forall|k: u64| k < 64 && has_bit(p.forbidden, k) ==> #[trigger] has_bit(q.forbidden, k),
        fires(q, word),
    ensures
        fires(p, word),
{
    assert forall|k: u64| k < 64 implies (has_bit(p.required, k) ==> #[trigger] has_bit(word, k))
        && (has_bit(p.forbidden, k) ==> !has_bit(word, k)) by {
        if has_bit(p.required, k) {
            assert(has_bit(q.required, k));
        }
        if has_bit(p.forbidden, k) {
            assert(has_bit(q.forbidden, k));
        }
    }
}

} // verus!
