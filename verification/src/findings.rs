//! What a divergence has to carry to still be of use later.
//!
//! A seed identifies a case only together with the generator that consumed it, so a finding stores
//! the whole case. It also stores the configuration that produced the case, the versions of every
//! participant, the rules it was judged under, and the legal differences that were consulted.

use vstd::prelude::*;

use crate::case::{CaseModel, OnnxCase};
use crate::environment::{Environment, EnvironmentModel};
use crate::fingerprint::recorded;
use crate::known::{catalog, is_entry, LegalDifference, Way, ENTRY_COUNT, IDS, SECTIONS, WAYS};
use crate::policy::{describe, description, drifted, has_drifted};
use crate::signature::{pairs_of, Signature, SignatureModel};
use crate::text::{same_text, texts};

verus! {

/// One recorded divergence, self-contained.
#[derive(Debug)]
pub struct StoredFinding {
    /// The key by which repeated findings are told apart.
    pub signature: String,
    /// What disagreed, for a reader.
    pub summary: String,
    /// The seed of the surrounding run. It never stands for the case.
    pub seed: u64,
    /// The configuration and the version of the generator.
    pub generator: String,
    /// The versions of every participant.
    pub environment: Environment,
    pub case: OnnxCase,
    /// What each participant produced, for a reader.
    pub outputs: Vec<(String, String)>,
    /// The rules that it was judged under. None were recorded where this is empty.
    pub policy: String,
    /// The legal differences that were consulted, and how each is handled.
    pub legal_trail: Vec<String>,
    /// The signature taken apart, where there is one.
    pub signature_parts: Option<Signature>,
}

/// What a [`StoredFinding`] holds.
#[verifier::ext_equal]
pub struct FindingModel {
    pub signature: Seq<char>,
    pub summary: Seq<char>,
    pub seed: u64,
    pub generator: Seq<char>,
    pub environment: EnvironmentModel,
    pub case: CaseModel,
    pub outputs: Seq<(Seq<char>, Seq<char>)>,
    pub policy: Seq<char>,
    pub legal_trail: Seq<Seq<char>>,
    pub signature_parts: Option<SignatureModel>,
}

impl View for StoredFinding {
    type V = FindingModel;

    open spec fn view(&self) -> FindingModel {
        FindingModel {
            signature: self.signature@,
            summary: self.summary@,
            seed: self.seed,
            generator: self.generator@,
            environment: self.environment@,
            case: self.case@,
            outputs: pairs_of(self.outputs@),
            policy: self.policy@,
            legal_trail: texts(self.legal_trail@),
            signature_parts: match self.signature_parts {
                Some(s) => Some(s@),
                None => None,
            },
        }
    }
}

// ---- the legal differences that were consulted ----

/// How a way of handling is named in a trail.
pub open spec fn way_text(way: Way) -> Seq<char> {
    match way {
        Way::Forgiven => "forgiven-by-comparison"@,
        Way::Declined => "declined-by-generator"@,
        Way::Excluded => "excluded-by-configuration"@,
    }
}

fn way_label(way: Way) -> (r: &'static str)
    ensures
        r@ == way_text(way),
{
    match way {
        Way::Forgiven => "forgiven-by-comparison",
        Way::Declined => "declined-by-generator",
        Way::Excluded => "excluded-by-configuration",
    }
}

/// What a trail says of the entry at a position of the catalog.
pub open spec fn trail_text(i: int) -> Seq<char> {
    IDS[i]@ + ": "@ + way_text(WAYS[i]) + " (SPECS §"@ + SECTIONS[i]@ + ")"@
}

/// What a trail says: one line for every entry of the catalog, in order.
pub open spec fn trail() -> Seq<Seq<char>> {
    Seq::new(11, |i: int| trail_text(i))
}

/// The legal differences in force, each with how it is handled.
pub fn legal_trail() -> (r: Vec<String>)
    ensures
        texts(r@) == trail(),
{
    let entries: Vec<LegalDifference> = catalog();
    let mut out: Vec<String> = Vec::new();
    while out.len() < entries.len()
        invariant
            out.len() <= entries.len(),
            entries.len() == ENTRY_COUNT,
            forall|i: int| 0 <= i < entries.len() ==> is_entry(#[trigger] entries@[i], i),
            forall|k: int| 0 <= k < out.len() ==> (#[trigger] out@[k])@ == trail_text(k),
        decreases entries.len() - out.len(),
    {
        let i: usize = out.len();
        assert(is_entry(entries@[i as int], i as int));
        let mut line: String = entries[i].id.to_owned();
        line.append(": ");
        line.append(way_label(entries[i].handling.way()));
        line.append(" (SPECS §");
        line.append(entries[i].citation.specs_section);
        line.append(")");
        out.push(line);
    }
    assert(texts(out@) =~= trail());
    out
}

// ---- building a finding ----

impl StoredFinding {
    /// A finding judged under the rules in force. The configuration of the generator is an argument,
    /// so that no finding can be built without it.
    pub fn new(
        signature: &str,
        summary: &str,
        seed: u64,
        generator: &str,
        environment: Environment,
        case: OnnxCase,
        outputs: Vec<(String, String)>,
    ) -> (r: Self)
        ensures
            r@ == (FindingModel {
                signature: signature@,
                summary: summary@,
                seed,
                generator: generator@,
                environment: environment@,
                case: case@,
                outputs: pairs_of(outputs@),
                policy: description(),
                legal_trail: trail(),
                signature_parts: None,
            }),
            !drifted(r@.policy),
    {
        let policy: String = describe();
        StoredFinding {
            signature: signature.to_owned(),
            summary: summary.to_owned(),
            seed,
            generator: generator.to_owned(),
            environment,
            case,
            outputs,
            policy,
            legal_trail: legal_trail(),
            signature_parts: None,
        }
    }

    /// The finding with its signature attached: the key becomes the signature's.
    pub fn with_signature(self, signature: Signature) -> (r: Self)
        ensures
            r@ == (FindingModel {
                signature: signature@.key(),
                signature_parts: Some(signature@),
                ..self@
            }),
    {
        let key: String = signature.key();
        StoredFinding {
            signature: key,
            summary: self.summary,
            seed: self.seed,
            generator: self.generator,
            environment: self.environment,
            case: self.case,
            outputs: self.outputs,
            policy: self.policy,
            legal_trail: self.legal_trail,
            signature_parts: Some(signature),
        }
    }

    /// Whether the finding was judged under the rules in force. One that records no rules was not.
    pub fn policy_is_current(&self) -> (r: bool)
        ensures
            r == !drifted(self@.policy),
    {
        !has_drifted(self.policy.as_str())
    }
}

// ---- telling repeated findings apart ----

/// The signatures that a log already holds, in the order in which they were recorded.
#[derive(Debug)]
pub struct FindingsLog {
    seen: Vec<String>,
}

impl View for FindingsLog {
    type V = Seq<Seq<char>>;

    closed spec fn view(&self) -> Seq<Seq<char>> {
        texts(self.seen@)
    }
}

impl FindingsLog {
    /// Whether no signature occurs twice. A new log has this, and every method keeps it.
    pub open spec fn distinct_ones(&self) -> bool {
        self@.no_duplicates()
    }

    /// A log without signatures.
    pub fn new() -> (r: Self)
        ensures
            r@ == Seq::<Seq<char>>::empty(),
            r.distinct_ones(),
    {
        let r: FindingsLog = FindingsLog { seen: Vec::new() };
        assert(r@ =~= Seq::empty());
        r
    }

    /// Whether a signature is one of them.
    pub fn holds(&self, signature: &str) -> (r: bool)
        ensures
            r == self@.contains(signature@),
    {
        let mut i: usize = 0;
        while i < self.seen.len()
            invariant
                i <= self.seen.len(),
                forall|k: int| 0 <= k < i ==> #[trigger] self@[k] != signature@,
            decreases self.seen.len() - i,
        {
            assert(self@[i as int] == self.seen@[i as int]@);
            if same_text(self.seen[i].as_str(), signature) {
                return true;
            }
            i += 1;
        }
        false
    }

    /// Takes over a signature that stands in a stored log. One that stands there twice is taken
    /// over once.
    pub fn load(&mut self, signature: &str)
        ensures
            final(self)@ == if old(self)@.contains(signature@) {
                old(self)@
            } else {
                old(self)@.push(signature@)
            },
            old(self).distinct_ones() ==> final(self).distinct_ones(),
    {
        self.record(signature);
    }

    /// Adds a signature unless it is there already, and says whether it was new.
    pub fn record(&mut self, signature: &str) -> (r: bool)
        ensures
            r == !old(self)@.contains(signature@),
            final(self)@ == if r {
                old(self)@.push(signature@)
            } else {
                old(self)@
            },
            old(self).distinct_ones() ==> final(self).distinct_ones(),
    {
        if self.holds(signature) {
            return false;
        }
        let ghost before = self.seen@;
        self.seen.push(signature.to_owned());
        assert(texts(self.seen@) =~= texts(before).push(signature@));
        true
    }

    /// How many there are.
    pub fn distinct(&self) -> (r: usize)
        ensures
            r == self@.len(),
            self.distinct_ones() ==> r == self@.to_set().len(),
    {
        proof {
            if self.distinct_ones() {
                self@.unique_seq_to_set();
            }
        }
        self.seen.len()
    }
}

// ---- laws ----

/// A finding that records no rules is never taken to have been judged under those in force.
pub proof fn lemma_no_rules_are_not_the_current_ones()
    ensures
        drifted(Seq::<char>::empty()),
{
    assert(recorded(Seq::<char>::empty()) is None);
}

/// Every entry of the catalog is named in the trail of a finding.
pub proof fn lemma_the_trail_names_every_entry(i: int)
    requires
        0 <= i < ENTRY_COUNT,
    ensures
        trail().len() == ENTRY_COUNT,
        IDS[i]@.is_prefix_of(trail()[i]),
{
    assert(trail()[i].take(IDS[i]@.len() as int) =~= IDS[i]@);
}

/// A finding that is recorded is not new a second time, whatever was recorded in between.
pub proof fn lemma_a_signature_is_recorded_once(
    before: Seq<Seq<char>>,
    signature: Seq<char>,
    later: Seq<Seq<char>>,
)
    requires
        before.push(signature).is_prefix_of(later),
    ensures
        later.contains(signature),
{
    assert(later[before.len() as int] == before.push(signature)[before.len() as int]);
}

} // verus!
